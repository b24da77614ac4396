//! Names of tensors and fields: no two layers share a tensor, and each size is read from the field
//! that is named after it.
use vstd::prelude::*;

use crate::loading::{
    decimal, digit, has_tensor, is_layer_plan, kind_of, tensor_text, LayerKind, LayerPlan,
    Placement, Slot,
};
use crate::props::{lookup, MetaValue, Metadata, PropsGGUF};

verus! {

/// The number that a digit stands for.
pub open spec fn digit_value(c: char) -> nat {
    if c == '1' {
        1
    } else if c == '2' {
        2
    } else if c == '3' {
        3
    } else if c == '4' {
        4
    } else if c == '5' {
        5
    } else if c == '6' {
        6
    } else if c == '7' {
        7
    } else if c == '8' {
        8
    } else if c == '9' {
        9
    } else {
        0
    }
}

/// The number that digits write.
pub open spec fn number_of(text: Seq<char>) -> nat
    decreases text.len(),
{
    if text.len() == 0 {
        0
    } else {
        10 * number_of(text.drop_last()) + digit_value(text.last())
    }
}

/// Digits write the number that they were made of, and there is nothing but digits.
pub proof fn digits_are_read_back(n: nat)
    ensures
        number_of(decimal(n)) == n,
        decimal(n).len() > 0,
        forall|i: int| 0 <= i < decimal(n).len() ==> #[trigger] decimal(n)[i] != '.',
    decreases n,
{
    reveal_with_fuel(number_of, 2);
    if n < 10 {
        assert(decimal(n).drop_last() =~= Seq::empty());
    } else {
        digits_are_read_back(n / 10);
        assert(decimal(n).drop_last() =~= decimal(n / 10));
        assert(decimal(n).last() == digit(n % 10));
        assert forall|i: int| 0 <= i < decimal(n).len() implies #[trigger] decimal(n)[i] != '.' by {
            if i < decimal(n / 10).len() {
                assert(decimal(n)[i] == decimal(n / 10)[i]);
            }
        }
    }
}

/// What a tensor is called within its layer begins with a dot.
proof fn slots_begin_with_dots(slot: Slot)
    ensures
        slot.text().len() > 0,
        slot.text()[0] == '.',
{
    reveal_strlit(".attn_qkv.weight");
    reveal_strlit(".attn_gate.weight");
    reveal_strlit(".ssm_conv1d.weight");
    reveal_strlit(".ssm_a");
    reveal_strlit(".ssm_dt.bias");
    reveal_strlit(".ssm_alpha.weight");
    reveal_strlit(".ssm_beta.weight");
    reveal_strlit(".ssm_out.weight");
    reveal_strlit(".ssm_norm.weight");
    reveal_strlit(".ffn_gate_inp.weight");
    reveal_strlit(".ffn_gate_exps.weight");
    reveal_strlit(".ffn_up_exps.weight");
    reveal_strlit(".ffn_down_exps.weight");
    reveal_strlit(".ffn_gate.weight");
    reveal_strlit(".ffn_down.weight");
    reveal_strlit(".ffn_up.weight");
    reveal_strlit(".attn_q.weight");
    reveal_strlit(".attn_k.weight");
    reveal_strlit(".attn_v.weight");
    reveal_strlit(".attn_output.weight");
    reveal_strlit(".attn_q_norm.weight");
    reveal_strlit(".attn_k_norm.weight");
    reveal_strlit(".attn_norm.weight");
    reveal_strlit(".post_attention_norm.weight");
    reveal_strlit(".ffn_norm.weight");
}

/// Tensors of two layers never share a name, and those of one layer share one only where they are
/// called the same within it.
pub proof fn layers_share_no_tensor(layer: nat, slot: Slot, other: nat, that: Slot)
    requires
        tensor_text(layer, slot) == tensor_text(other, that),
    ensures
        layer == other,
        slot.text() == that.text(),
{
    let a = decimal(layer);
    let b = decimal(other);
    let s = tensor_text(layer, slot);
    let t = tensor_text(other, that);
    reveal_strlit("blk.");
    digits_are_read_back(layer);
    digits_are_read_back(other);
    slots_begin_with_dots(slot);
    slots_begin_with_dots(that);
    let n = a.len() as int;
    let m = b.len() as int;
    assert(s[4 + n] == slot.text()[0]);
    assert(t[4 + m] == that.text()[0]);
    if n < m {
        assert(t[4 + n] == b[n]);
    }
    if m < n {
        assert(s[4 + m] == a[m]);
    }
    assert(s.subrange(4, 4 + n) =~= a);
    assert(t.subrange(4, 4 + m) =~= b);
    assert(s.skip(4 + n) =~= slot.text());
    assert(t.skip(4 + m) =~= that.text());
}

/// What stands under a key is what its first entry holds, and nothing stands under a key without an
/// entry.
pub proof fn first_entry_counts(entries: Seq<(String, MetaValue)>, key: Seq<char>)
    ensures
        match lookup(entries, key) {
            Some(v) => exists|i: int|
                {
                    &&& 0 <= i < entries.len()
                    &&& (#[trigger] entries[i]).0@ == key
                    &&& entries[i].1 == v
                    &&& forall|j: int| 0 <= j < i ==> (#[trigger] entries[j]).0@ != key
                },
            None => forall|i: int| 0 <= i < entries.len() ==> (#[trigger] entries[i]).0@ != key,
        },
    decreases entries.len(),
{
    if entries.len() > 0 && entries[0].0@ != key {
        let rest = entries.drop_first();
        first_entry_counts(rest, key);
        match lookup(rest, key) {
            Some(v) => {
                let i = choose|i: int|
                    {
                        &&& 0 <= i < rest.len()
                        &&& (#[trigger] rest[i]).0@ == key
                        &&& rest[i].1 == v
                        &&& forall|j: int| 0 <= j < i ==> (#[trigger] rest[j]).0@ != key
                    };
                assert(entries[i + 1] == rest[i]);
                assert forall|j: int| 0 <= j < i + 1 implies (#[trigger] entries[j]).0@ != key by {
                    if j > 0 {
                        assert(rest[j - 1] == entries[j]);
                    }
                }
            },
            None => {
                assert forall|i: int| 0 <= i < entries.len() implies (#[trigger] entries[i]).0@
                    != key by {
                    if i > 0 {
                        assert(rest[i - 1] == entries[i]);
                    }
                }
            },
        }
    } else if entries.len() > 0 {
        assert(entries[0].0@ == key);
    }
}

/// What stands under a key of an architecture.
pub open spec fn under(m: Metadata, arch: Seq<char>, key: Seq<char>) -> Option<MetaValue> {
    m.at(arch + "."@ + key)
}

/// The number that stands under a key as a `u32`.
pub open spec fn number_under(m: Metadata, arch: Seq<char>, key: Seq<char>, x: u32) -> bool {
    under(m, arch, key) == Some(MetaValue::U32(x))
}

/// Each size is read from the field that is named after it.
pub proof fn sizes_are_read_from_their_fields(
    props: PropsGGUF,
    m: Metadata,
    arch: Seq<char>,
    x: u32,
)
    requires
        props.is_read_from(m, arch),
    ensures
        number_under(m, arch, "attention.head_count"@, x) ==> props.head_count == x as usize,
        number_under(m, arch, "attention.head_count_kv"@, x) ==> props.head_count_kv == x as usize,
        number_under(m, arch, "block_count"@, x) ==> props.block_count == x as usize,
        number_under(m, arch, "embedding_length"@, x) ==> props.embedding_length == x as usize,
        number_under(m, arch, "context_length"@, x) ==> props.max_seq_len == x as u64 as usize,
        number_under(m, arch, "attention.key_length"@, x) ==> props.key_length == x as usize,
        number_under(m, arch, "attention.value_length"@, x) ==> props.value_length == x as usize,
        number_under(m, arch, "ssm.state_size"@, x) ==> props.ssm_state_size == x as usize,
        number_under(m, arch, "ssm.time_step_rank"@, x) ==> props.ssm_time_step_rank == x as usize,
        number_under(m, arch, "ssm.inner_size"@, x) ==> props.ssm_inner_size == x as usize,
        number_under(m, arch, "ssm.group_count"@, x) ==> props.ssm_group_count == x as usize,
        number_under(m, arch, "full_attention_interval"@, x) ==> props.full_attention_interval
            == x as usize,
        number_under(m, arch, "expert_feed_forward_length"@, x)
            ==> props.moe_cfg.moe_intermediate_size == x as usize,
        number_under(m, arch, "expert_count"@, x) ==> props.moe_cfg.num_experts == Some(x as usize),
        number_under(m, arch, "expert_used_count"@, x) ==> props.moe_cfg.num_experts_per_tok
            == x as usize,
        under(m, arch, "attention.layer_norm_rms_epsilon"@) == Some(MetaValue::Float(x))
            ==> props.rms_norm_eps == x,
        under(m, arch, "rope.freq_base"@) == Some(MetaValue::Float(x)) ==> props.rope_freq_base
            == x,
{
}

/// Sizes that no field gives are the usual ones: a context of 4096 positions, a rotary base of ten
/// thousand, heads that share the embedding evenly, and no layers that keep a state.
pub proof fn sizes_without_fields_are_usual(props: PropsGGUF, m: Metadata, arch: Seq<char>)
    requires
        props.is_read_from(m, arch),
        props.head_count > 0,
    ensures
        under(m, arch, "context_length"@) is None ==> props.max_seq_len == 4096,
        under(m, arch, "rope.freq_base"@) is None ==> props.rope_freq_base == 0x461C_4000,
        under(m, arch, "attention.key_length"@) is None ==> props.key_length
            == props.embedding_length / props.head_count,
        under(m, arch, "attention.value_length"@) is None ==> props.value_length
            == props.embedding_length / props.head_count,
        under(m, arch, "ssm.inner_size"@) is None ==> props.ssm_inner_size == 0,
        under(m, arch, "ssm.state_size"@) is None ==> props.ssm_state_size == 0,
        under(m, arch, "ssm.time_step_rank"@) is None ==> props.ssm_time_step_rank == 0,
        under(m, arch, "ssm.group_count"@) is None ==> props.ssm_group_count == 0,
        under(m, arch, "full_attention_interval"@) is None ==> props.full_attention_interval == 1,
{
    let (a, b) = (props.embedding_length as int, props.head_count as int);
    assert(0 <= a / b <= a) by (nonlinear_arith)
        requires
            0 <= a,
            0 < b,
    ;
}

/// A layer keeps a state where the model has such layers and its file has the layer's kernel; any
/// other layer has attention, and experts where the model has some.
pub proof fn kernels_make_kinds(
    props: PropsGGUF,
    m: Metadata,
    arch: Seq<char>,
    names: Seq<String>,
    layer: int,
)
    requires
        props.is_read_from(m, arch),
        0 <= layer,
    ensures
        kind_of(props, names, layer) == LayerKind::Ssm <==> {
            &&& props.full_attention_interval > 0
            &&& props.ssm_inner_size > 0
            &&& has_tensor(names, "blk."@ + decimal(layer as nat) + ".ssm_conv1d.weight"@)
        },
        kind_of(props, names, layer) != LayerKind::Ssm ==> (kind_of(props, names, layer)
            == LayerKind::AttentionMoe <==> props.moe_cfg.num_experts->0 > 0),
{
    assert(!(props.moe_cfg.mlp_only_layers->0)@.contains(layer as usize));
    assert((layer + 1) % 1 == 0);
}

/// A layer is loaded where it does not run on a worker and the mapper names a device for it, and then
/// on that device. Each key head of an attention layer serves as many query heads as there are to
/// spare. The norm before the feed-forward part comes last: with attention it is that of the
/// feed-forward part wherever the file has one, and in layers that keep a state the one after
/// attention; where a file has only one of them, that one.
pub proof fn layers_are_loaded_where_placed(
    props: PropsGGUF,
    names: Seq<String>,
    placement: Placement,
    layer: int,
    plan: Option<LayerPlan>,
)
    requires
        0 <= layer,
        props.head_count_kv > 0,
        is_layer_plan(props, names, placement, layer, plan),
    ensures
        plan is None <==> placement.remote || placement.device is None,
        plan matches Some(p) ==> ({
            let own = has_tensor(names, "blk."@ + decimal(layer as nat) + ".ffn_norm.weight"@);
            let post = has_tensor(
                names,
                "blk."@ + decimal(layer as nat) + ".post_attention_norm.weight"@,
            );
            let kv = props.head_count_kv;
            &&& placement.device == Some(p.location)
            &&& p.kind == LayerKind::Ssm ==> p.n_kv_groups is None
            &&& p.kind != LayerKind::Ssm ==> (p.n_kv_groups matches Some(g) && g * kv
                <= props.head_count < g * kv + kv)
            &&& p.slots@.len() > 0
            &&& own && !post ==> p.slots@.last() == Slot::FfnNorm
            &&& post && !own ==> p.slots@.last() == Slot::PostAttentionNorm
            &&& own && post && p.kind != LayerKind::Ssm ==> p.slots@.last() == Slot::FfnNorm
            &&& own && post && p.kind == LayerKind::Ssm ==> p.slots@.last()
                == Slot::PostAttentionNorm
        }),
{
    let (a, b) = (props.head_count as int, props.head_count_kv as int);
    let g = a / b;
    assert(0 <= g <= a && g * b <= a < g * b + b) by (nonlinear_arith)
        requires
            0 <= a,
            0 < b,
            g == a / b,
    ;
}

} // verus!
