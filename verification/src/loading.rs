//! Which tensors of a model file make up the model, and where they go.
use vstd::prelude::*;
use vstd::string::StringExecFns;

use crate::props::{Metadata, PropsGGUF, QwenMoEConfig};
use crate::topology::Location;

verus! {

/// The digits of a number.
pub open spec fn decimal(n: nat) -> Seq<char>
    decreases n,
{
    if n < 10 {
        seq![digit(n)]
    } else {
        decimal(n / 10).push(digit(n % 10))
    }
}

/// A digit.
pub open spec fn digit(n: nat) -> char {
    if n == 0 {
        '0'
    } else if n == 1 {
        '1'
    } else if n == 2 {
        '2'
    } else if n == 3 {
        '3'
    } else if n == 4 {
        '4'
    } else if n == 5 {
        '5'
    } else if n == 6 {
        '6'
    } else if n == 7 {
        '7'
    } else if n == 8 {
        '8'
    } else {
        '9'
    }
}

/// A digit as a text.
fn digit_text(n: usize) -> (r: &'static str)
    requires
        n < 10,
    ensures
        r@ == seq![digit(n as nat)],
{
    proof {
        reveal_strlit("0");
        reveal_strlit("1");
        reveal_strlit("2");
        reveal_strlit("3");
        reveal_strlit("4");
        reveal_strlit("5");
        reveal_strlit("6");
        reveal_strlit("7");
        reveal_strlit("8");
        reveal_strlit("9");
    }
    let text = if n == 0 {
        "0"
    } else if n == 1 {
        "1"
    } else if n == 2 {
        "2"
    } else if n == 3 {
        "3"
    } else if n == 4 {
        "4"
    } else if n == 5 {
        "5"
    } else if n == 6 {
        "6"
    } else if n == 7 {
        "7"
    } else if n == 8 {
        "8"
    } else {
        "9"
    };
    assert(text@ =~= seq![digit(n as nat)]);
    text
}

/// Appends the digits of a number.
fn append_decimal(text: &mut String, n: usize)
    ensures
        final(text)@ == old(text)@ + decimal(n as nat),
    decreases n,
{
    if n >= 10 {
        append_decimal(text, n / 10);
    }
    text.append(digit_text(n % 10));
    proof {
        let d = digit((n % 10) as nat);
        if n >= 10 {
            assert(decimal(n as nat) == decimal((n / 10) as nat).push(d));
        }
        assert(text@ =~= old(text)@ + decimal(n as nat));
    }
}

/// A tensor of a layer.
#[derive(Debug, Clone, Copy, PartialEq, Eq, Structural)]
pub enum Slot {
    AttnQkv,
    AttnGate,
    SsmConv1d,
    SsmA,
    SsmDt,
    SsmAlpha,
    SsmBeta,
    SsmOut,
    SsmNorm,
    FfnGateInp,
    FfnGateExps,
    FfnUpExps,
    FfnDownExps,
    FfnGate,
    FfnDown,
    FfnUp,
    AttnQ,
    AttnK,
    AttnV,
    AttnOutput,
    AttnQNorm,
    AttnKNorm,
    AttnNorm,
    PostAttentionNorm,
    FfnNorm,
}

impl Slot {
    /// What the tensor is called within its layer.
    pub open spec fn text(&self) -> Seq<char> {
        match self {
            Slot::AttnQkv => ".attn_qkv.weight"@,
            Slot::AttnGate => ".attn_gate.weight"@,
            Slot::SsmConv1d => ".ssm_conv1d.weight"@,
            Slot::SsmA => ".ssm_a"@,
            Slot::SsmDt => ".ssm_dt.bias"@,
            Slot::SsmAlpha => ".ssm_alpha.weight"@,
            Slot::SsmBeta => ".ssm_beta.weight"@,
            Slot::SsmOut => ".ssm_out.weight"@,
            Slot::SsmNorm => ".ssm_norm.weight"@,
            Slot::FfnGateInp => ".ffn_gate_inp.weight"@,
            Slot::FfnGateExps => ".ffn_gate_exps.weight"@,
            Slot::FfnUpExps => ".ffn_up_exps.weight"@,
            Slot::FfnDownExps => ".ffn_down_exps.weight"@,
            Slot::FfnGate => ".ffn_gate.weight"@,
            Slot::FfnDown => ".ffn_down.weight"@,
            Slot::FfnUp => ".ffn_up.weight"@,
            Slot::AttnQ => ".attn_q.weight"@,
            Slot::AttnK => ".attn_k.weight"@,
            Slot::AttnV => ".attn_v.weight"@,
            Slot::AttnOutput => ".attn_output.weight"@,
            Slot::AttnQNorm => ".attn_q_norm.weight"@,
            Slot::AttnKNorm => ".attn_k_norm.weight"@,
            Slot::AttnNorm => ".attn_norm.weight"@,
            Slot::PostAttentionNorm => ".post_attention_norm.weight"@,
            Slot::FfnNorm => ".ffn_norm.weight"@,
        }
    }

    fn name(&self) -> (r: &'static str)
        ensures
            r@ == self.text(),
    {
        match self {
            Slot::AttnQkv => ".attn_qkv.weight",
            Slot::AttnGate => ".attn_gate.weight",
            Slot::SsmConv1d => ".ssm_conv1d.weight",
            Slot::SsmA => ".ssm_a",
            Slot::SsmDt => ".ssm_dt.bias",
            Slot::SsmAlpha => ".ssm_alpha.weight",
            Slot::SsmBeta => ".ssm_beta.weight",
            Slot::SsmOut => ".ssm_out.weight",
            Slot::SsmNorm => ".ssm_norm.weight",
            Slot::FfnGateInp => ".ffn_gate_inp.weight",
            Slot::FfnGateExps => ".ffn_gate_exps.weight",
            Slot::FfnUpExps => ".ffn_up_exps.weight",
            Slot::FfnDownExps => ".ffn_down_exps.weight",
            Slot::FfnGate => ".ffn_gate.weight",
            Slot::FfnDown => ".ffn_down.weight",
            Slot::FfnUp => ".ffn_up.weight",
            Slot::AttnQ => ".attn_q.weight",
            Slot::AttnK => ".attn_k.weight",
            Slot::AttnV => ".attn_v.weight",
            Slot::AttnOutput => ".attn_output.weight",
            Slot::AttnQNorm => ".attn_q_norm.weight",
            Slot::AttnKNorm => ".attn_k_norm.weight",
            Slot::AttnNorm => ".attn_norm.weight",
            Slot::PostAttentionNorm => ".post_attention_norm.weight",
            Slot::FfnNorm => ".ffn_norm.weight",
        }
    }
}

/// What a layer's tensor is called in a model file.
pub open spec fn tensor_text(layer: nat, slot: Slot) -> Seq<char> {
    "blk."@ + decimal(layer) + slot.text()
}

/// What a layer's tensor is called in a model file.
pub fn tensor_name(layer: usize, slot: Slot) -> (r: String)
    ensures
        r@ == tensor_text(layer as nat, slot),
{
    let mut text = "blk.".to_owned();
    append_decimal(&mut text, layer);
    text.append(slot.name());
    text
}

/// A tensor of this name is among those of the file.
pub open spec fn has_tensor(names: Seq<String>, name: Seq<char>) -> bool {
    exists|i: int| 0 <= i < names.len() && (#[trigger] names[i])@ == name
}

/// Whether a tensor of this name is among those of the file.
fn find_tensor(names: &Vec<String>, name: &String) -> (r: bool)
    ensures
        r == has_tensor(names@, name@),
{
    let mut i: usize = 0;
    while i < names.len()
        invariant
            i <= names@.len(),
            forall|k: int| 0 <= k < i ==> (#[trigger] names@[k])@ != name@,
        decreases names@.len() - i,
    {
        if names[i] == *name {
            return true;
        }
        i += 1;
    }
    false
}

/// Whether a layer has this tensor in the file.
fn has_slot(names: &Vec<String>, layer: usize, slot: Slot) -> (r: bool)
    ensures
        r == has_tensor(names@, tensor_text(layer as nat, slot)),
{
    find_tensor(names, &tensor_name(layer, slot))
}

/// The tensor that token ids are looked up in.
pub open spec fn embedding_text() -> Seq<char> {
    "token_embd.weight"@
}

/// The tensor that makes logits of hidden states: one of its own, or else that of the embedding.
pub open spec fn output_text(names: Seq<String>) -> Seq<char> {
    if has_tensor(names, "output.weight"@) {
        "output.weight"@
    } else {
        embedding_text()
    }
}

/// The tensor that makes logits of hidden states: one of its own, or else that of the embedding.
pub fn output_name(names: &Vec<String>) -> (r: &'static str)
    ensures
        r@ == output_text(names@),
{
    if find_tensor(names, &"output.weight".to_owned()) {
        "output.weight"
    } else {
        "token_embd.weight"
    }
}

/// The tensor that token ids are looked up in.
pub fn embedding_name() -> (r: &'static str)
    ensures
        r@ == embedding_text(),
{
    "token_embd.weight"
}

/// A model without a tensor of its own for logits uses the table of the embedding both ways.
pub proof fn head_is_tied(names: Seq<String>)
    ensures
        output_text(names) == embedding_text() <==> !has_tensor(names, "output.weight"@),
{
    reveal_strlit("output.weight");
    reveal_strlit("token_embd.weight");
    assert("output.weight"@.len() != "token_embd.weight"@.len());
}

/// Where a layer's weights go: whether it runs on a worker, and the device that the mapper names
/// for it, if any.
#[derive(Debug, Clone, Copy, PartialEq, Eq, Structural)]
pub struct Placement {
    pub remote: bool,
    pub device: Option<Location>,
}

impl Placement {
    /// The layer's weights are loaded here.
    pub open spec fn is_loaded(&self) -> bool {
        !self.remote && self.device is Some
    }

    /// The device that the layer's positions are turned on.
    pub open spec fn rotary_at(&self, base: Location) -> Location {
        match self.device {
            Some(at) => at,
            None => base,
        }
    }
}

/// The places where positions are turned, each once, in the order in which they first occur.
pub open spec fn rotary_places(placements: Seq<Placement>, base: Location) -> Seq<Location>
    decreases placements.len(),
{
    if placements.len() == 0 {
        Seq::empty()
    } else {
        let before = rotary_places(placements.drop_last(), base);
        let at = placements.last().rotary_at(base);
        if before.contains(at) {
            before
        } else {
            before.push(at)
        }
    }
}

/// What a layer is made of.
#[derive(Debug, Clone, Copy, PartialEq, Eq, Structural)]
pub enum LayerKind {
    /// Convolution and delta rule, then experts.
    Ssm,
    /// Attention, then experts.
    AttentionMoe,
    /// Attention, then a feed-forward layer.
    AttentionMlp,
}

/// The feed-forward part of an attention layer is spread over experts.
pub open spec fn has_experts(cfg: QwenMoEConfig, layer: int) -> bool {
    &&& !(cfg.mlp_only_layers->0)@.contains(layer as usize)
    &&& cfg.num_experts->0 > 0
    &&& (layer + 1) % (cfg.decoder_sparse_step->0 as int) == 0
}

/// What a layer of the file is made of: it mixes positions with a convolution and the delta rule
/// if the model has such layers and the file has the layer's kernel.
pub open spec fn kind_of(props: PropsGGUF, names: Seq<String>, layer: int) -> LayerKind {
    if props.full_attention_interval > 0 && props.ssm_inner_size > 0 && has_tensor(
        names,
        tensor_text(layer as nat, Slot::SsmConv1d),
    ) {
        LayerKind::Ssm
    } else if has_experts(props.moe_cfg, layer) {
        LayerKind::AttentionMoe
    } else {
        LayerKind::AttentionMlp
    }
}

/// The norm before the feed-forward part. Of the two that a file can have, layers with attention
/// take that of the feed-forward part if there is one, the others that after attention.
pub open spec fn late_norm(kind: LayerKind, names: Seq<String>, layer: int) -> Slot {
    let own = has_tensor(names, tensor_text(layer as nat, Slot::FfnNorm));
    let post = has_tensor(names, tensor_text(layer as nat, Slot::PostAttentionNorm));
    if post && (kind == LayerKind::Ssm || !own) {
        Slot::PostAttentionNorm
    } else {
        Slot::FfnNorm
    }
}

/// The tensors of the experts, in the order in which they are loaded.
pub open spec fn expert_slots() -> Seq<Slot> {
    seq![Slot::FfnGateInp, Slot::FfnGateExps, Slot::FfnUpExps, Slot::FfnDownExps]
}

/// The tensors of a layer, in the order in which they are loaded.
pub open spec fn slots_of(kind: LayerKind, late: Slot) -> Seq<Slot> {
    match kind {
        LayerKind::Ssm => seq![
            Slot::AttnQkv,
            Slot::AttnGate,
            Slot::SsmConv1d,
            Slot::SsmA,
            Slot::SsmDt,
            Slot::SsmAlpha,
            Slot::SsmBeta,
            Slot::SsmOut,
            Slot::SsmNorm,
        ] + expert_slots() + seq![Slot::AttnNorm, late],
        LayerKind::AttentionMoe => seq![Slot::AttnQ, Slot::AttnK, Slot::AttnV, Slot::AttnOutput]
            + expert_slots() + seq![Slot::AttnQNorm, Slot::AttnKNorm, Slot::AttnNorm, late],
        LayerKind::AttentionMlp => seq![Slot::AttnQ, Slot::AttnK, Slot::AttnV, Slot::AttnOutput]
            + seq![Slot::FfnGate, Slot::FfnDown, Slot::FfnUp] + seq![
            Slot::AttnQNorm,
            Slot::AttnKNorm,
            Slot::AttnNorm,
            late,
        ],
    }
}

/// How a layer is loaded.
#[derive(Debug)]
pub struct LayerPlan {
    pub kind: LayerKind,
    pub location: Location,
    /// The tensors to load, in order.
    pub slots: Vec<Slot>,
    /// How many query heads share a key head, in an attention layer.
    pub n_kv_groups: Option<usize>,
}

/// How the layers of a model are loaded.
#[derive(Debug)]
pub struct ModelPlan {
    /// Size of a head.
    pub head_dim: usize,
    /// Where positions are turned.
    pub ropes: Vec<Location>,
    /// One plan for each layer that is loaded here.
    pub layers: Vec<Option<LayerPlan>>,
}

/// Keys and values of a model differ in size.
#[derive(Debug, Clone, Copy, PartialEq, Eq, Structural)]
pub struct LengthMismatch {
    pub key_length: usize,
    pub value_length: usize,
}

/// The choice between feed-forward layers can be made: the settings are there and the step is not
/// zero.
pub open spec fn is_decidable(cfg: QwenMoEConfig) -> bool {
    &&& cfg.mlp_only_layers is Some
    &&& cfg.num_experts is Some
    &&& cfg.decoder_sparse_step matches Some(step) && step > 0
}

/// The plan is the one for layer `layer`.
pub open spec fn is_layer_plan(
    props: PropsGGUF,
    names: Seq<String>,
    placement: Placement,
    layer: int,
    plan: Option<LayerPlan>,
) -> bool {
    if !placement.is_loaded() {
        plan is None
    } else {
        let kind = kind_of(props, names, layer);
        &&& plan matches Some(p)
        &&& p.kind == kind
        &&& Some(p.location) == placement.device
        &&& p.slots@ == slots_of(kind, late_norm(kind, names, layer))
        &&& p.n_kv_groups == (if kind == LayerKind::Ssm {
            None::<usize>
        } else {
            Some((props.head_count / props.head_count_kv) as usize)
        })
    }
}

/// A tensor of its own for logits changes nothing else: a file that has one, and is otherwise like
/// a file that has none, is loaded by the same plan. The file without it takes the table of the
/// embedding in its place.
pub proof fn head_changes_no_layer(
    props: PropsGGUF,
    names: Seq<String>,
    more: Seq<String>,
    placement: Placement,
    layer: int,
    plan: Option<LayerPlan>,
)
    requires
        0 <= layer,
        !has_tensor(names, "output.weight"@),
        forall|text: Seq<char>| #[trigger]
            has_tensor(more, text) <==> has_tensor(names, text) || text == "output.weight"@,
    ensures
        output_text(names) == embedding_text(),
        output_text(more) == "output.weight"@,
        is_layer_plan(props, names, placement, layer, plan) <==> is_layer_plan(
            props,
            more,
            placement,
            layer,
            plan,
        ),
{
    reveal_strlit("output.weight");
    reveal_strlit("blk.");
    assert forall|slot: Slot| #[trigger] tensor_text(layer as nat, slot) != "output.weight"@ by {
        assert(tensor_text(layer as nat, slot)[0] == 'b');
        assert("output.weight"@[0] == 'o');
    }
}

/// Whether a number is in a list.
fn contains(list: &Vec<usize>, x: usize) -> (r: bool)
    ensures
        r == list@.contains(x),
{
    let mut i: usize = 0;
    while i < list.len()
        invariant
            i <= list@.len(),
            forall|k: int| 0 <= k < i ==> list@[k] != x,
        decreases list@.len() - i,
    {
        if list[i] == x {
            assert(list@[i as int] == x);
            return true;
        }
        i += 1;
    }
    false
}

/// What a layer of the file is made of.
pub fn layer_kind(props: &PropsGGUF, names: &Vec<String>, layer: usize) -> (r: LayerKind)
    requires
        is_decidable(props.moe_cfg),
        layer < usize::MAX,
    ensures
        r == kind_of(*props, names@, layer as int),
{
    if props.full_attention_interval > 0 && props.ssm_inner_size > 0 && has_slot(
        names,
        layer,
        Slot::SsmConv1d,
    ) {
        return LayerKind::Ssm;
    }
    let only_mlp = match &props.moe_cfg.mlp_only_layers {
        Some(list) => contains(list, layer),
        None => true,
    };
    let experts: usize = match props.moe_cfg.num_experts {
        Some(n) => n,
        None => 0,
    };
    let step: usize = match props.moe_cfg.decoder_sparse_step {
        Some(n) => n,
        None => 1,
    };
    if !only_mlp && experts > 0 && (layer + 1) % step == 0 {
        LayerKind::AttentionMoe
    } else {
        LayerKind::AttentionMlp
    }
}

/// The tensors of a layer, in the order in which they are loaded.
pub fn layer_slots(kind: LayerKind, late: Slot) -> (r: Vec<Slot>)
    ensures
        r@ == slots_of(kind, late),
{
    let mut slots: Vec<Slot> = Vec::new();
    match kind {
        LayerKind::Ssm => {
            slots.push(Slot::AttnQkv);
            slots.push(Slot::AttnGate);
            slots.push(Slot::SsmConv1d);
            slots.push(Slot::SsmA);
            slots.push(Slot::SsmDt);
            slots.push(Slot::SsmAlpha);
            slots.push(Slot::SsmBeta);
            slots.push(Slot::SsmOut);
            slots.push(Slot::SsmNorm);
        },
        _ => {
            slots.push(Slot::AttnQ);
            slots.push(Slot::AttnK);
            slots.push(Slot::AttnV);
            slots.push(Slot::AttnOutput);
        },
    }
    match kind {
        LayerKind::AttentionMlp => {
            slots.push(Slot::FfnGate);
            slots.push(Slot::FfnDown);
            slots.push(Slot::FfnUp);
        },
        _ => {
            slots.push(Slot::FfnGateInp);
            slots.push(Slot::FfnGateExps);
            slots.push(Slot::FfnUpExps);
            slots.push(Slot::FfnDownExps);
        },
    }
    match kind {
        LayerKind::Ssm => {},
        _ => {
            slots.push(Slot::AttnQNorm);
            slots.push(Slot::AttnKNorm);
        },
    }
    slots.push(Slot::AttnNorm);
    slots.push(late);
    assert(slots@ =~= slots_of(kind, late));
    slots
}

/// Plans one layer.
pub fn plan_layer(
    props: &PropsGGUF,
    names: &Vec<String>,
    placement: &Placement,
    layer: usize,
) -> (r: Option<LayerPlan>)
    requires
        is_decidable(props.moe_cfg),
        layer < usize::MAX,
        placement.is_loaded() && kind_of(*props, names@, layer as int) != LayerKind::Ssm
            ==> props.head_count_kv > 0,
    ensures
        is_layer_plan(*props, names@, *placement, layer as int, r),
{
    if placement.remote {
        return None;
    }
    match placement.device {
        None => None,
        Some(location) => {
            let kind = layer_kind(props, names, layer);
            let with_attention = match kind {
                LayerKind::Ssm => false,
                _ => true,
            };
            let late = if has_slot(names, layer, Slot::PostAttentionNorm) && !(with_attention
                && has_slot(names, layer, Slot::FfnNorm)) {
                Slot::PostAttentionNorm
            } else {
                Slot::FfnNorm
            };
            let slots = layer_slots(kind, late);
            let n_kv_groups = match kind {
                LayerKind::Ssm => None,
                _ => Some(props.head_count / props.head_count_kv),
            };
            Some(LayerPlan { kind, location, slots, n_kv_groups })
        },
    }
}

/// The places where positions are turned.
fn plan_ropes(placements: &[Placement], base: Location) -> (r: Vec<Location>)
    ensures
        r@ == rotary_places(placements@, base),
{
    let mut ropes: Vec<Location> = Vec::new();
    let mut i: usize = 0;
    assert(placements@.take(0) =~= Seq::empty());
    while i < placements.len()
        invariant
            i <= placements@.len(),
            ropes@ == rotary_places(placements@.take(i as int), base),
        decreases placements@.len() - i,
    {
        proof {
            assert(placements@.take(i + 1).drop_last() =~= placements@.take(i as int));
        }
        let at = match placements[i].device {
            Some(at) => at,
            None => base,
        };
        let mut known = false;
        let mut k: usize = 0;
        while k < ropes.len()
            invariant
                k <= ropes@.len(),
                known == exists|j: int| 0 <= j < k && ropes@[j] == at,
            decreases ropes@.len() - k,
        {
            if ropes[k] == at {
                known = true;
                assert(ropes@[k as int] == at);
            }
            k += 1;
        }
        if !known {
            assert(!ropes@.contains(at));
            ropes.push(at);
        }
        i += 1;
    }
    assert(placements@.take(i as int) =~= placements@);
    ropes
}

/// Every place that a layer needs is among those where positions are turned.
pub proof fn rotary_places_cover(placements: Seq<Placement>, base: Location, layer: int)
    requires
        0 <= layer < placements.len(),
    ensures
        rotary_places(placements, base).contains(placements[layer].rotary_at(base)),
    decreases placements.len(),
{
    let before = rotary_places(placements.drop_last(), base);
    let all = rotary_places(placements, base);
    let at = placements.last().rotary_at(base);
    if layer < placements.len() - 1 {
        rotary_places_cover(placements.drop_last(), base, layer);
        let want = placements[layer].rotary_at(base);
        let k = choose|k: int| 0 <= k < before.len() && before[k] == want;
        assert(all[k] == want);
    } else if before.contains(at) {
    } else {
        assert(all[before.len() as int] == at);
    }
}

/// Positions are turned at no place twice, and only where a layer needs it.
pub proof fn rotary_places_are_needed(placements: Seq<Placement>, base: Location)
    ensures
        rotary_places(placements, base).no_duplicates(),
        forall|at: Location| #[trigger]
            rotary_places(placements, base).contains(at) ==> exists|layer: int|
                0 <= layer < placements.len() && (#[trigger] placements[layer]).rotary_at(base)
                    == at,
    decreases placements.len(),
{
    if placements.len() > 0 {
        let front = placements.drop_last();
        let before = rotary_places(front, base);
        let all = rotary_places(placements, base);
        rotary_places_are_needed(front, base);
        assert forall|at: Location| #[trigger] all.contains(at) implies exists|layer: int|
            0 <= layer < placements.len() && (#[trigger] placements[layer]).rotary_at(base)
                == at by {
            if before.contains(at) {
                let layer = choose|layer: int|
                    0 <= layer < front.len() && (#[trigger] front[layer]).rotary_at(base) == at;
                assert(placements[layer] == front[layer]);
            } else {
                let k = choose|k: int| 0 <= k < all.len() && all[k] == at;
                assert(k == before.len());
                assert(placements[placements.len() - 1].rotary_at(base) == at);
            }
        }
    }
}

/// Sizes that were read from metadata always let the choice between feed-forward layers be made:
/// each attention layer has experts, unless there are none.
pub proof fn read_sizes_are_decidable(
    props: PropsGGUF,
    metadata: Metadata,
    arch: Seq<char>,
    layer: int,
)
    requires
        props.is_read_from(metadata, arch),
    ensures
        is_decidable(props.moe_cfg),
        has_experts(props.moe_cfg, layer) <==> props.moe_cfg.num_experts->0 > 0,
{
    assert(!(props.moe_cfg.mlp_only_layers->0)@.contains(layer as usize));
    assert((layer + 1) % 1 == 0);
}

/// Plans the layers of a model.
pub fn plan_layers(
    props: &PropsGGUF,
    names: &Vec<String>,
    placements: &[Placement],
    base: Location,
) -> (r: Result<ModelPlan, LengthMismatch>)
    requires
        is_decidable(props.moe_cfg),
        placements@.len() == props.block_count,
        props.key_length == props.value_length ==> forall|i: int|
            0 <= i < placements@.len() && (#[trigger] placements@[i]).is_loaded() && kind_of(
                *props,
                names@,
                i,
            ) != LayerKind::Ssm ==> props.head_count_kv > 0,
    ensures
        match r {
            Err(e) => {
                &&& props.key_length != props.value_length
                &&& e == (LengthMismatch {
                    key_length: props.key_length,
                    value_length: props.value_length,
                })
            },
            Ok(p) => {
                &&& props.key_length == props.value_length
                &&& p.head_dim == props.key_length
                &&& p.ropes@ == rotary_places(placements@, base)
                &&& p.layers@.len() == props.block_count
                &&& forall|i: int|
                    0 <= i < p.layers@.len() ==> {
                        &&& is_layer_plan(
                            *props,
                            names@,
                            placements@[i],
                            i,
                            #[trigger] p.layers@[i],
                        )
                        &&& p.layers@[i] matches Some(layer) ==> p.ropes@.contains(layer.location)
                    }
            },
        },
{
    if props.key_length != props.value_length {
        return Err(
            LengthMismatch { key_length: props.key_length, value_length: props.value_length },
        );
    }
    let ropes = plan_ropes(placements, base);
    let mut layers: Vec<Option<LayerPlan>> = Vec::new();
    let n: usize = props.block_count;
    let mut i: usize = 0;
    while i < n
        invariant
            i <= n == props.block_count,
            is_decidable(props.moe_cfg),
            placements@.len() == n,
            ropes@ == rotary_places(placements@, base),
            layers@.len() == i,
            forall|k: int|
                0 <= k < placements@.len() && (#[trigger] placements@[k]).is_loaded() && kind_of(
                    *props,
                    names@,
                    k,
                ) != LayerKind::Ssm ==> props.head_count_kv > 0,
            forall|k: int|
                0 <= k < i ==> {
                    &&& is_layer_plan(*props, names@, placements@[k], k, #[trigger] layers@[k])
                    &&& layers@[k] matches Some(layer) ==> ropes@.contains(layer.location)
                },
        decreases n - i,
    {
        let plan = plan_layer(props, names, &placements[i], i);
        proof {
            rotary_places_cover(placements@, base, i as int);
        }
        layers.push(plan);
        i += 1;
    }
    Ok(ModelPlan { head_dim: props.key_length, ropes, layers })
}

} // verus!
