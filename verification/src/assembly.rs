//! A model put together from the tensors that were loaded for it.
use candle_core::quantized::QMatMul;
use candle_core::{DType, Device, Tensor};
use vstd::prelude::*;

use crate::attention::AttentionWeights;
use crate::backend::{DeviceMapper, Norm, QuantMethod};
use crate::loading::{
    is_layer_plan, kind_of, slots_of, LayerKind, LayerPlan, Placement, Slot,
};
use crate::model::{LayerWeights, Mixer, ModelWeights};
use crate::moe::{FusedMoe, Mlp, MoeOrMlp};
use crate::props::PropsGGUF;
use crate::ssm::SsmWeights;

verus! {

/// In what form a tensor of a layer is kept.
#[derive(Debug, Clone, Copy, PartialEq, Eq, Structural)]
pub enum Form {
    /// As a weight that tensors are multiplied with.
    Weight,
    /// As a matrix of the router or of experts.
    Matrix,
    /// As an ordinary tensor.
    Dense,
    /// As the weights of a normalisation.
    Norm,
}

/// A tensor of a layer in the form in which it is kept.
pub enum Part<Q, N> {
    Weight(Q),
    Matrix(QMatMul),
    Dense(Tensor),
    Norm(N),
}

impl<Q, N> Part<Q, N> {
    /// The form of the part.
    pub open spec fn form(&self) -> Form {
        match self {
            Part::Weight(_) => Form::Weight,
            Part::Matrix(_) => Form::Matrix,
            Part::Dense(_) => Form::Dense,
            Part::Norm(_) => Form::Norm,
        }
    }

    fn get_form(&self) -> (r: Form)
        ensures
            r == self.form(),
    {
        match self {
            Part::Weight(_) => Form::Weight,
            Part::Matrix(_) => Form::Matrix,
            Part::Dense(_) => Form::Dense,
            Part::Norm(_) => Form::Norm,
        }
    }
}

/// The form in which the tensor of a slot is kept.
pub open spec fn form_of(slot: Slot) -> Form {
    match slot {
        Slot::FfnGateInp | Slot::FfnGateExps | Slot::FfnUpExps | Slot::FfnDownExps => Form::Matrix,
        Slot::SsmConv1d | Slot::SsmA | Slot::SsmDt | Slot::SsmNorm => Form::Dense,
        Slot::AttnQNorm | Slot::AttnKNorm | Slot::AttnNorm | Slot::FfnNorm
        | Slot::PostAttentionNorm => Form::Norm,
        _ => Form::Weight,
    }
}

/// The form in which the tensor of a slot is kept.
pub fn slot_form(slot: Slot) -> (r: Form)
    ensures
        r == form_of(slot),
{
    match slot {
        Slot::FfnGateInp | Slot::FfnGateExps | Slot::FfnUpExps | Slot::FfnDownExps => Form::Matrix,
        Slot::SsmConv1d | Slot::SsmA | Slot::SsmDt | Slot::SsmNorm => Form::Dense,
        Slot::AttnQNorm | Slot::AttnKNorm | Slot::AttnNorm | Slot::FfnNorm
        | Slot::PostAttentionNorm => Form::Norm,
        _ => Form::Weight,
    }
}

/// There is one part for each slot, in the form in which it is kept.
pub open spec fn parts_fit<Q, N>(slots: Seq<Slot>, parts: Seq<Part<Q, N>>) -> bool {
    &&& parts.len() == slots.len()
    &&& forall|i: int|
        0 <= i < slots.len() ==> (#[trigger] parts[i]).form() == form_of(slots[i])
}

/// The parts of a layer are not those that its plan calls for.
#[derive(Debug, Clone, Copy, PartialEq, Eq, Structural)]
pub struct WrongParts;

fn do_parts_fit<Q, N>(slots: &Vec<Slot>, parts: &Vec<Part<Q, N>>) -> (r: bool)
    ensures
        r == parts_fit(slots@, parts@),
{
    if parts.len() != slots.len() {
        return false;
    }
    let mut i: usize = 0;
    while i < slots.len()
        invariant
            i <= slots@.len() == parts@.len(),
            forall|k: int| 0 <= k < i ==> (#[trigger] parts@[k]).form() == form_of(slots@[k]),
        decreases slots@.len() - i,
    {
        if parts[i].get_form() != slot_form(slots[i]) {
            assert(parts@[i as int].form() != form_of(slots@[i as int]));
            return false;
        }
        i += 1;
    }
    true
}

/// Sizes and settings of a layer that its tensors do not hold.
#[derive(Debug, Clone, Copy)]
pub struct LayerSettings {
    /// Size of a head.
    pub head_dim: usize,
    /// Whether attention goes over pages.
    pub paged: bool,
    /// The element type that attention works in.
    pub dtype: DType,
}

/// A layer, and the norms of its queries and keys if it has attention.
pub type BuiltLayer<Q, N> = (LayerWeights<Q, N>, Option<(N, N)>);

/// The part of a slot stands in its place in the layer.
pub open spec fn is_placed<Q, N>(slot: Slot, part: Part<Q, N>, built: BuiltLayer<Q, N>) -> bool {
    let layer = built.0;
    match slot {
        Slot::AttnQ => layer.mixer matches Mixer::Attention(a) && part == Part::<Q, N>::Weight(
            a.attention_wq,
        ),
        Slot::AttnK => layer.mixer matches Mixer::Attention(a) && part == Part::<Q, N>::Weight(
            a.attention_wk,
        ),
        Slot::AttnV => layer.mixer matches Mixer::Attention(a) && part == Part::<Q, N>::Weight(
            a.attention_wv,
        ),
        Slot::AttnOutput => layer.mixer matches Mixer::Attention(a) && part == Part::<
            Q,
            N,
        >::Weight(a.attention_wo),
        Slot::AttnQNorm => built.1 matches Some(n) && part == Part::<Q, N>::Norm(n.0),
        Slot::AttnKNorm => built.1 matches Some(n) && part == Part::<Q, N>::Norm(n.1),
        Slot::AttnQkv => layer.mixer matches Mixer::Ssm { ssm, .. } && part == Part::<
            Q,
            N,
        >::Weight(ssm.attn_qkv),
        Slot::AttnGate => layer.mixer matches Mixer::Ssm { ssm, .. } && part == Part::<
            Q,
            N,
        >::Weight(ssm.attn_gate),
        Slot::SsmConv1d => layer.mixer matches Mixer::Ssm { ssm, .. } && part == Part::<
            Q,
            N,
        >::Dense(ssm.ssm_conv1d),
        Slot::SsmA => layer.mixer matches Mixer::Ssm { ssm, .. } && part == Part::<Q, N>::Dense(
            ssm.ssm_a,
        ),
        Slot::SsmDt => layer.mixer matches Mixer::Ssm { ssm, .. } && part == Part::<Q, N>::Dense(
            ssm.ssm_dt,
        ),
        Slot::SsmAlpha => layer.mixer matches Mixer::Ssm { ssm, .. } && part == Part::<
            Q,
            N,
        >::Weight(ssm.ssm_alpha),
        Slot::SsmBeta => layer.mixer matches Mixer::Ssm { ssm, .. } && part == Part::<
            Q,
            N,
        >::Weight(ssm.ssm_beta),
        Slot::SsmOut => layer.mixer matches Mixer::Ssm { ssm, .. } && part == Part::<
            Q,
            N,
        >::Weight(ssm.ssm_out),
        Slot::SsmNorm => layer.mixer matches Mixer::Ssm { ssm, .. } && part == Part::<
            Q,
            N,
        >::Dense(ssm.ssm_norm),
        Slot::FfnGateInp => layer.mlp matches MoeOrMlp::FusedMoe(m) && part == Part::<
            Q,
            N,
        >::Matrix(m.gate),
        Slot::FfnGateExps => layer.mlp matches MoeOrMlp::FusedMoe(m) && part == Part::<
            Q,
            N,
        >::Matrix(m.gate_experts),
        Slot::FfnUpExps => layer.mlp matches MoeOrMlp::FusedMoe(m) && part == Part::<
            Q,
            N,
        >::Matrix(m.up_experts),
        Slot::FfnDownExps => layer.mlp matches MoeOrMlp::FusedMoe(m) && part == Part::<
            Q,
            N,
        >::Matrix(m.down_experts),
        Slot::FfnGate => layer.mlp matches MoeOrMlp::Mlp(m) && part == Part::<Q, N>::Weight(
            m.feed_forward_w1,
        ),
        Slot::FfnDown => layer.mlp matches MoeOrMlp::Mlp(m) && part == Part::<Q, N>::Weight(
            m.feed_forward_w2,
        ),
        Slot::FfnUp => layer.mlp matches MoeOrMlp::Mlp(m) && part == Part::<Q, N>::Weight(
            m.feed_forward_w3,
        ),
        Slot::AttnNorm => part == Part::<Q, N>::Norm(layer.attention_norm),
        Slot::FfnNorm | Slot::PostAttentionNorm => part == Part::<Q, N>::Norm(layer.ffn_norm),
    }
}

/// The layer has the sizes and settings that it must have, and nothing is kept in it yet.
pub open spec fn is_set_up<Q, N>(
    props: PropsGGUF,
    kind: LayerKind,
    settings: LayerSettings,
    built: BuiltLayer<Q, N>,
) -> bool {
    &&& match built.0.mixer {
        Mixer::Attention(a) => {
            &&& kind != LayerKind::Ssm
            &&& built.1 is Some
            &&& a.n_head == props.head_count
            &&& a.n_kv_head == props.head_count_kv
            &&& a.head_dim == settings.head_dim
            &&& a.paged == settings.paged
            &&& a.dtype == settings.dtype
        },
        Mixer::Ssm { ssm, conv_state, ssm_state } => {
            &&& kind == LayerKind::Ssm
            &&& built.1 is None
            &&& ssm.n_heads == props.ssm_time_step_rank
            &&& ssm.n_kv_heads == props.ssm_group_count
            &&& ssm.state_size == props.ssm_state_size
            &&& ssm.inner_size == props.ssm_inner_size
            &&& conv_state is None
            &&& ssm_state is None
        },
    }
    &&& match built.0.mlp {
        MoeOrMlp::FusedMoe(m) => {
            &&& kind != LayerKind::AttentionMlp
            &&& m.norm_topk_prob == props.moe_cfg.norm_topk_prob
            &&& m.num_experts_per_tok == props.moe_cfg.num_experts_per_tok
        },
        MoeOrMlp::Mlp(_) => kind == LayerKind::AttentionMlp,
    }
}

/// The layer is made of the parts, each in the place of its slot.
pub open spec fn is_built<Q, N>(
    props: PropsGGUF,
    kind: LayerKind,
    slots: Seq<Slot>,
    settings: LayerSettings,
    parts: Seq<Part<Q, N>>,
    built: BuiltLayer<Q, N>,
) -> bool {
    &&& is_set_up(props, kind, settings, built)
    &&& forall|i: int| 0 <= i < slots.len() ==> is_placed(slots[i], #[trigger] parts[i], built)
}

/// The slots are those of a layer of this kind.
pub open spec fn are_slots(kind: LayerKind, slots: Seq<Slot>) -> bool {
    ||| slots == slots_of(kind, Slot::FfnNorm)
    ||| slots == slots_of(kind, Slot::PostAttentionNorm)
}

/// Takes the last part, a weight.
fn pop_weight<Q, N>(parts: &mut Vec<Part<Q, N>>) -> (r: Option<Q>)
    ensures
        old(parts)@.len() > 0 && old(parts)@.last().form() == Form::Weight ==> r is Some,
        r matches Some(q) ==> {
            &&& old(parts)@.len() > 0
            &&& old(parts)@.last() == Part::<Q, N>::Weight(q)
            &&& final(parts)@ == old(parts)@.drop_last()
        },
{
    match parts.pop() {
        Some(Part::Weight(q)) => Some(q),
        _ => None,
    }
}

/// Takes the last part, a matrix.
fn pop_matrix<Q, N>(parts: &mut Vec<Part<Q, N>>) -> (r: Option<QMatMul>)
    ensures
        old(parts)@.len() > 0 && old(parts)@.last().form() == Form::Matrix ==> r is Some,
        r matches Some(q) ==> {
            &&& old(parts)@.len() > 0
            &&& old(parts)@.last() == Part::<Q, N>::Matrix(q)
            &&& final(parts)@ == old(parts)@.drop_last()
        },
{
    match parts.pop() {
        Some(Part::Matrix(q)) => Some(q),
        _ => None,
    }
}

/// Takes the last part, an ordinary tensor.
fn pop_dense<Q, N>(parts: &mut Vec<Part<Q, N>>) -> (r: Option<Tensor>)
    ensures
        old(parts)@.len() > 0 && old(parts)@.last().form() == Form::Dense ==> r is Some,
        r matches Some(q) ==> {
            &&& old(parts)@.len() > 0
            &&& old(parts)@.last() == Part::<Q, N>::Dense(q)
            &&& final(parts)@ == old(parts)@.drop_last()
        },
{
    match parts.pop() {
        Some(Part::Dense(q)) => Some(q),
        _ => None,
    }
}

/// Takes the last part, a norm.
fn pop_norm<Q, N>(parts: &mut Vec<Part<Q, N>>) -> (r: Option<N>)
    ensures
        old(parts)@.len() > 0 && old(parts)@.last().form() == Form::Norm ==> r is Some,
        r matches Some(q) ==> {
            &&& old(parts)@.len() > 0
            &&& old(parts)@.last() == Part::<Q, N>::Norm(q)
            &&& final(parts)@ == old(parts)@.drop_last()
        },
{
    match parts.pop() {
        Some(Part::Norm(q)) => Some(q),
        _ => None,
    }
}

/// The parts from `from` on have been taken: what is left are those before.
spec fn left_of<Q, N>(all: Seq<Part<Q, N>>, from: int) -> Seq<Part<Q, N>> {
    all.take(from)
}

proof fn left_step<Q, N>(all: Seq<Part<Q, N>>, from: int)
    requires
        0 < from <= all.len(),
    ensures
        left_of(all, from).len() == from,
        left_of(all, from).last() == all[from - 1],
        left_of(all, from).drop_last() == left_of(all, from - 1),
{
    assert(left_of(all, from).drop_last() =~= left_of(all, from - 1));
}

/// Takes the four matrices of the router and the experts, which come last.
fn pop_experts<Q, N>(props: &PropsGGUF, parts: &mut Vec<Part<Q, N>>) -> (r: Option<FusedMoe>)
    ensures
        ({
            let p = old(parts)@;
            let n = p.len() as int;
            &&& n >= 4 && p[n - 1].form() == Form::Matrix && p[n - 2].form() == Form::Matrix && p[n
                - 3].form() == Form::Matrix && p[n - 4].form() == Form::Matrix ==> r is Some
            &&& r matches Some(m) ==> {
                &&& n >= 4
                &&& p[n - 4] == Part::<Q, N>::Matrix(m.gate)
                &&& p[n - 3] == Part::<Q, N>::Matrix(m.gate_experts)
                &&& p[n - 2] == Part::<Q, N>::Matrix(m.up_experts)
                &&& p[n - 1] == Part::<Q, N>::Matrix(m.down_experts)
                &&& m.norm_topk_prob == props.moe_cfg.norm_topk_prob
                &&& m.num_experts_per_tok == props.moe_cfg.num_experts_per_tok
                &&& final(parts)@ == left_of(p, n - 4)
            }
        }),
{
    let ghost p = parts@;
    let ghost n = p.len() as int;
    proof {
        assert(left_of(p, n) =~= p);
        if n >= 4 {
            left_step(p, n);
            left_step(p, n - 1);
            left_step(p, n - 2);
            left_step(p, n - 3);
        }
    }
    let down_experts = pop_matrix(parts)?;
    let up_experts = pop_matrix(parts)?;
    let gate_experts = pop_matrix(parts)?;
    let gate = pop_matrix(parts)?;
    Some(
        FusedMoe {
            gate,
            gate_experts,
            up_experts,
            down_experts,
            norm_topk_prob: props.moe_cfg.norm_topk_prob,
            num_experts_per_tok: props.moe_cfg.num_experts_per_tok,
        },
    )
}

/// The two norms around a layer's parts: that before the mixer, and that before the feed-forward
/// part, which come last.
fn pop_norms<Q, N>(parts: &mut Vec<Part<Q, N>>) -> (r: Option<(N, N)>)
    ensures
        ({
            let p = old(parts)@;
            let n = p.len() as int;
            &&& n >= 2 && p[n - 1].form() == Form::Norm && p[n - 2].form() == Form::Norm ==> r
                is Some
            &&& r matches Some(m) ==> {
                &&& n >= 2
                &&& p[n - 2] == Part::<Q, N>::Norm(m.0)
                &&& p[n - 1] == Part::<Q, N>::Norm(m.1)
                &&& final(parts)@ == left_of(p, n - 2)
            }
        }),
{
    let ghost p = parts@;
    let ghost n = p.len() as int;
    proof {
        assert(left_of(p, n) =~= p);
        if n >= 2 {
            left_step(p, n);
            left_step(p, n - 1);
        }
    }
    let late = pop_norm(parts)?;
    let early = pop_norm(parts)?;
    Some((early, late))
}

/// Makes a layer that keeps a state of its parts.
fn build_ssm<Q: QuantMethod, N: Norm>(
    props: &PropsGGUF,
    settings: &LayerSettings,
    parts: Vec<Part<Q, N>>,
    slots: &Vec<Slot>,
) -> (r: Option<BuiltLayer<Q, N>>)
    requires
        are_slots(LayerKind::Ssm, slots@),
        parts_fit(slots@, parts@),
    ensures
        r matches Some(b) && is_built(*props, LayerKind::Ssm, slots@, *settings, parts@, b),
{
    let ghost all = parts@;
    let mut parts = parts;
    proof {
        assert(slots@.len() == 15);
        assert forall|i: int| 0 <= i < 15 implies (#[trigger] all[i]).form() == form_of(
            slots@[i],
        ) by {}
        left_step(all, 9);
        left_step(all, 8);
        left_step(all, 7);
        left_step(all, 6);
        left_step(all, 5);
        left_step(all, 4);
        left_step(all, 3);
        left_step(all, 2);
        left_step(all, 1);
        assert(all[14].form() == Form::Norm && all[13].form() == Form::Norm);
    }
    let (attention_norm, ffn_norm) = pop_norms(&mut parts)?;
    assert(parts@ == left_of(all, 13));
    proof {
        assert(all[12].form() == Form::Matrix && all[11].form() == Form::Matrix);
        assert(all[10].form() == Form::Matrix && all[9].form() == Form::Matrix);
    }
    let experts = pop_experts(props, &mut parts)?;
    proof {
        assert(parts@ =~= left_of(all, 9));
        assert(all[8].form() == Form::Dense && all[7].form() == Form::Weight);
        assert(all[6].form() == Form::Weight && all[5].form() == Form::Weight);
        assert(all[4].form() == Form::Dense && all[3].form() == Form::Dense);
        assert(all[2].form() == Form::Dense && all[1].form() == Form::Weight);
        assert(all[0].form() == Form::Weight);
    }
    let ssm_norm = pop_dense(&mut parts)?;
    let ssm_out = pop_weight(&mut parts)?;
    let ssm_beta = pop_weight(&mut parts)?;
    let ssm_alpha = pop_weight(&mut parts)?;
    let ssm_dt = pop_dense(&mut parts)?;
    let ssm_a = pop_dense(&mut parts)?;
    let ssm_conv1d = pop_dense(&mut parts)?;
    let attn_gate = pop_weight(&mut parts)?;
    let attn_qkv = pop_weight(&mut parts)?;
    let ssm = SsmWeights {
        attn_qkv,
        attn_gate,
        ssm_conv1d,
        ssm_a,
        ssm_alpha,
        ssm_beta,
        ssm_dt,
        ssm_out,
        ssm_norm,
        n_heads: props.ssm_time_step_rank,
        n_kv_heads: props.ssm_group_count,
        state_size: props.ssm_state_size,
        inner_size: props.ssm_inner_size,
    };
    let layer = LayerWeights {
        mixer: Mixer::Ssm { ssm, conv_state: None, ssm_state: None },
        attention_norm,
        mlp: MoeOrMlp::FusedMoe(experts),
        ffn_norm,
    };
    let built: BuiltLayer<Q, N> = (layer, None);
    proof {
        assert forall|i: int| 0 <= i < slots@.len() implies is_placed(
            slots@[i],
            #[trigger] all[i],
            built,
        ) by {
            if i < 3 {
                assert(i == 0 || i == 1 || i == 2);
            } else if i < 6 {
                assert(i == 3 || i == 4 || i == 5);
            } else if i < 9 {
                assert(i == 6 || i == 7 || i == 8);
            } else if i < 12 {
                assert(i == 9 || i == 10 || i == 11);
            } else {
                assert(i == 12 || i == 13 || i == 14);
            }
        }
    }
    Some(built)
}

/// Makes a layer with attention of its parts.
fn build_attention<Q: QuantMethod, N: Norm>(
    props: &PropsGGUF,
    kind: LayerKind,
    settings: &LayerSettings,
    parts: Vec<Part<Q, N>>,
    slots: &Vec<Slot>,
) -> (r: Option<BuiltLayer<Q, N>>)
    requires
        kind != LayerKind::Ssm,
        are_slots(kind, slots@),
        parts_fit(slots@, parts@),
    ensures
        r matches Some(b) && is_built(*props, kind, slots@, *settings, parts@, b),
{
    let ghost all = parts@;
    let ghost n = all.len() as int;
    let mut parts = parts;
    let experts = match kind {
        LayerKind::AttentionMoe => true,
        _ => false,
    };
    proof {
        assert(n == (if experts {
            12int
        } else {
            11int
        }));
        left_step(all, n - 2);
        left_step(all, n - 3);
        left_step(all, 7);
        left_step(all, 6);
        left_step(all, 5);
        left_step(all, 4);
        left_step(all, 3);
        left_step(all, 2);
        left_step(all, 1);
        assert(all[n - 1].form() == Form::Norm && all[n - 2].form() == Form::Norm);
        assert(all[n - 3].form() == Form::Norm && all[n - 4].form() == Form::Norm);
        assert(all[0].form() == Form::Weight && all[1].form() == Form::Weight);
        assert(all[2].form() == Form::Weight && all[3].form() == Form::Weight);
        if experts {
            assert(all[4].form() == Form::Matrix && all[5].form() == Form::Matrix);
            assert(all[6].form() == Form::Matrix && all[7].form() == Form::Matrix);
        } else {
            assert(all[4].form() == Form::Weight && all[5].form() == Form::Weight);
            assert(all[6].form() == Form::Weight);
        }
    }
    let (attention_norm, ffn_norm) = pop_norms(&mut parts)?;
    let k_norm = pop_norm(&mut parts)?;
    let q_norm = pop_norm(&mut parts)?;
    assert(parts@ == left_of(all, n - 4));
    let mlp = if experts {
        let m = pop_experts(props, &mut parts)?;
        assert(parts@ =~= left_of(all, 4));
        MoeOrMlp::FusedMoe(m)
    } else {
        let feed_forward_w3 = pop_weight(&mut parts)?;
        let feed_forward_w2 = pop_weight(&mut parts)?;
        let feed_forward_w1 = pop_weight(&mut parts)?;
        MoeOrMlp::Mlp(Mlp { feed_forward_w1, feed_forward_w2, feed_forward_w3 })
    };
    assert(parts@ == left_of(all, 4));
    let attention_wo = pop_weight(&mut parts)?;
    let attention_wv = pop_weight(&mut parts)?;
    let attention_wk = pop_weight(&mut parts)?;
    let attention_wq = pop_weight(&mut parts)?;
    let layer = LayerWeights {
        mixer: Mixer::Attention(
            AttentionWeights {
                attention_wq,
                attention_wk,
                attention_wv,
                attention_wo,
                n_head: props.head_count,
                n_kv_head: props.head_count_kv,
                head_dim: settings.head_dim,
                paged: settings.paged,
                dtype: settings.dtype,
            },
        ),
        attention_norm,
        mlp,
        ffn_norm,
    };
    let built: BuiltLayer<Q, N> = (layer, Some((q_norm, k_norm)));
    proof {
        assert forall|i: int| 0 <= i < slots@.len() implies is_placed(
            slots@[i],
            #[trigger] all[i],
            built,
        ) by {
            if i < 4 {
                assert(i == 0 || i == 1 || i == 2 || i == 3);
            } else if i < 7 {
                assert(i == 4 || i == 5 || i == 6);
            } else if i < 10 {
                assert(i == 7 || i == 8 || i == 9);
            } else {
                assert(i == 10 || i == 11);
            }
        }
    }
    Some(built)
}

/// Makes a layer of the parts that its plan calls for. It is refused only if these are others.
/// Nothing is kept in it yet.
pub fn build_layer<Q: QuantMethod, N: Norm>(
    props: &PropsGGUF,
    plan: &LayerPlan,
    settings: &LayerSettings,
    parts: Vec<Part<Q, N>>,
) -> (r: Result<BuiltLayer<Q, N>, WrongParts>)
    requires
        are_slots(plan.kind, plan.slots@),
    ensures
        match r {
            Ok(built) => {
                &&& parts_fit(plan.slots@, parts@)
                &&& is_built(*props, plan.kind, plan.slots@, *settings, parts@, built)
            },
            Err(_) => !parts_fit(plan.slots@, parts@),
        },
{
    if !do_parts_fit(&plan.slots, &parts) {
        return Err(WrongParts);
    }
    let built = match plan.kind {
        LayerKind::Ssm => build_ssm(props, settings, parts, &plan.slots),
        _ => build_attention(props, plan.kind, settings, parts, &plan.slots),
    };
    match built {
        Some(b) => Ok(b),
        None => Err(WrongParts),
    }
}

/// Makes caches.
pub trait NewCache {
    /// Keys and values of earlier positions.
    type Cache;

    /// An empty cache for up to `max_seq_len` positions.
    fn new_cache(&self, max_seq_len: usize) -> Self::Cache;
}

/// `cache` can be an empty one for up to `max_seq_len` positions.
pub open spec fn is_new_cache<F: NewCache>(maker: F, max_seq_len: usize, cache: F::Cache) -> bool {
    call_ensures(F::new_cache, (&maker, max_seq_len), cache)
}

/// The parts of a model beside its layers.
pub struct ModelParts<Q, N, M> {
    pub tok_embeddings: Tensor,
    pub norm: N,
    pub output: Q,
    pub device: Device,
    pub mapper: M,
    pub dtype: DType,
}

/// Makes a model of its layers, one for each block of the file or none where the block runs
/// elsewhere, and gives each of them an empty cache.
pub fn build_model<Q: QuantMethod, N: Norm, M, F: NewCache>(
    props: &PropsGGUF,
    parts: ModelParts<Q, N, M>,
    layers: Vec<Option<LayerWeights<Q, N>>>,
    maker: &F,
) -> (r: ModelWeights<Q, N, M, F::Cache>)
    requires
        layers@.len() == props.block_count,
    ensures
        r.tok_embeddings == parts.tok_embeddings,
        r.embedding_length == props.embedding_length,
        r.layers == layers,
        r.norm == parts.norm,
        r.output == parts.output,
        r.device == parts.device,
        r.cache@.len() == props.block_count,
        forall|i: int|
            0 <= i < r.cache@.len() ==> is_new_cache(
                *maker,
                props.max_seq_len,
                #[trigger] r.cache@[i],
            ),
        r.max_seq_len == props.max_seq_len,
        r.mapper == Some(parts.mapper),
        r.dtype == parts.dtype,
{
    let mut cache: Vec<F::Cache> = Vec::new();
    let n: usize = props.block_count;
    let mut i: usize = 0;
    while i < n
        invariant
            i <= n == props.block_count,
            cache@.len() == i,
            forall|k: int|
                0 <= k < i ==> is_new_cache(*maker, props.max_seq_len, #[trigger] cache@[k]),
        decreases n - i,
    {
        let fresh = maker.new_cache(props.max_seq_len);
        assert(is_new_cache(*maker, props.max_seq_len, fresh));
        cache.push(fresh);
        i += 1;
    }
    ModelWeights {
        tok_embeddings: parts.tok_embeddings,
        embedding_length: props.embedding_length,
        layers,
        norm: parts.norm,
        output: parts.output,
        device: parts.device,
        cache,
        max_seq_len: props.max_seq_len,
        mapper: Some(parts.mapper),
        dtype: parts.dtype,
    }
}

/// A planned layer has the slots of its kind, so that its parts can be put together.
pub proof fn planned_slots(
    props: PropsGGUF,
    names: Seq<String>,
    placement: Placement,
    layer: int,
    plan: Option<LayerPlan>,
)
    requires
        is_layer_plan(props, names, placement, layer, plan),
    ensures
        plan matches Some(p) ==> are_slots(p.kind, p.slots@) && p.kind == kind_of(
            props,
            names,
            layer,
        ),
{
}

/// Each tensor of a file becomes the part of the layer that it is named after: weights of queries,
/// keys, values and output, gate, rise and descent of the feed-forward part, and the norms of queries,
/// of keys, before attention and before the feed-forward part.
pub proof fn attention_tensors_find_their_place<Q, N>(
    props: PropsGGUF,
    kind: LayerKind,
    late: Slot,
    settings: LayerSettings,
    parts: Seq<Part<Q, N>>,
    built: BuiltLayer<Q, N>,
)
    requires
        late == Slot::FfnNorm || late == Slot::PostAttentionNorm,
        kind == LayerKind::AttentionMlp || kind == LayerKind::AttentionMoe,
        is_built(props, kind, slots_of(kind, late), settings, parts, built),
        parts.len() == slots_of(kind, late).len(),
    ensures
        ({
            let slots = slots_of(kind, late);
            let n = slots.len();
            &&& built.0.mixer matches Mixer::Attention(a) && {
                &&& slots[0].text() == ".attn_q.weight"@ && parts[0] == Part::<Q, N>::Weight(
                    a.attention_wq,
                )
                &&& slots[1].text() == ".attn_k.weight"@ && parts[1] == Part::<Q, N>::Weight(
                    a.attention_wk,
                )
                &&& slots[2].text() == ".attn_v.weight"@ && parts[2] == Part::<Q, N>::Weight(
                    a.attention_wv,
                )
                &&& slots[3].text() == ".attn_output.weight"@ && parts[3] == Part::<Q, N>::Weight(
                    a.attention_wo,
                )
            }
            &&& kind == LayerKind::AttentionMlp ==> n == 11 && (built.0.mlp matches MoeOrMlp::Mlp(m)
                && {
                &&& slots[4].text() == ".ffn_gate.weight"@ && parts[4] == Part::<Q, N>::Weight(
                    m.feed_forward_w1,
                )
                &&& slots[5].text() == ".ffn_down.weight"@ && parts[5] == Part::<Q, N>::Weight(
                    m.feed_forward_w2,
                )
                &&& slots[6].text() == ".ffn_up.weight"@ && parts[6] == Part::<Q, N>::Weight(
                    m.feed_forward_w3,
                )
            })
            &&& kind == LayerKind::AttentionMoe ==> n == 12 && are_experts(slots, parts, 4, built)
            &&& built.1 matches Some(norms) && {
                &&& slots[n - 4].text() == ".attn_q_norm.weight"@ && parts[n - 4] == Part::<
                    Q,
                    N,
                >::Norm(norms.0)
                &&& slots[n - 3].text() == ".attn_k_norm.weight"@ && parts[n - 3] == Part::<
                    Q,
                    N,
                >::Norm(norms.1)
            }
            &&& slots[n - 2].text() == ".attn_norm.weight"@ && parts[n - 2] == Part::<Q, N>::Norm(
                built.0.attention_norm,
            )
            &&& parts[n - 1] == Part::<Q, N>::Norm(built.0.ffn_norm)
        }),
{
    let slots = slots_of(kind, late);
    assert forall|i: int| 0 <= i < slots.len() implies is_placed(
        slots[i],
        #[trigger] parts[i],
        built,
    ) by {}
    assert(is_placed(slots[0], parts[0], built));
    assert(is_placed(slots[4], parts[4], built));
}

/// The matrices of the router and of the experts stand in their places, from slot `at` on.
pub open spec fn are_experts<Q, N>(
    slots: Seq<Slot>,
    parts: Seq<Part<Q, N>>,
    at: int,
    built: BuiltLayer<Q, N>,
) -> bool {
    &&& built.0.mlp matches MoeOrMlp::FusedMoe(m)
    &&& slots[at].text() == ".ffn_gate_inp.weight"@ && parts[at] == Part::<Q, N>::Matrix(m.gate)
    &&& slots[at + 1].text() == ".ffn_gate_exps.weight"@ && parts[at + 1] == Part::<Q, N>::Matrix(
        m.gate_experts,
    )
    &&& slots[at + 2].text() == ".ffn_up_exps.weight"@ && parts[at + 2] == Part::<Q, N>::Matrix(
        m.up_experts,
    )
    &&& slots[at + 3].text() == ".ffn_down_exps.weight"@ && parts[at + 3] == Part::<Q, N>::Matrix(
        m.down_experts,
    )
}

/// Each tensor of a file becomes the part that it is named after, in a layer that keeps a state.
pub proof fn state_tensors_find_their_place<Q, N>(
    props: PropsGGUF,
    late: Slot,
    settings: LayerSettings,
    parts: Seq<Part<Q, N>>,
    built: BuiltLayer<Q, N>,
)
    requires
        late == Slot::FfnNorm || late == Slot::PostAttentionNorm,
        is_built(
            props,
            LayerKind::Ssm,
            slots_of(LayerKind::Ssm, late),
            settings,
            parts,
            built,
        ),
        parts.len() == slots_of(LayerKind::Ssm, late).len(),
    ensures
        ({
            let slots = slots_of(LayerKind::Ssm, late);
            &&& slots.len() == 15
            &&& built.0.mixer matches Mixer::Ssm { ssm, .. } && {
                &&& slots[0].text() == ".attn_qkv.weight"@ && parts[0] == Part::<Q, N>::Weight(
                    ssm.attn_qkv,
                )
                &&& slots[1].text() == ".attn_gate.weight"@ && parts[1] == Part::<Q, N>::Weight(
                    ssm.attn_gate,
                )
                &&& slots[2].text() == ".ssm_conv1d.weight"@ && parts[2] == Part::<Q, N>::Dense(
                    ssm.ssm_conv1d,
                )
                &&& slots[3].text() == ".ssm_a"@ && parts[3] == Part::<Q, N>::Dense(ssm.ssm_a)
                &&& slots[4].text() == ".ssm_dt.bias"@ && parts[4] == Part::<Q, N>::Dense(ssm.ssm_dt)
                &&& slots[5].text() == ".ssm_alpha.weight"@ && parts[5] == Part::<Q, N>::Weight(
                    ssm.ssm_alpha,
                )
                &&& slots[6].text() == ".ssm_beta.weight"@ && parts[6] == Part::<Q, N>::Weight(
                    ssm.ssm_beta,
                )
                &&& slots[7].text() == ".ssm_out.weight"@ && parts[7] == Part::<Q, N>::Weight(
                    ssm.ssm_out,
                )
                &&& slots[8].text() == ".ssm_norm.weight"@ && parts[8] == Part::<Q, N>::Dense(
                    ssm.ssm_norm,
                )
            }
            &&& are_experts(slots, parts, 9, built)
            &&& slots[13].text() == ".attn_norm.weight"@ && parts[13] == Part::<Q, N>::Norm(
                built.0.attention_norm,
            )
            &&& parts[14] == Part::<Q, N>::Norm(built.0.ffn_norm)
        }),
{
    let slots = slots_of(LayerKind::Ssm, late);
    assert forall|i: int| 0 <= i < slots.len() implies is_placed(
        slots[i],
        #[trigger] parts[i],
        built,
    ) by {}
    assert(is_placed(slots[0], parts[0], built));
    assert(is_placed(slots[9], parts[9], built));
}

/// A model fresh from its file can be run wherever its layers keep no state: each layer with
/// attention has a cache.
pub proof fn caches_are_there<Q: QuantMethod, N: Norm, M: DeviceMapper, C>(
    model: ModelWeights<Q, N, M, C>,
    layer: int,
)
    requires
        model.cache@.len() == model.layers@.len(),
        0 <= layer < model.layers@.len(),
    ensures
        model.layers@[layer] matches Some(l) ==> (l.mixer matches Mixer::Attention(a)
            ==> (!a.paged ==> l.is_ready(None, model.cache@.len(), layer))),
{
}

} // verus!
