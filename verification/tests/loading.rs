use candle_core::quantized::QMatMul;
use candle_core::{DType, Device, Error, Tensor};
use remote_layers::assembly::{
    build_layer, build_model, slot_form, Form, LayerSettings, ModelParts, NewCache, Part,
    WrongParts,
};
use remote_layers::backend::{Norm, QuantMethod};
use remote_layers::loading::{
    embedding_name, layer_kind, layer_slots, output_name, plan_layer, plan_layers, tensor_name,
    LayerKind, LengthMismatch, Placement, Slot,
};
use remote_layers::props::{
    model_props, verify_qwen3_arch, ContentMetadata, Field, MetaValue, Metadata, MetadataError,
    PropsGGUF, QwenMoEConfig, DEFAULT_MAX_SEQ_LEN, DEFAULT_ROPE_BASE,
};
use remote_layers::model::{LayerWeights, Mixer};
use remote_layers::moe::MoeOrMlp;
use remote_layers::topology::Location;

fn text(s: &str) -> MetaValue {
    MetaValue::Text(s.to_string())
}

fn metadata(entries: Vec<(&str, MetaValue)>) -> Metadata {
    Metadata {
        entries: entries.into_iter().map(|(k, v)| (k.to_string(), v)).collect(),
    }
}

fn least(arch: &str) -> Vec<(String, MetaValue)> {
    vec![
        ("general.architecture".to_string(), text(arch)),
        (format!("{arch}.attention.head_count"), MetaValue::U32(16)),
        (format!("{arch}.attention.head_count_kv"), MetaValue::U32(2)),
        (format!("{arch}.block_count"), MetaValue::U32(4)),
        (format!("{arch}.embedding_length"), MetaValue::U32(2048)),
        (
            format!("{arch}.attention.layer_norm_rms_epsilon"),
            MetaValue::Float(1e-6f32.to_bits()),
        ),
        (format!("{arch}.expert_feed_forward_length"), MetaValue::U32(512)),
        (format!("{arch}.expert_count"), MetaValue::U32(256)),
        (format!("{arch}.expert_used_count"), MetaValue::U32(8)),
    ]
}

fn props_of(entries: Vec<(String, MetaValue)>) -> Result<PropsGGUF, MetadataError> {
    model_props(&Metadata { entries })
}

#[test]
fn architecture_has_to_be_known() {
    for arch in ["qwen3", "qwen3moe", "qwen35moe"] {
        let m = metadata(vec![("general.architecture", text(arch))]);
        assert_eq!(verify_qwen3_arch(&m).unwrap(), arch);
    }
    let m = metadata(vec![("general.architecture", text("llama"))]);
    assert!(matches!(
        verify_qwen3_arch(&m),
        Err(MetadataError::WrongArchitecture(s)) if s == "llama"
    ));
    assert!(matches!(
        verify_qwen3_arch(&metadata(vec![])),
        Err(MetadataError::NoArchitecture)
    ));
    let m = metadata(vec![("general.architecture", MetaValue::U32(3))]);
    assert!(matches!(verify_qwen3_arch(&m), Err(MetadataError::NoArchitecture)));
}

#[test]
fn values_are_read_by_type() {
    assert_eq!(MetaValue::U32(7).to_u32(), Some(7));
    assert_eq!(MetaValue::U64(7).to_u32(), None);
    assert_eq!(MetaValue::I32(7).to_u32(), None);
    assert_eq!(MetaValue::U64(7).to_u64(), Some(7));
    assert_eq!(MetaValue::U8(7).to_u64(), Some(7));
    assert_eq!(MetaValue::U16(7).to_u64(), Some(7));
    assert_eq!(MetaValue::U32(7).to_u64(), Some(7));
    assert_eq!(MetaValue::Bool(true).to_u64(), Some(1));
    assert_eq!(MetaValue::Bool(false).to_u64(), Some(0));
    assert_eq!(MetaValue::I64(7).to_u64(), None);
    assert_eq!(MetaValue::Array.to_u64(), None);
    assert_eq!(MetaValue::Float(5).to_float(), Some(5));
    assert_eq!(MetaValue::Double(5).to_float(), None);
    assert_eq!(MetaValue::I8(1).to_u32(), None);
    assert_eq!(MetaValue::I16(1).to_u64(), None);
}

#[test]
fn fields_are_named_after_the_architecture() {
    let m = metadata(vec![
        ("x.block_count", MetaValue::U32(5)),
        ("y.block_count", MetaValue::U32(6)),
        ("x.context_length", MetaValue::U64(9)),
    ]);
    let c = ContentMetadata { path_prefix: "x", metadata: &m };
    assert_eq!(c.get_u32(Field::BlockCount), Some(5));
    assert_eq!(c.get_u32(Field::ContextLength), None);
    assert_eq!(c.get_u32(Field::HeadCount), None);
    assert!(!c.has_required_keys());
    assert!(m.get(&"y.block_count".to_string()).is_some());
    assert!(m.get(&"block_count".to_string()).is_none());
    assert_eq!(Field::RmsEpsilon.name(), "attention.layer_norm_rms_epsilon");
}

#[test]
fn usual_sizes_stand_in_for_missing_fields() {
    let p = props_of(least("qwen3moe")).unwrap();
    assert_eq!(p.head_count, 16);
    assert_eq!(p.head_count_kv, 2);
    assert_eq!(p.block_count, 4);
    assert_eq!(p.embedding_length, 2048);
    assert_eq!(f32::from_bits(p.rms_norm_eps), 1e-6);
    assert_eq!(p.max_seq_len, 4096);
    assert_eq!(DEFAULT_MAX_SEQ_LEN, 4096);
    assert_eq!(f32::from_bits(p.rope_freq_base), 10_000.0);
    assert_eq!(p.rope_freq_base, DEFAULT_ROPE_BASE);
    assert_eq!(p.key_length, 128);
    assert_eq!(p.value_length, 128);
    assert_eq!(p.ssm_inner_size, 0);
    assert_eq!(p.full_attention_interval, 1);
    let m = p.moe_cfg;
    assert_eq!(m.moe_intermediate_size, 512);
    assert_eq!(m.num_experts, Some(256));
    assert_eq!(m.num_experts_per_tok, 8);
    assert_eq!(m.mlp_only_layers, Some(vec![]));
    assert_eq!(m.decoder_sparse_step, Some(1));
    assert!(m.norm_topk_prob);
    assert_eq!(m.ssm_inner_size, None);
    assert_eq!(m.ssm_state_size, None);
    assert_eq!(m.ssm_conv_kernel, None);
    assert_eq!(m.ssm_time_step_rank, None);
    assert_eq!(m.ssm_group_count, None);
    assert_eq!(m.full_attention_interval, None);
}

fn full() -> Vec<(String, MetaValue)> {
    let mut e = least("qwen35moe");
    for (k, v) in [
        ("ssm.inner_size", MetaValue::U32(4096)),
        ("ssm.state_size", MetaValue::U32(128)),
        ("ssm.conv_kernel", MetaValue::U32(4)),
        ("ssm.time_step_rank", MetaValue::U32(32)),
        ("ssm.group_count", MetaValue::U32(16)),
        ("full_attention_interval", MetaValue::U32(4)),
        ("context_length", MetaValue::U32(262_144)),
        ("rope.freq_base", MetaValue::Float(10_000_000.0f32.to_bits())),
        ("attention.key_length", MetaValue::U32(256)),
        ("attention.value_length", MetaValue::U32(255)),
    ] {
        e.push((format!("qwen35moe.{k}"), v));
    }
    e
}

#[test]
fn all_sizes_are_read() {
    let p = props_of(full()).unwrap();
    assert_eq!(p.ssm_inner_size, 4096);
    assert_eq!(p.ssm_state_size, 128);
    assert_eq!(p.ssm_time_step_rank, 32);
    assert_eq!(p.ssm_group_count, 16);
    assert_eq!(p.full_attention_interval, 4);
    assert_eq!(p.max_seq_len, 262_144);
    assert_eq!(f32::from_bits(p.rope_freq_base), 10_000_000.0);
    assert_eq!(p.key_length, 256);
    assert_eq!(p.value_length, 255);
    assert_eq!(p.moe_cfg.ssm_inner_size, Some(4096));
    assert_eq!(p.moe_cfg.ssm_state_size, Some(128));
    assert_eq!(p.moe_cfg.ssm_conv_kernel, Some(4));
    assert_eq!(p.moe_cfg.ssm_time_step_rank, Some(32));
    assert_eq!(p.moe_cfg.ssm_group_count, Some(16));
    assert_eq!(p.moe_cfg.full_attention_interval, Some(4));
}

#[test]
fn needed_fields_have_to_be_there() {
    for field in [
        "attention.head_count",
        "attention.head_count_kv",
        "block_count",
        "embedding_length",
        "attention.layer_norm_rms_epsilon",
    ] {
        let mut e = least("qwen3");
        e.retain(|(k, _)| *k != format!("qwen3.{field}"));
        assert!(matches!(props_of(e), Err(MetadataError::MissingKeys)));
    }
    for (field, bad) in [
        ("expert_feed_forward_length", Field::ExpertFeedForwardLength),
        ("expert_count", Field::ExpertCount),
        ("expert_used_count", Field::ExpertUsedCount),
    ] {
        let mut e = least("qwen3");
        e.retain(|(k, _)| *k != format!("qwen3.{field}"));
        assert!(matches!(props_of(e), Err(MetadataError::BadField(f)) if f == bad));
    }
}

#[test]
fn needed_fields_have_to_have_their_type() {
    for (field, bad) in [
        ("embedding_length", Field::EmbeddingLength),
        ("attention.head_count", Field::HeadCount),
        ("attention.head_count_kv", Field::HeadCountKv),
        ("block_count", Field::BlockCount),
        ("attention.layer_norm_rms_epsilon", Field::RmsEpsilon),
    ] {
        let mut e = least("qwen3");
        for (k, v) in e.iter_mut() {
            if *k == format!("qwen3.{field}") {
                *v = MetaValue::Bool(true);
            }
        }
        assert!(matches!(props_of(e), Err(MetadataError::BadField(f)) if f == bad));
    }
}

#[test]
fn names_are_made_of_layer_and_slot() {
    assert_eq!(tensor_name(0, Slot::AttnQkv), "blk.0.attn_qkv.weight");
    assert_eq!(tensor_name(10, Slot::SsmA), "blk.10.ssm_a");
    assert_eq!(tensor_name(987, Slot::SsmDt), "blk.987.ssm_dt.bias");
    assert_eq!(
        tensor_name(usize::MAX, Slot::FfnNorm),
        format!("blk.{}.ffn_norm.weight", usize::MAX)
    );
}

#[test]
fn output_falls_back_on_the_embedding() {
    let with = vec!["token_embd.weight".to_string(), "output.weight".to_string()];
    assert_eq!(output_name(&with), "output.weight");
    assert_eq!(output_name(&with[..1].to_vec()), "token_embd.weight");
    assert_eq!(embedding_name(), "token_embd.weight");
}

fn here(at: Location) -> Placement {
    Placement { remote: false, device: Some(at) }
}

fn suffixes(layer: usize, slots: &[Slot]) -> Vec<String> {
    slots
        .iter()
        .map(|s| tensor_name(layer, *s).replace(&format!("blk.{layer}."), ""))
        .collect()
}

#[test]
fn a_head_of_its_own_changes_no_layer() {
    let p = props_of(full()).unwrap();
    let names = vec![
        "token_embd.weight".to_string(),
        "blk.0.ssm_conv1d.weight".to_string(),
        "blk.1.post_attention_norm.weight".to_string(),
    ];
    let mut more = names.clone();
    more.push("output.weight".to_string());
    assert_eq!(output_name(&names), embedding_name());
    assert_eq!(output_name(&more), "output.weight");
    for layer in 0..2usize {
        let a = plan_layer(&p, &names, &here(Location::Cpu), layer).unwrap();
        let b = plan_layer(&p, &more, &here(Location::Cpu), layer).unwrap();
        assert_eq!((a.kind, a.slots), (b.kind, b.slots));
    }
}

#[test]
fn layers_with_a_kernel_keep_a_state() {
    let p = props_of(full()).unwrap();
    let names = vec![
        "blk.0.ssm_conv1d.weight".to_string(),
        "blk.0.post_attention_norm.weight".to_string(),
    ];
    assert_eq!(layer_kind(&p, &names, 0), LayerKind::Ssm);
    assert_eq!(layer_kind(&p, &names, 1), LayerKind::AttentionMoe);
    let plan = plan_layer(&p, &names, &here(Location::Cpu), 0).unwrap();
    assert_eq!(plan.kind, LayerKind::Ssm);
    assert_eq!(plan.n_kv_groups, None);
    assert_eq!(
        suffixes(0, &plan.slots),
        vec![
            "attn_qkv.weight",
            "attn_gate.weight",
            "ssm_conv1d.weight",
            "ssm_a",
            "ssm_dt.bias",
            "ssm_alpha.weight",
            "ssm_beta.weight",
            "ssm_out.weight",
            "ssm_norm.weight",
            "ffn_gate_inp.weight",
            "ffn_gate_exps.weight",
            "ffn_up_exps.weight",
            "ffn_down_exps.weight",
            "attn_norm.weight",
            "post_attention_norm.weight"
        ]
    );
    // Of two norms such a layer takes the one after attention.
    let mut both = names.clone();
    both.push("blk.0.ffn_norm.weight".to_string());
    let plan = plan_layer(&p, &both, &here(Location::Cpu), 0).unwrap();
    assert_eq!(plan.slots.last(), Some(&Slot::PostAttentionNorm));
    let early = vec!["blk.0.ssm_conv1d.weight".to_string()];
    let plan = plan_layer(&p, &early, &here(Location::Cpu), 0).unwrap();
    assert_eq!(plan.slots.last(), Some(&Slot::FfnNorm));
    // Without an inner size there are no such layers.
    let q = props_of(least("qwen3moe")).unwrap();
    assert_eq!(layer_kind(&q, &names, 0), LayerKind::AttentionMoe);
}

#[test]
fn attention_layers_have_their_tensors() {
    let p = props_of(least("qwen3moe")).unwrap();
    let plan = plan_layer(&p, &vec![], &here(Location::Cuda { gpu_id: 1 }), 2).unwrap();
    assert_eq!(plan.kind, LayerKind::AttentionMoe);
    assert_eq!(plan.location, Location::Cuda { gpu_id: 1 });
    assert_eq!(plan.n_kv_groups, Some(8));
    assert_eq!(
        suffixes(2, &plan.slots),
        vec![
            "attn_q.weight",
            "attn_k.weight",
            "attn_v.weight",
            "attn_output.weight",
            "ffn_gate_inp.weight",
            "ffn_gate_exps.weight",
            "ffn_up_exps.weight",
            "ffn_down_exps.weight",
            "attn_q_norm.weight",
            "attn_k_norm.weight",
            "attn_norm.weight",
            "ffn_norm.weight"
        ]
    );
    // The norm after attention is taken where the file has no other.
    let names = vec!["blk.2.post_attention_norm.weight".to_string()];
    let plan = plan_layer(&p, &names, &here(Location::Cpu), 2).unwrap();
    assert_eq!(plan.slots.last(), Some(&Slot::PostAttentionNorm));
    let both = vec![
        "blk.2.post_attention_norm.weight".to_string(),
        "blk.2.ffn_norm.weight".to_string(),
    ];
    let plan = plan_layer(&p, &both, &here(Location::Cpu), 2).unwrap();
    assert_eq!(plan.slots.last(), Some(&Slot::FfnNorm));
    assert_eq!(
        suffixes(0, &layer_slots(LayerKind::AttentionMlp, Slot::FfnNorm)),
        vec![
            "attn_q.weight",
            "attn_k.weight",
            "attn_v.weight",
            "attn_output.weight",
            "ffn_gate.weight",
            "ffn_down.weight",
            "ffn_up.weight",
            "attn_q_norm.weight",
            "attn_k_norm.weight",
            "attn_norm.weight",
            "ffn_norm.weight"
        ]
    );
}

#[test]
fn experts_can_be_left_out() {
    let cfg = |experts, only: Vec<usize>, step| QwenMoEConfig {
        moe_intermediate_size: 1,
        num_experts: Some(experts),
        mlp_only_layers: Some(only),
        decoder_sparse_step: Some(step),
        norm_topk_prob: true,
        num_experts_per_tok: 1,
        ssm_inner_size: None,
        ssm_state_size: None,
        ssm_conv_kernel: None,
        ssm_time_step_rank: None,
        ssm_group_count: None,
        full_attention_interval: None,
    };
    let mut p = props_of(least("qwen3moe")).unwrap();
    p.moe_cfg = cfg(0, vec![], 1);
    assert_eq!(layer_kind(&p, &vec![], 0), LayerKind::AttentionMlp);
    p.moe_cfg = cfg(4, vec![1], 1);
    assert_eq!(layer_kind(&p, &vec![], 0), LayerKind::AttentionMoe);
    assert_eq!(layer_kind(&p, &vec![], 1), LayerKind::AttentionMlp);
    p.moe_cfg = cfg(4, vec![], 2);
    assert_eq!(layer_kind(&p, &vec![], 0), LayerKind::AttentionMlp);
    assert_eq!(layer_kind(&p, &vec![], 1), LayerKind::AttentionMoe);
}

#[test]
fn layers_elsewhere_are_not_loaded() {
    let p = props_of(least("qwen3moe")).unwrap();
    let gpu = Location::Cuda { gpu_id: 0 };
    let placements = [
        here(gpu),
        Placement { remote: true, device: None },
        Placement { remote: false, device: None },
        here(Location::Cpu),
    ];
    let plan = plan_layers(&p, &vec![], &placements, Location::Metal { gpu_id: 0 }).unwrap();
    assert_eq!(plan.head_dim, 128);
    assert_eq!(
        plan.ropes,
        vec![gpu, Location::Metal { gpu_id: 0 }, Location::Cpu]
    );
    let loaded: Vec<bool> = plan.layers.iter().map(|l| l.is_some()).collect();
    assert_eq!(loaded, vec![true, false, false, true]);
    for layer in plan.layers.iter().flatten() {
        assert!(plan.ropes.contains(&layer.location));
    }
}

#[test]
fn keys_and_values_have_one_size() {
    let p = props_of(full()).unwrap();
    let placements = [here(Location::Cpu); 4];
    assert_eq!(
        plan_layers(&p, &vec![], &placements, Location::Cpu).unwrap_err(),
        LengthMismatch { key_length: 256, value_length: 255 }
    );
    // This is reported even where there is nothing to divide by.
    let mut none = props_of(full()).unwrap();
    none.head_count_kv = 0;
    assert_eq!(
        plan_layers(&none, &vec![], &placements, Location::Cpu).unwrap_err(),
        LengthMismatch { key_length: 256, value_length: 255 }
    );
}

/// A weight or a norm that is known by a number.
#[derive(Debug, PartialEq)]
struct Tag(usize);

impl QuantMethod for Tag {
    fn forward(&self, xs: &Tensor) -> Result<Tensor, Error> {
        xs + self.0 as f64
    }
}

impl Norm for Tag {
    fn forward(&self, x: &Tensor) -> Result<Tensor, Error> {
        x + self.0 as f64
    }
}

fn number(i: usize) -> Tensor {
    Tensor::new(i as f32, &Device::Cpu).unwrap()
}

fn number_of(x: &Tensor) -> usize {
    x.to_scalar::<f32>().unwrap() as usize
}

fn matrix_of(m: &QMatMul) -> usize {
    match m {
        QMatMul::Tensor(x) => number_of(x),
        _ => panic!("no plain matrix"),
    }
}

/// A part for each slot, which holds the number of the slot.
fn parts_of(slots: &[Slot]) -> Vec<Part<Tag, Tag>> {
    slots
        .iter()
        .enumerate()
        .map(|(i, slot)| match slot_form(*slot) {
            Form::Weight => Part::Weight(Tag(i)),
            Form::Matrix => Part::Matrix(QMatMul::Tensor(number(i))),
            Form::Dense => Part::Dense(number(i)),
            Form::Norm => Part::Norm(Tag(i)),
        })
        .collect()
}

fn settings() -> LayerSettings {
    LayerSettings { head_dim: 64, paged: true, dtype: DType::F16 }
}

#[test]
fn forms_follow_the_slots() {
    assert_eq!(slot_form(Slot::AttnQ), Form::Weight);
    assert_eq!(slot_form(Slot::SsmAlpha), Form::Weight);
    assert_eq!(slot_form(Slot::FfnGate), Form::Weight);
    assert_eq!(slot_form(Slot::FfnGateInp), Form::Matrix);
    assert_eq!(slot_form(Slot::FfnDownExps), Form::Matrix);
    assert_eq!(slot_form(Slot::SsmConv1d), Form::Dense);
    assert_eq!(slot_form(Slot::SsmNorm), Form::Dense);
    assert_eq!(slot_form(Slot::PostAttentionNorm), Form::Norm);
    assert_eq!(slot_form(Slot::AttnKNorm), Form::Norm);
}

#[test]
fn state_layers_are_put_together() {
    let p = props_of(full()).unwrap();
    let names = vec!["blk.0.ssm_conv1d.weight".to_string()];
    let plan = plan_layer(&p, &names, &here(Location::Cpu), 0).unwrap();
    let (layer, norms) = build_layer(&p, &plan, &settings(), parts_of(&plan.slots)).unwrap();
    assert!(norms.is_none());
    match layer.mixer {
        Mixer::Ssm { ssm, conv_state, ssm_state } => {
            assert!(conv_state.is_none() && ssm_state.is_none());
            assert_eq!((ssm.attn_qkv, ssm.attn_gate), (Tag(0), Tag(1)));
            assert_eq!(number_of(&ssm.ssm_conv1d), 2);
            assert_eq!(number_of(&ssm.ssm_a), 3);
            assert_eq!(number_of(&ssm.ssm_dt), 4);
            assert_eq!((ssm.ssm_alpha, ssm.ssm_beta, ssm.ssm_out), (Tag(5), Tag(6), Tag(7)));
            assert_eq!(number_of(&ssm.ssm_norm), 8);
            assert_eq!((ssm.n_heads, ssm.n_kv_heads), (32, 16));
            assert_eq!((ssm.state_size, ssm.inner_size), (128, 4096));
        }
        Mixer::Attention(_) => panic!("no state"),
    }
    match layer.mlp {
        MoeOrMlp::FusedMoe(m) => {
            assert_eq!(matrix_of(&m.gate), 9);
            assert_eq!(matrix_of(&m.gate_experts), 10);
            assert_eq!(matrix_of(&m.up_experts), 11);
            assert_eq!(matrix_of(&m.down_experts), 12);
            assert_eq!((m.norm_topk_prob, m.num_experts_per_tok), (true, 8));
        }
        MoeOrMlp::Mlp(_) => panic!("no experts"),
    }
    assert_eq!((layer.attention_norm, layer.ffn_norm), (Tag(13), Tag(14)));
}

#[test]
fn attention_layers_are_put_together() {
    let p = props_of(least("qwen3moe")).unwrap();
    let plan = plan_layer(&p, &vec![], &here(Location::Cpu), 0).unwrap();
    let (layer, norms) = build_layer(&p, &plan, &settings(), parts_of(&plan.slots)).unwrap();
    assert_eq!(norms, Some((Tag(8), Tag(9))));
    match layer.mixer {
        Mixer::Attention(a) => {
            assert_eq!((a.attention_wq, a.attention_wk), (Tag(0), Tag(1)));
            assert_eq!((a.attention_wv, a.attention_wo), (Tag(2), Tag(3)));
            assert_eq!((a.n_head, a.n_kv_head, a.head_dim), (16, 2, 64));
            assert!(a.paged);
            assert_eq!(a.dtype, DType::F16);
        }
        Mixer::Ssm { .. } => panic!("no attention"),
    }
    assert!(matches!(&layer.mlp, MoeOrMlp::FusedMoe(m) if matrix_of(&m.down_experts) == 7));
    assert_eq!((layer.attention_norm, layer.ffn_norm), (Tag(10), Tag(11)));
}

#[test]
fn layers_without_experts_are_put_together() {
    let mut p = props_of(least("qwen3moe")).unwrap();
    p.moe_cfg.mlp_only_layers = Some(vec![1]);
    let plan = plan_layer(&p, &vec![], &here(Location::Cpu), 1).unwrap();
    assert_eq!(plan.kind, LayerKind::AttentionMlp);
    let (layer, norms) = build_layer(&p, &plan, &settings(), parts_of(&plan.slots)).unwrap();
    let at = |slot: Slot| plan.slots.iter().position(|s| *s == slot).unwrap();
    assert_eq!(norms, Some((Tag(at(Slot::AttnQNorm)), Tag(at(Slot::AttnKNorm)))));
    match layer.mlp {
        MoeOrMlp::Mlp(m) => {
            assert_eq!(m.feed_forward_w1, Tag(at(Slot::FfnGate)));
            assert_eq!(m.feed_forward_w2, Tag(at(Slot::FfnDown)));
            assert_eq!(m.feed_forward_w3, Tag(at(Slot::FfnUp)));
        }
        MoeOrMlp::FusedMoe(_) => panic!("experts"),
    }
}

#[test]
fn other_parts_are_refused() {
    let p = props_of(least("qwen3moe")).unwrap();
    let plan = plan_layer(&p, &vec![], &here(Location::Cpu), 0).unwrap();
    let mut few = parts_of(&plan.slots);
    few.pop();
    assert!(matches!(build_layer(&p, &plan, &settings(), few), Err(WrongParts)));
    let mut other = parts_of(&plan.slots);
    other[4] = Part::Weight(Tag(4));
    assert!(matches!(build_layer(&p, &plan, &settings(), other), Err(WrongParts)));
}

/// Caches that say how long they may get.
struct Empty;

impl NewCache for Empty {
    type Cache = usize;

    fn new_cache(&self, max_seq_len: usize) -> usize {
        max_seq_len
    }
}

#[test]
fn models_have_a_cache_for_each_block() {
    let mut p = props_of(least("qwen3moe")).unwrap();
    p.max_seq_len = 77;
    let layers: Vec<Option<LayerWeights<Tag, Tag>>> = (0..4).map(|_| None).collect();
    let parts = ModelParts {
        tok_embeddings: number(1),
        norm: Tag(2),
        output: Tag(3),
        device: Device::Cpu,
        mapper: "mapper",
        dtype: DType::BF16,
    };
    let m = build_model(&p, parts, layers, &Empty);
    assert_eq!(m.cache, vec![77; 4]);
    assert_eq!(m.layers.len(), 4);
    assert_eq!(number_of(&m.tok_embeddings), 1);
    assert_eq!((m.norm, m.output, m.mapper), (Tag(2), Tag(3), Some("mapper")));
    assert_eq!((m.embedding_length, m.max_seq_len, m.dtype), (2048, 77, DType::BF16));
}
