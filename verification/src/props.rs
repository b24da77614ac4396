//! What a model file says of the model: its metadata, and the sizes read from them.
use vstd::prelude::*;
use vstd::string::StringExecFns;

verus! {

/// A metadata value. Floats are held as bit patterns; of a list only that it is one.
#[derive(Debug)]
pub enum MetaValue {
    U8(u8),
    I8(i8),
    U16(u16),
    I16(i16),
    U32(u32),
    I32(i32),
    U64(u64),
    I64(i64),
    Float(u32),
    Double(u64),
    Bool(bool),
    Text(String),
    Array,
}

impl MetaValue {
    /// The value of one that is stored as a `u32`.
    pub open spec fn as_u32(&self) -> Option<u32> {
        match self {
            MetaValue::U32(x) => Some(*x),
            _ => None,
        }
    }

    /// The value of one that is stored as an unsigned number of any width, or as a truth value.
    pub open spec fn as_u64(&self) -> Option<u64> {
        match self {
            MetaValue::U64(x) => Some(*x),
            MetaValue::U8(x) => Some(*x as u64),
            MetaValue::U16(x) => Some(*x as u64),
            MetaValue::U32(x) => Some(*x as u64),
            MetaValue::Bool(b) => Some(
                if *b {
                    1u64
                } else {
                    0u64
                },
            ),
            _ => None,
        }
    }

    /// The bit pattern of one that is stored as a 32-bit float.
    pub open spec fn as_float(&self) -> Option<u32> {
        match self {
            MetaValue::Float(bits) => Some(*bits),
            _ => None,
        }
    }

    /// The value of one that is stored as a `u32`.
    pub fn to_u32(&self) -> (r: Option<u32>)
        ensures
            r == self.as_u32(),
    {
        match self {
            MetaValue::U32(x) => Some(*x),
            _ => None,
        }
    }

    /// The value of one that is stored as an unsigned number of any width, or as a truth value.
    pub fn to_u64(&self) -> (r: Option<u64>)
        ensures
            r == self.as_u64(),
    {
        match self {
            MetaValue::U64(x) => Some(*x),
            MetaValue::U8(x) => Some(*x as u64),
            MetaValue::U16(x) => Some(*x as u64),
            MetaValue::U32(x) => Some(*x as u64),
            MetaValue::Bool(b) => Some(
                if *b {
                    1u64
                } else {
                    0u64
                },
            ),
            _ => None,
        }
    }

    /// The bit pattern of one that is stored as a 32-bit float.
    pub fn to_float(&self) -> (r: Option<u32>)
        ensures
            r == self.as_float(),
    {
        match self {
            MetaValue::Float(bits) => Some(*bits),
            _ => None,
        }
    }
}

/// What stands under a key.
pub open spec fn lookup(entries: Seq<(String, MetaValue)>, key: Seq<char>) -> Option<MetaValue>
    decreases entries.len(),
{
    if entries.len() == 0 {
        None
    } else if entries[0].0@ == key {
        Some(entries[0].1)
    } else {
        lookup(entries.drop_first(), key)
    }
}

/// The metadata of a model file.
#[derive(Debug)]
pub struct Metadata {
    pub entries: Vec<(String, MetaValue)>,
}

impl Metadata {
    /// What stands under a key.
    pub open spec fn at(&self, key: Seq<char>) -> Option<MetaValue> {
        lookup(self.entries@, key)
    }

    /// What stands under a key.
    pub fn get(&self, key: &String) -> (r: Option<&MetaValue>)
        ensures
            match r {
                Some(v) => self.at(key@) == Some(*v),
                None => self.at(key@) is None,
            },
    {
        let mut i: usize = 0;
        assert(self.entries@.skip(0) =~= self.entries@);
        while i < self.entries.len()
            invariant
                i <= self.entries@.len(),
                self.at(key@) == lookup(self.entries@.skip(i as int), key@),
            decreases self.entries@.len() - i,
        {
            let entry = &self.entries[i];
            assert(self.entries@.skip(i as int)[0] == *entry);
            if entry.0 == *key {
                return Some(&entry.1);
            }
            assert(self.entries@.skip(i as int).drop_first() =~= self.entries@.skip(i + 1));
            i += 1;
        }
        None
    }
}

/// A field that is named after a model's architecture.
#[derive(Debug, Clone, Copy, PartialEq, Eq, Structural)]
pub enum Field {
    HeadCount,
    HeadCountKv,
    BlockCount,
    EmbeddingLength,
    RmsEpsilon,
    SsmInnerSize,
    SsmStateSize,
    SsmConvKernel,
    SsmTimeStepRank,
    SsmGroupCount,
    FullAttentionInterval,
    ExpertFeedForwardLength,
    ExpertCount,
    ExpertUsedCount,
    ContextLength,
    RopeFreqBase,
    KeyLength,
    ValueLength,
}

impl Field {
    /// The field's name.
    pub open spec fn text(&self) -> Seq<char> {
        match self {
            Field::HeadCount => "attention.head_count"@,
            Field::HeadCountKv => "attention.head_count_kv"@,
            Field::BlockCount => "block_count"@,
            Field::EmbeddingLength => "embedding_length"@,
            Field::RmsEpsilon => "attention.layer_norm_rms_epsilon"@,
            Field::SsmInnerSize => "ssm.inner_size"@,
            Field::SsmStateSize => "ssm.state_size"@,
            Field::SsmConvKernel => "ssm.conv_kernel"@,
            Field::SsmTimeStepRank => "ssm.time_step_rank"@,
            Field::SsmGroupCount => "ssm.group_count"@,
            Field::FullAttentionInterval => "full_attention_interval"@,
            Field::ExpertFeedForwardLength => "expert_feed_forward_length"@,
            Field::ExpertCount => "expert_count"@,
            Field::ExpertUsedCount => "expert_used_count"@,
            Field::ContextLength => "context_length"@,
            Field::RopeFreqBase => "rope.freq_base"@,
            Field::KeyLength => "attention.key_length"@,
            Field::ValueLength => "attention.value_length"@,
        }
    }

    /// The field's name.
    pub fn name(&self) -> (r: &'static str)
        ensures
            r@ == self.text(),
    {
        match self {
            Field::HeadCount => "attention.head_count",
            Field::HeadCountKv => "attention.head_count_kv",
            Field::BlockCount => "block_count",
            Field::EmbeddingLength => "embedding_length",
            Field::RmsEpsilon => "attention.layer_norm_rms_epsilon",
            Field::SsmInnerSize => "ssm.inner_size",
            Field::SsmStateSize => "ssm.state_size",
            Field::SsmConvKernel => "ssm.conv_kernel",
            Field::SsmTimeStepRank => "ssm.time_step_rank",
            Field::SsmGroupCount => "ssm.group_count",
            Field::FullAttentionInterval => "full_attention_interval",
            Field::ExpertFeedForwardLength => "expert_feed_forward_length",
            Field::ExpertCount => "expert_count",
            Field::ExpertUsedCount => "expert_used_count",
            Field::ContextLength => "context_length",
            Field::RopeFreqBase => "rope.freq_base",
            Field::KeyLength => "attention.key_length",
            Field::ValueLength => "attention.value_length",
        }
    }
}

/// Why metadata describe no model that is known here.
#[derive(Debug)]
pub enum MetadataError {
    /// No text says what the architecture is.
    NoArchitecture,
    /// The architecture is another one.
    WrongArchitecture(String),
    /// A field is missing that has to be there.
    MissingKeys,
    /// A field is missing or holds a value of another type.
    BadField(Field),
}

/// The architecture that metadata name.
pub open spec fn architecture(m: Metadata) -> Option<Seq<char>> {
    match m.at("general.architecture"@) {
        Some(MetaValue::Text(s)) => Some(s@),
        _ => None,
    }
}

/// The architecture is one of those that the model is for.
pub open spec fn is_known(arch: Seq<char>) -> bool {
    arch == "qwen3"@ || arch == "qwen3moe"@ || arch == "qwen35moe"@
}

/// The architecture that metadata name, if it is one of those that the model is for.
pub fn verify_qwen3_arch(metadata: &Metadata) -> (r: Result<String, MetadataError>)
    ensures
        match architecture(*metadata) {
            None => r matches Err(MetadataError::NoArchitecture),
            Some(arch) => if is_known(arch) {
                r matches Ok(s) && s@ == arch
            } else {
                r matches Err(MetadataError::WrongArchitecture(s)) && s@ == arch
            },
        },
{
    let key = "general.architecture".to_owned();
    match metadata.get(&key) {
        Some(MetaValue::Text(arch)) => {
            if *arch == "qwen3".to_owned() || *arch == "qwen3moe".to_owned() || *arch
                == "qwen35moe".to_owned() {
                Ok(arch.clone())
            } else {
                Err(MetadataError::WrongArchitecture(arch.clone()))
            }
        },
        _ => Err(MetadataError::NoArchitecture),
    }
}

/// What stands under a field that is named after an architecture.
pub open spec fn value_of(m: Metadata, arch: Seq<char>, field: Field) -> Option<MetaValue> {
    m.at(arch + "."@ + field.text())
}

/// The `u32` that stands under a field.
pub open spec fn u32_of(m: Metadata, arch: Seq<char>, field: Field) -> Option<u32> {
    match value_of(m, arch, field) {
        Some(v) => v.as_u32(),
        None => None,
    }
}

/// The `u32` that stands under a field, or another number where there is none.
pub open spec fn u32_or(m: Metadata, arch: Seq<char>, field: Field, other: usize) -> usize {
    match u32_of(m, arch, field) {
        Some(x) => x as usize,
        None => other,
    }
}

/// The unsigned number that stands under a field.
pub open spec fn u64_of(m: Metadata, arch: Seq<char>, field: Field) -> Option<u64> {
    match value_of(m, arch, field) {
        Some(v) => v.as_u64(),
        None => None,
    }
}

/// The bit pattern of the float that stands under a field.
pub open spec fn float_of(m: Metadata, arch: Seq<char>, field: Field) -> Option<u32> {
    match value_of(m, arch, field) {
        Some(v) => v.as_float(),
        None => None,
    }
}

/// The fields that have to be there are there.
pub open spec fn is_complete(m: Metadata, arch: Seq<char>) -> bool {
    &&& value_of(m, arch, Field::HeadCount) is Some
    &&& value_of(m, arch, Field::HeadCountKv) is Some
    &&& value_of(m, arch, Field::BlockCount) is Some
    &&& value_of(m, arch, Field::EmbeddingLength) is Some
    &&& value_of(m, arch, Field::RmsEpsilon) is Some
}

/// The first field that cannot be read, in the order in which they are read.
pub open spec fn bad_field(m: Metadata, arch: Seq<char>) -> Option<Field> {
    if u32_of(m, arch, Field::EmbeddingLength) is None {
        Some(Field::EmbeddingLength)
    } else if u32_of(m, arch, Field::HeadCount) is None {
        Some(Field::HeadCount)
    } else if u32_of(m, arch, Field::ExpertFeedForwardLength) is None {
        Some(Field::ExpertFeedForwardLength)
    } else if u32_of(m, arch, Field::ExpertCount) is None {
        Some(Field::ExpertCount)
    } else if u32_of(m, arch, Field::ExpertUsedCount) is None {
        Some(Field::ExpertUsedCount)
    } else if u32_of(m, arch, Field::HeadCountKv) is None {
        Some(Field::HeadCountKv)
    } else if u32_of(m, arch, Field::BlockCount) is None {
        Some(Field::BlockCount)
    } else if float_of(m, arch, Field::RmsEpsilon) is None {
        Some(Field::RmsEpsilon)
    } else {
        None
    }
}

/// The metadata can be read, but give a model without heads.
pub open spec fn is_headless(m: Metadata, arch: Seq<char>) -> bool {
    &&& architecture(m) matches Some(named) && is_known(named)
    &&& is_complete(m, arch)
    &&& bad_field(m, arch) is None
    &&& u32_of(m, arch, Field::HeadCount) == Some(0u32)
}

/// Metadata, of which fields named after an architecture are read.
pub struct ContentMetadata<'a> {
    pub path_prefix: &'a str,
    pub metadata: &'a Metadata,
}

impl<'a> ContentMetadata<'a> {
    /// What stands under a field.
    pub fn value(&self, field: Field) -> (r: Option<&'a MetaValue>)
        ensures
            match r {
                Some(v) => value_of(*self.metadata, self.path_prefix@, field) == Some(*v),
                None => value_of(*self.metadata, self.path_prefix@, field) is None,
            },
    {
        let mut key = self.path_prefix.to_owned();
        key.append(".");
        key.append(field.name());
        self.metadata.get(&key)
    }

    /// The `u32` that stands under a field.
    pub fn get_u32(&self, field: Field) -> (r: Option<u32>)
        ensures
            r == u32_of(*self.metadata, self.path_prefix@, field),
    {
        match self.value(field) {
            Some(v) => v.to_u32(),
            None => None,
        }
    }

    /// The `u32` that stands under a field; an error where there is none.
    fn need_u32(&self, field: Field) -> (r: Result<usize, MetadataError>)
        ensures
            match u32_of(*self.metadata, self.path_prefix@, field) {
                Some(x) => r matches Ok(y) && y == x as usize,
                None => r matches Err(MetadataError::BadField(f)) && f == field,
            },
    {
        match self.get_u32(field) {
            Some(x) => Ok(x as usize),
            None => Err(MetadataError::BadField(field)),
        }
    }

    /// The `u32` that stands under a field, or another number where there is none.
    fn get_u32_or(&self, field: Field, other: usize) -> (r: usize)
        ensures
            r == u32_or(*self.metadata, self.path_prefix@, field, other),
    {
        match self.get_u32(field) {
            Some(x) => x as usize,
            None => other,
        }
    }

    /// Whether the fields that have to be there are there.
    pub fn has_required_keys(&self) -> (r: bool)
        ensures
            r == is_complete(*self.metadata, self.path_prefix@),
    {
        self.value(Field::HeadCount).is_some() && self.value(Field::HeadCountKv).is_some()
            && self.value(Field::BlockCount).is_some() && self.value(
            Field::EmbeddingLength,
        ).is_some() && self.value(Field::RmsEpsilon).is_some()
    }

    /// Whether the metadata can be read, but give a model without heads.
    pub fn lacks_heads(&self) -> (r: bool)
        ensures
            r == is_headless(*self.metadata, self.path_prefix@),
    {
        let known = match verify_qwen3_arch(self.metadata) {
            Ok(_) => true,
            Err(_) => false,
        };
        let has_epsilon = match self.value(Field::RmsEpsilon) {
            Some(v) => v.to_float().is_some(),
            None => false,
        };
        let heads = self.get_u32(Field::HeadCount);
        known && self.has_required_keys() && has_epsilon && self.get_u32(
            Field::EmbeddingLength,
        ).is_some() && self.get_u32(Field::ExpertFeedForwardLength).is_some() && self.get_u32(
            Field::ExpertCount,
        ).is_some() && self.get_u32(Field::ExpertUsedCount).is_some() && self.get_u32(
            Field::HeadCountKv,
        ).is_some() && self.get_u32(Field::BlockCount).is_some() && heads.is_some()
            && heads.unwrap() == 0
    }
}

/// Sizes of a model whose layers have experts or keep a state.
#[derive(Debug, Clone)]
pub struct QwenMoEConfig {
    pub moe_intermediate_size: usize,
    pub num_experts: Option<usize>,
    pub mlp_only_layers: Option<Vec<usize>>,
    pub decoder_sparse_step: Option<usize>,
    pub norm_topk_prob: bool,
    pub num_experts_per_tok: usize,
    pub ssm_inner_size: Option<usize>,
    pub ssm_state_size: Option<usize>,
    pub ssm_conv_kernel: Option<usize>,
    pub ssm_time_step_rank: Option<usize>,
    pub ssm_group_count: Option<usize>,
    pub full_attention_interval: Option<usize>,
}

/// A size, if it is larger than `bound`.
pub open spec fn above(size: usize, bound: usize) -> Option<usize> {
    if size > bound {
        Some(size)
    } else {
        None
    }
}

/// A size, if it is larger than `bound`.
fn if_above(size: usize, bound: usize) -> (r: Option<usize>)
    ensures
        r == above(size, bound),
{
    if size > bound {
        Some(size)
    } else {
        None
    }
}

/// The longest context where metadata say nothing of it.
pub const DEFAULT_MAX_SEQ_LEN: u64 = 4096;

/// The bit pattern of ten thousand, the base of rotary positions where metadata say nothing of it.
pub const DEFAULT_ROPE_BASE: u32 = 0x461C_4000;

/// Sizes of a model. Floats are held as bit patterns.
#[derive(Debug)]
pub struct PropsGGUF {
    pub head_count: usize,
    pub head_count_kv: usize,
    pub block_count: usize,
    pub embedding_length: usize,
    pub rms_norm_eps: u32,
    pub max_seq_len: usize,
    pub rope_freq_base: u32,
    pub key_length: usize,
    pub value_length: usize,
    pub moe_cfg: QwenMoEConfig,
    pub ssm_state_size: usize,
    pub ssm_time_step_rank: usize,
    pub ssm_inner_size: usize,
    pub ssm_group_count: usize,
    pub full_attention_interval: usize,
}

impl QwenMoEConfig {
    /// The sizes are those that metadata say.
    pub open spec fn is_read_from(&self, m: Metadata, arch: Seq<char>) -> bool {
        &&& self.moe_intermediate_size == u32_or(m, arch, Field::ExpertFeedForwardLength, 0)
        &&& self.num_experts == Some(u32_or(m, arch, Field::ExpertCount, 0))
        &&& self.mlp_only_layers matches Some(layers) && layers@ == Seq::<usize>::empty()
        &&& self.decoder_sparse_step == Some(1usize)
        &&& self.norm_topk_prob
        &&& self.num_experts_per_tok == u32_or(m, arch, Field::ExpertUsedCount, 0)
        &&& self.ssm_inner_size == above(u32_or(m, arch, Field::SsmInnerSize, 0), 0)
        &&& self.ssm_state_size == above(u32_or(m, arch, Field::SsmStateSize, 0), 0)
        &&& self.ssm_conv_kernel == above(u32_or(m, arch, Field::SsmConvKernel, 0), 0)
        &&& self.ssm_time_step_rank == above(u32_or(m, arch, Field::SsmTimeStepRank, 0), 0)
        &&& self.ssm_group_count == above(u32_or(m, arch, Field::SsmGroupCount, 0), 0)
        &&& self.full_attention_interval == above(
            u32_or(m, arch, Field::FullAttentionInterval, 1),
            1,
        )
    }
}

/// `r` is what reading the sizes of a model gives.
pub open spec fn is_outcome(
    m: Metadata,
    arch: Seq<char>,
    r: Result<PropsGGUF, MetadataError>,
) -> bool {
    match architecture(m) {
        None => r matches Err(MetadataError::NoArchitecture),
        Some(named) => if !is_known(named) {
            r matches Err(MetadataError::WrongArchitecture(s)) && s@ == named
        } else if !is_complete(m, arch) {
            r matches Err(MetadataError::MissingKeys)
        } else {
            match bad_field(m, arch) {
                Some(f) => r matches Err(MetadataError::BadField(g)) && g == f,
                None => r matches Ok(p) && p.is_read_from(m, arch),
            }
        },
    }
}

/// Reads the sizes of a model from the fields that are named after its architecture.
pub fn model_props(metadata: &Metadata) -> (r: Result<PropsGGUF, MetadataError>)
    requires
        architecture(*metadata) matches Some(arch) ==> !is_headless(*metadata, arch),
    ensures
        match architecture(*metadata) {
            None => r matches Err(MetadataError::NoArchitecture),
            Some(arch) => is_outcome(*metadata, arch, r),
        },
{
    match verify_qwen3_arch(metadata) {
        Ok(arch) => PropsGGUF::try_from(
            &ContentMetadata { path_prefix: arch.as_str(), metadata },
        ),
        Err(e) => Err(e),
    }
}

impl PropsGGUF {
    /// The sizes are those that metadata say, or else the usual ones: without a key or value
    /// length of their own, heads share the embedding evenly.
    pub open spec fn is_read_from(&self, m: Metadata, arch: Seq<char>) -> bool {
        let even = (self.embedding_length / self.head_count) as usize;
        &&& self.head_count == u32_or(m, arch, Field::HeadCount, 0)
        &&& self.head_count_kv == u32_or(m, arch, Field::HeadCountKv, 0)
        &&& self.block_count == u32_or(m, arch, Field::BlockCount, 0)
        &&& self.embedding_length == u32_or(m, arch, Field::EmbeddingLength, 0)
        &&& Some(self.rms_norm_eps) == float_of(m, arch, Field::RmsEpsilon)
        &&& self.max_seq_len == (match u64_of(m, arch, Field::ContextLength) {
            Some(x) => x as usize,
            None => DEFAULT_MAX_SEQ_LEN as usize,
        })
        &&& self.rope_freq_base == (match float_of(m, arch, Field::RopeFreqBase) {
            Some(bits) => bits,
            None => DEFAULT_ROPE_BASE,
        })
        &&& self.key_length == u32_or(m, arch, Field::KeyLength, even)
        &&& self.value_length == u32_or(m, arch, Field::ValueLength, even)
        &&& self.moe_cfg.is_read_from(m, arch)
        &&& self.ssm_state_size == u32_or(m, arch, Field::SsmStateSize, 0)
        &&& self.ssm_time_step_rank == u32_or(m, arch, Field::SsmTimeStepRank, 0)
        &&& self.ssm_inner_size == u32_or(m, arch, Field::SsmInnerSize, 0)
        &&& self.ssm_group_count == u32_or(m, arch, Field::SsmGroupCount, 0)
        &&& self.full_attention_interval == u32_or(m, arch, Field::FullAttentionInterval, 1)
    }

    /// Reads the sizes of a model from its metadata.
    pub fn try_from(c: &ContentMetadata<'_>) -> (r: Result<Self, MetadataError>)
        requires
            !is_headless(*c.metadata, c.path_prefix@),
        ensures
            is_outcome(*c.metadata, c.path_prefix@, r),
    {
        match verify_qwen3_arch(c.metadata) {
            Ok(_) => {},
            Err(e) => {
                return Err(e);
            },
        }
        if !c.has_required_keys() {
            return Err(MetadataError::MissingKeys);
        }
        let embed_len = match c.need_u32(Field::EmbeddingLength) {
            Ok(x) => x,
            Err(e) => {
                return Err(e);
            },
        };
        let head_count = match c.need_u32(Field::HeadCount) {
            Ok(x) => x,
            Err(e) => {
                return Err(e);
            },
        };
        let ssm_inner_size = c.get_u32_or(Field::SsmInnerSize, 0);
        let ssm_state_size = c.get_u32_or(Field::SsmStateSize, 0);
        let ssm_conv_kernel = c.get_u32_or(Field::SsmConvKernel, 0);
        let ssm_time_step_rank = c.get_u32_or(Field::SsmTimeStepRank, 0);
        let ssm_group_count = c.get_u32_or(Field::SsmGroupCount, 0);
        let full_attention_interval = c.get_u32_or(Field::FullAttentionInterval, 1);
        let moe_intermediate_size = match c.need_u32(Field::ExpertFeedForwardLength) {
            Ok(x) => x,
            Err(e) => {
                return Err(e);
            },
        };
        let num_experts = match c.need_u32(Field::ExpertCount) {
            Ok(x) => x,
            Err(e) => {
                return Err(e);
            },
        };
        let num_experts_per_tok = match c.need_u32(Field::ExpertUsedCount) {
            Ok(x) => x,
            Err(e) => {
                return Err(e);
            },
        };
        let moe_cfg = QwenMoEConfig {
            moe_intermediate_size,
            num_experts: Some(num_experts),
            mlp_only_layers: Some(Vec::new()),
            decoder_sparse_step: Some(1),
            norm_topk_prob: true,
            num_experts_per_tok,
            ssm_inner_size: if_above(ssm_inner_size, 0),
            ssm_state_size: if_above(ssm_state_size, 0),
            ssm_conv_kernel: if_above(ssm_conv_kernel, 0),
            ssm_time_step_rank: if_above(ssm_time_step_rank, 0),
            ssm_group_count: if_above(ssm_group_count, 0),
            full_attention_interval: if_above(full_attention_interval, 1),
        };
        let head_count_kv = match c.need_u32(Field::HeadCountKv) {
            Ok(x) => x,
            Err(e) => {
                return Err(e);
            },
        };
        let block_count = match c.need_u32(Field::BlockCount) {
            Ok(x) => x,
            Err(e) => {
                return Err(e);
            },
        };
        let rms_norm_eps = match c.value(Field::RmsEpsilon) {
            Some(v) => match v.to_float() {
                Some(bits) => bits,
                None => {
                    return Err(MetadataError::BadField(Field::RmsEpsilon));
                },
            },
            None => {
                return Err(MetadataError::BadField(Field::RmsEpsilon));
            },
        };
        let context: u64 = match c.value(Field::ContextLength) {
            Some(v) => match v.to_u64() {
                Some(x) => x,
                None => DEFAULT_MAX_SEQ_LEN,
            },
            None => DEFAULT_MAX_SEQ_LEN,
        };
        let rope_freq_base: u32 = match c.value(Field::RopeFreqBase) {
            Some(v) => match v.to_float() {
                Some(bits) => bits,
                None => DEFAULT_ROPE_BASE,
            },
            None => DEFAULT_ROPE_BASE,
        };
        let even: usize = embed_len / head_count;
        Ok(
            PropsGGUF {
                head_count,
                head_count_kv,
                block_count,
                embedding_length: embed_len,
                rms_norm_eps,
                max_seq_len: context as usize,
                rope_freq_base,
                key_length: c.get_u32_or(Field::KeyLength, even),
                value_length: c.get_u32_or(Field::ValueLength, even),
                moe_cfg,
                ssm_state_size,
                ssm_time_step_rank,
                ssm_inner_size,
                ssm_group_count,
                full_attention_interval,
            },
        )
    }
}

} // verus!
