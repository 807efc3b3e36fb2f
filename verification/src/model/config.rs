//! Model configuration: the shape of a model, checked.
//!
//! Floats are kept as the bits of 32-bit floats.

use crate::error::{ErrorView, FlipError};
use crate::text::{
    ascii_lower, concat3, debug_text, decimal, decimal_text, quoted, same_text, signed_decimal,
    signed_decimal_text, to_ascii_lower,
};
use vstd::prelude::*;

verus! {

/// The precision of the weights on disk.
#[derive(Debug, Clone, Copy, PartialEq, Eq, Structural)]
pub enum QuantScheme {
    /// 32-bit weights: four bytes each.
    F32,
    /// 16-bit weights: two bytes each.
    Fp16,
    /// 8-bit weights: one byte each.
    Int8,
    /// 4-bit weights: half a byte each.
    Int4,
}

impl QuantScheme {
    /// The bytes that one weight takes, as a fraction: numerator and denominator.
    pub fn bytes_per_param(self) -> (r: (u32, u32))
        ensures
            r == (match self {
                QuantScheme::F32 => (4u32, 1u32),
                QuantScheme::Fp16 => (2u32, 1u32),
                QuantScheme::Int8 => (1u32, 1u32),
                QuantScheme::Int4 => (1u32, 2u32),
            }),
    {
        match self {
            QuantScheme::F32 => (4, 1),
            QuantScheme::Fp16 => (2, 1),
            QuantScheme::Int8 => (1, 1),
            QuantScheme::Int4 => (1, 2),
        }
    }
}

/// 10000, as the bits of a 32-bit float.
pub const DEFAULT_ROPE_THETA: u32 = 0x461C_4000;

/// 0.00001, as the bits of a 32-bit float.
pub const DEFAULT_RMS_EPS: u32 = 0x3727_C5AC;

/// 1, as the bits of a 32-bit float.
pub const ONE: u32 = 0x3F80_0000;

/// 4, as the bits of a 32-bit float.
pub const FOUR: u32 = 0x4080_0000;

/// The context that a model had before its rope was scaled, where it does not say.
pub const DEFAULT_ORIGINAL_CONTEXT: u32 = 8192;

/// The tokens that end a sequence, as a configuration writes them: one, or a list.
#[derive(Debug)]
pub enum EosField {
    One(u32),
    Many(Vec<u32>),
}

/// The tokens that end a sequence.
pub open spec fn eos_ids(field: Option<EosField>) -> Seq<u32> {
    match field {
        Some(EosField::One(id)) => seq![id],
        Some(EosField::Many(ids)) => ids@,
        None => seq![],
    }
}

fn eos_list(field: Option<EosField>) -> (r: Vec<u32>)
    ensures
        r@ == eos_ids(field),
{
    match field {
        Some(EosField::One(id)) => vec![id],
        Some(EosField::Many(ids)) => ids,
        None => Vec::new(),
    }
}

/// What a checkpoint says of its quantization.
#[derive(Debug)]
pub struct QuantizationConfig {
    pub quant_method: Option<String>,
    pub bits: Option<u32>,
    pub group_size: Option<i64>,
    /// Whether the rows are permuted.
    pub desc_act: Option<bool>,
    pub checkpoint_format: Option<String>,
}

/// A packed-quantized checkpoint that can be decoded.
#[derive(Debug, Clone, Copy, PartialEq, Eq, Structural)]
pub struct PackedQuant {
    /// The weights per quantization group.
    pub group_size: usize,
}

/// The text of an optional string in lower case, empty where there is none.
pub open spec fn lower_or_empty(s: Option<String>) -> Seq<char> {
    match s {
        Some(t) => ascii_lower(t@),
        None => seq![],
    }
}

fn lower_or_empty_text(s: &Option<String>) -> (r: String)
    ensures
        r@ == lower_or_empty(*s),
{
    match s {
        Some(t) => to_ascii_lower(t.as_str()),
        None => String::new(),
    }
}

/// Which quantized checkpoints can be decoded: none where no method is named (the weights are
/// floats), and 4-bit GPTQ in the classic format, with rows in order and in groups. All else is
/// refused, by name.
pub open spec fn quant_outcome(q: QuantizationConfig) -> Result<Option<PackedQuant>, ErrorView> {
    let method = lower_or_empty(q.quant_method);
    let group_size = match q.group_size {
        Some(n) => n,
        None => -1i64,
    };
    if method.len() == 0 {
        Ok(None)
    } else if q.bits matches Some(bits) && bits != 4 {
        Err(
            ErrorView::UnsupportedQuant(
                decimal(q.bits->Some_0 as nat) + "-bit "@ + method
                    + " checkpoint; dlm decodes 4-bit only.                  Use an fp16/bf16 or 4-bit GPTQ (desc_act=false) checkpoint."@,
            ),
        )
    } else if method == "gptq"@ {
        if q.desc_act == Some(true) {
            Err(
                ErrorView::UnsupportedQuant(
                    "GPTQ checkpoint uses desc_act (act-order): its rows are permuted by                      g_idx and dlm does not un-permute them. Use a desc_act=false GPTQ                      export, or an fp16/bf16 checkpoint."@,
                ),
            )
        } else if q.checkpoint_format is Some && lower_or_empty(q.checkpoint_format) != "gptq"@ {
            Err(
                ErrorView::UnsupportedQuant(
                    "GPTQ checkpoint_format "@ + quoted(lower_or_empty(q.checkpoint_format))
                        + " is not supported; dlm decodes the                          classic `gptq` format, whose zero-point convention it has been                          validated against."@,
                ),
            )
        } else if group_size <= 0 {
            Err(
                ErrorView::UnsupportedQuant(
                    "GPTQ checkpoint declares group_size "@ + signed_decimal(group_size as int)
                        + "; dlm needs a positive                      per-group size (act-order/whole-row grouping is not supported)."@,
                ),
            )
        } else {
            Ok(Some(PackedQuant { group_size: group_size as usize }))
        }
    } else if method == "awq"@ {
        Err(
            ErrorView::UnsupportedQuant(
                "AWQ packs its nibbles in a permuted order dlm does not unpack, and no real AWQ              fixture has been validated against. Use a 4-bit GPTQ (desc_act=false) or              fp16/bf16 checkpoint."@,
            ),
        )
    } else {
        Err(
            ErrorView::UnsupportedQuant(
                "unrecognized quant_method "@ + quoted(method)
                    + "; dlm loads fp16/bf16 and 4-bit GPTQ              (desc_act=false) checkpoints."@,
            ),
        )
    }
}

/// Decides whether a quantized checkpoint can be decoded, and how.
pub fn check_quant_supported(q: &QuantizationConfig) -> (r: Result<Option<PackedQuant>, FlipError>)
    ensures
        match quant_outcome(*q) {
            Ok(packed) => r matches Ok(p) && p == packed,
            Err(e) => r matches Err(f) && f@ == e,
        },
        r matches Ok(Some(p)) ==> {
            &&& q.quant_method matches Some(m) && ascii_lower(m@) == "gptq"@
            &&& q.bits is None || q.bits == Some(4u32)
            &&& q.desc_act != Some(true)
            &&& q.checkpoint_format matches Some(f) ==> ascii_lower(f@) == "gptq"@
            &&& q.group_size matches Some(n) && n > 0 && p.group_size == n as usize
        },
{
    let method = lower_or_empty_text(&q.quant_method);
    if method.as_str().is_empty() {
        return Ok(None);
    }
    if let Some(bits) = q.bits {
        if bits != 4 {
            let number = decimal_text(bits as u64);
            let mut message = concat3(number.as_str(), "-bit ", method.as_str());
            message.append(
                " checkpoint; dlm decodes 4-bit only.                  Use an fp16/bf16 or 4-bit GPTQ (desc_act=false) checkpoint.",
            );
            return Err(FlipError::UnsupportedQuant(message));
        }
    }
    if same_text(method.as_str(), "gptq") {
        if let Some(true) = q.desc_act {
            return Err(
                FlipError::UnsupportedQuant(
                    "GPTQ checkpoint uses desc_act (act-order): its rows are permuted by                      g_idx and dlm does not un-permute them. Use a desc_act=false GPTQ                      export, or an fp16/bf16 checkpoint.".to_string(),
                ),
            );
        }
        let format = lower_or_empty_text(&q.checkpoint_format);
        if q.checkpoint_format.is_some() && !same_text(format.as_str(), "gptq") {
            let quoted_format = debug_text(format.as_str());
            return Err(
                FlipError::UnsupportedQuant(
                    concat3(
                        "GPTQ checkpoint_format ",
                        quoted_format.as_str(),
                        " is not supported; dlm decodes the                          classic `gptq` format, whose zero-point convention it has been                          validated against.",
                    ),
                ),
            );
        }
        let group_size: i64 = match q.group_size {
            Some(n) => n,
            None => -1,
        };
        if group_size <= 0 {
            let number = signed_decimal_text(group_size);
            return Err(
                FlipError::UnsupportedQuant(
                    concat3(
                        "GPTQ checkpoint declares group_size ",
                        number.as_str(),
                        "; dlm needs a positive                      per-group size (act-order/whole-row grouping is not supported).",
                    ),
                ),
            );
        }
        Ok(Some(PackedQuant { group_size: group_size as usize }))
    } else if same_text(method.as_str(), "awq") {
        Err(
            FlipError::UnsupportedQuant(
                "AWQ packs its nibbles in a permuted order dlm does not unpack, and no real AWQ              fixture has been validated against. Use a 4-bit GPTQ (desc_act=false) or              fp16/bf16 checkpoint.".to_string(),
            ),
        )
    } else {
        let quoted_method = debug_text(method.as_str());
        Err(
            FlipError::UnsupportedQuant(
                concat3(
                    "unrecognized quant_method ",
                    quoted_method.as_str(),
                    "; dlm loads fp16/bf16 and 4-bit GPTQ              (desc_act=false) checkpoints.",
                ),
            ),
        )
    }
}

/// How rotary positions are scaled. The factors are the bits of 32-bit floats.
#[derive(Debug, Clone, Copy, PartialEq, Eq, Structural)]
pub enum RopeScaling {
    Linear { factor: u32 },
    Llama3 {
        factor: u32,
        low_freq_factor: u32,
        high_freq_factor: u32,
        /// A number of positions.
        original_max_position: u32,
    },
}

/// What a configuration says of its rope scaling.
#[derive(Debug)]
pub struct RawRopeScaling {
    pub rope_type: Option<String>,
    pub factor: Option<u32>,
    pub low_freq_factor: Option<u32>,
    pub high_freq_factor: Option<u32>,
    pub original_max_position_embeddings: Option<u32>,
}

/// The value of an option, or what stands for it.
pub open spec fn value_or(x: Option<u32>, other: u32) -> u32 {
    match x {
        Some(v) => v,
        None => other,
    }
}

/// Which rope scalings there are: none, linear and that of Llama 3. Another one is refused, as a
/// model that was trained with it says nothing sensible without it.
pub open spec fn rope_outcome(r: RawRopeScaling) -> Result<Option<RopeScaling>, ErrorView> {
    let kind = lower_or_empty(r.rope_type);
    let factor = value_or(r.factor, ONE);
    if kind == ""@ || kind == "default"@ {
        Ok(None)
    } else if kind == "linear"@ {
        Ok(Some(RopeScaling::Linear { factor }))
    } else if kind == "llama3"@ {
        Ok(
            Some(
                RopeScaling::Llama3 {
                    factor,
                    low_freq_factor: value_or(r.low_freq_factor, ONE),
                    high_freq_factor: value_or(r.high_freq_factor, FOUR),
                    original_max_position: value_or(
                        r.original_max_position_embeddings,
                        DEFAULT_ORIGINAL_CONTEXT,
                    ),
                },
            ),
        )
    } else {
        Err(
            ErrorView::InvalidConfig(
                "rope_scaling type "@ + quoted(kind)
                    + " is not implemented; dlm supports \"linear\" and \"llama3\". Running this model without its trained RoPE scaling would produce incoherent output, so it is refused rather than silently mis-run."@,
            ),
        )
    }
}

fn value_or_else(x: Option<u32>, other: u32) -> (r: u32)
    ensures
        r == value_or(x, other),
{
    match x {
        Some(v) => v,
        None => other,
    }
}

/// Reads a rope scaling.
pub fn parse_rope_scaling(r: &RawRopeScaling) -> (out: Result<Option<RopeScaling>, FlipError>)
    ensures
        match rope_outcome(*r) {
            Ok(scaling) => out matches Ok(s) && s == scaling,
            Err(e) => out matches Err(f) && f@ == e,
        },
{
    let kind = lower_or_empty_text(&r.rope_type);
    let factor = value_or_else(r.factor, ONE);
    if same_text(kind.as_str(), "") || same_text(kind.as_str(), "default") {
        Ok(None)
    } else if same_text(kind.as_str(), "linear") {
        Ok(Some(RopeScaling::Linear { factor }))
    } else if same_text(kind.as_str(), "llama3") {
        Ok(
            Some(
                RopeScaling::Llama3 {
                    factor,
                    low_freq_factor: value_or_else(r.low_freq_factor, ONE),
                    high_freq_factor: value_or_else(r.high_freq_factor, FOUR),
                    original_max_position: value_or_else(
                        r.original_max_position_embeddings,
                        DEFAULT_ORIGINAL_CONTEXT,
                    ),
                },
            ),
        )
    } else {
        let quoted_kind = debug_text(kind.as_str());
        Err(
            FlipError::InvalidConfig(
                concat3(
                    "rope_scaling type ",
                    quoted_kind.as_str(),
                    " is not implemented; dlm supports \"linear\" and \"llama3\". Running this model without its trained RoPE scaling would produce incoherent output, so it is refused rather than silently mis-run.",
                ),
            ),
        )
    }
}

/// A configuration as it is written.
#[derive(Debug)]
pub struct RawConfig {
    pub hidden_size: u32,
    pub num_attention_heads: u32,
    pub num_key_value_heads: Option<u32>,
    pub num_hidden_layers: u32,
    pub vocab_size: u32,
    pub intermediate_size: Option<u32>,
    pub max_position_embeddings: Option<u32>,
    /// The bits of a 32-bit float.
    pub rope_theta: Option<u32>,
    /// The bits of a 32-bit float.
    pub rms_norm_eps: Option<u32>,
    pub head_dim: Option<u32>,
    pub rope_scaling: Option<RawRopeScaling>,
    pub eos_token_id: Option<EosField>,
    pub quantization_config: Option<QuantizationConfig>,
}

/// A `generation_config.json` as it is written.
#[derive(Debug)]
pub struct GenConfig {
    pub eos_token_id: Option<EosField>,
}

/// The shape of a model.
#[derive(Debug, Clone)]
pub struct ModelConfig {
    /// The width of the residual stream.
    pub hidden_size: u32,
    /// The number of query heads.
    pub num_attention_heads: u32,
    /// The number of key and value heads, smaller than that of the query heads where these share
    /// them.
    pub num_kv_heads: u32,
    /// The number of transformer blocks.
    pub num_layers: u32,
    pub vocab_size: u32,
    /// The inner width of the feed-forward part.
    pub intermediate_size: u32,
    /// The model's own longest context, where it says.
    pub max_position_embeddings: Option<u32>,
    /// The tokens that end a sequence.
    pub eos_token_ids: Vec<u32>,
    /// The base frequency of rotary positions: the bits of a 32-bit float.
    pub rope_theta: u32,
    /// The bits of a 32-bit float.
    pub rms_eps: u32,
    pub rope_scaling: Option<RopeScaling>,
    /// The width of a head, where the configuration states it.
    pub explicit_head_dim: Option<u32>,
    pub quant: QuantScheme,
    /// Set where the checkpoint is packed-quantized.
    pub packed_quant: Option<PackedQuant>,
}

/// What a quantization block gives, where there is one.
pub open spec fn packed_of(q: Option<QuantizationConfig>) -> Result<
    Option<PackedQuant>,
    ErrorView,
> {
    match q {
        Some(q) => quant_outcome(q),
        None => Ok(None),
    }
}

/// What a rope scaling block gives, where there is one.
pub open spec fn scaling_of(r: Option<RawRopeScaling>) -> Result<Option<RopeScaling>, ErrorView> {
    match r {
        Some(r) => rope_outcome(r),
        None => Ok(None),
    }
}

/// Four times the hidden size, or the greatest number where that does not fit.
pub open spec fn default_intermediate(hidden_size: u32) -> u32 {
    if 4 * hidden_size > u32::MAX {
        u32::MAX
    } else {
        (4 * hidden_size) as u32
    }
}

/// The width of a head: the one that is stated, else the hidden size shared out over the heads.
pub open spec fn head_width(hidden_size: u32, heads: u32, stated: Option<u32>) -> u32 {
    match stated {
        Some(d) => d,
        None => hidden_size / heads,
    }
}

/// Why a shape cannot be used, where it cannot.
pub open spec fn shape_fault(
    hidden_size: u32,
    heads: u32,
    layers: u32,
    stated: Option<u32>,
) -> Option<ErrorView> {
    if heads == 0 {
        Some(ErrorView::InvalidConfig("num_attention_heads must be > 0"@))
    } else if layers == 0 {
        Some(ErrorView::InvalidConfig("num_hidden_layers must be > 0"@))
    } else if hidden_size == 0 {
        Some(ErrorView::InvalidConfig("hidden_size must be > 0"@))
    } else if stated is None && hidden_size % heads != 0 {
        Some(
            ErrorView::InvalidConfig(
                "hidden_size ("@ + decimal(hidden_size as nat)
                    + ") is not divisible by num_attention_heads ("@ + decimal(heads as nat) + ")"@,
            ),
        )
    } else if head_width(hidden_size, heads, stated) == 0 {
        Some(ErrorView::InvalidConfig("head_dim must be > 0"@))
    } else if head_width(hidden_size, heads, stated) % 2 != 0 {
        Some(
            ErrorView::InvalidConfig(
                "head_dim ("@ + decimal(head_width(hidden_size, heads, stated) as nat)
                    + ") must be even (RoPE rotates dimension pairs)"@,
            ),
        )
    } else {
        None
    }
}

/// Why a configuration cannot be used, where it cannot: first its quantization, then its rope
/// scaling, then its shape.
pub open spec fn config_fault(raw: RawConfig) -> Option<ErrorView> {
    match packed_of(raw.quantization_config) {
        Err(e) => Some(e),
        Ok(_) => match scaling_of(raw.rope_scaling) {
            Err(e) => Some(e),
            Ok(_) => shape_fault(
                raw.hidden_size,
                raw.num_attention_heads,
                raw.num_hidden_layers,
                raw.head_dim,
            ),
        },
    }
}

/// `ids` with those of `extra` behind them that are not there yet, in order.
pub open spec fn with_ids(ids: Seq<u32>, extra: Seq<u32>) -> Seq<u32>
    decreases extra.len(),
{
    if extra.len() == 0 {
        ids
    } else {
        let before = with_ids(ids, extra.drop_last());
        if before.contains(extra.last()) {
            before
        } else {
            before.push(extra.last())
        }
    }
}

/// Merging keeps what was there in front, adds what is new, and nothing else.
pub proof fn merging_is_a_union(ids: Seq<u32>, extra: Seq<u32>)
    ensures
        ids.len() <= with_ids(ids, extra).len(),
        with_ids(ids, extra).take(ids.len() as int) == ids,
        forall|id: u32| #[trigger]
            with_ids(ids, extra).contains(id) <==> ids.contains(id) || extra.contains(id),
    decreases extra.len(),
{
    if extra.len() == 0 {
        assert(ids.take(ids.len() as int) == ids);
    } else {
        let init = extra.drop_last();
        let before = with_ids(ids, init);
        let last = extra.last();
        merging_is_a_union(ids, init);
        let all = with_ids(ids, extra);
        assert(all.take(ids.len() as int) == before.take(ids.len() as int));
        assert forall|id: u32| #[trigger] all.contains(id) <==> ids.contains(id) || extra.contains(
            id,
        ) by {
            assert(extra == init.push(last));
            if init.contains(id) {
                let k = choose|k: int| 0 <= k < init.len() && init[k] == id;
                assert(extra[k] == id);
            }
            assert(extra[extra.len() - 1] == last);
            if extra.contains(id) && id != last {
                let k = choose|k: int| 0 <= k < extra.len() && extra[k] == id;
                assert(init[k] == id);
            }
            if before.contains(id) {
                let k = choose|k: int| 0 <= k < before.len() && before[k] == id;
                assert(all[k] == id);
            }
            if !before.contains(last) {
                assert(all[before.len() as int] == last);
            }
            if all.contains(id) && !before.contains(id) {
                assert(id == last);
            }
        }
    }
}

/// Merging the same again changes nothing.
pub proof fn merging_again_changes_nothing(ids: Seq<u32>, extra: Seq<u32>)
    ensures
        with_ids(with_ids(ids, extra), extra) == with_ids(ids, extra),
{
    let all = with_ids(ids, extra);
    merging_is_a_union(ids, extra);
    assert forall|k: int| 0 <= k < extra.len() implies all.contains(#[trigger] extra[k]) by {
        assert(extra.contains(extra[k]));
    }
    lemma_nothing_new(all, extra);
}

proof fn lemma_nothing_new(ids: Seq<u32>, extra: Seq<u32>)
    requires
        forall|k: int| 0 <= k < extra.len() ==> ids.contains(#[trigger] extra[k]),
    ensures
        with_ids(ids, extra) == ids,
    decreases extra.len(),
{
    if extra.len() > 0 {
        assert forall|k: int| 0 <= k < extra.len() - 1 implies ids.contains(
            #[trigger] extra.drop_last()[k],
        ) by {
            assert(ids.contains(extra[k]));
        }
        lemma_nothing_new(ids, extra.drop_last());
        assert(ids.contains(extra[extra.len() - 1]));
    }
}

/// A usable shape has heads, layers and a width; the width of its heads is even and not zero and,
/// where it is not stated, shares out the hidden size.
pub proof fn usable_shapes(hidden_size: u32, heads: u32, layers: u32, stated: Option<u32>)
    requires
        shape_fault(hidden_size, heads, layers, stated) is None,
    ensures
        heads > 0,
        layers > 0,
        hidden_size > 0,
        head_width(hidden_size, heads, stated) > 0,
        head_width(hidden_size, heads, stated) % 2 == 0,
        stated is None ==> heads * head_width(hidden_size, heads, stated) == hidden_size,
{
    vstd::arithmetic::div_mod::lemma_fundamental_div_mod(hidden_size as int, heads as int);
}

fn holds(ids: &Vec<u32>, id: u32) -> (r: bool)
    ensures
        r == ids@.contains(id),
{
    let mut i: usize = 0;
    while i < ids.len()
        invariant
            i <= ids@.len(),
            forall|j: int| 0 <= j < i ==> ids@[j] != id,
        decreases ids@.len() - i,
    {
        if ids[i] == id {
            assert(ids@[i as int] == id);
            return true;
        }
        i += 1;
    }
    false
}

fn invalid(message: &str) -> (r: FlipError)
    ensures
        r@ == ErrorView::InvalidConfig(message@),
{
    FlipError::InvalidConfig(message.to_string())
}

impl ModelConfig {
    /// Whether the shape can be used.
    pub open spec fn is_valid(self) -> bool {
        shape_fault(
            self.hidden_size,
            self.num_attention_heads,
            self.num_layers,
            self.explicit_head_dim,
        ) is None
    }

    /// The width of a head.
    pub open spec fn head_dim_spec(self) -> u32 {
        head_width(self.hidden_size, self.num_attention_heads, self.explicit_head_dim)
    }

    /// Merges a `generation_config.json` that was read: the tokens that end a sequence are those
    /// of either.
    pub fn merge_generation_config(
        &mut self,
        parsed: Result<GenConfig, serde_json::Error>,
    ) -> (r: Result<(), FlipError>)
        ensures
            match parsed {
                Ok(gen) => {
                    &&& r is Ok
                    &&& final(self).eos_token_ids@ == with_ids(
                        old(self).eos_token_ids@,
                        eos_ids(gen.eos_token_id),
                    )
                    &&& *final(self) == (ModelConfig {
                        eos_token_ids: final(self).eos_token_ids,
                        ..*old(self)
                    })
                },
                Err(e) => {
                    &&& r matches Err(FlipError::Json { context, source }) && context@
                        == "generation_config.json"@ && source == e
                    &&& *final(self) == *old(self)
                },
            },
    {
        let gen = match parsed {
            Ok(gen) => gen,
            Err(source) => {
                return Err(
                    FlipError::Json { context: "generation_config.json".to_string(), source },
                );
            },
        };
        let ghost start = self.eos_token_ids@;
        let extra = eos_list(gen.eos_token_id);
        let mut i: usize = 0;
        assert(extra@.take(0) == Seq::<u32>::empty());
        while i < extra.len()
            invariant
                i <= extra@.len(),
                start == old(self).eos_token_ids@,
                self.eos_token_ids@ == with_ids(start, extra@.take(i as int)),
                *self == (ModelConfig { eos_token_ids: self.eos_token_ids, ..*old(self) }),
            decreases extra@.len() - i,
        {
            assert(extra@.take(i + 1).drop_last() == extra@.take(i as int));
            let id = extra[i];
            if !holds(&self.eos_token_ids, id) {
                self.eos_token_ids.push(id);
            }
            i += 1;
        }
        assert(extra@.take(extra@.len() as int) == extra@);
        Ok(())
    }

    /// Checks a configuration that was read from a `config.json`, and fills in what it omits:
    /// as many key and value heads as query heads, an inner width of four times the hidden size,
    /// and the usual constants.
    pub fn from_json_bytes(
        parsed: Result<RawConfig, serde_json::Error>,
        quant: QuantScheme,
    ) -> (r: Result<ModelConfig, FlipError>)
        ensures
            match parsed {
                Err(e) => r matches Err(FlipError::Json { context, source }) && context@
                    == "config.json"@ && source == e,
                Ok(raw) => match config_fault(raw) {
                    Some(e) => r matches Err(f) && f@ == e,
                    None => r matches Ok(config) && {
                        &&& config.hidden_size == raw.hidden_size
                        &&& config.num_attention_heads == raw.num_attention_heads
                        &&& config.num_kv_heads == value_or(
                            raw.num_key_value_heads,
                            raw.num_attention_heads,
                        )
                        &&& config.num_layers == raw.num_hidden_layers
                        &&& config.vocab_size == raw.vocab_size
                        &&& config.intermediate_size == value_or(
                            raw.intermediate_size,
                            default_intermediate(raw.hidden_size),
                        )
                        &&& config.max_position_embeddings == raw.max_position_embeddings
                        &&& config.eos_token_ids@ == eos_ids(raw.eos_token_id)
                        &&& config.rope_theta == value_or(raw.rope_theta, DEFAULT_ROPE_THETA)
                        &&& config.rms_eps == value_or(raw.rms_norm_eps, DEFAULT_RMS_EPS)
                        &&& config.rope_scaling == scaling_of(raw.rope_scaling)->Ok_0
                        &&& config.explicit_head_dim == raw.head_dim
                        &&& config.quant == quant
                        &&& config.packed_quant == packed_of(raw.quantization_config)->Ok_0
                        &&& config.is_valid()
                    },
                },
            },
            parsed matches Ok(raw) ==> (r matches Ok(config) ==> {
                &&& config.num_kv_heads == (match raw.num_key_value_heads {
                    Some(n) => n,
                    None => raw.num_attention_heads,
                })
                &&& config.intermediate_size == (match raw.intermediate_size {
                    Some(n) => n,
                    None => if 4 * raw.hidden_size <= u32::MAX {
                        (4 * raw.hidden_size) as u32
                    } else {
                        u32::MAX
                    },
                })
                &&& config.rope_theta == (match raw.rope_theta {
                    Some(x) => x,
                    None => 0x461C_4000u32,
                })
                &&& config.rms_eps == (match raw.rms_norm_eps {
                    Some(x) => x,
                    None => 0x3727_C5ACu32,
                })
                &&& config.eos_token_ids@ == (match raw.eos_token_id {
                    Some(EosField::One(id)) => seq![id],
                    Some(EosField::Many(ids)) => ids@,
                    None => seq![],
                })
                &&& raw.rope_scaling is None ==> config.rope_scaling is None
                &&& raw.quantization_config is None ==> config.packed_quant is None
            }),
    {
        let raw = match parsed {
            Ok(raw) => raw,
            Err(source) => {
                return Err(FlipError::Json { context: "config.json".to_string(), source });
            },
        };
        let packed_quant = match &raw.quantization_config {
            Some(q) => match check_quant_supported(q) {
                Ok(packed) => packed,
                Err(e) => {
                    return Err(e);
                },
            },
            None => None,
        };
        let rope_scaling = match &raw.rope_scaling {
            Some(r) => match parse_rope_scaling(r) {
                Ok(scaling) => scaling,
                Err(e) => {
                    return Err(e);
                },
            },
            None => None,
        };
        let config = ModelConfig {
            hidden_size: raw.hidden_size,
            num_attention_heads: raw.num_attention_heads,
            num_kv_heads: value_or_else(raw.num_key_value_heads, raw.num_attention_heads),
            num_layers: raw.num_hidden_layers,
            vocab_size: raw.vocab_size,
            intermediate_size: value_or_else(
                raw.intermediate_size,
                match raw.hidden_size.checked_mul(4) {
                    Some(n) => n,
                    None => u32::MAX,
                },
            ),
            max_position_embeddings: raw.max_position_embeddings,
            eos_token_ids: eos_list(raw.eos_token_id),
            rope_theta: value_or_else(raw.rope_theta, DEFAULT_ROPE_THETA),
            rms_eps: value_or_else(raw.rms_norm_eps, DEFAULT_RMS_EPS),
            rope_scaling,
            explicit_head_dim: raw.head_dim,
            quant,
            packed_quant,
        };
        match config.validate() {
            Ok(()) => Ok(config),
            Err(e) => Err(e),
        }
    }

    /// Checks that the shape can be used.
    pub fn validate(&self) -> (r: Result<(), FlipError>)
        ensures
            match shape_fault(
                self.hidden_size,
                self.num_attention_heads,
                self.num_layers,
                self.explicit_head_dim,
            ) {
                None => r is Ok,
                Some(e) => r matches Err(f) && f@ == e,
            },
    {
        if self.num_attention_heads == 0 {
            return Err(invalid("num_attention_heads must be > 0"));
        }
        if self.num_layers == 0 {
            return Err(invalid("num_hidden_layers must be > 0"));
        }
        if self.hidden_size == 0 {
            return Err(invalid("hidden_size must be > 0"));
        }
        if self.explicit_head_dim.is_none() && self.hidden_size % self.num_attention_heads != 0 {
            let hidden = decimal_text(self.hidden_size as u64);
            let heads = decimal_text(self.num_attention_heads as u64);
            let mut message = concat3(
                "hidden_size (",
                hidden.as_str(),
                ") is not divisible by num_attention_heads (",
            );
            message.append(heads.as_str());
            message.append(")");
            return Err(FlipError::InvalidConfig(message));
        }
        if self.head_dim() == 0 {
            return Err(invalid("head_dim must be > 0"));
        }
        if self.head_dim() % 2 != 0 {
            let width = decimal_text(self.head_dim() as u64);
            return Err(
                FlipError::InvalidConfig(
                    concat3(
                        "head_dim (",
                        width.as_str(),
                        ") must be even (RoPE rotates dimension pairs)",
                    ),
                ),
            );
        }
        Ok(())
    }

    /// The width of a head: the one that the configuration states, else the hidden size shared
    /// out over the heads.
    pub fn head_dim(&self) -> (r: u32)
        requires
            self.explicit_head_dim is Some || self.num_attention_heads > 0,
        ensures
            r == self.head_dim_spec(),
            r == (match self.explicit_head_dim {
                Some(d) => d,
                None => self.hidden_size / self.num_attention_heads,
            }),
    {
        match self.explicit_head_dim {
            Some(d) => d,
            None => self.hidden_size / self.num_attention_heads,
        }
    }

    /// What [`estimated_total_params`](Self::estimated_total_params) counts, given the number of
    /// parameters of one layer's attention.
    pub open spec fn param_count(self, attention: u64) -> nat {
        let h = self.hidden_size as nat;
        (attention as nat + 3 * h * self.intermediate_size as nat) * self.num_layers as nat + 2
            * self.vocab_size as nat * h
    }

    /// A rough count of the model's parameters: those of the attention and of the feed-forward
    /// part of every layer, of the embedding and of the head. `attention` is the count for one
    /// layer's attention.
    pub fn estimated_total_params(&self, attention: u64) -> (r: u64)
        requires
            attention + 3 * self.hidden_size * self.intermediate_size <= u64::MAX,
            self.param_count(attention) <= u64::MAX,
        ensures
            r == self.param_count(attention),
    {
        let h = self.hidden_size as u64;
        let inter = self.intermediate_size as u64;
        let layers = self.num_layers as u64;
        let vocab = self.vocab_size as u64;
        proof {
            let per = (attention + 3 * h * inter) as int;
            let l = layers as int;
            assert(0 <= 3 * h * inter && (3 * h <= 3 * h * inter || inter == 0)) by (nonlinear_arith)
                requires
                    h >= 0,
                    inter >= 0,
            ;
            assert(0 <= per * l) by (nonlinear_arith)
                requires
                    per >= 0,
                    l >= 0,
            ;
            assert(0 <= 2 * vocab * h) by (nonlinear_arith)
                requires
                    h >= 0,
                    vocab >= 0,
            ;
        }
        let ffn = 3 * h * inter;
        let per_layer = attention + ffn;
        let blocks = per_layer * layers;
        let embed_and_head = 2 * vocab * h;
        blocks + embed_and_head
    }
}

} // verus!
