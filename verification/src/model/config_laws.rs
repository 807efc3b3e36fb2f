//! What is read out of a configuration, and what is refused.

use crate::error::ErrorView;
use crate::model::config::{
    config_fault, default_intermediate, eos_ids, head_width, lower_or_empty, packed_of,
    quant_outcome, rope_outcome, scaling_of, shape_fault, value_or, with_ids, EosField,
    ModelConfig, PackedQuant, QuantizationConfig, RawConfig, RawRopeScaling, RopeScaling,
};
use crate::text::{ascii_lower, decimal, quoted, signed_decimal};
use vstd::prelude::*;

verus! {

/// A packed layout is given for 4-bit GPTQ checkpoints in the classic format whose rows are in
/// order and in groups, and for no others; it has the size of the groups. What is left out counts
/// as 4 bits, as rows in order and as the classic format, but a group size must be there. The
/// names are read without regard to case.
pub proof fn packed_layout_is_classic_gptq(q: QuantizationConfig, group_size: usize)
    ensures
        quant_outcome(q) == Ok::<Option<PackedQuant>, ErrorView>(Some(PackedQuant { group_size }))
            <==> {
            &&& q.quant_method matches Some(method) && ascii_lower(method@) == "gptq"@
            &&& q.bits is None || q.bits == Some(4u32)
            &&& q.desc_act != Some(true)
            &&& q.checkpoint_format matches Some(format) ==> ascii_lower(format@) == "gptq"@
            &&& q.group_size matches Some(n) && n > 0 && group_size == n as usize
        },
{
    reveal_strlit("gptq");
    reveal_strlit("awq");
}

/// A checkpoint is taken for one of plain floats just where it names no method.
pub proof fn no_method_means_floats(q: QuantizationConfig)
    ensures
        quant_outcome(q) == Ok::<Option<PackedQuant>, ErrorView>(None) <==> match q.quant_method {
            None => true,
            Some(method) => method@.len() == 0,
        },
{
    if q.quant_method is Some {
        assert(ascii_lower(q.quant_method->Some_0@).len() == q.quant_method->Some_0@.len());
    }
}

/// Why a checkpoint that names a method is refused: it is not of four bits; or, for GPTQ, its rows
/// are permuted, its format is another one, or it has no groups; or its method is another one.
/// What comes first is reported.
pub proof fn refused_checkpoints_are_told_why(q: QuantizationConfig, method: Seq<char>)
    requires
        q.quant_method matches Some(m) && ascii_lower(m@) == method,
        method.len() > 0,
    ensures
        (q.bits matches Some(bits) && bits != 4) ==> quant_outcome(q) == Err::<
            Option<PackedQuant>,
            ErrorView,
        >(
            ErrorView::UnsupportedQuant(
                decimal(q.bits->Some_0 as nat) + "-bit "@ + method
                    + " checkpoint; dlm decodes 4-bit only.                  Use an fp16/bf16 or 4-bit GPTQ (desc_act=false) checkpoint."@,
            ),
        ),
        (q.bits is None || q.bits == Some(4u32)) ==> {
            &&& method == "gptq"@ && q.desc_act == Some(true) ==> quant_outcome(q) == Err::<
                Option<PackedQuant>,
                ErrorView,
            >(
                ErrorView::UnsupportedQuant(
                    "GPTQ checkpoint uses desc_act (act-order): its rows are permuted by                      g_idx and dlm does not un-permute them. Use a desc_act=false GPTQ                      export, or an fp16/bf16 checkpoint."@,
                ),
            )
            &&& method == "gptq"@ && q.desc_act != Some(true) ==> {
                &&& (q.checkpoint_format matches Some(format) && ascii_lower(format@) != "gptq"@)
                    ==> quant_outcome(q) == Err::<Option<PackedQuant>, ErrorView>(
                    ErrorView::UnsupportedQuant(
                        "GPTQ checkpoint_format "@ + quoted(
                            ascii_lower(q.checkpoint_format->Some_0@),
                        )
                            + " is not supported; dlm decodes the                          classic `gptq` format, whose zero-point convention it has been                          validated against."@,
                    ),
                )
                &&& (q.checkpoint_format matches Some(format) ==> ascii_lower(format@)
                    == "gptq"@) ==> {
                    &&& q.group_size is None ==> quant_outcome(q) == Err::<
                        Option<PackedQuant>,
                        ErrorView,
                    >(
                        ErrorView::UnsupportedQuant(
                            "GPTQ checkpoint declares group_size "@ + signed_decimal(-1)
                                + "; dlm needs a positive                      per-group size (act-order/whole-row grouping is not supported)."@,
                        ),
                    )
                    &&& (q.group_size matches Some(n) && n <= 0) ==> quant_outcome(q) == Err::<
                        Option<PackedQuant>,
                        ErrorView,
                    >(
                        ErrorView::UnsupportedQuant(
                            "GPTQ checkpoint declares group_size "@ + signed_decimal(
                                q.group_size->Some_0 as int,
                            )
                                + "; dlm needs a positive                      per-group size (act-order/whole-row grouping is not supported)."@,
                        ),
                    )
                }
            }
            &&& method == "awq"@ ==> quant_outcome(q) == Err::<Option<PackedQuant>, ErrorView>(
                ErrorView::UnsupportedQuant(
                    "AWQ packs its nibbles in a permuted order dlm does not unpack, and no real AWQ              fixture has been validated against. Use a 4-bit GPTQ (desc_act=false) or              fp16/bf16 checkpoint."@,
                ),
            )
            &&& method != "gptq"@ && method != "awq"@ ==> quant_outcome(q) == Err::<
                Option<PackedQuant>,
                ErrorView,
            >(
                ErrorView::UnsupportedQuant(
                    "unrecognized quant_method "@ + quoted(method)
                        + "; dlm loads fp16/bf16 and 4-bit GPTQ              (desc_act=false) checkpoints."@,
                ),
            )
        },
{
    reveal_strlit("gptq");
    reveal_strlit("awq");
}

/// Rope scalings are read by their names, without regard to case. None, an empty one and "default"
/// are no scaling; of the two that there are, factors that are left out have their usual values.
/// Any other name is refused.
pub proof fn rope_scalings_are_read_by_name(r: RawRopeScaling, kind: Seq<char>)
    requires
        match r.rope_type {
            Some(t) => ascii_lower(t@) == kind,
            None => kind.len() == 0,
        },
    ensures
        kind.len() == 0 || kind == "default"@ ==> rope_outcome(r) == Ok::<
            Option<RopeScaling>,
            ErrorView,
        >(None),
        kind == "linear"@ ==> (rope_outcome(r) matches Ok(Some(RopeScaling::Linear { factor }))
            && factor == (match r.factor {
            Some(f) => f,
            None => 0x3F80_0000u32,
        })),
        kind == "llama3"@ ==> (rope_outcome(r) matches Ok(
            Some(
                RopeScaling::Llama3 {
                    factor,
                    low_freq_factor,
                    high_freq_factor,
                    original_max_position,
                },
            ),
        ) && {
            &&& factor == (match r.factor {
                Some(f) => f,
                None => 0x3F80_0000u32,
            })
            &&& low_freq_factor == (match r.low_freq_factor {
                Some(f) => f,
                None => 0x3F80_0000u32,
            })
            &&& high_freq_factor == (match r.high_freq_factor {
                Some(f) => f,
                None => 0x4080_0000u32,
            })
            &&& original_max_position == (match r.original_max_position_embeddings {
                Some(n) => n,
                None => 8192u32,
            })
        }),
        kind.len() > 0 && kind != "default"@ && kind != "linear"@ && kind != "llama3"@
            ==> rope_outcome(r) == Err::<Option<RopeScaling>, ErrorView>(
            ErrorView::InvalidConfig(
                "rope_scaling type "@ + quoted(kind)
                    + " is not implemented; dlm supports \"linear\" and \"llama3\". Running this model without its trained RoPE scaling would produce incoherent output, so it is refused rather than silently mis-run."@,
            ),
        ),
{
    reveal_strlit("");
    reveal_strlit("default");
    reveal_strlit("linear");
    reveal_strlit("llama3");
    if kind.len() == 0 {
        assert(kind =~= ""@);
        if r.rope_type is None {
            assert(lower_or_empty(r.rope_type) =~= ""@);
        }
    }
    assert(lower_or_empty(r.rope_type) =~= kind);
    assert("linear"@[1] != "llama3"@[1]);
}

/// A shape is usable just where it has heads, layers and a width, and the width of its heads is
/// even and not zero; where that width is not stated, the heads must share out the hidden size.
pub proof fn usable_shapes_are_these(
    hidden_size: u32,
    heads: u32,
    layers: u32,
    stated: Option<u32>,
)
    ensures
        shape_fault(hidden_size, heads, layers, stated) is None <==> {
            &&& heads > 0
            &&& layers > 0
            &&& hidden_size > 0
            &&& match stated {
                Some(d) => d > 0 && d % 2 == 0,
                None => hidden_size % heads == 0 && (hidden_size / heads) % 2 == 0,
            }
        },
{
    if heads > 0 && hidden_size > 0 && hidden_size % heads == 0 {
        vstd::arithmetic::div_mod::lemma_fundamental_div_mod(hidden_size as int, heads as int);
        if hidden_size / heads == 0 {
            assert(heads as int * 0 == 0);
        }
    }
}

/// What is wrong with a shape is told in this order: the heads, the layers, the hidden size, its
/// being shared out, and the width of a head.
pub proof fn unusable_shapes_are_told_why(
    hidden_size: u32,
    heads: u32,
    layers: u32,
    stated: Option<u32>,
)
    ensures
        ({
            let fault = shape_fault(hidden_size, heads, layers, stated);
            &&& heads == 0 ==> fault == Some(
                ErrorView::InvalidConfig("num_attention_heads must be > 0"@),
            )
            &&& heads > 0 && layers == 0 ==> fault == Some(
                ErrorView::InvalidConfig("num_hidden_layers must be > 0"@),
            )
            &&& heads > 0 && layers > 0 && hidden_size == 0 ==> fault == Some(
                ErrorView::InvalidConfig("hidden_size must be > 0"@),
            )
            &&& heads > 0 && layers > 0 && hidden_size > 0 ==> {
                &&& stated is None && hidden_size % heads != 0 ==> fault == Some(
                    ErrorView::InvalidConfig(
                        "hidden_size ("@ + decimal(hidden_size as nat)
                            + ") is not divisible by num_attention_heads ("@ + decimal(
                            heads as nat,
                        ) + ")"@,
                    ),
                )
                &&& stated == Some(0u32) ==> fault == Some(
                    ErrorView::InvalidConfig("head_dim must be > 0"@),
                )
                &&& (stated matches Some(d) && d % 2 != 0) ==> fault == Some(
                    ErrorView::InvalidConfig(
                        "head_dim ("@ + decimal(stated->Some_0 as nat)
                            + ") must be even (RoPE rotates dimension pairs)"@,
                    ),
                )
                &&& stated is None && hidden_size % heads == 0 && (hidden_size / heads) % 2 != 0
                    ==> fault == Some(
                    ErrorView::InvalidConfig(
                        "head_dim ("@ + decimal((hidden_size / heads) as nat)
                            + ") must be even (RoPE rotates dimension pairs)"@,
                    ),
                )
            }
        }),
{
}

/// What is wrong with a configuration is told in this order: its quantization, its rope scaling,
/// its shape. Without a quantization or a rope scaling there is nothing wrong with that.
pub proof fn configurations_are_checked_in_order(raw: RawConfig)
    ensures
        ({
            let quant = match raw.quantization_config {
                Some(q) => quant_outcome(q),
                None => Ok(None),
            };
            let rope = match raw.rope_scaling {
                Some(r) => rope_outcome(r),
                None => Ok(None),
            };
            &&& quant matches Err(e) ==> config_fault(raw) == Some(e)
            &&& quant is Ok ==> (rope matches Err(e) ==> config_fault(raw) == Some(e))
            &&& quant is Ok && rope is Ok ==> config_fault(raw) == shape_fault(
                raw.hidden_size,
                raw.num_attention_heads,
                raw.num_hidden_layers,
                raw.head_dim,
            )
            &&& packed_of(raw.quantization_config) == quant
            &&& scaling_of(raw.rope_scaling) == rope
        }),
{
}

/// What stands for what a configuration leaves out: for the inner width four times the hidden
/// size, as far as that fits; for a value its default; for the width of a head the hidden size
/// shared out over the heads; for the end tokens none.
pub proof fn omissions_are_filled_in(hidden_size: u32, heads: u32, x: Option<u32>, other: u32)
    ensures
        4 * hidden_size <= u32::MAX ==> default_intermediate(hidden_size) == 4 * hidden_size,
        4 * hidden_size > u32::MAX ==> default_intermediate(hidden_size) == u32::MAX,
        value_or(x, other) == (match x {
            Some(v) => v,
            None => other,
        }),
        head_width(hidden_size, heads, x) == (match x {
            Some(d) => d,
            None => hidden_size / heads,
        }),
        eos_ids(None) == Seq::<u32>::empty(),
        forall|id: u32| #[trigger] eos_ids(Some(EosField::One(id))) == seq![id],
        forall|ids: Vec<u32>| #[trigger] eos_ids(Some(EosField::Many(ids))) == ids@,
{
}

/// Ids are merged in one after the other: each is put behind the others unless it is there
/// already.
pub proof fn ids_are_merged_one_by_one(ids: Seq<u32>, a: Seq<u32>, b: Seq<u32>)
    ensures
        with_ids(ids, seq![]) == ids,
        forall|id: u32| #[trigger]
            with_ids(ids, seq![id]) == (if ids.contains(id) {
                ids
            } else {
                ids.push(id)
            }),
        with_ids(ids, a + b) == with_ids(with_ids(ids, a), b),
    decreases b.len(),
{
    reveal_with_fuel(with_ids, 2);
    assert forall|id: u32| #[trigger]
        with_ids(ids, seq![id]) == (if ids.contains(id) {
            ids
        } else {
            ids.push(id)
        }) by {
        assert(seq![id].drop_last() == Seq::<u32>::empty());
        assert(seq![id].last() == id);
    }
    if b.len() == 0 {
        assert(a + b == a);
    } else {
        assert((a + b).drop_last() == a + b.drop_last());
        assert((a + b).last() == b.last());
        ids_are_merged_one_by_one(ids, a, b.drop_last());
    }
}

impl ModelConfig {
    /// The count of parameters grows with the layers by what one layer has, and with the
    /// vocabulary by two rows of the hidden size.
    pub proof fn parameters_add_up(self, attention: u64)
        ensures
            self.param_count(attention) == self.num_layers as nat * attention as nat
                + self.num_layers as nat * (3 * (self.hidden_size as nat
                * self.intermediate_size as nat)) + 2 * (self.vocab_size as nat
                * self.hidden_size as nat),
    {
        let h = self.hidden_size as int;
        let i = self.intermediate_size as int;
        let l = self.num_layers as int;
        let v = self.vocab_size as int;
        let a = attention as int;
        assert((a + 3 * h * i) * l + 2 * v * h == l * a + l * (3 * (h * i)) + 2 * (v * h))
            by (nonlinear_arith);
    }
}

} // verus!
