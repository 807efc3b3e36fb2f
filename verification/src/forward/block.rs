//! The shape of a transformer block, its weights and its key/value history.
//!
//! Weights and activations are the bits of 32-bit floats.

use crate::error::{ErrorView, FlipError};
use crate::text::{debug_text, decimal, decimal_text, quoted};
use vstd::prelude::*;

verus! {

/// The shape of a transformer block. `rope_theta` and `rms_eps` are the bits of 32-bit floats.
#[derive(Debug, Clone, Copy)]
pub struct BlockConfig {
    pub hidden_size: usize,
    pub num_heads: usize,
    pub num_kv_heads: usize,
    pub head_dim: usize,
    pub intermediate_size: usize,
    pub rope_theta: u32,
    pub rms_eps: u32,
}

/// The weights of a transformer block.
#[derive(Debug)]
pub struct LayerTensors {
    pub q_proj: Vec<u32>,
    pub k_proj: Vec<u32>,
    pub v_proj: Vec<u32>,
    pub o_proj: Vec<u32>,
    pub gate_proj: Vec<u32>,
    pub up_proj: Vec<u32>,
    pub down_proj: Vec<u32>,
    pub input_layernorm: Vec<u32>,
    pub post_attention_layernorm: Vec<u32>,
}

/// The keys and values that a block has seen, `kv_dim` of each per position.
#[derive(Debug)]
pub struct KvLayerCache {
    pub kv_dim: usize,
    pub keys: Vec<u32>,
    pub values: Vec<u32>,
}

/// What a history holds.
pub struct KvHistory {
    pub kv_dim: nat,
    pub keys: Seq<u32>,
    pub values: Seq<u32>,
}

impl View for KvLayerCache {
    type V = KvHistory;

    open spec fn view(&self) -> KvHistory {
        KvHistory { kv_dim: self.kv_dim as nat, keys: self.keys@, values: self.values@ }
    }
}

/// What a history holds is its width, its keys and its values.
pub proof fn histories_hold_keys_and_values(cache: KvLayerCache)
    ensures
        cache@.kv_dim == cache.kv_dim,
        cache@.keys == cache.keys@,
        cache@.values == cache.values@,
{
}

impl KvLayerCache {
    /// Whether the history is empty, with this width.
    pub open spec fn is_fresh(self, kv_dim: nat) -> bool {
        &&& self.kv_dim == kv_dim
        &&& self.keys@.len() == 0
        &&& self.values@.len() == 0
    }

    /// An empty history.
    pub fn new(kv_dim: usize) -> (r: Self)
        ensures
            r.is_fresh(kv_dim as nat),
    {
        KvLayerCache { kv_dim, keys: Vec::new(), values: Vec::new() }
    }
}

/// What a tensor must have, and has: its name, the number of elements it should have, and its
/// elements.
pub struct SizedTensor {
    pub name: Seq<char>,
    pub want: nat,
    pub values: Seq<u32>,
}

/// The message for a tensor with the wrong number of elements.
pub open spec fn wrong_size(name: Seq<char>, want: nat, got: nat) -> Seq<char> {
    "tensor "@ + quoted(name) + ": expected "@ + decimal(want) + " elements, got "@ + decimal(got)
}

/// The error for the first tensor of a list with the wrong number of elements.
pub open spec fn size_fault(tensors: Seq<SizedTensor>) -> Option<ErrorView>
    decreases tensors.len(),
{
    if tensors.len() == 0 {
        None
    } else {
        match size_fault(tensors.drop_last()) {
            Some(e) => Some(e),
            None => {
                let t = tensors.last();
                if t.values.len() == t.want {
                    None
                } else {
                    Some(ErrorView::InvalidConfig(wrong_size(t.name, t.want, t.values.len())))
                }
            },
        }
    }
}

/// The first tensor of a list with the wrong number of elements is reported, with its name and
/// the two numbers.
pub proof fn first_wrong_size_is_reported(tensors: Seq<SizedTensor>)
    ensures
        match size_fault(tensors) {
            None => forall|k: int|
                0 <= k < tensors.len() ==> (#[trigger] tensors[k]).values.len() == tensors[k].want,
            Some(e) => exists|k: int|
                {
                    &&& 0 <= k < tensors.len()
                    &&& (#[trigger] tensors[k]).values.len() != tensors[k].want
                    &&& e == ErrorView::InvalidConfig(
                        "tensor "@ + quoted(tensors[k].name) + ": expected "@ + decimal(
                            tensors[k].want,
                        ) + " elements, got "@ + decimal(tensors[k].values.len()),
                    )
                    &&& forall|j: int|
                        0 <= j < k ==> (#[trigger] tensors[j]).values.len() == tensors[j].want
                },
        },
    decreases tensors.len(),
{
    if tensors.len() > 0 {
        let init = tensors.drop_last();
        let last = tensors.len() - 1;
        first_wrong_size_is_reported(init);
        assert(tensors[last] == tensors.last());
        assert forall|k: int| 0 <= k < init.len() implies #[trigger] init[k] == tensors[k] by {}
        match size_fault(init) {
            None => {
                assert forall|j: int| 0 <= j < last implies (#[trigger] tensors[j]).values.len()
                    == tensors[j].want by {
                    assert(init[j] == tensors[j]);
                }
            },
            Some(e) => {
                let k = choose|k: int|
                    {
                        &&& 0 <= k < init.len()
                        &&& (#[trigger] init[k]).values.len() != init[k].want
                        &&& e == ErrorView::InvalidConfig(
                            "tensor "@ + quoted(init[k].name) + ": expected "@ + decimal(
                                init[k].want,
                            ) + " elements, got "@ + decimal(init[k].values.len()),
                        )
                        &&& forall|j: int|
                            0 <= j < k ==> (#[trigger] init[j]).values.len() == init[j].want
                    };
                assert(tensors[k] == init[k]);
                assert forall|j: int| 0 <= j < k implies (#[trigger] tensors[j]).values.len()
                    == tensors[j].want by {
                    assert(init[j] == tensors[j]);
                }
            },
        }
    }
}

/// Checks the number of elements of a tensor.
pub fn check_len(name: &str, got: usize, want: usize) -> (r: Result<(), FlipError>)
    ensures
        got == want ==> r is Ok,
        got != want ==> (r matches Err(e) && e@ == ErrorView::InvalidConfig(
            wrong_size(name@, want as nat, got as nat),
        )),
        r matches Err(e) ==> e@ == ErrorView::InvalidConfig(
            "tensor "@ + quoted(name@) + ": expected "@ + decimal(want as nat) + " elements, got "@
                + decimal(got as nat),
        ),
{
    if got == want {
        return Ok(());
    }
    let mut message = "tensor ".to_string();
    let quoted_name = debug_text(name);
    message.append(quoted_name.as_str());
    message.append(": expected ");
    let want_text = decimal_text(want as u64);
    message.append(want_text.as_str());
    message.append(" elements, got ");
    let got_text = decimal_text(got as u64);
    message.append(got_text.as_str());
    Err(FlipError::InvalidConfig(message))
}

impl BlockConfig {
    /// The width of the queries.
    pub open spec fn q_width(self) -> nat {
        self.num_heads as nat * self.head_dim as nat
    }

    /// The width of the keys and of the values.
    pub open spec fn kv_width(self) -> nat {
        self.num_kv_heads as nat * self.head_dim as nat
    }

    /// Whether the sizes of the weights can be computed with.
    pub open spec fn sizes_fit(self) -> bool {
        &&& self.q_width() <= usize::MAX
        &&& self.kv_width() <= usize::MAX
        &&& self.q_width() * self.hidden_size as nat <= usize::MAX
        &&& self.kv_width() * self.hidden_size as nat <= usize::MAX
        &&& self.intermediate_size as nat * self.hidden_size as nat <= usize::MAX
    }

    /// Tests whether the sizes of the weights can be computed with.
    pub fn check_sizes(&self) -> (r: bool)
        ensures
            r == self.sizes_fit(),
            r <==> {
                &&& self.num_heads * self.head_dim <= usize::MAX
                &&& self.num_kv_heads * self.head_dim <= usize::MAX
                &&& self.num_heads * self.head_dim * self.hidden_size <= usize::MAX
                &&& self.num_kv_heads * self.head_dim * self.hidden_size <= usize::MAX
                &&& self.intermediate_size * self.hidden_size <= usize::MAX
            },
    {
        let q = self.num_heads.checked_mul(self.head_dim);
        let kv = self.num_kv_heads.checked_mul(self.head_dim);
        let ffn = self.intermediate_size.checked_mul(self.hidden_size);
        match (q, kv, ffn) {
            (Some(q), Some(kv), Some(_)) => {
                q.checked_mul(self.hidden_size).is_some() && kv.checked_mul(
                    self.hidden_size,
                ).is_some()
            },
            _ => false,
        }
    }

    /// The width of the queries.
    pub fn q_dim(&self) -> (r: usize)
        requires
            self.q_width() <= usize::MAX,
        ensures
            r == self.q_width(),
            r == self.num_heads * self.head_dim,
    {
        self.num_heads * self.head_dim
    }

    /// The width of the keys and of the values.
    pub fn kv_dim(&self) -> (r: usize)
        requires
            self.kv_width() <= usize::MAX,
        ensures
            r == self.kv_width(),
            r == self.num_kv_heads * self.head_dim,
    {
        self.num_kv_heads * self.head_dim
    }
}

impl LayerTensors {
    /// The tensors of the block with the sizes they should have.
    pub open spec fn sized(self, cfg: BlockConfig) -> Seq<SizedTensor> {
        let h = cfg.hidden_size as nat;
        let q = cfg.q_width() * h;
        let kv = cfg.kv_width() * h;
        let ffn = cfg.intermediate_size as nat * h;
        seq![
            SizedTensor { name: "q_proj"@, want: q, values: self.q_proj@ },
            SizedTensor { name: "k_proj"@, want: kv, values: self.k_proj@ },
            SizedTensor { name: "v_proj"@, want: kv, values: self.v_proj@ },
            SizedTensor { name: "o_proj"@, want: q, values: self.o_proj@ },
            SizedTensor { name: "gate_proj"@, want: ffn, values: self.gate_proj@ },
            SizedTensor { name: "up_proj"@, want: ffn, values: self.up_proj@ },
            SizedTensor { name: "down_proj"@, want: ffn, values: self.down_proj@ },
            SizedTensor { name: "input_layernorm"@, want: h, values: self.input_layernorm@ },
            SizedTensor {
                name: "post_attention_layernorm"@,
                want: h,
                values: self.post_attention_layernorm@,
            },
        ]
    }

    /// The tensors of a block are of the right size just where each is: the query and the output
    /// projections hold one weight per query dimension and hidden dimension, those of keys and
    /// values one per key dimension and hidden dimension, the three of the feed-forward part one
    /// per inner dimension and hidden dimension, and the norms one per hidden dimension.
    pub proof fn sizes_follow_from_shape(self, cfg: BlockConfig)
        ensures
            size_fault(self.sized(cfg)) is None <==> {
                let h = cfg.hidden_size as nat;
                let q = cfg.num_heads as nat * cfg.head_dim as nat * h;
                let kv = cfg.num_kv_heads as nat * cfg.head_dim as nat * h;
                let inner = cfg.intermediate_size as nat * h;
                &&& self.q_proj@.len() == q
                &&& self.k_proj@.len() == kv
                &&& self.v_proj@.len() == kv
                &&& self.o_proj@.len() == q
                &&& self.gate_proj@.len() == inner
                &&& self.up_proj@.len() == inner
                &&& self.down_proj@.len() == inner
                &&& self.input_layernorm@.len() == h
                &&& self.post_attention_layernorm@.len() == h
            },
            ({
                let names = seq![
                    "q_proj"@,
                    "k_proj"@,
                    "v_proj"@,
                    "o_proj"@,
                    "gate_proj"@,
                    "up_proj"@,
                    "down_proj"@,
                    "input_layernorm"@,
                    "post_attention_layernorm"@,
                ];
                &&& self.sized(cfg).len() == names.len()
                &&& forall|k: int|
                    0 <= k < names.len() ==> (#[trigger] self.sized(cfg)[k]).name == names[k]
            }),
    {
        let all = self.sized(cfg);
        first_wrong_size_is_reported(all);
        if size_fault(all) is None {
            assert(all[0].values.len() == all[0].want && all[1].values.len() == all[1].want
                && all[2].values.len() == all[2].want && all[3].values.len() == all[3].want
                && all[4].values.len() == all[4].want && all[5].values.len() == all[5].want
                && all[6].values.len() == all[6].want && all[7].values.len() == all[7].want
                && all[8].values.len() == all[8].want);
        }
    }

    /// Checks that every tensor has the size that the shape of the block asks for.
    pub fn validate(&self, cfg: &BlockConfig) -> (r: Result<(), FlipError>)
        requires
            cfg.sizes_fit(),
        ensures
            match size_fault(self.sized(*cfg)) {
                None => r is Ok,
                Some(e) => r matches Err(f) && f@ == e,
            },
    {
        let ghost all = self.sized(*cfg);
        proof {
            reveal_with_fuel(size_fault, 10);
            assert forall|i: int| 0 <= i < 9 implies #[trigger] all.take(i + 1).drop_last()
                == all.take(i) by {}
            assert(all.take(9) == all);
            assert(all.take(0) == Seq::<SizedTensor>::empty());
        }
        let h = cfg.hidden_size;
        let q = cfg.q_dim() * h;
        let kv = cfg.kv_dim() * h;
        let ffn = cfg.intermediate_size * h;
        check_len("q_proj", self.q_proj.len(), q)?;
        check_len("k_proj", self.k_proj.len(), kv)?;
        check_len("v_proj", self.v_proj.len(), kv)?;
        check_len("o_proj", self.o_proj.len(), q)?;
        check_len("gate_proj", self.gate_proj.len(), ffn)?;
        check_len("up_proj", self.up_proj.len(), ffn)?;
        check_len("down_proj", self.down_proj.len(), ffn)?;
        check_len("input_layernorm", self.input_layernorm.len(), h)?;
        check_len("post_attention_layernorm", self.post_attention_layernorm.len(), h)
    }
}

} // verus!
