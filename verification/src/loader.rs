//! Assembling a runnable model from the tensors of a checkpoint.
//!
//! Tensors are the bits of 32-bit floats, whatever precision they are stored in.

use crate::cache::KvCacheConfig;
use crate::error::{ErrorView, FlipError};
use crate::forward::block::{
    check_len, size_fault, wrong_size, BlockConfig, LayerTensors, SizedTensor,
};
use crate::model::config::ModelConfig;
use crate::text::{concat3, decimal, decimal_text, quoted};
use vstd::hash_map::StringHashMap;
use vstd::prelude::*;

verus! {

/// A tensor of a checkpoint: its elements, or why it could not be read.
pub enum StoredTensor {
    Values(Vec<u32>),
    Unreadable(String),
}

/// What a tensor of a checkpoint is.
pub enum StoredView {
    Values(Seq<u32>),
    Unreadable(Seq<char>),
}

impl View for StoredTensor {
    type V = StoredView;

    open spec fn view(&self) -> StoredView {
        match self {
            StoredTensor::Values(v) => StoredView::Values(v@),
            StoredTensor::Unreadable(text) => StoredView::Unreadable(text@),
        }
    }
}

/// The tensors of a checkpoint, by name.
pub struct TensorStore {
    tensors: StringHashMap<StoredTensor>,
}

impl View for TensorStore {
    type V = Map<Seq<char>, StoredView>;

    closed spec fn view(&self) -> Map<Seq<char>, StoredView> {
        Map::new(
            |name: Seq<char>| self.tensors@.contains_key(name),
            |name: Seq<char>| self.tensors@[name]@,
        )
    }
}

impl TensorStore {
    /// A store without tensors.
    pub fn new() -> (r: Self)
        ensures
            r@ == Map::<Seq<char>, StoredView>::empty(),
    {
        let r = TensorStore { tensors: StringHashMap::new() };
        assert(r@ =~= Map::<Seq<char>, StoredView>::empty());
        r
    }

    /// Adds a tensor, in place of one of the same name.
    pub fn insert(&mut self, name: String, tensor: StoredTensor)
        ensures
            final(self)@ == old(self)@.insert(name@, tensor@),
    {
        let ghost key = name@;
        let ghost value = tensor@;
        let ghost before = self@;
        self.tensors.insert(name, tensor);
        assert(self@ =~= before.insert(key, value));
    }

    /// Finds a tensor.
    pub fn locate(&self, name: &str) -> (r: Option<&StoredTensor>)
        ensures
            match r {
                Some(t) => self@.contains_key(name@) && t@ == self@[name@],
                None => !self@.contains_key(name@),
            },
    {
        self.tensors.get(name)
    }
}

/// The elements of the tensor of this name, which should be `want`.
pub open spec fn tensor_of(
    store: Map<Seq<char>, StoredView>,
    name: Seq<char>,
    want: nat,
) -> Result<Seq<u32>, ErrorView> {
    if !store.contains_key(name) {
        Err(ErrorView::UnknownTensor(name))
    } else {
        match store[name] {
            StoredView::Unreadable(text) => Err(ErrorView::Storage(text)),
            StoredView::Values(v) => if v.len() != want {
                Err(ErrorView::InvalidConfig(wrong_size(name, want, v.len())))
            } else {
                Ok(v)
            },
        }
    }
}

/// Reads the tensor of this name, which should have `expected_len` elements.
pub fn load_tensor(store: &TensorStore, name: &str, expected_len: usize) -> (r: Result<
    Vec<u32>,
    FlipError,
>)
    ensures
        match tensor_of(store@, name@, expected_len as nat) {
            Ok(values) => r matches Ok(v) && v@ == values,
            Err(e) => r matches Err(f) && f@ == e,
        },
        r matches Ok(v) ==> v@.len() == expected_len && store@.contains_key(name@) && store@[name@]
            == StoredView::Values(v@),
        !store@.contains_key(name@) ==> (r matches Err(f) && f@ == ErrorView::UnknownTensor(name@)),
        store@.contains_key(name@) ==> match store@[name@] {
            StoredView::Unreadable(text) => r matches Err(f) && f@ == ErrorView::Storage(text),
            StoredView::Values(v) => r is Ok <==> v.len() == expected_len,
        },
{
    match store.locate(name) {
        None => Err(FlipError::UnknownTensor(name.to_string())),
        Some(StoredTensor::Unreadable(text)) => Err(FlipError::Storage(text.clone())),
        Some(StoredTensor::Values(values)) => {
            match check_len(name, values.len(), expected_len) {
                Ok(()) => {
                    let mut copy: Vec<u32> = Vec::new();
                    copy.extend_from_slice(values.as_slice());
                    assert(copy@ == values@);
                    Ok(copy)
                },
                Err(e) => Err(e),
            }
        },
    }
}

/// The name of a layer's tensor.
pub open spec fn layer_name(i: nat, suffix: Seq<char>) -> Seq<char> {
    "model.layers."@ + decimal(i) + "."@ + suffix
}

fn layer_tensor_name(i: u32, suffix: &str) -> (r: String)
    ensures
        r@ == layer_name(i as nat, suffix@),
{
    let number = decimal_text(i as u64);
    let mut name = concat3("model.layers.", number.as_str(), ".");
    name.append(suffix);
    name
}

/// The tensors of a layer, in the order in which they are read, each with the number of elements
/// it should have.
pub open spec fn layer_plan(i: nat, cfg: BlockConfig) -> Seq<(Seq<char>, nat)> {
    let h = cfg.hidden_size as nat;
    let q = cfg.q_width() * h;
    let kv = cfg.kv_width() * h;
    let ffn = cfg.intermediate_size as nat * h;
    seq![
        (layer_name(i, "self_attn.q_proj.weight"@), q),
        (layer_name(i, "self_attn.k_proj.weight"@), kv),
        (layer_name(i, "self_attn.v_proj.weight"@), kv),
        (layer_name(i, "self_attn.o_proj.weight"@), q),
        (layer_name(i, "mlp.gate_proj.weight"@), ffn),
        (layer_name(i, "mlp.up_proj.weight"@), ffn),
        (layer_name(i, "mlp.down_proj.weight"@), ffn),
        (layer_name(i, "input_layernorm.weight"@), h),
        (layer_name(i, "post_attention_layernorm.weight"@), h),
    ]
}

/// The tensors of the first `n` layers.
pub open spec fn layers_plan(n: nat, cfg: BlockConfig) -> Seq<(Seq<char>, nat)>
    decreases n,
{
    if n == 0 {
        seq![]
    } else {
        layers_plan((n - 1) as nat, cfg) + layer_plan((n - 1) as nat, cfg)
    }
}

/// The error for the first tensor of a plan that is missing, unreadable or of the wrong size.
pub open spec fn plan_fault(
    store: Map<Seq<char>, StoredView>,
    plan: Seq<(Seq<char>, nat)>,
) -> Option<ErrorView>
    decreases plan.len(),
{
    if plan.len() == 0 {
        None
    } else {
        match plan_fault(store, plan.drop_last()) {
            Some(e) => Some(e),
            None => match tensor_of(store, plan.last().0, plan.last().1) {
                Ok(_) => None,
                Err(e) => Some(e),
            },
        }
    }
}

proof fn lemma_fault_of_sum(
    store: Map<Seq<char>, StoredView>,
    a: Seq<(Seq<char>, nat)>,
    b: Seq<(Seq<char>, nat)>,
)
    ensures
        plan_fault(store, a + b) == (match plan_fault(store, a) {
            Some(e) => Some(e),
            None => plan_fault(store, b),
        }),
    decreases b.len(),
{
    if b.len() == 0 {
        assert(a + b == a);
    } else {
        assert((a + b).drop_last() == a + b.drop_last());
        lemma_fault_of_sum(store, a, b.drop_last());
    }
}

proof fn lemma_layers_fault_stays(
    store: Map<Seq<char>, StoredView>,
    cfg: BlockConfig,
    i: nat,
    n: nat,
)
    requires
        i <= n,
        plan_fault(store, layers_plan(i, cfg)) is Some,
    ensures
        plan_fault(store, layers_plan(n, cfg)) == plan_fault(store, layers_plan(i, cfg)),
    decreases n,
{
    if i < n {
        lemma_layers_fault_stays(store, cfg, i, (n - 1) as nat);
        lemma_fault_of_sum(
            store,
            layers_plan((n - 1) as nat, cfg),
            layer_plan((n - 1) as nat, cfg),
        );
    }
}

/// The block shape of a model.
pub open spec fn block_config(config: ModelConfig) -> BlockConfig {
    BlockConfig {
        hidden_size: config.hidden_size as usize,
        num_heads: config.num_attention_heads as usize,
        num_kv_heads: config.num_kv_heads as usize,
        head_dim: config.head_dim_spec() as usize,
        intermediate_size: config.intermediate_size as usize,
        rope_theta: config.rope_theta,
        rms_eps: config.rms_eps,
    }
}

/// The tensors that are read for a model: those of the layers, the embedding, the final norm,
/// and the head where the checkpoint has one.
pub open spec fn model_plan(
    store: Map<Seq<char>, StoredView>,
    config: ModelConfig,
) -> Seq<(Seq<char>, nat)> {
    let h = config.hidden_size as nat;
    let v = config.vocab_size as nat;
    layers_plan(config.num_layers as nat, block_config(config)) + seq![
        ("model.embed_tokens.weight"@, v * h),
        ("model.norm.weight"@, h),
    ] + (if store.contains_key("lm_head.weight"@) {
        seq![("lm_head.weight"@, v * h)]
    } else {
        seq![]
    })
}

/// Whether `values` are the elements of the tensor of this name.
pub open spec fn read_from(
    store: Map<Seq<char>, StoredView>,
    name: Seq<char>,
    values: Seq<u32>,
) -> bool {
    store.contains_key(name) && store[name] == StoredView::Values(values)
}

/// Whether `t` are the tensors of layer `i`.
pub open spec fn layer_read_from(
    store: Map<Seq<char>, StoredView>,
    i: nat,
    t: LayerTensors,
) -> bool {
    &&& read_from(store, layer_name(i, "self_attn.q_proj.weight"@), t.q_proj@)
    &&& read_from(store, layer_name(i, "self_attn.k_proj.weight"@), t.k_proj@)
    &&& read_from(store, layer_name(i, "self_attn.v_proj.weight"@), t.v_proj@)
    &&& read_from(store, layer_name(i, "self_attn.o_proj.weight"@), t.o_proj@)
    &&& read_from(store, layer_name(i, "mlp.gate_proj.weight"@), t.gate_proj@)
    &&& read_from(store, layer_name(i, "mlp.up_proj.weight"@), t.up_proj@)
    &&& read_from(store, layer_name(i, "mlp.down_proj.weight"@), t.down_proj@)
    &&& read_from(store, layer_name(i, "input_layernorm.weight"@), t.input_layernorm@)
    &&& read_from(
        store,
        layer_name(i, "post_attention_layernorm.weight"@),
        t.post_attention_layernorm@,
    )
}

/// What a stored tensor is, is what it holds.
pub proof fn stored_tensors_are_what_they_hold(values: Vec<u32>, text: String)
    ensures
        StoredTensor::Values(values)@ == StoredView::Values(values@),
        StoredTensor::Unreadable(text)@ == StoredView::Unreadable(text@),
{
}

/// To be read from a name is to be what the checkpoint has under that name.
pub proof fn reading_is_by_name(
    store: Map<Seq<char>, StoredView>,
    name: Seq<char>,
    values: Seq<u32>,
)
    ensures
        read_from(store, name, values) <==> store.contains_key(name) && store[name]
            == StoredView::Values(values),
{
}

/// Each tensor of a layer is the one that the checkpoint has under that tensor's own name.
pub proof fn layer_fields_are_read_by_name(
    store: Map<Seq<char>, StoredView>,
    i: nat,
    t: LayerTensors,
)
    requires
        layer_read_from(store, i, t),
    ensures
        store.contains_key("model.layers."@ + decimal(i) + "."@ + "self_attn.q_proj.weight"@),
        store["model.layers."@ + decimal(i) + "."@ + "self_attn.q_proj.weight"@] == StoredView::Values(t.q_proj@),
        store.contains_key("model.layers."@ + decimal(i) + "."@ + "self_attn.k_proj.weight"@),
        store["model.layers."@ + decimal(i) + "."@ + "self_attn.k_proj.weight"@] == StoredView::Values(t.k_proj@),
        store.contains_key("model.layers."@ + decimal(i) + "."@ + "self_attn.v_proj.weight"@),
        store["model.layers."@ + decimal(i) + "."@ + "self_attn.v_proj.weight"@] == StoredView::Values(t.v_proj@),
        store.contains_key("model.layers."@ + decimal(i) + "."@ + "self_attn.o_proj.weight"@),
        store["model.layers."@ + decimal(i) + "."@ + "self_attn.o_proj.weight"@] == StoredView::Values(t.o_proj@),
        store.contains_key("model.layers."@ + decimal(i) + "."@ + "mlp.gate_proj.weight"@),
        store["model.layers."@ + decimal(i) + "."@ + "mlp.gate_proj.weight"@] == StoredView::Values(t.gate_proj@),
        store.contains_key("model.layers."@ + decimal(i) + "."@ + "mlp.up_proj.weight"@),
        store["model.layers."@ + decimal(i) + "."@ + "mlp.up_proj.weight"@] == StoredView::Values(t.up_proj@),
        store.contains_key("model.layers."@ + decimal(i) + "."@ + "mlp.down_proj.weight"@),
        store["model.layers."@ + decimal(i) + "."@ + "mlp.down_proj.weight"@] == StoredView::Values(t.down_proj@),
        store.contains_key("model.layers."@ + decimal(i) + "."@ + "input_layernorm.weight"@),
        store["model.layers."@ + decimal(i) + "."@ + "input_layernorm.weight"@] == StoredView::Values(t.input_layernorm@),
        store.contains_key("model.layers."@ + decimal(i) + "."@ + "post_attention_layernorm.weight"@),
        store["model.layers."@ + decimal(i) + "."@ + "post_attention_layernorm.weight"@] == StoredView::Values(t.post_attention_layernorm@),
{
}

/// The tensors of a plan are looked at in order, and the first that is missing, unreadable or of
/// the wrong size is reported, by what is wrong with it.
pub proof fn first_fault_is_reported(
    store: Map<Seq<char>, StoredView>,
    plan: Seq<(Seq<char>, nat)>,
)
    ensures
        match plan_fault(store, plan) {
            None => forall|k: int|
                0 <= k < plan.len() ==> store.contains_key((#[trigger] plan[k]).0) && (
                store[plan[k].0] matches StoredView::Values(v) && v.len() == plan[k].1),
            Some(e) => exists|k: int|
                {
                    &&& 0 <= k < plan.len()
                    &&& forall|j: int|
                        0 <= j < k ==> store.contains_key((#[trigger] plan[j]).0) && (
                        store[plan[j].0] matches StoredView::Values(v) && v.len() == plan[j].1)
                    &&& if !store.contains_key((#[trigger] plan[k]).0) {
                        e == ErrorView::UnknownTensor(plan[k].0)
                    } else {
                        match store[plan[k].0] {
                            StoredView::Unreadable(text) => e == ErrorView::Storage(text),
                            StoredView::Values(v) => v.len() != plan[k].1 && e
                                == ErrorView::InvalidConfig(
                                "tensor "@ + quoted(plan[k].0) + ": expected "@ + decimal(
                                    plan[k].1,
                                ) + " elements, got "@ + decimal(v.len()),
                            ),
                        }
                    }
                },
        },
    decreases plan.len(),
{
    if plan.len() > 0 {
        let init = plan.drop_last();
        let last = plan.len() - 1;
        first_fault_is_reported(store, init);
        assert(plan[last] == plan.last());
        assert forall|k: int| 0 <= k < init.len() implies #[trigger] init[k] == plan[k] by {}
        match plan_fault(store, init) {
            Some(e) => {
                let k = choose|k: int|
                    {
                        &&& 0 <= k < init.len()
                        &&& forall|j: int|
                            0 <= j < k ==> store.contains_key((#[trigger] init[j]).0) && (
                            store[init[j].0] matches StoredView::Values(v) && v.len() == init[j].1)
                        &&& if !store.contains_key((#[trigger] init[k]).0) {
                            e == ErrorView::UnknownTensor(init[k].0)
                        } else {
                            match store[init[k].0] {
                                StoredView::Unreadable(text) => e == ErrorView::Storage(text),
                                StoredView::Values(v) => v.len() != init[k].1 && e
                                    == ErrorView::InvalidConfig(
                                    "tensor "@ + quoted(init[k].0) + ": expected "@ + decimal(
                                        init[k].1,
                                    ) + " elements, got "@ + decimal(v.len()),
                                ),
                            }
                        }
                    };
                assert(plan[k] == init[k]);
                assert forall|j: int| 0 <= j < k implies store.contains_key(
                    (#[trigger] plan[j]).0,
                ) && (store[plan[j].0] matches StoredView::Values(v) && v.len() == plan[j].1) by {
                    assert(init[j] == plan[j]);
                }
            },
            None => {
                assert forall|j: int| 0 <= j < last implies store.contains_key(
                    (#[trigger] plan[j]).0,
                ) && (store[plan[j].0] matches StoredView::Values(v) && v.len() == plan[j].1) by {
                    assert(init[j] == plan[j]);
                }
            },
        }
    }
}

/// A layer can be read just where the checkpoint has its nine tensors, each of the size that the
/// shape of the block asks for.
pub proof fn layer_is_complete(store: Map<Seq<char>, StoredView>, i: nat, cfg: BlockConfig)
    ensures
        plan_fault(store, layer_plan(i, cfg)) is None <==> {
            let has = |name: Seq<char>, want: nat|
                store.contains_key(name) && (store[name] matches StoredView::Values(v) && v.len()
                    == want);
            let h = cfg.hidden_size as nat;
            let q = cfg.num_heads as nat * cfg.head_dim as nat * h;
            let kv = cfg.num_kv_heads as nat * cfg.head_dim as nat * h;
            let inner = cfg.intermediate_size as nat * h;
            &&& has("model.layers."@ + decimal(i) + "."@ + "self_attn.q_proj.weight"@, q)
            &&& has("model.layers."@ + decimal(i) + "."@ + "self_attn.k_proj.weight"@, kv)
            &&& has("model.layers."@ + decimal(i) + "."@ + "self_attn.v_proj.weight"@, kv)
            &&& has("model.layers."@ + decimal(i) + "."@ + "self_attn.o_proj.weight"@, q)
            &&& has("model.layers."@ + decimal(i) + "."@ + "mlp.gate_proj.weight"@, inner)
            &&& has("model.layers."@ + decimal(i) + "."@ + "mlp.up_proj.weight"@, inner)
            &&& has("model.layers."@ + decimal(i) + "."@ + "mlp.down_proj.weight"@, inner)
            &&& has("model.layers."@ + decimal(i) + "."@ + "input_layernorm.weight"@, h)
            &&& has("model.layers."@ + decimal(i) + "."@ + "post_attention_layernorm.weight"@, h)
        },
{
    let plan = layer_plan(i, cfg);
    first_fault_is_reported(store, plan);
    if plan_fault(store, plan) is None {
        assert forall|k: int| 0 <= k < 9 implies store.contains_key((#[trigger] plan[k]).0) && (
        store[plan[k].0] matches StoredView::Values(v) && v.len() == plan[k].1) by {}
        assert(store.contains_key(plan[0].0) && store.contains_key(plan[1].0)
            && store.contains_key(plan[2].0) && store.contains_key(plan[3].0)
            && store.contains_key(plan[4].0) && store.contains_key(plan[5].0)
            && store.contains_key(plan[6].0) && store.contains_key(plan[7].0)
            && store.contains_key(plan[8].0));
    }
}

/// A model can be read just where every layer can, and the checkpoint has the embedding, the final
/// norm and, if it has a head at all, a head of the right size.
pub proof fn model_is_complete(store: Map<Seq<char>, StoredView>, config: ModelConfig)
    ensures
        plan_fault(store, model_plan(store, config)) is None <==> {
            let has = |name: Seq<char>, want: nat|
                store.contains_key(name) && (store[name] matches StoredView::Values(v) && v.len()
                    == want);
            let h = config.hidden_size as nat;
            let v = config.vocab_size as nat;
            &&& forall|i: nat|
                i < config.num_layers ==> plan_fault(
                    store,
                    #[trigger] layer_plan(i, block_config(config)),
                ) is None
            &&& has("model.embed_tokens.weight"@, v * h)
            &&& has("model.norm.weight"@, h)
            &&& store.contains_key("lm_head.weight"@) ==> has("lm_head.weight"@, v * h)
        },
{
    let h = config.hidden_size as nat;
    let v = config.vocab_size as nat;
    let layers = layers_plan(config.num_layers as nat, block_config(config));
    let middle = seq![("model.embed_tokens.weight"@, v * h), ("model.norm.weight"@, h)];
    let tail = if store.contains_key("lm_head.weight"@) {
        seq![("lm_head.weight"@, v * h)]
    } else {
        seq![]
    };
    lemma_fault_of_sum(store, layers, middle);
    lemma_fault_of_sum(store, layers + middle, tail);
    lemma_layers_complete(store, block_config(config), config.num_layers as nat);
    first_fault_is_reported(store, middle);
    first_fault_is_reported(store, tail);
    if plan_fault(store, middle) is None {
        assert(store.contains_key(middle[0].0) && store.contains_key(middle[1].0));
    }
    if tail.len() > 0 && plan_fault(store, tail) is None {
        assert(store.contains_key(tail[0].0));
    }
}

proof fn lemma_layers_complete(store: Map<Seq<char>, StoredView>, cfg: BlockConfig, n: nat)
    ensures
        plan_fault(store, layers_plan(n, cfg)) is None <==> forall|i: nat|
            i < n ==> plan_fault(store, #[trigger] layer_plan(i, cfg)) is None,
    decreases n,
{
    if n > 0 {
        let m = (n - 1) as nat;
        lemma_layers_complete(store, cfg, m);
        lemma_fault_of_sum(store, layers_plan(m, cfg), layer_plan(m, cfg));
    }
}

/// The tensors of a model are read layer by layer, then the embedding, the final norm and the
/// head; within a layer in the order of attention, feed-forward part and norms.
pub proof fn tensors_are_read_in_order(
    store: Map<Seq<char>, StoredView>,
    config: ModelConfig,
    i: nat,
    k: int,
)
    requires
        i < config.num_layers,
        0 <= k < 9,
    ensures
        ({
            let plan = model_plan(store, config);
            let n = config.num_layers as int;
            let suffixes = seq![
                "self_attn.q_proj.weight"@,
                "self_attn.k_proj.weight"@,
                "self_attn.v_proj.weight"@,
                "self_attn.o_proj.weight"@,
                "mlp.gate_proj.weight"@,
                "mlp.up_proj.weight"@,
                "mlp.down_proj.weight"@,
                "input_layernorm.weight"@,
                "post_attention_layernorm.weight"@,
            ];
            &&& plan.len() == 9 * n + 2 + if store.contains_key("lm_head.weight"@) {
                1int
            } else {
                0int
            }
            &&& plan[9 * i + k].0 == "model.layers."@ + decimal(i) + "."@ + suffixes[k]
            &&& plan[9 * n].0 == "model.embed_tokens.weight"@
            &&& plan[9 * n + 1].0 == "model.norm.weight"@
            &&& store.contains_key("lm_head.weight"@) ==> plan[9 * n + 2].0 == "lm_head.weight"@
        }),
{
    lemma_layers_plan_place(config.num_layers as nat, block_config(config), i, k);
}

proof fn lemma_layers_plan_place(n: nat, cfg: BlockConfig, i: nat, k: int)
    ensures
        layers_plan(n, cfg).len() == 9 * n,
        i < n && 0 <= k < 9 ==> layers_plan(n, cfg)[9 * i + k] == layer_plan(i, cfg)[k],
    decreases n,
{
    if n > 0 {
        lemma_layers_plan_place((n - 1) as nat, cfg, i, k);
    }
}

/// Everything that a generator over a model is made of.
pub struct LoadedModel {
    pub cfg: BlockConfig,
    pub layers: Vec<LayerTensors>,
    pub embedding: Vec<u32>,
    pub final_norm: Vec<u32>,
    pub lm_head: Vec<u32>,
    pub vocab: usize,
    /// The bits of a 32-bit float.
    pub rms_eps: u32,
    pub kv_config: KvCacheConfig,
    /// The number of blocks of the key/value cache.
    pub kv_blocks: u32,
}

fn load_named(store: &TensorStore, i: u32, suffix: &str, want: usize) -> (r: Result<
    Vec<u32>,
    FlipError,
>)
    ensures
        match tensor_of(store@, layer_name(i as nat, suffix@), want as nat) {
            Ok(values) => r matches Ok(v) && v@ == values,
            Err(e) => r matches Err(f) && f@ == e,
        },
{
    let name = layer_tensor_name(i, suffix);
    load_tensor(store, name.as_str(), want)
}

/// Reads the tensors of a layer.
fn load_layer(store: &TensorStore, i: u32, cfg: &BlockConfig) -> (r: Result<
    LayerTensors,
    FlipError,
>)
    requires
        cfg.sizes_fit(),
    ensures
        match plan_fault(store@, layer_plan(i as nat, *cfg)) {
            None => r matches Ok(t) && layer_read_from(store@, i as nat, t) && size_fault(
                t.sized(*cfg),
            ) is None && {
                &&& store@.contains_key("model.layers."@ + decimal(i as nat) + "."@ + "self_attn.q_proj.weight"@)
                &&& store@["model.layers."@ + decimal(i as nat) + "."@ + "self_attn.q_proj.weight"@] == StoredView::Values(
                    t.q_proj@,
                )
                &&& store@.contains_key("model.layers."@ + decimal(i as nat) + "."@ + "self_attn.k_proj.weight"@)
                &&& store@["model.layers."@ + decimal(i as nat) + "."@ + "self_attn.k_proj.weight"@] == StoredView::Values(
                    t.k_proj@,
                )
                &&& store@.contains_key("model.layers."@ + decimal(i as nat) + "."@ + "self_attn.v_proj.weight"@)
                &&& store@["model.layers."@ + decimal(i as nat) + "."@ + "self_attn.v_proj.weight"@] == StoredView::Values(
                    t.v_proj@,
                )
                &&& store@.contains_key("model.layers."@ + decimal(i as nat) + "."@ + "self_attn.o_proj.weight"@)
                &&& store@["model.layers."@ + decimal(i as nat) + "."@ + "self_attn.o_proj.weight"@] == StoredView::Values(
                    t.o_proj@,
                )
                &&& store@.contains_key("model.layers."@ + decimal(i as nat) + "."@ + "mlp.gate_proj.weight"@)
                &&& store@["model.layers."@ + decimal(i as nat) + "."@ + "mlp.gate_proj.weight"@] == StoredView::Values(
                    t.gate_proj@,
                )
                &&& store@.contains_key("model.layers."@ + decimal(i as nat) + "."@ + "mlp.up_proj.weight"@)
                &&& store@["model.layers."@ + decimal(i as nat) + "."@ + "mlp.up_proj.weight"@] == StoredView::Values(
                    t.up_proj@,
                )
                &&& store@.contains_key("model.layers."@ + decimal(i as nat) + "."@ + "mlp.down_proj.weight"@)
                &&& store@["model.layers."@ + decimal(i as nat) + "."@ + "mlp.down_proj.weight"@] == StoredView::Values(
                    t.down_proj@,
                )
                &&& store@.contains_key("model.layers."@ + decimal(i as nat) + "."@ + "input_layernorm.weight"@)
                &&& store@["model.layers."@ + decimal(i as nat) + "."@ + "input_layernorm.weight"@] == StoredView::Values(
                    t.input_layernorm@,
                )
                &&& store@.contains_key("model.layers."@ + decimal(i as nat) + "."@ + "post_attention_layernorm.weight"@)
                &&& store@["model.layers."@ + decimal(i as nat) + "."@ + "post_attention_layernorm.weight"@] == StoredView::Values(
                    t.post_attention_layernorm@,
                )
            },
            Some(e) => r matches Err(f) && f@ == e,
        },
{
    let ghost plan = layer_plan(i as nat, *cfg);
    proof {
        reveal_with_fuel(plan_fault, 10);
        assert forall|k: int| 0 <= k < 9 implies #[trigger] plan.take(k + 1).drop_last()
            == plan.take(k) by {}
        assert(plan.take(9) == plan);
        assert(plan.take(0) == Seq::<(Seq<char>, nat)>::empty());
    }
    let h = cfg.hidden_size;
    let q = cfg.q_dim() * h;
    let kv = cfg.kv_dim() * h;
    let ffn = cfg.intermediate_size * h;
    let q_proj = load_named(store, i, "self_attn.q_proj.weight", q)?;
    let k_proj = load_named(store, i, "self_attn.k_proj.weight", kv)?;
    let v_proj = load_named(store, i, "self_attn.v_proj.weight", kv)?;
    let o_proj = load_named(store, i, "self_attn.o_proj.weight", q)?;
    let gate_proj = load_named(store, i, "mlp.gate_proj.weight", ffn)?;
    let up_proj = load_named(store, i, "mlp.up_proj.weight", ffn)?;
    let down_proj = load_named(store, i, "mlp.down_proj.weight", ffn)?;
    let input_layernorm = load_named(store, i, "input_layernorm.weight", h)?;
    let post_attention_layernorm = load_named(store, i, "post_attention_layernorm.weight", h)?;
    let t = LayerTensors {
        q_proj,
        k_proj,
        v_proj,
        o_proj,
        gate_proj,
        up_proj,
        down_proj,
        input_layernorm,
        post_attention_layernorm,
    };
    proof {
        lemma_sizes_are_right(t, *cfg);
    }
    Ok(t)
}

proof fn lemma_sizes_are_right(t: LayerTensors, cfg: BlockConfig)
    requires
        forall|k: int|
            0 <= k < 9 ==> (#[trigger] t.sized(cfg)[k]).values.len() == t.sized(cfg)[k].want,
    ensures
        size_fault(t.sized(cfg)) is None,
{
    let all = t.sized(cfg);
    reveal_with_fuel(size_fault, 10);
    assert forall|k: int| 0 <= k < 9 implies #[trigger] all.take(k + 1).drop_last() == all.take(
        k,
    ) by {}
    assert(all.take(9) == all);
    assert(all.take(0) == Seq::<SizedTensor>::empty());
}

/// Reads a model out of a checkpoint. A checkpoint without a head of its own uses the embedding
/// as one. The key/value cache has room for `max_context` tokens and two blocks more.
pub fn load_generator(store: &TensorStore, config: &ModelConfig, max_context: u32) -> (r: Result<
    LoadedModel,
    FlipError,
>)
    requires
        config.explicit_head_dim is Some || config.num_attention_heads > 0,
        block_config(*config).sizes_fit(),
        config.vocab_size * config.hidden_size <= usize::MAX,
    ensures
        match plan_fault(store@, model_plan(store@, *config)) {
            Some(e) => r matches Err(f) && f@ == e,
            None => r matches Ok(model) && {
                &&& model.cfg == block_config(*config)
                &&& model.layers@.len() == config.num_layers
                &&& forall|i: int|
                    0 <= i < model.layers@.len() ==> {
                        &&& layer_read_from(store@, i as nat, #[trigger] model.layers@[i])
                        &&& size_fault(model.layers@[i].sized(model.cfg)) is None
                    }
                &&& read_from(store@, "model.embed_tokens.weight"@, model.embedding@)
                &&& read_from(store@, "model.norm.weight"@, model.final_norm@)
                &&& if store@.contains_key("lm_head.weight"@) {
                    read_from(store@, "lm_head.weight"@, model.lm_head@)
                } else {
                    model.lm_head@ == model.embedding@
                }
                &&& model.vocab == config.vocab_size
                &&& model.rms_eps == config.rms_eps
                &&& model.kv_config == (KvCacheConfig {
                    num_layers: config.num_layers,
                    num_kv_heads: config.num_kv_heads,
                    head_dim: config.head_dim_spec(),
                    block_size: 16,
                })
                &&& model.kv_blocks == (max_context + 15) / 16 + 2
                &&& model.kv_blocks * model.kv_config.block_size >= max_context + 32
            },
        },
        r matches Ok(model) ==> forall|i: int|
            #![trigger model.layers@[i]]
            0 <= i < model.layers@.len() ==> read_from(
                store@,
                "model.layers."@ + decimal(i as nat) + "."@ + "self_attn.q_proj.weight"@,
                model.layers@[i].q_proj@,
            ),
        r matches Ok(model) ==> forall|i: int|
            #![trigger model.layers@[i]]
            0 <= i < model.layers@.len() ==> read_from(
                store@,
                "model.layers."@ + decimal(i as nat) + "."@ + "self_attn.k_proj.weight"@,
                model.layers@[i].k_proj@,
            ),
        r matches Ok(model) ==> forall|i: int|
            #![trigger model.layers@[i]]
            0 <= i < model.layers@.len() ==> read_from(
                store@,
                "model.layers."@ + decimal(i as nat) + "."@ + "self_attn.v_proj.weight"@,
                model.layers@[i].v_proj@,
            ),
        r matches Ok(model) ==> forall|i: int|
            #![trigger model.layers@[i]]
            0 <= i < model.layers@.len() ==> read_from(
                store@,
                "model.layers."@ + decimal(i as nat) + "."@ + "self_attn.o_proj.weight"@,
                model.layers@[i].o_proj@,
            ),
        r matches Ok(model) ==> forall|i: int|
            #![trigger model.layers@[i]]
            0 <= i < model.layers@.len() ==> read_from(
                store@,
                "model.layers."@ + decimal(i as nat) + "."@ + "mlp.gate_proj.weight"@,
                model.layers@[i].gate_proj@,
            ),
        r matches Ok(model) ==> forall|i: int|
            #![trigger model.layers@[i]]
            0 <= i < model.layers@.len() ==> read_from(
                store@,
                "model.layers."@ + decimal(i as nat) + "."@ + "mlp.up_proj.weight"@,
                model.layers@[i].up_proj@,
            ),
        r matches Ok(model) ==> forall|i: int|
            #![trigger model.layers@[i]]
            0 <= i < model.layers@.len() ==> read_from(
                store@,
                "model.layers."@ + decimal(i as nat) + "."@ + "mlp.down_proj.weight"@,
                model.layers@[i].down_proj@,
            ),
        r matches Ok(model) ==> forall|i: int|
            #![trigger model.layers@[i]]
            0 <= i < model.layers@.len() ==> read_from(
                store@,
                "model.layers."@ + decimal(i as nat) + "."@ + "input_layernorm.weight"@,
                model.layers@[i].input_layernorm@,
            ),
        r matches Ok(model) ==> forall|i: int|
            #![trigger model.layers@[i]]
            0 <= i < model.layers@.len() ==> read_from(
                store@,
                "model.layers."@ + decimal(i as nat) + "."@ + "post_attention_layernorm.weight"@,
                model.layers@[i].post_attention_layernorm@,
            ),
        r matches Ok(model) ==> forall|i: int|
            #![trigger model.layers@[i]]
            0 <= i < model.layers@.len() ==> {
                let layer = model.layers@[i];
                let h = config.hidden_size as nat;
                let d = model.cfg.head_dim as nat;
                let q = config.num_attention_heads as nat * d * h;
                let kv = config.num_kv_heads as nat * d * h;
                let inner = config.intermediate_size as nat * h;
                &&& layer.q_proj@.len() == q
                &&& layer.k_proj@.len() == kv
                &&& layer.v_proj@.len() == kv
                &&& layer.o_proj@.len() == q
                &&& layer.gate_proj@.len() == inner
                &&& layer.up_proj@.len() == inner
                &&& layer.down_proj@.len() == inner
                &&& layer.input_layernorm@.len() == h
                &&& layer.post_attention_layernorm@.len() == h
            },
        r matches Ok(model) ==> {
            &&& model.cfg.hidden_size == config.hidden_size
            &&& model.cfg.num_heads == config.num_attention_heads
            &&& model.cfg.num_kv_heads == config.num_kv_heads
            &&& model.cfg.head_dim == (match config.explicit_head_dim {
                Some(d) => d,
                None => config.hidden_size / config.num_attention_heads,
            })
            &&& model.cfg.intermediate_size == config.intermediate_size
            &&& model.cfg.rope_theta == config.rope_theta
            &&& model.cfg.rms_eps == config.rms_eps
            &&& model.kv_config.num_layers == config.num_layers
            &&& model.kv_config.num_kv_heads == config.num_kv_heads
            &&& model.kv_config.head_dim == model.cfg.head_dim
            &&& store@["model.embed_tokens.weight"@] == StoredView::Values(model.embedding@)
            &&& model.embedding@.len() == config.vocab_size * config.hidden_size
            &&& store@["model.norm.weight"@] == StoredView::Values(model.final_norm@)
            &&& model.final_norm@.len() == config.hidden_size
            &&& store@.contains_key("lm_head.weight"@) ==> store@["lm_head.weight"@]
                == StoredView::Values(model.lm_head@)
            &&& model.lm_head@.len() == config.vocab_size * config.hidden_size
        },
{
    let hidden = config.hidden_size as usize;
    let vocab = config.vocab_size as usize;
    let head_dim = config.head_dim();
    let cfg = BlockConfig {
        hidden_size: hidden,
        num_heads: config.num_attention_heads as usize,
        num_kv_heads: config.num_kv_heads as usize,
        head_dim: head_dim as usize,
        intermediate_size: config.intermediate_size as usize,
        rope_theta: config.rope_theta,
        rms_eps: config.rms_eps,
    };
    let ghost n = config.num_layers as nat;
    let ghost layers_part = layers_plan(n, cfg);
    let ghost middle = seq![
        ("model.embed_tokens.weight"@, (vocab * hidden) as nat),
        ("model.norm.weight"@, hidden as nat),
    ];
    let ghost tail = if store@.contains_key("lm_head.weight"@) {
        seq![("lm_head.weight"@, (vocab * hidden) as nat)]
    } else {
        seq![]
    };
    proof {
        lemma_fault_of_sum(store@, layers_part, middle);
        lemma_fault_of_sum(store@, layers_part + middle, tail);
        assert(model_plan(store@, *config) == layers_part + middle + tail);
        reveal_with_fuel(plan_fault, 3);
        assert(middle.drop_last().drop_last() == Seq::<(Seq<char>, nat)>::empty());
        assert(middle.drop_last().last() == middle[0]);
        if tail.len() > 0 {
            assert(tail.drop_last() == Seq::<(Seq<char>, nat)>::empty());
        }
    }
    let mut layers: Vec<LayerTensors> = Vec::new();
    let mut i: u32 = 0;
    while i < config.num_layers
        invariant
            cfg.sizes_fit(),
            cfg == block_config(*config),
            i <= config.num_layers,
            n == config.num_layers,
            layers@.len() == i,
            plan_fault(store@, layers_plan(i as nat, cfg)) is None,
            layers_part == layers_plan(n, cfg),
            plan_fault(store@, layers_part) matches Some(e) ==> plan_fault(
                store@,
                model_plan(store@, *config),
            ) == Some(e),
            forall|k: int|
                0 <= k < layers@.len() ==> {
                    &&& layer_read_from(store@, k as nat, #[trigger] layers@[k])
                    &&& size_fault(layers@[k].sized(cfg)) is None
                },
        decreases config.num_layers - i,
    {
        proof {
            lemma_fault_of_sum(store@, layers_plan(i as nat, cfg), layer_plan(i as nat, cfg));
            assert(layers_plan((i + 1) as nat, cfg) == layers_plan(i as nat, cfg) + layer_plan(
                i as nat,
                cfg,
            ));
        }
        match load_layer(store, i, &cfg) {
            Ok(tensors) => {
                match tensors.validate(&cfg) {
                    Ok(()) => {},
                    Err(e) => {
                        return Err(e);
                    },
                }
                layers.push(tensors);
            },
            Err(e) => {
                proof {
                    lemma_layers_fault_stays(store@, cfg, (i + 1) as nat, n);
                }
                return Err(e);
            },
        }
        i += 1;
    }
    let embedding = load_tensor(store, "model.embed_tokens.weight", vocab * hidden)?;
    let final_norm = load_tensor(store, "model.norm.weight", hidden)?;
    let lm_head = if store.locate("lm_head.weight").is_some() {
        load_tensor(store, "lm_head.weight", vocab * hidden)?
    } else {
        let mut copy: Vec<u32> = Vec::new();
        copy.extend_from_slice(embedding.as_slice());
        assert(copy@ == embedding@);
        copy
    };
    proof {
        assert forall|k: int|
            #![trigger layers@[k]]
            0 <= k < layers@.len() implies {
            let layer = layers@[k];
            let h = config.hidden_size as nat;
            let d = cfg.head_dim as nat;
            let q = config.num_attention_heads as nat * d * h;
            let kv = config.num_kv_heads as nat * d * h;
            let inner = config.intermediate_size as nat * h;
            &&& layer.q_proj@.len() == q
            &&& layer.k_proj@.len() == kv
            &&& layer.v_proj@.len() == kv
            &&& layer.o_proj@.len() == q
            &&& layer.gate_proj@.len() == inner
            &&& layer.up_proj@.len() == inner
            &&& layer.down_proj@.len() == inner
            &&& layer.input_layernorm@.len() == h
            &&& layer.post_attention_layernorm@.len() == h
        } by {
            layers@[k].sizes_follow_from_shape(cfg);
        }
    }
    let kv_config = KvCacheConfig {
        num_layers: config.num_layers,
        num_kv_heads: config.num_kv_heads,
        head_dim,
        block_size: 16,
    };
    let kv_blocks = ((max_context as u64 + 15) / 16) as u32 + 2;
    Ok(
        LoadedModel {
            cfg,
            layers,
            embedding,
            final_norm,
            lm_head,
            vocab,
            rms_eps: config.rms_eps,
            kv_config,
            kv_blocks,
        },
    )
}

} // verus!
