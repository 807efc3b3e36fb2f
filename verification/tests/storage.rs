use flip::cuda::{is_available, mem_get_info, mem_info_of, DeviceMemory};
use flip::error::FlipError;
use flip::loader::{load_generator, load_tensor, StoredTensor, TensorStore};
use flip::memory::page::query_page_size;
use flip::memory::{page_size, round_up_to_page};
use flip::model::config::RawConfig;
use flip::model::{ModelConfig, QuantScheme};
use flip::storage::{LayerCatalog, TensorInfo, TensorRole};

fn tensor(role: TensorRole, byte_len: usize) -> TensorInfo {
    TensorInfo { role, byte_len }
}

#[test]
fn catalog_adds_up_tensors() {
    let tensors = [
        tensor(TensorRole::Layer(0), 10),
        tensor(TensorRole::Pinned, 7),
        tensor(TensorRole::Layer(2), 4),
        tensor(TensorRole::Layer(0), 5),
        tensor(TensorRole::Pinned, 1),
    ];
    let c = LayerCatalog::build(&tensors);
    assert_eq!(c.num_layers(), 2);
    assert_eq!(c.pinned_bytes(), 8);
    assert_eq!(c.layer_bytes(0), Some(15));
    assert_eq!(c.layer_bytes(1), None);
    assert_eq!(c.layer_bytes(2), Some(4));
    assert_eq!(c.max_layer_bytes(), 15);
    assert_eq!(c.mean_layer_bytes(), 9);
    assert_eq!(c.total_layer_bytes(), 19);
    assert!(!c.is_empty());
    // Every byte is counted once.
    assert_eq!(c.pinned_bytes() + c.total_layer_bytes(), 27);
    let copy = c.clone();
    assert_eq!(copy.total_layer_bytes(), 19);
}

#[test]
fn catalog_without_layers() {
    for c in [LayerCatalog::build(&[tensor(TensorRole::Pinned, 3)]), LayerCatalog::default()] {
        assert!(c.is_empty());
        assert_eq!(c.num_layers(), 0);
        assert_eq!(c.max_layer_bytes(), 0);
        assert_eq!(c.mean_layer_bytes(), 0);
        assert_eq!(c.total_layer_bytes(), 0);
    }
    let zero = LayerCatalog::build(&[tensor(TensorRole::Layer(9), 0)]);
    assert!(!zero.is_empty());
    assert_eq!(zero.layer_bytes(9), Some(0));
    assert_eq!(zero.max_layer_bytes(), 0);
}

#[test]
fn pages() {
    assert_eq!(query_page_size(-1), 4096);
    assert_eq!(query_page_size(0), 4096);
    assert_eq!(query_page_size(16384), 16384);
    let mut kept = None;
    assert_eq!(page_size(&mut kept, 8192), 8192);
    assert_eq!(page_size(&mut kept, 4096), 8192);
    assert_eq!(round_up_to_page(0, 4096), 0);
    assert_eq!(round_up_to_page(1, 4096), 4096);
    assert_eq!(round_up_to_page(4096, 4096), 4096);
    assert_eq!(round_up_to_page(4097, 4096), 8192);
    assert_eq!(round_up_to_page(10, 3), 12);
    assert_eq!(round_up_to_page(round_up_to_page(10, 3), 3), 12);
    let most = usize::MAX / 4096 * 4096;
    assert_eq!(round_up_to_page(usize::MAX, 4096), most);
    // Rounding again changes nothing, and order is kept, up to the greatest numbers.
    assert_eq!(round_up_to_page(most, 4096), most);
    assert_eq!(round_up_to_page(most - 1, 4096), most);
    assert_eq!(round_up_to_page(most - 4096, 4096), most - 4096);
}

#[test]
fn device_memory() {
    assert!(!is_available());
    assert!(matches!(mem_get_info().unwrap_err(), FlipError::CudaUnavailable("cudaMemGetInfo")));
    assert_eq!(mem_info_of(0, 3, 9).unwrap(), DeviceMemory { free: 3, total: 9 });
    assert!(matches!(
        mem_info_of(35, 3, 9).unwrap_err(),
        FlipError::Cuda { api: "cudaMemGetInfo", code: 35 }
    ));
}

fn config() -> ModelConfig {
    let raw = RawConfig {
        hidden_size: 8,
        num_attention_heads: 2,
        num_key_value_heads: Some(1),
        num_hidden_layers: 2,
        vocab_size: 6,
        intermediate_size: Some(5),
        max_position_embeddings: None,
        rope_theta: None,
        rms_norm_eps: None,
        head_dim: None,
        rope_scaling: None,
        eos_token_id: None,
        quantization_config: None,
    };
    ModelConfig::from_json_bytes(Ok(raw), QuantScheme::F32).unwrap()
}

fn fill(seed: usize, n: usize) -> Vec<u32> {
    (0..n).map(|i| ((((i + seed) % 13) as f32 - 6.0) * 0.01).to_bits()).collect()
}

/// A checkpoint without its tensor `without`, and with every tensor `wrong` one element longer.
fn checkpoint(without: &str, wrong: &str) -> TensorStore {
    let mut sizes = vec![
        ("model.embed_tokens.weight".to_string(), 48),
        ("model.norm.weight".to_string(), 8),
        ("lm_head.weight".to_string(), 48),
    ];
    for i in 0..2 {
        for (suffix, n) in [
            ("self_attn.q_proj.weight", 64),
            ("self_attn.k_proj.weight", 32),
            ("self_attn.v_proj.weight", 32),
            ("self_attn.o_proj.weight", 64),
            ("mlp.gate_proj.weight", 40),
            ("mlp.up_proj.weight", 40),
            ("mlp.down_proj.weight", 40),
            ("input_layernorm.weight", 8),
            ("post_attention_layernorm.weight", 8),
        ] {
            sizes.push((format!("model.layers.{i}.{suffix}"), n));
        }
    }
    let mut store = TensorStore::new();
    for (k, (name, n)) in sizes.into_iter().enumerate() {
        if name != without {
            let n = if name == wrong { n + 1 } else { n };
            store.insert(name, StoredTensor::Values(fill(k, n)));
        }
    }
    store
}

#[test]
fn model_is_loaded() {
    let model = load_generator(&checkpoint("", ""), &config(), 33).unwrap();
    assert_eq!(model.layers.len(), 2);
    assert_eq!(model.layers[0].q_proj, fill(3, 64));
    assert_eq!(model.layers[1].q_proj, fill(12, 64));
    assert_eq!(model.layers[1].post_attention_layernorm, fill(20, 8));
    assert_eq!(model.embedding, fill(0, 48));
    assert_eq!(model.final_norm, fill(1, 8));
    assert_eq!(model.lm_head, fill(2, 48));
    assert_eq!(model.vocab, 6);
    assert_eq!(model.cfg.q_dim(), 8);
    assert_eq!(model.cfg.kv_dim(), 4);
    assert_eq!(model.kv_config.block_size, 16);
    assert_eq!(model.kv_config.head_dim, 4);
    assert_eq!(model.kv_config.num_kv_heads, 1);
    assert_eq!(model.kv_config.num_layers, 2);
    assert_eq!(model.kv_blocks, 5);
    assert!(model.layers[0].validate(&model.cfg).is_ok());
    assert!(model.cfg.check_sizes());
}

#[test]
fn a_missing_head_is_the_embedding() {
    let model = load_generator(&checkpoint("lm_head.weight", ""), &config(), 32).unwrap();
    assert_eq!(model.lm_head, model.embedding);
    assert_eq!(model.kv_blocks, 4);
}

#[test]
fn the_first_faulty_tensor_is_named() {
    let name = "model.layers.1.mlp.up_proj.weight";
    let e = load_generator(&checkpoint(name, "model.norm.weight"), &config(), 1).err().unwrap();
    assert!(matches!(e, FlipError::UnknownTensor(n) if n == name));
    let e = load_generator(&checkpoint("model.norm.weight", name), &config(), 1).err().unwrap();
    assert!(matches!(e, FlipError::InvalidConfig(m)
        if m == "tensor \"model.layers.1.mlp.up_proj.weight\": expected 40 elements, got 41"));
    let e = load_generator(&checkpoint("", "lm_head.weight"), &config(), 1).err().unwrap();
    assert!(matches!(e, FlipError::InvalidConfig(m)
        if m == "tensor \"lm_head.weight\": expected 48 elements, got 49"));
    let mut store = checkpoint("", "");
    store.insert(
        "model.norm.weight".to_string(),
        StoredTensor::Unreadable("unsupported dtype".to_string()),
    );
    let e = load_generator(&store, &config(), 1).err().unwrap();
    assert!(matches!(e, FlipError::Storage(m) if m == "unsupported dtype"));
    assert!(store.locate("nothing").is_none());
    assert_eq!(load_tensor(&store, "lm_head.weight", 48).unwrap(), fill(2, 48));
}
