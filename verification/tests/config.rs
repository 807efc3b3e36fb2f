use flip::error::FlipError;
use flip::model::config::{
    check_quant_supported, parse_rope_scaling, EosField, GenConfig, QuantizationConfig, RawConfig,
    RawRopeScaling, RopeScaling, DEFAULT_RMS_EPS, DEFAULT_ROPE_THETA, FOUR, ONE,
};
use flip::model::{ModelConfig, PackedQuant, QuantScheme};

fn raw() -> RawConfig {
    RawConfig {
        hidden_size: 8,
        num_attention_heads: 2,
        num_key_value_heads: None,
        num_hidden_layers: 6,
        vocab_size: 6,
        intermediate_size: None,
        max_position_embeddings: None,
        rope_theta: None,
        rms_norm_eps: None,
        head_dim: None,
        rope_scaling: None,
        eos_token_id: None,
        quantization_config: None,
    }
}

fn load(raw: RawConfig) -> Result<ModelConfig, FlipError> {
    ModelConfig::from_json_bytes(Ok(raw), QuantScheme::Fp16)
}

fn quant(method: &str) -> QuantizationConfig {
    QuantizationConfig {
        quant_method: Some(method.to_string()),
        bits: Some(4),
        group_size: Some(128),
        desc_act: Some(false),
        checkpoint_format: None,
    }
}

fn refused(q: &QuantizationConfig) -> String {
    match check_quant_supported(q).unwrap_err() {
        FlipError::UnsupportedQuant(m) => m,
        other => panic!("{:?}", other),
    }
}

fn invalid(r: Result<ModelConfig, FlipError>) -> String {
    match r.err().unwrap() {
        FlipError::InvalidConfig(m) => m,
        other => panic!("{:?}", other),
    }
}

#[test]
fn constants_are_the_bits_of_floats() {
    assert_eq!(DEFAULT_ROPE_THETA, 10000.0f32.to_bits());
    assert_eq!(DEFAULT_RMS_EPS, 1e-5f32.to_bits());
    assert_eq!(ONE, 1.0f32.to_bits());
    assert_eq!(FOUR, 4.0f32.to_bits());
}

#[test]
fn bytes_per_parameter() {
    let value = |q: QuantScheme| {
        let (n, d) = q.bytes_per_param();
        n as f64 / d as f64
    };
    assert_eq!(value(QuantScheme::F32), 4.0);
    assert_eq!(value(QuantScheme::Fp16), 2.0);
    assert_eq!(value(QuantScheme::Int8), 1.0);
    assert_eq!(value(QuantScheme::Int4), 0.5);
}

#[test]
fn omitted_fields_are_filled_in() {
    let c = load(raw()).unwrap();
    assert_eq!(c.hidden_size, 8);
    assert_eq!(c.num_attention_heads, 2);
    assert_eq!(c.num_kv_heads, 2);
    assert_eq!(c.num_layers, 6);
    assert_eq!(c.vocab_size, 6);
    assert_eq!(c.intermediate_size, 32);
    assert_eq!(c.max_position_embeddings, None);
    assert!(c.eos_token_ids.is_empty());
    assert_eq!(f32::from_bits(c.rope_theta), 10000.0);
    assert_eq!(f32::from_bits(c.rms_eps), 1e-5);
    assert_eq!(c.rope_scaling, None);
    assert_eq!(c.quant, QuantScheme::Fp16);
    assert_eq!(c.packed_quant, None);
    assert_eq!(c.head_dim(), 4);
}

#[test]
fn stated_fields_are_kept() {
    let mut r = raw();
    r.num_key_value_heads = Some(1);
    r.intermediate_size = Some(9);
    r.max_position_embeddings = Some(2048);
    r.rope_theta = Some(5);
    r.rms_norm_eps = Some(6);
    r.head_dim = Some(6);
    r.eos_token_id = Some(EosField::Many(vec![3, 3, 4]));
    r.quantization_config = Some(quant("GPTQ"));
    r.rope_scaling = Some(RawRopeScaling {
        rope_type: Some("Linear".to_string()),
        factor: Some(7),
        low_freq_factor: None,
        high_freq_factor: None,
        original_max_position_embeddings: None,
    });
    let c = load(r).unwrap();
    assert_eq!(c.num_kv_heads, 1);
    assert_eq!(c.intermediate_size, 9);
    assert_eq!(c.max_position_embeddings, Some(2048));
    assert_eq!((c.rope_theta, c.rms_eps), (5, 6));
    assert_eq!(c.head_dim(), 6);
    assert_eq!(c.eos_token_ids, vec![3, 3, 4]);
    assert_eq!(c.packed_quant, Some(PackedQuant { group_size: 128 }));
    assert_eq!(c.rope_scaling, Some(RopeScaling::Linear { factor: 7 }));
}

#[test]
fn intermediate_size_saturates() {
    let mut r = raw();
    r.hidden_size = 0x8000_0000;
    assert_eq!(load(r).unwrap().intermediate_size, u32::MAX);
}

#[test]
fn unusable_shapes_are_refused() {
    let mut r = raw();
    r.num_attention_heads = 0;
    r.num_hidden_layers = 0;
    assert_eq!(invalid(load(r)), "num_attention_heads must be > 0");
    let mut r = raw();
    r.num_hidden_layers = 0;
    r.hidden_size = 0;
    assert_eq!(invalid(load(r)), "num_hidden_layers must be > 0");
    let mut r = raw();
    r.hidden_size = 0;
    assert_eq!(invalid(load(r)), "hidden_size must be > 0");
    let mut r = raw();
    r.hidden_size = 9;
    assert_eq!(
        invalid(load(r)),
        "hidden_size (9) is not divisible by num_attention_heads (2)"
    );
    let mut r = raw();
    r.hidden_size = 6;
    assert_eq!(invalid(load(r)), "head_dim (3) must be even (RoPE rotates dimension pairs)");
    let mut r = raw();
    r.hidden_size = 9;
    r.head_dim = Some(4);
    assert_eq!(load(r).unwrap().head_dim(), 4);
    let mut r = raw();
    r.head_dim = Some(0);
    assert_eq!(invalid(load(r)), "head_dim must be > 0");
}

#[test]
fn stated_head_width_needs_no_heads() {
    let mut c = load(raw()).unwrap();
    assert!(c.validate().is_ok());
    c.explicit_head_dim = Some(64);
    c.hidden_size = 128;
    c.num_attention_heads = 0;
    assert_eq!(c.head_dim(), 64);
    assert!(c.validate().is_err());
    c.num_attention_heads = 2;
    c.explicit_head_dim = Some(0);
    assert!(c.validate().is_err());
}

#[test]
fn json_faults_keep_their_context() {
    let fault = serde_json::from_str::<u32>("x").unwrap_err();
    let e = ModelConfig::from_json_bytes(Err(fault), QuantScheme::Int4).err().unwrap();
    assert!(matches!(e, FlipError::Json { context, .. } if context == "config.json"));
    let fault = serde_json::from_str::<u32>("x").unwrap_err();
    let mut c = load(raw()).unwrap();
    let e = c.merge_generation_config(Err(fault)).unwrap_err();
    assert!(matches!(e, FlipError::Json { context, .. } if context == "generation_config.json"));
}

#[test]
fn end_tokens_are_united() {
    let mut r = raw();
    r.eos_token_id = Some(EosField::One(5));
    let mut c = load(r).unwrap();
    let gen = || GenConfig { eos_token_id: Some(EosField::Many(vec![7, 5, 7, 6])) };
    c.merge_generation_config(Ok(gen())).unwrap();
    assert_eq!(c.eos_token_ids, vec![5, 7, 6]);
    // Merging the same again changes nothing.
    c.merge_generation_config(Ok(gen())).unwrap();
    assert_eq!(c.eos_token_ids, vec![5, 7, 6]);
    c.merge_generation_config(Ok(GenConfig { eos_token_id: None })).unwrap();
    c.merge_generation_config(Ok(GenConfig { eos_token_id: Some(EosField::One(1)) })).unwrap();
    assert_eq!(c.eos_token_ids, vec![5, 7, 6, 1]);
}

#[test]
fn supported_quantization() {
    assert_eq!(check_quant_supported(&quant("")).unwrap(), None);
    let mut q = quant("gptq");
    assert_eq!(check_quant_supported(&q).unwrap(), Some(PackedQuant { group_size: 128 }));
    q.bits = None;
    q.desc_act = None;
    q.checkpoint_format = Some("GPTQ".to_string());
    q.group_size = Some(1);
    assert_eq!(check_quant_supported(&q).unwrap(), Some(PackedQuant { group_size: 1 }));
    q.quant_method = None;
    q.bits = Some(3);
    assert_eq!(check_quant_supported(&q).unwrap(), None);
}

#[test]
fn unsupported_quantization_is_named() {
    let mut q = quant("GPTQ");
    q.bits = Some(8);
    let m = refused(&q);
    assert!(m.starts_with("8-bit gptq checkpoint; dlm decodes 4-bit only."));
    assert!(m.ends_with("Use an fp16/bf16 or 4-bit GPTQ (desc_act=false) checkpoint."));
    let mut q = quant("gptq");
    q.desc_act = Some(true);
    assert!(refused(&q).starts_with("GPTQ checkpoint uses desc_act (act-order)"));
    let mut q = quant("gptq");
    q.checkpoint_format = Some("gptq_V2".to_string());
    assert!(refused(&q).starts_with("GPTQ checkpoint_format \"gptq_v2\" is not supported;"));
    let mut q = quant("gptq");
    q.group_size = Some(-5);
    assert!(refused(&q).starts_with("GPTQ checkpoint declares group_size -5; dlm needs a positive"));
    q.group_size = None;
    assert!(refused(&q).starts_with("GPTQ checkpoint declares group_size -1;"));
    assert!(refused(&quant("AWQ")).starts_with("AWQ packs its nibbles in a permuted order"));
    let m = refused(&quant("Exl\"2"));
    assert!(m.starts_with("unrecognized quant_method \"exl\\\"2\"; dlm loads fp16/bf16"));
}

#[test]
fn rope_scalings() {
    let block = |kind: Option<&str>| RawRopeScaling {
        rope_type: kind.map(|k| k.to_string()),
        factor: None,
        low_freq_factor: None,
        high_freq_factor: None,
        original_max_position_embeddings: None,
    };
    assert_eq!(parse_rope_scaling(&block(None)).unwrap(), None);
    assert_eq!(parse_rope_scaling(&block(Some("DEFAULT"))).unwrap(), None);
    assert_eq!(
        parse_rope_scaling(&block(Some("linear"))).unwrap(),
        Some(RopeScaling::Linear { factor: ONE })
    );
    assert_eq!(
        parse_rope_scaling(&block(Some("llama3"))).unwrap(),
        Some(RopeScaling::Llama3 {
            factor: ONE,
            low_freq_factor: ONE,
            high_freq_factor: FOUR,
            original_max_position: 8192,
        })
    );
    match parse_rope_scaling(&block(Some("Yarn"))).unwrap_err() {
        FlipError::InvalidConfig(m) => assert_eq!(
            m,
            "rope_scaling type \"yarn\" is not implemented; dlm supports \"linear\" and \
             \"llama3\". Running this model without its trained RoPE scaling would produce \
             incoherent output, so it is refused rather than silently mis-run."
        ),
        other => panic!("{:?}", other),
    }
}

#[test]
fn parameters_are_counted() {
    let c = load(raw()).unwrap();
    let (h, heads, kv) = (8.0f64, 2.0f64, 2.0f64);
    let attention = (2.0 * h * h + 2.0 * (kv / heads) * h * h) as u64;
    // (256 + 3 * 8 * 32) * 6 + 2 * 6 * 8
    assert_eq!(c.estimated_total_params(attention), 6240);
}
