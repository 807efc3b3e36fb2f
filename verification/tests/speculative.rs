use flip::error::{ErrorView, FlipError};
use flip::forward::kernel::{ComputeKernel, StateView, TokenSeq};
use flip::generate::{GenerationConfig, Generator, Sampler};
use flip::speculative::{SpeculativeDecoder, SpeculativeResult};

struct Rng(u64);
impl Rng {
    fn new(seed: u64) -> Self {
        Rng(seed ^ 0x9E37_79B9_7F4A_7C15)
    }
    fn next(&mut self) -> u64 {
        self.0 = self.0.wrapping_add(0x9E37_79B9_7F4A_7C15);
        let mut z = self.0;
        z = (z ^ (z >> 30)).wrapping_mul(0xBF58_476D_1CE4_E5B9);
        z = (z ^ (z >> 27)).wrapping_mul(0x94D0_49BB_1331_11EB);
        z ^ (z >> 31)
    }
}

/// A small model: the next token is picked by a generator keyed by the seed and all tokens so
/// far.
struct SmallModel {
    seed: u64,
    longest: usize,
}

impl ComputeKernel for SmallModel {
    type State = Vec<u32>;

    fn started(&self, _: TokenSeq, _: Sampler) -> Result<StateView<Self>, ErrorView> {
        unreachable!()
    }

    fn advanced(&self, _: StateView<Self>) -> (Result<u32, ErrorView>, StateView<Self>) {
        unreachable!()
    }

    fn prefill(&self, prompt: &[u32], _sampler: Sampler) -> Result<Vec<u32>, FlipError> {
        if prompt.len() > self.longest {
            return Err(FlipError::InvalidConfig("prompt too long".to_string()));
        }
        Ok(prompt.to_vec())
    }

    fn next_token(&self, state: &mut Vec<u32>) -> Result<u32, FlipError> {
        let mut rng = Rng::new(self.seed);
        let mut pick = rng.next();
        for t in state.iter() {
            let mut rng = Rng::new(pick ^ *t as u64);
            pick = rng.next();
        }
        let token = (pick % 32) as u32;
        state.push(token);
        Ok(token)
    }
}

/// Deterministic small generator keyed by `seed` (same seed → identical model).
fn build_generator(seed: u64) -> Generator<SmallModel> {
    Generator::new(SmallModel { seed, longest: 1000 })
}

fn greedy(gen: &Generator<SmallModel>, prompt: &[u32], n: usize) -> Vec<u32> {
    gen.generate(
        prompt,
        &GenerationConfig { max_new_tokens: n, eos_token: None, sampler: Sampler::Greedy },
    )
    .unwrap()
}

fn rate(r: &SpeculativeResult) -> f64 {
    let (accepted, proposed) = r.acceptance_rate();
    accepted as f64 / proposed as f64
}

#[test]
fn speculative_output_equals_target_greedy() {
    let prompt = [1u32, 2, 3];
    let n = 8;

    // Different draft (seed 2) vs. target (seed 1): output must still be exact.
    let decoder = SpeculativeDecoder::new(build_generator(1), build_generator(2), 4);
    let spec = decoder.generate(&prompt, n).unwrap();
    let reference = greedy(&build_generator(1), &prompt, n);

    assert_eq!(spec.tokens, reference, "speculative diverged from target-greedy");
    assert_eq!(spec.tokens.len(), n);
}

#[test]
fn identical_draft_is_fully_accepted() {
    let prompt = [5u32, 6];
    let n = 6;

    // Draft == target → every proposal matches, 100% acceptance.
    let decoder = SpeculativeDecoder::new(build_generator(1), build_generator(1), 4);
    let spec = decoder.generate(&prompt, n).unwrap();

    assert_eq!(spec.tokens, greedy(&build_generator(1), &prompt, n));
    assert!(spec.proposed > 0);
    assert_eq!(spec.accepted, spec.proposed);
    assert!((rate(&spec) - 1.0).abs() < 1e-9);
}

#[test]
fn rounds_are_counted() {
    // Four are proposed, all accepted, and one more follows; one is left to propose.
    let decoder = SpeculativeDecoder::new(build_generator(3), build_generator(3), 4);
    let spec = decoder.generate(&[9], 6).unwrap();
    assert_eq!((spec.proposed, spec.accepted), (5, 5));
    let spec = decoder.generate(&[9], 0).unwrap();
    assert!(spec.tokens.is_empty());
    assert_eq!(spec.acceptance_rate(), (0, 1));
    // With no number of proposals given, one is made per round.
    let decoder = SpeculativeDecoder::new(build_generator(3), build_generator(3), 0);
    let spec = decoder.generate(&[9], 4).unwrap();
    assert_eq!((spec.proposed, spec.accepted), (2, 2));
}

#[test]
fn every_gamma_gives_the_same_tokens() {
    let reference = greedy(&build_generator(7), &[4, 4, 4], 20);
    for gamma in 0..9 {
        for seed in 0..9 {
            let decoder = SpeculativeDecoder::new(build_generator(7), build_generator(seed), gamma);
            let spec = decoder.generate(&[4, 4, 4], 20).unwrap();
            assert_eq!(spec.tokens, reference);
            assert!(spec.accepted <= spec.proposed);
            assert!(spec.accepted <= spec.tokens.len());
        }
    }
}

#[test]
fn failures_are_passed_on() {
    let short = || Generator::new(SmallModel { seed: 1, longest: 4 });
    let decoder = SpeculativeDecoder::new(short(), build_generator(2), 4);
    assert!(matches!(
        decoder.generate(&[1, 2, 3], 5).unwrap_err(),
        FlipError::InvalidConfig(m) if m == "prompt too long"
    ));
    assert_eq!(decoder.generate(&[1, 2, 3], 2).unwrap().tokens.len(), 2);
    let decoder = SpeculativeDecoder::new(build_generator(1), short(), 4);
    assert!(decoder.generate(&[1, 2, 3, 4, 5], 1).is_err());
}

#[test]
fn generation_stops_at_the_end_token() {
    let gen = build_generator(1);
    let all = greedy(&gen, &[1, 2, 3], 12);
    let eos = all[5];
    let first = all.iter().position(|t| *t == eos).unwrap();
    let got = gen
        .generate(
            &[1, 2, 3],
            &GenerationConfig {
                max_new_tokens: 12,
                eos_token: Some(eos),
                sampler: Sampler::Greedy,
            },
        )
        .unwrap();
    assert_eq!(got, all[..=first]);
    let mut session = gen.start_session(&[1, 2, 3], Sampler::Greedy).unwrap();
    assert_eq!(session.step().unwrap(), all[0]);
    assert_eq!(session.step().unwrap(), all[1]);
}
