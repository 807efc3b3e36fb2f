use flip::batching::{BatchScheduler, Finished, Tick};
use flip::error::{ErrorView, FlipError};
use flip::forward::kernel::{ComputeKernel, StateView, TokenSeq};
use flip::generate::{GenerationConfig, Generator, Sampler};

/// Counts on from the sum of the prompt; refuses prompts that hold 13, and stumbles at 100.
struct Counter;

impl ComputeKernel for Counter {
    type State = u32;

    fn started(&self, _: TokenSeq, _: Sampler) -> Result<StateView<Self>, ErrorView> {
        unreachable!()
    }

    fn advanced(&self, _: StateView<Self>) -> (Result<u32, ErrorView>, StateView<Self>) {
        unreachable!()
    }

    fn prefill(&self, prompt: &[u32], _sampler: Sampler) -> Result<u32, FlipError> {
        if prompt.contains(&13) {
            return Err(FlipError::InvalidConfig("unlucky".to_string()));
        }
        Ok(prompt.iter().sum())
    }

    fn next_token(&self, state: &mut u32) -> Result<u32, FlipError> {
        *state += 1;
        if *state == 100 {
            return Err(FlipError::InvalidConfig("stumbled".to_string()));
        }
        Ok(*state)
    }
}

fn alone(gen: &Generator<Counter>, prompt: &[u32], n: usize, eos: Option<u32>) -> Vec<u32> {
    gen.generate(
        prompt,
        &GenerationConfig { max_new_tokens: n, eos_token: eos, sampler: Sampler::Greedy },
    )
    .unwrap()
}

fn finished(id: u64, tokens: &[u32]) -> Finished {
    Finished { id, tokens: tokens.to_vec() }
}

#[test]
fn requests_get_what_they_get_alone() {
    let gen = Generator::new(Counter);
    for max_batch in 0..5 {
        let mut s = BatchScheduler::new(&gen, max_batch);
        s.submit(1, vec![1], 3, None).unwrap();
        s.submit(2, vec![10], 1, None).unwrap();
        s.submit(3, vec![20, 1], 5, Some(23)).unwrap();
        s.submit(4, vec![30], 0, None).unwrap();
        assert!(s.has_work());
        let mut results = s.run().unwrap();
        assert!(!s.has_work());
        results.sort_by_key(|f| f.id);
        assert_eq!(
            results,
            vec![
                finished(1, &alone(&gen, &[1], 3, None)),
                finished(2, &alone(&gen, &[10], 1, None)),
                finished(3, &[22, 23]),
                finished(4, &[]),
            ]
        );
        assert_eq!(alone(&gen, &[20, 1], 5, Some(23)), vec![22, 23]);
    }
}

#[test]
fn results_come_in_order_of_completion() {
    let gen = Generator::new(Counter);
    let mut s = BatchScheduler::new(&gen, 2);
    s.submit(7, vec![1], 2, None).unwrap();
    s.submit(8, vec![5], 1, None).unwrap();
    s.submit(9, vec![9], 1, None).unwrap();
    let results = s.run().unwrap();
    assert_eq!(results, vec![finished(8, &[6]), finished(7, &[2, 3]), finished(9, &[10])]);
}

#[test]
fn ticks_advance_all_and_refill() {
    let gen = Generator::new(Counter);
    let mut s = BatchScheduler::new(&gen, 2);
    s.submit(1, vec![1], 2, None).unwrap();
    s.submit(2, vec![2], 1, None).unwrap();
    s.submit(3, vec![3], 0, None).unwrap();
    s.submit(4, vec![4], 1, None).unwrap();
    assert_eq!(s.active_len(), 0);
    let tick = s.step().unwrap();
    assert_eq!(tick.produced, vec![(1, 2), (2, 3)]);
    assert_eq!(tick.finished, vec![2]);
    assert_eq!(s.active_len(), 1);
    let tick = s.step().unwrap();
    assert_eq!(tick.produced, vec![(1, 3), (4, 5)]);
    // The request that wants nothing finishes as it is admitted, before the others.
    assert_eq!(tick.finished, vec![3, 1, 4]);
    let tick = s.step().unwrap();
    assert!(tick.produced.is_empty() && tick.finished.is_empty());
    let empty = Tick::default();
    assert!(empty.produced.is_empty() && empty.finished.is_empty());
}

#[test]
fn empty_prompts_are_refused() {
    let gen = Generator::new(Counter);
    let mut s = BatchScheduler::new(&gen, 1);
    assert!(matches!(
        s.submit(1, vec![], 5, None).unwrap_err(),
        FlipError::InvalidConfig(m) if m == "prompt is empty"
    ));
    assert!(!s.has_work());
    assert!(s.run().unwrap().is_empty());
}

#[test]
fn a_refused_prompt_leaves_the_others_queued() {
    let gen = Generator::new(Counter);
    let mut s = BatchScheduler::new(&gen, 3);
    s.submit(1, vec![1], 2, None).unwrap();
    s.submit(2, vec![13], 2, None).unwrap();
    s.submit(3, vec![3], 1, None).unwrap();
    assert!(matches!(s.step().unwrap_err(), FlipError::InvalidConfig(m) if m == "unlucky"));
    assert_eq!(s.active_len(), 1);
    assert_eq!(s.run().unwrap(), vec![finished(3, &[4]), finished(1, &[2, 3])]);
}

#[test]
fn a_failed_token_drops_those_in_flight() {
    let gen = Generator::new(Counter);
    let mut s = BatchScheduler::new(&gen, 2);
    s.submit(1, vec![1], 2, None).unwrap();
    s.submit(2, vec![99], 2, None).unwrap();
    s.submit(3, vec![3], 1, None).unwrap();
    assert!(matches!(s.run().unwrap_err(), FlipError::InvalidConfig(m) if m == "stumbled"));
    assert_eq!(s.active_len(), 0);
    assert!(s.has_work());
    assert_eq!(s.run().unwrap(), vec![finished(3, &[4])]);
}

#[test]
fn batches_are_full_but_never_overfull() {
    let gen = Generator::new(Counter);
    let mut s = BatchScheduler::new(&gen, 3);
    for id in 0..7u64 {
        s.submit(id, vec![1], 1 + id as usize % 3, None).unwrap();
    }
    let mut waiting = 7;
    let mut running = 0;
    let mut count = 0;
    while s.has_work() {
        let tick = s.step().unwrap();
        let admitted = std::cmp::min(3 - running, waiting);
        waiting -= admitted;
        assert_eq!(tick.produced.len(), running + admitted);
        assert!(tick.produced.len() <= 3);
        running = s.active_len();
        count += tick.finished.len();
    }
    assert_eq!(count, 7);
}
