use inference::beam::{
    add_clamped, clip_context, select_next, step, Candidate, Decoder, Entry, Hypothesis,
};
use inference::message::{decoder_for, effective_width, Request};

const VOCAB: usize = 4;
const NO_EOS: u32 = u32::MAX;

/// Log-probabilities, in millionths, of the model whose logit for token i is -i.
fn stub_logprobs() -> Vec<Option<i64>> {
    let logits: Vec<f64> = (0..VOCAB).map(|i| -(i as f64)).collect();
    let max = logits.iter().cloned().fold(f64::NEG_INFINITY, f64::max);
    let sum: f64 = logits.iter().map(|l| (l - max).exp()).sum();
    let lse = max + sum.ln();
    logits.iter().map(|l| Some(((l - lse) * 1e6).round() as i64)).collect()
}

fn run(mut d: Decoder) -> Vec<Candidate> {
    while !d.is_done() {
        let lps: Vec<Vec<Option<i64>>> = d
            .contexts()
            .into_iter()
            .map(|c| match c {
                Some(_) => stub_logprobs(),
                None => Vec::new(),
            })
            .collect();
        d.advance(&lps);
    }
    d.candidates()
}

fn hyp(tokens: Vec<u32>, score: i64, finished: bool) -> Hypothesis {
    Hypothesis { tokens, score, finished }
}

#[test]
fn greedy_single_candidate() {
    let lp = stub_logprobs();
    let d = Decoder::new(&vec![1], 1, 3, 128, NO_EOS);
    let c = run(d);
    assert_eq!(c.len(), 1);
    assert_eq!(c[0].tokens, vec![1, 0, 0, 0]);
    assert_eq!(c[0].logprob, 3 * lp[0].unwrap());
}

#[test]
fn two_wide_two_steps() {
    let lp = stub_logprobs();
    let d = Decoder::new(&vec![1], 2, 2, 128, NO_EOS);
    let c = run(d);
    assert_eq!(c.len(), 2);
    assert_eq!(c[0].tokens, vec![1, 0, 0]);
    assert_eq!(c[0].logprob, 2 * lp[0].unwrap());
    assert_eq!(c[1].logprob, lp[0].unwrap() + lp[1].unwrap());
    assert!(c[0].logprob > c[1].logprob);
    // [1,0,1] and [1,1,0] tie; the lower appended token ranks first.
    assert_eq!(c[1].tokens, vec![1, 1, 0]);
}

#[test]
fn long_prefix_is_clipped() {
    let window: usize = 8;
    let long: Vec<u32> = (0..(window as u32 + 5)).collect();
    let tail: Vec<u32> = long[5..].to_vec();
    let a = run(Decoder::new(&long, 2, 3, window, NO_EOS));
    let b = run(Decoder::new(&tail, 2, 3, window, NO_EOS));
    assert_eq!(a.len(), b.len());
    for (x, y) in a.iter().zip(b.iter()) {
        assert_eq!(x.tokens, y.tokens);
        assert_eq!(x.logprob, y.logprob);
    }
    assert_eq!(a[0].tokens[..window], tail[..]);
}

#[test]
fn contexts_are_clipped_to_window() {
    let d = Decoder::new(&vec![5, 6, 7, 8], 1, 2, 3, NO_EOS);
    let ctx = d.contexts();
    assert_eq!(ctx, vec![Some(vec![6, 7, 8])]);
}

#[test]
fn clip_keeps_short_prefix() {
    assert_eq!(clip_context(&vec![1, 2], 5), vec![1, 2]);
    assert_eq!(clip_context(&vec![1, 2, 3, 4], 2), vec![3, 4]);
}

#[test]
fn identical_runs_give_identical_candidates() {
    let a = run(Decoder::new(&vec![3, 1], 3, 4, 16, NO_EOS));
    let b = run(Decoder::new(&vec![3, 1], 3, 4, 16, NO_EOS));
    assert_eq!(a.len(), b.len());
    for (x, y) in a.iter().zip(b.iter()) {
        assert_eq!(x.tokens, y.tokens);
        assert_eq!(x.logprob, y.logprob);
    }
}

#[test]
fn candidates_bounded_and_descending() {
    for width in 1..6usize {
        let c = run(Decoder::new(&vec![2], width, 3, 16, NO_EOS));
        assert!(c.len() <= width);
        assert!(!c.is_empty());
        for w in c.windows(2) {
            assert!(w[0].logprob >= w[1].logprob);
        }
    }
}

#[test]
fn end_token_finishes_hypothesis() {
    // Token 0 is the end token: the greedy search stops after one step.
    let c = run(Decoder::new(&vec![1], 1, 5, 16, 0));
    assert_eq!(c.len(), 1);
    assert_eq!(c[0].tokens, vec![1, 0]);
}

#[test]
fn non_finite_scores_end_hypothesis_in_place() {
    let beam = vec![hyp(vec![4], -10, false)];
    let lps = vec![vec![None, None]];
    let next = step(&beam, &lps, 2, NO_EOS);
    assert_eq!(next.len(), 1);
    assert_eq!(next[0].tokens, vec![4]);
    assert_eq!(next[0].score, -10);
    assert!(next[0].finished);
}

#[test]
fn selection_breaks_ties_by_token_then_origin() {
    let beam = vec![hyp(vec![1], 0, false), hyp(vec![2], 0, false)];
    let lps = vec![vec![Some(-5), Some(-5)], vec![Some(-5), Some(-1)]];
    let sel = select_next(&beam, &lps, 3);
    assert_eq!(
        sel,
        vec![
            Entry { origin: 1, token: 1, score: -1 },
            Entry { origin: 0, token: 0, score: -5 },
            Entry { origin: 1, token: 0, score: -5 },
        ]
    );
}

#[test]
fn finished_hypothesis_is_carried() {
    let beam = vec![hyp(vec![7, 9], -3, true), hyp(vec![8], -4, false)];
    let lps = vec![Vec::new(), vec![Some(-2), Some(-1)]];
    let next = step(&beam, &lps, 2, NO_EOS);
    assert_eq!(next.len(), 2);
    assert_eq!(next[0].tokens, vec![7, 9]);
    assert!(next[0].finished);
    assert_eq!(next[1].tokens, vec![8, 1]);
    assert_eq!(next[1].score, -5);
}

#[test]
fn clamped_addition() {
    assert_eq!(add_clamped(-3, -4), -7);
    assert_eq!(add_clamped(i64::MIN + 1, -5), i64::MIN);
    assert_eq!(add_clamped(i64::MAX - 1, 5), i64::MAX);
}

#[test]
fn request_width_capped_by_configuration() {
    assert_eq!(effective_width(Some(5), 3), 3);
    assert_eq!(effective_width(Some(2), 3), 2);
    assert_eq!(effective_width(None, 3), 3);
    let req = Request { tokens: vec![1], beam_width: Some(9), max_new: Some(2) };
    let c = run(decoder_for(&req, 2, 16, NO_EOS).unwrap());
    assert!(c.len() <= 2);
    let zero = Request { tokens: vec![1], beam_width: Some(0), max_new: None };
    assert!(decoder_for(&zero, 2, 16, NO_EOS).is_none());
}

#[test]
fn default_step_count() {
    let req = Request { tokens: vec![1], beam_width: Some(1), max_new: None };
    let c = run(decoder_for(&req, 4, 64, NO_EOS).unwrap());
    assert_eq!(c[0].tokens.len(), 17);
}
