use llm_scratch_rs::numbers::{Arithmetic, Numbers, Question, Term};
use llm_scratch_rs::sampling::{can_sample, filter_top_k, filter_top_p, find_last_greatest, pick, sample_next_token};

fn singles_as_bits() -> impl Arithmetic<Num = u32> {
    Numbers::new(
        |term: Term<u32>| {
            let f = f32::from_bits;
            let value: f32 = match term {
                Term::Add(a, b) => f(a) + f(b),
                Term::Sub(a, b) => f(a) - f(b),
                Term::Mul(a, b) => f(a) * f(b),
                Term::Div(a, b) => f(a) / f(b),
                Term::Max(a, b) => f(a).max(f(b)),
                Term::Min(a, b) => f(a).min(f(b)),
                Term::Pow(a, b) => f(a).powf(f(b)),
                Term::PowInt(a, k) => f(a).powi(k as i32),
                Term::Neg(a) => -f(a),
                Term::Sqrt(a) => f(a).sqrt(),
                Term::Exp(a) => f(a).exp(),
                Term::Ln(a) => f(a).ln(),
                Term::Cos(a) => f(a).cos(),
                Term::Count(k) => k as f32,
                Term::Decimal(m, k) => (m as f64 / 10f64.powi(k as i32)) as f32,
                Term::NegInfinity => f32::NEG_INFINITY,
                Term::Pi => std::f32::consts::PI,
            };
            value.to_bits()
        },
        |question: Question<u32>| match question {
            Question::Less(a, b) => f32::from_bits(a) < f32::from_bits(b),
            Question::Equal(a, b) => f32::from_bits(a) == f32::from_bits(b),
        },
    )
}

fn bits(x: &[f32]) -> Vec<u32> {
    x.iter().map(|v| v.to_bits()).collect()
}

fn floats(x: &[u32]) -> Vec<f32> {
    x.iter().map(|v| f32::from_bits(*v)).collect()
}

const LOW: f32 = f32::NEG_INFINITY;

#[test]
fn sampling_walkthrough() {
    let n = singles_as_bits();
    let logits = bits(&[2.0, 1.0, 5.0, 0.5, 3.0]);
    let choose = |draw: f32| {
        sample_next_token(&n, &logits, 0.5f32.to_bits(), Some(3), Some(0.99f32.to_bits()), draw.to_bits())
    };
    assert_eq!(choose(0.99), 4);
    assert_eq!(choose(0.5), 2);
    assert_eq!(choose(0.0), 2);
}

#[test]
fn top_k_masks_what_is_smaller_than_the_kth() {
    let mut x = bits(&[4.0, 2.0, 10.0, 1.0, 6.0]);
    filter_top_k(&mut x, 3, LOW.to_bits());
    assert_eq!(floats(&x), vec![4.0, LOW, 10.0, LOW, 6.0]);
    // Equal scores stay together, and zero counts as one.
    let mut tied = bits(&[1.0, 3.0, 3.0, 0.0]);
    filter_top_k(&mut tied, 0, LOW.to_bits());
    assert_eq!(floats(&tied), vec![LOW, 3.0, 3.0, LOW]);
    let mut all = bits(&[1.0, 2.0]);
    filter_top_k(&mut all, 2, LOW.to_bits());
    assert_eq!(floats(&all), vec![1.0, 2.0]);
}

#[test]
fn nucleus_keeps_the_token_that_reaches_p() {
    let n = singles_as_bits();
    let mut x = bits(&[4.0, LOW, 10.0, LOW, 6.0]);
    filter_top_p(&n, &mut x, 0.99f32.to_bits(), LOW.to_bits());
    assert_eq!(floats(&x), vec![LOW, LOW, 10.0, LOW, 6.0]);
    let mut one = bits(&[1.0, 5.0]);
    filter_top_p(&n, &mut one, 0.01f32.to_bits(), LOW.to_bits());
    assert_eq!(floats(&one), vec![LOW, 5.0]);
}

#[test]
fn greedy_takes_the_last_of_the_best() {
    let n = singles_as_bits();
    let logits = bits(&[1.0, 7.0, 3.0, 7.0, 2.0]);
    assert_eq!(find_last_greatest(&logits), 3);
    assert_eq!(sample_next_token(&n, &logits, 0.0f32.to_bits(), None, None, 0), 3);
    assert_eq!(sample_next_token(&n, &vec![], 0.0f32.to_bits(), None, None, 0), 0);
}

#[test]
fn a_draw_that_is_never_exceeded_takes_the_best() {
    let n = singles_as_bits();
    let probs = bits(&[0.25, 0.5, 0.25]);
    assert_eq!(pick(&n, &probs, 0.2f32.to_bits()), 0);
    assert_eq!(pick(&n, &probs, 0.25f32.to_bits()), 1);
    assert_eq!(pick(&n, &probs, 2.0f32.to_bits()), 1);
}

#[test]
fn filters_outside_their_range_do_nothing() {
    let n = singles_as_bits();
    let logits = bits(&[0.0, 0.0]);
    let t = 1.0f32.to_bits();
    assert_eq!(sample_next_token(&n, &logits, t, None, Some(1.0f32.to_bits()), 0.9f32.to_bits()), 1);
    assert_eq!(sample_next_token(&n, &logits, t, None, Some(0.0f32.to_bits()), 0.9f32.to_bits()), 1);
    assert_eq!(sample_next_token(&n, &logits, t, Some(5), None, 0.1f32.to_bits()), 0);
}

#[test]
fn only_what_is_ranked_must_consist_of_numbers() {
    let n = singles_as_bits();
    let t = 1.0f32.to_bits();
    let p = Some(0.5f32.to_bits());
    let unordered = bits(&[1.0, f32::NAN]);
    assert!(can_sample(&n, &unordered, t, None, None));
    assert!(can_sample(&n, &unordered, t, Some(2), None));
    assert!(can_sample(&n, &unordered, 0, Some(1), p));
    assert!(!can_sample(&n, &unordered, t, Some(1), None));
    assert!(!can_sample(&n, &unordered, t, None, p));
    // Infinite scores have an order, their shares have none.
    let endless = bits(&[f32::INFINITY, 0.0]);
    assert!(can_sample(&n, &endless, t, Some(1), None));
    assert!(!can_sample(&n, &endless, t, None, p));
    assert!(can_sample(&n, &vec![], t, None, None));
    assert!(!can_sample(&n, &vec![], t, None, p));
}
