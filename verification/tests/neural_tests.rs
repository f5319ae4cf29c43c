use llm_scratch_rs::activation::softmax;
use llm_scratch_rs::attention::multi_head_attention::{HeadWeights, MultiHeadAttention};
use llm_scratch_rs::attention::self_attention::SelfAttention;
use llm_scratch_rs::embedding::{embed_sequence, PositionalEmbedding, TokenEmbedding};
use llm_scratch_rs::layers::feed_forward::FeedForward;
use llm_scratch_rs::layers::layer_norm::LayerNorm;
use llm_scratch_rs::loss::{cross_entropy_backward, cross_entropy_loss};
use llm_scratch_rs::matrix::{add, add_mat, mat_transpose, matmul};
use llm_scratch_rs::numbers::{Arithmetic, Numbers, Question, Term};
use llm_scratch_rs::param::Param;

fn singles() -> impl Arithmetic<Num = f32> {
    Numbers::new(
        |term: Term<f32>| match term {
            Term::Add(a, b) => a + b,
            Term::Sub(a, b) => a - b,
            Term::Mul(a, b) => a * b,
            Term::Div(a, b) => a / b,
            Term::Max(a, b) => a.max(b),
            Term::Min(a, b) => a.min(b),
            Term::Pow(a, b) => a.powf(b),
            Term::PowInt(a, k) => a.powi(k as i32),
            Term::Neg(a) => -a,
            Term::Sqrt(a) => a.sqrt(),
            Term::Exp(a) => a.exp(),
            Term::Ln(a) => a.ln(),
            Term::Cos(a) => a.cos(),
            Term::Count(k) => k as f32,
            Term::Decimal(m, k) => (m as f64 / 10f64.powi(k as i32)) as f32,
            Term::NegInfinity => f32::NEG_INFINITY,
            Term::Pi => std::f32::consts::PI,
        },
        |question: Question<f32>| match question {
            Question::Less(a, b) => a < b,
            Question::Equal(a, b) => a == b,
        },
    )
}

fn close(a: &[Vec<f32>], b: &[Vec<f32>], tolerance: f32) -> bool {
    a.len() == b.len()
        && a.iter().zip(b).all(|(x, y)| {
            x.len() == y.len() && x.iter().zip(y).all(|(p, q)| (p - q).abs() <= tolerance)
        })
}

fn identity(n: usize) -> Vec<Vec<f32>> {
    (0..n).map(|i| (0..n).map(|j| if i == j { 1.0 } else { 0.0 }).collect()).collect()
}

#[test]
fn sums_stop_at_the_shorter_side() {
    let n = singles();
    assert_eq!(add(&n, &vec![1.0, 2.0, 3.0], &vec![10.0, 20.0]), vec![11.0, 22.0]);
    let a = vec![vec![1.0, 2.0], vec![3.0, 4.0]];
    assert_eq!(add_mat(&n, &a, &vec![vec![1.0, 1.0]]), vec![vec![2.0, 3.0]]);
}

#[test]
fn products_and_transposes() {
    let n = singles();
    let a = vec![vec![1.0, 2.0], vec![3.0, 4.0]];
    let b = vec![vec![5.0, 6.0], vec![7.0, 8.0]];
    assert_eq!(matmul(&n, &a, &b), vec![vec![19.0, 22.0], vec![43.0, 50.0]]);
    let wide = vec![vec![1.0, 2.0, 3.0], vec![4.0, 5.0, 6.0]];
    let tall = mat_transpose(&wide);
    assert_eq!(tall, vec![vec![1.0, 4.0], vec![2.0, 5.0], vec![3.0, 6.0]]);
    assert_eq!(mat_transpose(&tall), wide);
    assert_eq!(matmul(&n, &vec![], &b), Vec::<Vec<f32>>::new());
}

#[test]
fn softmax_gives_probabilities() {
    let n = singles();
    assert_eq!(softmax(&n, &vec![0.0, 0.0]), vec![0.5, 0.5]);
    assert_eq!(softmax(&n, &vec![]), Vec::<f32>::new());
    // Nothing but shut-out scores share the probability evenly.
    let low = f32::NEG_INFINITY;
    assert_eq!(softmax(&n, &vec![low, low]), vec![0.5, 0.5]);
    assert_eq!(softmax(&n, &vec![low, 3.0]), vec![0.0, 1.0]);
    let p = softmax(&n, &vec![1.0, 2.0, 3.0]);
    assert!((p[2] - 0.665_240_96).abs() < 1e-6);
}

#[test]
fn loss_of_even_predictions() {
    let n = singles();
    let logits = vec![vec![0.0f32, 0.0], vec![0.0, 0.0]];
    let loss = cross_entropy_loss(&n, &logits, &vec![0, 1]);
    assert!((loss - 0.5f32.ln().abs()).abs() < 1e-5);
    let grad = cross_entropy_backward(&n, &logits, &vec![0, 1]);
    assert_eq!(grad, vec![vec![-0.25, 0.25], vec![0.25, -0.25]]);
}

#[test]
fn parameters_start_without_gradient() {
    let n = singles();
    let mut p = Param::with_grad(vec![vec![1.0f32, 2.0]], vec![vec![3.0, 4.0]]);
    assert_eq!(p.zeros_like_data(&n), vec![vec![0.0, 0.0]]);
    p.zero_grad(&n);
    assert_eq!(p.grad, vec![vec![0.0, 0.0]]);
    assert_eq!(p.data, vec![vec![1.0, 2.0]]);
    assert_eq!(Param::new(&n, vec![vec![5.0f32]]).grad, vec![vec![0.0]]);
}

#[test]
fn feed_forward_walkthrough() {
    let n = singles();
    let w_1 = vec![vec![1.0, 0.0, -1.0, 0.0], vec![0.0, 1.0, 0.0, -1.0]];
    let w_2 = vec![vec![1.0, 0.0], vec![0.0, 1.0], vec![1.0, 0.0], vec![0.0, 1.0]];
    let mut ff = FeedForward::new(&n, w_1, w_2, 2, 4);
    let x = vec![vec![1.0, -1.0], vec![0.5, 0.5]];
    assert_eq!(ff.forward(&n, &x), vec![vec![1.0, 1.0], vec![0.5, 0.5]]);
    assert_eq!(ff.cache_hidden, vec![vec![1.0, -1.0, -1.0, 1.0], vec![0.5, 0.5, -0.5, -0.5]]);
    let d_x = ff.backward(&n, &vec![vec![1.0, 0.0], vec![0.0, 0.0]]);
    // Only the first hidden unit of the first token was active and feeds the first output.
    assert_eq!(d_x, vec![vec![1.0, 0.0], vec![0.0, 0.0]]);
    assert_eq!(ff.w_2.grad[0], vec![1.0, 0.0]);
    assert_eq!(ff.w_2.grad[3], vec![1.0, 0.0]);
    assert_eq!(ff.w_1.grad, vec![vec![1.0, 0.0, 0.0, 0.0], vec![-1.0, 0.0, 0.0, 0.0]]);
    // A second pass adds to what is there.
    ff.backward(&n, &vec![vec![1.0, 0.0], vec![0.0, 0.0]]);
    assert_eq!(ff.w_1.grad[0][0], 2.0);
}

#[test]
fn parameters_give_access_to_all_weights() {
    let n = singles();
    let mut ff = FeedForward::new(&n, vec![vec![1.0]], vec![vec![2.0]], 1, 1);
    for p in ff.parameters() {
        p.data[0][0] = 9.0;
    }
    assert_eq!(ff.w_1.data, vec![vec![9.0]]);
    assert_eq!(ff.w_2.data, vec![vec![9.0]]);
    let mut norm = LayerNorm::new(&n, 2);
    assert_eq!(norm.parameters().len(), 2);
    norm.parameters()[1].data[0][0] = 4.0;
    assert_eq!(norm.beta.data[0][0], 4.0);
}

#[test]
fn layer_norm_walkthrough() {
    let n = singles();
    let mut ln = LayerNorm::new(&n, 4);
    assert_eq!(ln.gamma.grad, vec![vec![0.0; 4]]);
    assert_eq!(ln.beta.grad, vec![vec![0.0; 4]]);
    let out = ln.forward(&n, &vec![vec![2.0, 100.0, -50.0, 3.0]]);
    assert!(close(&out, &[vec![-0.217, 1.591, -1.176, -0.198]], 2e-3));
    let mean: f32 = out[0].iter().sum::<f32>() / 4.0;
    assert!(mean.abs() < 1e-5);
}

#[test]
fn layer_norm_gradients() {
    let n = singles();
    let mut ln = LayerNorm::new(&n, 2);
    let x = vec![vec![1.0, 3.0]];
    let out = ln.forward(&n, &x);
    assert!(close(&out, &[vec![-1.0, 1.0]], 1e-4));
    // An even gradient does not move a row that is brought to mean zero.
    let d_x = ln.backward(&n, &vec![vec![1.0, 1.0]]);
    assert!(close(&d_x, &[vec![0.0, 0.0]], 1e-4));
    assert_eq!(ln.d_beta, vec![1.0, 1.0]);
    assert!((ln.d_gamma[1] - 1.0).abs() < 1e-4);
    // The gradients are set anew, not added up.
    ln.backward(&n, &vec![vec![1.0, 1.0]]);
    assert_eq!(ln.d_beta, vec![1.0, 1.0]);
}

fn plain_head() -> SelfAttention<f32> {
    SelfAttention::new(&singles(), identity(2), identity(2), identity(2), 2, 2, 2)
}

#[test]
fn attention_looks_back_only() {
    let n = singles();
    let mut head = plain_head();
    let x = vec![vec![1.0, 0.0], vec![0.0, 1.0], vec![1.0, 1.0]];
    let out = head.forward(&n, &x);
    // The first token sees itself alone.
    assert!(close(&[out[0].clone()], &[vec![1.0, 0.0]], 1e-6));
    // The second weighs itself against the first by the scaled scores 0.707 and 0.
    let s = (0.5f32).sqrt().exp();
    assert!((head.cache_attention_weights[1][1] - s / (1.0 + s)).abs() < 1e-6);
    assert_eq!(head.cache_attention_weights[1][2], 0.0);
    // The weights of the third are those of the walkthrough: 0.25, 0.25 and 0.50.
    assert!((head.cache_attention_weights[2][2] - 0.5034).abs() < 1e-3);
    assert!(close(&[out[2].clone()], &[vec![0.7517, 0.7517]], 1e-3));
    // What a token takes from each position does not depend on later tokens.
    let before = head.cache_attention_weights[1].clone();
    let mut other = plain_head();
    let changed = other.forward(&n, &vec![vec![1.0, 0.0], vec![0.0, 1.0], vec![-7.0, 3.0]]);
    assert_eq!(other.cache_attention_weights[1], before);
    // Nor does what it gets.
    assert_eq!(changed[..2], out[..2]);
}

#[test]
fn kept_keys_and_values_change_nothing() {
    let n = singles();
    let x = vec![vec![1.0, 0.0], vec![0.0, 1.0], vec![1.0, 1.0]];
    let whole = plain_head().forward(&n, &x);
    let mut stepwise = plain_head();
    stepwise.use_cache = true;
    assert_eq!(stepwise.forward(&n, &vec![x[0].clone()]), vec![whole[0].clone()]);
    assert_eq!(stepwise.forward(&n, &vec![x[1].clone(), x[2].clone()]), vec![whole[1].clone(), whole[2].clone()]);
    assert_eq!(stepwise.cache_kv.unwrap().0.len(), 3);
}

#[test]
fn attention_gradients_of_a_single_token() {
    let n = singles();
    let mut head = plain_head();
    head.forward(&n, &vec![vec![2.0, 3.0]]);
    // With one token the weight is one, so that only the values carry a gradient.
    let d_x = head.backward(&n, &vec![vec![1.0, 10.0]]);
    assert_eq!(d_x, vec![vec![1.0, 10.0]]);
    assert_eq!(head.w_v.grad, vec![vec![2.0, 20.0], vec![3.0, 30.0]]);
    assert_eq!(head.w_q.grad, vec![vec![0.0, 0.0], vec![0.0, 0.0]]);
    assert_eq!(head.parameters().len(), 3);
}

#[test]
fn heads_stand_side_by_side() {
    let n = singles();
    let weights = || HeadWeights {
        w_q: vec![vec![1.0], vec![0.0]],
        w_k: vec![vec![1.0], vec![0.0]],
        w_v: vec![vec![0.0], vec![1.0]],
    };
    let list = vec![weights(), weights()];
    let w_o = vec![vec![1.0, 0.0], vec![0.0, 2.0]];
    let mut mha = MultiHeadAttention::new(&n, &list, w_o, 2, 2);
    assert_eq!(mha.heads.len(), 2);
    assert_eq!(mha.heads[0].d_k, 1);
    let out = mha.forward(&n, &vec![vec![5.0, 3.0]]);
    assert_eq!(out, vec![vec![3.0, 6.0]]);
}

#[test]
fn embeddings_add_token_and_position() {
    let n = singles();
    let mut tok = TokenEmbedding::new(&n, vec![vec![1.0, 2.0], vec![3.0, 4.0]], 2, 2);
    let mut pos = PositionalEmbedding::new(&n, vec![vec![10.0, 20.0], vec![30.0, 40.0], vec![50.0, 60.0]], 3, 2);
    assert_eq!(embed_sequence(&n, &vec![1, 0], &tok, &pos), vec![vec![13.0, 24.0], vec![31.0, 42.0]]);
    assert_eq!(tok.forward(1), vec![3.0, 4.0]);
    assert_eq!(pos.forward(2), vec![50.0, 60.0]);
    assert_eq!(tok.transposed_weight(), vec![vec![1.0, 3.0], vec![2.0, 4.0]]);
    tok.backward(&n, &vec![1, 1], &vec![vec![0.5, 0.25], vec![1.0, 1.0]]);
    assert_eq!(tok.d_weight, vec![vec![0.0, 0.0], vec![1.5, 1.25]]);
    pos.backward(&n, 1, &vec![vec![7.0, 8.0]]);
    assert_eq!(pos.d_weight[0], vec![7.0, 8.0]);
    assert_eq!(pos.d_weight[1], vec![0.0, 0.0]);
}
