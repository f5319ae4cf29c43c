use llm_scratch_rs::layers::layer_norm::LayerNorm;
use llm_scratch_rs::lr_scheduler::LRScheduler;
use llm_scratch_rs::numbers::{Arithmetic, Numbers, Question, Term};
use llm_scratch_rs::optimizers::adam::{Adam, AdamW};
use llm_scratch_rs::optimizers::clipping::ClippingStrategy;
use llm_scratch_rs::optimizers::optimizer::Optimizer;
use llm_scratch_rs::optimizers::rmsprop::RMSProp;
use llm_scratch_rs::optimizers::sgd::{SGD, SGDM};
use llm_scratch_rs::param::Param;

fn singles() -> impl Arithmetic<Num = f32> {
    Numbers::new(
        |term: Term<f32>| match term {
            Term::Add(a, b) => a + b,
            Term::Sub(a, b) => a - b,
            Term::Mul(a, b) => a * b,
            Term::Div(a, b) => a / b,
            Term::Max(a, b) => a.max(b),
            Term::Min(a, b) => a.min(b),
            Term::Pow(a, b) => a.powf(b),
            Term::PowInt(a, k) => a.powi(k as i32),
            Term::Neg(a) => -a,
            Term::Sqrt(a) => a.sqrt(),
            Term::Exp(a) => a.exp(),
            Term::Ln(a) => a.ln(),
            Term::Cos(a) => a.cos(),
            Term::Count(k) => k as f32,
            Term::Decimal(m, k) => (m as f64 / 10f64.powi(k as i32)) as f32,
            Term::NegInfinity => f32::NEG_INFINITY,
            Term::Pi => std::f32::consts::PI,
        },
        |question: Question<f32>| match question {
            Question::Less(a, b) => a < b,
            Question::Equal(a, b) => a == b,
        },
    )
}

fn params(data: f32, grad: f32) -> Vec<Param<f32>> {
    vec![Param::with_grad(vec![vec![data]], vec![vec![grad]])]
}

fn refs(params: &mut [Param<f32>]) -> Vec<&mut Param<f32>> {
    params.iter_mut().collect()
}

fn close(a: f32, b: f32) -> bool {
    (a - b).abs() < 1e-5
}

#[test]
fn sgd_moves_against_the_gradient() {
    let n = singles();
    let mut p = params(1.0, 0.5);
    SGD::new(0.1, ClippingStrategy::Off).step(&n, &mut refs(&mut p));
    assert!(close(p[0].data[0][0], 0.95));
}

#[test]
fn momentum_builds_up() {
    let n = singles();
    let mut p = params(1.0, 1.0);
    let mut opt = SGDM::new(0.1, 0.9);
    opt.step(&n, &mut refs(&mut p));
    assert!(close(p[0].data[0][0], 0.9));
    opt.step(&n, &mut refs(&mut p));
    assert!(close(opt.velocity[0][0][0], 0.19));
    assert!(close(p[0].data[0][0], 0.71));
}

#[test]
fn rmsprop_divides_by_the_running_size() {
    let n = singles();
    let mut p = params(1.0, 2.0);
    let mut opt = RMSProp::new(&n, 0.1);
    opt.step(&n, &mut refs(&mut p));
    assert!(close(opt.sq_avg[0][0][0], 0.4));
    assert!(close(p[0].data[0][0], 1.0 - 0.2 / 0.4f32.sqrt()));
}

#[test]
fn adam_first_step_is_the_learning_rate() {
    let n = singles();
    let mut p = params(1.0, 2.0);
    let mut opt = Adam::new(&n, 0.1, ClippingStrategy::Off);
    opt.step(&n, &mut refs(&mut p));
    assert_eq!(opt.step_count, 1);
    assert!((p[0].data[0][0] - 0.9).abs() < 1e-4);
}

#[test]
fn adam_w_shrinks_before_it_moves() {
    let n = singles();
    let mut p = params(1.0, 2.0);
    let mut opt = AdamW::new(&n, 0.1, 0.5);
    opt.step(&n, &mut refs(&mut p));
    assert!((p[0].data[0][0] - (0.95 - 0.1)).abs() < 1e-4);
}

#[test]
fn clipping_by_value_norm_and_global_norm() {
    let n = singles();
    let mut p = params(0.0, 5.0);
    ClippingStrategy::Value(2.0).apply(&n, &mut refs(&mut p));
    assert_eq!(p[0].grad, vec![vec![2.0]]);

    let mut q = vec![Param::with_grad(vec![vec![0.0f32, 0.0]], vec![vec![3.0, 4.0]])];
    ClippingStrategy::Norm(1.0).apply(&n, &mut refs(&mut q));
    assert!(close(q[0].grad[0][0], 0.6));
    assert!(close(q[0].grad[0][1], 0.8));

    let mut r = vec![
        Param::with_grad(vec![vec![0.0f32]], vec![vec![3.0]]),
        Param::with_grad(vec![vec![0.0f32]], vec![vec![4.0]]),
    ];
    ClippingStrategy::GlobalNorm(5.0).apply(&n, &mut refs(&mut r));
    assert_eq!(r[0].grad, vec![vec![3.0]]);
    ClippingStrategy::GlobalNorm(1.0).apply(&n, &mut refs(&mut r));
    assert!(close(r[0].grad[0][0], 0.6));

    let mut s = params(0.0, 5.0);
    ClippingStrategy::Off.apply(&n, &mut refs(&mut s));
    assert_eq!(s[0].grad, vec![vec![5.0]]);
}

#[test]
fn step_decay_is_a_staircase() {
    let n = singles();
    let s = LRScheduler::StepDecay { initial_lr: 0.01, decay_rate: 0.5, step_size: 10 };
    assert!(close(s.get_lr(&n, 0), 0.01));
    assert_eq!(s.get_lr(&n, 9), s.get_lr(&n, 0));
    assert!(close(s.get_lr(&n, 10), 0.005));
    assert!(close(s.get_lr(&n, 29), 0.0025));
}

#[test]
fn exponential_decay_and_constant() {
    let n = singles();
    let s = LRScheduler::ExponentialDecay { initial_lr: 0.01, decay_rate: 0.99 };
    assert!((s.get_lr(&n, 2) - 0.009801).abs() < 1e-7);
    assert_eq!(LRScheduler::Constant { lr: 0.5f32 }.get_lr(&n, 12345), 0.5);
}

#[test]
fn cosine_warmup_rises_and_falls() {
    let n = singles();
    let s = LRScheduler::CosineWarmup { max_lr: 1.0f32, min_lr: 0.1, warmup_steps: 10, total_steps: 110 };
    assert_eq!(s.get_lr(&n, 0), 0.0);
    assert!(close(s.get_lr(&n, 5), 0.5));
    assert!(close(s.get_lr(&n, 10), 1.0));
    assert!(close(s.get_lr(&n, 60), 0.55));
    assert!(close(s.get_lr(&n, 110), 0.1));
    let flat = LRScheduler::CosineWarmup { max_lr: 1.0f32, min_lr: 0.1, warmup_steps: 10, total_steps: 10 };
    assert!(close(flat.get_lr(&n, 11), 0.1));
}

fn train<N: Arithmetic<Num = f32>, O: Optimizer<N>>(n: &N, mut optimizer: O, steps: usize) -> Vec<Param<f32>> {
    let mut p = vec![Param::with_grad(vec![vec![0.0f32, 1.0]], vec![vec![3.0, 4.0]])];
    for _ in 0..steps {
        optimizer.step(n, &mut refs(&mut p));
    }
    p
}

#[test]
fn every_optimizer_fits_one_training_loop() {
    let n = singles();
    let plain = train(&n, SGD::new(0.5, ClippingStrategy::Off), 1);
    assert!(close(plain[0].data[0][0], -1.5));
    assert!(close(plain[0].data[0][1], -1.0));
    let held = train(&n, SGD::new(0.5, ClippingStrategy::Norm(1.0)), 1);
    assert!(close(held[0].data[0][0], -0.3));
    assert!(close(held[0].data[0][1], 0.6));
    assert!(close(held[0].grad[0][0], 0.6));
    assert!(close(held[0].grad[0][1], 0.8));
    let momentum = train(&n, SGDM::new(0.1, 0.9), 2);
    assert!(close(momentum[0].data[0][0], -0.87));
    let rms = train(&n, RMSProp::new(&n, 0.1), 1);
    assert!(close(rms[0].data[0][0], -0.3 / 0.9f32.sqrt()));
    let adam = train(&n, Adam::new(&n, 0.1, ClippingStrategy::Off), 1);
    assert!((adam[0].data[0][1] - 0.9).abs() < 1e-4);
    let decayed = train(&n, AdamW::new(&n, 0.1, 0.5), 1);
    assert!((decayed[0].data[0][1] - 0.85).abs() < 1e-4);
}

#[test]
fn an_update_leaves_the_gradients_and_ignores_clipping() {
    let n = singles();
    let mut p = params(1.0, 4.0);
    let mut opt = SGD::new(0.5, ClippingStrategy::Value(1.0));
    opt.update(&n, &mut refs(&mut p));
    assert_eq!(p[0].grad, vec![vec![4.0]]);
    assert_eq!(p[0].data, vec![vec![-1.0]]);
}

#[test]
fn the_weights_of_a_layer_are_moved_where_they_stand() {
    let n = singles();
    let mut layer = LayerNorm::new(&n, 2);
    layer.gamma.grad = vec![vec![1.0, 2.0]];
    layer.beta.grad = vec![vec![0.0, -4.0]];
    let mut opt = SGD::new(0.5, ClippingStrategy::Value(3.0));
    opt.step(&n, &mut layer.parameters());
    assert_eq!(layer.gamma.data, vec![vec![0.5, 0.0]]);
    assert_eq!(layer.beta.data, vec![vec![0.0, 1.5]]);
    assert_eq!(layer.beta.grad, vec![vec![0.0, -3.0]]);
}

#[test]
fn gradients_stay_as_they_are_without_a_strategy() {
    let n = singles();
    let mut p = params(10.0, 8.0);
    let mut opt = SGDM::new(0.5f32, 0.9);
    assert!(matches!(opt.clipping(&n), ClippingStrategy::Off));
    opt.step(&n, &mut refs(&mut p));
    assert_eq!(p[0].data, vec![vec![6.0]]);
    assert_eq!(p[0].grad, vec![vec![8.0]]);
    let adam = Adam::new(&n, 0.1f32, ClippingStrategy::Norm(2.0));
    assert!(matches!(adam.clipping(&n), ClippingStrategy::Norm(_)));
}
