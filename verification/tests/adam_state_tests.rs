use llm_scratch_rs::numbers::{Arithmetic, Numbers, Question, Term};
use llm_scratch_rs::optimizers::checkpoint::LoadError;
use llm_scratch_rs::optimizers::diffusion_adam::{AdamError, DiffusionAdam, MlpAdamOptimizer};
use llm_scratch_rs::parameterized::{Model, Parameterized};
use llm_scratch_rs::tensor::{Tensor, TensorMath};
use llm_scratch_rs::varstore::StoreError;

fn singles() -> impl Arithmetic<Num = f32> {
    Numbers::new(
        |term: Term<f32>| match term {
            Term::Add(a, b) => a + b,
            Term::Sub(a, b) => a - b,
            Term::Mul(a, b) => a * b,
            Term::Div(a, b) => a / b,
            Term::Max(a, b) => a.max(b),
            Term::Min(a, b) => a.min(b),
            Term::Pow(a, b) => a.powf(b),
            Term::PowInt(a, k) => a.powi(k as i32),
            Term::Neg(a) => -a,
            Term::Sqrt(a) => a.sqrt(),
            Term::Exp(a) => a.exp(),
            Term::Ln(a) => a.ln(),
            Term::Cos(a) => a.cos(),
            Term::Count(k) => k as f32,
            Term::Decimal(m, k) => (m as f64 / 10f64.powi(k as i32)) as f32,
            Term::NegInfinity => f32::NEG_INFINITY,
            Term::Pi => std::f32::consts::PI,
        },
        |question: Question<f32>| match question {
            Question::Less(a, b) => a < b,
            Question::Equal(a, b) => a == b,
        },
    )
}

fn doubles() -> impl Arithmetic<Num = f64> {
    Numbers::new(
        |term: Term<f64>| match term {
            Term::Add(a, b) => a + b,
            Term::Sub(a, b) => a - b,
            Term::Mul(a, b) => a * b,
            Term::Div(a, b) => a / b,
            Term::Max(a, b) => a.max(b),
            Term::Min(a, b) => a.min(b),
            Term::Pow(a, b) => a.powf(b),
            Term::PowInt(a, k) => a.powi(k as i32),
            Term::Neg(a) => -a,
            Term::Sqrt(a) => a.sqrt(),
            Term::Exp(a) => a.exp(),
            Term::Ln(a) => a.ln(),
            Term::Cos(a) => a.cos(),
            Term::Count(k) => k as f64,
            Term::Decimal(m, k) => m as f64 / 10f64.powi(k as i32),
            Term::NegInfinity => f64::NEG_INFINITY,
            Term::Pi => std::f64::consts::PI,
        },
        |question: Question<f64>| match question {
            Question::Less(a, b) => a < b,
            Question::Equal(a, b) => a == b,
        },
    )
}

fn narrow(x: f64) -> f32 {
    x as f32
}

fn model_with(name: &str, w: &[f32]) -> Model<f32> {
    let mut model = Model::new();
    assert!(model.add_param(name, Tensor::vector(w.to_vec())).is_ok());
    model
}

fn tiny_model() -> Model<f32> {
    model_with("w", &[1.0, 2.0])
}

#[test]
fn step_updates_weights_visible_through_model_field() {
    let math = TensorMath { wide: doubles(), narrow: singles(), cast: narrow };
    let mut model = tiny_model();
    let mut optimizer = MlpAdamOptimizer::new(&math, &model, 0.1f64).ok().unwrap();

    let before = model.param(0).data.clone();
    let grads = vec![Tensor::vector(vec![1.0f32, 1.0])];
    assert!(optimizer.step(&math, &mut model, &grads).is_ok());
    let after = model.param(0).data.clone();

    assert_eq!(optimizer.t, 1);
    // The first step moves each weight by about the learning rate.
    assert!(
        (before[0] - after[0]).abs() > 1e-3,
        "weight did not change: {before:?} -> {after:?}"
    );
    // The gradient is positive, so the weight must decrease.
    assert!(after[0] < before[0]);
}

#[test]
fn step_rejects_renamed_parameters() {
    let math = TensorMath { wide: doubles(), narrow: singles(), cast: narrow };
    let model = tiny_model();
    let mut optimizer = MlpAdamOptimizer::new(&math, &model, 0.1f64).ok().unwrap();

    // Same shape and count, different name.
    let mut renamed = Model { varmap: model.varmap, fields: model.fields, names: vec!["renamed".to_string()] };

    let grads = vec![Tensor::vector(vec![1.0f32, 1.0])];
    let result = optimizer.step(&math, &mut renamed, &grads);
    assert!(result.is_err(), "renamed parameter list must be rejected");
    assert!(matches!(result, Err(AdamError::NamesChanged)));
}

#[test]
fn checkpoint_round_trip_restores_step_and_moments() {
    let math = TensorMath { wide: doubles(), narrow: singles(), cast: narrow };
    let mut model = tiny_model();
    let mut saved = MlpAdamOptimizer::new(&math, &model, 1e-3f64).ok().unwrap();

    for step in 1..=5 {
        let g = step as f32 * 0.5;
        assert!(saved.step(&math, &mut model, &vec![Tensor::vector(vec![g, -g])]).is_ok());
    }
    assert_eq!(saved.t, 5);

    let checkpoint = saved.save_checkpoint().ok().unwrap();

    let fresh_model = tiny_model();
    let mut loaded = MlpAdamOptimizer::new(&math, &fresh_model, 1e-3f64).ok().unwrap();
    assert_eq!(loaded.t, 0);

    assert!(loaded.load_checkpoint(&checkpoint).is_ok());

    assert_eq!(loaded.t, 5);
    assert_eq!(loaded.beta1, saved.beta1);
    assert_eq!(loaded.beta2, saved.beta2);
    assert_eq!(loaded.eps, saved.eps);

    let m_saved = &saved.states[0].m.data;
    let v_saved = &saved.states[0].v.data;
    assert_eq!(m_saved, &loaded.states[0].m.data);
    assert_eq!(v_saved, &loaded.states[0].v.data);
    // If both averages were equal, swapped keys would pass unseen.
    assert_ne!(m_saved, v_saved);
}

#[test]
fn resumed_optimizer_matches_uninterrupted_training() {
    let math = TensorMath { wide: doubles(), narrow: singles(), cast: narrow };
    let grad = |s: usize| -> Vec<Tensor<f32>> {
        let g = s as f32 * 0.25;
        vec![Tensor::vector(vec![g, -g])]
    };

    // Straight through, six steps.
    let mut continuous_model = tiny_model();
    let mut continuous = MlpAdamOptimizer::new(&math, &continuous_model, 1e-2f64).ok().unwrap();
    for s in 1..=6 {
        assert!(continuous.step(&math, &mut continuous_model, &grad(s)).is_ok());
    }

    // Three steps, checkpoint, restore into a fresh optimizer, three more.
    let mut resumed_model = tiny_model();
    let mut first_half = MlpAdamOptimizer::new(&math, &resumed_model, 1e-2f64).ok().unwrap();
    for s in 1..=3 {
        assert!(first_half.step(&math, &mut resumed_model, &grad(s)).is_ok());
    }
    let checkpoint = first_half.save_checkpoint().ok().unwrap();

    let mut second_half = MlpAdamOptimizer::new(&math, &resumed_model, 1e-2f64).ok().unwrap();
    assert!(second_half.load_checkpoint(&checkpoint).is_ok());
    for s in 4..=6 {
        assert!(second_half.step(&math, &mut resumed_model, &grad(s)).is_ok());
    }

    let expected = continuous_model.param(0).data.clone();
    let actual = resumed_model.param(0).data.clone();
    for (e, a) in expected.iter().zip(actual.iter()) {
        assert!(
            (e - a).abs() < 1e-6,
            "resumed training diverged: {expected:?} vs {actual:?}"
        );
    }
}

#[test]
fn load_checkpoint_rejects_shape_mismatch() {
    let math = TensorMath { wide: doubles(), narrow: singles(), cast: narrow };
    // Same parameter name, three elements instead of two.
    let mut wide = model_with("w", &[1.0, 2.0, 3.0]);
    let mut wide_opt = MlpAdamOptimizer::new(&math, &wide, 1e-3f64).ok().unwrap();
    assert!(wide_opt.step(&math, &mut wide, &vec![Tensor::vector(vec![1.0f32, 1.0, 1.0])]).is_ok());
    let checkpoint = wide_opt.save_checkpoint().ok().unwrap();

    let narrow_model = tiny_model();
    let mut narrow_opt = MlpAdamOptimizer::new(&math, &narrow_model, 1e-3f64).ok().unwrap();
    let result = narrow_opt.load_checkpoint(&checkpoint);

    assert!(result.is_err(), "shape mismatch must be rejected");
    assert!(matches!(result, Err(LoadError::ShapeMismatch { index: 0 })));
    // The failed load must not have left partial state behind.
    assert_eq!(narrow_opt.t, 0);
}

#[test]
fn load_checkpoint_rejects_missing_parameter() {
    let math = TensorMath { wide: doubles(), narrow: singles(), cast: narrow };
    let mut model = tiny_model();
    let mut opt = MlpAdamOptimizer::new(&math, &model, 1e-3f64).ok().unwrap();
    assert!(opt.step(&math, &mut model, &vec![Tensor::vector(vec![1.0f32, 1.0])]).is_ok());
    let checkpoint = opt.save_checkpoint().ok().unwrap();

    // The weight has another name, so the expected keys are absent.
    let other = model_with("different", &[1.0, 2.0]);
    let mut other_opt = MlpAdamOptimizer::new(&math, &other, 1e-3f64).ok().unwrap();
    let result = other_opt.load_checkpoint(&checkpoint);

    assert!(result.is_err(), "missing moments must be rejected");
    assert!(matches!(result, Err(LoadError::MissingFirst { index: 0 })));
}

#[test]
fn the_learning_rate_is_not_taken_up() {
    let math = TensorMath { wide: doubles(), narrow: singles(), cast: narrow };
    let model = tiny_model();
    let saved = MlpAdamOptimizer::new(&math, &model, 1e-3f64).ok().unwrap();
    let checkpoint = saved.save_checkpoint().ok().unwrap();
    assert_eq!(checkpoint.hparams, Some(vec![1e-3, 0.9, 0.999, 1e-8]));
    assert_eq!(checkpoint.step, Some(vec![0]));
    assert_eq!(checkpoint.moments[0].name, "m.w");
    assert_eq!(checkpoint.moments[1].name, "v.w");
    let mut other: DiffusionAdam<f64, f32> = MlpAdamOptimizer::new(&math, &model, 0.5f64).ok().unwrap();
    assert!(other.load_checkpoint(&checkpoint).is_ok());
    assert_eq!(other.lr, 0.5);
}

#[test]
fn damaged_checkpoints_are_refused() {
    let math = TensorMath { wide: doubles(), narrow: singles(), cast: narrow };
    let model = tiny_model();
    let mut opt = MlpAdamOptimizer::new(&math, &model, 1e-3f64).ok().unwrap();

    let mut c = opt.save_checkpoint().ok().unwrap();
    c.step = None;
    assert!(matches!(opt.load_checkpoint(&c), Err(LoadError::MissingStep)));
    c.step = Some(vec![]);
    assert!(matches!(opt.load_checkpoint(&c), Err(LoadError::EmptyStep)));
    c.step = Some(vec![-4]);
    assert!(matches!(opt.load_checkpoint(&c), Err(LoadError::NegativeStep { step: -4 })));
    c.step = Some(vec![4]);
    c.hparams = None;
    assert!(matches!(opt.load_checkpoint(&c), Err(LoadError::MissingHparams)));
    c.hparams = Some(vec![1.0, 2.0]);
    assert!(matches!(opt.load_checkpoint(&c), Err(LoadError::HparamsCount { count: 2 })));
    c.hparams = Some(vec![1.0, 2.0, 3.0, 4.0]);
    c.moments.pop();
    assert!(matches!(opt.load_checkpoint(&c), Err(LoadError::MissingSecond { index: 0 })));
    assert_eq!(opt.t, 0);
    assert_eq!(opt.beta1, 0.9);
}

#[test]
fn steps_report_what_does_not_fit() {
    let math = TensorMath { wide: doubles(), narrow: singles(), cast: narrow };
    let mut model = tiny_model();
    let mut opt = MlpAdamOptimizer::new(&math, &model, 1e-3f64).ok().unwrap();

    assert!(matches!(
        opt.step(&math, &mut model, &vec![]),
        Err(AdamError::GradientCount { grads: 0, params: 1 })
    ));
    // The counter moves on even if the step is refused.
    assert_eq!(opt.t, 1);
    assert!(matches!(
        opt.step(&math, &mut model, &vec![Tensor::vector(vec![1.0f32])]),
        Err(AdamError::Shape { index: 0 })
    ));
    let whole = Tensor { dims: vec![2], data: vec![1.0f32, 1.0], is_float: false };
    assert!(matches!(opt.step(&math, &mut model, &vec![whole]), Err(AdamError::Kind { index: 0 })));
    let mut empty: Model<f32> = Model::new();
    assert!(matches!(
        opt.step(&math, &mut empty, &vec![]),
        Err(AdamError::StateCount { states: 1, params: 0 })
    ));
    assert_eq!(model.param(0).data, vec![1.0, 2.0]);

    let mut unnamed = tiny_model();
    unnamed.names = vec![];
    assert!(matches!(
        MlpAdamOptimizer::new(&math, &unnamed, 1e-3f64),
        Err(AdamError::NameCount { names: 0, params: 1 })
    ));

    let mut astray = tiny_model();
    astray.names = vec!["x".to_string()];
    let mut lost = MlpAdamOptimizer::new(&math, &astray, 1e-3f64).ok().unwrap();
    assert!(matches!(
        lost.step(&math, &mut astray, &vec![Tensor::vector(vec![1.0f32, 1.0])]),
        Err(AdamError::Store { index: 0, error: StoreError::NotRegistered })
    ));

    // A weight without elements stays the tensor in its slot, which is not written over itself.
    let mut hollow = model_with("w", &[]);
    let mut idle = MlpAdamOptimizer::new(&math, &hollow, 1e-3f64).ok().unwrap();
    assert!(matches!(
        idle.step(&math, &mut hollow, &vec![Tensor::vector(vec![])]),
        Err(AdamError::Store { index: 0, error: StoreError::SameSlot })
    ));
}

#[test]
fn first_step_has_its_exact_value() {
    let math = TensorMath { wide: doubles(), narrow: singles(), cast: narrow };
    let mut model = model_with("w", &[1.0]);
    let mut opt = MlpAdamOptimizer::new(&math, &model, 0.1f64).ok().unwrap();
    assert!(opt.step(&math, &mut model, &vec![Tensor::vector(vec![2.0f32])]).is_ok());
    // The average is 0.1 * 2 and is made up for by a factor of ten, and likewise for the squares,
    // so that the weight moves by 0.1 * 2 / sqrt(4).
    assert!((opt.states[0].m.data[0] - 0.2).abs() < 1e-6);
    assert!((opt.states[0].v.data[0] - 0.004).abs() < 1e-6);
    assert!((model.param(0).data[0] - 0.9).abs() < 1e-5);
}
