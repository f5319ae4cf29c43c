use llm_scratch_rs::ema::{Ema, EmaError};
use llm_scratch_rs::numbers::{Arithmetic, Numbers, Question, Term};
use llm_scratch_rs::parameterized::{Model, Parameterized};
use llm_scratch_rs::tensor::{Tensor, TensorMath};
use llm_scratch_rs::varstore::{StoreError, VarStore};

fn singles() -> impl Arithmetic<Num = f32> {
    Numbers::new(
        |term: Term<f32>| match term {
            Term::Add(a, b) => a + b,
            Term::Sub(a, b) => a - b,
            Term::Mul(a, b) => a * b,
            Term::Div(a, b) => a / b,
            Term::Max(a, b) => a.max(b),
            Term::Min(a, b) => a.min(b),
            Term::Pow(a, b) => a.powf(b),
            Term::PowInt(a, k) => a.powi(k as i32),
            Term::Neg(a) => -a,
            Term::Sqrt(a) => a.sqrt(),
            Term::Exp(a) => a.exp(),
            Term::Ln(a) => a.ln(),
            Term::Cos(a) => a.cos(),
            Term::Count(k) => k as f32,
            Term::Decimal(m, k) => (m as f64 / 10f64.powi(k as i32)) as f32,
            Term::NegInfinity => f32::NEG_INFINITY,
            Term::Pi => std::f32::consts::PI,
        },
        |question: Question<f32>| match question {
            Question::Less(a, b) => a < b,
            Question::Equal(a, b) => a == b,
        },
    )
}

fn doubles() -> impl Arithmetic<Num = f64> {
    Numbers::new(
        |term: Term<f64>| match term {
            Term::Add(a, b) => a + b,
            Term::Sub(a, b) => a - b,
            Term::Mul(a, b) => a * b,
            Term::Div(a, b) => a / b,
            Term::Max(a, b) => a.max(b),
            Term::Min(a, b) => a.min(b),
            Term::Pow(a, b) => a.powf(b),
            Term::PowInt(a, k) => a.powi(k as i32),
            Term::Neg(a) => -a,
            Term::Sqrt(a) => a.sqrt(),
            Term::Exp(a) => a.exp(),
            Term::Ln(a) => a.ln(),
            Term::Cos(a) => a.cos(),
            Term::Count(k) => k as f64,
            Term::Decimal(m, k) => m as f64 / 10f64.powi(k as i32),
            Term::NegInfinity => f64::NEG_INFINITY,
            Term::Pi => std::f64::consts::PI,
        },
        |question: Question<f64>| match question {
            Question::Less(a, b) => a < b,
            Question::Equal(a, b) => a == b,
        },
    )
}

fn fake_model(w: &[f32], b: &[f32]) -> Model<f32> {
    let mut model = Model::new();
    assert!(model.add_param("w", Tensor::vector(w.to_vec())).is_ok());
    assert!(model.add_param("b", Tensor::vector(b.to_vec())).is_ok());
    model
}

fn narrow(x: f64) -> f32 {
    x as f32
}

#[test]
fn ema_warmup_and_store_restore_cycle() {
    let math = TensorMath { wide: doubles(), narrow: singles(), cast: narrow };
    let mut model = fake_model(&[1.0, 2.0], &[0.5]);

    let mut ema = Ema::new(&model, 0.9999f64).ok().unwrap();
    assert_eq!(ema.shadow_params[0].data, vec![1.0, 2.0]);

    // Move the live weights, then fold them in.
    assert!(model.set_param("w", &Tensor::vector(vec![3.0, 4.0])).is_ok());
    // The weight as the model reads it must show the write.
    assert_eq!(model.param(0).data, vec![3.0, 4.0]);

    assert!(ema.update(&math, &model).is_ok());

    // No samples yet, so the effective decay is 1/10 = 0.1:
    // shadow = 0.1 * 1.0 + 0.9 * 3.0 = 2.8
    let shadow_w = ema.shadow_params[0].data.clone();
    assert!((shadow_w[0] - 2.8).abs() < 1e-4);
    assert_eq!(ema.num_samples, 1);

    // Putting aside, swapping and putting back.
    assert!(ema.store(&model).is_ok());
    assert!(ema.copy_to_model(&mut model).is_ok());
    let copied_w = model.param(0).data.clone();
    assert!((copied_w[0] - 2.8).abs() < 1e-4);
    assert!((copied_w[1] - 3.8).abs() < 1e-4);

    assert!(ema.restore(&mut model).is_ok());
    assert_eq!(model.param(0).data, vec![3.0, 4.0]);
}

#[test]
fn shadow_does_not_alias_live_parameters() {
    let mut model = fake_model(&[1.0, 2.0], &[0.5]);
    let ema = Ema::new(&model, 0.999f64).ok().unwrap();

    assert!(model.set_param("w", &Tensor::vector(vec![99.0, 99.0])).is_ok());

    assert_eq!(ema.shadow_params[0].data, vec![1.0, 2.0]);
}

#[test]
fn ema_refuses_what_it_cannot_average() {
    let empty: Model<f32> = Model::new();
    assert!(matches!(Ema::<f64, f32>::new(&empty, 0.9), Err(EmaError::NoParameters)));

    let mut whole = Model::new();
    let ids = Tensor { dims: vec![2], data: vec![1.0f32, 2.0], is_float: false };
    assert!(whole.add_param("ids", ids).is_ok());
    assert!(matches!(Ema::new(&whole, 0.9f64), Err(EmaError::NotFloat)));
}

#[test]
fn ema_update_reports_count_and_shape() {
    let math = TensorMath { wide: doubles(), narrow: singles(), cast: narrow };
    let model = fake_model(&[1.0, 2.0], &[0.5]);
    let mut ema = Ema::new(&model, 0.9f64).ok().unwrap();

    let mut small = Model::new();
    assert!(small.add_param("w", Tensor::vector(vec![1.0f32, 2.0])).is_ok());
    assert!(matches!(ema.update(&math, &small), Err(EmaError::CountMismatch { expected: 2, got: 1 })));

    let wide = fake_model(&[3.0, 4.0], &[0.5, 0.5]);
    assert!(matches!(ema.update(&math, &wide), Err(EmaError::DimensionMismatch { index: 1 })));
    // The first average was folded before the second one failed.
    assert!((ema.shadow_params[0].data[0] - 2.8).abs() < 1e-4);
    assert_eq!(ema.num_samples, 0);
}

#[test]
fn restore_needs_a_backup_and_uses_it_up() {
    let mut model = fake_model(&[1.0, 2.0], &[0.5]);
    let mut ema = Ema::new(&model, 0.9f64).ok().unwrap();
    assert!(matches!(ema.restore(&mut model), Err(EmaError::NoBackup)));
    assert!(ema.store(&model).is_ok());
    assert!(ema.restore(&mut model).is_ok());
    assert!(matches!(ema.restore(&mut model), Err(EmaError::NoBackup)));
}

#[test]
fn writing_averages_reports_what_is_wrong() {
    let model = fake_model(&[1.0, 2.0], &[0.5]);
    let ema = Ema::new(&model, 0.9f64).ok().unwrap();

    let mut renamed = fake_model(&[1.0, 2.0], &[0.5]);
    renamed.names = vec!["w".to_string(), "other".to_string()];
    assert!(matches!(
        ema.copy_to_model(&mut renamed),
        Err(EmaError::Store { index: 1, error: StoreError::NotRegistered })
    ));

    let mut short = fake_model(&[1.0, 2.0], &[0.5]);
    short.names = vec!["w".to_string()];
    match ema.copy_to_model(&mut short) {
        Err(EmaError::Names(count)) => {
            assert_eq!(count.names, 1);
            assert_eq!(count.params, 2);
        }
        _ => panic!("one name for two weights"),
    }

    let mut reshaped = fake_model(&[1.0, 2.0, 3.0], &[0.5]);
    assert!(matches!(ema.copy_to_model(&mut reshaped), Err(EmaError::DimensionMismatch { index: 0 })));
}

#[test]
fn store_keeps_names_and_shapes_apart() {
    let mut store = VarStore::new();
    assert_eq!(store.register("w", Tensor::vector(vec![1.0f32, 2.0])).ok(), Some(0));
    assert_eq!(store.register("b", Tensor::vector(vec![3.0f32])).ok(), Some(1));
    assert!(matches!(store.register("w", Tensor::vector(vec![9.0f32])), Err(StoreError::Duplicate)));
    assert!(matches!(store.get("missing"), Err(StoreError::NotRegistered)));
    assert!(matches!(store.set("missing", &Tensor::vector(vec![1.0])), Err(StoreError::NotRegistered)));
    assert!(matches!(store.set("b", &Tensor::vector(vec![1.0, 2.0])), Err(StoreError::ShapeMismatch)));
    assert!(store.set("b", &Tensor::vector(vec![7.0])).is_ok());
    assert_eq!(store.read(1).data, vec![7.0]);
    assert_eq!(store.get("w").ok(), Some(0));
    assert_eq!(store.read(0).data, vec![1.0, 2.0]);
}

#[test]
fn what_is_looked_up_shows_later_writes() {
    let mut store = VarStore::new();
    assert!(store.register("w", Tensor::vector(vec![1.0f32, 2.0])).is_ok());
    assert!(store.register("u", Tensor::vector(vec![5.0f32, 6.0])).is_ok());
    let w = store.get("w").ok().unwrap();
    assert!(store.set("w", &Tensor::vector(vec![7.0, 8.0])).is_ok());
    assert_eq!(store.read(w).data, vec![7.0, 8.0]);
    // A tensor is not written over itself; a copy of it is, and so is another tensor of the store.
    assert!(matches!(store.set_from_slot("w", w), Err(StoreError::SameSlot)));
    let copy = store.read(w).copy();
    assert!(store.set("w", &copy).is_ok());
    let u = store.get("u").ok().unwrap();
    assert!(store.set_from_slot("w", u).is_ok());
    assert_eq!(store.read(w).data, vec![5.0, 6.0]);
    assert!(matches!(store.set_from_slot("missing", u), Err(StoreError::NotRegistered)));
}

#[test]
fn kinds_of_numbers_do_not_mix() {
    let math = TensorMath { wide: doubles(), narrow: singles(), cast: narrow };
    let whole = Tensor { dims: vec![2], data: vec![3.0f32, 4.0], is_float: false };
    let mut model = fake_model(&[1.0, 2.0], &[0.5]);
    assert!(matches!(model.set_param("w", &whole), Err(StoreError::KindMismatch)));
    assert_eq!(model.param(0).data, vec![1.0, 2.0]);
    assert!(matches!(model.set_param_from_slot("w", 0), Err(StoreError::SameSlot)));
    assert!(matches!(model.set_param_from_slot("w", 1), Err(StoreError::ShapeMismatch)));

    let mut ema = Ema::new(&model, 0.9f64).ok().unwrap();
    let mut mixed = Model::new();
    assert!(mixed.add_param("w", whole).is_ok());
    assert!(mixed.add_param("b", Tensor::vector(vec![0.5f32])).is_ok());
    assert!(matches!(ema.update(&math, &mixed), Err(EmaError::KindMismatch { index: 0 })));
    assert_eq!(ema.num_samples, 0);
    assert!(matches!(
        ema.copy_to_model(&mut mixed),
        Err(EmaError::Store { index: 0, error: StoreError::KindMismatch })
    ));
}

#[test]
fn named_params_pairs_names_with_weights() {
    let model = fake_model(&[1.0, 2.0], &[0.5]);
    let named = model.named_params().ok().unwrap();
    assert_eq!(named.len(), 2);
    assert_eq!(named[1].0, "b");
    assert_eq!(named[1].1.data, vec![0.5]);
    assert_eq!(model.get("b").ok(), Some(1));
    assert_eq!(model.read(1).data, vec![0.5]);
    assert_eq!(model.param_names(), vec!["w".to_string(), "b".to_string()]);
}
