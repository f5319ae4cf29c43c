use llm_scratch_rs::dataloader::DataLoader;
use llm_scratch_rs::diffusion::image_grid::assemble;
use llm_scratch_rs::diffusion::one_hot::make_one_hot_cfg;
use llm_scratch_rs::diffusion::training::{
    diagnostic_timesteps, find_clip_factor, frame_path, noisy_path, rate_at, reconstruct, reconstruction_path,
    reports_at, saves_at, scale_gradients,
};
use llm_scratch_rs::evaluation::{batch_count, calc_accuracy, calc_loss_loader, predict, TrainingClock};
use llm_scratch_rs::numbers::{Arithmetic, Numbers, Question, Term};
use llm_scratch_rs::tensor::{Tensor, TensorMath};

fn singles() -> impl Arithmetic<Num = f32> {
    Numbers::new(
        |term: Term<f32>| match term {
            Term::Add(a, b) => a + b,
            Term::Sub(a, b) => a - b,
            Term::Mul(a, b) => a * b,
            Term::Div(a, b) => a / b,
            Term::Max(a, b) => a.max(b),
            Term::Min(a, b) => a.min(b),
            Term::Pow(a, b) => a.powf(b),
            Term::PowInt(a, k) => a.powi(k as i32),
            Term::Neg(a) => -a,
            Term::Sqrt(a) => a.sqrt(),
            Term::Exp(a) => a.exp(),
            Term::Ln(a) => a.ln(),
            Term::Cos(a) => a.cos(),
            Term::Count(k) => k as f32,
            Term::Decimal(m, k) => (m as f64 / 10f64.powi(k as i32)) as f32,
            Term::NegInfinity => f32::NEG_INFINITY,
            Term::Pi => std::f32::consts::PI,
        },
        |question: Question<f32>| match question {
            Question::Less(a, b) => a < b,
            Question::Equal(a, b) => a == b,
        },
    )
}

fn doubles() -> impl Arithmetic<Num = f64> {
    Numbers::new(
        |term: Term<f64>| match term {
            Term::Add(a, b) => a + b,
            Term::Sub(a, b) => a - b,
            Term::Mul(a, b) => a * b,
            Term::Div(a, b) => a / b,
            Term::Max(a, b) => a.max(b),
            Term::Min(a, b) => a.min(b),
            Term::Pow(a, b) => a.powf(b),
            Term::PowInt(a, k) => a.powi(k as i32),
            Term::Neg(a) => -a,
            Term::Sqrt(a) => a.sqrt(),
            Term::Exp(a) => a.exp(),
            Term::Ln(a) => a.ln(),
            Term::Cos(a) => a.cos(),
            Term::Count(k) => k as f64,
            Term::Decimal(m, k) => m as f64 / 10f64.powi(k as i32),
            Term::NegInfinity => f64::NEG_INFINITY,
            Term::Pi => std::f64::consts::PI,
        },
        |question: Question<f64>| match question {
            Question::Less(a, b) => a < b,
            Question::Equal(a, b) => a == b,
        },
    )
}

fn narrow(x: f64) -> f32 {
    x as f32
}

fn bits(x: &[f32]) -> Vec<u32> {
    x.iter().map(|v| v.to_bits()).collect()
}

#[test]
fn mean_loss_over_the_first_windows() {
    let n = singles();
    let loader = DataLoader::new(vec![0, 1, 0, 1], 2, 1);
    assert_eq!(loader.len(), 2);
    let even = vec![vec![0.0f32, 0.0], vec![0.0, 0.0]];
    let logits = vec![even.clone(), even];
    let loss = calc_loss_loader(&n, &logits, &loader, 10);
    assert!((loss - 2f32.ln()).abs() < 1e-5);
    assert_eq!(batch_count(&loader, 0), 1);
    assert_eq!(batch_count(&loader, 10), 2);
    let empty = DataLoader::new(vec![0, 1], 2, 1);
    assert_eq!(calc_loss_loader(&n, &vec![], &empty, 10), 0.0);
}

#[test]
fn accuracy_counts_predicted_targets() {
    let n = singles();
    let loader = DataLoader::new(vec![0, 1, 0], 2, 1);
    // The targets are 1 and 0; the first row predicts 1, the second predicts 1.
    let logits = vec![vec![bits(&[0.0, 1.0]), bits(&[0.0, 1.0])]];
    assert_eq!(calc_accuracy(&n, &logits, &loader), 50.0);
    assert_eq!(predict(&bits(&[3.0, 5.0, 5.0])), 1);
    assert_eq!(predict(&bits(&[])), 0);
    assert_eq!(calc_accuracy(&n, &vec![], &DataLoader::new(vec![], 2, 1)), 0.0);
}

#[test]
fn the_clock_runs_through_all_epochs() {
    let mut clock = TrainingClock::new(2, 3);
    let mut seen = Vec::new();
    while let Some(t) = clock.tick() {
        seen.push((t.epoch, t.batch, t.global_step));
    }
    assert_eq!(seen, vec![(1, 0, 0), (1, 1, 1), (1, 2, 2), (2, 0, 3), (2, 1, 4), (2, 2, 5)]);
    assert!(TrainingClock::new(5, 0).tick().is_none());
}

#[test]
fn dropped_labels_leave_zeros() {
    let hot = make_one_hot_cfg(&vec![3, 0], &bits(&[0.9, 0.15]), 0.15f32.to_bits());
    let mut expected = vec![0.0f32; 20];
    expected[3] = 1.0;
    assert_eq!(hot, bits(&expected));
}

#[test]
fn pictures_stand_beside_each_other() {
    let mut pixels = vec![0u8; 4 * 784];
    // The first pixel of the second picture, and the last of the third.
    pixels[784] = 7;
    pixels[3 * 784 - 1] = 9;
    let large = assemble(&pixels, 2, 2);
    assert_eq!(large.len(), 4 * 784);
    assert_eq!(large[28], 7);
    assert_eq!(large[55 * 56 + 27], 9);
    assert_eq!(large.iter().filter(|p| **p != 0).count(), 2);
}

#[test]
fn epochs_report_and_save() {
    assert!(reports_at(1) && reports_at(200) && !reports_at(2));
    assert!(saves_at(500) && !saves_at(1));
    assert_eq!(diagnostic_timesteps(), vec![20, 50, 80]);
    assert_eq!(noisy_path(20), "unet_recon/noisy_t020.png");
    assert_eq!(reconstruction_path(80), "unet_recon/recon_t080.png");
    assert_eq!(frame_path("unet_frames", 7), "unet_frames/frame_007.png");
}

#[test]
fn the_rate_of_an_epoch() {
    let n = doubles();
    assert!((rate_at(&n, 250, 25000) - 5e-5).abs() < 1e-12);
    assert!((rate_at(&n, 500, 25000) - 1e-4).abs() < 1e-12);
    assert!((rate_at(&n, 25000, 25000) - 1e-6).abs() < 1e-12);
}

#[test]
fn long_gradients_are_scaled_down() {
    let math = TensorMath { wide: doubles(), narrow: singles(), cast: narrow };
    assert!(find_clip_factor(&math.narrow, 1.0, 1.0).is_none());
    let factor = find_clip_factor(&math.narrow, 4.0, 1.0).unwrap();
    assert!((factor - 0.25).abs() < 1e-6);
    let scaled = scale_gradients(&math, &vec![Tensor::vector(vec![4.0f32, 8.0])], 0.25);
    assert_eq!(scaled[0].data, vec![1.0, 2.0]);
}

#[test]
fn noise_is_taken_out() {
    let math = TensorMath { wide: doubles(), narrow: singles(), cast: narrow };
    // Half image, half noise in squares: x = sqrt(1/2) * 3 + sqrt(1/2) * 1.
    let share = 0.5f32.sqrt();
    let noisy = Tensor::vector(vec![share * 3.0 + share]);
    let image = reconstruct(&math, &noisy, &Tensor::vector(vec![1.0]), 0.5);
    assert!((image.data[0] - 3.0).abs() < 1e-5);
}
