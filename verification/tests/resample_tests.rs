use llm_scratch_rs::resample::checkpoints::{
    averaged_preview, epoch_files, epoch_of, find_latest, resume_epoch, start_epoch,
};
use llm_scratch_rs::resample::cli::{parse_cli, CliError, Config, Mode, Parsed, SamplerKind};
use llm_scratch_rs::resample::run::{plans, Action, Plan, SamplerRun};

fn parse(args: &[&str]) -> Result<Parsed<Config>, CliError> {
    let texts: Vec<String> = args.iter().map(|a| a.to_string()).collect();
    let numbers = args.iter().map(|a| a.parse::<f64>().ok().map(f64::to_bits)).collect();
    parse_cli(&texts, &numbers)
}

fn config(args: &[&str]) -> Config {
    match parse(args) {
        Ok(Parsed::Run(c)) => c,
        _ => panic!("a configuration was expected"),
    }
}

fn message(args: &[&str]) -> String {
    let texts: Vec<String> = args.iter().map(|a| a.to_string()).collect();
    match parse(args) {
        Err(e) => e.message(&texts),
        Ok(_) => panic!("a refusal was expected"),
    }
}

#[test]
fn defaults_fill_what_is_not_asked_for() {
    let c = config(&[]);
    assert!(c.checkpoint.is_none());
    assert_eq!(c.start_timestep, 99);
    assert_eq!(c.sample_class, 3);
    assert_eq!(f64::from_bits(c.guidance_scale), 2.5);
    assert!(c.mode == Mode::Single(SamplerKind::DpmSolver2m, 8));
}

#[test]
fn options_are_read_in_both_spellings() {
    let c = config(&["--sampler", "ddim", "-g", "1.5", "-c", "7", "--start", "50", "-k", "file"]);
    assert!(c.mode == Mode::Single(SamplerKind::Ddim, 20));
    assert_eq!(f64::from_bits(c.guidance_scale), 1.5);
    assert_eq!(c.sample_class, 7);
    assert_eq!(c.start_timestep, 50);
    assert_eq!(c.checkpoint.as_deref(), Some("file"));
    assert!(config(&["-s", "ddpm"]).mode == Mode::Single(SamplerKind::Ddpm, 100));
    assert!(config(&["-s", "dpm", "-n", "12"]).mode == Mode::Single(SamplerKind::DpmSolver2m, 12));
    for all in ["all", "compare", "benchmark"] {
        assert!(config(&["--sampler", all]).mode == Mode::BenchmarkAll);
    }
}

#[test]
fn free_values_are_checkpoint_and_start() {
    let c = config(&["weights", "40", "ignored"]);
    assert_eq!(c.checkpoint.as_deref(), Some("weights"));
    assert_eq!(c.start_timestep, 40);
    // An option that is given twice counts as it was given last.
    assert_eq!(config(&["--start", "1", "--start", "2"]).start_timestep, 2);
}

#[test]
fn refusals_say_why() {
    assert_eq!(message(&["--sampler"]), "missing value for --sampler");
    assert_eq!(message(&["-n", "many"]), "invalid integer for --steps");
    assert_eq!(message(&["-g", "strong"]), "invalid float for --guidance");
    assert_eq!(message(&["-c", "-1"]), "invalid integer for --class");
    assert_eq!(message(&["weights", "late"]), "invalid start timestep");
    assert_eq!(message(&["--fast"]), "unknown option '--fast'. Run with --help for usage.");
    assert!(matches!(parse(&["-s", "euler"]), Err(CliError::UnknownSampler)));
    assert!(matches!(parse(&["-c", "2", "--help", "--nonsense"]), Ok(Parsed::Help)));
}

#[test]
fn the_latest_checkpoint_is_found() {
    let names: Vec<String> = ["epoch_0900.safetensors", "ema_epoch_0500.safetensors", "ema_epoch_1000.safetensors",
        "ema_epoch_late.safetensors", "ema_epoch_0750.safetensors"]
        .iter()
        .map(|s| s.to_string())
        .collect();
    assert_eq!(find_latest(&names), Some(2));
    assert_eq!(find_latest(&vec![]), None);
    assert_eq!(epoch_of("ema_epoch_0500.safetensors"), Some(500));
    assert_eq!(epoch_of("ema_epoch_.safetensors"), None);
    assert_eq!(epoch_of("ema_epoch_7.bin"), None);
}

#[test]
fn files_of_an_epoch() {
    let files = epoch_files(500);
    assert_eq!(files.weights, "unet_checkpoints/epoch_0500.safetensors");
    assert_eq!(files.optimizer, "unet_checkpoints/opt_epoch_0500.safetensors");
    assert_eq!(files.averaged, "unet_checkpoints/ema_epoch_0500.safetensors");
    assert_eq!(files.preview, "unet_checkpoints/epoch_0500_online_grid.png");
    assert_eq!(averaged_preview(25000, "1"), "unet_checkpoints/epoch_25000_s1_grid.png");
}

#[test]
fn training_goes_on_behind_a_found_epoch() {
    let args = vec!["program".to_string(), "500".to_string()];
    assert_eq!(resume_epoch(&args), Some(500));
    assert_eq!(resume_epoch(&vec!["program".to_string()]), None);
    assert_eq!(start_epoch(Some(500), true), 501);
    assert_eq!(start_epoch(Some(500), false), 1);
    assert_eq!(start_epoch(None, false), 1);
}

#[test]
fn a_run_draws_every_class_once() {
    let mut run = SamplerRun::new(SamplerKind::Ddim, 50, 3);
    assert_eq!(run.output_dir(), "unet_resampled_ddim_t050");
    assert_eq!(run.frame_path(4), "unet_resampled_ddim_t050/frame_04.png");
    assert_eq!(run.preview_path("2.5"), "unet_resampled_ddim_t050/sample_class3_scale2.5.png");
    assert_eq!(run.digit_path(9), "unet_resampled_ddim_t050/digit_9.png");
    assert_eq!(run.grid_path(), "unet_resampled_ddim_t050/all_digits_0_to_9_ddim.png");
    let mut classes = Vec::new();
    loop {
        match run.next_action() {
            Action::Draw { class, frames } => {
                classes.push((class, frames));
                run.image_drawn(&vec![class as u32, 100]);
            }
            Action::SaveGrid { rows, cols } => {
                assert_eq!((rows, cols), (2, 5));
                run.grid_saved();
            }
            Action::Stop => break,
        }
    }
    assert_eq!(classes[0], (3, true));
    let digits: Vec<usize> = classes[1..].iter().map(|c| c.0).collect();
    assert_eq!(digits, (0..10).collect::<Vec<_>>());
    assert_eq!(run.all_digits.len(), 20);
    assert_eq!(run.all_digits[..4], [0, 100, 1, 100]);
}

#[test]
fn the_benchmark_runs_all_samplers() {
    let list = plans(Mode::BenchmarkAll);
    assert!(list[0] == Plan { sampler: SamplerKind::Ddpm, steps: 100 });
    assert!(list[1] == Plan { sampler: SamplerKind::Ddim, steps: 20 });
    assert!(list[2] == Plan { sampler: SamplerKind::DpmSolver2m, steps: 8 });
    assert_eq!(plans(Mode::Single(SamplerKind::Ddim, 5)).len(), 1);
}
