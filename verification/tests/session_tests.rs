use llm_scratch_rs::corpus::{excerpt, find_phrase, split_tokens};
use llm_scratch_rs::diffusion::batch::{drop_labels, gather_labels, join_inputs};
use llm_scratch_rs::diffusion::session::{drawing_path, drawings, setup, Drawing, Session, Task, Trainer};
use llm_scratch_rs::diffusion::transformer_runs::{
    blend, class_path, find_number, find_value, find_weights, first_step, lookbook_path, milestone, morph_path,
    plan_resume, plan_tour, sweep_path, trim_ending, weights_path, Resume, Tour,
};
use llm_scratch_rs::evaluation::reports_after;
use llm_scratch_rs::generation::{crop, Decoding, Generation};
use llm_scratch_rs::lr_scheduler::{experiments, LRScheduler};
use llm_scratch_rs::numbers::{Arithmetic, Numbers, Question, Term};

fn singles() -> impl Arithmetic<Num = f32> {
    Numbers::new(
        |term: Term<f32>| match term {
            Term::Add(a, b) => a + b,
            Term::Sub(a, b) => a - b,
            Term::Mul(a, b) => a * b,
            Term::Div(a, b) => a / b,
            Term::Count(k) => k as f32,
            Term::Decimal(m, k) => (m as f64 / 10f64.powi(k as i32)) as f32,
            _ => f32::NAN,
        },
        |question: Question<f32>| match question {
            Question::Less(a, b) => a < b,
            Question::Equal(a, b) => a == b,
        },
    )
}

fn bits() -> impl Arithmetic<Num = u32> {
    Numbers::new(
        |term: Term<u32>| match term {
            Term::Decimal(m, k) => ((m as f64 / 10f64.powi(k as i32)) as f32).to_bits(),
            _ => f32::NAN.to_bits(),
        },
        |question: Question<u32>| match question {
            Question::Less(a, b) => f32::from_bits(a) < f32::from_bits(b),
            Question::Equal(a, b) => f32::from_bits(a) == f32::from_bits(b),
        },
    )
}

fn words(text: &str) -> Vec<String> {
    text.split(' ').map(str::to_string).collect()
}

#[test]
fn a_context_is_the_end_of_the_sequence() {
    assert_eq!(crop(&vec![1, 2, 3, 4], 2), vec![3, 4]);
    assert_eq!(crop(&vec![1, 2], 2), vec![1, 2]);
    assert_eq!(crop(&vec![1], 2), vec![1]);
    assert_eq!(crop(&vec![1, 2], 0), Vec::<usize>::new());
}

#[test]
fn generation_appends_behind_the_prompt() {
    let n = bits();
    let greedy = Decoding { temperature: 0, top_k: None, top_p: None };
    let mut generation = Generation::new(vec![7, 8], 2, 2);
    assert_eq!(generation.next_context(), Some(vec![7, 8]));
    let first = vec![vec![0, 0, 0], vec![1.0f32.to_bits(), 3.0f32.to_bits(), 2.0f32.to_bits()]];
    assert_eq!(generation.extend(&n, &first, greedy, 0), 1);
    assert_eq!(generation.next_context(), Some(vec![8, 1]));
    let second = vec![vec![5.0f32.to_bits(), 0, 0]];
    assert_eq!(generation.extend(&n, &second, greedy, 0), 0);
    assert_eq!(generation.next_context(), None);
    assert_eq!(generation.tokens, vec![7, 8, 1, 0]);
}

#[test]
fn an_excerpt_starts_at_the_first_place_of_a_phrase() {
    let text = b"one two one two".to_vec();
    assert_eq!(find_phrase(&text, &b"two".to_vec()), Some(4));
    assert_eq!(find_phrase(&text, &b"three".to_vec()), None);
    assert_eq!(find_phrase(&text, &Vec::new()), Some(0));
    assert_eq!(find_phrase(&b"ab".to_vec(), &b"abc".to_vec()), None);
    assert_eq!(find_phrase(&b"aab".to_vec(), &b"ab".to_vec()), Some(1));
    assert_eq!(excerpt(&text, 4, 7), b"two one".to_vec());
}

#[test]
fn a_split_keeps_the_order() {
    let split = split_tokens(&vec![5, 6, 7, 8, 9], 4);
    assert_eq!(split.train, vec![5, 6, 7, 8]);
    assert_eq!(split.validation, vec![9]);
}

#[test]
fn losses_are_reported_after_the_first_every_tenth_and_the_last_epoch() {
    let reported: Vec<usize> = (1..=25).filter(|e| reports_after(*e, 25)).collect();
    assert_eq!(reported, vec![1, 10, 20, 25]);
}

#[test]
fn four_schedules_are_held_against_each_other() {
    let all = experiments(&singles(), 100, 30, 300);
    assert_eq!(all.len(), 4);
    assert!(matches!(all[0], LRScheduler::Constant { lr } if lr == 3e-4));
    assert!(matches!(all[1], LRScheduler::StepDecay { step_size: 450, .. }));
    assert!(matches!(all[2], LRScheduler::ExponentialDecay { decay_rate, .. } if decay_rate == 0.999));
    assert!(matches!(all[3], LRScheduler::CosineWarmup { warmup_steps: 300, total_steps: 3000, .. }));
}

#[test]
fn settings_of_sessions() {
    assert_eq!(setup(Trainer::Plain, false).input_dim(), 800);
    assert_eq!(setup(Trainer::Conditional, true).input_dim(), 810);
    assert_eq!(setup(Trainer::Conditional, true).batch_size, 128);
    assert_eq!(setup(Trainer::FiveLayers, true).batch_size, 256);
    assert_eq!(setup(Trainer::Guided, false).epochs, 12000);
    assert!(setup(Trainer::Guided, false).drops_labels);
    assert!(!setup(Trainer::Conditional, false).drops_labels);
    assert_eq!(setup(Trainer::UNet, false).report_every, 10);
}

#[test]
fn a_session_trains_and_then_draws() {
    let mut session = Session::new(Trainer::UNet, false);
    let mut steps = 0;
    let mut reports = Vec::new();
    let mut files = Vec::new();
    while let Some(task) = session.next_task() {
        match task {
            Task::Step { epoch, report } => {
                assert!(files.is_empty());
                steps += 1;
                assert_eq!(epoch, steps);
                if report {
                    reports.push(epoch);
                }
            }
            Task::Draw(drawing) => files.push(drawing_path(Trainer::UNet, drawing)),
        }
    }
    assert_eq!(steps, 1000);
    assert_eq!(reports[..3], [1, 10, 20]);
    assert_eq!(
        files,
        vec![
            "mnist_cfg_unet_generated_s0.png",
            "mnist_cfg_unet_generated_s1.png",
            "mnist_cfg_unet_generated_s3.png",
            "unet_frames",
        ]
    );
}

#[test]
fn drawings_have_their_files() {
    let guided = Drawing::Guided(3);
    assert_eq!(drawing_path(Trainer::Guided, guided), "mnist_cfg_generated.png");
    assert_eq!(drawing_path(Trainer::Convolutional, guided), "mnist_cfg_generated_s3.png");
    assert_eq!(drawing_path(Trainer::FiveLayers, guided), "mnist_cfg_5layers_generated_s3.png");
    assert_eq!(drawing_path(Trainer::Plain, Drawing::Unconditional), "mnist_generated.png");
    assert_eq!(drawing_path(Trainer::Conditional, Drawing::Conditional), "mnist_cond_generated.png");
    assert_eq!(drawings(Trainer::Plain).len(), 1);
    assert_eq!(drawings(Trainer::FiveLayers).len(), 3);
}

#[test]
fn labels_stay_with_their_images() {
    assert_eq!(gather_labels(&vec![4, 5, 6], &vec![2, 0, 2]), vec![6, 4, 6]);
    assert_eq!(drop_labels(&singles(), &vec![4, 5, 6], &vec![0.1, 0.15, 0.9], 0.15), vec![10, 5, 6]);
}

#[test]
fn inputs_stand_side_by_side() {
    let joined = join_inputs(&vec![vec![1.0, 2.0]], &vec![vec![3.0]], &vec![vec![4.0, 5.0]]);
    assert_eq!(joined, vec![vec![1.0, 2.0, 3.0, 4.0, 5.0]]);
}

#[test]
fn values_stand_behind_their_options() {
    let args = words("run --class 7 --class 8 --mode");
    assert_eq!(find_value(&args, "--class"), Some(2));
    assert_eq!(find_value(&args, "--mode"), None);
    assert_eq!(find_value(&args, "--to"), None);
    assert_eq!(find_number(&args, "--class", 0), 7);
    assert_eq!(find_number(&words("run --class x"), "--class", 4), 4);
}

#[test]
fn a_tour_shows_what_it_is_asked_for() {
    let everything = Tour { sweep: Some(0), morph: Some((0, 3)) };
    assert!(plan_tour(&words("run")) == everything);
    assert!(plan_tour(&words("run --mode cfg --class 5")) == Tour { sweep: Some(5), morph: None });
    assert!(plan_tour(&words("run --mode morph --from 2")) == Tour { sweep: None, morph: Some((2, 3)) });
    assert!(plan_tour(&words("run --mode other")) == Tour { sweep: None, morph: None });
}

#[test]
fn weights_are_found_by_their_ending() {
    assert_eq!(find_weights(&words("run a.mpk b.mpk")), Some(1));
    assert_eq!(find_weights(&words("run a")), None);
    assert_eq!(trim_ending("checkpoints/a.mpk"), "checkpoints/a");
    assert_eq!(trim_ending("a.mpk.mpk"), "a");
    assert_eq!(trim_ending("mpk"), "mpk");
}

#[test]
fn training_goes_on_where_it_is_told_to() {
    assert!(matches!(plan_resume(&words("run"), &None), Resume::Fresh));
    assert!(matches!(plan_resume(&words("run auto"), &None), Resume::Latest));
    assert!(matches!(plan_resume(&words("run"), &Some("1".to_string())), Resume::Latest));
    assert!(matches!(plan_resume(&words("run a.mpk"), &Some("1".to_string())), Resume::At(p) if p == "a.mpk"));
    assert_eq!(first_step(Some(1000)), 1001);
    assert_eq!(first_step(None), 1);
}

#[test]
fn milestones_and_files_of_a_step() {
    assert!(milestone(1, 26000).report && !milestone(1, 26000).save);
    assert!(milestone(2000, 26000).report && milestone(2000, 26000).save);
    assert!(!milestone(77, 77).report && milestone(77, 77).save);
    assert_eq!(weights_path(1000), "checkpoints/dit_fashion_step_01000");
    assert_eq!(lookbook_path(50), "samples/dit_step_00050_lookbook.png");
    assert_eq!(class_path(50, 3, "Dress"), "samples/dit_step_00050_class_3_Dress.png");
    assert_eq!(sweep_path("Dress"), "samples/dit_cfg_sweep_Dress.png");
    assert_eq!(morph_path("Shirt", "Dress"), "samples/dit_morph_Shirt_to_Dress.png");
}

#[test]
fn a_blend_leads_from_one_class_to_the_other() {
    let n = singles();
    assert_eq!(blend(&n, &vec![1.0, 2.0], &vec![3.0, 6.0], 0), vec![1.0, 2.0]);
    assert_eq!(blend(&n, &vec![1.0, 2.0], &vec![3.0, 6.0], 9), vec![3.0, 6.0]);
}
