//! Training sessions of denoising networks: their settings, and what they do in which order.

use vstd::prelude::*;

use crate::text::{concat, decimal, decimal_string};

verus! {

/// A kind of network and how it is trained.
#[derive(Clone, Copy, PartialEq, Eq, Structural)]
pub enum Trainer {
    /// Two layers that know only the noise level.
    Plain,
    /// Two layers that know the class as well.
    Conditional,
    /// Two layers that sometimes do not get to know the class.
    Guided,
    /// Two convolutions that sometimes do not get to know the class.
    Convolutional,
    /// Five convolutions that sometimes do not get to know the class.
    FiveLayers,
    /// A network that narrows and widens again and sometimes does not get to know the class.
    UNet,
}

/// The settings of a session.
#[derive(Clone, Copy, PartialEq, Eq, Structural)]
pub struct Setup {
    /// How many noise levels there are.
    pub steps: usize,
    /// How many numbers tell the noise level.
    pub time_emb_dim: usize,
    /// How many numbers tell the class.
    pub class_dim: usize,
    /// How many pixels an image has.
    pub img_dim: usize,
    /// How many images a step looks at.
    pub batch_size: usize,
    /// How many steps there are.
    pub epochs: usize,
    /// Whether classes are dropped.
    pub drops_labels: bool,
    /// The loss is reported after every so many steps.
    pub report_every: usize,
}

impl Setup {
    /// How many numbers go into the network for an image: its pixels, its noise level and its class.
    pub open spec fn input_width(&self) -> nat {
        (self.img_dim + self.time_emb_dim + self.class_dim) as nat
    }

    /// How many numbers go into the network for an image.
    pub fn input_dim(&self) -> (r: usize)
        requires
            self.input_width() <= usize::MAX,
        ensures
            r == self.input_width(),
    {
        self.img_dim + self.time_emb_dim + self.class_dim
    }
}

/// The settings of a session. Large batches are for graphics processors; two of the trainers do
/// not use one.
pub open spec fn setup_of(trainer: Trainer, on_gpu: bool) -> Setup {
    let batch_size: usize = match trainer {
        Trainer::Conditional | Trainer::Guided => 128,
        _ => if on_gpu {
            256
        } else {
            128
        },
    };
    Setup {
        steps: 100,
        time_emb_dim: 16,
        class_dim: if trainer is Plain {
            0
        } else {
            10
        },
        img_dim: 784,
        batch_size,
        epochs: match trainer {
            Trainer::Conditional => 8000,
            Trainer::Guided => 12000,
            Trainer::UNet => 1000,
            _ => 20000,
        },
        drops_labels: trainer !is Plain && trainer !is Conditional,
        report_every: if trainer is UNet {
            10
        } else {
            100
        },
    }
}

/// The settings of a session.
pub fn setup(trainer: Trainer, on_gpu: bool) -> (r: Setup)
    ensures
        r == setup_of(trainer, on_gpu),
{
    let large: usize = if on_gpu {
        256
    } else {
        128
    };
    let common = Setup {
        steps: 100,
        time_emb_dim: 16,
        class_dim: 10,
        img_dim: 784,
        batch_size: large,
        epochs: 20000,
        drops_labels: true,
        report_every: 100,
    };
    match trainer {
        Trainer::Plain => Setup { class_dim: 0, drops_labels: false, ..common },
        Trainer::Conditional => Setup { batch_size: 128, epochs: 8000, drops_labels: false, ..common },
        Trainer::Guided => Setup { batch_size: 128, epochs: 12000, ..common },
        Trainer::Convolutional => common,
        Trainer::FiveLayers => common,
        Trainer::UNet => Setup { epochs: 1000, report_every: 10, ..common },
    }
}

/// How an image is drawn at the end of a session.
#[derive(Clone, Copy, PartialEq, Eq, Structural)]
pub enum Drawing {
    /// Without a class.
    Unconditional,
    /// For the chosen class.
    Conditional,
    /// For the chosen class, pulled towards it by so much.
    Guided(usize),
    /// For the chosen class, pulled towards it by so much, with all images on the way.
    Frames(usize),
}

/// The drawings of a session, in order.
pub open spec fn drawings_of(trainer: Trainer) -> Seq<Drawing> {
    match trainer {
        Trainer::Plain => seq![Drawing::Unconditional],
        Trainer::Conditional => seq![Drawing::Conditional],
        Trainer::Guided => seq![Drawing::Guided(3)],
        Trainer::Convolutional | Trainer::FiveLayers => seq![
            Drawing::Guided(0),
            Drawing::Guided(1),
            Drawing::Guided(3),
        ],
        Trainer::UNet => seq![Drawing::Guided(0), Drawing::Guided(1), Drawing::Guided(3), Drawing::Frames(3)],
    }
}

/// The drawings of a session, in order.
pub fn drawings(trainer: Trainer) -> (r: Vec<Drawing>)
    ensures
        r@ == drawings_of(trainer),
{
    let mut out: Vec<Drawing> = Vec::new();
    match trainer {
        Trainer::Plain => {
            out.push(Drawing::Unconditional);
        },
        Trainer::Conditional => {
            out.push(Drawing::Conditional);
        },
        Trainer::Guided => {
            out.push(Drawing::Guided(3));
        },
        _ => {
            out.push(Drawing::Guided(0));
            out.push(Drawing::Guided(1));
            out.push(Drawing::Guided(3));
            if trainer == Trainer::UNet {
                out.push(Drawing::Frames(3));
            }
        },
    }
    assert(out@ =~= drawings_of(trainer));
    out
}

/// What the files of a session's guided images begin with.
pub open spec fn file_stem(trainer: Trainer) -> Seq<char> {
    match trainer {
        Trainer::FiveLayers => "mnist_cfg_5layers_generated"@,
        Trainer::UNet => "mnist_cfg_unet_generated"@,
        _ => "mnist_cfg_generated"@,
    }
}

/// Where a drawing is saved: a file, or a directory if there are several images.
pub open spec fn drawing_file(trainer: Trainer, drawing: Drawing) -> Seq<char> {
    match drawing {
        Drawing::Unconditional => "mnist_generated.png"@,
        Drawing::Conditional => "mnist_cond_generated.png"@,
        Drawing::Guided(scale) => if trainer is Guided {
            file_stem(trainer) + ".png"@
        } else {
            file_stem(trainer) + "_s"@ + decimal(scale as nat) + ".png"@
        },
        Drawing::Frames(_) => "unet_frames"@,
    }
}

/// Where a drawing is saved.
pub fn drawing_path(trainer: Trainer, drawing: Drawing) -> (r: String)
    ensures
        r@ == drawing_file(trainer, drawing),
{
    match drawing {
        Drawing::Unconditional => "mnist_generated.png".to_owned(),
        Drawing::Conditional => "mnist_cond_generated.png".to_owned(),
        Drawing::Frames(_) => "unet_frames".to_owned(),
        Drawing::Guided(scale) => {
            let stem: &str = match trainer {
                Trainer::FiveLayers => "mnist_cfg_5layers_generated",
                Trainer::UNet => "mnist_cfg_unet_generated",
                _ => "mnist_cfg_generated",
            };
            if trainer == Trainer::Guided {
                concat(stem, ".png")
            } else {
                let marked = concat(stem, "_s");
                let numbered = concat(marked.as_str(), decimal_string(scale).as_str());
                concat(numbered.as_str(), ".png")
            }
        },
    }
}

/// What is to be done next.
#[derive(Clone, Copy, PartialEq, Eq, Structural)]
pub enum Task {
    /// Take a training step, and report the loss if asked.
    Step {
        /// The number of the step, counted from one.
        epoch: usize,
        /// Whether to report the loss.
        report: bool,
    },
    /// Draw and save an image.
    Draw(Drawing),
}

/// Whether the loss is reported at a step: at the first one and at every one whose number divides.
pub open spec fn reported_step(epoch: nat, every: nat) -> bool {
    epoch % every == 0 || epoch == 1
}

/// All that a session does, in order.
pub open spec fn program(trainer: Trainer, on_gpu: bool) -> Seq<Task> {
    let setup = setup_of(trainer, on_gpu);
    Seq::new(
        setup.epochs as nat,
        |k: int|
            Task::Step {
                epoch: (k + 1) as usize,
                report: reported_step((k + 1) as nat, setup.report_every as nat),
            },
    ) + drawings_of(trainer).map_values(|d: Drawing| Task::Draw(d))
}

/// A session under way.
pub struct Session {
    /// How the network is trained.
    pub trainer: Trainer,
    /// Whether there is a graphics processor.
    pub on_gpu: bool,
    /// How much is done.
    pub done: usize,
}

impl Session {
    /// No more is done than there is to do.
    pub open spec fn wf(&self) -> bool {
        self.done <= program(self.trainer, self.on_gpu).len()
    }

    /// A session at its beginning.
    pub fn new(trainer: Trainer, on_gpu: bool) -> (r: Self)
        ensures
            r.wf(),
            r.trainer == trainer,
            r.on_gpu == on_gpu,
            r.done == 0,
    {
        Session { trainer, on_gpu, done: 0 }
    }

    /// The next thing to do, if there is one.
    pub fn next_task(&mut self) -> (r: Option<Task>)
        requires
            old(self).wf(),
        ensures
            final(self).wf(),
            final(self).trainer == old(self).trainer,
            final(self).on_gpu == old(self).on_gpu,
            ({
                let all = program(old(self).trainer, old(self).on_gpu);
                match r {
                    Some(task) => {
                        &&& old(self).done < all.len()
                        &&& task == all[old(self).done as int]
                        &&& final(self).done == old(self).done + 1
                    },
                    None => old(self).done == all.len() && final(self).done == old(self).done,
                }
            }),
    {
        let settings = setup(self.trainer, self.on_gpu);
        let k: usize = self.done;
        if k < settings.epochs {
            self.done = k + 1;
            let report = (k + 1) % settings.report_every == 0 || k == 0;
            return Some(Task::Step { epoch: k + 1, report });
        }
        let images = drawings(self.trainer);
        let i: usize = k - settings.epochs;
        if i < images.len() {
            self.done = k + 1;
            Some(Task::Draw(images[i]))
        } else {
            None
        }
    }
}

/// A session takes all its steps, in order, before it draws.
pub proof fn law_steps_before_drawings(trainer: Trainer, on_gpu: bool, k: int)
    requires
        0 <= k < program(trainer, on_gpu).len(),
    ensures
        match program(trainer, on_gpu)[k] {
            Task::Step { epoch, .. } => k < setup_of(trainer, on_gpu).epochs && epoch == k + 1,
            Task::Draw(drawing) => {
                let i = k - setup_of(trainer, on_gpu).epochs;
                0 <= i < drawings_of(trainer).len() && drawing == drawings_of(trainer)[i]
            },
        },
{
}

/// No two drawings of a session are saved in the same place.
pub proof fn law_drawings_have_their_files(trainer: Trainer, i: int, j: int)
    requires
        0 <= i < j < drawings_of(trainer).len(),
    ensures
        drawing_file(trainer, drawings_of(trainer)[i]) != drawing_file(trainer, drawings_of(trainer)[j]),
{
    reveal_strlit("unet_frames");
    reveal_strlit("mnist_cfg_generated");
    reveal_strlit("mnist_cfg_5layers_generated");
    reveal_strlit("mnist_cfg_unet_generated");
    reveal_strlit("_s");
    reveal_strlit(".png");
    reveal_with_fuel(decimal, 2);
    let stem = file_stem(trainer);
    let a = drawing_file(trainer, drawings_of(trainer)[i]);
    let b = drawing_file(trainer, drawings_of(trainer)[j]);
    assert(a.len() == stem.len() + 7);
    if drawings_of(trainer)[j] is Frames {
        assert(b.len() == 11);
    } else {
        assert(a[stem.len() as int + 2] != b[stem.len() as int + 2]);
    }
}

} // verus!
