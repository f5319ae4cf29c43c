//! The order in which images are drawn and saved.

use vstd::prelude::*;

use crate::resample::cli::{Mode, SamplerKind};
use crate::rows::append_row;
use crate::text::{concat, decimal, decimal_string, padded, padded_string};

verus! {

/// How many classes there are.
pub const CLASS_COUNT: usize = 10;

/// Where a run stands.
#[derive(Clone, Copy, PartialEq, Eq, Structural)]
pub enum Stage {
    /// The image of the chosen class is to be drawn.
    Preview,
    /// The image of a class is to be drawn.
    Digit(usize),
    /// All images are to be put in one picture.
    Grid,
    /// Nothing is left to do.
    Finished,
}

/// One run of a sampler.
pub struct SamplerRun {
    /// The sampler.
    pub sampler: SamplerKind,
    /// The timestep to start at.
    pub start_timestep: usize,
    /// The chosen class.
    pub sample_class: usize,
    /// Where the run stands.
    pub stage: Stage,
    /// The images of all classes so far, one behind the other.
    pub all_digits: Vec<u32>,
}

/// What is to be done next.
#[derive(Clone, Copy, PartialEq, Eq, Structural)]
pub enum Action {
    /// Draw an image of a class, and save it; also save what it looks like on the way, if asked.
    Draw {
        /// The class.
        class: usize,
        /// Whether to save what it looks like on the way.
        frames: bool,
    },
    /// Put all images in one picture, so many below and beside each other.
    SaveGrid {
        /// How many below each other.
        rows: usize,
        /// How many beside each other.
        cols: usize,
    },
    /// Nothing.
    Stop,
}

/// What a run holds.
pub struct RunView {
    /// Where the run stands.
    pub stage: Stage,
    /// The images of all classes so far.
    pub all_digits: Seq<u32>,
}

/// What is to be done at a stage.
pub open spec fn action_at(stage: Stage, sample_class: usize) -> Action {
    match stage {
        Stage::Preview => Action::Draw { class: sample_class, frames: true },
        Stage::Digit(class) => Action::Draw { class, frames: false },
        Stage::Grid => Action::SaveGrid { rows: 2, cols: 5 },
        Stage::Finished => Action::Stop,
    }
}

/// A run after an image was drawn.
pub open spec fn after_image(run: RunView, image: Seq<u32>) -> RunView {
    match run.stage {
        Stage::Preview => RunView { stage: Stage::Digit(0), all_digits: run.all_digits },
        Stage::Digit(class) => RunView {
            stage: if class + 1 < CLASS_COUNT {
                Stage::Digit((class + 1) as usize)
            } else {
                Stage::Grid
            },
            all_digits: run.all_digits + image,
        },
        _ => run,
    }
}

/// The word for a sampler in the names of directories.
pub open spec fn short_name(sampler: SamplerKind) -> Seq<char> {
    match sampler {
        SamplerKind::DpmSolver2m => "dpm"@,
        SamplerKind::Ddim => "ddim"@,
        SamplerKind::Ddpm => "ddpm"@,
    }
}

/// The directory that a run saves in.
pub open spec fn directory(sampler: SamplerKind, start_timestep: nat) -> Seq<char> {
    "unet_resampled_"@ + short_name(sampler) + "_t"@ + padded(start_timestep, 3)
}

/// The name of the picture of all images.
pub open spec fn grid_name(sampler: SamplerKind) -> Seq<char> {
    match sampler {
        SamplerKind::DpmSolver2m => "all_digits_0_to_9_dpm2m.png"@,
        SamplerKind::Ddim => "all_digits_0_to_9_ddim.png"@,
        SamplerKind::Ddpm => "all_digits_0_to_9_ddpm.png"@,
    }
}

/// A file in the directory of a run.
pub open spec fn in_directory(sampler: SamplerKind, start_timestep: nat, name: Seq<char>) -> Seq<char> {
    directory(sampler, start_timestep) + "/"@ + name
}

impl SamplerRun {
    /// What the run holds.
    pub open spec fn run(&self) -> RunView {
        RunView { stage: self.stage, all_digits: self.all_digits@ }
    }

    /// A run that has not begun.
    pub fn new(sampler: SamplerKind, start_timestep: usize, sample_class: usize) -> (r: Self)
        ensures
            r.sampler == sampler,
            r.start_timestep == start_timestep,
            r.sample_class == sample_class,
            r.run() == (RunView { stage: Stage::Preview, all_digits: Seq::<u32>::empty() }),
    {
        SamplerRun { sampler, start_timestep, sample_class, stage: Stage::Preview, all_digits: Vec::new() }
    }

    /// What is to be done next.
    pub fn next_action(&self) -> (r: Action)
        ensures
            r == action_at(self.stage, self.sample_class),
    {
        match self.stage {
            Stage::Preview => Action::Draw { class: self.sample_class, frames: true },
            Stage::Digit(class) => Action::Draw { class, frames: false },
            Stage::Grid => Action::SaveGrid { rows: 2, cols: 5 },
            Stage::Finished => Action::Stop,
        }
    }

    /// Takes in an image that was drawn.
    pub fn image_drawn(&mut self, image: &Vec<u32>)
        ensures
            final(self).sampler == old(self).sampler,
            final(self).start_timestep == old(self).start_timestep,
            final(self).sample_class == old(self).sample_class,
            final(self).run() == after_image(old(self).run(), image@),
    {
        match self.stage {
            Stage::Preview => {
                self.stage = Stage::Digit(0);
            },
            Stage::Digit(class) => {
                self.stage = if class < CLASS_COUNT - 1 {
                    Stage::Digit(class + 1)
                } else {
                    Stage::Grid
                };
                append_row(&mut self.all_digits, image);
            },
            _ => {},
        }
    }

    /// Takes in that the picture of all images was saved.
    pub fn grid_saved(&mut self)
        ensures
            final(self).sampler == old(self).sampler,
            final(self).start_timestep == old(self).start_timestep,
            final(self).sample_class == old(self).sample_class,
            final(self).run() == (RunView {
                stage: if old(self).stage == Stage::Grid {
                    Stage::Finished
                } else {
                    old(self).stage
                },
                all_digits: old(self).run().all_digits,
            }),
    {
        if self.stage == Stage::Grid {
            self.stage = Stage::Finished;
        }
    }

    /// The directory that the run saves in.
    pub fn output_dir(&self) -> (r: String)
        ensures
            r@ == directory(self.sampler, self.start_timestep as nat),
    {
        let word = match self.sampler {
            SamplerKind::DpmSolver2m => "dpm",
            SamplerKind::Ddim => "ddim",
            SamplerKind::Ddpm => "ddpm",
        };
        let start = concat("unet_resampled_", word);
        let middle = concat(start.as_str(), "_t");
        concat(middle.as_str(), padded_string(self.start_timestep, 3).as_str())
    }

    fn path_of(&self, name: &str) -> (r: String)
        ensures
            r@ == in_directory(self.sampler, self.start_timestep as nat, name@),
    {
        let base = concat(self.output_dir().as_str(), "/");
        concat(base.as_str(), name)
    }

    /// The file for what the image looks like on the way.
    pub fn frame_path(&self, frame: usize) -> (r: String)
        ensures
            r@ == in_directory(
                self.sampler,
                self.start_timestep as nat,
                "frame_"@ + padded(frame as nat, 2) + ".png"@,
            ),
    {
        let numbered = concat("frame_", padded_string(frame, 2).as_str());
        self.path_of(concat(numbered.as_str(), ".png").as_str())
    }

    /// The file for the image of the chosen class, `scale` being the guidance with one decimal.
    pub fn preview_path(&self, scale: &str) -> (r: String)
        ensures
            r@ == in_directory(
                self.sampler,
                self.start_timestep as nat,
                "sample_class"@ + decimal(self.sample_class as nat) + "_scale"@ + scale@ + ".png"@,
            ),
    {
        let start = concat("sample_class", decimal_string(self.sample_class).as_str());
        let middle = concat(start.as_str(), "_scale");
        let named = concat(middle.as_str(), scale);
        self.path_of(concat(named.as_str(), ".png").as_str())
    }

    /// The file for the image of a class.
    pub fn digit_path(&self, class: usize) -> (r: String)
        ensures
            r@ == in_directory(
                self.sampler,
                self.start_timestep as nat,
                "digit_"@ + decimal(class as nat) + ".png"@,
            ),
    {
        let numbered = concat("digit_", decimal_string(class).as_str());
        self.path_of(concat(numbered.as_str(), ".png").as_str())
    }

    /// The file for the picture of all images.
    pub fn grid_path(&self) -> (r: String)
        ensures
            r@ == in_directory(self.sampler, self.start_timestep as nat, grid_name(self.sampler)),
    {
        let name = match self.sampler {
            SamplerKind::DpmSolver2m => "all_digits_0_to_9_dpm2m.png",
            SamplerKind::Ddim => "all_digits_0_to_9_ddim.png",
            SamplerKind::Ddpm => "all_digits_0_to_9_ddpm.png",
        };
        self.path_of(name)
    }
}

/// One sampler and its number of steps.
#[derive(Clone, Copy, PartialEq, Eq, Structural)]
pub struct Plan {
    /// The sampler.
    pub sampler: SamplerKind,
    /// The number of steps.
    pub steps: usize,
}

/// The runs of a mode, in order.
pub open spec fn plans_of(mode: Mode) -> Seq<Plan> {
    match mode {
        Mode::Single(sampler, steps) => seq![Plan { sampler, steps }],
        Mode::BenchmarkAll => seq![
            Plan { sampler: SamplerKind::Ddpm, steps: 100 },
            Plan { sampler: SamplerKind::Ddim, steps: 20 },
            Plan { sampler: SamplerKind::DpmSolver2m, steps: 8 },
        ],
    }
}

/// The runs of a mode, in order.
pub fn plans(mode: Mode) -> (r: Vec<Plan>)
    ensures
        r@ == plans_of(mode),
{
    let mut out: Vec<Plan> = Vec::new();
    match mode {
        Mode::Single(sampler, steps) => {
            out.push(Plan { sampler, steps });
        },
        Mode::BenchmarkAll => {
            out.push(Plan { sampler: SamplerKind::Ddpm, steps: 100 });
            out.push(Plan { sampler: SamplerKind::Ddim, steps: 20 });
            out.push(Plan { sampler: SamplerKind::DpmSolver2m, steps: 8 });
        },
    }
    assert(out@ =~= plans_of(mode));
    out
}

/// A run after a list of images was drawn.
pub open spec fn after_images(run: RunView, images: Seq<Seq<u32>>) -> RunView
    decreases images.len(),
{
    if images.len() == 0 {
        run
    } else {
        after_image(after_images(run, images.drop_last()), images.last())
    }
}

/// Images one behind the other.
pub open spec fn chained(images: Seq<Seq<u32>>) -> Seq<u32>
    decreases images.len(),
{
    if images.len() == 0 {
        Seq::empty()
    } else {
        chained(images.drop_last()) + images.last()
    }
}

/// A run draws the chosen class and then every class once, in order, and the picture of all images
/// holds the images of the classes and not the first one.
pub proof fn law_run_draws_every_class(images: Seq<Seq<u32>>)
    requires
        0 < images.len() <= CLASS_COUNT + 1,
    ensures
        ({
            let run = after_images(RunView { stage: Stage::Preview, all_digits: Seq::<u32>::empty() }, images);
            &&& run.all_digits == chained(images.skip(1))
            &&& run.stage == if images.len() <= CLASS_COUNT {
                Stage::Digit((images.len() - 1) as usize)
            } else {
                Stage::Grid
            }
        }),
    decreases images.len(),
{
    let start = RunView { stage: Stage::Preview, all_digits: Seq::<u32>::empty() };
    if images.len() == 1 {
        assert(after_images(start, images.drop_last()) == start);
        assert(images.skip(1) =~= Seq::<Seq<u32>>::empty());
    } else {
        law_run_draws_every_class(images.drop_last());
        assert(images.skip(1).drop_last() =~= images.drop_last().skip(1));
        assert(images.skip(1).last() == images.last());
    }
}

} // verus!
