//! The command line.

use vstd::prelude::*;

use crate::text::{concat, parse_usize, same_text, starts_with, usize_of, views};

verus! {

/// The class that is drawn if none is asked for.
pub const DEFAULT_SAMPLE_CLASS: usize = 3;

/// The bit pattern of 2.5, the guidance if none is asked for.
pub const DEFAULT_GUIDANCE_SCALE: u64 = 0x4004_0000_0000_0000;

/// The timestep that sampling starts at if none is asked for.
pub const DEFAULT_START_TIMESTEP: usize = 99;

/// A way to draw images.
#[derive(Clone, Copy, PartialEq, Eq, Structural)]
pub enum SamplerKind {
    /// A second-order solver that needs few steps.
    DpmSolver2m,
    /// A first-order sampler without chance.
    Ddim,
    /// A first-order sampler with chance.
    Ddpm,
}

/// What is to be done.
#[derive(Clone, Copy, PartialEq, Eq, Structural)]
pub enum Mode {
    /// Draw with one sampler, in so many steps.
    Single(SamplerKind, usize),
    /// Draw with all samplers.
    BenchmarkAll,
}

/// An option that takes a value.
#[derive(Clone, Copy, PartialEq, Eq, Structural)]
pub enum CliOption {
    /// Which sampler to use.
    Sampler,
    /// How many steps to take.
    Steps,
    /// How strongly to guide.
    Guidance,
    /// Which class to draw.
    Class,
    /// Where to start.
    Start,
    /// Which checkpoint to load.
    Checkpoint,
}

/// What an argument is.
pub enum Argument {
    /// An option; its value follows.
    Takes(CliOption),
    /// A call for help.
    Help,
    /// A value that stands by itself.
    Free,
    /// An option that is not known.
    Unknown,
}

/// Why a command line is refused.
pub enum CliError {
    /// An option has no value.
    MissingValue(CliOption),
    /// The value of an option is not an integer.
    InvalidInteger(CliOption),
    /// The guidance is not a number.
    InvalidFloat,
    /// The second free value is not an integer.
    InvalidStartTimestep,
    /// The argument at this place is an unknown option.
    UnknownOption(usize),
    /// There is no such sampler.
    UnknownSampler,
}

/// What was asked for. Nothing stands where nothing was asked for.
pub struct Settings {
    /// The checkpoint.
    pub checkpoint: Option<String>,
    /// The timestep to start at.
    pub start_timestep: Option<usize>,
    /// The sampler.
    pub sampler: Option<String>,
    /// The number of steps.
    pub steps: Option<usize>,
    /// The class to draw.
    pub sample_class: usize,
    /// The guidance, as the bit pattern of a double precision number.
    pub guidance_scale: u64,
}

/// The texts and numbers of settings.
pub struct SettingsView {
    /// The checkpoint.
    pub checkpoint: Option<Seq<char>>,
    /// The timestep to start at.
    pub start_timestep: Option<usize>,
    /// The sampler.
    pub sampler: Option<Seq<char>>,
    /// The number of steps.
    pub steps: Option<usize>,
    /// The class to draw.
    pub sample_class: usize,
    /// The guidance.
    pub guidance_scale: u64,
}

/// A text that may be missing.
pub open spec fn text_of(s: Option<String>) -> Option<Seq<char>> {
    match s {
        Some(t) => Some(t@),
        None => None,
    }
}

impl View for Settings {
    type V = SettingsView;

    open spec fn view(&self) -> SettingsView {
        SettingsView {
            checkpoint: text_of(self.checkpoint),
            start_timestep: self.start_timestep,
            sampler: text_of(self.sampler),
            steps: self.steps,
            sample_class: self.sample_class,
            guidance_scale: self.guidance_scale,
        }
    }
}

/// Settings that nothing was asked of.
pub open spec fn no_settings() -> SettingsView {
    SettingsView {
        checkpoint: None,
        start_timestep: None,
        sampler: None,
        steps: None,
        sample_class: DEFAULT_SAMPLE_CLASS,
        guidance_scale: DEFAULT_GUIDANCE_SCALE,
    }
}

/// What an argument is.
pub open spec fn argument_of(s: Seq<char>) -> Argument {
    if s == "--sampler"@ || s == "-s"@ {
        Argument::Takes(CliOption::Sampler)
    } else if s == "--steps"@ || s == "-n"@ {
        Argument::Takes(CliOption::Steps)
    } else if s == "--guidance"@ || s == "-g"@ {
        Argument::Takes(CliOption::Guidance)
    } else if s == "--class"@ || s == "-c"@ {
        Argument::Takes(CliOption::Class)
    } else if s == "--start"@ || s == "-t"@ {
        Argument::Takes(CliOption::Start)
    } else if s == "--checkpoint"@ || s == "-k"@ {
        Argument::Takes(CliOption::Checkpoint)
    } else if s == "--help"@ || s == "-h"@ {
        Argument::Help
    } else if s.len() > 0 && s[0] == '-' {
        Argument::Unknown
    } else {
        Argument::Free
    }
}

fn classify(s: &str) -> (r: Argument)
    ensures
        r == argument_of(s@),
{
    if same_text(s, "--sampler") || same_text(s, "-s") {
        Argument::Takes(CliOption::Sampler)
    } else if same_text(s, "--steps") || same_text(s, "-n") {
        Argument::Takes(CliOption::Steps)
    } else if same_text(s, "--guidance") || same_text(s, "-g") {
        Argument::Takes(CliOption::Guidance)
    } else if same_text(s, "--class") || same_text(s, "-c") {
        Argument::Takes(CliOption::Class)
    } else if same_text(s, "--start") || same_text(s, "-t") {
        Argument::Takes(CliOption::Start)
    } else if same_text(s, "--checkpoint") || same_text(s, "-k") {
        Argument::Takes(CliOption::Checkpoint)
    } else if same_text(s, "--help") || same_text(s, "-h") {
        Argument::Help
    } else {
        proof {
            reveal_strlit("-");
        }
        let dashed: bool = starts_with(s, "-");
        assert(dashed == (s@.len() > 0 && s@[0] == '-')) by {
            if s@.len() > 0 {
                assert(s@.subrange(0, 1)[0] == s@[0]);
                if s@[0] == '-' {
                    assert(s@.subrange(0, 1) =~= "-"@);
                }
            }
        }
        if dashed {
            Argument::Unknown
        } else {
            Argument::Free
        }
    }
}

/// Settings with the value of an option taken in, or why it cannot be.
pub open spec fn taken(
    so_far: SettingsView,
    option: CliOption,
    value: Seq<char>,
    number: Option<u64>,
) -> Result<SettingsView, CliError> {
    match option {
        CliOption::Sampler => Ok(SettingsView { sampler: Some(value), ..so_far }),
        CliOption::Steps => match usize_of(value) {
            Some(n) => Ok(SettingsView { steps: Some(n), ..so_far }),
            None => Err(CliError::InvalidInteger(option)),
        },
        CliOption::Guidance => match number {
            Some(x) => Ok(SettingsView { guidance_scale: x, ..so_far }),
            None => Err(CliError::InvalidFloat),
        },
        CliOption::Class => match usize_of(value) {
            Some(n) => Ok(SettingsView { sample_class: n, ..so_far }),
            None => Err(CliError::InvalidInteger(option)),
        },
        CliOption::Start => match usize_of(value) {
            Some(n) => Ok(SettingsView { start_timestep: Some(n), ..so_far }),
            None => Err(CliError::InvalidInteger(option)),
        },
        CliOption::Checkpoint => Ok(SettingsView { checkpoint: Some(value), ..so_far }),
    }
}

/// Settings with a free value taken in, or why it cannot be: the first is the checkpoint and the
/// second the start, unless they are given already.
pub open spec fn taken_free(so_far: SettingsView, value: Seq<char>) -> Result<SettingsView, CliError> {
    if so_far.checkpoint is None {
        Ok(SettingsView { checkpoint: Some(value), ..so_far })
    } else if so_far.start_timestep is None {
        match usize_of(value) {
            Some(n) => Ok(SettingsView { start_timestep: Some(n), ..so_far }),
            None => Err(CliError::InvalidStartTimestep),
        }
    } else {
        Ok(so_far)
    }
}

/// What a command line comes to.
pub enum Parsed<S> {
    /// Settings.
    Run(S),
    /// A call for help.
    Help,
}

/// What the arguments from place `at` on come to. `numbers` holds the argument at each place as a
/// double precision number, where it is one.
pub open spec fn parsed_from(
    args: Seq<Seq<char>>,
    numbers: Seq<Option<u64>>,
    at: int,
    so_far: SettingsView,
) -> Result<Parsed<SettingsView>, CliError>
    decreases args.len() - at,
{
    if at >= args.len() {
        Ok(Parsed::Run(so_far))
    } else {
        match argument_of(args[at]) {
            Argument::Takes(option) => if at + 1 >= args.len() {
                Err(CliError::MissingValue(option))
            } else {
                match taken(so_far, option, args[at + 1], numbers[at + 1]) {
                    Ok(next) => parsed_from(args, numbers, at + 2, next),
                    Err(e) => Err(e),
                }
            },
            Argument::Help => Ok(Parsed::Help),
            Argument::Free => match taken_free(so_far, args[at]) {
                Ok(next) => parsed_from(args, numbers, at + 1, next),
                Err(e) => Err(e),
            },
            Argument::Unknown => Err(CliError::UnknownOption(at as usize)),
        }
    }
}

fn take(so_far: Settings, option: CliOption, value: &str, number: Option<u64>) -> (r: Result<Settings, CliError>)
    ensures
        match r {
            Ok(next) => taken(so_far@, option, value@, number) == Ok::<SettingsView, CliError>(next@),
            Err(e) => taken(so_far@, option, value@, number) == Err::<SettingsView, CliError>(e),
        },
{
    match option {
        CliOption::Sampler => Ok(Settings { sampler: Some(value.to_owned()), ..so_far }),
        CliOption::Steps => match parse_usize(value) {
            Some(n) => Ok(Settings { steps: Some(n), ..so_far }),
            None => Err(CliError::InvalidInteger(option)),
        },
        CliOption::Guidance => match number {
            Some(x) => Ok(Settings { guidance_scale: x, ..so_far }),
            None => Err(CliError::InvalidFloat),
        },
        CliOption::Class => match parse_usize(value) {
            Some(n) => Ok(Settings { sample_class: n, ..so_far }),
            None => Err(CliError::InvalidInteger(option)),
        },
        CliOption::Start => match parse_usize(value) {
            Some(n) => Ok(Settings { start_timestep: Some(n), ..so_far }),
            None => Err(CliError::InvalidInteger(option)),
        },
        CliOption::Checkpoint => Ok(Settings { checkpoint: Some(value.to_owned()), ..so_far }),
    }
}

fn take_free(so_far: Settings, value: &str) -> (r: Result<Settings, CliError>)
    ensures
        match r {
            Ok(next) => taken_free(so_far@, value@) == Ok::<SettingsView, CliError>(next@),
            Err(e) => taken_free(so_far@, value@) == Err::<SettingsView, CliError>(e),
        },
{
    if so_far.checkpoint.is_none() {
        Ok(Settings { checkpoint: Some(value.to_owned()), ..so_far })
    } else if so_far.start_timestep.is_none() {
        match parse_usize(value) {
            Some(n) => Ok(Settings { start_timestep: Some(n), ..so_far }),
            None => Err(CliError::InvalidStartTimestep),
        }
    } else {
        Ok(so_far)
    }
}

/// Reads the arguments behind the program's name.
pub fn parse_args(args: &Vec<String>, numbers: &Vec<Option<u64>>) -> (r: Result<Parsed<Settings>, CliError>)
    requires
        args@.len() == numbers@.len(),
    ensures
        match r {
            Ok(Parsed::Run(s)) => parsed_from(views(args@), numbers@, 0, no_settings()) == Ok::<
                Parsed<SettingsView>,
                CliError,
            >(Parsed::Run(s@)),
            Ok(Parsed::Help) => parsed_from(views(args@), numbers@, 0, no_settings()) == Ok::<
                Parsed<SettingsView>,
                CliError,
            >(Parsed::Help),
            Err(e) => parsed_from(views(args@), numbers@, 0, no_settings()) == Err::<Parsed<SettingsView>, CliError>(e),
        },
{
    let ghost texts = views(args@);
    let ghost goal = parsed_from(texts, numbers@, 0, no_settings());
    let mut settings = Settings {
        checkpoint: None,
        start_timestep: None,
        sampler: None,
        steps: None,
        sample_class: DEFAULT_SAMPLE_CLASS,
        guidance_scale: DEFAULT_GUIDANCE_SCALE,
    };
    let mut at: usize = 0;
    while at < args.len()
        invariant
            at <= args@.len(),
            args@.len() == numbers@.len(),
            texts == views(args@),
            goal == parsed_from(texts, numbers@, 0, no_settings()),
            goal == parsed_from(texts, numbers@, at as int, settings@),
        decreases args@.len() - at,
    {
        assert(texts[at as int] == args@[at as int]@);
        match classify(args[at].as_str()) {
            Argument::Takes(option) => {
                if args.len() - at < 2 {
                    return Err(CliError::MissingValue(option));
                }
                assert(texts[at + 1] == args@[at + 1]@);
                match take(settings, option, args[at + 1].as_str(), numbers[at + 1]) {
                    Ok(next) => {
                        settings = next;
                    },
                    Err(e) => {
                        return Err(e);
                    },
                }
                at += 2;
            },
            Argument::Help => {
                return Ok(Parsed::Help);
            },
            Argument::Free => {
                match take_free(settings, args[at].as_str()) {
                    Ok(next) => {
                        settings = next;
                    },
                    Err(e) => {
                        return Err(e);
                    },
                }
                at += 1;
            },
            Argument::Unknown => {
                return Err(CliError::UnknownOption(at));
            },
        }
    }
    Ok(Parsed::Run(settings))
}

/// The sampler of a name.
pub open spec fn sampler_named(s: Seq<char>) -> Option<SamplerKind> {
    if s == "dpm"@ {
        Some(SamplerKind::DpmSolver2m)
    } else if s == "ddim"@ {
        Some(SamplerKind::Ddim)
    } else if s == "ddpm"@ {
        Some(SamplerKind::Ddpm)
    } else {
        None
    }
}

/// How many steps a sampler takes if nothing is asked for.
pub open spec fn usual_steps(sampler: SamplerKind) -> usize {
    match sampler {
        SamplerKind::DpmSolver2m => 8,
        SamplerKind::Ddim => 20,
        SamplerKind::Ddpm => 100,
    }
}

/// A number, or another one if it is missing.
pub open spec fn or_else(n: Option<usize>, other: usize) -> usize {
    match n {
        Some(n) => n,
        None => other,
    }
}

/// What is to be done, from the sampler and the steps that were asked for; nothing if there is no
/// such sampler.
pub open spec fn mode_of(sampler: Option<Seq<char>>, steps: Option<usize>) -> Option<Mode> {
    match sampler {
        Some(s) => if s == "all"@ || s == "compare"@ || s == "benchmark"@ {
            Some(Mode::BenchmarkAll)
        } else {
            match sampler_named(s) {
                Some(kind) => Some(Mode::Single(kind, or_else(steps, usual_steps(kind)))),
                None => None,
            }
        },
        None => Some(
            Mode::Single(SamplerKind::DpmSolver2m, or_else(steps, usual_steps(SamplerKind::DpmSolver2m))),
        ),
    }
}

impl SamplerKind {
    /// How many steps the sampler takes if nothing is asked for.
    pub fn default_inference_steps(&self) -> (r: usize)
        ensures
            r == usual_steps(*self),
    {
        match self {
            SamplerKind::DpmSolver2m => 8,
            SamplerKind::Ddim => 20,
            SamplerKind::Ddpm => 100,
        }
    }

    /// The sampler of a name.
    pub fn parse(s: &str) -> (r: Option<SamplerKind>)
        ensures
            r == sampler_named(s@),
    {
        if same_text(s, "dpm") {
            Some(SamplerKind::DpmSolver2m)
        } else if same_text(s, "ddim") {
            Some(SamplerKind::Ddim)
        } else if same_text(s, "ddpm") {
            Some(SamplerKind::Ddpm)
        } else {
            None
        }
    }
}

/// What is to be done, in full.
pub struct Config {
    /// The checkpoint; the latest one if none was asked for.
    pub checkpoint: Option<String>,
    /// The timestep to start at.
    pub start_timestep: usize,
    /// The class to draw.
    pub sample_class: usize,
    /// The guidance, as the bit pattern of a double precision number.
    pub guidance_scale: u64,
    /// What is to be done.
    pub mode: Mode,
}

/// Whether a configuration says what settings ask for.
pub open spec fn carries_out(c: Config, s: SettingsView) -> bool {
    &&& mode_of(s.sampler, s.steps) == Some(c.mode)
    &&& text_of(c.checkpoint) == s.checkpoint
    &&& c.start_timestep == or_else(s.start_timestep, DEFAULT_START_TIMESTEP)
    &&& c.sample_class == s.sample_class
    &&& c.guidance_scale == s.guidance_scale
}

/// Fills in what was not asked for.
pub fn complete(settings: Settings) -> (r: Result<Config, CliError>)
    ensures
        match r {
            Ok(c) => carries_out(c, settings@),
            Err(e) => mode_of(settings@.sampler, settings@.steps) is None && e is UnknownSampler,
        },
{
    let start_timestep: usize = match settings.start_timestep {
        Some(t) => t,
        None => DEFAULT_START_TIMESTEP,
    };
    let mode = match &settings.sampler {
        Some(s) => {
            let name = s.as_str();
            if same_text(name, "all") || same_text(name, "compare") || same_text(name, "benchmark") {
                Mode::BenchmarkAll
            } else {
                match SamplerKind::parse(name) {
                    Some(kind) => Mode::Single(
                        kind,
                        match settings.steps {
                            Some(n) => n,
                            None => kind.default_inference_steps(),
                        },
                    ),
                    None => {
                        return Err(CliError::UnknownSampler);
                    },
                }
            }
        },
        None => Mode::Single(
            SamplerKind::DpmSolver2m,
            match settings.steps {
                Some(n) => n,
                None => SamplerKind::DpmSolver2m.default_inference_steps(),
            },
        ),
    };
    Ok(
        Config {
            checkpoint: settings.checkpoint,
            start_timestep,
            sample_class: settings.sample_class,
            guidance_scale: settings.guidance_scale,
            mode,
        },
    )
}

/// What a command line asks for: a configuration, or help.
pub open spec fn asks_for(args: Seq<Seq<char>>, numbers: Seq<Option<u64>>) -> Result<Parsed<SettingsView>, CliError> {
    match parsed_from(args, numbers, 0, no_settings()) {
        Ok(Parsed::Run(s)) => match mode_of(s.sampler, s.steps) {
            Some(_) => Ok(Parsed::Run(s)),
            None => Err(CliError::UnknownSampler),
        },
        other => other,
    }
}

/// Turns the arguments behind the program's name into a configuration.
pub fn parse_cli(args: &Vec<String>, numbers: &Vec<Option<u64>>) -> (r: Result<Parsed<Config>, CliError>)
    requires
        args@.len() == numbers@.len(),
    ensures
        match r {
            Ok(Parsed::Run(c)) => asks_for(views(args@), numbers@) matches Ok(Parsed::Run(s)) && carries_out(c, s),
            Ok(Parsed::Help) => asks_for(views(args@), numbers@) == Ok::<Parsed<SettingsView>, CliError>(Parsed::Help),
            Err(e) => asks_for(views(args@), numbers@) == Err::<Parsed<SettingsView>, CliError>(e),
        },
{
    match parse_args(args, numbers) {
        Ok(Parsed::Run(settings)) => match complete(settings) {
            Ok(config) => Ok(Parsed::Run(config)),
            Err(e) => Err(e),
        },
        Ok(Parsed::Help) => Ok(Parsed::Help),
        Err(e) => Err(e),
    }
}

/// The long name of an option.
pub open spec fn long_name(option: CliOption) -> Seq<char> {
    match option {
        CliOption::Sampler => "--sampler"@,
        CliOption::Steps => "--steps"@,
        CliOption::Guidance => "--guidance"@,
        CliOption::Class => "--class"@,
        CliOption::Start => "--start"@,
        CliOption::Checkpoint => "--checkpoint"@,
    }
}

fn name_of(option: CliOption) -> (r: &'static str)
    ensures
        r@ == long_name(option),
{
    match option {
        CliOption::Sampler => "--sampler",
        CliOption::Steps => "--steps",
        CliOption::Guidance => "--guidance",
        CliOption::Class => "--class",
        CliOption::Start => "--start",
        CliOption::Checkpoint => "--checkpoint",
    }
}

/// What is said of a refusal.
pub open spec fn message_of(error: CliError, args: Seq<Seq<char>>) -> Seq<char> {
    match error {
        CliError::MissingValue(option) => "missing value for "@ + long_name(option),
        CliError::InvalidInteger(option) => "invalid integer for "@ + long_name(option),
        CliError::InvalidFloat => "invalid float for --guidance"@,
        CliError::InvalidStartTimestep => "invalid start timestep"@,
        CliError::UnknownOption(at) => "unknown option '"@ + args[at as int] + "'. Run with --help for usage."@,
        CliError::UnknownSampler => "unknown sampler"@,
    }
}

impl CliError {
    /// What is said of the refusal.
    pub fn message(&self, args: &Vec<String>) -> (r: String)
        requires
            *self matches CliError::UnknownOption(at) ==> at < args@.len(),
        ensures
            r@ == message_of(*self, views(args@)),
    {
        match self {
            CliError::MissingValue(option) => concat("missing value for ", name_of(*option)),
            CliError::InvalidInteger(option) => concat("invalid integer for ", name_of(*option)),
            CliError::InvalidFloat => "invalid float for --guidance".to_owned(),
            CliError::InvalidStartTimestep => "invalid start timestep".to_owned(),
            CliError::UnknownOption(at) => {
                assert(views(args@)[*at as int] == args@[*at as int]@);
                let start = concat("unknown option '", args[*at].as_str());
                concat(start.as_str(), "'. Run with --help for usage.")
            },
            CliError::UnknownSampler => "unknown sampler".to_owned(),
        }
    }
}

/// Free values never replace what is given already.
pub proof fn law_free_values_replace_nothing(so_far: SettingsView, value: Seq<char>)
    requires
        so_far.checkpoint is Some,
        so_far.start_timestep is Some,
    ensures
        taken_free(so_far, value) == Ok::<SettingsView, CliError>(so_far),
{
}

/// An option that is given twice counts as it was given last.
pub proof fn law_last_option_counts(
    so_far: SettingsView,
    option: CliOption,
    first: Seq<char>,
    first_number: Option<u64>,
    second: Seq<char>,
    second_number: Option<u64>,
)
    requires
        taken(so_far, option, first, first_number) is Ok,
    ensures
        taken(taken(so_far, option, first, first_number)->Ok_0, option, second, second_number) == taken(
            so_far,
            option,
            second,
            second_number,
        ),
{
}

} // verus!
