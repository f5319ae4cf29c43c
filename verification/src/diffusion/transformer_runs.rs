//! Training and exploring a diffusion transformer: command lines, files and what happens when.

use vstd::prelude::*;

use crate::numbers::{one, Arithmetic, Term};
use crate::text::{
    concat, decimal, decimal_string, ends_with, finishes_with, padded, padded_string, parse_usize, same_text, string_of,
    to_chars, usize_of, views,
};

verus! {

/// How many images lead from one class to another.
pub const MORPH_FRAMES: usize = 10;

/// The first place of an option among the arguments from `from` on.
pub open spec fn place_of_option(args: Seq<Seq<char>>, option: Seq<char>, from: nat) -> Option<nat>
    decreases args.len() - from,
{
    if from >= args.len() {
        None
    } else if args[from as int] == option {
        Some(from)
    } else {
        place_of_option(args, option, from + 1)
    }
}

/// The argument behind the first place of an option.
pub open spec fn value_of_option(args: Seq<Seq<char>>, option: Seq<char>) -> Option<Seq<char>> {
    match place_of_option(args, option, 0) {
        Some(i) => if i + 1 < args.len() {
            Some(args[i as int + 1])
        } else {
            None
        },
        None => None,
    }
}

/// The place of the argument behind the first place of an option.
pub fn find_value(args: &Vec<String>, option: &str) -> (r: Option<usize>)
    ensures
        match r {
            Some(i) => i < args@.len() && value_of_option(views(args@), option@) == Some(args@[i as int]@),
            None => value_of_option(views(args@), option@) is None,
        },
{
    let ghost all = views(args@);
    let mut i: usize = 0;
    while i < args.len()
        invariant
            i <= args@.len(),
            all == views(args@),
            place_of_option(all, option@, 0) == place_of_option(all, option@, i as nat),
        decreases args@.len() - i,
    {
        assert(all[i as int] == args@[i as int]@);
        if same_text(args[i].as_str(), option) {
            if i < args.len() - 1 {
                assert(all[i as int + 1] == args@[i as int + 1]@);
                return Some(i + 1);
            }
            return None;
        }
        i += 1;
    }
    None
}

/// The number behind an option, or a number to fall back on.
pub open spec fn number_of_option(args: Seq<Seq<char>>, option: Seq<char>, default: usize) -> usize {
    match value_of_option(args, option) {
        Some(value) => match usize_of(value) {
            Some(number) => number,
            None => default,
        },
        None => default,
    }
}

/// The number behind an option, or a number to fall back on.
pub fn find_number(args: &Vec<String>, option: &str, default: usize) -> (r: usize)
    ensures
        r == number_of_option(views(args@), option@, default),
{
    match find_value(args, option) {
        Some(i) => match parse_usize(args[i].as_str()) {
            Some(number) => number,
            None => default,
        },
        None => default,
    }
}

/// What a command line asks to be drawn.
#[derive(Clone, Copy, PartialEq, Eq)]
pub struct Tour {
    /// A class at several strengths of guidance.
    pub sweep: Option<usize>,
    /// The way from a class to another.
    pub morph: Option<(usize, usize)>,
}

/// Whether a command line asks for something: it names it, or nothing.
pub open spec fn asks_for_feature(args: Seq<Seq<char>>, feature: Seq<char>) -> bool {
    match value_of_option(args, "--mode"@) {
        Some(mode) => mode == feature,
        None => true,
    }
}

/// What a command line asks to be drawn.
pub open spec fn tour_of(args: Seq<Seq<char>>) -> Tour {
    Tour {
        sweep: if asks_for_feature(args, "cfg"@) {
            Some(number_of_option(args, "--class"@, 0))
        } else {
            None
        },
        morph: if asks_for_feature(args, "morph"@) {
            Some((number_of_option(args, "--from"@, 0), number_of_option(args, "--to"@, 3)))
        } else {
            None
        },
    }
}

fn asks(args: &Vec<String>, feature: &str) -> (r: bool)
    ensures
        r == asks_for_feature(views(args@), feature@),
{
    match find_value(args, "--mode") {
        Some(i) => same_text(args[i].as_str(), feature),
        None => true,
    }
}

/// What a command line asks to be drawn.
pub fn plan_tour(args: &Vec<String>) -> (r: Tour)
    ensures
        r == tour_of(views(args@)),
{
    let sweep: Option<usize> = if asks(args, "cfg") {
        Some(find_number(args, "--class", 0))
    } else {
        None
    };
    let morph: Option<(usize, usize)> = if asks(args, "morph") {
        Some((find_number(args, "--from", 0), find_number(args, "--to", 3)))
    } else {
        None
    };
    Tour { sweep, morph }
}

/// The first argument that names saved weights.
pub fn find_weights(args: &Vec<String>) -> (r: Option<usize>)
    ensures
        match r {
            Some(i) => i < args@.len() && finishes_with(args@[i as int]@, ".mpk"@) && forall|j: int|
                0 <= j < i ==> !finishes_with((#[trigger] args@[j])@, ".mpk"@),
            None => forall|j: int| 0 <= j < args@.len() ==> !finishes_with((#[trigger] args@[j])@, ".mpk"@),
        },
{
    let mut i: usize = 0;
    while i < args.len()
        invariant
            i <= args@.len(),
            forall|j: int| 0 <= j < i ==> !finishes_with((#[trigger] args@[j])@, ".mpk"@),
        decreases args@.len() - i,
    {
        if ends_with(args[i].as_str(), ".mpk") {
            return Some(i);
        }
        i += 1;
    }
    None
}

/// A path without endings for weights, however many there are.
pub open spec fn stem_of(path: Seq<char>) -> Seq<char>
    decreases path.len(),
{
    if finishes_with(path, ".mpk"@) && path.len() >= 4 {
        stem_of(path.take(path.len() - 4))
    } else {
        path
    }
}

/// A path without endings for weights.
pub fn trim_ending(path: &str) -> (r: String)
    ensures
        r@ == stem_of(path@),
{
    let chars = to_chars(path);
    let mut end: usize = chars.len();
    assert(path@.take(end as int) =~= path@);
    loop
        invariant
            end <= chars@.len(),
            chars@ == path@,
            stem_of(path@) == stem_of(path@.take(end as int)),
        decreases end,
    {
        let kept = string_of(&chars, 0, end);
        assert(kept@ =~= path@.take(end as int));
        if end < 4 || !ends_with(kept.as_str(), ".mpk") {
            return kept;
        }
        assert(path@.take(end as int).take(end - 4) =~= path@.take(end - 4));
        end = end - 4;
    }
}

/// Where training is to go on.
pub enum Resume {
    /// Nowhere: it starts anew.
    Fresh,
    /// At the latest weights.
    Latest,
    /// At the weights in a file.
    At(String),
}

/// Whether a word asks for the latest weights.
pub open spec fn means_latest(word: Seq<char>) -> bool {
    word == "resume"@ || word == "auto"@ || word == "1"@ || word == "true"@
}

/// Where training is to go on: the first argument behind the program's name says so, else the
/// environment.
pub open spec fn resume_word(args: Seq<Seq<char>>, variable: Option<Seq<char>>) -> Option<Seq<char>> {
    if args.len() > 1 {
        Some(args[1])
    } else {
        variable
    }
}

fn read_word(word: &String) -> (r: Resume)
    ensures
        match r {
            Resume::Fresh => false,
            Resume::Latest => means_latest(word@),
            Resume::At(path) => !means_latest(word@) && path@ == word@,
        },
{
    let w = word.as_str();
    if same_text(w, "resume") || same_text(w, "auto") || same_text(w, "1") || same_text(w, "true") {
        Resume::Latest
    } else {
        Resume::At(w.to_owned())
    }
}

/// Where training is to go on.
pub fn plan_resume(args: &Vec<String>, variable: &Option<String>) -> (r: Resume)
    ensures
        ({
            let word = resume_word(
                views(args@),
                match *variable {
                    Some(v) => Some(v@),
                    None => None,
                },
            );
            match r {
                Resume::Fresh => word is None,
                Resume::Latest => word matches Some(w) && means_latest(w),
                Resume::At(path) => word matches Some(w) && !means_latest(w) && path@ == w,
            }
        }),
{
    if args.len() > 1 {
        assert(views(args@)[1] == args@[1]@);
        read_word(&args[1])
    } else {
        match variable {
            Some(word) => read_word(word),
            None => Resume::Fresh,
        }
    }
}

/// The step that training starts at: behind the step of the weights that it goes on at.
pub fn first_step(found: Option<usize>) -> (r: usize)
    requires
        found matches Some(step) ==> step < usize::MAX,
    ensures
        r == match found {
            Some(step) => step + 1,
            None => 1,
        },
{
    match found {
        Some(step) => step + 1,
        None => 1,
    }
}

/// What happens at a training step besides training.
#[derive(Clone, Copy, PartialEq, Eq, Structural)]
pub struct Milestone {
    /// The loss is reported.
    pub report: bool,
    /// Weights and images are saved.
    pub save: bool,
}

/// What happens at a step besides training: reports at the first and at every fiftieth, weights and
/// images at every thousandth and at the last.
pub open spec fn milestone_at(step: nat, num_steps: nat) -> Milestone {
    Milestone { report: step % 50 == 0 || step == 1, save: step % 1000 == 0 || step == num_steps }
}

/// What happens at a step besides training.
pub fn milestone(step: usize, num_steps: usize) -> (r: Milestone)
    ensures
        r == milestone_at(step as nat, num_steps as nat),
{
    Milestone { report: step % 50 == 0 || step == 1, save: step % 1000 == 0 || step == num_steps }
}

/// The file for the weights of a step, without its ending.
pub fn weights_path(step: usize) -> (r: String)
    ensures
        r@ == "checkpoints/dit_fashion_step_"@ + padded(step as nat, 5),
{
    concat("checkpoints/dit_fashion_step_", padded_string(step, 5).as_str())
}

/// What the files for the images of a step begin with.
pub open spec fn step_stem(step: nat) -> Seq<char> {
    "samples/dit_step_"@ + padded(step, 5)
}

/// The file for the images of all classes at a step.
pub fn lookbook_path(step: usize) -> (r: String)
    ensures
        r@ == step_stem(step as nat) + "_lookbook.png"@,
{
    let start = concat("samples/dit_step_", padded_string(step, 5).as_str());
    concat(start.as_str(), "_lookbook.png")
}

/// The file for the image of a class at a step.
pub fn class_path(step: usize, class: usize, name: &str) -> (r: String)
    ensures
        r@ == step_stem(step as nat) + "_class_"@ + decimal(class as nat) + "_"@ + name@ + ".png"@,
{
    let start = concat("samples/dit_step_", padded_string(step, 5).as_str());
    let marked = concat(start.as_str(), "_class_");
    let numbered = concat(marked.as_str(), decimal_string(class).as_str());
    let parted = concat(numbered.as_str(), "_");
    let named = concat(parted.as_str(), name);
    concat(named.as_str(), ".png")
}

/// The file for a class at several strengths of guidance.
pub fn sweep_path(name: &str) -> (r: String)
    ensures
        r@ == "samples/dit_cfg_sweep_"@ + name@ + ".png"@,
{
    let start = concat("samples/dit_cfg_sweep_", name);
    concat(start.as_str(), ".png")
}

/// The file for the way from a class to another.
pub fn morph_path(from: &str, to: &str) -> (r: String)
    ensures
        r@ == "samples/dit_morph_"@ + from@ + "_to_"@ + to@ + ".png"@,
{
    let start = concat("samples/dit_morph_", from);
    let parted = concat(start.as_str(), "_to_");
    let named = concat(parted.as_str(), to);
    concat(named.as_str(), ".png")
}

/// How far an image on the way from one class to another has come.
pub open spec fn morph_share<N: Arithmetic>(n: &N, frame: usize) -> N::Num {
    n.value(Term::Div(n.value(Term::Count(frame)), n.value(Term::Count((MORPH_FRAMES - 1) as usize))))
}

/// Two descriptions of classes, mixed.
pub open spec fn mixed<N: Arithmetic>(n: &N, a: Seq<N::Num>, b: Seq<N::Num>, share: N::Num) -> Seq<N::Num> {
    let rest = n.value(Term::Sub(one(n), share));
    Seq::new(
        a.len(),
        |i: int| n.value(Term::Add(n.value(Term::Mul(a[i], rest)), n.value(Term::Mul(b[i], share)))),
    )
}

/// The description of what lies between two classes at an image on the way.
pub fn blend<N: Arithmetic>(n: &N, a: &Vec<N::Num>, b: &Vec<N::Num>, frame: usize) -> (r: Vec<N::Num>)
    requires
        n.wf(),
        a@.len() == b@.len(),
    ensures
        r@ == mixed(n, a@, b@, morph_share(n, frame)),
{
    let share = n.eval(Term::Div(n.eval(Term::Count(frame)), n.eval(Term::Count(MORPH_FRAMES - 1))));
    let rest = n.eval(Term::Sub(n.eval(Term::Decimal(1, 0)), share));
    let ghost goal = mixed(n, a@, b@, morph_share(n, frame));
    let mut out: Vec<N::Num> = Vec::new();
    let mut i: usize = 0;
    assert(goal.take(0) =~= Seq::<N::Num>::empty());
    while i < a.len()
        invariant
            n.wf(),
            i <= a@.len(),
            a@.len() == b@.len(),
            share == morph_share(n, frame),
            rest == n.value(Term::Sub(one(n), share)),
            goal == mixed(n, a@, b@, share),
            out@ == goal.take(i as int),
        decreases a@.len() - i,
    {
        let left = n.eval(Term::Mul(a[i], rest));
        let right = n.eval(Term::Mul(b[i], share));
        out.push(n.eval(Term::Add(left, right)));
        i += 1;
        assert(out@ =~= goal.take(i as int));
    }
    assert(goal.take(i as int) =~= goal);
    out
}

/// A command line that names no feature asks for all of them, with the usual classes.
pub proof fn law_no_mode_means_everything(args: Seq<Seq<char>>)
    requires
        forall|i: int|
            0 <= i < args.len() ==> (#[trigger] args[i]) != "--mode"@ && args[i] != "--class"@ && args[i]
                != "--from"@ && args[i] != "--to"@,
    ensures
        tour_of(args) == (Tour { sweep: Some(0usize), morph: Some((0usize, 3usize)) }),
{
    lemma_option_absent(args, "--mode"@, 0);
    lemma_option_absent(args, "--class"@, 0);
    lemma_option_absent(args, "--from"@, 0);
    lemma_option_absent(args, "--to"@, 0);
}

proof fn lemma_option_absent(args: Seq<Seq<char>>, option: Seq<char>, from: nat)
    requires
        forall|i: int| from <= i < args.len() ==> (#[trigger] args[i]) != option,
    ensures
        place_of_option(args, option, from) is None,
    decreases args.len() - from,
{
    if from < args.len() {
        assert(args[from as int] != option);
        lemma_option_absent(args, option, from + 1);
    }
}

} // verus!
