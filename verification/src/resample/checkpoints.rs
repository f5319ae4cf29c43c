//! Checkpoint files: their names, and the latest of them.

use vstd::prelude::*;

use crate::text::{
    begins_with, concat, ends_with, finishes_with, padded, padded_string, parse_usize, starts_with, string_of, to_chars,
    usize_of, views,
};

verus! {

/// The epoch in the name of a file with averaged weights.
pub open spec fn averaged_epoch(name: Seq<char>) -> Option<usize> {
    if begins_with(name, "ema_epoch_"@) && finishes_with(name, ".safetensors"@) && name.len() >= 22 {
        usize_of(name.subrange(10, name.len() - 12))
    } else {
        None
    }
}

/// The epoch in the name of a file with averaged weights.
pub fn epoch_of(name: &str) -> (r: Option<usize>)
    ensures
        r == averaged_epoch(name@),
{
    if !starts_with(name, "ema_epoch_") || !ends_with(name, ".safetensors") {
        return None;
    }
    let chars = to_chars(name);
    if chars.len() < 22 {
        return None;
    }
    let middle = string_of(&chars, 10, chars.len() - 12);
    parse_usize(middle.as_str())
}

/// The place, among the first `k` names, of the latest file with averaged weights; of two with the
/// same epoch the later one in the list.
pub open spec fn latest_among(names: Seq<Seq<char>>, k: nat) -> Option<int>
    decreases k,
{
    if k == 0 {
        None
    } else {
        let before = latest_among(names, (k - 1) as nat);
        match averaged_epoch(names[k - 1]) {
            None => before,
            Some(epoch) => match before {
                Some(i) => if epoch >= averaged_epoch(names[i])->0 {
                    Some(k - 1)
                } else {
                    before
                },
                None => Some(k - 1),
            },
        }
    }
}

/// The place of the latest file with averaged weights.
pub fn find_latest(names: &Vec<String>) -> (r: Option<usize>)
    ensures
        match r {
            Some(i) => latest_among(views(names@), names@.len()) == Some(i as int) && i < names@.len(),
            None => latest_among(views(names@), names@.len()) is None,
        },
{
    let ghost all = views(names@);
    let mut best: Option<usize> = None;
    let mut latest_epoch: usize = 0;
    let mut k: usize = 0;
    while k < names.len()
        invariant
            k <= names@.len(),
            all == views(names@),
            match best {
                Some(i) => latest_among(all, k as nat) == Some(i as int) && i < k && averaged_epoch(all[i as int]) == Some(
                    latest_epoch,
                ),
                None => latest_among(all, k as nat) is None && latest_epoch == 0,
            },
        decreases names@.len() - k,
    {
        assert(all[k as int] == names@[k as int]@);
        match epoch_of(names[k].as_str()) {
            Some(epoch) => {
                if epoch >= latest_epoch {
                    latest_epoch = epoch;
                    best = Some(k);
                }
            },
            None => {},
        }
        k += 1;
    }
    best
}

/// No file with averaged weights is later than the one that is found, and none is passed over.
pub proof fn law_latest_is_latest(names: Seq<Seq<char>>, k: nat)
    requires
        k <= names.len(),
    ensures
        match latest_among(names, k) {
            Some(i) => {
                &&& 0 <= i < k
                &&& averaged_epoch(names[i]) is Some
                &&& forall|j: int|
                    0 <= j < k ==> (averaged_epoch(#[trigger] names[j]) matches Some(e) ==> e <= averaged_epoch(
                        names[i],
                    )->0)
            },
            None => forall|j: int| 0 <= j < k ==> averaged_epoch(#[trigger] names[j]) is None,
        },
    decreases k,
{
    if k > 0 {
        law_latest_is_latest(names, (k - 1) as nat);
    }
}

/// The file that holds something of an epoch.
pub open spec fn epoch_file(kind: Seq<char>, epoch: nat, ending: Seq<char>) -> Seq<char> {
    "unet_checkpoints/"@ + kind + "epoch_"@ + padded(epoch, 4) + ending
}

fn epoch_path(kind: &str, epoch: usize, ending: &str) -> (r: String)
    ensures
        r@ == epoch_file(kind@, epoch as nat, ending@),
{
    let start = concat("unet_checkpoints/", kind);
    let named = concat(start.as_str(), "epoch_");
    let numbered = concat(named.as_str(), padded_string(epoch, 4).as_str());
    concat(numbered.as_str(), ending)
}

/// The files of an epoch.
pub struct EpochFiles {
    /// The weights.
    pub weights: String,
    /// The state of the optimizer.
    pub optimizer: String,
    /// The averaged weights.
    pub averaged: String,
    /// The images that the weights draw.
    pub preview: String,
}

/// The files of an epoch.
pub fn epoch_files(epoch: usize) -> (r: EpochFiles)
    ensures
        r.weights@ == epoch_file(""@, epoch as nat, ".safetensors"@),
        r.optimizer@ == epoch_file("opt_"@, epoch as nat, ".safetensors"@),
        r.averaged@ == epoch_file("ema_"@, epoch as nat, ".safetensors"@),
        r.preview@ == epoch_file(""@, epoch as nat, "_online_grid.png"@),
{
    EpochFiles {
        weights: epoch_path("", epoch, ".safetensors"),
        optimizer: epoch_path("opt_", epoch, ".safetensors"),
        averaged: epoch_path("ema_", epoch, ".safetensors"),
        preview: epoch_path("", epoch, "_online_grid.png"),
    }
}

/// The file with the images that the averaged weights of an epoch draw, `scale` being the guidance as
/// a rounded number.
pub fn averaged_preview(epoch: usize, scale: &str) -> (r: String)
    ensures
        r@ == epoch_file(""@, epoch as nat, "_s"@ + scale@ + "_grid.png"@),
{
    let start = concat("_s", scale);
    let ending = concat(start.as_str(), "_grid.png");
    epoch_path("", epoch, ending.as_str())
}

/// Training starts at the first epoch, or behind the epoch that is asked for if its weights and its
/// optimizer state are there.
pub open spec fn first_epoch(asked: Option<usize>, found: bool) -> nat {
    match asked {
        Some(epoch) => if found {
            epoch as nat + 1
        } else {
            1
        },
        None => 1,
    }
}

/// The epoch that a command line asks to go on behind.
pub open spec fn asked_epoch(args: Seq<Seq<char>>) -> Option<usize> {
    if args.len() > 1 {
        usize_of(args[1])
    } else {
        None
    }
}

/// The epoch that a command line, the program's name included, asks to go on behind.
pub fn resume_epoch(args: &Vec<String>) -> (r: Option<usize>)
    ensures
        r == asked_epoch(views(args@)),
{
    if args.len() > 1 {
        assert(views(args@)[1] == args@[1]@);
        parse_usize(args[1].as_str())
    } else {
        None
    }
}

/// The epoch that training starts at.
pub fn start_epoch(asked: Option<usize>, found: bool) -> (r: usize)
    requires
        asked matches Some(epoch) ==> epoch < usize::MAX,
    ensures
        r == first_epoch(asked, found),
{
    match asked {
        Some(epoch) => if found {
            epoch + 1
        } else {
            1
        },
        None => 1,
    }
}

} // verus!
