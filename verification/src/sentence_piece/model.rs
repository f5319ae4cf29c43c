//! What training a unigram tokenizer makes of a text.

use vstd::prelude::*;

use crate::ieee::double_rank;
use crate::sentence_piece::viterbi::{segmented, Scores};
use crate::sorting::text_le;
use crate::text::{flatten, occurs_at, words_of};
use crate::token_table::enumerates;

verus! {

/// The mark in front of every word.
pub const WORD_MARK: char = '▁';

/// Longer substrings are not collected.
pub const MAX_SUBSTR_LEN: usize = 16;

/// How many times larger than the final vocabulary the first one may be.
pub const SEED_VOCAB_MULTIPLIER: usize = 16;

/// The score of the unknown token, minus ten billion as a double.
pub const UNKNOWN_SCORE: u64 = 0xC202_A05F_2000_0000;

/// The words of a text, marked.
pub open spec fn marked_words(text: Seq<char>) -> Seq<Seq<char>> {
    words_of(text).map_values(|w: Seq<char>| seq![WORD_MARK] + w)
}

/// The words of a text, marked and run together.
pub open spec fn marked_text(text: Seq<char>) -> Seq<char> {
    flatten(marked_words(text))
}

/// Whether the substring `t` is counted at place `i`: it occurs there, and it is not longer than
/// `max`.
pub open spec fn counted_at(text: Seq<char>, max: nat, t: Seq<char>, i: int) -> bool {
    0 < t.len() <= max && occurs_at(text, t, i)
}

/// How often the substring `t` is counted at the first `n` places.
pub open spec fn count_upto(text: Seq<char>, max: nat, t: Seq<char>, n: nat) -> nat
    decreases n,
{
    if n == 0 {
        0
    } else {
        count_upto(text, max, t, (n - 1) as nat) + if counted_at(text, max, t, n - 1) {
            1nat
        } else {
            0nat
        }
    }
}

/// How often the substring `t` is counted.
pub open spec fn count_of(text: Seq<char>, max: nat, t: Seq<char>) -> nat {
    count_upto(text, max, t, text.len())
}

/// The counted substrings of one character.
pub open spec fn counted_singles(text: Seq<char>, max: nat) -> Set<Seq<char>> {
    Set::new(|t: Seq<char>| t.len() == 1 && count_of(text, max, t) > 0)
}

/// The counted substrings of several characters.
pub open spec fn counted_multis(text: Seq<char>, max: nat) -> Set<Seq<char>> {
    Set::new(|t: Seq<char>| t.len() > 1 && count_of(text, max, t) > 0)
}

/// The counts of a list of substrings, added up.
pub open spec fn sum_of_counts(text: Seq<char>, max: nat, list: Seq<Seq<char>>) -> nat
    decreases list.len(),
{
    if list.len() == 0 {
        0
    } else {
        sum_of_counts(text, max, list.drop_last()) + count_of(text, max, list.last())
    }
}

/// The smaller of two numbers.
pub open spec fn at_most(a: nat, b: nat) -> nat {
    if a <= b {
        a
    } else {
        b
    }
}

/// Whether `result` is the first vocabulary: all single characters of `singles`, and as many of the
/// longer substrings as there is room for, in the order of `ranked`, which goes from frequent to
/// rare ones. Every substring scores its share of the counts of all.
pub open spec fn seeded_with(
    text: Seq<char>,
    max: nat,
    size: nat,
    share: spec_fn(u128, u128) -> u64,
    result: Scores,
    singles: Seq<Seq<char>>,
    ranked: Seq<Seq<char>>,
) -> bool {
    let kept = singles + ranked.take(at_most((size - singles.len()) as nat, ranked.len()) as int);
    let total = sum_of_counts(text, max, kept);
    &&& enumerates(singles, counted_singles(text, max))
    &&& enumerates(ranked, counted_multis(text, max))
    &&& forall|i: int, j: int|
        0 <= i <= j < ranked.len() ==> count_of(text, max, ranked[i]) >= count_of(text, max, ranked[j])
    &&& result == Map::new(
        |t: Seq<char>| kept.contains(t),
        |t: Seq<char>| share(count_of(text, max, t) as u128, total as u128),
    ).insert("<unk>"@, UNKNOWN_SCORE)
}

/// Whether `result` may be the first vocabulary for `text`. The choice among equally frequent
/// substrings is open.
pub open spec fn seeded(text: Seq<char>, max: nat, size: nat, share: spec_fn(u128, u128) -> u64, result: Scores) -> bool {
    exists|singles: Seq<Seq<char>>, ranked: Seq<Seq<char>>|
        seeded_with(text, max, size, share, result, singles, ranked)
}

/// The pieces of the first `n` sentences.
pub open spec fn pieces_of(scores: Scores, sum: spec_fn(u64, u64) -> u64, sentences: Seq<Seq<char>>, n: nat) -> Seq<Seq<char>>
    decreases n,
{
    if n == 0 {
        Seq::empty()
    } else {
        pieces_of(scores, sum, sentences, (n - 1) as nat) + segmented(scores, sum, sentences[n - 1])
    }
}

/// How often `t` stands in `list`.
pub open spec fn occurrences(list: Seq<Seq<char>>, t: Seq<char>) -> nat
    decreases list.len(),
{
    if list.len() == 0 {
        0
    } else {
        occurrences(list.drop_last(), t) + if list.last() == t {
            1nat
        } else {
            0nat
        }
    }
}

/// Whether `t` stays in the vocabulary even when it is not used.
pub open spec fn is_kept_always(t: Seq<char>) -> bool {
    t.len() == 1 || t == "<unk>"@
}

/// The tokens that are kept though no piece uses them.
pub open spec fn unused_kept(scores: Scores, pieces: Seq<Seq<char>>) -> Set<Seq<char>> {
    Set::new(|t: Seq<char>| scores.contains_key(t) && is_kept_always(t) && occurrences(pieces, t) == 0)
}

/// Twice the count of a token: two for every use, one for a token that is kept without use.
pub open spec fn halves(scores: Scores, pieces: Seq<Seq<char>>, t: Seq<char>) -> nat {
    if unused_kept(scores, pieces).contains(t) {
        1
    } else {
        2 * occurrences(pieces, t)
    }
}

/// Twice the sum of all counts.
pub open spec fn total_halves(scores: Scores, pieces: Seq<Seq<char>>) -> nat {
    2 * pieces.len() + unused_kept(scores, pieces).len()
}

/// The vocabulary with scores from the pieces that its own segmentation of the sentences gives.
pub open spec fn reestimated(
    scores: Scores,
    sum: spec_fn(u64, u64) -> u64,
    share: spec_fn(u128, u128) -> u64,
    sentences: Seq<Seq<char>>,
) -> Scores {
    let pieces = pieces_of(scores, sum, sentences, sentences.len());
    Map::new(
        |t: Seq<char>| halves(scores, pieces, t) > 0,
        |t: Seq<char>| share(halves(scores, pieces, t) as u128, total_halves(scores, pieces) as u128),
    )
}

/// The tokens that pruning never drops.
pub open spec fn unpruned(scores: Scores) -> Set<Seq<char>> {
    Set::new(|t: Seq<char>| scores.contains_key(t) && is_kept_always(t))
}

/// The tokens of several characters.
pub open spec fn multi_tokens(scores: Scores) -> Set<Seq<char>> {
    Set::new(|t: Seq<char>| scores.contains_key(t) && t.len() > 1)
}

/// Whether `result` is `scores` cut down to `target` tokens: what is never dropped, and from the
/// front of `ranked`, which goes from high scores to low ones, as many as there is room for.
pub open spec fn pruned_with(scores: Scores, target: nat, result: Scores, ranked: Seq<Seq<char>>) -> bool {
    let base = unpruned(scores);
    let room = if target > base.len() {
        (target - base.len()) as nat
    } else {
        0
    };
    let taken = ranked.take(at_most(room, ranked.len()) as int);
    &&& enumerates(ranked, multi_tokens(scores))
    &&& forall|i: int, j: int|
        0 <= i <= j < ranked.len() ==> double_rank(scores[ranked[i]]) >= double_rank(scores[ranked[j]])
    &&& result == Map::new(|t: Seq<char>| base.contains(t) || taken.contains(t), |t: Seq<char>| scores[t])
}

/// Whether `result` may be `scores` cut down to `target` tokens. The choice among equal scores is
/// open.
pub open spec fn pruned(scores: Scores, target: nat, result: Scores) -> bool {
    exists|ranked: Seq<Seq<char>>| pruned_with(scores, target, result, ranked)
}

/// The size to prune to: four fifths of the vocabulary, but no less than what is wanted.
pub open spec fn prune_target(size: nat, vocab_size: nat) -> nat {
    if size * 8 / 10 >= vocab_size {
        size * 8 / 10
    } else {
        vocab_size
    }
}

/// Whether one round of training may go from `before` to `after`.
pub open spec fn round(
    sentences: Seq<Seq<char>>,
    vocab_size: nat,
    sum: spec_fn(u64, u64) -> u64,
    share: spec_fn(u128, u128) -> u64,
    before: Scores,
    after: Scores,
) -> bool {
    let scored = reestimated(before, sum, share, sentences);
    pruned(scored, prune_target(scored.len(), vocab_size), after)
}

/// Whether training may go through the vocabularies `trace`: it starts with a first vocabulary and
/// goes on for as long as the vocabulary is too large.
pub open spec fn trains_through(
    text: Seq<char>,
    vocab_size: nat,
    sum: spec_fn(u64, u64) -> u64,
    share: spec_fn(u128, u128) -> u64,
    trace: Seq<Scores>,
) -> bool {
    &&& trace.len() > 0
    &&& seeded(
        marked_text(text),
        MAX_SUBSTR_LEN as nat,
        (vocab_size * SEED_VOCAB_MULTIPLIER) as nat,
        share,
        trace[0],
    )
    &&& forall|k: int|
        0 <= k < trace.len() - 1 ==> (#[trigger] trace[k]).len() > vocab_size && round(
            marked_words(text),
            vocab_size,
            sum,
            share,
            trace[k],
            trace[k + 1],
        )
    &&& trace.last().len() <= vocab_size
}

/// Whether `list` holds the tokens of `scores` in alphabetical order.
pub open spec fn alphabetical(list: Seq<Seq<char>>, scores: Scores) -> bool {
    &&& enumerates(list, scores.dom())
    &&& forall|i: int, j: int| 0 <= i <= j < list.len() ==> text_le(list[i], list[j])
}

/// The place of each token in a list; of several places the last one counts.
pub open spec fn places_of(list: Seq<Seq<char>>) -> Map<Seq<char>, usize>
    decreases list.len(),
{
    if list.len() == 0 {
        Map::empty()
    } else {
        places_of(list.drop_last()).insert(list.last(), (list.len() - 1) as usize)
    }
}

} // verus!
