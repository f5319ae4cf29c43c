//! How training counts: the uses of the tokens, and the parts that their scores are made of.

use vstd::prelude::*;

use crate::sentence_piece::model::{
    count_of, count_upto, counted_at, halves, occurrences, pieces_of, reestimated, total_halves, unused_kept,
};
use crate::sentence_piece::viterbi::{segmented, Scores};
use crate::token_table::enumerates;

verus! {

/// All pieces of the sentences, in order.
pub open spec fn cut_up(scores: Scores, sum: spec_fn(u64, u64) -> u64, sentences: Seq<Seq<char>>) -> Seq<Seq<char>> {
    sentences.map_values(|s: Seq<char>| segmented(scores, sum, s)).flatten()
}

/// The number of pieces that are `t`.
pub open spec fn uses(pieces: Seq<Seq<char>>, t: Seq<char>) -> nat {
    pieces.to_multiset().count(t)
}

/// The parts of a list of tokens, added up.
pub open spec fn sum_of_parts(list: Seq<Seq<char>>, part: spec_fn(Seq<char>) -> nat) -> nat
    decreases list.len(),
{
    if list.len() == 0 {
        0
    } else {
        sum_of_parts(list.drop_last(), part) + part(list.last())
    }
}

/// Whether `result` scores the tokens by their parts of `whole`: it holds what is used, and of what
/// was there before the single characters and the unknown token; the parts add up to the whole; two
/// used tokens have parts as large as they have uses; and an unused one has half the part of a token
/// with one use.
pub open spec fn shares_uses(
    scores: Scores,
    pieces: Seq<Seq<char>>,
    share: spec_fn(u128, u128) -> u64,
    result: Scores,
    part: spec_fn(Seq<char>) -> nat,
    whole: nat,
) -> bool {
    &&& forall|t: Seq<char>| #[trigger]
        result.contains_key(t) <==> uses(pieces, t) > 0 || (scores.contains_key(t) && (t.len() == 1 || t == "<unk>"@))
    &&& forall|t: Seq<char>| #[trigger]
        result.contains_key(t) ==> part(t) > 0 && result[t] == share(part(t) as u128, whole as u128)
    &&& forall|t: Seq<char>, u: Seq<char>|
        #![trigger result.contains_key(t), result.contains_key(u)]
        result.contains_key(t) && result.contains_key(u) && uses(pieces, u) > 0 ==> if uses(pieces, t) > 0 {
            part(t) * uses(pieces, u) == part(u) * uses(pieces, t)
        } else {
            2 * part(t) * uses(pieces, u) == part(u)
        }
    &&& forall|t: Seq<char>, u: Seq<char>|
        #![trigger result.contains_key(t), result.contains_key(u)]
        result.contains_key(t) && result.contains_key(u) && uses(pieces, t) == 0 && uses(pieces, u) == 0 ==> part(t)
            == part(u)
    &&& forall|list: Seq<Seq<char>>| #[trigger] enumerates(list, result.dom()) ==> sum_of_parts(list, part) == whole
}

proof fn lemma_occurrences_are_uses(pieces: Seq<Seq<char>>, t: Seq<char>)
    ensures
        occurrences(pieces, t) == uses(pieces, t),
    decreases pieces.len(),
{
    broadcast use vstd::seq_lib::group_to_multiset_ensures;

    if pieces.len() > 0 {
        let init = pieces.drop_last();
        lemma_occurrences_are_uses(init, t);
        assert(pieces =~= init.push(pieces.last()));
    }
}

proof fn lemma_pieces_are_cut_up(scores: Scores, sum: spec_fn(u64, u64) -> u64, sentences: Seq<Seq<char>>, n: nat)
    requires
        n <= sentences.len(),
    ensures
        pieces_of(scores, sum, sentences, n) == cut_up(scores, sum, sentences.take(n as int)),
    decreases n,
{
    let f = |s: Seq<char>| segmented(scores, sum, s);
    let cuts = sentences.take(n as int).map_values(f);
    if n == 0 {
        assert(cuts =~= Seq::<Seq<Seq<char>>>::empty());
    } else {
        lemma_pieces_are_cut_up(scores, sum, sentences, (n - 1) as nat);
        let fewer = sentences.take(n - 1).map_values(f);
        assert(cuts =~= fewer.push(segmented(scores, sum, sentences[n - 1])));
        fewer.lemma_flatten_push(segmented(scores, sum, sentences[n - 1]));
    }
}

proof fn lemma_sum_of_uses(list: Seq<Seq<char>>, pieces: Seq<Seq<char>>, part: spec_fn(Seq<char>) -> nat)
    requires
        forall|t: Seq<char>| #[trigger] part(t) == occurrences(pieces, t),
        list.no_duplicates(),
        forall|k: int| 0 <= k < pieces.len() ==> list.contains(#[trigger] pieces[k]),
    ensures
        sum_of_parts(list, part) == pieces.len(),
    decreases pieces.len(),
{
    if pieces.len() == 0 {
        lemma_sum_of_nothing(list, part);
    } else {
        let init = pieces.drop_last();
        let last = pieces.last();
        let fewer = |t: Seq<char>| occurrences(init, t);
        let one = |t: Seq<char>|
            if t == last {
                1nat
            } else {
                0nat
            };
        assert forall|k: int| 0 <= k < init.len() implies list.contains(#[trigger] init[k]) by {
            assert(init[k] == pieces[k]);
        }
        lemma_sum_of_uses(list, init, fewer);
        lemma_sums_add(list, fewer, one, part);
        assert(pieces[pieces.len() - 1] == last);
        lemma_sum_of_one(list, last, one);
    }
}

proof fn lemma_sum_of_nothing(list: Seq<Seq<char>>, part: spec_fn(Seq<char>) -> nat)
    requires
        forall|k: int| 0 <= k < list.len() ==> part(#[trigger] list[k]) == 0,
    ensures
        sum_of_parts(list, part) == 0,
    decreases list.len(),
{
    if list.len() > 0 {
        let init = list.drop_last();
        assert forall|k: int| 0 <= k < init.len() implies part(#[trigger] init[k]) == 0 by {
            assert(init[k] == list[k]);
        }
        lemma_sum_of_nothing(init, part);
        assert(list[list.len() - 1] == list.last());
    }
}

proof fn lemma_sums_add(
    list: Seq<Seq<char>>,
    a: spec_fn(Seq<char>) -> nat,
    b: spec_fn(Seq<char>) -> nat,
    c: spec_fn(Seq<char>) -> nat,
)
    requires
        forall|t: Seq<char>| #[trigger] c(t) == a(t) + b(t),
    ensures
        sum_of_parts(list, c) == sum_of_parts(list, a) + sum_of_parts(list, b),
    decreases list.len(),
{
    if list.len() > 0 {
        lemma_sums_add(list.drop_last(), a, b, c);
    }
}

proof fn lemma_sum_of_one(list: Seq<Seq<char>>, x: Seq<char>, one: spec_fn(Seq<char>) -> nat)
    requires
        list.no_duplicates(),
        list.contains(x),
        forall|t: Seq<char>| #[trigger] one(t) == (if t == x {
            1nat
        } else {
            0nat
        }),
    ensures
        sum_of_parts(list, one) == 1,
    decreases list.len(),
{
    let i = choose|i: int| 0 <= i < list.len() && list[i] == x;
    let init = list.drop_last();
    if list.last() == x {
        assert forall|k: int| 0 <= k < init.len() implies one(#[trigger] init[k]) == 0 by {
            assert(init[k] == list[k] && list[list.len() - 1] == x);
        }
        lemma_sum_of_nothing(init, one);
    } else {
        assert(init[i] == x);
        lemma_sum_of_one(init, x, one);
    }
}

/// The members of a set in a list, counted one by one.
proof fn lemma_sum_of_members(list: Seq<Seq<char>>, members: Set<Seq<char>>, part: spec_fn(Seq<char>) -> nat)
    requires
        list.no_duplicates(),
        forall|t: Seq<char>| #[trigger] part(t) == (if members.contains(t) {
            1nat
        } else {
            0nat
        }),
    ensures
        sum_of_parts(list, part) == list.to_set().intersect(members).len(),
    decreases list.len(),
{
    if list.len() == 0 {
        assert(list.to_set().intersect(members) =~= Set::<Seq<char>>::empty());
    } else {
        let init = list.drop_last();
        let last = list.last();
        lemma_sum_of_members(init, members, part);
        let fewer = init.to_set().intersect(members);
        init.unique_seq_to_set();
        assert(!init.contains(last)) by {
            if init.contains(last) {
                let k = choose|k: int| 0 <= k < init.len() && init[k] == last;
                assert(list[k] == list[list.len() - 1]);
            }
        }
        assert forall|t: Seq<char>| list.contains(t) <==> init.contains(t) || t == last by {
            if list.contains(t) {
                let k = choose|k: int| 0 <= k < list.len() && list[k] == t;
                if k < init.len() {
                    assert(init[k] == t);
                }
            }
            if init.contains(t) {
                let k = choose|k: int| 0 <= k < init.len() && init[k] == t;
                assert(list[k] == t);
            }
            assert(list[list.len() - 1] == last);
        }
        if members.contains(last) {
            assert(list.to_set().intersect(members) =~= fewer.insert(last));
            assert(!fewer.contains(last));
        } else {
            assert(list.to_set().intersect(members) =~= fewer);
        }
    }
}

proof fn lemma_used_stands(pieces: Seq<Seq<char>>, k: int)
    requires
        0 <= k < pieces.len(),
    ensures
        occurrences(pieces, pieces[k]) > 0,
    decreases pieces.len(),
{
    if k < pieces.len() - 1 {
        lemma_used_stands(pieces.drop_last(), k);
    }
}

/// Scoring by use: the parts that the scores are made of add up to the whole that they are shares of,
/// and they stand to each other as the numbers of pieces do.
pub proof fn law_scores_share_uses(
    scores: Scores,
    sum: spec_fn(u64, u64) -> u64,
    share: spec_fn(u128, u128) -> u64,
    sentences: Seq<Seq<char>>,
) -> (r: (spec_fn(Seq<char>) -> nat, nat))
    ensures
        shares_uses(
            scores,
            cut_up(scores, sum, sentences),
            share,
            reestimated(scores, sum, share, sentences),
            r.0,
            r.1,
        ),
{
    let pieces = pieces_of(scores, sum, sentences, sentences.len());
    let result = reestimated(scores, sum, share, sentences);
    let part = |t: Seq<char>| halves(scores, pieces, t);
    let whole = total_halves(scores, pieces);
    lemma_pieces_are_cut_up(scores, sum, sentences, sentences.len());
    assert(sentences.take(sentences.len() as int) =~= sentences);
    assert forall|t: Seq<char>| #[trigger] occurrences(pieces, t) == uses(pieces, t) by {
        lemma_occurrences_are_uses(pieces, t);
    }
    assert forall|t: Seq<char>| #[trigger]
        result.contains_key(t) <==> uses(pieces, t) > 0 || (scores.contains_key(t) && (t.len() == 1 || t
            == "<unk>"@)) by {
        assert(occurrences(pieces, t) == uses(pieces, t));
    }
    assert forall|t: Seq<char>| #[trigger] result.contains_key(t) implies part(t) > 0 && result[t] == share(
        part(t) as u128,
        whole as u128,
    ) by {}
    assert forall|t: Seq<char>, u: Seq<char>|
        #![trigger result.contains_key(t), result.contains_key(u)]
        result.contains_key(t) && result.contains_key(u) && uses(pieces, u) > 0 implies if uses(pieces, t) > 0 {
        part(t) * uses(pieces, u) == part(u) * uses(pieces, t)
    } else {
        2 * part(t) * uses(pieces, u) == part(u)
    } by {
        assert(occurrences(pieces, t) == uses(pieces, t));
        assert(occurrences(pieces, u) == uses(pieces, u));
        let a = uses(pieces, t);
        let b = uses(pieces, u);
        assert((2 * a) * b == (2 * b) * a) by (nonlinear_arith);
    }
    assert forall|t: Seq<char>, u: Seq<char>|
        #![trigger result.contains_key(t), result.contains_key(u)]
        result.contains_key(t) && result.contains_key(u) && uses(pieces, t) == 0 && uses(pieces, u) == 0 implies part(t)
        == part(u) by {
        assert(occurrences(pieces, t) == uses(pieces, t));
        assert(occurrences(pieces, u) == uses(pieces, u));
    }
    assert forall|list: Seq<Seq<char>>| #[trigger] enumerates(list, result.dom()) implies sum_of_parts(list, part)
        == whole by {
        let unused = unused_kept(scores, pieces);
        let single = |t: Seq<char>| occurrences(pieces, t);
        let twice = |t: Seq<char>| (2 * occurrences(pieces, t)) as nat;
        let kept = |t: Seq<char>|
            if unused.contains(t) {
                1nat
            } else {
                0nat
            };
        assert forall|k: int| 0 <= k < pieces.len() implies list.contains(#[trigger] pieces[k]) by {
            lemma_used_stands(pieces, k);
            assert(result.contains_key(pieces[k]));
        }
        lemma_sum_of_uses(list, pieces, single);
        lemma_sums_add(list, single, single, twice);
        lemma_sums_add(list, twice, kept, part);
        lemma_sum_of_members(list, unused, kept);
        assert(list.to_set().intersect(unused) =~= unused) by {
            assert forall|t: Seq<char>| unused.contains(t) implies list.contains(t) by {
                assert(result.contains_key(t));
            }
        }
    }
    (part, whole)
}

/// The places of a text where `t` begins.
pub open spec fn places(text: Seq<char>, t: Seq<char>, n: nat) -> Set<int> {
    Set::new(|i: int| 0 <= i < n && i + t.len() <= text.len() && text.subrange(i, i + t.len()) == t)
}

/// A substring that is not too long is counted once for every place where it begins, whether or not
/// the places overlap.
pub proof fn law_counts_are_places(text: Seq<char>, max: nat, t: Seq<char>, n: nat)
    requires
        0 < t.len() <= max,
        n <= text.len(),
    ensures
        places(text, t, n).finite(),
        count_upto(text, max, t, n) == places(text, t, n).len(),
        n == text.len() ==> count_of(text, max, t) == places(text, t, n).len(),
    decreases n,
{
    if n == 0 {
        assert(places(text, t, 0) =~= Set::<int>::empty());
    } else {
        let fewer = (n - 1) as nat;
        law_counts_are_places(text, max, t, fewer);
        let i = n - 1;
        if counted_at(text, max, t, i) {
            assert(text.subrange(i, i + t.len()) =~= t);
            assert(places(text, t, n) =~= places(text, t, fewer).insert(i));
        } else {
            assert(places(text, t, n) =~= places(text, t, fewer));
        }
    }
}

} // verus!
