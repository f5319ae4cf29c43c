//! Cutting a word into the pieces of highest score.

use vstd::prelude::*;

use crate::ieee::{double_greater, double_is_nan, double_rank, greater_double, NEGATIVE_INFINITY, ZERO};
use crate::pure_fn::{call2, fn2, pure2};
use crate::text::{flatten, string_of, string_of_char, to_chars, views};
use crate::token_table::TokenTable;

verus! {

/// The score of each token.
pub type Scores = Map<Seq<char>, u64>;

/// The best score for the first `i` characters when the last piece may start at one of the first
/// `j` places, and where that piece starts. Of equal scores the one found first stays.
pub open spec fn best_from(scores: Scores, sum: spec_fn(u64, u64) -> u64, chars: Seq<char>, i: nat, j: nat) -> (u64, nat)
    decreases i, j,
{
    if j == 0 || j > i {
        (NEGATIVE_INFINITY, 0)
    } else {
        let before = best_from(scores, sum, chars, i, (j - 1) as nat);
        let piece = chars.subrange(j - 1, i as int);
        if scores.contains_key(piece) {
            let start = if j == 1 {
                ZERO
            } else {
                best_from(scores, sum, chars, (j - 1) as nat, (j - 1) as nat).0
            };
            let score = sum(start, scores[piece]);
            if double_greater(score, before.0) {
                (score, (j - 1) as nat)
            } else {
                before
            }
        } else {
            before
        }
    }
}

/// The best score for the first `i` characters, and where the last piece starts.
pub open spec fn best(scores: Scores, sum: spec_fn(u64, u64) -> u64, chars: Seq<char>, i: nat) -> (u64, nat) {
    if i == 0 {
        (ZERO, 0)
    } else {
        best_from(scores, sum, chars, i, i)
    }
}

/// The pieces of the first `i` characters, following the best places back.
pub open spec fn best_pieces(scores: Scores, sum: spec_fn(u64, u64) -> u64, chars: Seq<char>, i: nat) -> Seq<Seq<char>>
    decreases i,
{
    let start = best(scores, sum, chars, i).1;
    if i == 0 || start >= i {
        Seq::empty()
    } else {
        best_pieces(scores, sum, chars, start).push(chars.subrange(start as int, i as int))
    }
}

/// The characters one by one, the unknown token in place of those that are no token.
pub open spec fn single_pieces(scores: Scores, chars: Seq<char>) -> Seq<Seq<char>> {
    chars.map_values(
        |c: char|
            if scores.contains_key(seq![c]) {
                seq![c]
            } else {
                "<unk>"@
            },
    )
}

/// The pieces that a word is cut into.
pub open spec fn segmented(scores: Scores, sum: spec_fn(u64, u64) -> u64, chars: Seq<char>) -> Seq<Seq<char>> {
    if best(scores, sum, chars, chars.len()).0 == NEGATIVE_INFINITY {
        single_pieces(scores, chars)
    } else {
        best_pieces(scores, sum, chars, chars.len())
    }
}

/// The last piece never starts behind its end.
proof fn lemma_start_before_end(scores: Scores, sum: spec_fn(u64, u64) -> u64, chars: Seq<char>, i: nat, j: nat)
    requires
        0 < i,
        j <= i,
    ensures
        best_from(scores, sum, chars, i, j).1 < i,
    decreases j,
{
    if j > 0 {
        lemma_start_before_end(scores, sum, chars, i, (j - 1) as nat);
    }
}

/// Cuts `text` into the pieces of highest score. Scores are added up by `add`, from left to right.
pub fn viterbi<F: Fn(u64, u64) -> u64>(vocab: &TokenTable<u64>, text: &str, add: &F) -> (r: Vec<String>)
    requires
        pure2(*add),
    ensures
        views(r@) == segmented(vocab@, fn2(*add), text@),
{
    let chars = to_chars(text);
    let n: usize = chars.len();
    let ghost sum = fn2(*add);
    let mut dp: Vec<u64> = Vec::new();
    let mut back: Vec<usize> = Vec::new();
    dp.push(ZERO);
    back.push(0);
    let mut done: usize = 0;
    while done < n
        invariant
            done <= n,
            n == chars@.len(),
            pure2(*add),
            sum == fn2(*add),
            dp@.len() == done + 1,
            back@.len() == done + 1,
            forall|k: int| 0 <= k <= done ==> (#[trigger] dp@[k], back@[k] as nat) == best(vocab@, sum, chars@, k as nat),
        decreases n - done,
    {
        let i: usize = done + 1;
        let mut top: u64 = NEGATIVE_INFINITY;
        let mut start: usize = 0;
        let mut j: usize = 0;
        while j < i
            invariant
                j <= i <= n,
                n == chars@.len(),
                pure2(*add),
                sum == fn2(*add),
                dp@.len() == i,
                back@.len() == i,
                forall|k: int|
                    0 <= k < i ==> (#[trigger] dp@[k], back@[k] as nat) == best(vocab@, sum, chars@, k as nat),
                (top, start as nat) == best_from(vocab@, sum, chars@, i as nat, j as nat),
            decreases i - j,
        {
            let piece = string_of(&chars, j, i);
            assert((dp@[j as int], back@[j as int] as nat) == best(vocab@, sum, chars@, j as nat));
            if let Some(lp) = vocab.get(piece.as_str()) {
                let score: u64 = call2(add, dp[j], lp);
                if greater_double(score, top) {
                    top = score;
                    start = j;
                }
            }
            j += 1;
        }
        dp.push(top);
        back.push(start);
        done = i;
    }
    assert((dp@[n as int], back@[n as int] as nat) == best(vocab@, sum, chars@, n as nat));
    if dp[n] == NEGATIVE_INFINITY {
        let mut out: Vec<String> = Vec::new();
        let mut k: usize = 0;
        while k < n
            invariant
                k <= n,
                n == chars@.len(),
                views(out@) == single_pieces(vocab@, chars@).take(k as int),
            decreases n - k,
        {
            let s = string_of_char(chars[k]);
            let ghost before = views(out@);
            if vocab.contains(s.as_str()) {
                out.push(s);
            } else {
                out.push("<unk>".to_owned());
            }
            assert(views(out@) =~= before.push(single_pieces(vocab@, chars@)[k as int]));
            k += 1;
            assert(views(out@) =~= single_pieces(vocab@, chars@).take(k as int));
        }
        assert(single_pieces(vocab@, chars@).take(k as int) =~= single_pieces(vocab@, chars@));
        return out;
    }
    let mut reversed: Vec<String> = Vec::new();
    let mut end: usize = n;
    assert(best_pieces(vocab@, sum, chars@, n as nat) + views(reversed@).reverse() =~= best_pieces(
        vocab@,
        sum,
        chars@,
        n as nat,
    ));
    while end > 0
        invariant
            end <= n,
            n == chars@.len(),
            dp@.len() == n + 1,
            back@.len() == n + 1,
            forall|k: int| 0 <= k <= n ==> (#[trigger] dp@[k], back@[k] as nat) == best(vocab@, sum, chars@, k as nat),
            best_pieces(vocab@, sum, chars@, end as nat) + views(reversed@).reverse() == best_pieces(
                vocab@,
                sum,
                chars@,
                n as nat,
            ),
        decreases end,
    {
        assert((dp@[end as int], back@[end as int] as nat) == best(vocab@, sum, chars@, end as nat));
        proof {
            lemma_start_before_end(vocab@, sum, chars@, end as nat, end as nat);
        }
        let start: usize = back[end];
        let ghost before = views(reversed@);
        let ghost pieces = best_pieces(vocab@, sum, chars@, end as nat);
        let piece = string_of(&chars, start, end);
        reversed.push(piece);
        assert(views(reversed@) =~= before.push(piece@));
        assert(pieces =~= best_pieces(vocab@, sum, chars@, start as nat).push(piece@));
        assert(best_pieces(vocab@, sum, chars@, start as nat) + views(reversed@).reverse() =~= pieces
            + before.reverse());
        end = start;
    }
    let mut out: Vec<String> = Vec::new();
    let mut k: usize = reversed.len();
    assert(best_pieces(vocab@, sum, chars@, 0) + views(reversed@).reverse() =~= views(reversed@).reverse());
    while k > 0
        invariant
            k <= reversed@.len(),
            views(out@) == views(reversed@).reverse().take(reversed@.len() - k),
        decreases k,
    {
        let ghost before = views(out@);
        out.push(reversed[k - 1].clone());
        k -= 1;
        assert(views(out@) =~= before.push(views(reversed@)[k as int]));
        assert(views(out@) =~= views(reversed@).reverse().take(reversed@.len() - k));
    }
    assert(views(reversed@).reverse().take(reversed@.len() as int) =~= views(reversed@).reverse());
    out
}

/// Whether adding to negative infinity leads nowhere, as in floating-point addition.
pub open spec fn absorbing(sum: spec_fn(u64, u64) -> u64) -> bool {
    forall|x: u64| !double_greater(#[trigger] sum(NEGATIVE_INFINITY, x), NEGATIVE_INFINITY)
}

/// Whether adding a token's score to a number gives a number, and to a larger number no smaller
/// one, as in floating-point addition of finite scores.
pub open spec fn adds_in_order(sum: spec_fn(u64, u64) -> u64, scores: Scores) -> bool {
    &&& forall|a: u64, t: Seq<char>|
        scores.contains_key(t) && !double_is_nan(a) ==> !double_is_nan(#[trigger] sum(a, scores[t]))
    &&& forall|a: u64, b: u64, t: Seq<char>|
        scores.contains_key(t) && !double_is_nan(a) && !double_is_nan(b) && double_rank(a) <= double_rank(b)
            ==> double_rank(#[trigger] sum(a, scores[t])) <= double_rank(#[trigger] sum(b, scores[t]))
}

/// Whether a score is a number above negative infinity.
pub open spec fn reachable(x: u64) -> bool {
    double_greater(x, NEGATIVE_INFINITY)
}

/// Whether adding a token's score to a number above negative infinity gives one above it, as in
/// floating-point addition of scores that are finite and not of extreme size.
pub open spec fn adds_up(sum: spec_fn(u64, u64) -> u64, scores: Scores) -> bool {
    forall|a: u64, t: Seq<char>|
        reachable(a) && scores.contains_key(t) ==> reachable(#[trigger] sum(a, scores[t]))
}

/// Whether every character of a word is a token.
pub open spec fn letters_known(scores: Scores, chars: Seq<char>) -> bool {
    forall|k: int| 0 <= k < chars.len() ==> scores.contains_key(seq![#[trigger] chars[k]])
}

proof fn lemma_best_is_number(scores: Scores, sum: spec_fn(u64, u64) -> u64, chars: Seq<char>, i: nat, j: nat)
    requires
        j <= i,
    ensures
        !double_is_nan(best_from(scores, sum, chars, i, j).0),
        double_rank(best_from(scores, sum, chars, i, j).0) >= double_rank(NEGATIVE_INFINITY),
    decreases j,
{
    if j > 0 {
        lemma_best_is_number(scores, sum, chars, i, (j - 1) as nat);
    }
}

/// Where a score was found, the last piece is a token and what is in front of it has a score.
proof fn lemma_best_step(scores: Scores, sum: spec_fn(u64, u64) -> u64, chars: Seq<char>, i: nat, j: nat)
    requires
        absorbing(sum),
        j <= i,
        best_from(scores, sum, chars, i, j).0 != NEGATIVE_INFINITY,
    ensures
        best_from(scores, sum, chars, i, j).1 < j,
        scores.contains_key(chars.subrange(best_from(scores, sum, chars, i, j).1 as int, i as int)),
        best(scores, sum, chars, best_from(scores, sum, chars, i, j).1).0 != NEGATIVE_INFINITY,
    decreases j,
{
    if j > 0 {
        let before = best_from(scores, sum, chars, i, (j - 1) as nat);
        let piece = chars.subrange(j - 1, i as int);
        lemma_best_is_number(scores, sum, chars, i, (j - 1) as nat);
        let start = best(scores, sum, chars, (j - 1) as nat).0;
        if scores.contains_key(piece) && double_greater(sum(start, scores[piece]), before.0) {
            if start == NEGATIVE_INFINITY {
                assert(!double_greater(sum(NEGATIVE_INFINITY, scores[piece]), NEGATIVE_INFINITY));
            }
        } else {
            lemma_best_step(scores, sum, chars, i, (j - 1) as nat);
        }
    }
}

proof fn lemma_pieces_spell(scores: Scores, sum: spec_fn(u64, u64) -> u64, chars: Seq<char>, i: nat)
    requires
        i <= chars.len(),
    ensures
        flatten(best_pieces(scores, sum, chars, i)) == chars.take(i as int),
        best_pieces(scores, sum, chars, i).len() <= i,
    decreases i,
{
    if i > 0 {
        lemma_start_before_end(scores, sum, chars, i, i);
        let start = best(scores, sum, chars, i).1;
        lemma_pieces_spell(scores, sum, chars, start);
        let pieces = best_pieces(scores, sum, chars, i);
        assert(pieces.drop_last() =~= best_pieces(scores, sum, chars, start));
        assert(chars.take(start as int) + chars.subrange(start as int, i as int) =~= chars.take(i as int));
    } else {
        assert(chars.take(0) =~= Seq::<char>::empty());
    }
}

proof fn lemma_pieces_known(scores: Scores, sum: spec_fn(u64, u64) -> u64, chars: Seq<char>, i: nat)
    requires
        absorbing(sum),
        i <= chars.len(),
        best(scores, sum, chars, i).0 != NEGATIVE_INFINITY,
    ensures
        forall|k: int|
            0 <= k < best_pieces(scores, sum, chars, i).len() ==> scores.contains_key(
                #[trigger] best_pieces(scores, sum, chars, i)[k],
            ),
    decreases i,
{
    if i > 0 {
        lemma_best_step(scores, sum, chars, i, i);
        let start = best(scores, sum, chars, i).1;
        lemma_pieces_known(scores, sum, chars, start);
        let head = best_pieces(scores, sum, chars, start);
        let all = best_pieces(scores, sum, chars, i);
        assert forall|k: int| 0 <= k < all.len() implies scores.contains_key(#[trigger] all[k]) by {
            if k < head.len() {
                assert(all[k] == head[k]);
            }
        }
    }
}

/// Where every character is a token, there is a way to cut the word.
proof fn lemma_letters_reach(scores: Scores, sum: spec_fn(u64, u64) -> u64, chars: Seq<char>, i: nat)
    requires
        adds_up(sum, scores),
        letters_known(scores, chars),
        i <= chars.len(),
    ensures
        reachable(best(scores, sum, chars, i).0),
    decreases i,
{
    if i > 0 {
        lemma_letters_reach(scores, sum, chars, (i - 1) as nat);
        let piece = chars.subrange(i - 1, i as int);
        assert(piece =~= seq![chars[i - 1]]);
        lemma_best_is_number(scores, sum, chars, i, (i - 1) as nat);
        let start = best(scores, sum, chars, (i - 1) as nat).0;
        assert(reachable(sum(start, scores[piece])));
    }
}

/// Where a score was found, a word is cut into tokens, and these run together are the word.
pub proof fn lemma_cut_keeps_text(scores: Scores, sum: spec_fn(u64, u64) -> u64, chars: Seq<char>)
    requires
        absorbing(sum),
        best(scores, sum, chars, chars.len()).0 != NEGATIVE_INFINITY,
    ensures
        flatten(segmented(scores, sum, chars)) == chars,
        forall|k: int|
            0 <= k < segmented(scores, sum, chars).len() ==> scores.contains_key(
                #[trigger] segmented(scores, sum, chars)[k],
            ),
{
    lemma_pieces_spell(scores, sum, chars, chars.len());
    lemma_pieces_known(scores, sum, chars, chars.len());
    assert(chars.take(chars.len() as int) =~= chars);
}

/// A word whose characters are all tokens is cut into tokens, and these run together are the word.
pub proof fn law_segmentation_keeps_text(scores: Scores, sum: spec_fn(u64, u64) -> u64, chars: Seq<char>)
    requires
        absorbing(sum),
        adds_up(sum, scores),
        letters_known(scores, chars),
    ensures
        flatten(segmented(scores, sum, chars)) == chars,
        forall|k: int|
            0 <= k < segmented(scores, sum, chars).len() ==> scores.contains_key(
                #[trigger] segmented(scores, sum, chars)[k],
            ),
{
    lemma_letters_reach(scores, sum, chars, chars.len());
    lemma_cut_keeps_text(scores, sum, chars);
}

/// A word is never cut into anything but tokens and the unknown token.
pub proof fn law_segments_are_tokens(scores: Scores, sum: spec_fn(u64, u64) -> u64, chars: Seq<char>, k: int)
    requires
        absorbing(sum),
        0 <= k < segmented(scores, sum, chars).len(),
    ensures
        scores.contains_key(segmented(scores, sum, chars)[k]) || segmented(scores, sum, chars)[k] == "<unk>"@,
        segmented(scores, sum, chars).len() <= chars.len(),
{
    lemma_pieces_spell(scores, sum, chars, chars.len());
    if best(scores, sum, chars, chars.len()).0 != NEGATIVE_INFINITY {
        lemma_pieces_known(scores, sum, chars, chars.len());
    }
}

/// A word is cut into no more pieces than it has characters.
pub proof fn lemma_segments_bound(scores: Scores, sum: spec_fn(u64, u64) -> u64, chars: Seq<char>)
    ensures
        segmented(scores, sum, chars).len() <= chars.len(),
{
    lemma_pieces_spell(scores, sum, chars, chars.len());
}

/// The score of a list of tokens, added up from left to right.
pub open spec fn total_score(scores: Scores, sum: spec_fn(u64, u64) -> u64, pieces: Seq<Seq<char>>) -> u64
    decreases pieces.len(),
{
    if pieces.len() == 0 {
        ZERO
    } else {
        sum(total_score(scores, sum, pieces.drop_last()), scores[pieces.last()])
    }
}

/// Whether `pieces` are tokens, none of them empty.
pub open spec fn are_tokens(scores: Scores, pieces: Seq<Seq<char>>) -> bool {
    forall|k: int|
        0 <= k < pieces.len() ==> scores.contains_key(#[trigger] pieces[k]) && pieces[k].len() > 0
}

proof fn lemma_candidate_loses(scores: Scores, sum: spec_fn(u64, u64) -> u64, chars: Seq<char>, i: nat, j: nat, k: nat)
    requires
        adds_in_order(sum, scores),
        k < j <= i,
        scores.contains_key(chars.subrange(k as int, i as int)),
    ensures
        double_rank(sum(best(scores, sum, chars, k).0, scores[chars.subrange(k as int, i as int)])) <= double_rank(
            best_from(scores, sum, chars, i, j).0,
        ),
    decreases j,
{
    let before = best_from(scores, sum, chars, i, (j - 1) as nat);
    lemma_best_is_number(scores, sum, chars, i, (j - 1) as nat);
    lemma_best_is_number(scores, sum, chars, k, k);
    let piece = chars.subrange(k as int, i as int);
    let start = best(scores, sum, chars, k).0;
    assert(!double_is_nan(start));
    assert(!double_is_nan(sum(start, scores[piece])));
    if k < j - 1 {
        lemma_candidate_loses(scores, sum, chars, i, (j - 1) as nat, k);
    }
}

proof fn lemma_best_is_optimal(
    scores: Scores,
    sum: spec_fn(u64, u64) -> u64,
    chars: Seq<char>,
    i: nat,
    pieces: Seq<Seq<char>>,
)
    requires
        adds_in_order(sum, scores),
        are_tokens(scores, pieces),
        i <= chars.len(),
        flatten(pieces) == chars.take(i as int),
    ensures
        !double_is_nan(total_score(scores, sum, pieces)),
        double_rank(total_score(scores, sum, pieces)) <= double_rank(best(scores, sum, chars, i).0),
    decreases pieces.len(),
{
    if pieces.len() > 0 {
        let init = pieces.drop_last();
        let last = pieces.last();
        assert(scores.contains_key(pieces[pieces.len() - 1]) && last.len() > 0);
        let j = (i - last.len()) as nat;
        assert(flatten(init) + last =~= chars.take(i as int));
        assert(flatten(init).len() + last.len() == i);
        assert(flatten(init) =~= chars.take(j as int)) by {
            assert forall|k: int| 0 <= k < j implies flatten(init)[k] == chars[k] by {
                assert((flatten(init) + last)[k] == chars.take(i as int)[k]);
            }
        }
        assert(last =~= chars.subrange(j as int, i as int)) by {
            assert forall|k: int| 0 <= k < last.len() implies last[k] == chars[j + k] by {
                assert((flatten(init) + last)[j + k] == chars.take(i as int)[j + k]);
            }
        }
        assert forall|k: int| 0 <= k < init.len() implies scores.contains_key(#[trigger] init[k]) && init[k].len() > 0 by {
            assert(init[k] == pieces[k]);
        }
        lemma_best_is_optimal(scores, sum, chars, j, init);
        lemma_best_is_number(scores, sum, chars, j, j);
        lemma_candidate_loses(scores, sum, chars, i, i, j);
        let a = total_score(scores, sum, init);
        let b = best(scores, sum, chars, j).0;
        assert(double_rank(sum(a, scores[last])) <= double_rank(sum(b, scores[last])));
    } else {
        assert(flatten(pieces).len() == 0);
    }
}

proof fn lemma_total_reaches(scores: Scores, sum: spec_fn(u64, u64) -> u64, pieces: Seq<Seq<char>>)
    requires
        adds_up(sum, scores),
        are_tokens(scores, pieces),
    ensures
        reachable(total_score(scores, sum, pieces)),
    decreases pieces.len(),
{
    if pieces.len() > 0 {
        let init = pieces.drop_last();
        assert forall|k: int| 0 <= k < init.len() implies scores.contains_key(#[trigger] init[k]) && init[k].len() > 0 by {
            assert(init[k] == pieces[k]);
        }
        lemma_total_reaches(scores, sum, init);
        assert(scores.contains_key(pieces[pieces.len() - 1]));
    }
}

/// A word that can be cut into tokens is cut into tokens, these run together are the word, and no
/// other way to cut it scores higher.
pub proof fn law_segmentation_is_optimal(
    scores: Scores,
    sum: spec_fn(u64, u64) -> u64,
    chars: Seq<char>,
    pieces: Seq<Seq<char>>,
)
    requires
        adds_in_order(sum, scores),
        absorbing(sum),
        adds_up(sum, scores),
        are_tokens(scores, pieces),
        flatten(pieces) == chars,
    ensures
        flatten(segmented(scores, sum, chars)) == chars,
        forall|k: int|
            0 <= k < segmented(scores, sum, chars).len() ==> scores.contains_key(
                #[trigger] segmented(scores, sum, chars)[k],
            ),
        !double_greater(total_score(scores, sum, pieces), total_score(scores, sum, segmented(scores, sum, chars))),
{
    assert(chars.take(chars.len() as int) =~= chars);
    lemma_best_is_optimal(scores, sum, chars, chars.len(), pieces);
    lemma_total_reaches(scores, sum, pieces);
    lemma_chosen_score(scores, sum, chars, chars.len());
    lemma_cut_keeps_text(scores, sum, chars);
}

/// The pieces that are followed back have the best score.
proof fn lemma_chosen_score(scores: Scores, sum: spec_fn(u64, u64) -> u64, chars: Seq<char>, i: nat)
    requires
        absorbing(sum),
        i <= chars.len(),
        best(scores, sum, chars, i).0 != NEGATIVE_INFINITY,
    ensures
        total_score(scores, sum, best_pieces(scores, sum, chars, i)) == best(scores, sum, chars, i).0,
    decreases i,
{
    if i > 0 {
        lemma_best_step(scores, sum, chars, i, i);
        let start = best(scores, sum, chars, i).1;
        lemma_chosen_score(scores, sum, chars, start);
        assert(best_pieces(scores, sum, chars, i).drop_last() =~= best_pieces(scores, sum, chars, start));
        lemma_best_value(scores, sum, chars, i, i);
    }
}

proof fn lemma_best_value(scores: Scores, sum: spec_fn(u64, u64) -> u64, chars: Seq<char>, i: nat, j: nat)
    requires
        absorbing(sum),
        j <= i,
        best_from(scores, sum, chars, i, j).0 != NEGATIVE_INFINITY,
    ensures
        best_from(scores, sum, chars, i, j).0 == sum(
            best(scores, sum, chars, best_from(scores, sum, chars, i, j).1).0,
            scores[chars.subrange(best_from(scores, sum, chars, i, j).1 as int, i as int)],
        ),
    decreases j,
{
    if j > 0 {
        let before = best_from(scores, sum, chars, i, (j - 1) as nat);
        if best_from(scores, sum, chars, i, j) == before {
            lemma_best_value(scores, sum, chars, i, (j - 1) as nat);
        }
    }
}

} // verus!
