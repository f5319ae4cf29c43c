//! Counting and merging adjacent pairs.

use vstd::prelude::*;

use crate::bpe::tables::PairTable;
use crate::text::same_text;

verus! {

/// One greedy pass over `s` from left to right: where `f` gives a replacement for two neighbours,
/// they become one element and the pass goes on behind them.
pub open spec fn merge_pass<T>(s: Seq<T>, f: spec_fn(T, T) -> Option<T>) -> Seq<T>
    decreases s.len(),
{
    if s.len() < 2 {
        s
    } else {
        match f(s[0], s[1]) {
            Some(c) => seq![c] + merge_pass(s.skip(2), f),
            None => seq![s[0]] + merge_pass(s.skip(1), f),
        }
    }
}

/// Replaces the pair `pair` by `new_id` and nothing else.
pub open spec fn only_pair(pair: (usize, usize), new_id: usize) -> spec_fn(usize, usize) -> Option<usize> {
    |a: usize, b: usize|
        if (a, b) == pair {
            Some(new_id)
        } else {
            None
        }
}

/// How often the two members of `pair` stand side by side in `tokens`.
pub open spec fn pair_count(tokens: Seq<usize>, pair: (usize, usize)) -> nat
    decreases tokens.len(),
{
    if tokens.len() < 2 {
        0
    } else {
        pair_count(tokens.drop_last(), pair) + if (tokens[tokens.len() - 2], tokens.last()) == pair {
            1nat
        } else {
            0nat
        }
    }
}

/// `pair` occurs in `tokens`, and none occurs more often.
pub open spec fn most_frequent(tokens: Seq<usize>, pair: (usize, usize)) -> bool {
    &&& pair_count(tokens, pair) > 0
    &&& forall|q: (usize, usize)| pair_count(tokens, q) <= pair_count(tokens, pair)
}

/// `pair` occurs in `tokens`, and none that occurs is rarer.
pub open spec fn least_frequent(tokens: Seq<usize>, pair: (usize, usize)) -> bool {
    &&& pair_count(tokens, pair) > 0
    &&& forall|q: (usize, usize)| pair_count(tokens, q) > 0 ==> pair_count(tokens, pair) <= #[trigger] pair_count(tokens, q)
}

/// A pair that stands at some place of `tokens` has a positive count.
pub proof fn lemma_adjacent_counts(tokens: Seq<usize>, i: int)
    requires
        0 <= i,
        i + 1 < tokens.len(),
    ensures
        pair_count(tokens, (tokens[i], tokens[i + 1])) > 0,
    decreases tokens.len(),
{
    if i + 2 < tokens.len() {
        lemma_adjacent_counts(tokens.drop_last(), i);
    }
}

/// A pair with a positive count stands somewhere.
pub proof fn lemma_counted_is_adjacent(tokens: Seq<usize>, pair: (usize, usize)) -> (i: int)
    requires
        pair_count(tokens, pair) > 0,
    ensures
        0 <= i,
        i + 1 < tokens.len(),
        (tokens[i], tokens[i + 1]) == pair,
    decreases tokens.len(),
{
    if (tokens[tokens.len() - 2], tokens.last()) == pair {
        tokens.len() - 2
    } else {
        let i = lemma_counted_is_adjacent(tokens.drop_last(), pair);
        i
    }
}

proof fn lemma_count_below_length(tokens: Seq<usize>, pair: (usize, usize))
    ensures
        pair_count(tokens, pair) <= tokens.len(),
    decreases tokens.len(),
{
    if tokens.len() >= 2 {
        lemma_count_below_length(tokens.drop_last(), pair);
    }
}

/// Counts how often each pair of neighbours occurs.
pub fn count_pairs(tokens: &Vec<usize>) -> (r: PairTable)
    ensures
        forall|p: (usize, usize)| #[trigger] r@.contains_key(p) <==> pair_count(tokens@, p) > 0,
        forall|p: (usize, usize)| r@.contains_key(p) ==> #[trigger] r@[p] == pair_count(tokens@, p),
{
    let mut counts = PairTable::new();
    let mut i: usize = 1;
    if tokens.len() < 2 {
        return counts;
    }
    assert(forall|p: (usize, usize)| pair_count(tokens@.take(1), p) == 0);
    while i < tokens.len()
        invariant
            1 <= i <= tokens@.len(),
            forall|p: (usize, usize)| #[trigger]
                counts@.contains_key(p) <==> pair_count(tokens@.take(i as int), p) > 0,
            forall|p: (usize, usize)|
                counts@.contains_key(p) ==> #[trigger] counts@[p] == pair_count(tokens@.take(i as int), p),
        decreases tokens@.len() - i,
    {
        let pair = (tokens[i - 1], tokens[i]);
        assert(tokens@.take(i + 1).drop_last() =~= tokens@.take(i as int));
        let ghost before = counts@;
        let old_count: usize = match counts.get(pair) {
            Some(n) => n,
            None => 0,
        };
        assert(pair_count(tokens@.take(i as int), pair) == old_count);
        proof {
            lemma_count_below_length(tokens@.take(i as int), pair);
        }
        counts.insert(pair, old_count + 1);
        i += 1;
    }
    assert(tokens@.take(i as int) =~= tokens@);
    counts
}

/// Picks a pair of neighbours that occurs most often (`"most"`) or least often (`"least"`).
/// Where several pairs qualify, any of them may be returned.
pub fn find_freq_pair(tokens: &Vec<usize>, mode: &str) -> (r: Option<(usize, usize)>)
    requires
        tokens@.len() >= 2 ==> mode@ == "most"@ || mode@ == "least"@,
    ensures
        r is None <==> tokens@.len() < 2,
        r matches Some(pair) ==> (if mode@ == "most"@ {
            most_frequent(tokens@, pair)
        } else {
            least_frequent(tokens@, pair)
        }),
{
    if tokens.len() < 2 {
        return None;
    }
    let counts = count_pairs(tokens);
    let most: bool = same_text(mode, "most");
    let mut best: (usize, usize) = (tokens[0], tokens[1]);
    proof {
        lemma_adjacent_counts(tokens@, 0);
    }
    let mut best_count: usize = match counts.get(best) {
        Some(n) => n,
        None => 0,
    };
    let mut i: usize = 1;
    let last: usize = tokens.len() - 1;
    while i < last
        invariant
            1 <= i <= last,
            last == tokens@.len() - 1,
            forall|p: (usize, usize)| #[trigger] counts@.contains_key(p) <==> pair_count(tokens@, p) > 0,
            forall|p: (usize, usize)|
                counts@.contains_key(p) ==> #[trigger] counts@[p] == pair_count(tokens@, p),
            pair_count(tokens@, best) > 0,
            best_count == pair_count(tokens@, best),
            forall|k: int|
                0 <= k < i ==> if most {
                    #[trigger] pair_count(tokens@, (tokens@[k], tokens@[k + 1])) <= best_count
                } else {
                    pair_count(tokens@, (tokens@[k], tokens@[k + 1])) >= best_count
                },
        decreases tokens@.len() - i,
    {
        let pair = (tokens[i], tokens[i + 1]);
        proof {
            lemma_adjacent_counts(tokens@, i as int);
        }
        let count: usize = match counts.get(pair) {
            Some(n) => n,
            None => 0,
        };
        assert(count == pair_count(tokens@, pair));
        let better: bool = if most {
            count > best_count
        } else {
            count < best_count
        };
        if better {
            best = pair;
            best_count = count;
        }
        i += 1;
    }
    proof {
        assert forall|q: (usize, usize)| pair_count(tokens@, q) > 0 implies if most {
            pair_count(tokens@, q) <= best_count
        } else {
            pair_count(tokens@, q) >= best_count
        } by {
            let k = lemma_counted_is_adjacent(tokens@, q);
            assert(pair_count(tokens@, (tokens@[k], tokens@[k + 1])) == pair_count(tokens@, q));
        }
    }
    Some(best)
}

/// Replaces every occurrence of `pair` by `new_id`, from left to right without overlap.
pub fn replace_pair(tokens: &Vec<usize>, pair: (usize, usize), new_id: usize) -> (r: Vec<usize>)
    ensures
        r@ == merge_pass(tokens@, only_pair(pair, new_id)),
{
    let mut out: Vec<usize> = Vec::new();
    let mut i: usize = 0;
    let n: usize = tokens.len();
    let ghost f = only_pair(pair, new_id);
    assert(tokens@.skip(0) =~= tokens@);
    assert(out@ + merge_pass(tokens@, f) =~= merge_pass(tokens@, f));
    while i < n
        invariant
            i <= n,
            n == tokens@.len(),
            f == only_pair(pair, new_id),
            out@ + merge_pass(tokens@.skip(i as int), f) == merge_pass(tokens@, f),
        decreases n - i,
    {
        let ghost rest = tokens@.skip(i as int);
        let ghost before = out@;
        assert(rest.skip(1) =~= tokens@.skip(i + 1));
        if i < n - 1 && tokens[i] == pair.0 && tokens[i + 1] == pair.1 {
            assert(rest.skip(2) =~= tokens@.skip(i + 2));
            assert(rest[0] == tokens@[i as int] && rest[1] == tokens@[i + 1]);
            out.push(new_id);
            i += 2;
            assert(out@ + merge_pass(tokens@.skip(i as int), f) =~= before + merge_pass(rest, f));
        } else {
            out.push(tokens[i]);
            i += 1;
            assert(merge_pass(rest, f) =~= seq![rest[0]] + merge_pass(rest.skip(1), f));
            assert(out@ + merge_pass(tokens@.skip(i as int), f) =~= before + merge_pass(rest, f));
        }
    }
    assert(out@ + merge_pass(tokens@.skip(i as int), f) =~= out@);
    out
}

} // verus!
