//! Learning a byte-pair vocabulary from text.

use std::collections::HashSet;
use vstd::prelude::*;
use vstd::std_specs::hash::group_hash_axioms;

use crate::bpe::merging::{
    find_freq_pair, lemma_adjacent_counts, lemma_counted_is_adjacent, merge_pass, most_frequent, only_pair, pair_count,
    replace_pair,
};
use crate::bpe::model::{
    base_model, by_new_id, char_ids, is_alphabet, learns, marked, merges_after, tokens_after, trains, trains_with,
    with_alphabet, with_merged_tokens, with_specials, BpeModel, SPACE_MARK,
};
use crate::bpe::tables::{lists_merges, MergeEntry};
use crate::bpe::tokenizer::BytePair;
use crate::text::{code_point, concat, string_of_char, to_chars, views};

verus! {

proof fn lemma_pass_first<T>(s: Seq<T>, f: spec_fn(T, T) -> Option<T>)
    requires
        s.len() > 0,
    ensures
        merge_pass(s, f).len() > 0,
        merge_pass(s, f)[0] == s[0] || s.len() >= 2 && f(s[0], s[1]) == Some(merge_pass(s, f)[0]),
{
    reveal_with_fuel(merge_pass, 2);
}

/// What a pass for one pair leaves behind: old elements and the new id; and two old elements that
/// stand side by side afterwards stood side by side before and were not that pair.
proof fn lemma_pass_neighbours(s: Seq<usize>, pair: (usize, usize), id: usize)
    ensures
        forall|i: int| #![trigger merge_pass(s, only_pair(pair, id))[i]]
            0 <= i < merge_pass(s, only_pair(pair, id)).len() ==> merge_pass(s, only_pair(pair, id))[i] == id
                || s.contains(merge_pass(s, only_pair(pair, id))[i]),
        forall|a: usize, b: usize|
            a != id && b != id && #[trigger] pair_count(merge_pass(s, only_pair(pair, id)), (a, b)) > 0
                ==> pair_count(s, (a, b)) > 0 && (a, b) != pair,
    decreases s.len(),
{
    let f = only_pair(pair, id);
    let out = merge_pass(s, f);
    if s.len() >= 2 {
        let (skipped, head) = match f(s[0], s[1]) {
            Some(c) => (2int, c),
            None => (1int, s[0]),
        };
        let rest = s.skip(skipped);
        let tail = merge_pass(rest, f);
        lemma_pass_neighbours(rest, pair, id);
        assert(out =~= seq![head] + tail);
        assert forall|i: int| 0 <= i < out.len() implies #[trigger] out[i] == id || s.contains(out[i]) by {
            if i == 0 {
                assert(s.contains(s[0]));
            } else {
                assert(out[i] == tail[i - 1]);
                if tail[i - 1] != id {
                    let k = choose|k: int| 0 <= k < rest.len() && rest[k] == tail[i - 1];
                    assert(s[k + skipped] == out[i]);
                }
            }
        }
        assert forall|a: usize, b: usize| a != id && b != id && #[trigger] pair_count(out, (a, b)) > 0 implies pair_count(
            s,
            (a, b),
        ) > 0 && (a, b) != pair by {
            let i = lemma_counted_is_adjacent(out, (a, b));
            if i == 0 {
                assert(head != id);
                assert(skipped == 1);
                lemma_pass_first(rest, f);
                assert(out[1] == tail[0]);
                assert(rest[0] == s[1]);
                lemma_adjacent_counts(s, 0);
            } else {
                assert(out[i] == tail[i - 1] && out[i + 1] == tail[i]);
                lemma_adjacent_counts(tail, i - 1);
                assert(pair_count(tail, (a, b)) > 0);
                let j = lemma_counted_is_adjacent(rest, (a, b));
                assert(s[j + skipped] == rest[j] && s[j + skipped + 1] == rest[j + 1]);
                lemma_adjacent_counts(s, j + skipped);
            }
        }
    } else {
        assert(out == s);
        assert forall|i: int| 0 <= i < out.len() implies #[trigger] out[i] == id || s.contains(out[i]) by {
            assert(s[i] == out[i]);
        }
    }
}

/// After `k` steps every token is an old one or one of the first `k` new ids.
proof fn lemma_stream_bound(tokens: Seq<usize>, first: nat, limit: nat, chosen: Seq<(usize, usize)>, k: nat, i: int)
    requires
        learns(tokens, first, limit, chosen),
        limit <= usize::MAX,
        k <= chosen.len(),
        0 <= i < tokens_after(tokens, first, chosen, k).len(),
    ensures
        tokens.contains(tokens_after(tokens, first, chosen, k)[i]) || first <= tokens_after(tokens, first, chosen, k)[i]
            < first + k,
    decreases k,
{
    if k > 0 {
        let before = tokens_after(tokens, first, chosen, (k - 1) as nat);
        let x = tokens_after(tokens, first, chosen, k)[i];
        assert(first + (k - 1) < limit) by {
            let pair = chosen[k - 1];
        }
        lemma_pass_neighbours(before, chosen[k - 1], (first + k - 1) as usize);
        if x != (first + k - 1) as usize {
            let j = choose|j: int| 0 <= j < before.len() && before[j] == x;
            lemma_stream_bound(tokens, first, limit, chosen, (k - 1) as nat, j);
        }
    } else {
        assert(tokens.contains(tokens[i]));
    }
}

/// The members of a chosen pair are tokens of the stream it was chosen for.
proof fn lemma_chosen_members(tokens: Seq<usize>, first: nat, limit: nat, chosen: Seq<(usize, usize)>, k: nat)
    requires
        learns(tokens, first, limit, chosen),
        limit <= usize::MAX,
        k < chosen.len(),
    ensures
        tokens.contains(chosen[k as int].0) || first <= chosen[k as int].0 < first + k,
        tokens.contains(chosen[k as int].1) || first <= chosen[k as int].1 < first + k,
{
    let stream = tokens_after(tokens, first, chosen, k);
    assert(most_frequent(stream, chosen[k as int]));
    let i = lemma_counted_is_adjacent(stream, chosen[k as int]);
    lemma_stream_bound(tokens, first, limit, chosen, k, i);
    lemma_stream_bound(tokens, first, limit, chosen, k, i + 1);
}

/// A pair that was merged does not come back.
proof fn lemma_merged_pair_gone(tokens: Seq<usize>, first: nat, limit: nat, chosen: Seq<(usize, usize)>, j: nat, k: nat)
    requires
        learns(tokens, first, limit, chosen),
        limit <= usize::MAX,
        forall|i: int| 0 <= i < tokens.len() ==> #[trigger] tokens[i] < first,
        j < k <= chosen.len(),
    ensures
        pair_count(tokens_after(tokens, first, chosen, k), chosen[j as int]) == 0,
    decreases k,
{
    let pair = chosen[j as int];
    lemma_chosen_members(tokens, first, limit, chosen, j);
    assert(first + (k - 1) < limit) by {
        let other = chosen[k - 1];
    }
    let id = (first + k - 1) as usize;
    let before = tokens_after(tokens, first, chosen, (k - 1) as nat);
    assert(pair.0 < first + j && pair.1 < first + j);
    lemma_pass_neighbours(before, chosen[k - 1], id);
    assert(pair.0 != id && pair.1 != id);
    if k - 1 > j {
        lemma_merged_pair_gone(tokens, first, limit, chosen, j, (k - 1) as nat);
    }
    assert(pair_count(tokens_after(tokens, first, chosen, k), (pair.0, pair.1)) == 0);
}

/// No pair is chosen twice.
proof fn lemma_chosen_distinct(tokens: Seq<usize>, first: nat, limit: nat, chosen: Seq<(usize, usize)>, j: nat, k: nat)
    requires
        learns(tokens, first, limit, chosen),
        limit <= usize::MAX,
        forall|i: int| 0 <= i < tokens.len() ==> #[trigger] tokens[i] < first,
        j < k < chosen.len(),
    ensures
        chosen[j as int] != chosen[k as int],
{
    lemma_merged_pair_gone(tokens, first, limit, chosen, j, k);
    assert(most_frequent(tokens_after(tokens, first, chosen, k), chosen[k as int]));
}

/// The stored merges are the old ones and the chosen ones, and the chosen ones have the new ids.
proof fn lemma_merges_after(
    merges: Map<(usize, usize), usize>,
    first: nat,
    chosen: Seq<(usize, usize)>,
    k: nat,
)
    requires
        k <= chosen.len(),
        first + k <= usize::MAX,
        forall|i: int, j: int| 0 <= i < j < chosen.len() ==> chosen[i] != chosen[j],
    ensures
        forall|j: int|
            0 <= j < k ==> merges_after(merges, first, chosen, k).contains_key(#[trigger] chosen[j])
                && merges_after(merges, first, chosen, k)[chosen[j]] == first + j,
        forall|p: (usize, usize)| #[trigger]
            merges_after(merges, first, chosen, k).contains_key(p) ==> merges.contains_key(p)
                && merges_after(merges, first, chosen, k)[p] == merges[p] || exists|j: int|
                0 <= j < k && #[trigger] chosen[j] == p,
    decreases k,
{
    if k > 0 {
        lemma_merges_after(merges, first, chosen, (k - 1) as nat);
        let before = merges_after(merges, first, chosen, (k - 1) as nat);
        let after = merges_after(merges, first, chosen, k);
        assert forall|p: (usize, usize)| #[trigger] after.contains_key(p) implies merges.contains_key(p) && after[p]
            == merges[p] || exists|j: int| 0 <= j < k && #[trigger] chosen[j] == p by {
            if p == chosen[k - 1] {
            } else {
                assert(before.contains_key(p));
            }
        }
    }
}

/// Giving out the places of the alphabet as ids keeps everything else.
proof fn lemma_with_alphabet(m: BpeModel, alphabet: Seq<char>, n: nat)
    requires
        n <= alphabet.len() <= usize::MAX,
        alphabet.no_duplicates(),
    ensures
        with_alphabet(m, alphabet, n).merges == m.merges,
        with_alphabet(m, alphabet, n).ranks == m.ranks,
        forall|i: int|
            0 <= i < n ==> with_alphabet(m, alphabet, n).vocab.contains_key(i as usize) && with_alphabet(
                m,
                alphabet,
                n,
            ).vocab[i as usize] == seq![#[trigger] alphabet[i]] && with_alphabet(m, alphabet, n).inverse.contains_key(
                seq![alphabet[i]],
            ) && with_alphabet(m, alphabet, n).inverse[seq![alphabet[i]]] == i,
        forall|id: usize| #[trigger]
            with_alphabet(m, alphabet, n).vocab.contains_key(id) <==> m.vocab.contains_key(id) || id < n,
        forall|t: Seq<char>| #[trigger]
            with_alphabet(m, alphabet, n).inverse.contains_key(t) ==> m.inverse.contains_key(t) || exists|i: int|
                0 <= i < n && t == seq![#[trigger] alphabet[i]],
        m.vocab.dom().finite() ==> with_alphabet(m, alphabet, n).vocab.dom().finite(),
    decreases n,
{
    if n > 0 {
        lemma_with_alphabet(m, alphabet, (n - 1) as nat);
        let before = with_alphabet(m, alphabet, (n - 1) as nat);
        let after = with_alphabet(m, alphabet, n);
        assert forall|i: int| 0 <= i < n implies after.vocab.contains_key(i as usize) && after.vocab[i as usize]
            == seq![#[trigger] alphabet[i]] && after.inverse.contains_key(seq![alphabet[i]])
            && after.inverse[seq![alphabet[i]]] == i by {
            if i < n - 1 {
                assert(alphabet[i] != alphabet[n - 1]);
                assert(seq![alphabet[i]][0] != seq![alphabet[n - 1]][0]);
            }
        }
        assert forall|t: Seq<char>| #[trigger] after.inverse.contains_key(t) implies m.inverse.contains_key(t) || exists|
            i: int,
        | 0 <= i < n && t == seq![#[trigger] alphabet[i]] by {
            if t != seq![alphabet[n - 1]] {
                assert(before.inverse.contains_key(t));
            } else {
                let last = alphabet[n - 1];
            }
        }
    }
}

/// Adding special tokens keeps the ids that were given out before.
proof fn lemma_with_specials(m: BpeModel, specials: Seq<Seq<char>>)
    ensures
        with_specials(m, specials).merges == m.merges,
        with_specials(m, specials).ranks == m.ranks,
        forall|t: Seq<char>| #[trigger]
            m.inverse.contains_key(t) ==> with_specials(m, specials).inverse.contains_key(t) && with_specials(
                m,
                specials,
            ).inverse[t] == m.inverse[t],
        forall|id: usize| #[trigger]
            m.vocab.contains_key(id) ==> with_specials(m, specials).vocab.contains_key(id),
        m.vocab.dom().finite() ==> with_specials(m, specials).vocab.dom().finite(),
    decreases specials.len(),
{
    if specials.len() > 0 {
        lemma_with_specials(m, specials.drop_last());
    }
}

proof fn lemma_dom_at_least(dom: Set<usize>, n: nat)
    requires
        dom.finite(),
        n <= usize::MAX,
        forall|i: usize| i < n ==> #[trigger] dom.contains(i),
    ensures
        dom.len() >= n,
    decreases n,
{
    if n > 0 {
        let last = (n - 1) as usize;
        assert(dom.contains(last));
        lemma_dom_at_least(dom.remove(last), (n - 1) as nat);
    }
}

/// Every character of the text has its place in the alphabet.
proof fn lemma_place_of(text: Seq<char>, alphabet: Seq<char>, c: char) -> (i: int)
    requires
        is_alphabet(text, alphabet),
        text.contains(c),
    ensures
        0 <= i < alphabet.len(),
        alphabet[i] == c,
{
    if (c as int) < 256 {
        let i = c as int;
        assert(alphabet[i] as int == i);
        i
    } else {
        let end = alphabet.len() - if text.contains(SPACE_MARK) {
            0int
        } else {
            1int
        };
        let extras = alphabet.subrange(256, end);
        assert(extras.contains(c));
        let j = choose|j: int| 0 <= j < extras.len() && extras[j] == c;
        assert(alphabet[j + 256] == c);
        j + 256
    }
}

/// Before merging, the ids of the characters of the text lie below the number of ids in use.
proof fn lemma_base(m: BpeModel, text: Seq<char>, alphabet: Seq<char>, specials: Seq<Seq<char>>)
    requires
        is_alphabet(text, alphabet),
        alphabet.len() <= usize::MAX,
        m.vocab.dom().finite(),
    ensures
        base_model(m, alphabet, specials).merges == m.merges,
        base_model(m, alphabet, specials).ranks == m.ranks,
        base_model(m, alphabet, specials).vocab.dom().finite(),
        forall|id: usize| #[trigger]
            m.vocab.contains_key(id) ==> base_model(m, alphabet, specials).vocab.contains_key(id),
        forall|i: int|
            0 <= i < text.len() ==> base_model(m, alphabet, specials).inverse.contains_key(seq![#[trigger] text[i]]),
        forall|i: int|
            0 <= i < text.len() ==> #[trigger] char_ids(base_model(m, alphabet, specials), text)[i] < base_model(
                m,
                alphabet,
                specials,
            ).vocab.len(),
        forall|i: int|
            0 <= i < text.len() ==> base_model(m, alphabet, specials).vocab.contains_key(
                #[trigger] char_ids(base_model(m, alphabet, specials), text)[i],
            ),
{
    let lettered = with_alphabet(m, alphabet, alphabet.len());
    let base = base_model(m, alphabet, specials);
    lemma_with_alphabet(m, alphabet, alphabet.len());
    lemma_with_specials(lettered, specials);
    assert forall|i: usize| i < alphabet.len() implies #[trigger] base.vocab.dom().contains(i) by {
        assert(lettered.vocab.contains_key(i));
    }
    lemma_dom_at_least(base.vocab.dom(), alphabet.len());
    assert forall|i: int| 0 <= i < text.len() implies base.inverse.contains_key(seq![#[trigger] text[i]])
        && base.inverse[seq![text[i]]] < alphabet.len() by {
        let at = lemma_place_of(text, alphabet, text[i]);
        assert(lettered.inverse.contains_key(seq![alphabet[at]]));
    }
    assert forall|i: int| 0 <= i < text.len() implies #[trigger] char_ids(base, text)[i] < base.vocab.len()
        && base.vocab.contains_key(char_ids(base, text)[i]) by {
        let c = text[i];
        assert(char_ids(base, text)[i] == base.inverse[seq![c]]);
        let id = char_ids(base, text)[i];
        assert(base.vocab.dom().contains(id));
    }
    assert forall|id: usize| #[trigger] m.vocab.contains_key(id) implies base.vocab.contains_key(id) by {
        assert(lettered.vocab.contains_key(id));
    }
}

/// Spelling out merges keeps every id in use and brings in the ids of the merges.
proof fn lemma_with_merged_tokens(m: BpeModel, order: Seq<MergeEntry>)
    ensures
        with_merged_tokens(m, order).merges == m.merges,
        with_merged_tokens(m, order).ranks == m.ranks,
        forall|id: usize| #[trigger]
            m.vocab.contains_key(id) ==> with_merged_tokens(m, order).vocab.contains_key(id),
        forall|i: int|
            0 <= i < order.len() ==> with_merged_tokens(m, order).vocab.contains_key((#[trigger] order[i]).new_id),
    decreases order.len(),
{
    if order.len() > 0 {
        lemma_with_merged_tokens(m, order.drop_last());
        let before = with_merged_tokens(m, order.drop_last());
        let after = with_merged_tokens(m, order);
        assert forall|i: int| 0 <= i < order.len() implies after.vocab.contains_key((#[trigger] order[i]).new_id) by {
            if i < order.len() - 1 {
                assert(order.drop_last()[i] == order[i]);
            }
        }
    }
}

/// When the merges are spelled out in the order of their ids, both members of each merge have
/// been spelled before.
proof fn lemma_members_spelled(
    base: BpeModel,
    old_merges: Map<(usize, usize), usize>,
    tokens: Seq<usize>,
    limit: nat,
    chosen: Seq<(usize, usize)>,
    order: Seq<MergeEntry>,
    at: int,
)
    requires
        limit <= usize::MAX,
        learns(tokens, base.vocab.len(), limit, chosen),
        base.merges == merges_after(old_merges, base.vocab.len(), chosen, chosen.len()),
        forall|p: (usize, usize)| #[trigger]
            old_merges.contains_key(p) ==> base.vocab.contains_key(p.0) && base.vocab.contains_key(p.1),
        forall|i: int| 0 <= i < tokens.len() ==> #[trigger] tokens[i] < base.vocab.len(),
        forall|i: int| 0 <= i < tokens.len() ==> base.vocab.contains_key(#[trigger] tokens[i]),
        lists_merges(order, base.merges),
        by_new_id(order),
        0 <= at < order.len(),
    ensures
        with_merged_tokens(base, order.take(at)).vocab.contains_key(order[at].pair.0),
        with_merged_tokens(base, order.take(at)).vocab.contains_key(order[at].pair.1),
{
    let first = base.vocab.len();
    let now = with_merged_tokens(base, order.take(at));
    let pair = order[at].pair;
    lemma_with_merged_tokens(base, order.take(at));
    if chosen.len() > 0 {
        let last = chosen[chosen.len() - 1];
        assert(first + (chosen.len() - 1) < limit);
    }
    if first + chosen.len() <= usize::MAX {
        assert forall|i: int, j: int| 0 <= i < j < chosen.len() implies chosen[i] != chosen[j] by {
            lemma_chosen_distinct(tokens, first, limit, chosen, i as nat, j as nat);
        }
        lemma_merges_after(old_merges, first, chosen, chosen.len());
        assert(base.merges.contains_key(pair));
        if exists|j: int| 0 <= j < chosen.len() && #[trigger] chosen[j] == pair {
            let j = choose|j: int| 0 <= j < chosen.len() && #[trigger] chosen[j] == pair;
            lemma_chosen_members(tokens, first, limit, chosen, j as nat);
            assert(order[at].new_id == first + j);
            lemma_member_spelled(base, tokens, chosen, order, at, j, pair.0);
            lemma_member_spelled(base, tokens, chosen, order, at, j, pair.1);
        } else {
            assert(old_merges.contains_key(pair));
        }
    } else {
        assert(chosen.len() == 0);
        assert(old_merges.contains_key(pair));
    }
}

proof fn lemma_member_spelled(
    base: BpeModel,
    tokens: Seq<usize>,
    chosen: Seq<(usize, usize)>,
    order: Seq<MergeEntry>,
    at: int,
    j: int,
    member: usize,
)
    requires
        forall|i: int|
            0 <= i < chosen.len() ==> base.merges.contains_key(#[trigger] chosen[i]) && base.merges[chosen[i]]
                == base.vocab.len() + i,
        forall|i: int| 0 <= i < tokens.len() ==> base.vocab.contains_key(#[trigger] tokens[i]),
        lists_merges(order, base.merges),
        by_new_id(order),
        0 <= at < order.len(),
        0 <= j < chosen.len(),
        order[at].new_id == base.vocab.len() + j,
        tokens.contains(member) || base.vocab.len() <= member < base.vocab.len() + j,
    ensures
        with_merged_tokens(base, order.take(at)).vocab.contains_key(member),
{
    lemma_with_merged_tokens(base, order.take(at));
    if tokens.contains(member) {
        let i = choose|i: int| 0 <= i < tokens.len() && tokens[i] == member;
        assert(base.vocab.contains_key(tokens[i]));
    } else {
        let i = member - base.vocab.len();
        let earlier = chosen[i];
        assert(base.merges.contains_key(earlier));
        let k = choose|k: int| 0 <= k < order.len() && (#[trigger] order[k]).pair == earlier;
        assert(order[k].new_id == member);
        if k >= at {
            assert(order[at].new_id <= order[k].new_id);
        }
        assert(order.take(at)[k] == order[k]);
    }
}

/// The training text with its spaces marked.
fn marked_chars(text: &str) -> (r: Vec<char>)
    ensures
        r@ == marked(text@),
{
    let chars = to_chars(text);
    let start: usize = if chars.len() > 0 && chars[0] == ' ' {
        1
    } else {
        0
    };
    let ghost body = text@.skip(start as int);
    assert(body =~= if text@.len() > 0 && text@[0] == ' ' {
        text@.skip(1)
    } else {
        text@
    });
    let mut out: Vec<char> = Vec::new();
    let mut i: usize = start;
    while i < chars.len()
        invariant
            start <= i <= chars@.len(),
            chars@ == text@,
            body == text@.skip(start as int),
            out@.len() == i - start,
            forall|k: int|
                0 <= k < out@.len() ==> #[trigger] out@[k] == (if body[k] == ' ' {
                    SPACE_MARK
                } else {
                    body[k]
                }),
        decreases chars@.len() - i,
    {
        let c = chars[i];
        out.push(
            if c == ' ' {
                SPACE_MARK
            } else {
                c
            },
        );
        i += 1;
    }
    assert(out@ =~= marked(text@));
    out
}

/// The base alphabet of a text, with the further characters in the order in which they occur.
fn alphabet_of(text: &Vec<char>) -> (r: Vec<char>)
    ensures
        is_alphabet(text@, r@),
{
    broadcast use group_hash_axioms;

    let mut out: Vec<char> = Vec::new();
    let mut code: u32 = 0;
    while code < 256
        invariant
            code <= 256,
            out@.len() == code,
            forall|i: int| 0 <= i < code ==> #[trigger] out@[i] as int == i,
        decreases 256 - code,
    {
        out.push((code as u8) as char);
        code += 1;
    }
    let mut seen: HashSet<u32> = HashSet::new();
    let mut marked_seen: bool = false;
    let mut i: usize = 0;
    while i < text.len()
        invariant
            i <= text@.len(),
            out@.len() >= 256,
            forall|k: int| 0 <= k < 256 ==> #[trigger] out@[k] as int == k,
            out@.no_duplicates(),
            marked_seen == text@.take(i as int).contains(SPACE_MARK),
            forall|c: char|
                out@.subrange(256, out@.len() as int).contains(c) <==> (text@.take(i as int).contains(c) && c as int
                    >= 256),
            forall|c: char, n: u32|
                c as int == n ==> (#[trigger] seen@.contains(n) <==> #[trigger] out@.subrange(
                    256,
                    out@.len() as int,
                ).contains(c)),
        decreases text@.len() - i,
    {
        let c = text[i];
        let ghost extras = out@.subrange(256, out@.len() as int);
        let ghost taken = text@.take(i + 1);
        assert(taken =~= text@.take(i as int).push(c));
        assert forall|d: char| taken.contains(d) <==> (text@.take(i as int).contains(d) || d == c) by {
            if text@.take(i as int).contains(d) {
                let k = choose|k: int| 0 <= k < i && text@.take(i as int)[k] == d;
                assert(taken[k] == d);
            }
            if d == c {
                assert(taken[i as int] == d);
            }
        }
        if c == SPACE_MARK {
            marked_seen = true;
        }
        let n: u32 = code_point(c);
        if n >= 256 && !seen.contains(&n) {
            let ghost before = out@;
            assert(!extras.contains(c));
            out.push(c);
            seen.insert(n);
            let ghost now = out@.subrange(256, out@.len() as int);
            assert(now =~= extras.push(c));
            assert forall|d: char| now.contains(d) <==> (extras.contains(d) || d == c) by {
                if extras.contains(d) {
                    let k = choose|k: int| 0 <= k < extras.len() && extras[k] == d;
                    assert(now[k] == d);
                }
                if d == c {
                    assert(now[extras.len() as int] == d);
                }
            }
            assert(out@.no_duplicates()) by {
                assert forall|k: int| 0 <= k < before.len() implies before[k] != c by {
                    if k >= 256 {
                        assert(extras[k - 256] == before[k]);
                    }
                }
            }
        } else {
            assert(n >= 256 ==> extras.contains(c));
        }
        assert forall|d: char|
            out@.subrange(256, out@.len() as int).contains(d) <==> (taken.contains(d) && d as int >= 256) by {
            assert(extras.contains(d) <==> (text@.take(i as int).contains(d) && d as int >= 256));
        }
        i += 1;
    }
    assert(text@.take(i as int) =~= text@);
    if !marked_seen {
        let ghost before = out@;
        assert(!before.subrange(256, before.len() as int).contains(SPACE_MARK));
        assert forall|k: int| 0 <= k < before.len() implies before[k] != SPACE_MARK by {
            if k >= 256 {
                assert(before.subrange(256, before.len() as int)[k - 256] == before[k]);
            }
        }
        out.push(SPACE_MARK);
        assert(out@.subrange(256, out@.len() - 1) =~= before.subrange(256, before.len() as int));
        assert(is_alphabet(text@, out@));
    } else {
        assert(is_alphabet(text@, out@));
    }
    out
}

/// The entries in the order of their ids.
fn sorted_by_new_id(entries: &Vec<MergeEntry>) -> (r: Vec<MergeEntry>)
    ensures
        by_new_id(r@),
        forall|merges: Map<(usize, usize), usize>| lists_merges(entries@, merges) ==> #[trigger] lists_merges(r@, merges),
{
    let mut out: Vec<MergeEntry> = Vec::new();
    let mut i: usize = 0;
    assert(out@ =~= entries@.take(0));
    while i < entries.len()
        invariant
            i <= entries@.len(),
            out@.len() == i,
            by_new_id(out@),
            out@.to_multiset() == entries@.take(i as int).to_multiset(),
        decreases entries@.len() - i,
    {
        let entry = entries[i];
        let mut at: usize = out.len();
        while at > 0 && out[at - 1].new_id > entry.new_id
            invariant
                at <= out@.len(),
                by_new_id(out@),
                forall|k: int| at <= k < out@.len() ==> #[trigger] out@[k].new_id > entry.new_id,
            decreases at,
        {
            at -= 1;
        }
        let ghost before = out@;
        out.insert(at, entry);
        proof {
            broadcast use vstd::seq_lib::group_to_multiset_ensures;

            assert(out@ =~= before.insert(at as int, entry));
            assert(entries@.take(i + 1) =~= entries@.take(i as int).push(entry));
        }
        i += 1;
    }
    assert(entries@.take(i as int) =~= entries@);
    proof {
        assert forall|merges: Map<(usize, usize), usize>| lists_merges(entries@, merges) implies #[trigger] lists_merges(
            out@,
            merges,
        ) by {
            lemma_permuted_listing(entries@, out@, merges);
        }
    }
    out
}

proof fn lemma_permuted_listing(a: Seq<MergeEntry>, b: Seq<MergeEntry>, merges: Map<(usize, usize), usize>)
    requires
        lists_merges(a, merges),
        a.to_multiset() == b.to_multiset(),
    ensures
        lists_merges(b, merges),
{
    broadcast use vstd::seq_lib::group_to_multiset_ensures;

    assert(a.no_duplicates());
    a.lemma_multiset_has_no_duplicates();
    assert(b.no_duplicates()) by {
        assert forall|x: MergeEntry| b.to_multiset().contains(x) implies b.to_multiset().count(x) == 1 by {}
        b.lemma_multiset_has_no_duplicates_conv();
    }
    assert forall|x: MergeEntry| a.contains(x) <==> b.contains(x) by {
        assert(a.contains(x) <==> a.to_multiset().count(x) > 0);
        assert(b.contains(x) <==> b.to_multiset().count(x) > 0);
    }
    assert forall|i: int| 0 <= i < b.len() implies merges.contains_key((#[trigger] b[i]).pair) && merges[b[i].pair]
        == b[i].new_id by {
        assert(a.contains(b[i]));
    }
    assert forall|i: int, j: int| 0 <= i < b.len() && 0 <= j < b.len() && i != j implies b[i].pair != b[j].pair by {
        assert(b[i] != b[j]);
        assert(b[i].new_id == merges[b[i].pair]);
        assert(b[j].new_id == merges[b[j].pair]);
    }
    assert forall|p: (usize, usize)| #[trigger] merges.contains_key(p) implies exists|i: int|
        0 <= i < b.len() && (#[trigger] b[i]).pair == p by {
        let k = choose|k: int| 0 <= k < a.len() && (#[trigger] a[k]).pair == p;
        assert(b.contains(a[k]));
        let i = choose|i: int| 0 <= i < b.len() && b[i] == a[k];
        assert(b[i].pair == p);
    }
}

/// What happened before does not depend on what is chosen later.
proof fn lemma_later_choices(
    tokens: Seq<usize>,
    merges: Map<(usize, usize), usize>,
    first: nat,
    chosen: Seq<(usize, usize)>,
    next: (usize, usize),
    k: nat,
)
    requires
        k <= chosen.len(),
    ensures
        tokens_after(tokens, first, chosen.push(next), k) == tokens_after(tokens, first, chosen, k),
        merges_after(merges, first, chosen.push(next), k) == merges_after(merges, first, chosen, k),
    decreases k,
{
    if k > 0 {
        lemma_later_choices(tokens, merges, first, chosen, next, (k - 1) as nat);
        assert(chosen.push(next)[k - 1] == chosen[k - 1]);
    }
}

/// The special tokens that were handed over, if any.
pub open spec fn special_list(allowed_special: Option<Vec<String>>) -> Seq<Seq<char>> {
    match allowed_special {
        Some(list) => views(list@),
        None => Seq::empty(),
    }
}

impl BytePair {
    fn add_alphabet(&mut self, alphabet: &Vec<char>)
        requires
            old(self).wf(),
        ensures
            final(self).wf(),
            final(self)@ == with_alphabet(old(self)@, alphabet@, alphabet@.len()),
    {
        let mut i: usize = 0;
        while i < alphabet.len()
            invariant
                i <= alphabet@.len(),
                self.wf(),
                self@ == with_alphabet(old(self)@, alphabet@, i as nat),
            decreases alphabet@.len() - i,
        {
            self.vocab.insert(i, string_of_char(alphabet[i]));
            self.inverse_vocab.insert(string_of_char(alphabet[i]), i);
            i += 1;
        }
    }

    fn add_specials(&mut self, tokens: &Vec<String>)
        requires
            old(self).wf(),
        ensures
            final(self).wf(),
            final(self)@ == with_specials(old(self)@, views(tokens@)),
    {
        let mut i: usize = 0;
        while i < tokens.len()
            invariant
                i <= tokens@.len(),
                self.wf(),
                self@ == with_specials(old(self)@, views(tokens@).take(i as int)),
            decreases tokens@.len() - i,
        {
            assert(views(tokens@).take(i + 1).drop_last() =~= views(tokens@).take(i as int));
            if !self.inverse_vocab.contains(tokens[i].as_str()) {
                let idx: usize = self.vocab.len();
                self.vocab.insert(idx, tokens[i].clone());
                self.inverse_vocab.insert(tokens[i].clone(), idx);
            }
            i += 1;
        }
        assert(views(tokens@).take(i as int) =~= views(tokens@));
    }

    fn ids_of_chars(&self, text: &Vec<char>) -> (r: Vec<usize>)
        requires
            forall|i: int| 0 <= i < text@.len() ==> self@.inverse.contains_key(seq![#[trigger] text@[i]]),
        ensures
            r@ == char_ids(self@, text@),
    {
        let mut out: Vec<usize> = Vec::new();
        let mut i: usize = 0;
        while i < text.len()
            invariant
                i <= text@.len(),
                forall|i: int| 0 <= i < text@.len() ==> self@.inverse.contains_key(seq![#[trigger] text@[i]]),
                out@ == char_ids(self@, text@.take(i as int)),
            decreases text@.len() - i,
        {
            let c = text[i];
            assert(self@.inverse.contains_key(seq![text@[i as int]]));
            let id: usize = match self.inverse_vocab.get(string_of_char(c).as_str()) {
                Some(id) => id,
                None => 0,
            };
            out.push(id);
            i += 1;
            assert(out@ =~= char_ids(self@, text@.take(i as int)));
        }
        assert(text@.take(i as int) =~= text@);
        out
    }

    /// Learns a vocabulary from `text`: the base alphabet, the special tokens, and merges of the
    /// most frequent neighbours until `vocab_size` ids are in use or nothing is left to merge.
    pub fn train(&mut self, text: &str, vocab_size: usize, allowed_special: Option<Vec<String>>)
        requires
            old(self).wf(),
            old(self)@.merges_known(),
        ensures
            final(self).wf(),
            trains(old(self)@, text@, vocab_size as nat, special_list(allowed_special), final(self)@),
    {
        let ghost before = old(self)@;
        let ghost specials = special_list(allowed_special);
        let ghost limit = vocab_size as nat;
        let process_text = marked_chars(text);
        let alphabet = alphabet_of(&process_text);
        proof {
            self.vocab.lemma_finite();
        }
        self.add_alphabet(&alphabet);
        match &allowed_special {
            Some(tokens) => {
                self.add_specials(tokens);
            },
            None => {},
        }
        let ghost base = self@;
        assert(base == base_model(before, alphabet@, specials));
        proof {
            assert(alphabet@.len() == alphabet.len());
            lemma_base(before, marked(text@), alphabet@, specials);
        }
        let mut token_ids: Vec<usize> = self.ids_of_chars(&process_text);
        let ghost ids = token_ids@;
        let ghost first = base.vocab.len();
        let mut new_id: usize = self.vocab.len();
        let ghost mut chosen: Seq<(usize, usize)> = Seq::empty();
        while new_id < vocab_size
            invariant
                limit == vocab_size,
                self.wf(),
                self@ == (BpeModel { merges: merges_after(before.merges, first, chosen, chosen.len()), ..base }),
                new_id == first + chosen.len(),
                token_ids@ == tokens_after(ids, first, chosen, chosen.len()),
                forall|k: int|
                    0 <= k < chosen.len() ==> first + k < limit && most_frequent(
                        tokens_after(ids, first, chosen, k as nat),
                        #[trigger] chosen[k],
                    ),
            ensures
                learns(ids, first, limit, chosen),
                self.wf(),
                self@ == (BpeModel { merges: merges_after(before.merges, first, chosen, chosen.len()), ..base }),
            decreases vocab_size - new_id,
        {
            match find_freq_pair(&token_ids, "most") {
                Some(pair) => {
                    token_ids = replace_pair(&token_ids, pair, new_id);
                    self.bpe_merges.insert(pair, new_id);
                    proof {
                        let next = chosen.push(pair);
                        lemma_later_choices(ids, before.merges, first, chosen, pair, chosen.len());
                        assert forall|k: int| 0 <= k < next.len() implies first + k < limit && most_frequent(
                            tokens_after(ids, first, next, k as nat),
                            #[trigger] next[k],
                        ) by {
                            lemma_later_choices(ids, before.merges, first, chosen, pair, k as nat);
                            if k < chosen.len() {
                                assert(next[k] == chosen[k]);
                            }
                        }
                        chosen = next;
                    }
                    new_id += 1;
                },
                None => {
                    break;
                },
            }
        }
        let ghost merged = self@;
        let sorted_merges = sorted_by_new_id(self.bpe_merges.entries());
        let ghost order = sorted_merges@;
        assert(lists_merges(order, merged.merges));
        let mut i: usize = 0;
        assert(order.take(0) =~= Seq::<MergeEntry>::empty());
        while i < sorted_merges.len()
            invariant
                i <= sorted_merges@.len(),
                self.wf(),
                order == sorted_merges@,
                self@ == with_merged_tokens(merged, order.take(i as int)),
                limit == vocab_size,
                merged == (BpeModel { merges: merges_after(before.merges, first, chosen, chosen.len()), ..base }),
                first == base.vocab.len(),
                learns(ids, first, limit, chosen),
                forall|p: (usize, usize)| #[trigger]
                    before.merges.contains_key(p) ==> merged.vocab.contains_key(p.0) && merged.vocab.contains_key(p.1),
                forall|i: int| 0 <= i < ids.len() ==> #[trigger] ids[i] < first,
                forall|i: int| 0 <= i < ids.len() ==> merged.vocab.contains_key(#[trigger] ids[i]),
                lists_merges(order, merged.merges),
                by_new_id(order),
            decreases sorted_merges@.len() - i,
        {
            let entry = sorted_merges[i];
            proof {
                lemma_members_spelled(merged, before.merges, ids, limit, chosen, order, i as int);
                assert(order.take(i + 1).drop_last() =~= order.take(i as int));
            }
            let merged_token: String = match (self.vocab.get(entry.pair.0), self.vocab.get(entry.pair.1)) {
                (Some(a), Some(b)) => concat(a.as_str(), b.as_str()),
                _ => String::new(),
            };
            self.vocab.insert(entry.new_id, merged_token.clone());
            self.inverse_vocab.insert(merged_token, entry.new_id);
            i += 1;
        }
        assert(order.take(i as int) =~= order);
        assert(trains_with(before, text@, limit, specials, self@, alphabet@, chosen, order));
    }
}

/// There are no more characters than code points.
proof fn lemma_distinct_chars(alphabet: Seq<char>)
    requires
        alphabet.no_duplicates(),
    ensures
        alphabet.len() <= 0x110000,
{
    let codes = alphabet.map_values(|c: char| c as int);
    assert(codes.no_duplicates()) by {
        assert forall|i: int, j: int| 0 <= i < codes.len() && 0 <= j < codes.len() && i != j implies codes[i]
            != codes[j] by {
            assert(alphabet[i] != alphabet[j]);
        }
    }
    codes.unique_seq_to_set();
    let bound = vstd::set_lib::set_int_range(0, 0x110000);
    vstd::set_lib::lemma_int_range(0, 0x110000);
    assert(codes.to_set().subset_of(bound)) by {
        assert forall|n: int| codes.to_set().contains(n) implies bound.contains(n) by {
            let i = choose|i: int| 0 <= i < codes.len() && codes[i] == n;
            lemma_code_point(alphabet[i]);
        }
    }
    vstd::set_lib::lemma_len_subset(codes.to_set(), bound);
}

proof fn lemma_code_point(c: char)
    ensures
        0 <= c as int <= 0x10ffff,
{
}

/// The ids in use are the numbers below `n`.
spec fn ids_below(m: BpeModel, n: nat) -> bool {
    &&& m.vocab.dom().finite()
    &&& m.vocab.len() == n
    &&& forall|id: usize| #[trigger] m.vocab.contains_key(id) <==> id < n
}

proof fn lemma_fresh_alphabet(alphabet: Seq<char>, n: nat)
    requires
        n <= alphabet.len() <= usize::MAX,
        alphabet.no_duplicates(),
    ensures
        ids_below(with_alphabet(BpeModel::empty(), alphabet, n), n),
        with_alphabet(BpeModel::empty(), alphabet, n).coherent(),
    decreases n,
{
    lemma_with_alphabet(BpeModel::empty(), alphabet, n);
    let now = with_alphabet(BpeModel::empty(), alphabet, n);
    if n > 0 {
        lemma_fresh_alphabet(alphabet, (n - 1) as nat);
    }
    assert forall|t: Seq<char>| #[trigger] now.inverse.contains_key(t) implies now.vocab.contains_key(now.inverse[t])
        && now.vocab[now.inverse[t]] == t by {
        let i = choose|i: int| 0 <= i < n && t == seq![#[trigger] alphabet[i]];
        assert(now.inverse[seq![alphabet[i]]] == i);
    }
}

proof fn lemma_fresh_specials(m: BpeModel, n: nat, specials: Seq<Seq<char>>)
    requires
        ids_below(m, n),
        m.coherent(),
        n + specials.len() <= usize::MAX,
    ensures
        ids_below(with_specials(m, specials), with_specials(m, specials).vocab.len()),
        with_specials(m, specials).vocab.len() <= n + specials.len(),
        with_specials(m, specials).coherent(),
    decreases specials.len(),
{
    if specials.len() > 0 {
        lemma_fresh_specials(m, n, specials.drop_last());
        let before = with_specials(m, specials.drop_last());
        let now = with_specials(m, specials);
        let id = before.vocab.len() as usize;
        assert(!before.vocab.contains_key(id));
        assert forall|t: Seq<char>| #[trigger] now.inverse.contains_key(t) implies now.vocab.contains_key(now.inverse[t])
            && now.vocab[now.inverse[t]] == t by {
            if before.inverse.contains_key(t) {
                assert(before.vocab.contains_key(before.inverse[t]));
            }
        }
    }
}

/// Spelling out merges under new ids keeps the model coherent and makes every merge spell what its
/// members spell.
proof fn lemma_spelled_merges(m: BpeModel, order: Seq<MergeEntry>, k: int)
    requires
        0 <= k <= order.len(),
        m.coherent(),
        forall|i: int| 0 <= i < order.len() ==> !m.vocab.contains_key((#[trigger] order[i]).new_id),
        forall|i: int, j: int| 0 <= i < j < order.len() ==> order[i].new_id != order[j].new_id,
        forall|at: int|
            0 <= at < order.len() ==> with_merged_tokens(m, order.take(at)).vocab.contains_key(
                (#[trigger] order[at]).pair.0,
            ) && with_merged_tokens(m, order.take(at)).vocab.contains_key(order[at].pair.1),
    ensures
        with_merged_tokens(m, order.take(k)).coherent(),
        forall|id: usize| #[trigger]
            with_merged_tokens(m, order.take(k)).vocab.contains_key(id) ==> m.vocab.contains_key(id) || exists|i: int|
                0 <= i < k && (#[trigger] order[i]).new_id == id,
        forall|i: int|
            0 <= i < k ==> {
                let now = with_merged_tokens(m, order.take(k)).vocab;
                let entry = #[trigger] order[i];
                &&& now.contains_key(entry.pair.0)
                &&& now.contains_key(entry.pair.1)
                &&& now.contains_key(entry.new_id)
                &&& now[entry.new_id] == now[entry.pair.0] + now[entry.pair.1]
            },
    decreases k,
{
    if k > 0 {
        lemma_spelled_merges(m, order, k - 1);
        assert(order.take(k).drop_last() =~= order.take(k - 1));
        let before = with_merged_tokens(m, order.take(k - 1));
        let now = with_merged_tokens(m, order.take(k));
        let last = order[k - 1];
        assert(order.take(k).last() == last);
        assert(!before.vocab.contains_key(last.new_id)) by {
            if before.vocab.contains_key(last.new_id) {
                let i = choose|i: int| 0 <= i < k - 1 && (#[trigger] order[i]).new_id == last.new_id;
                assert(order[i].new_id != order[k - 1].new_id);
            }
        }
        assert forall|id: usize| #[trigger] now.vocab.contains_key(id) implies m.vocab.contains_key(id) || exists|i: int|
            0 <= i < k && (#[trigger] order[i]).new_id == id by {
            if id == last.new_id {
                assert(order[k - 1].new_id == id);
            } else {
                assert(before.vocab.contains_key(id));
            }
        }
        assert forall|t: Seq<char>| #[trigger] now.inverse.contains_key(t) implies now.vocab.contains_key(now.inverse[t])
            && now.vocab[now.inverse[t]] == t by {
            if t != before.vocab[last.pair.0] + before.vocab[last.pair.1] {
                assert(before.inverse.contains_key(t));
            }
        }
        assert forall|i: int| 0 <= i < k implies {
            let entry = #[trigger] order[i];
            &&& now.vocab.contains_key(entry.pair.0)
            &&& now.vocab.contains_key(entry.pair.1)
            &&& now.vocab.contains_key(entry.new_id)
            &&& now.vocab[entry.new_id] == now.vocab[entry.pair.0] + now.vocab[entry.pair.1]
        } by {
            if i < k - 1 {
                let entry = order[i];
                assert(before.vocab.contains_key(entry.new_id));
            }
        }
    } else {
        assert(order.take(0) =~= Seq::<MergeEntry>::empty());
    }
}

/// The entry is the `j`th of the chosen pairs with the id that comes with that place.
spec fn numbered(chosen: Seq<(usize, usize)>, first: nat, entry: MergeEntry, j: int) -> bool {
    0 <= j < chosen.len() && chosen[j] == entry.pair && entry.new_id == first + j
}

proof fn lemma_alphabet_known(m: BpeModel, alphabet: Seq<char>, n: nat)
    requires
        m.spellings_known(),
    ensures
        with_alphabet(m, alphabet, n).spellings_known(),
    decreases n,
{
    if n > 0 {
        lemma_alphabet_known(m, alphabet, (n - 1) as nat);
    }
}

proof fn lemma_specials_known(m: BpeModel, specials: Seq<Seq<char>>)
    requires
        m.spellings_known(),
    ensures
        with_specials(m, specials).spellings_known(),
        forall|t: Seq<char>| #[trigger]
            m.inverse.contains_key(t) ==> with_specials(m, specials).inverse.contains_key(t),
    decreases specials.len(),
{
    if specials.len() > 0 {
        lemma_specials_known(m, specials.drop_last());
    }
}

proof fn lemma_merged_known(m: BpeModel, order: Seq<MergeEntry>)
    requires
        m.spellings_known(),
    ensures
        with_merged_tokens(m, order).spellings_known(),
        forall|t: Seq<char>| #[trigger]
            m.inverse.contains_key(t) ==> with_merged_tokens(m, order).inverse.contains_key(t),
    decreases order.len(),
{
    if order.len() > 0 {
        lemma_merged_known(m, order.drop_last());
    }
}

/// The members of merges that are spelled out in the order of their ids have smaller ids.
proof fn lemma_merges_rise(m: BpeModel, order: Seq<MergeEntry>, first: nat)
    requires
        m.coherent(),
        lists_merges(order, m.merges),
        by_new_id(order),
        forall|id: usize| #[trigger] m.vocab.contains_key(id) ==> id < first,
        forall|i: int| 0 <= i < order.len() ==> (#[trigger] order[i]).new_id >= first,
        forall|i: int, j: int| 0 <= i < j < order.len() ==> order[i].new_id != order[j].new_id,
        forall|at: int|
            0 <= at < order.len() ==> with_merged_tokens(m, order.take(at)).vocab.contains_key(
                (#[trigger] order[at]).pair.0,
            ) && with_merged_tokens(m, order.take(at)).vocab.contains_key(order[at].pair.1),
    ensures
        m.merges_rise(),
{
    assert forall|p: (usize, usize)| #[trigger] m.merges.contains_key(p) implies p.0 < m.merges[p] && p.1
        < m.merges[p] by {
        let at = choose|at: int| 0 <= at < order.len() && (#[trigger] order[at]).pair == p;
        assert forall|i: int| 0 <= i < order.len() implies !m.vocab.contains_key((#[trigger] order[i]).new_id) by {
            assert(order[i].new_id >= first);
        }
        lemma_spelled_merges(m, order, at);
        let so_far = with_merged_tokens(m, order.take(at)).vocab;
        assert(so_far.contains_key(order[at].pair.0) && so_far.contains_key(order[at].pair.1));
        assert forall|id: usize| #[trigger] so_far.contains_key(id) implies id < order[at].new_id by {
            if !m.vocab.contains_key(id) {
                let i = choose|i: int| 0 <= i < at && (#[trigger] order[i]).new_id == id;
                assert(order[i].new_id <= order[at].new_id && order[i].new_id != order[at].new_id);
            }
        }
    }
}

proof fn lemma_letter_place(text: Seq<char>, alphabet: Seq<char>, c: char) -> (i: int)
    requires
        is_alphabet(text, alphabet),
        (c as int) < 256 || c == SPACE_MARK || text.contains(c),
    ensures
        0 <= i < alphabet.len(),
        alphabet[i] == c,
{
    if text.contains(c) {
        let i = lemma_place_of(text, alphabet, c);
        i
    } else if (c as int) < 256 {
        let i = c as int;
        assert(alphabet[i] as int == i);
        i
    } else {
        alphabet.len() - 1
    }
}

/// The characters of the alphabet keep their ids, and all that is spelled has an id.
proof fn lemma_letters_known(
    text: Seq<char>,
    alphabet: Seq<char>,
    specials: Seq<Seq<char>>,
    merged: BpeModel,
    order: Seq<MergeEntry>,
)
    requires
        is_alphabet(text, alphabet),
        alphabet.len() <= usize::MAX,
        merged.vocab == base_model(BpeModel::empty(), alphabet, specials).vocab,
        merged.inverse == base_model(BpeModel::empty(), alphabet, specials).inverse,
    ensures
        with_merged_tokens(merged, order).spellings_known(),
        forall|c: char|
            (c as int) < 256 || c == SPACE_MARK || text.contains(c) ==> #[trigger] with_merged_tokens(
                merged,
                order,
            ).inverse.contains_key(seq![c]),
{
    let m = BpeModel::empty();
    let lettered = with_alphabet(m, alphabet, alphabet.len());
    lemma_with_alphabet(m, alphabet, alphabet.len());
    lemma_alphabet_known(m, alphabet, alphabet.len());
    lemma_specials_known(lettered, specials);
    lemma_merged_known(merged, order);
    assert forall|c: char| (c as int) < 256 || c == SPACE_MARK || text.contains(c) implies #[trigger] with_merged_tokens(
        merged,
        order,
    ).inverse.contains_key(seq![c]) by {
        let at = lemma_letter_place(text, alphabet, c);
        assert(lettered.inverse.contains_key(seq![alphabet[at]]));
    }
}

/// A tokenizer trained from nothing is coherent: every token's id spells that token, everything that
/// an id spells has an id, and every merge spells what its two members, which have smaller ids, spell
/// together. The first 256 code points, the space mark and the characters of the text have ids, and
/// there are no ranks. The bound is one that every list in memory keeps.
pub proof fn law_fresh_training_is_coherent(
    text: Seq<char>,
    vocab_size: usize,
    specials: Seq<Seq<char>>,
    after: BpeModel,
)
    requires
        trains(BpeModel::empty(), text, vocab_size as nat, specials, after),
        specials.len() <= isize::MAX,
    ensures
        after.coherent(),
        after.merges_spell(),
        after.merges_known(),
        after.merges_rise(),
        after.spellings_known(),
        after.ranks == Map::<(Seq<char>, Seq<char>), usize>::empty(),
        forall|c: char|
            (c as int) < 256 || c == SPACE_MARK || marked(text).contains(c) ==> #[trigger] after.inverse.contains_key(
                seq![c],
            ),
{
    let m = BpeModel::empty();
    let limit = vocab_size as nat;
    let (alphabet, chosen, order): (Seq<char>, Seq<(usize, usize)>, Seq<MergeEntry>) = choose|
        alphabet: Seq<char>,
        chosen: Seq<(usize, usize)>,
        order: Seq<MergeEntry>,
    |
        trains_with(m, text, limit, specials, after, alphabet, chosen, order);
    lemma_distinct_chars(alphabet);
    lemma_fresh_alphabet(alphabet, alphabet.len());
    lemma_fresh_specials(with_alphabet(m, alphabet, alphabet.len()), alphabet.len(), specials);
    lemma_base(m, marked(text), alphabet, specials);
    let base = base_model(m, alphabet, specials);
    let first = base.vocab.len();
    let ids = char_ids(base, marked(text));
    let merged = BpeModel { merges: merges_after(m.merges, first, chosen, chosen.len()), ..base };
    if chosen.len() > 0 {
        let last = chosen[chosen.len() - 1];
        assert(first + (chosen.len() - 1) < limit);
    }
    assert forall|i: int, j: int| 0 <= i < j < chosen.len() implies chosen[i] != chosen[j] by {
        lemma_chosen_distinct(ids, first, limit, chosen, i as nat, j as nat);
    }
    lemma_merges_after(m.merges, first, chosen, chosen.len());
    assert forall|i: int| 0 <= i < order.len() implies exists|j: int| numbered(chosen, first, #[trigger] order[i], j) by {
        assert(merged.merges.contains_key(order[i].pair));
        let j = choose|j: int| 0 <= j < chosen.len() && #[trigger] chosen[j] == order[i].pair;
        assert(merged.merges[chosen[j]] == first + j);
        assert(numbered(chosen, first, order[i], j));
    }
    assert forall|i: int| 0 <= i < order.len() implies !merged.vocab.contains_key((#[trigger] order[i]).new_id) by {
        let j = choose|j: int| numbered(chosen, first, order[i], j);
        assert(order[i].new_id >= first);
    }
    assert forall|i: int, j: int| 0 <= i < j < order.len() implies order[i].new_id != order[j].new_id by {
        let a = choose|a: int| numbered(chosen, first, order[i], a);
        let b = choose|b: int| numbered(chosen, first, order[j], b);
        assert(order[i].pair != order[j].pair);
    }
    assert forall|at: int| 0 <= at < order.len() implies with_merged_tokens(merged, order.take(at)).vocab.contains_key(
        (#[trigger] order[at]).pair.0,
    ) && with_merged_tokens(merged, order.take(at)).vocab.contains_key(order[at].pair.1) by {
        lemma_members_spelled(merged, m.merges, ids, limit, chosen, order, at);
    }
    lemma_spelled_merges(merged, order, order.len() as int);
    assert(order.take(order.len() as int) =~= order);
    lemma_with_merged_tokens(merged, order);
    assert forall|p: (usize, usize)| #[trigger] after.merges.contains_key(p) implies {
        &&& after.vocab.contains_key(p.0)
        &&& after.vocab.contains_key(p.1)
        &&& after.vocab.contains_key(after.merges[p])
        &&& after.vocab[after.merges[p]] == after.vocab[p.0] + after.vocab[p.1]
    } by {
        let i = choose|i: int| 0 <= i < order.len() && (#[trigger] order[i]).pair == p;
        assert(after.merges[p] == order[i].new_id);
    }
    lemma_merges_rise(merged, order, first);
    lemma_letters_known(marked(text), alphabet, specials, merged, order);
}

} // verus!
