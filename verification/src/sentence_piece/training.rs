//! Learning a unigram vocabulary from text.

use vstd::hash_map::StringHashMap;
use vstd::prelude::*;
use vstd::string::{StrSliceExecFns, StringExecFns};

use crate::ieee::{double_is_nan, double_key, double_rank};
use crate::pure_fn::{call2, fn2, pure2};
use crate::sentence_piece::counting::{cut_up, law_scores_share_uses, shares_uses};
use crate::sentence_piece::model::{
    alphabetical, at_most, count_of, count_upto, counted_at, counted_multis, counted_singles, halves, is_kept_always,
    marked_text, marked_words, multi_tokens, occurrences, pieces_of, places_of, prune_target, pruned, pruned_with,
    reestimated, round, seeded, seeded_with, sum_of_counts, total_halves, trains_through, unpruned, unused_kept,
    MAX_SUBSTR_LEN, SEED_VOCAB_MULTIPLIER, UNKNOWN_SCORE, WORD_MARK,
};
use crate::sentence_piece::tokenizer::SentencePieceTokenizer;
use crate::sentence_piece::viterbi::{
    absorbing, law_segments_are_tokens, lemma_segments_bound, segmented, viterbi, Scores,
};
use crate::sorting::{comes_first, sort_places, sorted_places, text_le, Descending, Ranked};
use crate::text::{
    concat_all, flatten, occurs_at, same_text, split_whitespace, string_of, string_of_char, to_chars, views, words_of,
};
use crate::token_table::{enumerates, lemma_enumeration_len, TokenTable};

verus! {

/// The words of `text` with their marks.
pub fn mark_words(text: &str) -> (r: Vec<String>)
    ensures
        views(r@) == marked_words(text@),
{
    let words = split_whitespace(text);
    let ghost list = words_of(text@);
    let mut out: Vec<String> = Vec::new();
    let mut i: usize = 0;
    while i < words.len()
        invariant
            i <= words@.len(),
            views(words@) == list,
            list == words_of(text@),
            views(out@) == marked_words(text@).take(i as int),
        decreases words@.len() - i,
    {
        let ghost before = views(out@);
        assert(list[i as int] == words@[i as int]@);
        let mut word = string_of_char(WORD_MARK);
        word.append(words[i].as_str());
        out.push(word);
        assert(views(out@) =~= before.push(marked_words(text@)[i as int]));
        i += 1;
        assert(views(out@) =~= marked_words(text@).take(i as int));
    }
    assert(marked_words(text@).take(i as int) =~= marked_words(text@));
    out
}

/// How often `t` is counted at the first `i` places and, if it is shorter than `j`, at place `i`.
spec fn count_within(text: Seq<char>, max: nat, t: Seq<char>, i: nat, j: nat) -> nat {
    count_upto(text, max, t, i) + if counted_at(text, max, t, i as int) && t.len() < j {
        1nat
    } else {
        0nat
    }
}

/// Whether `table` holds these counts, and no entry for what does not occur.
spec fn tells_counts(table: Map<Seq<char>, usize>, text: Seq<char>, max: nat, i: nat, j: nat) -> bool {
    &&& forall|t: Seq<char>| #[trigger] table.contains_key(t) <==> count_within(text, max, t, i, j) > 0
    &&& forall|t: Seq<char>| table.contains_key(t) ==> #[trigger] table[t] == count_within(text, max, t, i, j)
}

proof fn lemma_count_bound(text: Seq<char>, max: nat, t: Seq<char>, n: nat)
    ensures
        count_upto(text, max, t, n) <= n,
    decreases n,
{
    if n > 0 {
        lemma_count_bound(text, max, t, (n - 1) as nat);
    }
}

/// Counts the substrings of `chars` that are not longer than `max`.
fn count_substrings(chars: &Vec<char>, max: usize) -> (r: TokenTable<usize>)
    ensures
        r.wf(),
        forall|t: Seq<char>| #[trigger] r@.contains_key(t) <==> count_of(chars@, max as nat, t) > 0,
        forall|t: Seq<char>| r@.contains_key(t) ==> #[trigger] r@[t] == count_of(chars@, max as nat, t),
{
    let ghost text = chars@;
    let ghost top = max as nat;
    let mut counts: TokenTable<usize> = TokenTable::new();
    let n: usize = chars.len();
    let mut i: usize = 0;
    while i < n
        invariant
            i <= n,
            n == chars@.len(),
            text == chars@,
            top == max,
            counts.wf(),
            tells_counts(counts@, text, top, i as nat, 0),
        decreases n - i,
    {
        let room: usize = n - i;
        let end: usize = if max <= room {
            max
        } else {
            room
        };
        let mut j: usize = 0;
        assert(tells_counts(counts@, text, top, i as nat, 1)) by {
            assert forall|t: Seq<char>| count_within(text, top, t, i as nat, 1) == #[trigger] count_within(
                text,
                top,
                t,
                i as nat,
                0,
            ) by {}
        }
        while j < end
            invariant
                j <= end,
                i < n,
                n == chars@.len(),
                text == chars@,
                top == max,
                end == at_most(top, (n - i) as nat),
                counts.wf(),
                tells_counts(counts@, text, top, i as nat, (j + 1) as nat),
            decreases end - j,
        {
            let len: usize = j + 1;
            let part = string_of(chars, i, i + len);
            let ghost key = part@;
            let ghost before = counts@;
            assert(occurs_at(text, key, i as int));
            assert(counted_at(text, top, key, i as int));
            let old_count: usize = match counts.get(part.as_str()) {
                Some(c) => c,
                None => 0,
            };
            assert(old_count == count_within(text, top, key, i as nat, len as nat));
            proof {
                lemma_count_bound(text, top, key, i as nat);
            }
            counts.insert(part, old_count + 1);
            proof {
                assert forall|t: Seq<char>| t != key implies #[trigger] count_within(text, top, t, i as nat, (len + 1) as nat)
                    == count_within(text, top, t, i as nat, len as nat) by {
                    if counted_at(text, top, t, i as int) && t.len() == len {
                        assert(t =~= text.subrange(i as int, i + len));
                    }
                }
                assert forall|t: Seq<char>| #[trigger] counts@.contains_key(t) <==> count_within(
                    text,
                    top,
                    t,
                    i as nat,
                    (len + 1) as nat,
                ) > 0 by {
                    assert(before.contains_key(t) <==> count_within(text, top, t, i as nat, len as nat) > 0);
                }
                assert forall|t: Seq<char>| counts@.contains_key(t) implies #[trigger] counts@[t] == count_within(
                    text,
                    top,
                    t,
                    i as nat,
                    (len + 1) as nat,
                ) by {
                    if t != key {
                        assert(before.contains_key(t));
                        assert(before[t] == count_within(text, top, t, i as nat, len as nat));
                    }
                }
            }
            j = len;
        }
        proof {
            assert forall|t: Seq<char>| #[trigger] count_within(text, top, t, (i + 1) as nat, 0) == count_within(
                text,
                top,
                t,
                i as nat,
                (j + 1) as nat,
            ) by {}
            assert forall|t: Seq<char>| #[trigger] counts@.contains_key(t) <==> count_within(
                text,
                top,
                t,
                (i + 1) as nat,
                0,
            ) > 0 by {
                assert(count_within(text, top, t, (i + 1) as nat, 0) == count_within(text, top, t, i as nat, (j + 1) as nat));
            }
            assert forall|t: Seq<char>| counts@.contains_key(t) implies #[trigger] counts@[t] == count_within(
                text,
                top,
                t,
                (i + 1) as nat,
                0,
            ) by {
                assert(count_within(text, top, t, (i + 1) as nat, 0) == count_within(text, top, t, i as nat, (j + 1) as nat));
            }
        }
        i += 1;
    }
    proof {
        assert forall|t: Seq<char>| #[trigger] count_within(text, top, t, n as nat, 0) == count_of(text, top, t) by {}
        assert forall|t: Seq<char>| #[trigger] counts@.contains_key(t) <==> count_of(text, top, t) > 0 by {
            assert(count_within(text, top, t, n as nat, 0) == count_of(text, top, t));
        }
        assert forall|t: Seq<char>| counts@.contains_key(t) implies #[trigger] counts@[t] == count_of(text, top, t) by {
            assert(count_within(text, top, t, n as nat, 0) == count_of(text, top, t));
        }
    }
    counts
}

/// The names that have one character, or those that have several.
fn names_by_length(names: &Vec<String>, single: bool) -> (r: Vec<String>)
    requires
        views(names@).no_duplicates(),
    ensures
        views(r@).no_duplicates(),
        forall|s: Seq<char>| #[trigger]
            views(r@).contains(s) <==> views(names@).contains(s) && (if single {
                s.len() == 1
            } else {
                s.len() > 1
            }),
{
    let ghost all = views(names@);
    let mut out: Vec<String> = Vec::new();
    let mut i: usize = 0;
    while i < names.len()
        invariant
            i <= names@.len(),
            all == views(names@),
            all.no_duplicates(),
            views(out@).no_duplicates(),
            forall|s: Seq<char>| #[trigger]
                views(out@).contains(s) <==> all.take(i as int).contains(s) && (if single {
                    s.len() == 1
                } else {
                    s.len() > 1
                }),
        decreases names@.len() - i,
    {
        let ghost before = views(out@);
        let ghost name = all[i as int];
        assert(name == names@[i as int]@);
        let len: usize = names[i].as_str().unicode_len();
        let wanted: bool = if single {
            len == 1
        } else {
            len > 1
        };
        proof {
            lemma_take_contains(all, i as int);
        }
        if wanted {
            out.push(names[i].clone());
            assert(views(out@) =~= before.push(name));
            proof {
                assert(!before.contains(name));
                lemma_push_distinct(before, name);
            }
        }
        i += 1;
    }
    assert(all.take(i as int) =~= all);
    out
}

proof fn lemma_take_contains(all: Seq<Seq<char>>, i: int)
    requires
        0 <= i < all.len(),
        all.no_duplicates(),
    ensures
        !all.take(i).contains(all[i]),
        forall|s: Seq<char>| #[trigger] all.take(i + 1).contains(s) <==> all.take(i).contains(s) || s == all[i],
{
    assert(all.take(i + 1) =~= all.take(i).push(all[i]));
    assert forall|s: Seq<char>| #[trigger] all.take(i + 1).contains(s) <==> all.take(i).contains(s) || s == all[i] by {
        lemma_push_has(all.take(i), all[i], s);
    }
    if all.take(i).contains(all[i]) {
        let k = choose|k: int| 0 <= k < i && all.take(i)[k] == all[i];
        assert(all[k] == all[i]);
    }
}

proof fn lemma_push_has(s: Seq<Seq<char>>, x: Seq<char>, t: Seq<char>)
    ensures
        s.push(x).contains(t) <==> (s.contains(t) || t == x),
{
    let longer = s.push(x);
    if s.contains(t) {
        let k = choose|k: int| 0 <= k < s.len() && s[k] == t;
        assert(longer[k] == t);
    }
    if t == x {
        assert(longer[s.len() as int] == t);
    }
    if longer.contains(t) && t != x {
        let k = choose|k: int| 0 <= k < longer.len() && longer[k] == t;
        assert(s[k] == t);
    }
}

proof fn lemma_push_distinct(s: Seq<Seq<char>>, x: Seq<char>)
    requires
        s.no_duplicates(),
        !s.contains(x),
    ensures
        s.push(x).no_duplicates(),
        forall|t: Seq<char>| #[trigger] s.push(x).contains(t) <==> (s.contains(t) || t == x),
{
    let longer = s.push(x);
    assert forall|i: int, j: int| 0 <= i < longer.len() && 0 <= j < longer.len() && i != j implies longer[i]
        != longer[j] by {
        if i < s.len() {
            assert(s.contains(s[i]));
        }
        if j < s.len() {
            assert(s.contains(s[j]));
        }
    }
    assert forall|t: Seq<char>| #[trigger] longer.contains(t) <==> (s.contains(t) || t == x) by {
        lemma_push_has(s, x, t);
    }
}

/// The names in the order of their keys, from large to small.
fn names_by_key(names: &Vec<String>, keys: &Vec<u64>) -> (r: Vec<String>)
    requires
        names@.len() == keys@.len(),
        views(names@).no_duplicates(),
    ensures
        views(r@).no_duplicates(),
        forall|s: Seq<char>| #[trigger] views(r@).contains(s) <==> views(names@).contains(s),
        forall|i: int, j: int, a: int, b: int|
            0 <= i <= j < r@.len() && 0 <= a < names@.len() && 0 <= b < names@.len() && #[trigger] r@[i]@
                == #[trigger] names@[a]@ && #[trigger] r@[j]@ == #[trigger] names@[b]@ ==> keys@[a] >= keys@[b],
{
    let mut items: Vec<Descending> = Vec::new();
    let mut k: usize = 0;
    while k < keys.len()
        invariant
            k <= keys@.len(),
            items@.len() == k,
            forall|i: int| 0 <= i < k ==> (#[trigger] items@[i]).0 == keys@[i],
        decreases keys@.len() - k,
    {
        items.push(Descending(keys[k]));
        k += 1;
    }
    let places = sort_places(&items);
    let ghost all = views(names@);
    let mut out: Vec<String> = Vec::new();
    let mut n: usize = 0;
    while n < places.len()
        invariant
            n <= places@.len(),
            sorted_places(items@, places@),
            items@.len() == names@.len(),
            out@.len() == n,
            forall|i: int| 0 <= i < n ==> (#[trigger] out@[i])@ == names@[places@[i] as int]@,
        decreases places@.len() - n,
    {
        out.push(names[places[n]].clone());
        n += 1;
    }
    proof {
        assert forall|i: int, j: int| 0 <= i < j < out@.len() implies views(out@)[i] != views(out@)[j] by {
            assert(comes_first(items@, places@[i], places@[j]));
            if places@[i] == places@[j] {
                Descending::lemma_total(&items@[places@[i] as int], &items@[places@[j] as int]);
            }
            assert(all[places@[i] as int] != all[places@[j] as int]);
            assert(out@[i]@ == names@[places@[i] as int]@ && out@[j]@ == names@[places@[j] as int]@);
        }
        assert forall|s: Seq<char>| #[trigger] views(out@).contains(s) <==> all.contains(s) by {
            if views(out@).contains(s) {
                let i = choose|i: int| 0 <= i < out@.len() && views(out@)[i] == s;
                assert(out@[i]@ == s);
                assert(all[places@[i] as int] == s);
            }
            if all.contains(s) {
                let a = choose|a: int| 0 <= a < all.len() && all[a] == s;
                assert(places@.contains(a as usize));
                let i = choose|i: int| 0 <= i < places@.len() && places@[i] == a as usize;
                assert(out@[i]@ == names@[a]@);
                assert(views(out@)[i] == s);
            }
        }
        assert forall|i: int, j: int, a: int, b: int|
            0 <= i <= j < out@.len() && 0 <= a < names@.len() && 0 <= b < names@.len() && #[trigger] out@[i]@
                == #[trigger] names@[a]@ && #[trigger] out@[j]@ == #[trigger] names@[b]@ implies keys@[a] >= keys@[b] by {
            let p = places@[i] as int;
            let q = places@[j] as int;
            assert(all[p] == all[a]);
            assert(all[q] == all[b]);
            assert(items@[p].0 == keys@[p] && items@[q].0 == keys@[q]);
            if i < j {
                assert(comes_first(items@, places@[i], places@[j]));
            }
        }
    }
    out
}

/// Whether `keys` are the counts of `names`, in the same order.
fn counts_of(names: &Vec<String>, counts: &TokenTable<usize>) -> (r: Vec<u64>)
    requires
        forall|i: int| 0 <= i < names@.len() ==> counts@.contains_key((#[trigger] names@[i])@),
    ensures
        r@.len() == names@.len(),
        forall|i: int| 0 <= i < names@.len() ==> #[trigger] r@[i] == counts@[names@[i]@],
{
    let mut out: Vec<u64> = Vec::new();
    let mut i: usize = 0;
    while i < names.len()
        invariant
            i <= names@.len(),
            forall|i: int| 0 <= i < names@.len() ==> counts@.contains_key((#[trigger] names@[i])@),
            out@.len() == i,
            forall|k: int| 0 <= k < i ==> #[trigger] out@[k] == counts@[names@[k]@],
        decreases names@.len() - i,
    {
        assert(counts@.contains_key(names@[i as int]@));
        let count: usize = match counts.get(names[i].as_str()) {
            Some(c) => c,
            None => 0,
        };
        out.push(count as u64);
        i += 1;
    }
    out
}

/// The first vocabulary for a text that is already marked.
fn seed_of_marked<G: Fn(u128, u128) -> u64>(
    marked: &str,
    max_sub_str_len: usize,
    seed_vocab_size: usize,
    share: &G,
) -> (r: TokenTable<u64>)
    requires
        pure2(*share),
        counted_singles(marked@, max_sub_str_len as nat).len() <= seed_vocab_size,
    ensures
        r.wf(),
        seeded(marked@, max_sub_str_len as nat, seed_vocab_size as nat, fn2(*share), r@),
{
    let ghost text = marked@;
    let ghost max = max_sub_str_len as nat;
    let chars = to_chars(marked);
    let counts = count_substrings(&chars, max_sub_str_len);
    let names = counts.names();
    let singles = names_by_length(names, true);
    let multis = names_by_length(names, false);
    proof {
        assert forall|s: Seq<char>| views(singles@).contains(s) <==> counted_singles(text, max).contains(s) by {
            assert(views(names@).contains(s) <==> counts@.contains_key(s));
        }
        assert forall|s: Seq<char>| views(multis@).contains(s) <==> counted_multis(text, max).contains(s) by {
            assert(views(names@).contains(s) <==> counts@.contains_key(s));
        }
        lemma_enumeration_len(views(singles@), counted_singles(text, max));
        assert forall|i: int| 0 <= i < multis@.len() implies counts@.contains_key((#[trigger] multis@[i])@) by {
            assert(views(multis@)[i] == multis@[i]@);
            assert(views(multis@).contains(multis@[i]@));
        }
    }
    let keys = counts_of(&multis, &counts);
    let ranked = names_by_key(&multis, &keys);
    proof {
        assert forall|i: int, j: int| 0 <= i <= j < views(ranked@).len() implies count_of(text, max, views(ranked@)[i])
            >= count_of(text, max, views(ranked@)[j]) by {
            let a = lemma_index_of(multis@, ranked@, i);
            let b = lemma_index_of(multis@, ranked@, j);
            assert(keys@[a] == counts@[multis@[a]@]);
            assert(keys@[b] == counts@[multis@[b]@]);
            assert(counts@.contains_key(multis@[a]@));
            assert(counts@.contains_key(multis@[b]@));
        }
    }
    let room: usize = seed_vocab_size - singles.len();
    let taken: usize = if room <= ranked.len() {
        room
    } else {
        ranked.len()
    };
    let mut kept: Vec<String> = singles;
    let ghost firsts = views(kept@);
    let mut i: usize = 0;
    assert(firsts =~= firsts + views(ranked@).take(0));
    while i < taken
        invariant
            i <= taken <= ranked@.len(),
            views(kept@) == firsts + views(ranked@).take(i as int),
        decreases taken - i,
    {
        let ghost before = views(kept@);
        kept.push(ranked[i].clone());
        assert(views(kept@) =~= before.push(views(ranked@)[i as int]));
        i += 1;
        assert(views(kept@) =~= firsts + views(ranked@).take(i as int));
    }
    let ghost all = views(kept@);
    assert forall|k: int| 0 <= k < kept@.len() implies counts@.contains_key((#[trigger] kept@[k])@) by {
        assert(all[k] == kept@[k]@);
        if k < firsts.len() {
            assert(firsts.contains(firsts[k]));
        } else {
            assert(views(ranked@)[k - firsts.len()] == kept@[k]@);
            assert(views(ranked@).contains(kept@[k]@));
        }
    }
    let mut total: u128 = 0;
    let mut k: usize = 0;
    assert(all.take(0) =~= Seq::<Seq<char>>::empty());
    while k < kept.len()
        invariant
            k <= kept@.len(),
            all == views(kept@),
            forall|t: Seq<char>| counts@.contains_key(t) ==> #[trigger] counts@[t] == count_of(text, max, t),
            forall|k: int| 0 <= k < kept@.len() ==> counts@.contains_key((#[trigger] kept@[k])@),
            total == sum_of_counts(text, max, all.take(k as int)),
            total <= k * 0xffff_ffff_ffff_ffff,
        decreases kept@.len() - k,
    {
        assert(all.take(k + 1).drop_last() =~= all.take(k as int));
        assert(all[k as int] == kept@[k as int]@);
        assert(counts@.contains_key(kept@[k as int]@));
        let count: usize = match counts.get(kept[k].as_str()) {
            Some(c) => c,
            None => 0,
        };
        assert(count <= 0xffff_ffff_ffff_ffff);
        assert((k + 1) * 0xffff_ffff_ffff_ffff == k * 0xffff_ffff_ffff_ffff + 0xffff_ffff_ffff_ffff);
        total = total + count as u128;
        k += 1;
    }
    assert(all.take(k as int) =~= all);
    let mut result: TokenTable<u64> = TokenTable::new();
    let mut n: usize = 0;
    while n < kept.len()
        invariant
            n <= kept@.len(),
            pure2(*share),
            all == views(kept@),
            result.wf(),
            forall|t: Seq<char>| counts@.contains_key(t) ==> #[trigger] counts@[t] == count_of(text, max, t),
            forall|k: int| 0 <= k < kept@.len() ==> counts@.contains_key((#[trigger] kept@[k])@),
            result@ == Map::new(
                |t: Seq<char>| all.take(n as int).contains(t),
                |t: Seq<char>| fn2(*share)(count_of(text, max, t) as u128, total),
            ),
        decreases kept@.len() - n,
    {
        let ghost before = result@;
        let ghost name = all[n as int];
        assert(name == kept@[n as int]@);
        assert(counts@.contains_key(kept@[n as int]@));
        let count: usize = match counts.get(kept[n].as_str()) {
            Some(c) => c,
            None => 0,
        };
        result.insert(kept[n].clone(), call2(share, count as u128, total));
        proof {
            assert(all.take(n + 1) =~= all.take(n as int).push(name));
            let goal = Map::new(
                |t: Seq<char>| all.take(n + 1).contains(t),
                |t: Seq<char>| fn2(*share)(count_of(text, max, t) as u128, total),
            );
            assert forall|t: Seq<char>| #[trigger]
                all.take(n + 1).contains(t) <==> (all.take(n as int).contains(t) || t == name) by {
                lemma_push_has(all.take(n as int), name, t);
            }
            assert(count as nat == count_of(text, max, name));
            assert(all.take(n + 1)[n as int] == name);
            assert(all.take(n + 1).contains(name));
            assert(goal.contains_key(name));
            assert(goal[name] == fn2(*share)(count_of(text, max, name) as u128, total));
            assert(result@[name] == goal[name]);
            assert forall|t: Seq<char>| #[trigger] goal.contains_key(t) implies result@.contains_key(t) && result@[t]
                == goal[t] by {
                if t != name {
                    assert(all.take(n + 1).contains(t));
                    assert(before.contains_key(t));
                }
            }
            assert forall|t: Seq<char>| #[trigger] result@.contains_key(t) implies goal.contains_key(t) by {
                if t != name {
                    assert(before.contains_key(t));
                    assert(all.take(n as int).contains(t));
                    assert(all.take(n + 1).contains(t));
                }
            }
            assert(result@ =~= goal);
        }
        n += 1;
    }
    assert(all.take(n as int) =~= all);
    result.insert("<unk>".to_owned(), UNKNOWN_SCORE);
    assert(seeded_with(
        text,
        max,
        seed_vocab_size as nat,
        fn2(*share),
        result@,
        firsts,
        views(ranked@),
    ));
    result
}

/// Where in `names` the `i`th entry of a rearranged list stands.
proof fn lemma_index_of(names: Seq<String>, ranked: Seq<String>, i: int) -> (a: int)
    requires
        0 <= i < ranked.len(),
        forall|s: Seq<char>| #[trigger] views(ranked).contains(s) <==> views(names).contains(s),
    ensures
        0 <= a < names.len(),
        names[a]@ == ranked[i]@,
{
    assert(views(ranked)[i] == ranked[i]@);
    assert(views(ranked).contains(ranked[i]@));
    let a = choose|a: int| 0 <= a < views(names).len() && views(names)[a] == ranked[i]@;
    a
}

/// Whether `table` holds twice the number of times each token stands in `pieces`, and no entry for
/// what does not stand there.
spec fn tells_uses(table: Map<Seq<char>, u128>, pieces: Seq<Seq<char>>) -> bool {
    &&& forall|t: Seq<char>| #[trigger] table.contains_key(t) <==> occurrences(pieces, t) > 0
    &&& forall|t: Seq<char>| table.contains_key(t) ==> #[trigger] table[t] == 2 * occurrences(pieces, t)
}

proof fn lemma_occurrences_bound(pieces: Seq<Seq<char>>, t: Seq<char>)
    ensures
        occurrences(pieces, t) <= pieces.len(),
    decreases pieces.len(),
{
    if pieces.len() > 0 {
        lemma_occurrences_bound(pieces.drop_last(), t);
    }
}

proof fn lemma_pieces_bound(scores: Scores, sum: spec_fn(u64, u64) -> u64, sentences: Seq<Seq<char>>, n: nat)
    requires
        n <= sentences.len(),
    ensures
        pieces_of(scores, sum, sentences, n).len() <= flatten(sentences.take(n as int)).len() <= flatten(sentences).len(),
    decreases n,
{
    if n > 0 {
        lemma_pieces_bound(scores, sum, sentences, (n - 1) as nat);
        lemma_segments_bound(scores, sum, sentences[n - 1]);
        assert(sentences.take(n as int).drop_last() =~= sentences.take(n - 1));
    }
    lemma_prefix_shorter(sentences, n as int);
}

proof fn lemma_prefix_shorter(list: Seq<Seq<char>>, n: int)
    requires
        0 <= n <= list.len(),
    ensures
        flatten(list.take(n)).len() <= flatten(list).len(),
    decreases list.len() - n,
{
    if n == list.len() {
        assert(list.take(n) =~= list);
    } else {
        assert(list.take(n + 1).drop_last() =~= list.take(n));
        lemma_prefix_shorter(list, n + 1);
    }
}

/// Cuts the sentences into pieces and counts each piece twice per use; also the number of pieces.
fn count_pieces<F: Fn(u64, u64) -> u64>(vocab: &TokenTable<u64>, sentences: &Vec<String>, add: &F) -> (r: (
    TokenTable<u128>,
    u128,
))
    requires
        pure2(*add),
        flatten(views(sentences@)).len() <= usize::MAX,
    ensures
        r.0.wf(),
        tells_uses(
            r.0@,
            pieces_of(vocab@, fn2(*add), views(sentences@), sentences@.len()),
        ),
        r.1 == pieces_of(vocab@, fn2(*add), views(sentences@), sentences@.len()).len(),
{
    let ghost list = views(sentences@);
    let ghost sum = fn2(*add);
    let mut table: TokenTable<u128> = TokenTable::new();
    let mut used: u128 = 0;
    let ghost mut done: Seq<Seq<char>> = Seq::empty();
    let mut i: usize = 0;
    while i < sentences.len()
        invariant
            i <= sentences@.len(),
            pure2(*add),
            sum == fn2(*add),
            list == views(sentences@),
            flatten(list).len() <= usize::MAX,
            table.wf(),
            done == pieces_of(vocab@, sum, list, i as nat),
            tells_uses(table@, done),
            used == done.len(),
        decreases sentences@.len() - i,
    {
        assert(list[i as int] == sentences@[i as int]@);
        let tokens = viterbi(vocab, sentences[i].as_str(), add);
        let ghost cut = segmented(vocab@, sum, list[i as int]);
        let ghost before = done;
        proof {
            lemma_pieces_bound(vocab@, sum, list, (i + 1) as nat);
        }
        assert(before =~= before + cut.take(0));
        let mut j: usize = 0;
        while j < tokens.len()
            invariant
                j <= tokens@.len(),
                views(tokens@) == cut,
                (before + cut).len() <= usize::MAX,
                table.wf(),
                done == before + cut.take(j as int),
                tells_uses(table@, done),
                used == done.len(),
            decreases tokens@.len() - j,
        {
            let ghost token = cut[j as int];
            assert(token == tokens@[j as int]@);
            let old_count: u128 = match table.get(tokens[j].as_str()) {
                Some(c) => c,
                None => 0,
            };
            proof {
                lemma_occurrences_bound(done, token);
                assert(old_count == 2 * occurrences(done, token));
            }
            let ghost old_table = table@;
            table.insert(tokens[j].clone(), old_count + 2);
            used += 1;
            proof {
                let next = done.push(token);
                assert(next.drop_last() =~= done);
                assert forall|t: Seq<char>| #[trigger] table@.contains_key(t) <==> occurrences(next, t) > 0 by {
                    assert(old_table.contains_key(t) <==> occurrences(done, t) > 0);
                }
                assert forall|t: Seq<char>| table@.contains_key(t) implies #[trigger] table@[t] == 2 * occurrences(
                    next,
                    t,
                ) by {
                    if t != token {
                        assert(old_table.contains_key(t));
                        assert(old_table[t] == 2 * occurrences(done, t));
                    }
                }
                assert(next =~= before + cut.take(j + 1));
                done = next;
            }
            j += 1;
        }
        assert(cut.take(j as int) =~= cut);
        i += 1;
    }
    (table, used)
}

/// Gives each token the share of its uses in the segmentation of the sentences. Single characters
/// and the unknown token stay with half a use.
pub fn em_step<F: Fn(u64, u64) -> u64, G: Fn(u128, u128) -> u64>(
    vocab: &TokenTable<u64>,
    sentences: &Vec<String>,
    add: &F,
    share: &G,
) -> (r: TokenTable<u64>)
    requires
        vocab.wf(),
        pure2(*add),
        pure2(*share),
        flatten(views(sentences@)).len() <= usize::MAX,
    ensures
        r.wf(),
        r@ == reestimated(vocab@, fn2(*add), fn2(*share), views(sentences@)),
        exists|part: spec_fn(Seq<char>) -> nat, whole: nat| #[trigger]
            shares_uses(
                vocab@,
                cut_up(vocab@, fn2(*add), views(sentences@)),
                fn2(*share),
                r@,
                part,
                whole,
            ),
{
    let ghost scores = vocab@;
    let ghost pieces = pieces_of(vocab@, fn2(*add), views(sentences@), sentences@.len());
    let (table, used) = count_pieces(vocab, sentences, add);
    proof {
        lemma_pieces_bound(vocab@, fn2(*add), views(sentences@), sentences@.len());
    }
    let mut table: TokenTable<u128> = table;
    let names = vocab.names();
    let ghost keys = views(names@);
    let ghost unused = unused_kept(scores, pieces);
    let ghost mut added: Seq<Seq<char>> = Seq::empty();
    let mut total: u128 = 2 * used;
    let mut i: usize = 0;
    while i < names.len()
        invariant
            i <= names@.len(),
            keys == views(names@),
            keys.no_duplicates(),
            forall|t: Seq<char>| keys.contains(t) <==> scores.contains_key(t),
            unused == unused_kept(scores, pieces),
            table.wf(),
            pieces.len() <= usize::MAX,
            added.no_duplicates(),
            added.len() <= i,
            forall|t: Seq<char>| #[trigger] added.contains(t) <==> keys.take(i as int).contains(t) && unused.contains(t),
            total == 2 * pieces.len() + added.len(),
            forall|t: Seq<char>| #[trigger]
                table@.contains_key(t) <==> occurrences(pieces, t) > 0 || added.contains(t),
            forall|t: Seq<char>|
                table@.contains_key(t) ==> #[trigger] table@[t] == (if added.contains(t) {
                    1
                } else {
                    2 * occurrences(pieces, t)
                }),
        decreases names@.len() - i,
    {
        let ghost name = keys[i as int];
        assert(name == names@[i as int]@);
        assert(keys.contains(name));
        proof {
            lemma_take_contains(keys, i as int);
        }
        let ghost before = table@;
        if (names[i].as_str().unicode_len() == 1 || same_text(names[i].as_str(), "<unk>")) && !table.contains(
            names[i].as_str(),
        ) {
            assert(unused.contains(name));
            assert(!added.contains(name));
            table.insert(names[i].clone(), 1);
            proof {
                let next = added.push(name);
                lemma_push_distinct(added, name);
                assert forall|t: Seq<char>| #[trigger] table@.contains_key(t) <==> occurrences(pieces, t) > 0
                    || next.contains(t) by {
                    assert(before.contains_key(t) <==> occurrences(pieces, t) > 0 || added.contains(t));
                }
                assert forall|t: Seq<char>| table@.contains_key(t) implies #[trigger] table@[t] == (if next.contains(t) {
                    1
                } else {
                    2 * occurrences(pieces, t)
                }) by {
                    if t != name {
                        assert(before.contains_key(t));
                        assert(next.contains(t) <==> added.contains(t));
                    } else {
                        assert(next.contains(t));
                    }
                }
                added = next;
            }
            total += 1;
        } else {
            assert(!unused.contains(name)) by {
                if unused.contains(name) {
                    assert(table@.contains_key(name));
                    assert(added.contains(name));
                }
            }
        }
        i += 1;
    }
    assert(keys.take(i as int) =~= keys);
    proof {
        assert forall|t: Seq<char>| #[trigger] added.contains(t) <==> unused.contains(t) by {
            if unused.contains(t) {
                assert(scores.contains_key(t));
            }
        }
        lemma_enumeration_len(added, unused);
        assert(total == total_halves(scores, pieces));
    }
    let ghost goal = reestimated(vocab@, fn2(*add), fn2(*share), views(sentences@));
    let counted = table.names();
    let ghost all = views(counted@);
    let mut result: TokenTable<u64> = TokenTable::new();
    let mut k: usize = 0;
    while k < counted.len()
        invariant
            k <= counted@.len(),
            pure2(*share),
            all == views(counted@),
            all.no_duplicates(),
            forall|t: Seq<char>| all.contains(t) <==> table@.contains_key(t),
            result.wf(),
            forall|t: Seq<char>| #[trigger] result@.contains_key(t) <==> all.take(k as int).contains(t),
            forall|t: Seq<char>|
                result@.contains_key(t) ==> #[trigger] result@[t] == fn2(*share)(table@[t], total),
        decreases counted@.len() - k,
    {
        let ghost name = all[k as int];
        let ghost before = result@;
        assert(name == counted@[k as int]@);
        assert(all.contains(name));
        let count: u128 = match table.get(counted[k].as_str()) {
            Some(c) => c,
            None => 0,
        };
        result.insert(counted[k].clone(), call2(share, count, total));
        proof {
            lemma_take_contains(all, k as int);
            assert forall|t: Seq<char>| #[trigger] result@.contains_key(t) <==> all.take(k + 1).contains(t) by {
                assert(before.contains_key(t) <==> all.take(k as int).contains(t));
            }
            assert forall|t: Seq<char>| result@.contains_key(t) implies #[trigger] result@[t] == fn2(*share)(
                table@[t],
                total,
            ) by {
                if t != name {
                    assert(before.contains_key(t));
                }
            }
        }
        k += 1;
    }
    assert(all.take(k as int) =~= all);
    proof {
        assert forall|t: Seq<char>| #[trigger] result@.contains_key(t) <==> goal.contains_key(t) by {
            assert(all.contains(t) <==> table@.contains_key(t));
            assert(table@.contains_key(t) <==> occurrences(pieces, t) > 0 || added.contains(t));
            assert(added.contains(t) <==> unused.contains(t));
            assert(goal.contains_key(t) <==> halves(scores, pieces, t) > 0);
        }
        assert forall|t: Seq<char>| result@.contains_key(t) implies #[trigger] result@[t] == goal[t] by {
            assert(all.contains(t));
            assert(table@.contains_key(t));
            assert(added.contains(t) <==> unused.contains(t));
            assert(table@[t] == halves(scores, pieces, t));
            assert(goal.contains_key(t));
        }
        assert(result@ =~= goal);
        let (part, whole) = law_scores_share_uses(scores, fn2(*add), fn2(*share), views(sentences@));
        assert(shares_uses(scores, cut_up(scores, fn2(*add), views(sentences@)), fn2(*share), result@, part, whole));
    }
    result
}

/// Whether the scores of the tokens of several characters can be compared.
pub open spec fn comparable(scores: Scores) -> bool {
    forall|t: Seq<char>, u: Seq<char>|
        multi_tokens(scores).contains(t) && multi_tokens(scores).contains(u) && t != u ==> !double_is_nan(
            #[trigger] scores[t],
        ) && !double_is_nan(#[trigger] scores[u])
}

/// The keys by which the scores of the names are ordered.
fn score_keys(names: &Vec<String>, vocab: &TokenTable<u64>) -> (r: Vec<u64>)
    requires
        forall|i: int| 0 <= i < names@.len() ==> vocab@.contains_key((#[trigger] names@[i])@),
    ensures
        r@.len() == names@.len(),
        forall|i: int|
            0 <= i < names@.len() ==> #[trigger] r@[i] == double_rank(vocab@[names@[i]@]) + 0x8000_0000_0000_0000,
{
    let mut out: Vec<u64> = Vec::new();
    let mut i: usize = 0;
    while i < names.len()
        invariant
            i <= names@.len(),
            forall|i: int| 0 <= i < names@.len() ==> vocab@.contains_key((#[trigger] names@[i])@),
            out@.len() == i,
            forall|k: int|
                0 <= k < i ==> #[trigger] out@[k] == double_rank(vocab@[names@[k]@]) + 0x8000_0000_0000_0000,
        decreases names@.len() - i,
    {
        assert(vocab@.contains_key(names@[i as int]@));
        let score: u64 = match vocab.get(names[i].as_str()) {
            Some(score) => score,
            None => 0,
        };
        out.push(double_key(score));
        i += 1;
    }
    out
}

/// Adds the first `n` names to `result`, with the scores that they have in `vocab`.
fn keep_names(result: &mut TokenTable<u64>, vocab: &TokenTable<u64>, names: &Vec<String>, n: usize)
    requires
        old(result).wf(),
        n <= names@.len(),
        forall|i: int| 0 <= i < n ==> vocab@.contains_key((#[trigger] names@[i])@),
    ensures
        final(result).wf(),
        forall|t: Seq<char>| #[trigger]
            final(result)@.contains_key(t) <==> old(result)@.contains_key(t) || views(names@).take(n as int).contains(t),
        forall|t: Seq<char>|
            views(names@).take(n as int).contains(t) ==> #[trigger] final(result)@[t] == vocab@[t],
        forall|t: Seq<char>|
            old(result)@.contains_key(t) && old(result)@[t] == vocab@[t] ==> #[trigger] final(result)@[t] == vocab@[t],
{
    let ghost all = views(names@);
    let mut i: usize = 0;
    while i < n
        invariant
            i <= n <= names@.len(),
            all == views(names@),
            result.wf(),
            forall|i: int| 0 <= i < n ==> vocab@.contains_key((#[trigger] names@[i])@),
            forall|t: Seq<char>| #[trigger]
                result@.contains_key(t) <==> old(result)@.contains_key(t) || all.take(i as int).contains(t),
            forall|t: Seq<char>| all.take(i as int).contains(t) ==> #[trigger] result@[t] == vocab@[t],
            forall|t: Seq<char>|
                old(result)@.contains_key(t) && old(result)@[t] == vocab@[t] ==> #[trigger] result@[t] == vocab@[t],
        decreases n - i,
    {
        let ghost name = all[i as int];
        let ghost before = result@;
        assert(name == names@[i as int]@);
        assert(vocab@.contains_key(names@[i as int]@));
        let score: u64 = match vocab.get(names[i].as_str()) {
            Some(score) => score,
            None => 0,
        };
        result.insert(names[i].clone(), score);
        proof {
            assert(all.take(i + 1) =~= all.take(i as int).push(name));
            assert forall|t: Seq<char>| #[trigger] all.take(i + 1).contains(t) <==> all.take(i as int).contains(t) || t
                == name by {
                lemma_push_has(all.take(i as int), name, t);
            }
            assert forall|t: Seq<char>| #[trigger] result@.contains_key(t) <==> old(result)@.contains_key(t) || all.take(
                i + 1,
            ).contains(t) by {
                assert(all.take(i + 1).contains(t) <==> all.take(i as int).contains(t) || t == name);
                assert(before.contains_key(t) <==> old(result)@.contains_key(t) || all.take(i as int).contains(t));
            }
            assert forall|t: Seq<char>| all.take(i + 1).contains(t) implies #[trigger] result@[t] == vocab@[t] by {
                assert(all.take(i + 1).contains(t) <==> all.take(i as int).contains(t) || t == name);
                if t != name {
                    assert(before[t] == vocab@[t]);
                }
            }
            assert forall|t: Seq<char>| old(result)@.contains_key(t) && old(result)@[t] == vocab@[t] implies #[trigger]
                result@[t] == vocab@[t] by {
                if t != name {
                    assert(before[t] == vocab@[t]);
                }
            }
        }
        i += 1;
    }
}

/// Cuts the vocabulary down to `target_size` tokens: single characters and the unknown token stay,
/// and so do the highest scores of the others while there is room.
pub fn prune(vocab: &TokenTable<u64>, target_size: usize) -> (r: TokenTable<u64>)
    requires
        vocab.wf(),
        comparable(vocab@),
    ensures
        r.wf(),
        pruned(vocab@, target_size as nat, r@),
{
    let ghost scores = vocab@;
    let ghost base = unpruned(scores);
    let names = vocab.names();
    let singles = names_by_length(names, true);
    let multis = names_by_length(names, false);
    proof {
        assert forall|i: int| 0 <= i < multis@.len() implies vocab@.contains_key((#[trigger] multis@[i])@) by {
            assert(views(multis@)[i] == multis@[i]@);
            assert(views(multis@).contains(multis@[i]@));
        }
        assert forall|s: Seq<char>| views(multis@).contains(s) <==> multi_tokens(scores).contains(s) by {
            assert(views(names@).contains(s) <==> scores.contains_key(s));
        }
    }
    let keys = score_keys(&multis, vocab);
    let ranked = names_by_key(&multis, &keys);
    proof {
        assert forall|i: int, j: int| 0 <= i <= j < views(ranked@).len() implies double_rank(scores[views(ranked@)[i]])
            >= double_rank(scores[views(ranked@)[j]]) by {
            let a = lemma_index_of(multis@, ranked@, i);
            let b = lemma_index_of(multis@, ranked@, j);
            assert(keys@[a] >= keys@[b]);
        }
    }
    let mut always: Vec<String> = singles;
    let ghost firsts = views(always@);
    proof {
        reveal_strlit("<unk>");
    }
    if vocab.contains("<unk>") {
        always.push("<unk>".to_owned());
        assert(views(always@) =~= firsts.push("<unk>"@));
        proof {
            assert("<unk>"@.len() == 5);
            assert(!firsts.contains("<unk>"@));
            lemma_push_distinct(firsts, "<unk>"@);
        }
    }
    proof {
        assert forall|s: Seq<char>| views(always@).contains(s) <==> base.contains(s) by {
            assert(views(names@).contains(s) <==> scores.contains_key(s));
        }
        lemma_enumeration_len(views(always@), base);
        assert forall|i: int| 0 <= i < always@.len() implies vocab@.contains_key((#[trigger] always@[i])@) by {
            assert(views(always@)[i] == always@[i]@);
            assert(views(always@).contains(always@[i]@));
            assert(base.contains(always@[i]@));
        }
        assert forall|i: int| 0 <= i < ranked@.len() implies vocab@.contains_key((#[trigger] ranked@[i])@) by {
            let a = lemma_index_of(multis@, ranked@, i);
            assert(vocab@.contains_key(multis@[a]@));
        }
    }
    let room: usize = if target_size > always.len() {
        target_size - always.len()
    } else {
        0
    };
    let taken: usize = if room <= ranked.len() {
        room
    } else {
        ranked.len()
    };
    let mut result: TokenTable<u64> = TokenTable::new();
    let count: usize = always.len();
    keep_names(&mut result, vocab, &always, count);
    assert(views(always@).take(count as int) =~= views(always@));
    keep_names(&mut result, vocab, &ranked, taken);
    proof {
        let list = views(ranked@);
        let front = list.take(taken as int);
        let goal = Map::new(|t: Seq<char>| base.contains(t) || front.contains(t), |t: Seq<char>| scores[t]);
        assert forall|t: Seq<char>| #[trigger] goal.contains_key(t) <==> result@.contains_key(t) by {
            assert(views(always@).contains(t) <==> base.contains(t));
        }
        assert forall|t: Seq<char>| #[trigger] goal.contains_key(t) implies goal[t] == result@[t] by {
            assert(result@[t] == scores[t]) by {
                assert(views(always@).contains(t) <==> base.contains(t));
            }
        }
        assert(result@ =~= goal);
        assert(pruned_with(scores, target_size as nat, result@, list));
    }
    result
}

/// The tokens in alphabetical order.
fn alphabetical_names(vocab: &TokenTable<u64>) -> (r: Vec<String>)
    requires
        vocab.wf(),
    ensures
        alphabetical(views(r@), vocab@),
{
    let names = vocab.names();
    let ghost all = views(names@);
    let places = sort_places(names);
    let mut out: Vec<String> = Vec::new();
    let mut n: usize = 0;
    while n < places.len()
        invariant
            n <= places@.len(),
            sorted_places(names@, places@),
            out@.len() == n,
            forall|i: int| 0 <= i < n ==> (#[trigger] out@[i])@ == names@[places@[i] as int]@,
        decreases places@.len() - n,
    {
        out.push(names[places[n]].clone());
        n += 1;
    }
    proof {
        let list = views(out@);
        assert forall|i: int, j: int| 0 <= i < j < list.len() implies list[i] != list[j] && text_le(list[i], list[j]) by {
            assert(comes_first(names@, places@[i], places@[j]));
            assert(out@[i]@ == names@[places@[i] as int]@ && out@[j]@ == names@[places@[j] as int]@);
            if places@[i] == places@[j] {
                String::lemma_total(&names@[places@[i] as int], &names@[places@[j] as int]);
            }
            assert(all[places@[i] as int] != all[places@[j] as int]);
        }
        assert forall|i: int, j: int| 0 <= i <= j < list.len() implies text_le(list[i], list[j]) by {
            if i == j {
                String::lemma_total(&out@[i], &out@[i]);
            }
        }
        assert forall|s: Seq<char>| list.contains(s) <==> vocab@.dom().contains(s) by {
            if list.contains(s) {
                let i = choose|i: int| 0 <= i < list.len() && list[i] == s;
                assert(out@[i]@ == s);
                assert(all[places@[i] as int] == s);
                assert(all.contains(s));
            }
            if vocab@.dom().contains(s) {
                assert(all.contains(s));
                let a = choose|a: int| 0 <= a < all.len() && all[a] == s;
                assert(places@.contains(a as usize));
                let i = choose|i: int| 0 <= i < places@.len() && places@[i] == a as usize;
                assert(out@[i]@ == names@[a]@);
                assert(list[i] == s);
            }
        }
    }
    out
}

/// The place of each token in `list`; of several places the last one counts.
pub fn index_tokens(list: &Vec<String>) -> (r: StringHashMap<usize>)
    ensures
        r@ == places_of(views(list@)),
{
    let ghost all = views(list@);
    let mut out: StringHashMap<usize> = StringHashMap::new();
    let mut i: usize = 0;
    assert(all.take(0) =~= Seq::<Seq<char>>::empty());
    while i < list.len()
        invariant
            i <= list@.len(),
            all == views(list@),
            out@ == places_of(all.take(i as int)),
        decreases list@.len() - i,
    {
        assert(all.take(i + 1).drop_last() =~= all.take(i as int));
        assert(all[i as int] == list@[i as int]@);
        out.insert(list[i].clone(), i);
        i += 1;
    }
    assert(all.take(i as int) =~= all);
    out
}

/// Whether the share of a positive part has a score that is a number.
pub open spec fn shares_are_numbers(share: spec_fn(u128, u128) -> u64) -> bool {
    forall|part: u128, whole: u128| 0 < part <= whole ==> !double_is_nan(#[trigger] share(part, whole))
}

/// Whether all scores that are shares of positive parts, and the score of the unknown token, are as
/// `ok` says.
pub open spec fn gives_scores(share: spec_fn(u128, u128) -> u64, ok: spec_fn(u64) -> bool) -> bool {
    &&& ok(UNKNOWN_SCORE)
    &&& forall|part: u128, whole: u128| 0 < part <= whole ==> ok(#[trigger] share(part, whole))
}

/// What holds of every vocabulary that training comes across.
spec fn in_training(scores: Scores, always: Set<Seq<char>>, ok: spec_fn(u64) -> bool) -> bool {
    &&& scores.dom().finite()
    &&& scores.contains_key("<unk>"@)
    &&& unpruned(scores) == always
    &&& forall|t: Seq<char>| scores.contains_key(t) ==> ok(#[trigger] scores[t])
}

proof fn lemma_count_in_sum(text: Seq<char>, max: nat, list: Seq<Seq<char>>, i: int)
    requires
        0 <= i < list.len(),
    ensures
        count_of(text, max, list[i]) <= sum_of_counts(text, max, list),
    decreases list.len(),
{
    if i < list.len() - 1 {
        lemma_count_in_sum(text, max, list.drop_last(), i);
    }
}

proof fn lemma_sum_bound(text: Seq<char>, max: nat, list: Seq<Seq<char>>)
    ensures
        sum_of_counts(text, max, list) <= list.len() * text.len(),
    decreases list.len(),
{
    if list.len() > 0 {
        lemma_sum_bound(text, max, list.drop_last());
        lemma_count_bound(text, max, list.last(), text.len());
        assert((list.len() - 1) * text.len() + text.len() == list.len() * text.len()) by (nonlinear_arith)
            requires
                list.len() > 0,
        ;
    }
}

/// The set of the first vocabulary's unprunable tokens.
spec fn always_kept(text: Seq<char>, max: nat) -> Set<Seq<char>> {
    counted_singles(text, max).insert("<unk>"@)
}

proof fn lemma_seeded(
    text: Seq<char>,
    max: nat,
    size: nat,
    share: spec_fn(u128, u128) -> u64,
    result: Scores,
    ok: spec_fn(u64) -> bool,
)
    requires
        seeded(text, max, size, share, result),
        gives_scores(share, ok),
        text.len() <= usize::MAX,
        counted_singles(text, max).len() <= size <= usize::MAX,
    ensures
        in_training(result, always_kept(text, max), ok),
        always_kept(text, max).len() == counted_singles(text, max).len() + 1,
{
    let (singles, ranked): (Seq<Seq<char>>, Seq<Seq<char>>) = choose|singles: Seq<Seq<char>>, ranked: Seq<Seq<char>>|
        seeded_with(text, max, size, share, result, singles, ranked);
    let room = at_most((size - singles.len()) as nat, ranked.len());
    let front = ranked.take(room as int);
    let kept = singles + front;
    let total = sum_of_counts(text, max, kept);
    lemma_enumeration_len(singles, counted_singles(text, max));
    reveal_strlit("<unk>");
    assert("<unk>"@.len() == 5);
    assert(!counted_singles(text, max).contains("<unk>"@));
    assert(kept.len() <= size);
    assert forall|t: Seq<char>| #[trigger] kept.contains(t) <==> singles.contains(t) || front.contains(t) by {
        lemma_concat_has(singles, front, t);
    }
    lemma_sum_bound(text, max, kept);
    assert(total <= usize::MAX * usize::MAX) by (nonlinear_arith)
        requires
            total <= kept.len() * text.len(),
            kept.len() <= usize::MAX,
            text.len() <= usize::MAX,
    ;
    assert(usize::MAX * usize::MAX <= u128::MAX) by (nonlinear_arith)
        requires
            usize::MAX <= 0xffff_ffff_ffff_ffff,
    ;
    assert forall|t: Seq<char>| result.contains_key(t) implies ok(#[trigger] result[t]) by {
        if t != "<unk>"@ {
            assert(kept.contains(t));
            let i = choose|i: int| 0 <= i < kept.len() && kept[i] == t;
            lemma_count_in_sum(text, max, kept, i);
            lemma_count_bound(text, max, t, text.len());
            lemma_kept_counted(text, max, singles, ranked, front, t);
            assert(0 < count_of(text, max, t) as u128 <= total as u128);
        }
    }
    assert(unpruned(result) =~= always_kept(text, max)) by {
        assert forall|t: Seq<char>| unpruned(result).contains(t) <==> always_kept(text, max).contains(t) by {
            if t != "<unk>"@ {
                if unpruned(result).contains(t) {
                    assert(kept.contains(t));
                    if front.contains(t) {
                        lemma_take_member(ranked, room as int, t);
                    }
                }
                if counted_singles(text, max).contains(t) {
                    assert(singles.contains(t));
                    assert(kept.contains(t));
                }
            }
        }
    }
    assert(result.dom().finite()) by {
        let all = kept.push("<unk>"@);
        all.lemma_cardinality_of_set();
        assert forall|t: Seq<char>| result.dom().contains(t) implies all.to_set().contains(t) by {
            lemma_push_has(kept, "<unk>"@, t);
        }
        assert(result.dom().subset_of(all.to_set()));
        vstd::set_lib::lemma_set_subset_finite(all.to_set(), result.dom());
    }
}

proof fn lemma_concat_has(a: Seq<Seq<char>>, b: Seq<Seq<char>>, t: Seq<char>)
    ensures
        (a + b).contains(t) <==> a.contains(t) || b.contains(t),
{
    let both = a + b;
    if a.contains(t) {
        let k = choose|k: int| 0 <= k < a.len() && a[k] == t;
        assert(both[k] == t);
    }
    if b.contains(t) {
        let k = choose|k: int| 0 <= k < b.len() && b[k] == t;
        assert(both[a.len() + k] == t);
    }
    if both.contains(t) {
        let k = choose|k: int| 0 <= k < both.len() && both[k] == t;
        if k < a.len() {
            assert(a[k] == t);
        } else {
            assert(b[k - a.len()] == t);
        }
    }
}

proof fn lemma_take_member(list: Seq<Seq<char>>, n: int, t: Seq<char>)
    requires
        0 <= n <= list.len(),
        list.take(n).contains(t),
    ensures
        list.contains(t),
{
    let k = choose|k: int| 0 <= k < n && list.take(n)[k] == t;
    assert(list[k] == t);
}

proof fn lemma_kept_counted(
    text: Seq<char>,
    max: nat,
    singles: Seq<Seq<char>>,
    ranked: Seq<Seq<char>>,
    front: Seq<Seq<char>>,
    t: Seq<char>,
)
    requires
        enumerates(singles, counted_singles(text, max)),
        enumerates(ranked, counted_multis(text, max)),
        exists|n: int| 0 <= n <= ranked.len() && front == #[trigger] ranked.take(n),
        (singles + front).contains(t),
    ensures
        count_of(text, max, t) > 0,
{
    lemma_concat_has(singles, front, t);
    if singles.contains(t) {
        assert(counted_singles(text, max).contains(t));
    } else {
        let n = choose|n: int| 0 <= n <= ranked.len() && front == #[trigger] ranked.take(n);
        lemma_take_member(ranked, n, t);
        assert(counted_multis(text, max).contains(t));
    }
}

/// What occurs in a list stands in it.
proof fn lemma_occurs_stands(list: Seq<Seq<char>>, t: Seq<char>) -> (i: int)
    requires
        occurrences(list, t) > 0,
    ensures
        0 <= i < list.len(),
        list[i] == t,
    decreases list.len(),
{
    if list.last() == t {
        list.len() - 1
    } else {
        let i = lemma_occurs_stands(list.drop_last(), t);
        i
    }
}

proof fn lemma_pieces_known(scores: Scores, sum: spec_fn(u64, u64) -> u64, sentences: Seq<Seq<char>>, n: nat, i: int)
    requires
        absorbing(sum),
        n <= sentences.len(),
        0 <= i < pieces_of(scores, sum, sentences, n).len(),
    ensures
        scores.contains_key(pieces_of(scores, sum, sentences, n)[i]) || pieces_of(scores, sum, sentences, n)[i]
            == "<unk>"@,
    decreases n,
{
    if n > 0 {
        let head = pieces_of(scores, sum, sentences, (n - 1) as nat);
        if i < head.len() {
            lemma_pieces_known(scores, sum, sentences, (n - 1) as nat, i);
        } else {
            law_segments_are_tokens(scores, sum, sentences[n - 1], i - head.len());
        }
    }
}

/// Scoring anew brings no new tokens and keeps the unprunable ones.
proof fn lemma_reestimated(
    scores: Scores,
    sum: spec_fn(u64, u64) -> u64,
    share: spec_fn(u128, u128) -> u64,
    sentences: Seq<Seq<char>>,
    always: Set<Seq<char>>,
    ok: spec_fn(u64) -> bool,
)
    requires
        in_training(scores, always, ok),
        absorbing(sum),
        gives_scores(share, ok),
        flatten(sentences).len() <= usize::MAX,
        always.finite(),
        always.len() <= usize::MAX,
    ensures
        in_training(reestimated(scores, sum, share, sentences), always, ok),
        reestimated(scores, sum, share, sentences).dom().subset_of(scores.dom()),
        reestimated(scores, sum, share, sentences).len() <= scores.len(),
{
    let pieces = pieces_of(scores, sum, sentences, sentences.len());
    let after = reestimated(scores, sum, share, sentences);
    lemma_pieces_bound(scores, sum, sentences, sentences.len());
    assert forall|t: Seq<char>| after.dom().contains(t) implies scores.dom().contains(t) by {
        assert(halves(scores, pieces, t) > 0);
        if occurrences(pieces, t) > 0 {
            let i = lemma_occurs_stands(pieces, t);
            lemma_pieces_known(scores, sum, sentences, sentences.len(), i);
        }
    }
    vstd::set_lib::lemma_set_subset_finite(scores.dom(), after.dom());
    vstd::set_lib::lemma_len_subset(after.dom(), scores.dom());
    assert forall|t: Seq<char>| scores.contains_key(t) && is_kept_always(t) implies after.contains_key(t) by {
        assert(halves(scores, pieces, t) > 0);
    }
    assert(unpruned(after) =~= always);
    let unused = unused_kept(scores, pieces);
    assert(unused.subset_of(always));
    vstd::set_lib::lemma_set_subset_finite(always, unused);
    vstd::set_lib::lemma_len_subset(unused, always);
    assert forall|t: Seq<char>| after.contains_key(t) implies ok(#[trigger] after[t]) by {
        lemma_occurrences_bound(pieces, t);
        assert(halves(scores, pieces, t) > 0);
        if unused.contains(t) {
            assert(unused.len() > 0) by {
                if unused.len() == 0 {
                    assert(unused =~= Set::empty());
                }
            }
        }
        assert(halves(scores, pieces, t) <= total_halves(scores, pieces));
        assert(0 < halves(scores, pieces, t) as u128 <= total_halves(scores, pieces) as u128);
    }
}

/// Pruning brings no new tokens, keeps the unprunable ones, and reaches its target.
proof fn lemma_pruned(scores: Scores, target: nat, result: Scores, always: Set<Seq<char>>, ok: spec_fn(u64) -> bool)
    requires
        in_training(scores, always, ok),
        pruned(scores, target, result),
        always.len() <= target,
    ensures
        in_training(result, always, ok),
        result.len() <= target,
{
    let ranked = choose|ranked: Seq<Seq<char>>| pruned_with(scores, target, result, ranked);
    let room = at_most((target - always.len()) as nat, ranked.len());
    let front = ranked.take(room as int);
    assert(always.subset_of(scores.dom()));
    vstd::set_lib::lemma_set_subset_finite(scores.dom(), always);
    front.lemma_cardinality_of_set();
    assert(result.dom() =~= always.union(front.to_set()));
    vstd::set_lib::lemma_len_union(always, front.to_set());
    assert forall|t: Seq<char>| front.contains(t) implies scores.contains_key(t) by {
        lemma_take_member(ranked, room as int, t);
        assert(multi_tokens(scores).contains(t));
    }
    assert(unpruned(result) =~= always) by {
        assert forall|t: Seq<char>| unpruned(result).contains(t) <==> always.contains(t) by {
            if unpruned(result).contains(t) && front.contains(t) {
                assert(scores.contains_key(t));
                assert(unpruned(scores).contains(t));
            }
        }
    }
    assert(result.contains_key("<unk>"@)) by {
        assert(unpruned(scores).contains("<unk>"@));
    }
    assert forall|t: Seq<char>| result.contains_key(t) implies ok(#[trigger] result[t]) by {
        assert(scores.contains_key(t));
    }
}

/// Whether `trace` shows how training came from nothing to the tokenizer `after`: the last vocabulary
/// stays, and its tokens get their places in alphabetical order as ids.
pub open spec fn trained_through(
    text: Seq<char>,
    vocab_size: nat,
    sum: spec_fn(u64, u64) -> u64,
    share: spec_fn(u128, u128) -> u64,
    after: SentencePieceTokenizer,
    trace: Seq<Scores>,
) -> bool {
    &&& trains_through(text, vocab_size, sum, share, trace)
    &&& after.vocab@ == trace.last()
    &&& alphabetical(views(after.id_to_token@), after.vocab@)
    &&& after.token_to_id@ == places_of(views(after.id_to_token@))
}

proof fn lemma_counted(text: Seq<char>, max: nat, t: Seq<char>, i: int, n: nat)
    requires
        0 <= i < n,
        counted_at(text, max, t, i),
    ensures
        count_upto(text, max, t, n) > 0,
    decreases n,
{
    if i < n - 1 {
        lemma_counted(text, max, t, i, (n - 1) as nat);
    }
}

proof fn lemma_in_training(
    text: Seq<char>,
    vocab_size: nat,
    sum: spec_fn(u64, u64) -> u64,
    share: spec_fn(u128, u128) -> u64,
    trace: Seq<Scores>,
    ok: spec_fn(u64) -> bool,
    k: int,
)
    requires
        trains_through(text, vocab_size, sum, share, trace),
        absorbing(sum),
        gives_scores(share, ok),
        marked_text(text).len() <= usize::MAX,
        vocab_size * SEED_VOCAB_MULTIPLIER <= usize::MAX,
        counted_singles(marked_text(text), MAX_SUBSTR_LEN as nat).len() < vocab_size,
        0 <= k < trace.len(),
    ensures
        in_training(trace[k], always_kept(marked_text(text), MAX_SUBSTR_LEN as nat), ok),
    decreases k,
{
    let whole = marked_text(text);
    let max = MAX_SUBSTR_LEN as nat;
    let always = always_kept(whole, max);
    lemma_seeded(whole, max, (vocab_size * SEED_VOCAB_MULTIPLIER) as nat, share, trace[0], ok);
    assert(always.subset_of(trace[0].dom()));
    vstd::set_lib::lemma_set_subset_finite(trace[0].dom(), always);
    if k > 0 {
        lemma_in_training(text, vocab_size, sum, share, trace, ok, k - 1);
        let before = trace[k - 1];
        let sentences = marked_words(text);
        assert(round(sentences, vocab_size, sum, share, before, trace[k - 1 + 1]));
        lemma_reestimated(before, sum, share, sentences, always, ok);
        let scored = reestimated(before, sum, share, sentences);
        lemma_pruned(scored, prune_target(scored.len(), vocab_size), trace[k], always, ok);
    }
}

/// Training keeps every character of the marked text and the unknown token, and all scores are as
/// the shares and the score of the unknown token are.
pub proof fn law_training_keeps_characters(
    text: Seq<char>,
    vocab_size: nat,
    sum: spec_fn(u64, u64) -> u64,
    share: spec_fn(u128, u128) -> u64,
    trace: Seq<Scores>,
    ok: spec_fn(u64) -> bool,
)
    requires
        trains_through(text, vocab_size, sum, share, trace),
        absorbing(sum),
        gives_scores(share, ok),
        marked_text(text).len() <= usize::MAX,
        vocab_size * SEED_VOCAB_MULTIPLIER <= usize::MAX,
        counted_singles(marked_text(text), MAX_SUBSTR_LEN as nat).len() < vocab_size,
    ensures
        trace.last().len() <= vocab_size,
        trace.last().contains_key("<unk>"@),
        forall|i: int|
            0 <= i < marked_text(text).len() ==> trace.last().contains_key(seq![#[trigger] marked_text(text)[i]]),
        forall|t: Seq<char>| trace.last().contains_key(t) ==> ok(#[trigger] trace.last()[t]),
{
    let whole = marked_text(text);
    let max = MAX_SUBSTR_LEN as nat;
    let always = always_kept(whole, max);
    let last = trace.last();
    lemma_in_training(text, vocab_size, sum, share, trace, ok, trace.len() - 1);
    assert forall|i: int| 0 <= i < whole.len() implies last.contains_key(seq![#[trigger] whole[i]]) by {
        let t = seq![whole[i]];
        assert(whole.subrange(i, i + 1) =~= t);
        assert(counted_at(whole, max, t, i));
        lemma_counted(whole, max, t, i, whole.len());
        assert(always.contains(t));
        assert(unpruned(last).contains(t));
    }
}

impl SentencePieceTokenizer {
    /// The first vocabulary for `text`: its characters, and its most frequent longer substrings
    /// while there is room for them. The score of a token is what `share` gives for its count and
    /// the count of all.
    pub fn build_seed_vocab<G: Fn(u128, u128) -> u64>(
        &self,
        text: &str,
        max_sub_str_len: usize,
        seed_vocab_size: usize,
        share: &G,
    ) -> (r: TokenTable<u64>)
        requires
            pure2(*share),
            counted_singles(marked_text(text@), max_sub_str_len as nat).len() <= seed_vocab_size,
        ensures
            r.wf(),
            seeded(marked_text(text@), max_sub_str_len as nat, seed_vocab_size as nat, fn2(*share), r@),
    {
        let marked = concat_all(&mark_words(text));
        seed_of_marked(marked.as_str(), max_sub_str_len, seed_vocab_size, share)
    }

    /// Learns a vocabulary of at most `vocab_size` tokens: from a large first one, rounds of scoring
    /// anew and pruning lead down to the wanted size. Scores are added by `add`, and `share` gives
    /// the score of a token from its count and the count of all.
    pub fn train<F: Fn(u64, u64) -> u64, G: Fn(u128, u128) -> u64>(
        &mut self,
        text: &str,
        vocab_size: usize,
        _allowed_special: Option<Vec<String>>,
        add: &F,
        share: &G,
    )
        requires
            pure2(*add),
            pure2(*share),
            absorbing(fn2(*add)),
            shares_are_numbers(fn2(*share)),
            vocab_size * SEED_VOCAB_MULTIPLIER <= usize::MAX,
            counted_singles(marked_text(text@), MAX_SUBSTR_LEN as nat).len() < vocab_size,
        ensures
            final(self).vocab.wf(),
            exists|trace: Seq<Scores>|
                trained_through(
                    text@,
                    vocab_size as nat,
                    fn2(*add),
                    fn2(*share),
                    *final(self),
                    trace,
                ),
    {
        let ghost sum = fn2(*add);
        let ghost part = fn2(*share);
        let ghost max = MAX_SUBSTR_LEN as nat;
        let ghost whole = marked_text(text@);
        let ghost size = vocab_size as nat;
        let marked = mark_words(text);
        let joined = concat_all(&marked);
        let letters = to_chars(joined.as_str());
        assert(whole.len() == letters.len());
        self.vocab = seed_of_marked(joined.as_str(), MAX_SUBSTR_LEN, vocab_size * SEED_VOCAB_MULTIPLIER, share);
        let ghost always = always_kept(whole, max);
        let ghost ok = |x: u64| !double_is_nan(x);
        proof {
            lemma_seeded(whole, max, (vocab_size * SEED_VOCAB_MULTIPLIER) as nat, part, self.vocab@, ok);
            assert(always.subset_of(self.vocab@.dom()));
            vstd::set_lib::lemma_set_subset_finite(self.vocab@.dom(), always);
        }
        let ghost mut trace: Seq<Scores> = seq![self.vocab@];
        while self.vocab.len() > vocab_size
            invariant
                pure2(*add),
                pure2(*share),
                sum == fn2(*add),
                part == fn2(*share),
                absorbing(sum),
                shares_are_numbers(part),
                size == vocab_size,
                views(marked@) == marked_words(text@),
                flatten(views(marked@)).len() <= usize::MAX,
                self.vocab.wf(),
                ok == (|x: u64| !double_is_nan(x)),
                gives_scores(part, ok),
                in_training(self.vocab@, always, ok),
                always.finite(),
                always.len() <= size,
                trace.len() > 0,
                trace.last() == self.vocab@,
                seeded(marked_text(text@), MAX_SUBSTR_LEN as nat, (vocab_size * SEED_VOCAB_MULTIPLIER) as nat, part, trace[0]),
                forall|k: int|
                    0 <= k < trace.len() - 1 ==> (#[trigger] trace[k]).len() > size && round(
                        marked_words(text@),
                        size,
                        sum,
                        part,
                        trace[k],
                        trace[k + 1],
                    ),
            decreases self.vocab@.len(),
        {
            let ghost before = self.vocab@;
            let ghost sentences = marked_words(text@);
            let scored = em_step(&self.vocab, &marked, add, share);
            proof {
                lemma_reestimated(before, sum, part, sentences, always, ok);
            }
            let len: usize = scored.len();
            let fifths: usize = (len as u128 * 8 / 10) as usize;
            let target_size: usize = if fifths >= vocab_size {
                fifths
            } else {
                vocab_size
            };
            assert(target_size == prune_target(scored@.len(), size));
            self.vocab = prune(&scored, target_size);
            proof {
                lemma_pruned(scored@, target_size as nat, self.vocab@, always, ok);
                assert(self.vocab@.len() < before.len());
                let next = trace.push(self.vocab@);
                assert forall|k: int| 0 <= k < next.len() - 1 implies (#[trigger] next[k]).len() > size && round(
                    marked_words(text@),
                    size,
                    sum,
                    part,
                    next[k],
                    next[k + 1],
                ) by {
                    if k < trace.len() - 1 {
                        assert(next[k] == trace[k] && next[k + 1] == trace[k + 1]);
                    } else {
                        assert(next[k] == before);
                        assert(next[k + 1] == self.vocab@);
                    }
                }
                trace = next;
            }
        }
        let tokens = alphabetical_names(&self.vocab);
        self.token_to_id = index_tokens(&tokens);
        self.id_to_token = tokens;
        assert(trained_through(text@, size, sum, part, *self, trace));
    }
}

} // verus!
