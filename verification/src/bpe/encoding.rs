//! Encoding text to ids and decoding ids to text.

use vstd::prelude::*;
use vstd::string::StringExecFns;
use vstd::utf8::{encode_scalar, encode_utf8};

use crate::bpe::coding::{
    byte_len, decoded, disallowed, encode_outcome, escaped, id_without_token, ids_of_matches, ids_of_tokens,
    line_tokens, literal_outcome, longest_first, lookup_all, lowest_place, lowest_ranked, merge_of, merged_through,
    only_symbols, placed, plain_ids, plain_tokens, rank_merged, rank_merges, rank_merges_with, ranked_at, singles,
    special_outcome, special_pattern, symbols_after, tokenized, tokens_of_lines, unknown_id, unknown_token,
    EncodeFault,
};
use crate::bpe::laws::law_longest_first;
use crate::bpe::merging::merge_pass;
use crate::bpe::model::{BpeModel, SPACE_MARK};
use crate::bpe::outside::{byte_offset, debug_list, debug_text, find_matches, regex_matches, spans_in_order};
use crate::bpe::tokenizer::BytePair;
use crate::text::{
    code_point, concat, contains_part, decimal_string, ends_with, join, same_text, split_at_char, split_on, starts_with,
    string_of, string_of_char, to_chars, views,
};
use crate::token_table::enumerates;

verus! {

fn unknown_token_message(token: &str) -> (r: String)
    ensures
        r@ == unknown_token(token@),
{
    let mut out = "unknown token: '".to_owned();
    out.append(token);
    out.append("'");
    out
}

fn id_without_token_message(id: usize) -> (r: String)
    ensures
        r@ == id_without_token(id),
{
    let mut out = "id ".to_owned();
    out.append(decimal_string(id).as_str());
    out.append(" not in vocab");
    out
}

fn unknown_id_message(id: usize) -> (r: String)
    ensures
        r@ == unknown_id(id),
{
    let mut out = "unknown id: ".to_owned();
    out.append(decimal_string(id).as_str());
    out
}

/// A failed lookup stays the same failure when more keys follow.
proof fn lemma_lookup_fails<K, V>(keys: Seq<K>, table: Map<K, V>, n: int)
    requires
        0 <= n <= keys.len(),
        lookup_all(keys.take(n), table) is Err,
    ensures
        lookup_all(keys, table) == lookup_all(keys.take(n), table),
    decreases keys.len() - n,
{
    if n == keys.len() {
        assert(keys.take(n) =~= keys);
    } else {
        assert(keys.take(n + 1).drop_last() =~= keys.take(n));
        lemma_lookup_fails(keys, table, n + 1);
    }
}

/// A merging pass never makes a list longer.
pub proof fn lemma_pass_length<T>(s: Seq<T>, f: spec_fn(T, T) -> Option<T>)
    ensures
        merge_pass(s, f).len() <= s.len(),
        forall|i: int|
            0 <= i && i + 1 < s.len() && #[trigger] f(s[i], s[i + 1]) is Some ==> merge_pass(s, f).len() < s.len(),
    decreases s.len(),
{
    if s.len() >= 2 {
        match f(s[0], s[1]) {
            Some(_) => {
                lemma_pass_length(s.skip(2), f);
            },
            None => {
                lemma_pass_length(s.skip(1), f);
                assert forall|i: int| 0 <= i && i + 1 < s.len() && #[trigger] f(s[i], s[i + 1]) is Some implies merge_pass(
                    s,
                    f,
                ).len() < s.len() by {
                    let rest = s.skip(1);
                    assert(rest[i - 1] == s[i] && rest[i] == s[i + 1]);
                    assert(f(rest[i - 1], rest[i - 1 + 1]) is Some);
                }
            },
        }
    }
}

/// The symbols after a merge and more merges behind it are those after all of them.
proof fn lemma_symbols_behind(
    symbols: Seq<Seq<char>>,
    pair: (Seq<char>, Seq<char>),
    chosen: Seq<(Seq<char>, Seq<char>)>,
    k: nat,
)
    requires
        k <= chosen.len(),
    ensures
        symbols_after(symbols, seq![pair] + chosen, k + 1) == symbols_after(
            merge_pass(symbols, only_symbols(pair)),
            chosen,
            k,
        ),
    decreases k,
{
    let all = seq![pair] + chosen;
    if k == 0 {
        assert(all[0] == pair);
        assert(symbols_after(symbols, all, 0) == symbols);
    } else {
        lemma_symbols_behind(symbols, pair, chosen, (k - 1) as nat);
        assert(all[k as int] == chosen[k - 1]);
    }
}

proof fn lemma_lowest_place(ranks: Map<(Seq<char>, Seq<char>), usize>, symbols: Seq<Seq<char>>, n: nat)
    ensures
        match lowest_place(ranks, symbols, n) {
            None => forall|i: int| 0 <= i < n ==> !ranked_at(ranks, symbols, i),
            Some(at) => {
                &&& 0 <= at < n
                &&& ranked_at(ranks, symbols, at)
                &&& forall|i: int|
                    0 <= i < n && #[trigger] ranked_at(ranks, symbols, i) ==> ranks[(
                        symbols[at],
                        symbols[at + 1],
                    )] <= ranks[(symbols[i], symbols[i + 1])]
            },
        },
    decreases n,
{
    if n > 0 {
        lemma_lowest_place(ranks, symbols, (n - 1) as nat);
    }
}

/// Merging by rank merges a lowest-ranked pair each time and leaves no ranked pair.
pub proof fn lemma_rank_merged(ranks: Map<(Seq<char>, Seq<char>), usize>, symbols: Seq<Seq<char>>)
    ensures
        rank_merges(ranks, symbols, rank_merged(ranks, symbols)),
    decreases symbols.len(),
{
    let after = rank_merged(ranks, symbols);
    lemma_lowest_place(ranks, symbols, symbols.len());
    match lowest_place(ranks, symbols, symbols.len()) {
        None => {
            let none = Seq::<(Seq<char>, Seq<char>)>::empty();
            assert forall|i: int| !ranked_at(ranks, after, i) by {
                if ranked_at(ranks, after, i) {
                    assert(0 <= i < symbols.len());
                }
            }
            assert(rank_merges_with(ranks, symbols, after, none));
        },
        Some(at) => {
            let pair = (symbols[at], symbols[at + 1]);
            let f = only_symbols(pair);
            let next = merge_pass(symbols, f);
            lemma_pass_length(symbols, f);
            assert(f(symbols[at], symbols[at + 1]) is Some);
            lemma_rank_merged(ranks, next);
            let chosen = choose|chosen: Seq<(Seq<char>, Seq<char>)>| rank_merges_with(ranks, next, after, chosen);
            let all = seq![pair] + chosen;
            lemma_symbols_behind(symbols, pair, chosen, chosen.len());
            assert forall|k: int| 0 <= k < all.len() implies lowest_ranked(
                ranks,
                symbols_after(symbols, all, k as nat),
                #[trigger] all[k],
            ) by {
                if k == 0 {
                    assert(symbols_after(symbols, all, 0) == symbols);
                    assert forall|i: int| #[trigger] ranked_at(ranks, symbols, i) implies ranks[pair] <= ranks[(
                        symbols[i],
                        symbols[i + 1],
                    )] by {
                        assert(0 <= i < symbols.len());
                    }
                } else {
                    lemma_symbols_behind(symbols, pair, chosen, (k - 1) as nat);
                    assert(all[k] == chosen[k - 1]);
                }
            }
            assert(rank_merges_with(ranks, symbols, after, all));
        },
    }
}

/// Merges every occurrence of the symbols `first`, `second`, from left to right without overlap.
fn merge_symbols(symbols: &Vec<String>, first: &String, second: &String) -> (r: Vec<String>)
    ensures
        views(r@) == merge_pass(views(symbols@), only_symbols((first@, second@))),
{
    let mut out: Vec<String> = Vec::new();
    let mut i: usize = 0;
    let n: usize = symbols.len();
    let ghost all = views(symbols@);
    let ghost f = only_symbols((first@, second@));
    assert(all.skip(0) =~= all);
    assert(views(out@) + merge_pass(all, f) =~= merge_pass(all, f));
    while i < n
        invariant
            i <= n,
            n == symbols@.len(),
            all == views(symbols@),
            f == only_symbols((first@, second@)),
            views(out@) + merge_pass(all.skip(i as int), f) == merge_pass(all, f),
        decreases n - i,
    {
        let ghost rest = all.skip(i as int);
        let ghost before = views(out@);
        assert(rest.skip(1) =~= all.skip(i + 1));
        assert(rest[0] == symbols@[i as int]@);
        if i < n - 1 && symbols[i] == *first && symbols[i + 1] == *second {
            assert(rest.skip(2) =~= all.skip(i + 2));
            assert(rest[1] == symbols@[i + 1]@);
            out.push(concat(first.as_str(), second.as_str()));
            i += 2;
            assert(views(out@) =~= before.push(first@ + second@));
            assert(views(out@) + merge_pass(all.skip(i as int), f) =~= before + merge_pass(rest, f));
        } else {
            out.push(symbols[i].clone());
            i += 1;
            assert(views(out@) =~= before.push(rest[0]));
            assert(rest.len() >= 2 ==> rest[1] == symbols@[i as int]@);
            assert(merge_pass(rest, f) =~= seq![rest[0]] + merge_pass(rest.skip(1), f));
            assert(views(out@) + merge_pass(all.skip(i as int), f) =~= before + merge_pass(rest, f));
        }
    }
    assert(views(out@) + merge_pass(all.skip(i as int), f) =~= views(out@));
    out
}

impl BytePair {
    /// Escapes the characters that have a meaning of their own in a regular expression.
    pub fn escape_regex(s: &str) -> (r: String)
        ensures
            r@ == escaped(s@),
    {
        let meta = to_chars(r"\.+*?()|[]{}^$");
        let mut out = String::new();
        assert(s@.take(0) =~= Seq::empty());
        for c in it: s.chars()
            invariant
                it.seq() == s@,
                meta@ == r"\.+*?()|[]{}^$"@,
                out@ == escaped(s@.take(it.index())),
        {
            assert(s@.take(it.index() + 1).drop_last() =~= s@.take(it.index()));
            let mut is_special: bool = false;
            let mut k: usize = 0;
            while k < meta.len()
                invariant
                    k <= meta@.len(),
                    is_special == meta@.take(k as int).contains(c),
                decreases meta@.len() - k,
            {
                let ghost now = meta@.take(k + 1);
                assert(now =~= meta@.take(k as int).push(meta@[k as int]));
                if meta[k] == c {
                    is_special = true;
                    assert(now[k as int] == c);
                } else {
                    assert(now.contains(c) == meta@.take(k as int).contains(c)) by {
                        if meta@.take(k as int).contains(c) {
                            let j = choose|j: int| 0 <= j < k && meta@.take(k as int)[j] == c;
                            assert(now[j] == c);
                        }
                        if now.contains(c) {
                            let j = choose|j: int| 0 <= j < k + 1 && now[j] == c;
                            assert(meta@.take(k as int)[j] == c);
                        }
                    }
                }
                k += 1;
            }
            assert(meta@.take(k as int) =~= meta@);
            if is_special {
                out.push('\\');
            }
            out.push(c);
        }
        assert(s@.take(s@.len() as int) =~= s@);
        out
    }

    /// Merges the lowest-ranked pair of neighbours, all over, until no ranked pair is left.
    pub fn merge_by_rank(&self, symbols: Vec<String>) -> (r: Vec<String>)
        ensures
            views(r@) == rank_merged(self@.ranks, views(symbols@)),
            rank_merges(self@.ranks, views(symbols@), views(r@)),
    {
        let ghost start = views(symbols@);
        let ghost ranks = self@.ranks;
        let mut symbols = symbols;
        loop
            invariant
                ranks == self@.ranks,
                rank_merged(ranks, start) == rank_merged(ranks, views(symbols@)),
            ensures
                views(symbols@) == rank_merged(ranks, start),
            decreases symbols@.len(),
        {
            let ghost now = views(symbols@);
            let mut best: Option<usize> = None;
            let mut min_rank: usize = usize::MAX;
            let mut i: usize = 1;
            while i < symbols.len()
                invariant
                    1 <= i,
                    i <= symbols@.len() || symbols@.len() == 0,
                    now == views(symbols@),
                    ranks == self@.ranks,
                    match best {
                        None => min_rank == usize::MAX && lowest_place(ranks, now, (i - 1) as nat) is None,
                        Some(at) => {
                            &&& lowest_place(ranks, now, (i - 1) as nat) == Some(at as int)
                            &&& ranked_at(ranks, now, at as int)
                            &&& min_rank == ranks[(now[at as int], now[at + 1])]
                        },
                    },
                decreases symbols@.len() - i,
            {
                assert(now[i - 1] == symbols@[i - 1]@ && now[i as int] == symbols@[i as int]@);
                if let Some(rank) = self.bpe_ranks.get(symbols[i - 1].as_str(), symbols[i].as_str()) {
                    if rank < min_rank {
                        min_rank = rank;
                        best = Some(i - 1);
                        assert(ranked_at(ranks, now, i - 1));
                    }
                }
                i += 1;
            }
            proof {
                if now.len() > 0 {
                    assert(!ranked_at(ranks, now, now.len() - 1));
                }
            }
            match best {
                None => {
                    break;
                },
                Some(at) => {
                    let ghost pair = (now[at as int], now[at + 1]);
                    let merged = merge_symbols(&symbols, &symbols[at], &symbols[at + 1]);
                    proof {
                        let f = only_symbols(pair);
                        lemma_pass_length(now, f);
                        assert(f(now[at as int], now[at + 1]) is Some);
                        assert(views(merged@).len() == merged@.len());
                    }
                    symbols = merged;
                },
            }
        }
        proof {
            lemma_rank_merged(ranks, start);
        }
        symbols
    }

    fn ids_of_singles(&self, text: &str) -> (r: Result<Vec<usize>, String>)
        ensures
            match lookup_all(singles(text@), self@.inverse) {
                Ok(ids) => r matches Ok(found) && found@ == ids,
                Err(token) => r matches Err(e) && e@ == unknown_token(token),
            },
    {
        let mut out: Vec<usize> = Vec::new();
        let ghost keys = singles(text@);
        assert(keys.take(0) =~= Seq::empty());
        assert(out@ =~= Seq::<usize>::empty());
        for c in it: text.chars()
            invariant
                it.seq() == text@,
                keys == singles(text@),
                lookup_all(keys.take(it.index()), self@.inverse) == Ok::<Seq<usize>, Seq<char>>(out@),
        {
            let ghost taken = keys.take(it.index() + 1);
            assert(taken.drop_last() =~= keys.take(it.index()));
            assert(taken.last() == seq![c]);
            let token = string_of_char(c);
            match self.inverse_vocab.get(token.as_str()) {
                Some(id) => {
                    out.push(id);
                },
                None => {
                    proof {
                        lemma_lookup_fails(keys, self@.inverse, it.index() + 1);
                    }
                    return Err(unknown_token_message(token.as_str()));
                },
            }
        }
        assert(keys.take(text@.len() as int) =~= keys);
        Ok(out)
    }

    fn symbols_of_ids(&self, ids: &Vec<usize>) -> (r: Result<Vec<String>, String>)
        ensures
            match lookup_all(ids@, self@.vocab) {
                Ok(symbols) => r matches Ok(found) && views(found@) == symbols,
                Err(id) => r matches Err(e) && e@ == id_without_token(id),
            },
    {
        let mut out: Vec<String> = Vec::new();
        let mut i: usize = 0;
        assert(ids@.take(0) =~= Seq::empty());
        assert(views(out@) =~= Seq::<Seq<char>>::empty());
        while i < ids.len()
            invariant
                i <= ids@.len(),
                lookup_all(ids@.take(i as int), self@.vocab) == Ok::<Seq<Seq<char>>, usize>(views(out@)),
            decreases ids@.len() - i,
        {
            assert(ids@.take(i + 1).drop_last() =~= ids@.take(i as int));
            let ghost before = views(out@);
            match self.vocab.get(ids[i]) {
                Some(token) => {
                    out.push(token.clone());
                    assert(views(out@) =~= before.push(token@));
                },
                None => {
                    proof {
                        lemma_lookup_fails(ids@, self@.vocab, i + 1);
                    }
                    return Err(id_without_token_message(ids[i]));
                },
            }
            i += 1;
        }
        assert(ids@.take(i as int) =~= ids@);
        Ok(out)
    }

    fn ids_of_symbols(&self, symbols: &Vec<String>) -> (r: Result<Vec<usize>, String>)
        ensures
            match lookup_all(views(symbols@), self@.inverse) {
                Ok(ids) => r matches Ok(found) && found@ == ids,
                Err(token) => r matches Err(e) && e@ == unknown_token(token),
            },
    {
        let mut out: Vec<usize> = Vec::new();
        let mut i: usize = 0;
        let ghost keys = views(symbols@);
        assert(keys.take(0) =~= Seq::empty());
        assert(out@ =~= Seq::<usize>::empty());
        while i < symbols.len()
            invariant
                i <= symbols@.len(),
                keys == views(symbols@),
                lookup_all(keys.take(i as int), self@.inverse) == Ok::<Seq<usize>, Seq<char>>(out@),
            decreases symbols@.len() - i,
        {
            assert(keys.take(i + 1).drop_last() =~= keys.take(i as int));
            assert(keys[i as int] == symbols@[i as int]@);
            match self.inverse_vocab.get(symbols[i].as_str()) {
                Some(id) => {
                    out.push(id);
                },
                None => {
                    proof {
                        lemma_lookup_fails(keys, self@.inverse, i + 1);
                    }
                    return Err(unknown_token_message(symbols[i].as_str()));
                },
            }
            i += 1;
        }
        assert(keys.take(i as int) =~= keys);
        Ok(out)
    }

    /// One greedy pass of the learned merges.
    fn merge_once(&self, tokens: &Vec<usize>) -> (r: Vec<usize>)
        requires
            self.wf(),
        ensures
            r@ == merge_pass(tokens@, merge_of(self@.merges)),
    {
        let mut out: Vec<usize> = Vec::new();
        let mut i: usize = 0;
        let n: usize = tokens.len();
        let ghost f = merge_of(self@.merges);
        assert(tokens@.skip(0) =~= tokens@);
        assert(out@ + merge_pass(tokens@, f) =~= merge_pass(tokens@, f));
        while i < n
            invariant
                i <= n,
                n == tokens@.len(),
                self.wf(),
                f == merge_of(self@.merges),
                out@ + merge_pass(tokens@.skip(i as int), f) == merge_pass(tokens@, f),
            decreases n - i,
        {
            let ghost rest = tokens@.skip(i as int);
            let ghost before = out@;
            assert(rest.skip(1) =~= tokens@.skip(i + 1));
            let merged: Option<usize> = if i < n - 1 {
                self.bpe_merges.get((tokens[i], tokens[i + 1]))
            } else {
                None
            };
            match merged {
                Some(id) => {
                    assert(rest.skip(2) =~= tokens@.skip(i + 2));
                    out.push(id);
                    i += 2;
                    assert(out@ + merge_pass(tokens@.skip(i as int), f) =~= before + merge_pass(rest, f));
                },
                None => {
                    out.push(tokens[i]);
                    i += 1;
                    assert(merge_pass(rest, f) =~= seq![rest[0]] + merge_pass(rest.skip(1), f));
                    assert(out@ + merge_pass(tokens@.skip(i as int), f) =~= before + merge_pass(rest, f));
                },
            }
        }
        assert(out@ + merge_pass(tokens@.skip(i as int), f) =~= out@);
        out
    }

    /// Passes of the learned merges, until one merges nothing.
    fn merge_all(&self, tokens: Vec<usize>) -> (r: Vec<usize>)
        requires
            self.wf(),
        ensures
            r@ == merged_through(tokens@, merge_of(self@.merges)),
    {
        let ghost f = merge_of(self@.merges);
        let ghost start = tokens@;
        let mut tokens = tokens;
        loop
            invariant
                self.wf(),
                f == merge_of(self@.merges),
                merged_through(start, f) == merged_through(tokens@, f),
            ensures
                tokens@ == merged_through(start, f),
            decreases tokens@.len(),
        {
            let next = self.merge_once(&tokens);
            if next.len() >= tokens.len() {
                break;
            }
            tokens = next;
        }
        tokens
    }

    /// The ids of a token that has none of its own.
    pub fn tokenize_with_bpe(&self, text: &str) -> (r: Result<Vec<usize>, String>)
        requires
            self.wf(),
        ensures
            match tokenized(self@, text@) {
                Ok(ids) => r matches Ok(found) && found@ == ids,
                Err(message) => r matches Err(e) && e@ == message,
            },
    {
        let tokens = match self.ids_of_singles(text) {
            Ok(ids) => ids,
            Err(e) => return Err(e),
        };
        if self.bpe_ranks.is_empty() {
            return Ok(self.merge_all(tokens));
        }
        let symbols = match self.symbols_of_ids(&tokens) {
            Ok(symbols) => symbols,
            Err(e) => return Err(e),
        };
        let merged = self.merge_by_rank(symbols);
        self.ids_of_symbols(&merged)
    }
}

/// Cuts plain text into tokens: lines, and words with their space marks.
fn cut_plain(text: &str) -> (r: Vec<String>)
    ensures
        views(r@) == plain_tokens(text@),
{
    let lines = split_at_char(text, '\n');
    let ghost all = split_on(text@, '\n');
    let mut out: Vec<String> = Vec::new();
    let mut i: usize = 0;
    assert(views(out@) =~= tokens_of_lines(all, 0));
    while i < lines.len()
        invariant
            i <= lines@.len(),
            views(lines@) == all,
            views(out@) == tokens_of_lines(all, i as nat),
        decreases lines@.len() - i,
    {
        let ghost before = views(out@);
        if i > 0 {
            out.push("\n".to_owned());
        }
        let ghost parted = views(out@);
        assert(parted =~= if i == 0 {
            before
        } else {
            before.push("\n"@)
        });
        assert(all[i as int] == lines@[i as int]@);
        let words = split_at_char(lines[i].as_str(), ' ');
        let ghost line = all[i as int];
        let ghost marked_words = line_tokens(line, i == 0);
        let mut j: usize = 0;
        assert(views(out@) =~= parted + marked_words.take(0));
        while j < words.len()
            invariant
                j <= words@.len(),
                views(words@) == split_on(line, ' '),
                marked_words == line_tokens(line, i == 0),
                views(out@) == parted + marked_words.take(j as int),
            decreases words@.len() - j,
        {
            let ghost so_far = views(out@);
            assert(split_on(line, ' ')[j as int] == words@[j as int]@);
            if j == 0 && i == 0 {
                out.push(words[j].clone());
            } else {
                let mut word = string_of_char(SPACE_MARK);
                word.append(words[j].as_str());
                out.push(word);
            }
            assert(views(out@) =~= so_far.push(marked_words[j as int]));
            j += 1;
            assert(views(out@) =~= parted + marked_words.take(j as int));
        }
        assert(marked_words.take(j as int) =~= marked_words);
        i += 1;
    }
    out
}

/// What cannot be tokenized stays so when more tokens follow.
proof fn lemma_tokens_fail(m: BpeModel, tokens: Seq<Seq<char>>, n: int)
    requires
        0 <= n <= tokens.len(),
        ids_of_tokens(m, tokens.take(n)) is None,
    ensures
        ids_of_tokens(m, tokens) is None,
    decreases tokens.len() - n,
{
    if n == tokens.len() {
        assert(tokens.take(n) =~= tokens);
    } else {
        assert(tokens.take(n + 1).drop_last() =~= tokens.take(n));
        lemma_tokens_fail(m, tokens, n + 1);
    }
}

/// A search that has come to its end without going through all matches stays there.
proof fn lemma_matches_end(m: BpeModel, text: Seq<char>, spans: Seq<(nat, nat)>, n: nat, k: nat)
    requires
        n <= k,
        !(ids_of_matches(m, text, spans, n) matches Some(Ok(_))),
    ensures
        ids_of_matches(m, text, spans, k) == ids_of_matches(m, text, spans, n),
    decreases k - n,
{
    if n < k {
        lemma_matches_end(m, text, spans, n, (k - 1) as nat);
    }
}

proof fn lemma_encode_push(s: Seq<char>, c: char)
    ensures
        encode_utf8(s.push(c)) == encode_utf8(s) + encode_scalar(c as u32),
    decreases s.len(),
{
    reveal_with_fuel(encode_utf8, 2);
    if s.len() == 0 {
        assert(s.push(c).drop_first() =~= Seq::<char>::empty());
        assert(encode_utf8(s.push(c)) =~= encode_scalar(c as u32));
        assert(encode_utf8(s) =~= Seq::<u8>::empty());
    } else {
        assert(s.push(c).drop_first() =~= s.drop_first().push(c));
        lemma_encode_push(s.drop_first(), c);
        assert(encode_utf8(s.push(c)) =~= encode_utf8(s) + encode_scalar(c as u32));
    }
}

/// Every character takes at least one byte.
proof fn lemma_offset_grows(text: Seq<char>, a: nat, b: nat)
    requires
        a < b <= text.len(),
    ensures
        byte_offset(text, a) < byte_offset(text, b),
    decreases b - a,
{
    assert(text.take(b as int) =~= text.take(b - 1).push(text[b - 1]));
    lemma_encode_push(text.take(b - 1), text[b - 1]);
    if a < b - 1 {
        lemma_offset_grows(text, a, (b - 1) as nat);
    }
}

fn utf8_width(c: char) -> (r: usize)
    ensures
        r == encode_scalar(c as u32).len(),
{
    let n: u32 = code_point(c);
    if n <= 0x7F {
        1
    } else if n <= 0x7FF {
        2
    } else if n <= 0xFFFF {
        3
    } else {
        4
    }
}

/// The number of characters before the byte offset `target`, counted on from a known place.
fn char_index(chars: &Vec<char>, from: usize, from_byte: usize, target: usize, Ghost(place): Ghost<nat>) -> (r: usize)
    requires
        from <= place <= chars@.len(),
        from_byte == byte_offset(chars@, from as nat),
        target == byte_offset(chars@, place),
    ensures
        r == place,
{
    let total: usize = chars.len();
    let mut i: usize = from;
    let mut at: usize = from_byte;
    while at < target
        invariant
            total == chars@.len(),
            i <= place <= total,
            at == byte_offset(chars@, i as nat),
            target == byte_offset(chars@, place),
        decreases place - i,
    {
        proof {
            if i < place {
                lemma_offset_grows(chars@, i as nat, place);
                if i + 1 < place {
                    lemma_offset_grows(chars@, (i + 1) as nat, place);
                }
            }
            assert(chars@.take(i + 1) =~= chars@.take(i as int).push(chars@[i as int]));
            lemma_encode_push(chars@.take(i as int), chars@[i as int]);
        }
        at += utf8_width(chars[i]);
        i += 1;
    }
    proof {
        if i < place {
            lemma_offset_grows(chars@, i as nat, place);
        }
    }
    i
}

/// Puts `token` behind everything in `list` that is at least as long.
fn place_by_length(list: &mut Vec<String>, token: String)
    ensures
        views(final(list)@) == placed(views(old(list)@), token@),
{
    let mut at: usize = list.len();
    let size: usize = token.as_str().len();
    let ghost all = views(list@);
    let ghost mut tail: Seq<Seq<char>> = Seq::empty();
    assert(all.take(at as int) =~= all);
    assert(placed(all, token@) + tail =~= placed(all, token@));
    while at > 0 && list[at - 1].as_str().len() < size
        invariant
            at <= list@.len(),
            all == views(list@),
            size == byte_len(token@),
            tail == all.skip(at as int),
            placed(all.take(at as int), token@) + tail == placed(all, token@),
        decreases at,
    {
        proof {
            assert(all[at - 1] == list@[at - 1]@);
            let head = all.take(at as int);
            assert(head.drop_last() =~= all.take(at - 1));
            let longer = seq![all[at - 1]] + tail;
            assert(longer =~= all.skip(at - 1));
            assert(placed(all.take(at - 1), token@) + longer =~= placed(head, token@) + tail);
            tail = longer;
        }
        at -= 1;
    }
    assert(at > 0 ==> all[at - 1] == list@[at - 1]@);
    assert(placed(all.take(at as int), token@) =~= all.take(at as int).push(token@));
    list.insert(at, token);
    assert(views(list@) =~= all.take(at as int).push(token@) + tail);
}

/// The tokens from the longest to the shortest.
fn sort_by_length(list: &Vec<String>) -> (r: Vec<String>)
    ensures
        views(r@) == longest_first(views(list@)),
{
    let mut out: Vec<String> = Vec::new();
    let mut i: usize = 0;
    let ghost all = views(list@);
    assert(views(out@) =~= longest_first(all.take(0)));
    while i < list.len()
        invariant
            i <= list@.len(),
            all == views(list@),
            views(out@) == longest_first(all.take(i as int)),
        decreases list@.len() - i,
    {
        assert(all.take(i + 1).drop_last() =~= all.take(i as int));
        place_by_length(&mut out, list[i].clone());
        i += 1;
    }
    assert(all.take(i as int) =~= all);
    out
}

/// The regular expression for a list of special tokens.
fn pattern_of(allowed: &Vec<String>) -> (r: String)
    ensures
        r@ == special_pattern(views(allowed@)),
{
    let sorted_special = sort_by_length(allowed);
    let ghost sorted = views(sorted_special@);
    let mut escapes: Vec<String> = Vec::new();
    let mut i: usize = 0;
    while i < sorted_special.len()
        invariant
            i <= sorted_special@.len(),
            sorted == views(sorted_special@),
            views(escapes@) == sorted.map_values(|s: Seq<char>| escaped(s)).take(i as int),
        decreases sorted_special@.len() - i,
    {
        let ghost before = views(escapes@);
        let ghost goal = sorted.map_values(|s: Seq<char>| escaped(s));
        escapes.push(BytePair::escape_regex(sorted_special[i].as_str()));
        assert(goal[i as int] == escaped(sorted_special@[i as int]@));
        assert(views(escapes@) =~= before.push(goal[i as int]));
        i += 1;
        assert(views(escapes@) =~= goal.take(i as int));
    }
    let ghost goal = sorted.map_values(|s: Seq<char>| escaped(s));
    assert(goal.take(i as int) =~= goal);
    join(&escapes, "|")
}

/// Whether `list` holds `token`.
fn list_holds(list: &Vec<String>, token: &str) -> (r: bool)
    ensures
        r == views(list@).contains(token@),
{
    let mut i: usize = 0;
    while i < list.len()
        invariant
            i <= list@.len(),
            forall|k: int| 0 <= k < i ==> views(list@)[k] != token@,
        decreases list@.len() - i,
    {
        if same_text(list[i].as_str(), token) {
            assert(views(list@)[i as int] == token@);
            return true;
        }
        i += 1;
    }
    false
}

/// Whether `message` reports `fault`. The names of disallowed tokens may stand in any order.
pub open spec fn reports(message: Seq<char>, fault: EncodeFault) -> bool {
    match fault {
        EncodeFault::UnknownSpecial(token) => message == "Special token '"@ + token + "' not found in vocabulary"@,
        EncodeFault::Disallowed(tokens) => exists|names: Seq<Seq<char>>|
            enumerates(names, tokens) && message == "Disallowed special tokens encountered in text:"@
                + #[trigger] debug_text(names),
    }
}

/// Whether `r` is what encoding owes.
pub open spec fn encode_result(r: Result<Vec<usize>, String>, outcome: Result<Seq<usize>, EncodeFault>) -> bool {
    match outcome {
        Ok(ids) => r matches Ok(found) && found@ == ids,
        Err(fault) => r matches Err(message) && reports(message@, fault),
    }
}

/// The list of special tokens that was handed over.
pub open spec fn special_views(allowed_special: Option<Vec<String>>) -> Option<Seq<Seq<char>>> {
    match allowed_special {
        Some(list) => Some(views(list@)),
        None => None,
    }
}

/// Whether `r` is the answer for special tokens that are looked for from left to right, the longest
/// first at each place, if there are some and none is empty.
pub open spec fn literal_result(
    m: BpeModel,
    text: Seq<char>,
    allowed: Option<Seq<Seq<char>>>,
    r: Result<Vec<usize>, String>,
) -> bool {
    match allowed {
        Some(list) => list.len() > 0 && (forall|k: int| 0 <= k < list.len() ==> (#[trigger] list[k]).len() > 0) ==> (
        literal_outcome(m, text, list) matches Some(outcome) && encode_result(r, outcome)),
        None => true,
    }
}

/// Sorting by length makes no token empty.
proof fn lemma_sorted_literals(allowed: Seq<Seq<char>>)
    ensures
        longest_first(allowed).len() == allowed.len(),
        (forall|k: int| 0 <= k < allowed.len() ==> (#[trigger] allowed[k]).len() > 0) ==> (forall|k: int|
            0 <= k < allowed.len() ==> (#[trigger] longest_first(allowed)[k]).len() > 0),
{
    broadcast use vstd::seq_lib::group_to_multiset_ensures;

    let sorted = longest_first(allowed);
    law_longest_first(allowed);
    assert(sorted.to_multiset().len() == sorted.len());
    assert(allowed.to_multiset().len() == allowed.len());
    assert forall|k: int| 0 <= k < sorted.len() implies allowed.contains(#[trigger] sorted[k]) by {
        assert(sorted.contains(sorted[k]));
        assert(sorted.to_multiset().count(sorted[k]) > 0);
        assert(allowed.to_multiset().count(sorted[k]) > 0);
    }
}

fn unknown_special_message(token: &str) -> (r: String)
    ensures
        reports(r@, EncodeFault::UnknownSpecial(token@)),
{
    let mut out = "Special token '".to_owned();
    out.append(token);
    out.append("' not found in vocabulary");
    out
}

fn disallowed_message(names: &Vec<String>) -> (r: String)
    ensures
        r@ == "Disallowed special tokens encountered in text:"@ + debug_text(views(names@)),
{
    let mut out = "Disallowed special tokens encountered in text:".to_owned();
    out.append(debug_list(names).as_str());
    out
}

impl BytePair {
    /// The ids of plain text, or nothing if a token of it cannot be tokenized.
    pub fn encode_plain(&self, text: &str) -> (r: Option<Vec<usize>>)
        requires
            self.wf(),
        ensures
            match plain_ids(self@, text@) {
                Some(ids) => r matches Some(found) && found@ == ids,
                None => r is None,
            },
    {
        let tokens = cut_plain(text);
        let ghost all = plain_tokens(text@);
        let mut out: Vec<usize> = Vec::new();
        let mut i: usize = 0;
        assert(all.take(0) =~= Seq::empty());
        assert(out@ =~= Seq::<usize>::empty());
        while i < tokens.len()
            invariant
                i <= tokens@.len(),
                self.wf(),
                views(tokens@) == all,
                all == plain_tokens(text@),
                ids_of_tokens(self@, all.take(i as int)) == Some(out@),
            decreases tokens@.len() - i,
        {
            assert(all.take(i + 1).drop_last() =~= all.take(i as int));
            assert(all[i as int] == tokens@[i as int]@);
            match self.inverse_vocab.get(tokens[i].as_str()) {
                Some(id) => {
                    out.push(id);
                },
                None => {
                    match self.tokenize_with_bpe(tokens[i].as_str()) {
                        Ok(mut more) => {
                            out.append(&mut more);
                        },
                        Err(_) => {
                            proof {
                                lemma_tokens_fail(self@, all, i + 1);
                            }
                            return None;
                        },
                    }
                },
            }
            i += 1;
        }
        assert(all.take(i as int) =~= all);
        Some(out)
    }

    /// The special tokens of the vocabulary that occur in `rest` without being allowed.
    fn find_disallowed(&self, rest: &str, allowed: &Vec<String>) -> (r: Vec<String>)
        requires
            self.wf(),
        ensures
            enumerates(views(r@), disallowed(self@, rest@, views(allowed@))),
    {
        let names = self.inverse_vocab.names();
        let ghost keys = views(names@);
        let ghost wanted = disallowed(self@, rest@, views(allowed@));
        let mut out: Vec<String> = Vec::new();
        let mut i: usize = 0;
        while i < names.len()
            invariant
                i <= names@.len(),
                keys == views(names@),
                keys.no_duplicates(),
                forall|t: Seq<char>| keys.contains(t) <==> self@.inverse.contains_key(t),
                wanted == disallowed(self@, rest@, views(allowed@)),
                views(out@).no_duplicates(),
                forall|t: Seq<char>| #[trigger]
                    views(out@).contains(t) <==> keys.take(i as int).contains(t) && wanted.contains(t),
            decreases names@.len() - i,
        {
            let name = names[i].as_str();
            assert(keys[i as int] == name@);
            assert(keys.contains(name@));
            let ghost before = views(out@);
            let ghost taken = keys.take(i + 1);
            assert(taken =~= keys.take(i as int).push(name@));
            assert forall|t: Seq<char>| taken.contains(t) <==> (keys.take(i as int).contains(t) || t == name@) by {
                lemma_push_contains(keys.take(i as int), name@, t);
            }
            assert(!keys.take(i as int).contains(name@)) by {
                if keys.take(i as int).contains(name@) {
                    let k = choose|k: int| 0 <= k < i && keys.take(i as int)[k] == name@;
                    assert(keys[k] == keys[i as int]);
                }
            }
            if starts_with(name, "<|") && ends_with(name, "|>") && contains_part(rest, name) && !list_holds(
                allowed,
                name,
            ) {
                assert(!before.contains(name@));
                out.push(names[i].clone());
                assert(views(out@) =~= before.push(name@));
                assert forall|t: Seq<char>| views(out@).contains(t) <==> (before.contains(t) || t == name@) by {
                    lemma_push_contains(before, name@, t);
                }
                assert(views(out@).no_duplicates()) by {
                    assert forall|a: int, b: int|
                        0 <= a < views(out@).len() && 0 <= b < views(out@).len() && a != b implies views(out@)[a] != views(
                        out@,
                    )[b] by {
                        if a < before.len() {
                            assert(before.contains(before[a]));
                        }
                        if b < before.len() {
                            assert(before.contains(before[b]));
                        }
                    }
                }
            } else {
                assert(!wanted.contains(name@));
            }
            assert forall|t: Seq<char>| #[trigger] views(out@).contains(t) <==> taken.contains(t) && wanted.contains(t) by {
                assert(before.contains(t) <==> keys.take(i as int).contains(t) && wanted.contains(t));
            }
            i += 1;
        }
        assert(keys.take(i as int) =~= keys);
        assert forall|t: Seq<char>| views(out@).contains(t) <==> wanted.contains(t) by {
            if wanted.contains(t) {
                assert(self@.inverse.contains_key(t));
            }
        }
        out
    }

    /// Encodes `text` whose special tokens stand at the byte ranges `found`.
    fn encode_matches(
        &self,
        text: &str,
        allowed: &Vec<String>,
        found: &Vec<(usize, usize)>,
        Ghost(spans): Ghost<Seq<(nat, nat)>>,
    ) -> (r: Option<Result<Vec<usize>, String>>)
        requires
            self.wf(),
            found@.len() == spans.len(),
            spans_in_order(text@, spans),
            forall|i: int|
                0 <= i < spans.len() ==> (#[trigger] found@[i]).0 == byte_offset(text@, spans[i].0) && found@[i].1
                    == byte_offset(text@, spans[i].1),
        ensures
            match special_outcome(self@, text@, views(allowed@), spans) {
                None => r is None,
                Some(outcome) => r matches Some(result) && encode_result(result, outcome),
            },
    {
        let chars = to_chars(text);
        let mut out: Vec<usize> = Vec::new();
        let mut last: usize = 0;
        let mut last_byte: usize = 0;
        let mut i: usize = 0;
        assert(text@.take(0) =~= Seq::<char>::empty());
        assert(out@ =~= Seq::<usize>::empty());
        while i < found.len()
            invariant
                i <= found@.len(),
                self.wf(),
                chars@ == text@,
                found@.len() == spans.len(),
                spans_in_order(text@, spans),
                forall|i: int|
                    0 <= i < spans.len() ==> (#[trigger] found@[i]).0 == byte_offset(text@, spans[i].0) && found@[i].1
                        == byte_offset(text@, spans[i].1),
                last <= text@.len(),
                last_byte == byte_offset(text@, last as nat),
                i < spans.len() ==> last <= spans[i as int].0,
                ids_of_matches(self@, text@, spans, i as nat) == Some(
                    Ok::<(Seq<usize>, nat), EncodeFault>((out@, last as nat)),
                ),
            decreases found@.len() - i,
        {
            let ghost span = spans[i as int];
            let start_byte: usize = found[i].0;
            let end_byte: usize = found[i].1;
            assert(found@[i as int].0 == start_byte && found@[i as int].1 == end_byte);
            let start: usize = char_index(&chars, last, last_byte, start_byte, Ghost(span.0));
            let end: usize = char_index(&chars, start, start_byte, end_byte, Ghost(span.1));
            let ghost before = out@;
            let ghost mut more_ids: Seq<usize> = Seq::empty();
            if last < start {
                let prefix = string_of(&chars, last, start);
                match self.encode_plain(prefix.as_str()) {
                    Some(mut more) => {
                        proof {
                            more_ids = more@;
                        }
                        out.append(&mut more);
                    },
                    None => {
                        proof {
                            lemma_matches_end(self@, text@, spans, (i + 1) as nat, spans.len());
                        }
                        return None;
                    },
                }
            }
            assert(out@ =~= before + more_ids);
            let special = string_of(&chars, start, end);
            match self.inverse_vocab.get(special.as_str()) {
                Some(id) => {
                    out.push(id);
                },
                None => {
                    proof {
                        lemma_matches_end(self@, text@, spans, (i + 1) as nat, spans.len());
                    }
                    return Some(Err(unknown_special_message(special.as_str())));
                },
            }
            last = end;
            last_byte = end_byte;
            i += 1;
        }
        let rest = string_of(&chars, last, chars.len());
        let names = self.find_disallowed(rest.as_str(), allowed);
        let ghost wanted = disallowed(self@, rest@, views(allowed@));
        if names.len() > 0 {
            proof {
                assert(views(names@).contains(views(names@)[0]));
                assert(wanted.contains(views(names@)[0]));
                assert(wanted != Set::<Seq<char>>::empty());
                assert(enumerates(views(names@), wanted));
            }
            let message = disallowed_message(&names);
            assert(rest@ == text@.subrange(last as int, text@.len() as int));
            assert(special_outcome(self@, text@, views(allowed@), spans) == Some(
                Err::<Seq<usize>, EncodeFault>(EncodeFault::Disallowed(wanted)),
            ));
            assert(reports(message@, EncodeFault::Disallowed(wanted)));
            return Some(Err(message));
        }
        assert(wanted =~= Set::empty()) by {
            assert forall|t: Seq<char>| !wanted.contains(t) by {
                assert(!views(names@).contains(t));
            }
        }
        if last < chars.len() {
            match self.encode_plain(rest.as_str()) {
                Some(mut more) => {
                    out.append(&mut more);
                },
                None => {
                    return None;
                },
            }
        }
        Some(Ok(out))
    }

    fn run_encode(&self, text: &str, allowed_special: &Option<Vec<String>>) -> (r: Option<Result<Vec<usize>, String>>)
        requires
            self.wf(),
        ensures
            match encode_outcome(self@, text@, special_views(*allowed_special)) {
                None => r is None,
                Some(outcome) => r matches Some(result) && encode_result(result, outcome),
            },
            r matches Some(result) ==> literal_result(self@, text@, special_views(*allowed_special), result),
    {
        match allowed_special {
            None => match self.encode_plain(text) {
                Some(ids) => Some(Ok(ids)),
                None => None,
            },
            Some(allowed) => {
                let pattern = pattern_of(allowed);
                proof {
                    lemma_sorted_literals(views(allowed@));
                }
                match find_matches(pattern.as_str(), text) {
                    None => None,
                    Some(found) => self.encode_matches(
                        text,
                        allowed,
                        &found,
                        Ghost(regex_matches(pattern@, text@)->0),
                    ),
                }
            },
        }
    }

    /// Whether `encode` has an answer: the special tokens make a regular expression and every
    /// token of the text can be tokenized.
    pub fn can_encode(&self, text: &str, allowed_special: &Option<Vec<String>>) -> (r: bool)
        requires
            self.wf(),
        ensures
            r == (encode_outcome(self@, text@, special_views(*allowed_special)) is Some),
    {
        self.run_encode(text, allowed_special).is_some()
    }

    /// Encodes `text`. With a list of special tokens, these are looked for and get their ids; other
    /// special tokens of the vocabulary are refused in the text behind the last one found.
    pub fn encode(&mut self, text: String, allowed_special: Option<Vec<String>>) -> (r: Result<Vec<usize>, String>)
        requires
            old(self).wf(),
            encode_outcome(old(self)@, text@, special_views(allowed_special)) is Some,
        ensures
            *final(self) == *old(self),
            encode_result(r, encode_outcome(old(self)@, text@, special_views(allowed_special))->0),
            literal_result(old(self)@, text@, special_views(allowed_special), r),
    {
        match self.run_encode(text.as_str(), &allowed_special) {
            Some(result) => result,
            None => Ok(Vec::new()),
        }
    }

    /// Encodes `text` where that has an answer.
    pub fn try_encode(&mut self, text: String, allowed_special: Option<Vec<String>>) -> (r: Option<
        Result<Vec<usize>, String>,
    >)
        requires
            old(self).wf(),
        ensures
            *final(self) == *old(self),
            match encode_outcome(old(self)@, text@, special_views(allowed_special)) {
                None => r is None,
                Some(outcome) => r matches Some(result) && encode_result(result, outcome),
            },
            r matches Some(result) ==> literal_result(old(self)@, text@, special_views(allowed_special), result),
    {
        if self.can_encode(text.as_str(), &allowed_special) {
            Some(self.encode(text, allowed_special))
        } else {
            None
        }
    }

    /// The text that the ids stand for, or the first id that spells nothing.
    pub fn decode(&self, token_ids: Vec<usize>) -> (r: Result<String, String>)
        ensures
            match lookup_all(token_ids@, self@.vocab) {
                Ok(tokens) => r matches Ok(text) && text@ == decoded(tokens),
                Err(id) => r matches Err(message) && message@ == unknown_id(id),
            },
    {
        let mut out = String::new();
        let mut open: bool = false;
        let ghost mut tokens: Seq<Seq<char>> = Seq::empty();
        let mut i: usize = 0;
        assert(token_ids@.take(0) =~= Seq::empty());
        while i < token_ids.len()
            invariant
                i <= token_ids@.len(),
                lookup_all(token_ids@.take(i as int), self@.vocab) == Ok::<Seq<Seq<char>>, usize>(tokens),
                out@ == decoded(tokens),
                open == (out@.len() > 0 && out@.last() != ' '),
            decreases token_ids@.len() - i,
        {
            assert(token_ids@.take(i + 1).drop_last() =~= token_ids@.take(i as int));
            let token = match self.vocab.get(token_ids[i]) {
                Some(token) => token,
                None => {
                    proof {
                        lemma_lookup_fails(token_ids@, self@.vocab, i + 1);
                    }
                    return Err(unknown_id_message(token_ids[i]));
                },
            };
            proof {
                let next = tokens.push(token@);
                assert(next.drop_last() =~= tokens);
                tokens = next;
            }
            let chars = to_chars(token.as_str());
            let ghost before = out@;
            if same_text(token.as_str(), "\n") {
                if open {
                    out.push(' ');
                    open = false;
                }
            } else if chars.len() > 0 && chars[0] == SPACE_MARK {
                out.push(' ');
                out.append(string_of(&chars, 1, chars.len()).as_str());
                assert(out@ =~= before + seq![' '] + token@.skip(1));
                open = chars.len() > 1 && chars[chars.len() - 1] != ' ';
            } else {
                out.append(token.as_str());
                if chars.len() > 0 {
                    open = chars[chars.len() - 1] != ' ';
                }
            }
            i += 1;
        }
        assert(token_ids@.take(i as int) =~= token_ids@);
        Ok(out)
    }
}

proof fn lemma_push_contains(s: Seq<Seq<char>>, x: Seq<char>, t: Seq<char>)
    ensures
        s.push(x).contains(t) <==> (s.contains(t) || t == x),
{
    let longer = s.push(x);
    if s.contains(t) {
        let k = choose|k: int| 0 <= k < s.len() && s[k] == t;
        assert(longer[k] == t);
    }
    if t == x {
        assert(longer[s.len() as int] == t);
    }
    if longer.contains(t) && t != x {
        let k = choose|k: int| 0 <= k < longer.len() && longer[k] == t;
        assert(s[k] == t);
    }
}

} // verus!
