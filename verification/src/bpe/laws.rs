//! What holds of training, encoding and decoding together.

use vstd::prelude::*;

use crate::bpe::coding::{
    byte_len, decoded, first_literal, ids_of_matches, ids_of_tokens, line_tokens, literal_matches, literal_outcome,
    longest_first,
    lookup_all, merge_of, merged_through, next_literal, only_symbols, placed, plain_ids, plain_tokens, rank_merged,
    rank_merges, rank_merges_with, singles, special_outcome, symbols_after, tokenized, tokens_of_lines, EncodeFault,
};
use crate::bpe::encoding::{lemma_pass_length, lemma_rank_merged};
use crate::bpe::merging::merge_pass;
use crate::bpe::model::{marked, trains, BpeModel, SPACE_MARK};
use crate::bpe::outside::spans_in_order;
use crate::bpe::training::law_fresh_training_is_coherent;
use crate::text::{flatten, join_with, law_split_join, occurs_at, replaced, split_on};

verus! {

/// What the ids spell, one by one.
pub open spec fn spelled(vocab: Map<usize, Seq<char>>, ids: Seq<usize>) -> Seq<Seq<char>> {
    ids.map_values(|id: usize| vocab[id])
}

/// Every id spells something.
pub open spec fn all_known(vocab: Map<usize, Seq<char>>, ids: Seq<usize>) -> bool {
    forall|i: int| 0 <= i < ids.len() ==> vocab.contains_key(#[trigger] ids[i])
}

/// Running pieces together goes piece by piece.
pub proof fn lemma_flatten_concat(a: Seq<Seq<char>>, b: Seq<Seq<char>>)
    ensures
        flatten(a + b) == flatten(a) + flatten(b),
    decreases b.len(),
{
    if b.len() == 0 {
        assert(a + b =~= a);
        assert(flatten(a) + flatten(b) =~= flatten(a));
    } else {
        assert((a + b).drop_last() =~= a + b.drop_last());
        lemma_flatten_concat(a, b.drop_last());
        assert(flatten(a + b) =~= flatten(a) + flatten(b));
    }
}

proof fn lemma_flatten_one(a: Seq<char>)
    ensures
        flatten(seq![a]) == a,
{
    reveal_with_fuel(flatten, 2);
    assert(seq![a].drop_last() =~= Seq::<Seq<char>>::empty());
    assert(flatten(seq![a]) =~= a);
}

/// Merging symbols keeps the text they spell.
proof fn lemma_symbol_pass_keeps_text(s: Seq<Seq<char>>, pair: (Seq<char>, Seq<char>))
    ensures
        flatten(merge_pass(s, only_symbols(pair))) == flatten(s),
    decreases s.len(),
{
    let f = only_symbols(pair);
    if s.len() >= 2 {
        match f(s[0], s[1]) {
            Some(c) => {
                lemma_symbol_pass_keeps_text(s.skip(2), pair);
                lemma_flatten_concat(seq![c], merge_pass(s.skip(2), f));
                lemma_flatten_one(c);
                assert(s =~= seq![s[0]] + (seq![s[1]] + s.skip(2)));
                lemma_flatten_concat(seq![s[0]], seq![s[1]] + s.skip(2));
                lemma_flatten_concat(seq![s[1]], s.skip(2));
                lemma_flatten_one(s[0]);
                lemma_flatten_one(s[1]);
                assert(flatten(s) =~= c + flatten(s.skip(2)));
            },
            None => {
                lemma_symbol_pass_keeps_text(s.skip(1), pair);
                lemma_flatten_concat(seq![s[0]], merge_pass(s.skip(1), f));
                assert(s =~= seq![s[0]] + s.skip(1));
                lemma_flatten_concat(seq![s[0]], s.skip(1));
            },
        }
    }
}

proof fn lemma_symbols_after_keep_text(symbols: Seq<Seq<char>>, chosen: Seq<(Seq<char>, Seq<char>)>, k: nat)
    ensures
        flatten(symbols_after(symbols, chosen, k)) == flatten(symbols),
    decreases k,
{
    if k > 0 {
        lemma_symbols_after_keep_text(symbols, chosen, (k - 1) as nat);
        lemma_symbol_pass_keeps_text(symbols_after(symbols, chosen, (k - 1) as nat), chosen[k - 1]);
    }
}

/// Merging by rank changes how a text is cut, never the text.
pub proof fn law_rank_merging_keeps_text(
    ranks: Map<(Seq<char>, Seq<char>), usize>,
    symbols: Seq<Seq<char>>,
    after: Seq<Seq<char>>,
)
    requires
        rank_merges(ranks, symbols, after),
    ensures
        flatten(after) == flatten(symbols),
{
    let chosen = choose|chosen: Seq<(Seq<char>, Seq<char>)>| rank_merges_with(ranks, symbols, after, chosen);
    lemma_symbols_after_keep_text(symbols, chosen, chosen.len());
}

/// A pass of the learned merges changes how a text is cut into ids, never the text.
pub proof fn law_merging_keeps_text(m: BpeModel, ids: Seq<usize>)
    requires
        m.merges_spell(),
        all_known(m.vocab, ids),
    ensures
        all_known(m.vocab, merge_pass(ids, merge_of(m.merges))),
        flatten(spelled(m.vocab, merge_pass(ids, merge_of(m.merges)))) == flatten(spelled(m.vocab, ids)),
    decreases ids.len(),
{
    let f = merge_of(m.merges);
    if ids.len() >= 2 {
        match f(ids[0], ids[1]) {
            Some(c) => {
                let rest = ids.skip(2);
                assert forall|i: int| 0 <= i < rest.len() implies m.vocab.contains_key(#[trigger] rest[i]) by {
                    assert(rest[i] == ids[i + 2]);
                }
                law_merging_keeps_text(m, rest);
                let tail = merge_pass(rest, f);
                assert(m.merges.contains_key((ids[0], ids[1])));
                assert(spelled(m.vocab, seq![c] + tail) =~= seq![m.vocab[c]] + spelled(m.vocab, tail));
                lemma_flatten_concat(seq![m.vocab[c]], spelled(m.vocab, tail));
                lemma_flatten_one(m.vocab[c]);
                let a = m.vocab[ids[0]];
                let b = m.vocab[ids[1]];
                assert(spelled(m.vocab, ids) =~= seq![a] + (seq![b] + spelled(m.vocab, rest)));
                lemma_flatten_concat(seq![a], seq![b] + spelled(m.vocab, rest));
                lemma_flatten_concat(seq![b], spelled(m.vocab, rest));
                lemma_flatten_one(a);
                lemma_flatten_one(b);
                assert(flatten(spelled(m.vocab, ids)) =~= m.vocab[c] + flatten(spelled(m.vocab, rest)));
                assert forall|i: int| 0 <= i < (seq![c] + tail).len() implies m.vocab.contains_key(
                    #[trigger] (seq![c] + tail)[i],
                ) by {
                    if i > 0 {
                        assert((seq![c] + tail)[i] == tail[i - 1]);
                    }
                }
            },
            None => {
                let rest = ids.skip(1);
                assert forall|i: int| 0 <= i < rest.len() implies m.vocab.contains_key(#[trigger] rest[i]) by {
                    assert(rest[i] == ids[i + 1]);
                }
                law_merging_keeps_text(m, rest);
                let tail = merge_pass(rest, f);
                let a = m.vocab[ids[0]];
                assert(spelled(m.vocab, seq![ids[0]] + tail) =~= seq![a] + spelled(m.vocab, tail));
                assert(spelled(m.vocab, ids) =~= seq![a] + spelled(m.vocab, rest));
                lemma_flatten_concat(seq![a], spelled(m.vocab, tail));
                lemma_flatten_concat(seq![a], spelled(m.vocab, rest));
                assert forall|i: int| 0 <= i < (seq![ids[0]] + tail).len() implies m.vocab.contains_key(
                    #[trigger] (seq![ids[0]] + tail)[i],
                ) by {
                    if i > 0 {
                        assert((seq![ids[0]] + tail)[i] == tail[i - 1]);
                    }
                }
            },
        }
    }
}

/// However many passes of the learned merges run, the text stays.
pub proof fn law_merging_through_keeps_text(m: BpeModel, ids: Seq<usize>)
    requires
        m.merges_spell(),
        all_known(m.vocab, ids),
    ensures
        all_known(m.vocab, merged_through(ids, merge_of(m.merges))),
        flatten(spelled(m.vocab, merged_through(ids, merge_of(m.merges)))) == flatten(spelled(m.vocab, ids)),
    decreases ids.len(),
{
    let next = merge_pass(ids, merge_of(m.merges));
    if next.len() < ids.len() {
        law_merging_keeps_text(m, ids);
        law_merging_through_keeps_text(m, next);
    }
}

/// Merging stops only where no two neighbours have a merge.
pub proof fn law_merging_is_complete<T>(s: Seq<T>, f: spec_fn(T, T) -> Option<T>)
    ensures
        ({
            let after = merged_through(s, f);
            forall|i: int| 0 <= i && i + 1 < after.len() ==> #[trigger] f(after[i], after[i + 1]) is None
        }),
    decreases s.len(),
{
    let next = merge_pass(s, f);
    if next.len() < s.len() {
        law_merging_is_complete(next, f);
    } else {
        lemma_pass_length(s, f);
    }
}

/// In a coherent model, the ids of tokens spell these tokens.
proof fn lemma_lookup_spells(m: BpeModel, tokens: Seq<Seq<char>>)
    requires
        m.coherent(),
    ensures
        lookup_all(tokens, m.inverse) matches Ok(ids) ==> all_known(m.vocab, ids) && spelled(m.vocab, ids) == tokens,
    decreases tokens.len(),
{
    if tokens.len() > 0 {
        lemma_lookup_spells(m, tokens.drop_last());
        match lookup_all(tokens.drop_last(), m.inverse) {
            Ok(before) => {
                if m.inverse.contains_key(tokens.last()) {
                    let ids = before.push(m.inverse[tokens.last()]);
                    assert(spelled(m.vocab, ids) =~= spelled(m.vocab, before).push(tokens.last()));
                    assert(tokens =~= tokens.drop_last().push(tokens.last()));
                }
            },
            Err(_) => {},
        }
    } else {
        assert(spelled(m.vocab, Seq::empty()) =~= tokens);
    }
}

/// Looking up what known ids spell succeeds.
proof fn lemma_known_lookup(vocab: Map<usize, Seq<char>>, ids: Seq<usize>)
    requires
        all_known(vocab, ids),
    ensures
        lookup_all(ids, vocab) == Ok::<Seq<Seq<char>>, usize>(spelled(vocab, ids)),
    decreases ids.len(),
{
    if ids.len() > 0 {
        lemma_known_lookup(vocab, ids.drop_last());
        assert(vocab.contains_key(ids[ids.len() - 1]));
        assert(spelled(vocab, ids) =~= spelled(vocab, ids.drop_last()).push(vocab[ids.last()]));
    } else {
        assert(spelled(vocab, ids) =~= Seq::<Seq<char>>::empty());
    }
}

proof fn lemma_flatten_singles(text: Seq<char>)
    ensures
        flatten(singles(text)) == text,
    decreases text.len(),
{
    if text.len() > 0 {
        assert(singles(text).drop_last() =~= singles(text.drop_last()));
        lemma_flatten_singles(text.drop_last());
        assert(flatten(singles(text)) =~= text);
    } else {
        assert(flatten(singles(text)) =~= text);
    }
}

/// In a coherent model, the ids of a token spell that token.
pub proof fn law_tokenizing_keeps_text(m: BpeModel, token: Seq<char>)
    requires
        m.coherent(),
        m.merges_spell(),
    ensures
        tokenized(m, token) matches Ok(ids) ==> all_known(m.vocab, ids) && flatten(spelled(m.vocab, ids)) == token,
{
    lemma_lookup_spells(m, singles(token));
    lemma_flatten_singles(token);
    match lookup_all(singles(token), m.inverse) {
        Ok(ids) => {
            law_merging_through_keeps_text(m, ids);
            lemma_known_lookup(m.vocab, ids);
            let symbols = spelled(m.vocab, ids);
            lemma_rank_merged(m.ranks, symbols);
            law_rank_merging_keeps_text(m.ranks, symbols, rank_merged(m.ranks, symbols));
            lemma_lookup_spells(m, rank_merged(m.ranks, symbols));
        },
        Err(_) => {},
    }
}

/// A token that decoding takes over as it stands, but for a space mark in front.
pub open spec fn clean(token: Seq<char>) -> bool {
    &&& !token.contains('\n')
    &&& forall|i: int| 0 < i < token.len() ==> #[trigger] token[i] != SPACE_MARK
}

/// Every token is clean.
pub open spec fn all_clean(tokens: Seq<Seq<char>>) -> bool {
    forall|i: int| 0 <= i < tokens.len() ==> clean(#[trigger] tokens[i])
}

proof fn lemma_replaced_concat(a: Seq<char>, b: Seq<char>)
    ensures
        replaced(a + b, SPACE_MARK, ' ') == replaced(a, SPACE_MARK, ' ') + replaced(b, SPACE_MARK, ' '),
{
    assert(replaced(a + b, SPACE_MARK, ' ') =~= replaced(a, SPACE_MARK, ' ') + replaced(b, SPACE_MARK, ' '));
}

/// Decoding clean tokens gives their text with the space marks changed to spaces.
proof fn lemma_decoded_clean(tokens: Seq<Seq<char>>)
    requires
        all_clean(tokens),
    ensures
        decoded(tokens) == replaced(flatten(tokens), SPACE_MARK, ' '),
    decreases tokens.len(),
{
    if tokens.len() > 0 {
        let init = tokens.drop_last();
        let last = tokens.last();
        assert forall|i: int| 0 <= i < init.len() implies clean(#[trigger] init[i]) by {
            assert(init[i] == tokens[i]);
        }
        lemma_decoded_clean(init);
        assert(clean(tokens[tokens.len() - 1]));
        lemma_replaced_concat(flatten(init), last);
        assert(last != "\n"@) by {
            reveal_strlit("\n");
            if last == "\n"@ {
                assert(last[0] == '\n');
            }
        }
        if last.len() > 0 && last[0] == SPACE_MARK {
            assert(seq![' '] + last.skip(1) =~= replaced(last, SPACE_MARK, ' '));
            assert(decoded(tokens) =~= decoded(init) + (seq![' '] + last.skip(1)));
        } else {
            assert(last =~= replaced(last, SPACE_MARK, ' '));
        }
    } else {
        assert(decoded(tokens) =~= replaced(flatten(tokens), SPACE_MARK, ' '));
    }
}

/// The pieces of a clean token are clean.
proof fn lemma_pieces_clean(pieces: Seq<Seq<char>>)
    requires
        clean(flatten(pieces)),
    ensures
        all_clean(pieces),
    decreases pieces.len(),
{
    if pieces.len() > 0 {
        let init = pieces.drop_last();
        let last = pieces.last();
        let all = flatten(pieces);
        let head = flatten(init);
        assert(all =~= head + last);
        assert(clean(head)) by {
            if head.contains('\n') {
                let k = choose|k: int| 0 <= k < head.len() && head[k] == '\n';
                assert(all[k] == '\n');
            }
            assert forall|i: int| 0 < i < head.len() implies #[trigger] head[i] != SPACE_MARK by {
                assert(all[i] == head[i]);
            }
        }
        lemma_pieces_clean(init);
        assert(clean(last)) by {
            if last.contains('\n') {
                let k = choose|k: int| 0 <= k < last.len() && last[k] == '\n';
                assert(all[head.len() + k] == '\n');
            }
            assert forall|i: int| 0 < i < last.len() implies #[trigger] last[i] != SPACE_MARK by {
                assert(all[head.len() + i] == last[i]);
            }
        }
        assert forall|i: int| 0 <= i < pieces.len() implies clean(#[trigger] pieces[i]) by {
            if i < init.len() {
                assert(init[i] == pieces[i]);
            }
        }
    }
}

/// A text that holds neither line feeds nor space marks.
pub open spec fn unmarked(text: Seq<char>) -> bool {
    !text.contains('\n') && !text.contains(SPACE_MARK)
}

/// What the ids `ids` must be for the text `text`: they spell clean tokens that decode to it.
spec fn stands_for(vocab: Map<usize, Seq<char>>, ids: Seq<usize>, text: Seq<char>) -> bool {
    &&& all_known(vocab, ids)
    &&& all_clean(spelled(vocab, ids))
    &&& replaced(flatten(spelled(vocab, ids)), SPACE_MARK, ' ') == text
}

proof fn lemma_stands_for_concat(vocab: Map<usize, Seq<char>>, a: Seq<usize>, s: Seq<char>, b: Seq<usize>, t: Seq<char>)
    requires
        stands_for(vocab, a, s),
        stands_for(vocab, b, t),
    ensures
        stands_for(vocab, a + b, s + t),
{
    assert(spelled(vocab, a + b) =~= spelled(vocab, a) + spelled(vocab, b));
    lemma_flatten_concat(spelled(vocab, a), spelled(vocab, b));
    lemma_replaced_concat(flatten(spelled(vocab, a)), flatten(spelled(vocab, b)));
    assert forall|i: int| 0 <= i < (a + b).len() implies vocab.contains_key(#[trigger] (a + b)[i]) && clean(
        spelled(vocab, a + b)[i],
    ) by {
        if i < a.len() {
            assert((a + b)[i] == a[i]);
            assert(clean(spelled(vocab, a)[i]));
        } else {
            assert((a + b)[i] == b[i - a.len()]);
            assert(clean(spelled(vocab, b)[i - a.len()]));
        }
    }
}

/// The tokens of a list of words whose ids are looked up one by one stand for the same text.
proof fn lemma_clean_tokens_stand(m: BpeModel, tokens: Seq<Seq<char>>)
    requires
        m.coherent(),
        m.merges_spell(),
        all_clean(tokens),
    ensures
        ids_of_tokens(m, tokens) matches Some(ids) ==> stands_for(
            m.vocab,
            ids,
            replaced(flatten(tokens), SPACE_MARK, ' '),
        ),
    decreases tokens.len(),
{
    if tokens.len() > 0 {
        let init = tokens.drop_last();
        let last = tokens.last();
        assert forall|i: int| 0 <= i < init.len() implies clean(#[trigger] init[i]) by {
            assert(init[i] == tokens[i]);
        }
        lemma_clean_tokens_stand(m, init);
        lemma_replaced_concat(flatten(init), last);
        assert(clean(tokens[tokens.len() - 1]));
        match ids_of_tokens(m, init) {
            Some(ids) => {
                if m.inverse.contains_key(last) {
                    let id = m.inverse[last];
                    assert(ids.push(id) =~= ids + seq![id]);
                    assert(spelled(m.vocab, seq![id]) =~= seq![last]);
                    lemma_flatten_one(last);
                    lemma_stands_for_concat(
                        m.vocab,
                        ids,
                        replaced(flatten(init), SPACE_MARK, ' '),
                        seq![id],
                        replaced(last, SPACE_MARK, ' '),
                    );
                } else {
                    law_tokenizing_keeps_text(m, last);
                    match tokenized(m, last) {
                        Ok(more) => {
                            lemma_pieces_clean(spelled(m.vocab, more));
                            lemma_stands_for_concat(
                                m.vocab,
                                ids,
                                replaced(flatten(init), SPACE_MARK, ' '),
                                more,
                                replaced(last, SPACE_MARK, ' '),
                            );
                        },
                        Err(_) => {},
                    }
                }
            },
            None => {},
        }
    } else {
        assert(spelled(m.vocab, Seq::empty()) =~= Seq::<Seq<char>>::empty());
    }
}

proof fn lemma_split_without(text: Seq<char>, sep: char)
    requires
        !text.contains(sep),
    ensures
        split_on(text, sep) == seq![text],
    decreases text.len(),
{
    if text.len() > 0 {
        let init = text.drop_last();
        assert(!init.contains(sep)) by {
            if init.contains(sep) {
                let k = choose|k: int| 0 <= k < init.len() && init[k] == sep;
                assert(text[k] == sep);
            }
        }
        lemma_split_without(init, sep);
        assert(text[text.len() - 1] != sep) by {
            if text[text.len() - 1] == sep {
                assert(text.contains(sep));
            }
        }
        assert(init.push(text.last()) =~= text);
        assert(split_on(text, sep) =~= seq![text]);
    } else {
        assert(text =~= Seq::<char>::empty());
    }
}

/// The words of a line, marked and run together, are the line with its spaces marked.
proof fn lemma_marked_words(line: Seq<char>, n: nat)
    requires
        !line.contains(SPACE_MARK),
        n <= split_on(line, ' ').len(),
    ensures
        replaced(flatten(line_tokens(line, true).take(n as int)), SPACE_MARK, ' ') == join_with(
            split_on(line, ' ').take(n as int),
            seq![' '],
        ),
    decreases n,
{
    let words = split_on(line, ' ');
    let tokens = line_tokens(line, true);
    if n == 0 {
        assert(tokens.take(0) =~= Seq::<Seq<char>>::empty());
        assert(words.take(0) =~= Seq::<Seq<char>>::empty());
        assert(replaced(Seq::empty(), SPACE_MARK, ' ') =~= Seq::<char>::empty());
    } else {
        lemma_marked_words(line, (n - 1) as nat);
        let head = tokens.take(n - 1);
        assert(tokens.take(n as int).drop_last() =~= head);
        assert(words.take(n as int).drop_last() =~= words.take(n - 1));
        let last = tokens[n - 1];
        let word = words[n - 1];
        lemma_words_from_line(line, ' ', n - 1);
        assert(replaced(word, SPACE_MARK, ' ') =~= word) by {
            assert forall|k: int| 0 <= k < word.len() implies word[k] != SPACE_MARK by {
                if word[k] == SPACE_MARK {
                    assert(word.contains(SPACE_MARK));
                }
            }
        }
        lemma_replaced_concat(flatten(head), last);
        if n > 1 {
            lemma_replaced_concat(seq![SPACE_MARK], word);
            assert(replaced(seq![SPACE_MARK], SPACE_MARK, ' ') =~= seq![' ']);
            assert(join_with(words.take(n as int), seq![' ']) =~= join_with(words.take(n - 1), seq![' ']) + (seq![' ']
                + word));
        } else {
            assert(head =~= Seq::<Seq<char>>::empty());
            assert(words.take(n as int)[0] == word);
            assert(replaced(flatten(head), SPACE_MARK, ' ') =~= Seq::<char>::empty());
            assert(join_with(words.take(n as int), seq![' ']) =~= word);
        }
    }
}

/// A character of a piece is a character of the text.
proof fn lemma_words_from_line(line: Seq<char>, sep: char, at: int)
    requires
        0 <= at < split_on(line, sep).len(),
    ensures
        forall|c: char| split_on(line, sep)[at].contains(c) ==> line.contains(c),
    decreases line.len(),
{
    if line.len() > 0 {
        let init = line.drop_last();
        let before = split_on(init, sep);
        law_split_join(init, sep);
        let piece = split_on(line, sep)[at];
        assert forall|c: char| piece.contains(c) implies line.contains(c) by {
            let k = choose|k: int| 0 <= k < piece.len() && piece[k] == c;
            if line.last() == sep {
                if at < before.len() {
                    lemma_words_from_line(init, sep, at);
                    assert(before[at].contains(c));
                    assert(init.contains(c));
                    let j = choose|j: int| 0 <= j < init.len() && init[j] == c;
                    assert(line[j] == c);
                }
            } else if at < before.len() - 1 {
                lemma_words_from_line(init, sep, at);
                assert(before[at].contains(c));
                    assert(init.contains(c));
                let j = choose|j: int| 0 <= j < init.len() && init[j] == c;
                assert(line[j] == c);
            } else {
                if k < before[at].len() {
                    lemma_words_from_line(init, sep, at);
                    assert(before[at][k] == c);
                    assert(before[at].contains(c));
                    assert(init.contains(c));
                    let j = choose|j: int| 0 <= j < init.len() && init[j] == c;
                    assert(line[j] == c);
                } else {
                    assert(line[line.len() - 1] == c);
                }
            }
        }
    }
}

/// Plain text without line feeds and space marks is cut into clean tokens that stand for it.
proof fn lemma_plain_tokens_clean(text: Seq<char>)
    requires
        unmarked(text),
    ensures
        all_clean(plain_tokens(text)),
        replaced(flatten(plain_tokens(text)), SPACE_MARK, ' ') == text,
{
    lemma_split_without(text, '\n');
    let lines = seq![text];
    let tokens = line_tokens(text, true);
    let words = split_on(text, ' ');
    assert(tokens_of_lines(lines, 0) =~= Seq::<Seq<char>>::empty());
    assert(plain_tokens(text) =~= tokens) by {
        reveal_with_fuel(tokens_of_lines, 2);
        assert(tokens_of_lines(lines, 1) =~= Seq::<Seq<char>>::empty() + tokens);
    }
    lemma_marked_words(text, words.len());
    assert(tokens.take(words.len() as int) =~= tokens);
    assert(words.take(words.len() as int) =~= words);
    law_split_join(text, ' ');
    assert forall|j: int| 0 <= j < tokens.len() implies clean(#[trigger] tokens[j]) by {
        lemma_words_from_line(text, ' ', j);
        let word = words[j];
        let token = tokens[j];
        if token.contains('\n') {
            let k = choose|k: int| 0 <= k < token.len() && token[k] == '\n';
            let at = if token.len() == word.len() {
                k
            } else {
                k - 1
            };
            assert(word[at] == '\n');
            assert(word.contains('\n'));
        }
        assert forall|i: int| 0 < i < token.len() implies #[trigger] token[i] != SPACE_MARK by {
            if token[i] == SPACE_MARK {
                let at = if token.len() == word.len() {
                    i
                } else {
                    i - 1
                };
                assert(word[at] == SPACE_MARK);
                assert(word.contains(SPACE_MARK));
            }
        }
    }
}

/// Encoding plain text and decoding the ids gives the text back, if the model is coherent and the
/// text holds neither line feeds nor space marks.
pub proof fn law_plain_round_trip(m: BpeModel, text: Seq<char>)
    requires
        m.coherent(),
        m.merges_spell(),
        unmarked(text),
        plain_ids(m, text) is Some,
    ensures
        lookup_all(plain_ids(m, text)->0, m.vocab) matches Ok(tokens) && decoded(tokens) == text,
{
    lemma_plain_tokens_clean(text);
    lemma_clean_tokens_stand(m, plain_tokens(text));
    let ids = plain_ids(m, text)->0;
    lemma_known_lookup(m.vocab, ids);
    lemma_decoded_clean(spelled(m.vocab, ids));
}

proof fn lemma_unmarked_part(text: Seq<char>, from: int, to: int)
    requires
        unmarked(text),
        0 <= from <= to <= text.len(),
    ensures
        unmarked(text.subrange(from, to)),
{
    let part = text.subrange(from, to);
    if part.contains('\n') {
        let k = choose|k: int| 0 <= k < part.len() && part[k] == '\n';
        assert(text[from + k] == '\n');
    }
    if part.contains(SPACE_MARK) {
        let k = choose|k: int| 0 <= k < part.len() && part[k] == SPACE_MARK;
        assert(text[from + k] == SPACE_MARK);
    }
}

proof fn lemma_plain_stands(m: BpeModel, text: Seq<char>)
    requires
        m.coherent(),
        m.merges_spell(),
        unmarked(text),
    ensures
        plain_ids(m, text) matches Some(ids) ==> stands_for(m.vocab, ids, text),
{
    lemma_plain_tokens_clean(text);
    lemma_clean_tokens_stand(m, plain_tokens(text));
}

proof fn lemma_matches_stand(m: BpeModel, text: Seq<char>, spans: Seq<(nat, nat)>, n: nat)
    requires
        m.coherent(),
        m.merges_spell(),
        unmarked(text),
        spans_in_order(text, spans),
        n <= spans.len(),
    ensures
        ids_of_matches(m, text, spans, n) matches Some(Ok((ids, last))) ==> {
            &&& last == (if n == 0 {
                0
            } else {
                spans[n - 1].1
            })
            &&& stands_for(m.vocab, ids, text.take(last as int))
        },
    decreases n,
{
    if n > 0 {
        lemma_matches_stand(m, text, spans, (n - 1) as nat);
        match ids_of_matches(m, text, spans, (n - 1) as nat) {
            Some(Ok((ids, last))) => {
                let (start, end) = spans[n - 1];
                if n > 1 {
                    assert(spans[n - 2].1 <= spans[n - 1].0);
                }
                let prefix = text.subrange(last as int, start as int);
                let special = text.subrange(start as int, end as int);
                lemma_unmarked_part(text, last as int, start as int);
                lemma_unmarked_part(text, start as int, end as int);
                lemma_plain_stands(m, prefix);
                let known = if prefix.len() == 0 {
                    Some(Seq::<usize>::empty())
                } else {
                    plain_ids(m, prefix)
                };
                if known is Some && m.inverse.contains_key(special) {
                    let more = known->0;
                    let id = m.inverse[special];
                    if prefix.len() == 0 {
                        assert(spelled(m.vocab, more) =~= Seq::<Seq<char>>::empty());
                        assert(replaced(flatten(spelled(m.vocab, more)), SPACE_MARK, ' ') =~= prefix);
                    }
                    lemma_stands_for_concat(m.vocab, ids, text.take(last as int), more, prefix);
                    assert(spelled(m.vocab, seq![id]) =~= seq![special]);
                    lemma_flatten_one(special);
                    assert(replaced(special, SPACE_MARK, ' ') =~= special) by {
                        assert forall|k: int| 0 <= k < special.len() implies special[k] != SPACE_MARK by {
                            if special[k] == SPACE_MARK {
                                assert(special.contains(SPACE_MARK));
                            }
                        }
                    }
                    assert(clean(special)) by {
                        assert forall|k: int| 0 < k < special.len() implies #[trigger] special[k] != SPACE_MARK by {
                            if special[k] == SPACE_MARK {
                                assert(special.contains(SPACE_MARK));
                            }
                        }
                    }
                    lemma_stands_for_concat(m.vocab, ids + more, text.take(last as int) + prefix, seq![id], special);
                    assert((ids + more).push(id) =~= ids + more + seq![id]);
                    assert(text.take(last as int) + prefix + special =~= text.take(end as int));
                }
            },
            _ => {},
        }
    } else {
        assert(spelled(m.vocab, Seq::empty()) =~= Seq::<Seq<char>>::empty());
        assert(replaced(Seq::empty(), SPACE_MARK, ' ') =~= text.take(0));
    }
}

/// Encoding with special tokens and decoding the ids gives the text back, if the model is coherent
/// and the text holds neither line feeds nor space marks.
pub proof fn law_special_round_trip(m: BpeModel, text: Seq<char>, allowed: Seq<Seq<char>>, spans: Seq<(nat, nat)>)
    requires
        m.coherent(),
        m.merges_spell(),
        unmarked(text),
        spans_in_order(text, spans),
        special_outcome(m, text, allowed, spans) matches Some(Ok(_)),
    ensures
        special_outcome(m, text, allowed, spans) matches Some(Ok(ids)) && lookup_all(ids, m.vocab) matches Ok(tokens)
            && decoded(tokens) == text,
{
    lemma_matches_stand(m, text, spans, spans.len());
    match ids_of_matches(m, text, spans, spans.len()) {
        Some(Ok((ids, last))) => {
            if spans.len() > 0 {
                assert(spans[spans.len() - 1].1 <= text.len());
            }
            let rest = text.subrange(last as int, text.len() as int);
            lemma_unmarked_part(text, last as int, text.len() as int);
            lemma_plain_stands(m, rest);
            if rest.len() == 0 {
                assert(text.take(last as int) =~= text);
                lemma_known_lookup(m.vocab, ids);
                lemma_decoded_clean(spelled(m.vocab, ids));
            } else {
                let more = plain_ids(m, rest)->0;
                lemma_stands_for_concat(m.vocab, ids, text.take(last as int), more, rest);
                assert(text.take(last as int) + rest =~= text);
                lemma_known_lookup(m.vocab, ids + more);
                lemma_decoded_clean(spelled(m.vocab, ids + more));
            }
        },
        _ => {},
    }
}

/// Whether a list goes from long tokens to short ones.
pub open spec fn by_length(list: Seq<Seq<char>>) -> bool {
    forall|i: int, j: int| 0 <= i <= j < list.len() ==> byte_len(list[i]) >= byte_len(list[j])
}

proof fn lemma_placed(list: Seq<Seq<char>>, token: Seq<char>)
    requires
        by_length(list),
    ensures
        by_length(placed(list, token)),
        placed(list, token).to_multiset() == list.to_multiset().insert(token),
        forall|t: Seq<char>| placed(list, token).contains(t) ==> list.contains(t) || t == token,
    decreases list.len(),
{
    broadcast use vstd::seq_lib::group_to_multiset_ensures;

    if list.len() > 0 && byte_len(list.last()) < byte_len(token) {
        let init = list.drop_last();
        lemma_placed(init, token);
        let out = placed(list, token);
        let head = placed(init, token);
        assert(list =~= init.push(list.last()));
        assert forall|i: int, j: int| 0 <= i <= j < out.len() implies byte_len(out[i]) >= byte_len(out[j]) by {
            if j == out.len() - 1 && i < j {
                assert(head.contains(head[i]));
                if init.contains(head[i]) {
                    let k = choose|k: int| 0 <= k < init.len() && init[k] == head[i];
                    assert(list[k] == head[i]);
                    assert(byte_len(list[k]) >= byte_len(list[list.len() - 1]));
                }
            } else if j < out.len() - 1 {
                assert(out[i] == head[i] && out[j] == head[j]);
            }
        }
        assert forall|t: Seq<char>| out.contains(t) implies list.contains(t) || t == token by {
            let k = choose|k: int| 0 <= k < out.len() && out[k] == t;
            if k < head.len() {
                assert(head[k] == t);
                assert(head.contains(t));
                if t != token {
                    assert(init.contains(t));
                    let j = choose|j: int| 0 <= j < init.len() && init[j] == t;
                    assert(list[j] == t);
                }
            } else {
                assert(out[k] == list.last());
                assert(list[list.len() - 1] == t);
            }
        }
        assert(out.to_multiset() =~= list.to_multiset().insert(token));
    } else {
        let out = list.push(token);
        assert forall|i: int, j: int| 0 <= i <= j < out.len() implies byte_len(out[i]) >= byte_len(out[j]) by {
            if j == list.len() && i < j {
                assert(byte_len(list[i]) >= byte_len(list[list.len() - 1]));
            }
        }
        assert forall|t: Seq<char>| out.contains(t) implies list.contains(t) || t == token by {
            let k = choose|k: int| 0 <= k < out.len() && out[k] == t;
            if k < list.len() {
                assert(list[k] == t);
            }
        }
    }
}

/// Sorting by length keeps the tokens and puts longer ones in front of shorter ones.
pub proof fn law_longest_first(list: Seq<Seq<char>>)
    ensures
        by_length(longest_first(list)),
        longest_first(list).to_multiset() == list.to_multiset(),
    decreases list.len(),
{
    broadcast use vstd::seq_lib::group_to_multiset_ensures;

    if list.len() > 0 {
        law_longest_first(list.drop_last());
        lemma_placed(longest_first(list.drop_last()), list.last());
        assert(list =~= list.drop_last().push(list.last()));
    }
}

/// The literal that a search settles on at a place is the first that occurs there.
proof fn lemma_first_literal(literals: Seq<Seq<char>>, text: Seq<char>, at: nat, k: nat) -> (n: nat)
    requires
        first_literal(literals, text, at, k) is Some,
    ensures
        k <= n < literals.len(),
        occurs_at(text, literals[n as int], at as int),
        first_literal(literals, text, at, k) == Some(at + literals[n as int].len()),
        forall|j: int| k <= j < n ==> !occurs_at(text, #[trigger] literals[j], at as int),
    decreases literals.len() - k,
{
    if occurs_at(text, literals[k as int], at as int) {
        k
    } else {
        let n = lemma_first_literal(literals, text, at, k + 1);
        n
    }
}

proof fn lemma_next_literal(literals: Seq<Seq<char>>, text: Seq<char>, at: nat)
    ensures
        next_literal(literals, text, at) matches Some((start, end)) ==> at <= start && first_literal(
            literals,
            text,
            start,
            0,
        ) == Some(end),
    decreases text.len() - at,
{
    if first_literal(literals, text, at, 0) is None && at < text.len() {
        lemma_next_literal(literals, text, at + 1);
    }
}

proof fn lemma_match_is_first(literals: Seq<Seq<char>>, text: Seq<char>, at: nat, i: int)
    requires
        0 <= i < literal_matches(literals, text, at).len(),
    ensures
        first_literal(literals, text, literal_matches(literals, text, at)[i].0, 0) == Some(
            literal_matches(literals, text, at)[i].1,
        ),
    decreases text.len() - at,
{
    lemma_next_literal(literals, text, at);
    match next_literal(literals, text, at) {
        Some((start, end)) => {
            let found = literal_matches(literals, text, at);
            if i > 0 {
                assert(found[i] == literal_matches(literals, text, end)[i - 1]);
                lemma_match_is_first(literals, text, end, i - 1);
            }
        },
        None => {},
    }
}

/// Where several special tokens occur at one place, the match is a longest of them: every match of
/// the special tokens in a text is one of them, and none that is longer occurs at its place.
pub proof fn law_longest_special_wins(allowed: Seq<Seq<char>>, text: Seq<char>, i: int)
    requires
        0 <= i < literal_matches(longest_first(allowed), text, 0).len(),
    ensures
        ({
            let (start, end) = literal_matches(longest_first(allowed), text, 0)[i];
            &&& start <= end <= text.len()
            &&& allowed.contains(text.subrange(start as int, end as int))
            &&& forall|t: Seq<char>| #[trigger]
                allowed.contains(t) && occurs_at(text, t, start as int) ==> byte_len(t) <= byte_len(
                    text.subrange(start as int, end as int),
                )
        }),
{
    broadcast use vstd::seq_lib::group_to_multiset_ensures;

    let sorted = longest_first(allowed);
    law_longest_first(allowed);
    lemma_match_is_first(sorted, text, 0, i);
    let (start, end) = literal_matches(sorted, text, 0)[i];
    let n = lemma_first_literal(sorted, text, start, 0);
    let special = text.subrange(start as int, end as int);
    assert(special == sorted[n as int]);
    assert(sorted.contains(special));
    assert(allowed.contains(special)) by {
        assert(sorted.to_multiset().count(special) > 0);
    }
    assert forall|t: Seq<char>| #[trigger] allowed.contains(t) && occurs_at(text, t, start as int) implies byte_len(t)
        <= byte_len(special) by {
        assert(allowed.to_multiset().count(t) > 0);
        assert(sorted.contains(t));
        let j = choose|j: int| 0 <= j < sorted.len() && sorted[j] == t;
        if j < n {
            assert(!occurs_at(text, sorted[j], start as int));
        }
    }
}

/// Every character of a token has an id.
pub open spec fn letters_have_ids(m: BpeModel, token: Seq<char>) -> bool {
    forall|k: int| 0 <= k < token.len() ==> m.inverse.contains_key(seq![#[trigger] token[k]])
}

proof fn lemma_letters_look_up(m: BpeModel, token: Seq<char>)
    requires
        letters_have_ids(m, token),
    ensures
        lookup_all(singles(token), m.inverse) is Ok,
    decreases token.len(),
{
    if token.len() > 0 {
        let init = token.drop_last();
        assert(singles(token).drop_last() =~= singles(init));
        assert forall|k: int| 0 <= k < init.len() implies m.inverse.contains_key(seq![#[trigger] init[k]]) by {
            assert(init[k] == token[k]);
        }
        lemma_letters_look_up(m, init);
        assert(m.inverse.contains_key(seq![token[token.len() - 1]]));
        assert(singles(token).last() == seq![token.last()]);
    }
}

proof fn lemma_lettered_tokens(m: BpeModel, tokens: Seq<Seq<char>>)
    requires
        m.ranks == Map::<(Seq<char>, Seq<char>), usize>::empty(),
        forall|i: int| 0 <= i < tokens.len() ==> letters_have_ids(m, #[trigger] tokens[i]),
    ensures
        ids_of_tokens(m, tokens) is Some,
    decreases tokens.len(),
{
    if tokens.len() > 0 {
        let init = tokens.drop_last();
        assert forall|i: int| 0 <= i < init.len() implies letters_have_ids(m, #[trigger] init[i]) by {
            assert(init[i] == tokens[i]);
        }
        lemma_lettered_tokens(m, init);
        assert(letters_have_ids(m, tokens[tokens.len() - 1]));
        lemma_letters_look_up(m, tokens.last());
    }
}

proof fn lemma_lettered_lines(m: BpeModel, text: Seq<char>, n: nat)
    requires
        letters_have_ids(m, text),
        m.inverse.contains_key(seq![SPACE_MARK]),
        m.inverse.contains_key(seq!['\n']),
        n <= split_on(text, '\n').len(),
    ensures
        forall|i: int|
            0 <= i < tokens_of_lines(split_on(text, '\n'), n).len() ==> letters_have_ids(
                m,
                #[trigger] tokens_of_lines(split_on(text, '\n'), n)[i],
            ),
    decreases n,
{
    let lines = split_on(text, '\n');
    if n > 0 {
        lemma_lettered_lines(m, text, (n - 1) as nat);
        let before = tokens_of_lines(lines, (n - 1) as nat);
        let parted = if n == 1 {
            before
        } else {
            before.push("\n"@)
        };
        let line = lines[n - 1];
        let words = split_on(line, ' ');
        let more = line_tokens(line, n == 1);
        let all = tokens_of_lines(lines, n);
        reveal_strlit("\n");
        assert("\n"@ =~= seq!['\n']);
        lemma_words_from_line(text, '\n', n - 1);
        assert forall|i: int| 0 <= i < all.len() implies letters_have_ids(m, #[trigger] all[i]) by {
            if i < before.len() {
                assert(all[i] == before[i]);
            } else if i < parted.len() {
                assert(all[i] == seq!['\n']);
            } else {
                let j = i - parted.len();
                let token = more[j];
                assert(all[i] == token);
                lemma_words_from_line(line, ' ', j);
                assert forall|k: int| 0 <= k < token.len() implies m.inverse.contains_key(seq![#[trigger] token[k]]) by {
                    if token.len() == words[j].len() || k > 0 {
                        let at = if token.len() == words[j].len() {
                            k
                        } else {
                            k - 1
                        };
                        assert(words[j][at] == token[k]);
                        assert(words[j].contains(token[k]));
                        assert(line.contains(token[k]));
                        assert(text.contains(token[k]));
                        let place = choose|place: int| 0 <= place < text.len() && text[place] == token[k];
                        assert(m.inverse.contains_key(seq![text[place]]));
                    }
                }
            }
        }
    }
}

/// Where the characters of a text, the space mark and the line feed have ids and there are no ranks,
/// the text can be encoded.
pub proof fn law_known_letters_encode(m: BpeModel, text: Seq<char>)
    requires
        m.ranks == Map::<(Seq<char>, Seq<char>), usize>::empty(),
        letters_have_ids(m, text),
        m.inverse.contains_key(seq![SPACE_MARK]),
        m.inverse.contains_key(seq!['\n']),
    ensures
        plain_ids(m, text) is Some,
{
    lemma_lettered_lines(m, text, split_on(text, '\n').len());
    lemma_lettered_tokens(m, plain_tokens(text));
}

/// After training from nothing, a text of the characters that were trained on and of the first 256
/// code points can be encoded. Without line feeds and space marks it comes back from decoding.
pub proof fn law_trained_round_trip(
    trained_on: Seq<char>,
    vocab_size: usize,
    specials: Seq<Seq<char>>,
    after: BpeModel,
    text: Seq<char>,
)
    requires
        trains(BpeModel::empty(), trained_on, vocab_size as nat, specials, after),
        specials.len() <= isize::MAX,
        forall|k: int|
            0 <= k < text.len() ==> (#[trigger] text[k] as int) < 256 || marked(trained_on).contains(text[k]),
    ensures
        plain_ids(after, text) is Some,
        unmarked(text) ==> (lookup_all(plain_ids(after, text)->0, after.vocab) matches Ok(tokens) && decoded(tokens)
            == text),
{
    law_fresh_training_is_coherent(trained_on, vocab_size, specials, after);
    assert(letters_have_ids(after, text)) by {
        assert forall|k: int| 0 <= k < text.len() implies after.inverse.contains_key(seq![#[trigger] text[k]]) by {
            assert((text[k] as int) < 256 || marked(trained_on).contains(text[k]));
        }
    }
    assert(('\n' as int) < 256);
    law_known_letters_encode(after, text);
    if unmarked(text) {
        law_plain_round_trip(after, text);
    }
}

/// Spans moved on by some characters.
pub open spec fn moved_on(spans: Seq<(nat, nat)>, by: nat) -> Seq<(nat, nat)> {
    spans.map_values(|span: (nat, nat)| (span.0 + by, span.1 + by))
}

proof fn lemma_occurs_behind(front: Seq<char>, text: Seq<char>, part: Seq<char>, at: nat)
    ensures
        occurs_at(front + text, part, (front.len() + at) as int) == occurs_at(text, part, at as int),
{
    let all = front + text;
    if at + part.len() <= text.len() {
        assert(all.subrange((front.len() + at) as int, (front.len() + at + part.len()) as int) =~= text.subrange(
            at as int,
            (at + part.len()) as int,
        ));
    }
}

proof fn lemma_next_behind(s: Seq<char>, front: Seq<char>, text: Seq<char>, at: nat)
    requires
        at <= text.len(),
    ensures
        next_literal(seq![s], front + text, front.len() + at) == match next_literal(seq![s], text, at) {
            Some((start, end)) => Some((front.len() + start, front.len() + end)),
            None => None,
        },
    decreases text.len() - at,
{
    let all = front + text;
    let one = seq![s];
    lemma_occurs_behind(front, text, s, at);
    reveal_with_fuel(first_literal, 2);
    assert(one[0] == s);
    if first_literal(one, text, at, 0) is None && at < text.len() {
        lemma_next_behind(s, front, text, at + 1);
    }
}

proof fn lemma_matches_behind(s: Seq<char>, front: Seq<char>, text: Seq<char>, at: nat)
    requires
        at <= text.len(),
    ensures
        literal_matches(seq![s], front + text, front.len() + at) == moved_on(
            literal_matches(seq![s], text, at),
            front.len(),
        ),
    decreases text.len() - at,
{
    let all = front + text;
    let one = seq![s];
    lemma_next_behind(s, front, text, at);
    let here = literal_matches(one, all, front.len() + at);
    let there = literal_matches(one, text, at);
    match next_literal(one, text, at) {
        Some((start, end)) => {
            if at < end && end <= text.len() {
                lemma_matches_behind(s, front, text, end);
            }
        },
        None => {},
    }
    assert(here =~= moved_on(there, front.len()));
}

proof fn lemma_first_match(s: Seq<char>, p: Seq<char>, q: Seq<char>, at: nat)
    requires
        at <= p.len(),
        forall|k: int| 0 <= k < p.len() ==> !#[trigger] occurs_at(p + s + q, s, k),
    ensures
        next_literal(seq![s], p + s + q, at) == Some((p.len(), p.len() + s.len())),
    decreases p.len() - at,
{
    let all = p + s + q;
    let one = seq![s];
    reveal_with_fuel(first_literal, 2);
    assert(one[0] == s);
    if at == p.len() {
        assert(all.subrange(p.len() as int, (p.len() + s.len()) as int) =~= s);
        assert(occurs_at(all, s, at as int));
    } else {
        assert(!occurs_at(all, s, at as int));
        lemma_first_match(s, p, q, at + 1);
    }
}

/// Matches of literals lie in the text, in order, behind the place where the search starts.
proof fn lemma_literal_matches_in_order(literals: Seq<Seq<char>>, text: Seq<char>, at: nat)
    ensures
        spans_in_order(text, literal_matches(literals, text, at)),
        forall|i: int|
            0 <= i < literal_matches(literals, text, at).len() ==> at <= (#[trigger] literal_matches(
                literals,
                text,
                at,
            )[i]).0,
    decreases text.len() - at,
{
    let found = literal_matches(literals, text, at);
    lemma_next_literal(literals, text, at);
    match next_literal(literals, text, at) {
        Some((start, end)) => {
            if at < end && end <= text.len() {
                let n = lemma_first_literal(literals, text, start, 0);
                let more = literal_matches(literals, text, end);
                lemma_literal_matches_in_order(literals, text, end);
                assert(found =~= seq![(start, end)] + more);
                assert forall|i: int| 0 <= i < found.len() implies (#[trigger] found[i]).0 <= found[i].1 && found[i].1
                    <= text.len() && at <= found[i].0 by {
                    if i > 0 {
                        assert(found[i] == more[i - 1]);
                    }
                }
                assert forall|i: int, j: int| 0 <= i < j < found.len() implies (#[trigger] found[i]).1 <= (
                #[trigger] found[j]).0 by {
                    assert(found[j] == more[j - 1]);
                    if i > 0 {
                        assert(found[i] == more[i - 1]);
                    }
                }
            }
        },
        None => {},
    }
}

proof fn lemma_last_end(m: BpeModel, text: Seq<char>, spans: Seq<(nat, nat)>, n: nat)
    requires
        n <= spans.len(),
    ensures
        ids_of_matches(m, text, spans, n) matches Some(Ok((_, last))) ==> last == if n == 0 {
            0
        } else {
            spans[n - 1].1
        },
    decreases n,
{
    if n > 0 {
        lemma_last_end(m, text, spans, (n - 1) as nat);
    }
}

/// The ids of a text with special tokens that stands behind something.
spec fn behind(head: Seq<usize>, by: nat, outcome: Option<Result<(Seq<usize>, nat), EncodeFault>>) -> Option<
    Result<(Seq<usize>, nat), EncodeFault>,
> {
    match outcome {
        Some(Ok((ids, last))) => Some(Ok((head + ids, by + last))),
        other => other,
    }
}

proof fn lemma_ids_behind(
    m: BpeModel,
    front: Seq<char>,
    q: Seq<char>,
    span: (nat, nat),
    spans: Seq<(nat, nat)>,
    head: Seq<usize>,
    n: nat,
)
    requires
        n <= spans.len(),
        spans_in_order(q, spans),
        ids_of_matches(m, front + q, seq![span] + moved_on(spans, front.len()), 1) == Some(
            Ok::<(Seq<usize>, nat), EncodeFault>((head, front.len())),
        ),
    ensures
        ids_of_matches(m, front + q, seq![span] + moved_on(spans, front.len()), n + 1) == behind(
            head,
            front.len(),
            ids_of_matches(m, q, spans, n),
        ),
    decreases n,
{
    let all = front + q;
    let whole = seq![span] + moved_on(spans, front.len());
    if n == 0 {
        assert(head + Seq::<usize>::empty() =~= head);
    } else {
        lemma_ids_behind(m, front, q, span, spans, head, (n - 1) as nat);
        lemma_last_end(m, q, spans, (n - 1) as nat);
        let (start, end) = spans[n - 1];
        assert(whole[n as int] == (start + front.len(), end + front.len()));
        match ids_of_matches(m, q, spans, (n - 1) as nat) {
            Some(Ok((ids, last))) => {
                if n > 1 {
                    assert(spans[n - 2].1 <= spans[n - 1].0);
                }
                let by = front.len();
                assert(all.subrange((by + last) as int, (by + start) as int) =~= q.subrange(last as int, start as int));
                assert(all.subrange((by + start) as int, (by + end) as int) =~= q.subrange(start as int, end as int));
                let prefix = q.subrange(last as int, start as int);
                let special = q.subrange(start as int, end as int);
                let known = if prefix.len() == 0 {
                    Some(Seq::<usize>::empty())
                } else {
                    plain_ids(m, prefix)
                };
                if known is Some && m.inverse.contains_key(special) {
                    let more = known->0;
                    let id = m.inverse[special];
                    assert((head + ids + more).push(id) =~= head + (ids + more).push(id));
                }
            },
            _ => {},
        }
    }
}

/// Where the empty text is no token it has no ids.
proof fn lemma_empty_plain(m: BpeModel)
    requires
        !m.inverse.contains_key(Seq::<char>::empty()),
    ensures
        plain_ids(m, Seq::empty()) == Some(Seq::<usize>::empty()),
{
    let none = Seq::<char>::empty();
    lemma_plain_tokens_of_empty();
    assert(singles(none) =~= Seq::<Seq<char>>::empty());
    assert(tokenized(m, none) == Ok::<Seq<usize>, Seq<char>>(Seq::empty())) by {
        let ids = Seq::<usize>::empty();
        assert(lookup_all(singles(none), m.inverse) == Ok::<Seq<usize>, Seq<char>>(ids));
        assert(merged_through(ids, merge_of(m.merges)) == ids);
        let symbols = Seq::<Seq<char>>::empty();
        assert(lookup_all(ids, m.vocab) == Ok::<Seq<Seq<char>>, usize>(symbols));
        assert(rank_merged(m.ranks, symbols) == symbols);
        assert(lookup_all(symbols, m.inverse) == Ok::<Seq<usize>, Seq<char>>(ids));
    }
    let tokens = seq![none];
    assert(tokens.drop_last() =~= Seq::<Seq<char>>::empty());
    assert(ids_of_tokens(m, tokens.drop_last()) == Some(Seq::<usize>::empty()));
    assert(ids_of_tokens(m, tokens) == Some(Seq::<usize>::empty() + Seq::<usize>::empty()));
    assert(Seq::<usize>::empty() + Seq::<usize>::empty() =~= Seq::<usize>::empty());
}

proof fn lemma_plain_tokens_of_empty()
    ensures
        plain_tokens(Seq::empty()) == seq![Seq::<char>::empty()],
{
    let none = Seq::<char>::empty();
    lemma_split_without(none, '\n');
    lemma_split_without(none, ' ');
    reveal_with_fuel(tokens_of_lines, 2);
    assert(line_tokens(none, true) =~= seq![none]);
    assert(plain_tokens(none) =~= seq![none]);
}

/// Encoding around the first place of a special token: the ids of what stands in front, the id of the
/// token, and what encoding the rest gives, refusals included.
pub proof fn law_special_token_parts(m: BpeModel, s: Seq<char>, p: Seq<char>, q: Seq<char>)
    requires
        s.len() > 0,
        m.inverse.contains_key(s),
        !m.inverse.contains_key(Seq::<char>::empty()),
        forall|k: int| 0 <= k < p.len() ==> !#[trigger] occurs_at(p + s + q, s, k),
        plain_ids(m, p) is Some,
    ensures
        literal_outcome(m, p + s + q, seq![s]) == match literal_outcome(m, q, seq![s]) {
            None => None,
            Some(Err(fault)) => Some(Err(fault)),
            Some(Ok(ids)) => Some(Ok(plain_ids(m, p)->0 + seq![m.inverse[s]] + ids)),
        },
{
    let one = seq![s];
    let all = p + s + q;
    let front = p + s;
    assert(longest_first(one) =~= one) by {
        assert(one.drop_last() =~= Seq::<Seq<char>>::empty());
        reveal_with_fuel(longest_first, 2);
    }
    lemma_first_match(s, p, q, 0);
    lemma_matches_behind(s, front, q, 0);
    let spans = literal_matches(one, q, 0);
    let whole = literal_matches(one, all, 0);
    let span = (p.len(), front.len());
    assert(whole =~= seq![span] + moved_on(spans, front.len()));
    lemma_literal_matches_in_order(one, q, 0);
    let head = plain_ids(m, p)->0 + seq![m.inverse[s]];
    assert(ids_of_matches(m, all, whole, 1) == Some(Ok::<(Seq<usize>, nat), EncodeFault>((head, front.len())))) by {
        reveal_with_fuel(ids_of_matches, 2);
        assert(whole[0] == span);
        assert(all.subrange(0, p.len() as int) =~= p);
        assert(all.subrange(p.len() as int, front.len() as int) =~= s);
        if p.len() == 0 {
            lemma_empty_plain(m);
            assert(p =~= Seq::<char>::empty());
        }
        let none = Seq::<usize>::empty();
        assert((none + plain_ids(m, p)->0).push(m.inverse[s]) =~= head);
    }
    lemma_ids_behind(m, front, q, span, spans, head, spans.len());
    lemma_last_end(m, q, spans, spans.len());
    match ids_of_matches(m, q, spans, spans.len()) {
        Some(Ok((ids, last))) => {
            if spans.len() > 0 {
                assert(spans[spans.len() - 1].1 <= q.len());
            }
            let rest = q.subrange(last as int, q.len() as int);
            assert(all.subrange((front.len() + last) as int, all.len() as int) =~= rest);
            if rest.len() > 0 && plain_ids(m, rest) is Some {
                assert(head + ids + plain_ids(m, rest)->0 =~= head + (ids + plain_ids(m, rest)->0));
            }
        },
        _ => {},
    }
}

} // verus!
