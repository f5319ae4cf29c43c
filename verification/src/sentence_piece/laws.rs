//! What holds of encoding and decoding together.

use vstd::prelude::*;

use crate::bpe::coding::lookup_all;
use crate::bpe::laws::lemma_flatten_concat;
use crate::sentence_piece::model::{
    alphabetical, counted_singles, marked_text, marked_words, pieces_of, places_of, MAX_SUBSTR_LEN,
    SEED_VOCAB_MULTIPLIER, WORD_MARK,
};
use crate::sentence_piece::tokenizer::{text_of_tokens, text_pieces, tokens_of_ids, SentencePieceTokenizer};
use crate::sentence_piece::training::{gives_scores, law_training_keeps_characters, trained_through};
use crate::sentence_piece::viterbi::{
    absorbing, adds_up, law_segmentation_keeps_text, law_segments_are_tokens, letters_known, reachable, segmented, Scores,
};
use crate::text::{flatten, join_with, replaced, views, white_space, without_leading_space, words_and_open, words_of};
use crate::token_table::lemma_enumeration_len;

verus! {

/// Every place that is stored for a token holds that token.
proof fn lemma_places(list: Seq<Seq<char>>)
    requires
        list.len() <= usize::MAX,
    ensures
        forall|t: Seq<char>| #[trigger]
            places_of(list).contains_key(t) ==> places_of(list)[t] < list.len() && list[places_of(list)[t] as int] == t,
        forall|i: int| 0 <= i < list.len() ==> places_of(list).contains_key(#[trigger] list[i]),
    decreases list.len(),
{
    if list.len() > 0 {
        let init = list.drop_last();
        lemma_places(init);
        assert forall|t: Seq<char>| #[trigger] places_of(list).contains_key(t) implies places_of(list)[t] < list.len()
            && list[places_of(list)[t] as int] == t by {
            if t != list.last() {
                assert(places_of(init).contains_key(t));
                assert(init[places_of(init)[t] as int] == t);
            }
        }
        assert forall|i: int| 0 <= i < list.len() implies places_of(list).contains_key(#[trigger] list[i]) by {
            if i < init.len() {
                assert(init[i] == list[i]);
            }
        }
    }
}

/// After training, ids and tokens belong to each other: every token of the vocabulary has an id, and
/// that id stands for the token.
pub proof fn law_ids_match_tokens(list: Seq<Seq<char>>, scores: Scores, t: Seq<char>)
    requires
        list.len() <= usize::MAX,
        alphabetical(list, scores),
        scores.contains_key(t),
    ensures
        places_of(list).contains_key(t),
        places_of(list)[t] < list.len(),
        list[places_of(list)[t] as int] == t,
{
    lemma_places(list);
    assert(list.contains(t));
    let i = choose|i: int| 0 <= i < list.len() && list[i] == t;
    assert(places_of(list).contains_key(list[i]));
}

proof fn lemma_ids_give_tokens(list: Seq<Seq<char>>, pieces: Seq<Seq<char>>)
    requires
        list.len() <= usize::MAX,
    ensures
        lookup_all(pieces, places_of(list)) matches Ok(ids) ==> tokens_of_ids(list, ids) == Ok::<Seq<Seq<char>>, usize>(
            pieces,
        ),
    decreases pieces.len(),
{
    if pieces.len() > 0 {
        lemma_places(list);
        lemma_ids_give_tokens(list, pieces.drop_last());
        match lookup_all(pieces.drop_last(), places_of(list)) {
            Ok(before) => {
                if places_of(list).contains_key(pieces.last()) {
                    let ids = before.push(places_of(list)[pieces.last()]);
                    assert(ids.drop_last() =~= before);
                    assert(pieces.drop_last().push(pieces.last()) =~= pieces);
                }
            },
            Err(_) => {},
        }
    } else {
        assert(pieces =~= Seq::<Seq<char>>::empty());
    }
}

/// Words are not empty, hold no white space, and are made of characters of the text.
proof fn lemma_words(text: Seq<char>)
    ensures
        words_and_open(text).1 ==> words_and_open(text).0.len() > 0,
        forall|i: int| 0 <= i < words_of(text).len() ==> (#[trigger] words_of(text)[i]).len() > 0,
        forall|i: int, k: int|
            0 <= i < words_of(text).len() && 0 <= k < words_of(text)[i].len() ==> !white_space(
                #[trigger] words_of(text)[i][k],
            ) && text.contains(words_of(text)[i][k]),
    decreases text.len(),
{
    if text.len() > 0 {
        let init = text.drop_last();
        let c = text.last();
        lemma_words(init);
        let (before, open) = words_and_open(init);
        let after = words_of(text);
        assert(before == words_of(init));
        assert forall|i: int| 0 <= i < after.len() implies (#[trigger] after[i]).len() > 0 by {
            if i < before.len() {
                assert(words_of(init)[i].len() > 0);
            }
        }
        assert forall|i: int, k: int| 0 <= i < after.len() && 0 <= k < after[i].len() implies !white_space(
            #[trigger] after[i][k],
        ) && text.contains(after[i][k]) by {
            if i < before.len() && k < before[i].len() {
                assert(after[i][k] == before[i][k]);
                assert(!white_space(words_of(init)[i][k]) && init.contains(words_of(init)[i][k]));
                let j = choose|j: int| 0 <= j < init.len() && init[j] == before[i][k];
                assert(text[j] == after[i][k]);
            } else {
                assert(after[i][k] == c);
                assert(text[text.len() - 1] == c);
            }
        }
    }
}

/// The pieces of words that can be cut into tokens spell these words.
proof fn lemma_pieces_spell_words(scores: Scores, sum: spec_fn(u64, u64) -> u64, sentences: Seq<Seq<char>>, n: nat)
    requires
        absorbing(sum),
        n <= sentences.len(),
        adds_up(sum, scores),
        forall|i: int| 0 <= i < sentences.len() ==> letters_known(scores, #[trigger] sentences[i]),
    ensures
        flatten(pieces_of(scores, sum, sentences, n)) == flatten(sentences.take(n as int)),
    decreases n,
{
    if n > 0 {
        lemma_pieces_spell_words(scores, sum, sentences, (n - 1) as nat);
        let word = sentences[n - 1];
        law_segmentation_keeps_text(scores, sum, word);
        lemma_flatten_concat(pieces_of(scores, sum, sentences, (n - 1) as nat), segmented(scores, sum, word));
        assert(sentences.take(n as int).drop_last() =~= sentences.take(n - 1));
    } else {
        assert(sentences.take(0) =~= Seq::<Seq<char>>::empty());
    }
}

/// Marked words, run together, with the marks changed to spaces, are a space and the words with
/// single spaces between them.
proof fn lemma_spaced_words(words: Seq<Seq<char>>)
    requires
        words.len() > 0,
        forall|i: int, k: int|
            0 <= i < words.len() && 0 <= k < words[i].len() ==> #[trigger] words[i][k] != WORD_MARK,
    ensures
        replaced(flatten(words.map_values(|w: Seq<char>| seq![WORD_MARK] + w)), WORD_MARK, ' ') == seq![' '] + join_with(
            words,
            seq![' '],
        ),
    decreases words.len(),
{
    let marked = words.map_values(|w: Seq<char>| seq![WORD_MARK] + w);
    let last = words.last();
    let init = words.drop_last();
    let marked_init = init.map_values(|w: Seq<char>| seq![WORD_MARK] + w);
    assert(marked.drop_last() =~= marked_init);
    assert(marked.last() == seq![WORD_MARK] + last);
    assert(replaced(last, WORD_MARK, ' ') =~= last) by {
        assert forall|k: int| 0 <= k < last.len() implies last[k] != WORD_MARK by {
            assert(words[words.len() - 1][k] == last[k]);
        }
    }
    assert(replaced(flatten(marked), WORD_MARK, ' ') =~= replaced(flatten(marked_init), WORD_MARK, ' ') + seq![' ']
        + replaced(last, WORD_MARK, ' '));
    if init.len() > 0 {
        assert forall|i: int, k: int| 0 <= i < init.len() && 0 <= k < init[i].len() implies #[trigger] init[i][k]
            != WORD_MARK by {
            assert(words[i][k] == init[i][k]);
        }
        lemma_spaced_words(init);
        assert(seq![' '] + join_with(words, seq![' ']) =~= seq![' '] + join_with(init, seq![' ']) + seq![' '] + last);
    } else {
        assert(marked_init =~= Seq::<Seq<char>>::empty());
        assert(replaced(flatten(marked_init), WORD_MARK, ' ') =~= Seq::<char>::empty());
        assert(join_with(words, seq![' ']) == last);
    }
}

/// Whether every token has a place in a list of tokens.
pub open spec fn all_listed(list: Seq<Seq<char>>, scores: Scores) -> bool {
    forall|t: Seq<char>| #[trigger] scores.contains_key(t) ==> list.contains(t)
}

proof fn lemma_listed_lookup(list: Seq<Seq<char>>, pieces: Seq<Seq<char>>)
    requires
        list.len() <= usize::MAX,
        forall|k: int| 0 <= k < pieces.len() ==> list.contains(#[trigger] pieces[k]),
    ensures
        lookup_all(pieces, places_of(list)) is Ok,
    decreases pieces.len(),
{
    if pieces.len() > 0 {
        let init = pieces.drop_last();
        assert forall|k: int| 0 <= k < init.len() implies list.contains(#[trigger] init[k]) by {
            assert(init[k] == pieces[k]);
        }
        lemma_listed_lookup(list, init);
        lemma_places(list);
        assert(list.contains(pieces[pieces.len() - 1]));
        let i = choose|i: int| 0 <= i < list.len() && list[i] == pieces.last();
        assert(places_of(list).contains_key(list[i]));
    }
}

proof fn lemma_pieces_tokens(scores: Scores, sum: spec_fn(u64, u64) -> u64, sentences: Seq<Seq<char>>, n: nat, i: int)
    requires
        absorbing(sum),
        n <= sentences.len(),
        0 <= i < pieces_of(scores, sum, sentences, n).len(),
    ensures
        ({
            let piece = pieces_of(scores, sum, sentences, n)[i];
            scores.contains_key(piece) || piece == "<unk>"@
        }),
    decreases n,
{
    if n > 0 {
        let head = pieces_of(scores, sum, sentences, (n - 1) as nat);
        if i < head.len() {
            lemma_pieces_tokens(scores, sum, sentences, (n - 1) as nat, i);
        } else {
            law_segments_are_tokens(scores, sum, sentences[n - 1], i - head.len());
        }
    }
}

/// Where every token and the unknown token have an id, every text can be encoded.
pub proof fn law_encoding_succeeds(
    scores: Scores,
    sum: spec_fn(u64, u64) -> u64,
    list: Seq<Seq<char>>,
    text: Seq<char>,
)
    requires
        absorbing(sum),
        list.len() <= usize::MAX,
        all_listed(list, scores),
        scores.contains_key("<unk>"@),
    ensures
        lookup_all(text_pieces(scores, sum, text), places_of(list)) is Ok,
{
    let pieces = text_pieces(scores, sum, text);
    let sentences = marked_words(text);
    assert forall|k: int| 0 <= k < pieces.len() implies list.contains(#[trigger] pieces[k]) by {
        lemma_pieces_tokens(scores, sum, sentences, sentences.len(), k);
        assert(scores.contains_key(pieces[k]));
    }
    lemma_listed_lookup(list, pieces);
}

/// Encoding a text succeeds, and decoding the ids gives its words back with single spaces between
/// them, if the word mark and all characters of the words are tokens, every token has an id, and the
/// text holds no word mark.
pub proof fn law_round_trip(
    scores: Scores,
    sum: spec_fn(u64, u64) -> u64,
    list: Seq<Seq<char>>,
    text: Seq<char>,
)
    requires
        absorbing(sum),
        adds_up(sum, scores),
        list.len() <= usize::MAX,
        all_listed(list, scores),
        !text.contains(WORD_MARK),
        forall|i: int| 0 <= i < marked_words(text).len() ==> letters_known(scores, #[trigger] marked_words(text)[i]),
    ensures
        lookup_all(text_pieces(scores, sum, text), places_of(list)) matches Ok(ids) && tokens_of_ids(list, ids) matches Ok(
            tokens,
        ) && text_of_tokens(tokens) == join_with(words_of(text), seq![' ']),
{
    lemma_known_pieces(scores, sum, marked_words(text), marked_words(text).len());
    assert forall|k: int| 0 <= k < text_pieces(scores, sum, text).len() implies list.contains(
        #[trigger] text_pieces(scores, sum, text)[k],
    ) by {
        assert(scores.contains_key(text_pieces(scores, sum, text)[k]));
    }
    lemma_listed_lookup(list, text_pieces(scores, sum, text));
    let words = words_of(text);
    let sentences = marked_words(text);
    let pieces = text_pieces(scores, sum, text);
    lemma_ids_give_tokens(list, pieces);
    lemma_pieces_spell_words(scores, sum, sentences, sentences.len());
    assert(sentences.take(sentences.len() as int) =~= sentences);
    lemma_words(text);
    if words.len() > 0 {
        assert forall|i: int, k: int| 0 <= i < words.len() && 0 <= k < words[i].len() implies #[trigger] words[i][k]
            != WORD_MARK by {
            assert(text.contains(words_of(text)[i][k]));
        }
        lemma_spaced_words(words);
        let joined = join_with(words, seq![' ']);
        let spaced = seq![' '] + joined;
        lemma_join_starts(words, seq![' ']);
        assert(spaced.skip(1) =~= joined);
        assert(!white_space(words_of(text)[0][0]));
        reveal_with_fuel(without_leading_space, 2);
        assert(without_leading_space(spaced) == joined);
    } else {
        assert(sentences =~= Seq::<Seq<char>>::empty());
        assert(replaced(flatten(pieces), WORD_MARK, ' ') =~= Seq::<char>::empty());
    }
}

proof fn lemma_join_starts(words: Seq<Seq<char>>, sep: Seq<char>)
    requires
        words.len() > 0,
        words[0].len() > 0,
    ensures
        join_with(words, sep).len() > 0,
        join_with(words, sep)[0] == words[0][0],
    decreases words.len(),
{
    if words.len() > 1 {
        lemma_join_starts(words.drop_last(), sep);
    }
}

proof fn lemma_known_pieces(scores: Scores, sum: spec_fn(u64, u64) -> u64, sentences: Seq<Seq<char>>, n: nat)
    requires
        absorbing(sum),
        adds_up(sum, scores),
        n <= sentences.len(),
        forall|i: int| 0 <= i < sentences.len() ==> letters_known(scores, #[trigger] sentences[i]),
    ensures
        forall|k: int|
            0 <= k < pieces_of(scores, sum, sentences, n).len() ==> scores.contains_key(
                #[trigger] pieces_of(scores, sum, sentences, n)[k],
            ),
    decreases n,
{
    if n > 0 {
        lemma_known_pieces(scores, sum, sentences, (n - 1) as nat);
        assert(letters_known(scores, sentences[n - 1]));
        law_segmentation_keeps_text(scores, sum, sentences[n - 1]);
        let head = pieces_of(scores, sum, sentences, (n - 1) as nat);
        let all = pieces_of(scores, sum, sentences, n);
        assert forall|k: int| 0 <= k < all.len() implies scores.contains_key(#[trigger] all[k]) by {
            if k < head.len() {
                assert(all[k] == head[k]);
            } else {
                assert(all[k] == segmented(scores, sum, sentences[n - 1])[k - head.len()]);
            }
        }
    }
}

/// A character of a piece is a character of the pieces run together.
proof fn lemma_flatten_has(pieces: Seq<Seq<char>>, i: int, k: int)
    requires
        0 <= i < pieces.len(),
        0 <= k < pieces[i].len(),
    ensures
        flatten(pieces).contains(pieces[i][k]),
    decreases pieces.len(),
{
    let init = pieces.drop_last();
    let all = flatten(pieces);
    if i < init.len() {
        lemma_flatten_has(init, i, k);
        let head = flatten(init);
        let at = choose|at: int| 0 <= at < head.len() && head[at] == pieces[i][k];
        assert(all[at] == pieces[i][k]);
    } else {
        assert(all[flatten(init).len() + k] == pieces[i][k]);
    }
}

/// After training, every text can be encoded. A text without word marks that has no characters but
/// those of the words it was trained on comes back from decoding, with single spaces between its
/// words.
pub proof fn law_trained_round_trip(
    trained_on: Seq<char>,
    vocab_size: nat,
    sum: spec_fn(u64, u64) -> u64,
    share: spec_fn(u128, u128) -> u64,
    after: SentencePieceTokenizer,
    trace: Seq<Scores>,
    text: Seq<char>,
)
    requires
        trained_through(trained_on, vocab_size, sum, share, after, trace),
        absorbing(sum),
        gives_scores(share, |x: u64| forall|a: u64| reachable(a) ==> reachable(#[trigger] sum(a, x))),
        marked_text(trained_on).len() <= usize::MAX,
        vocab_size * SEED_VOCAB_MULTIPLIER <= usize::MAX,
        counted_singles(marked_text(trained_on), MAX_SUBSTR_LEN as nat).len() < vocab_size,
    ensures
        ({
            let list = views(after.id_to_token@);
            let found = lookup_all(text_pieces(after.vocab@, sum, text), after.token_to_id@);
            &&& found is Ok
            &&& !text.contains(WORD_MARK) && (forall|k: int|
                0 <= k < marked_text(text).len() ==> marked_text(trained_on).contains(
                    #[trigger] marked_text(text)[k],
                )) ==> (tokens_of_ids(list, found->Ok_0) matches Ok(tokens) && text_of_tokens(tokens) == join_with(
                words_of(text),
                seq![' '],
            ))
        }),
{
    let ok = |x: u64| forall|a: u64| reachable(a) ==> reachable(#[trigger] sum(a, x));
    let scores = after.vocab@;
    let list = views(after.id_to_token@);
    law_training_keeps_characters(trained_on, vocab_size, sum, share, trace, ok);
    assert(all_listed(list, scores));
    assert(list.len() <= usize::MAX) by {
        lemma_enumeration_len(list, scores.dom());
    }
    law_encoding_succeeds(scores, sum, list, text);
    assert(adds_up(sum, scores)) by {
        assert forall|a: u64, t: Seq<char>| reachable(a) && scores.contains_key(t) implies reachable(
            #[trigger] sum(a, scores[t]),
        ) by {
            assert(ok(scores[t]));
        }
    }
    let whole = marked_text(text);
    if !text.contains(WORD_MARK) && (forall|k: int|
        0 <= k < whole.len() ==> marked_text(trained_on).contains(#[trigger] whole[k])) {
        let sentences = marked_words(text);
        assert forall|i: int| 0 <= i < sentences.len() implies letters_known(scores, #[trigger] sentences[i]) by {
            assert forall|k: int| 0 <= k < sentences[i].len() implies scores.contains_key(
                seq![#[trigger] sentences[i][k]],
            ) by {
                lemma_flatten_has(sentences, i, k);
                let at = choose|at: int| 0 <= at < whole.len() && whole[at] == sentences[i][k];
                assert(marked_text(trained_on).contains(whole[at]));
                let j = choose|j: int|
                    0 <= j < marked_text(trained_on).len() && marked_text(trained_on)[j] == whole[at];
                assert(scores.contains_key(seq![marked_text(trained_on)[j]]));
            }
        }
        law_round_trip(scores, sum, list, text);
    }
}

} // verus!
