//! The unigram tokenizer.

use vstd::hash_map::StringHashMap;
use vstd::prelude::*;
use vstd::string::StringExecFns;

use crate::bpe::coding::{lookup_all, unknown_id};
use crate::pure_fn::{fn2, pure2};
use crate::sentence_piece::model::{marked_words, pieces_of, places_of, WORD_MARK};
use crate::sentence_piece::training::{index_tokens, mark_words};
use crate::sentence_piece::viterbi::{segmented, viterbi, Scores};
use crate::text::{decimal_string, flatten, replace_char, replaced, trim_start, views, without_leading_space};
use crate::token_table::TokenTable;

verus! {

/// A unigram tokenizer.
pub struct SentencePieceTokenizer {
    /// The score of each token, as the bits of a double.
    pub vocab: TokenTable<u64>,
    /// The id of each token.
    pub token_to_id: StringHashMap<usize>,
    /// The token of each id.
    pub id_to_token: Vec<String>,
}

impl SentencePieceTokenizer {
    /// A tokenizer that knows nothing.
    pub fn new() -> (r: Self)
        ensures
            r.vocab.wf(),
            r.vocab@ == Map::<Seq<char>, u64>::empty(),
            r.token_to_id@ == Map::<Seq<char>, usize>::empty(),
            r.id_to_token@ == Seq::<String>::empty(),
    {
        SentencePieceTokenizer { vocab: TokenTable::new(), token_to_id: StringHashMap::new(), id_to_token: Vec::new() }
    }
}

/// The pieces of all words of a text, marked.
pub open spec fn text_pieces(scores: Scores, sum: spec_fn(u64, u64) -> u64, text: Seq<char>) -> Seq<Seq<char>> {
    pieces_of(scores, sum, marked_words(text), marked_words(text).len())
}

/// Says that a piece has no id.
pub open spec fn unknown_piece(piece: Seq<char>) -> Seq<char> {
    "Unknown token: "@ + piece
}

/// Looks up ids one after the other in a list; the first that lies outside is the error.
pub open spec fn tokens_of_ids(list: Seq<Seq<char>>, ids: Seq<usize>) -> Result<Seq<Seq<char>>, usize>
    decreases ids.len(),
{
    if ids.len() == 0 {
        Ok(Seq::empty())
    } else {
        match tokens_of_ids(list, ids.drop_last()) {
            Err(id) => Err(id),
            Ok(tokens) => if ids.last() < list.len() {
                Ok(tokens.push(list[ids.last() as int]))
            } else {
                Err(ids.last())
            },
        }
    }
}

/// The text of a list of tokens: word marks become spaces, and space in front is dropped.
pub open spec fn text_of_tokens(tokens: Seq<Seq<char>>) -> Seq<char> {
    without_leading_space(replaced(flatten(tokens), WORD_MARK, ' '))
}

proof fn lemma_lookup_stops<K, V>(keys: Seq<K>, table: Map<K, V>, n: int)
    requires
        0 <= n <= keys.len(),
        lookup_all(keys.take(n), table) is Err,
    ensures
        lookup_all(keys, table) == lookup_all(keys.take(n), table),
    decreases keys.len() - n,
{
    if n == keys.len() {
        assert(keys.take(n) =~= keys);
    } else {
        assert(keys.take(n + 1).drop_last() =~= keys.take(n));
        lemma_lookup_stops(keys, table, n + 1);
    }
}

proof fn lemma_tokens_stop(list: Seq<Seq<char>>, ids: Seq<usize>, n: int)
    requires
        0 <= n <= ids.len(),
        tokens_of_ids(list, ids.take(n)) is Err,
    ensures
        tokens_of_ids(list, ids) == tokens_of_ids(list, ids.take(n)),
    decreases ids.len() - n,
{
    if n == ids.len() {
        assert(ids.take(n) =~= ids);
    } else {
        assert(ids.take(n + 1).drop_last() =~= ids.take(n));
        lemma_tokens_stop(list, ids, n + 1);
    }
}

/// The pieces of earlier sentences stand in front.
proof fn lemma_pieces_in_front(scores: Scores, sum: spec_fn(u64, u64) -> u64, sentences: Seq<Seq<char>>, n: nat, m: nat)
    requires
        n <= m,
    ensures
        pieces_of(scores, sum, sentences, n).len() <= pieces_of(scores, sum, sentences, m).len(),
        pieces_of(scores, sum, sentences, m).take(pieces_of(scores, sum, sentences, n).len() as int) == pieces_of(
            scores,
            sum,
            sentences,
            n,
        ),
    decreases m,
{
    let few = pieces_of(scores, sum, sentences, n);
    let many = pieces_of(scores, sum, sentences, m);
    if n < m {
        lemma_pieces_in_front(scores, sum, sentences, n, (m - 1) as nat);
        let fewer = pieces_of(scores, sum, sentences, (m - 1) as nat);
        assert(many.take(few.len() as int) =~= fewer.take(few.len() as int));
    } else {
        assert(many.take(few.len() as int) =~= few);
    }
}

fn unknown_piece_message(piece: &str) -> (r: String)
    ensures
        r@ == unknown_piece(piece@),
{
    let mut out = "Unknown token: ".to_owned();
    out.append(piece);
    out
}

fn unknown_id_message(id: usize) -> (r: String)
    ensures
        r@ == unknown_id(id),
{
    let mut out = "unknown id: ".to_owned();
    out.append(decimal_string(id).as_str());
    out
}

impl SentencePieceTokenizer {
    /// Puts a tokenizer together from what was saved: the scores, and the tokens in the order of
    /// their ids.
    pub fn from_parts(vocab: TokenTable<u64>, id_to_token: Vec<String>) -> (r: Self)
        requires
            vocab.wf(),
        ensures
            r.vocab == vocab,
            r.id_to_token == id_to_token,
            r.token_to_id@ == places_of(views(id_to_token@)),
    {
        let token_to_id = index_tokens(&id_to_token);
        SentencePieceTokenizer { vocab, token_to_id, id_to_token }
    }

    /// The pieces of highest score that `text` can be cut into.
    pub fn viterbi<F: Fn(u64, u64) -> u64>(&self, text: &str, add: &F) -> (r: Vec<String>)
        requires
            pure2(*add),
        ensures
            views(r@) == segmented(self.vocab@, fn2(*add), text@),
    {
        viterbi(&self.vocab, text, add)
    }

    /// The ids of the pieces of the words of `text`, or the first piece that has none.
    pub fn encode<F: Fn(u64, u64) -> u64>(&mut self, text: &str, add: &F) -> (r: Result<Vec<usize>, String>)
        requires
            pure2(*add),
        ensures
            *final(self) == *old(self),
            match lookup_all(text_pieces(old(self).vocab@, fn2(*add), text@), old(self).token_to_id@) {
                Ok(ids) => r matches Ok(found) && found@ == ids,
                Err(piece) => r matches Err(message) && message@ == unknown_piece(piece),
            },
    {
        let ghost sum = fn2(*add);
        let ghost table = self.token_to_id@;
        let ghost sentences = marked_words(text@);
        let ghost all = text_pieces(self.vocab@, sum, text@);
        let words = mark_words(text);
        let mut out: Vec<usize> = Vec::new();
        let ghost mut done: Seq<Seq<char>> = Seq::empty();
        let mut i: usize = 0;
        assert(out@ =~= Seq::<usize>::empty());
        while i < words.len()
            invariant
                i <= words@.len(),
                pure2(*add),
                sum == fn2(*add),
                *self == *old(self),
                table == self.token_to_id@,
                sentences == marked_words(text@),
                views(words@) == sentences,
                all == text_pieces(self.vocab@, sum, text@),
                done == pieces_of(self.vocab@, sum, sentences, i as nat),
                lookup_all(done, table) == Ok::<Seq<usize>, Seq<char>>(out@),
            decreases words@.len() - i,
        {
            assert(sentences[i as int] == words@[i as int]@);
            let tokens = viterbi(&self.vocab, words[i].as_str(), add);
            let ghost cut = segmented(self.vocab@, sum, sentences[i as int]);
            let ghost before = done;
            let ghost longer = pieces_of(self.vocab@, sum, sentences, (i + 1) as nat);
            proof {
                lemma_pieces_in_front(self.vocab@, sum, sentences, (i + 1) as nat, sentences.len());
            }
            assert(longer == before + cut);
            assert(before =~= before + cut.take(0));
            let mut j: usize = 0;
            while j < tokens.len()
                invariant
                    j <= tokens@.len(),
                    *self == *old(self),
                    table == self.token_to_id@,
                    views(tokens@) == cut,
                    all.len() >= longer.len(),
                    all.take(longer.len() as int) == longer,
                    all == text_pieces(old(self).vocab@, fn2(*add), text@),
                    longer == before + cut,
                    done == before + cut.take(j as int),
                    lookup_all(done, table) == Ok::<Seq<usize>, Seq<char>>(out@),
                decreases tokens@.len() - j,
            {
                let ghost next = done.push(cut[j as int]);
                assert(cut[j as int] == tokens@[j as int]@);
                assert(next.drop_last() =~= done);
                assert(next =~= before + cut.take(j + 1));
                match self.token_to_id.get(tokens[j].as_str()) {
                    Some(id) => {
                        out.push(*id);
                    },
                    None => {
                        proof {
                            assert(lookup_all(next, table) == Err::<Seq<usize>, Seq<char>>(cut[j as int]));
                            assert(all.take(next.len() as int) =~= next) by {
                                assert(all.take(longer.len() as int).take(next.len() as int) =~= all.take(
                                    next.len() as int,
                                ));
                                assert(longer.take(next.len() as int) =~= next);
                            }
                            lemma_lookup_stops(all, table, next.len() as int);
                        }
                        return Err(unknown_piece_message(tokens[j].as_str()));
                    },
                }
                proof {
                    done = next;
                }
                j += 1;
            }
            assert(cut.take(j as int) =~= cut);
            i += 1;
        }
        Ok(out)
    }

    /// The text that the ids stand for, or the first id that is out of range.
    pub fn decode(&self, ids: &[usize]) -> (r: Result<String, String>)
        ensures
            match tokens_of_ids(views(self.id_to_token@), ids@) {
                Ok(tokens) => r matches Ok(text) && text@ == text_of_tokens(tokens),
                Err(id) => r matches Err(message) && message@ == unknown_id(id),
            },
    {
        let ghost list = views(self.id_to_token@);
        let mut out = String::new();
        let ghost mut tokens: Seq<Seq<char>> = Seq::empty();
        let mut i: usize = 0;
        assert(ids@.take(0) =~= Seq::<usize>::empty());
        while i < ids.len()
            invariant
                i <= ids@.len(),
                list == views(self.id_to_token@),
                tokens_of_ids(list, ids@.take(i as int)) == Ok::<Seq<Seq<char>>, usize>(tokens),
                out@ == flatten(tokens),
            decreases ids@.len() - i,
        {
            assert(ids@.take(i + 1).drop_last() =~= ids@.take(i as int));
            let id: usize = ids[i];
            if id < self.id_to_token.len() {
                assert(list[id as int] == self.id_to_token@[id as int]@);
                out.append(self.id_to_token[id].as_str());
                proof {
                    let next = tokens.push(list[id as int]);
                    assert(next.drop_last() =~= tokens);
                    tokens = next;
                }
            } else {
                proof {
                    lemma_tokens_stop(list, ids@, i + 1);
                }
                return Err(unknown_id_message(id));
            }
            i += 1;
        }
        assert(ids@.take(i as int) =~= ids@);
        let spaced = replace_char(out.as_str(), WORD_MARK, ' ');
        Ok(trim_start(spaced.as_str()))
    }
}

} // verus!
