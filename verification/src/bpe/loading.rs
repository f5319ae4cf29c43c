//! Saving a tokenizer, and loading one that was saved or published.

use vstd::prelude::*;

use crate::bpe::model::BpeModel;
use crate::bpe::outside::{
    json_id_tokens, json_token_ids, lists_id_tokens, lists_token_ids, parse_id_tokens, parse_token_ids,
};
use crate::bpe::tables::{lists_merges, MergeEntry, RankTable};
use crate::bpe::tokenizer::BytePair;
use crate::text::{lines, lines_of, split_at_char, split_on, views};

verus! {

/// Why a vocabulary could not be loaded.
pub enum LoadError {
    /// The text is not the JSON object it should be.
    Json(serde_json::Error),
    /// No token can stand for the line feed.
    NoNewline,
}

impl LoadError {
    /// The sentence that reports `NoNewline`.
    pub fn no_newline_message() -> (r: String)
        ensures
            r@ == "No suitable token found in vocabulary to map '\\n'."@,
    {
        "No suitable token found in vocabulary to map '\\n'.".to_owned()
    }
}

/// Stores the tokens with their ids, one after the other.
pub open spec fn with_token_ids(m: BpeModel, entries: Seq<(String, usize)>) -> BpeModel
    decreases entries.len(),
{
    if entries.len() == 0 {
        m
    } else {
        with_token_ids(m, entries.drop_last()).with_token(entries.last().1, entries.last().0@)
    }
}

/// Stores the ids with what they spell, one after the other.
pub open spec fn with_id_tokens(m: BpeModel, entries: Seq<(usize, String)>) -> BpeModel
    decreases entries.len(),
{
    if entries.len() == 0 {
        m
    } else {
        with_id_tokens(m, entries.drop_last()).with_token(entries.last().0, entries.last().1@)
    }
}

/// Stores merges, one after the other.
pub open spec fn with_merge_list(m: BpeModel, entries: Seq<MergeEntry>) -> BpeModel
    decreases entries.len(),
{
    if entries.len() == 0 {
        m
    } else {
        let before = with_merge_list(m, entries.drop_last());
        BpeModel { merges: before.merges.insert(entries.last().pair, entries.last().new_id), ..before }
    }
}

/// The id that the line feed gets when it has none: that of the end-of-text token, else that of
/// the space mark, else that of the empty token.
pub open spec fn newline_fallback(inverse: Map<Seq<char>, usize>) -> Option<usize> {
    if inverse.contains_key("<|endoftext|>"@) {
        Some(inverse["<|endoftext|>"@])
    } else if inverse.contains_key("Ġ"@) {
        Some(inverse["Ġ"@])
    } else if inverse.contains_key(""@) {
        Some(inverse[""@])
    } else {
        None
    }
}

/// The model with an id for the line feed, if one can be found.
pub open spec fn with_newline(m: BpeModel) -> Option<BpeModel> {
    if m.inverse.contains_key("\n"@) {
        Some(m)
    } else {
        match newline_fallback(m.inverse) {
            Some(id) => Some(m.with_token(id, "\n"@)),
            None => None,
        }
    }
}

/// The ranks that the first `n` lines give, and the rank that comes next. A line counts if it is
/// two known tokens with one space between them.
pub open spec fn ranks_of_lines(inverse: Map<Seq<char>, usize>, list: Seq<Seq<char>>, n: nat) -> (
    Map<(Seq<char>, Seq<char>), usize>,
    nat,
)
    decreases n,
{
    if n == 0 {
        (Map::empty(), 0)
    } else {
        let (ranks, next) = ranks_of_lines(inverse, list, (n - 1) as nat);
        let parts = split_on(list[n - 1], ' ');
        if parts.len() == 2 && inverse.contains_key(parts[0]) && inverse.contains_key(parts[1]) {
            (ranks.insert((parts[0], parts[1]), next as usize), next + 1)
        } else {
            (ranks, next)
        }
    }
}

/// The ranks that a merge file gives; its first line is a header.
pub open spec fn ranks_of_file(inverse: Map<Seq<char>, usize>, contents: Seq<char>) -> Map<
    (Seq<char>, Seq<char>),
    usize,
> {
    let all = lines_of(contents);
    if all.len() == 0 {
        Map::empty()
    } else {
        ranks_of_lines(inverse, all.skip(1), (all.len() - 1) as nat).0
    }
}

proof fn lemma_next_rank_bound(inverse: Map<Seq<char>, usize>, list: Seq<Seq<char>>, n: nat)
    ensures
        ranks_of_lines(inverse, list, n).1 <= n,
    decreases n,
{
    if n > 0 {
        lemma_next_rank_bound(inverse, list, (n - 1) as nat);
    }
}

impl BytePair {
    /// Stores the tokens with their ids and sees to it that the line feed has one.
    pub fn absorb_vocab(&mut self, entries: Vec<(String, usize)>) -> (r: Result<(), LoadError>)
        requires
            old(self).wf(),
        ensures
            final(self).wf(),
            match with_newline(with_token_ids(old(self)@, entries@)) {
                Some(m) => r is Ok && final(self)@ == m,
                None => r == Err::<(), LoadError>(LoadError::NoNewline) && final(self)@ == with_token_ids(
                    old(self)@,
                    entries@,
                ),
            },
    {
        let mut i: usize = 0;
        assert(entries@.take(0) =~= Seq::empty());
        while i < entries.len()
            invariant
                i <= entries@.len(),
                self.wf(),
                self@ == with_token_ids(old(self)@, entries@.take(i as int)),
            decreases entries@.len() - i,
        {
            assert(entries@.take(i + 1).drop_last() =~= entries@.take(i as int));
            self.vocab.insert(entries[i].1, entries[i].0.clone());
            self.inverse_vocab.insert(entries[i].0.clone(), entries[i].1);
            i += 1;
        }
        assert(entries@.take(i as int) =~= entries@);
        if self.inverse_vocab.contains("\n") {
            return Ok(());
        }
        let fallback: Option<usize> = match self.inverse_vocab.get("<|endoftext|>") {
            Some(id) => Some(id),
            None => match self.inverse_vocab.get("Ġ") {
                Some(id) => Some(id),
                None => self.inverse_vocab.get(""),
            },
        };
        match fallback {
            Some(id) => {
                self.inverse_vocab.insert("\n".to_owned(), id);
                self.vocab.insert(id, "\n".to_owned());
                Ok(())
            },
            None => Err(LoadError::NoNewline),
        }
    }

    /// Loads a published vocabulary: a JSON object that gives each token its id.
    pub fn load_llm_vocab(&mut self, contents: &str) -> (r: Result<(), LoadError>)
        requires
            old(self).wf(),
        ensures
            final(self).wf(),
            match json_token_ids(contents@) {
                None => r is Err && r->Err_0 is Json && *final(self) == *old(self),
                Some(table) => exists|entries: Seq<(String, usize)>| #[trigger]
                    lists_token_ids(entries, table) && match with_newline(with_token_ids(old(self)@, entries)) {
                        Some(m) => r is Ok && final(self)@ == m,
                        None => r == Err::<(), LoadError>(LoadError::NoNewline) && final(self)@ == with_token_ids(
                            old(self)@,
                            entries,
                        ),
                    },
            },
    {
        match parse_token_ids(contents) {
            Err(e) => Err(LoadError::Json(e)),
            Ok(entries) => {
                assert(lists_token_ids(entries@, json_token_ids(contents@)->0));
                self.absorb_vocab(entries)
            },
        }
    }

    /// Loads the ranks of a published merge file: after a header line, one pair of tokens a line.
    pub fn load_llm_merges(&mut self, contents: &str)
        requires
            old(self).wf(),
        ensures
            final(self).wf(),
            final(self)@ == (BpeModel { ranks: ranks_of_file(old(self)@.inverse, contents@), ..old(self)@ }),
    {
        let all = lines(contents);
        let ghost list = lines_of(contents@).skip(1);
        self.bpe_ranks = RankTable::new();
        let mut rank: usize = 0;
        let mut i: usize = 1;
        while i < all.len()
            invariant
                1 <= i,
                all@.len() > 0 ==> i <= all@.len(),
                all@.len() == 0 ==> i == 1,
                views(all@) == lines_of(contents@),
                list == lines_of(contents@).skip(1),
                self.wf(),
                rank == ranks_of_lines(old(self)@.inverse, list, (i - 1) as nat).1,
                self@ == (BpeModel { ranks: ranks_of_lines(old(self)@.inverse, list, (i - 1) as nat).0, ..old(self)@ }),
            decreases all@.len() - i,
        {
            assert(list[i - 1] == all@[i as int]@);
            let parts = split_at_char(all[i].as_str(), ' ');
            let ghost pieces = split_on(list[i - 1], ' ');
            assert(views(parts@) == pieces);
            proof {
                lemma_next_rank_bound(old(self)@.inverse, list, (i - 1) as nat);
            }
            if parts.len() == 2 {
                assert(pieces[0] == parts@[0]@ && pieces[1] == parts@[1]@);
                if self.inverse_vocab.contains(parts[0].as_str()) && self.inverse_vocab.contains(parts[1].as_str()) {
                    self.bpe_ranks.insert(parts[0].as_str(), parts[1].as_str(), rank);
                    rank += 1;
                }
            }
            i += 1;
        }
        assert(views(all@).len() == all@.len());
    }

    /// The vocabulary as JSON, always. Reading the text gives the vocabulary back.
    pub fn vocab_json(&self) -> (r: Result<String, serde_json::Error>)
        ensures
            r is Ok,
            r matches Ok(text) ==> json_id_tokens(text@) == Some(self@.vocab),
    {
        self.vocab.to_json()
    }

    /// The learned merges, each pair once.
    pub fn merge_list(&self) -> (r: Vec<MergeEntry>)
        requires
            self.wf(),
        ensures
            lists_merges(r@, self@.merges),
    {
        self.bpe_merges.entries().clone()
    }

    /// Stores ids with what they spell, and merges.
    pub fn absorb_saved(&mut self, vocab: Vec<(usize, String)>, merges: Vec<MergeEntry>)
        requires
            old(self).wf(),
        ensures
            final(self).wf(),
            final(self)@ == with_merge_list(with_id_tokens(old(self)@, vocab@), merges@),
    {
        let mut i: usize = 0;
        assert(vocab@.take(0) =~= Seq::empty());
        while i < vocab.len()
            invariant
                i <= vocab@.len(),
                self.wf(),
                self@ == with_id_tokens(old(self)@, vocab@.take(i as int)),
            decreases vocab@.len() - i,
        {
            assert(vocab@.take(i + 1).drop_last() =~= vocab@.take(i as int));
            self.vocab.insert(vocab[i].0, vocab[i].1.clone());
            self.inverse_vocab.insert(vocab[i].1.clone(), vocab[i].0);
            i += 1;
        }
        assert(vocab@.take(i as int) =~= vocab@);
        let ghost spelled = self@;
        let mut k: usize = 0;
        assert(merges@.take(0) =~= Seq::empty());
        while k < merges.len()
            invariant
                k <= merges@.len(),
                self.wf(),
                self@ == with_merge_list(spelled, merges@.take(k as int)),
            decreases merges@.len() - k,
        {
            assert(merges@.take(k + 1).drop_last() =~= merges@.take(k as int));
            self.bpe_merges.insert(merges[k].pair, merges[k].new_id);
            k += 1;
        }
        assert(merges@.take(k as int) =~= merges@);
    }

    /// Loads a saved tokenizer: a JSON object that says what each id spells, and the merges.
    pub fn load_vocab_and_merges(&mut self, vocab_json: &str, merges: Vec<MergeEntry>) -> (r: Result<(), LoadError>)
        requires
            old(self).wf(),
        ensures
            final(self).wf(),
            match json_id_tokens(vocab_json@) {
                None => r is Err && r->Err_0 is Json && *final(self) == *old(self),
                Some(table) => r is Ok && exists|entries: Seq<(usize, String)>| #[trigger]
                    lists_id_tokens(entries, table) && final(self)@ == with_merge_list(
                        with_id_tokens(old(self)@, entries),
                        merges@,
                    ),
            },
    {
        match parse_id_tokens(vocab_json) {
            Err(e) => Err(LoadError::Json(e)),
            Ok(entries) => {
                assert(lists_id_tokens(entries@, json_id_tokens(vocab_json@)->0));
                self.absorb_saved(entries, merges);
                Ok(())
            },
        }
    }
}

proof fn lemma_stored_ids(entries: Seq<(usize, String)>, k: int)
    requires
        0 <= k <= entries.len(),
        forall|i: int, j: int| 0 <= i < j < entries.len() ==> entries[i].0 != entries[j].0,
    ensures
        forall|i: int|
            0 <= i < k ==> {
                let now = with_id_tokens(BpeModel::empty(), entries.take(k));
                let entry = #[trigger] entries[i];
                &&& now.vocab.contains_key(entry.0)
                &&& now.vocab[entry.0] == entry.1@
                &&& now.inverse.contains_key(entry.1@)
            },
        forall|id: usize| #[trigger]
            with_id_tokens(BpeModel::empty(), entries.take(k)).vocab.contains_key(id) ==> exists|i: int|
                0 <= i < k && (#[trigger] entries[i]).0 == id,
        with_id_tokens(BpeModel::empty(), entries.take(k)).coherent(),
        with_id_tokens(BpeModel::empty(), entries.take(k)).merges == Map::<(usize, usize), usize>::empty(),
        with_id_tokens(BpeModel::empty(), entries.take(k)).ranks == Map::<(Seq<char>, Seq<char>), usize>::empty(),
    decreases k,
{
    if k > 0 {
        lemma_stored_ids(entries, k - 1);
        assert(entries.take(k).drop_last() =~= entries.take(k - 1));
        let before = with_id_tokens(BpeModel::empty(), entries.take(k - 1));
        let now = with_id_tokens(BpeModel::empty(), entries.take(k));
        let last = entries[k - 1];
        assert(entries.take(k).last() == last);
        assert(!before.vocab.contains_key(last.0)) by {
            if before.vocab.contains_key(last.0) {
                let i = choose|i: int| 0 <= i < k - 1 && (#[trigger] entries[i]).0 == last.0;
                assert(entries[i].0 != entries[k - 1].0);
            }
        }
        assert forall|id: usize| #[trigger] now.vocab.contains_key(id) implies exists|i: int|
            0 <= i < k && (#[trigger] entries[i]).0 == id by {
            if id == last.0 {
                assert(entries[k - 1].0 == id);
            } else {
                assert(before.vocab.contains_key(id));
            }
        }
        assert forall|t: Seq<char>| #[trigger] now.inverse.contains_key(t) implies now.vocab.contains_key(now.inverse[t])
            && now.vocab[now.inverse[t]] == t by {
            if t != last.1@ {
                assert(before.inverse.contains_key(t));
            }
        }
    } else {
        assert(entries.take(0) =~= Seq::empty());
    }
}

proof fn lemma_stored_merges(m: BpeModel, list: Seq<MergeEntry>, k: int)
    requires
        0 <= k <= list.len(),
        m.merges == Map::<(usize, usize), usize>::empty(),
        forall|i: int, j: int| 0 <= i < list.len() && 0 <= j < list.len() && i != j ==> list[i].pair != list[j].pair,
    ensures
        with_merge_list(m, list.take(k)) == (BpeModel { merges: with_merge_list(m, list.take(k)).merges, ..m }),
        forall|i: int|
            0 <= i < k ==> with_merge_list(m, list.take(k)).merges.contains_key((#[trigger] list[i]).pair)
                && with_merge_list(m, list.take(k)).merges[list[i].pair] == list[i].new_id,
        forall|p: (usize, usize)| #[trigger]
            with_merge_list(m, list.take(k)).merges.contains_key(p) ==> exists|i: int|
                0 <= i < k && (#[trigger] list[i]).pair == p,
    decreases k,
{
    if k > 0 {
        lemma_stored_merges(m, list, k - 1);
        assert(list.take(k).drop_last() =~= list.take(k - 1));
        assert(list.take(k).last() == list[k - 1]);
        let before = with_merge_list(m, list.take(k - 1));
        let now = with_merge_list(m, list.take(k));
        assert forall|p: (usize, usize)| #[trigger] now.merges.contains_key(p) implies exists|i: int|
            0 <= i < k && (#[trigger] list[i]).pair == p by {
            if p == list[k - 1].pair {
            } else {
                assert(before.merges.contains_key(p));
            }
        }
        assert forall|i: int| 0 <= i < k implies now.merges.contains_key((#[trigger] list[i]).pair)
            && now.merges[list[i].pair] == list[i].new_id by {
            if i < k - 1 {
                assert(list[i].pair != list[k - 1].pair);
            }
        }
    } else {
        assert(list.take(0) =~= Seq::<MergeEntry>::empty());
    }
}

/// A tokenizer that was saved and loaded into a new one has its vocabulary and its merges again,
/// every token of the vocabulary has an id, and that id spells the token. It has no ranks.
pub proof fn law_load_restores_saved(
    vocab: Map<usize, Seq<char>>,
    merges: Map<(usize, usize), usize>,
    entries: Seq<(usize, String)>,
    list: Seq<MergeEntry>,
)
    requires
        lists_id_tokens(entries, vocab),
        lists_merges(list, merges),
    ensures
        ({
            let loaded = with_merge_list(with_id_tokens(BpeModel::empty(), entries), list);
            &&& loaded.vocab == vocab
            &&& loaded.merges == merges
            &&& loaded.ranks == Map::<(Seq<char>, Seq<char>), usize>::empty()
            &&& loaded.coherent()
            &&& loaded.spellings_known()
        }),
{
    let spelled = with_id_tokens(BpeModel::empty(), entries);
    lemma_stored_ids(entries, entries.len() as int);
    assert(entries.take(entries.len() as int) =~= entries);
    lemma_stored_merges(spelled, list, list.len() as int);
    assert(list.take(list.len() as int) =~= list);
    let loaded = with_merge_list(spelled, list);
    assert(loaded.vocab =~= vocab) by {
        assert forall|id: usize| vocab.contains_key(id) implies spelled.vocab.contains_key(id) && spelled.vocab[id]
            == vocab[id] by {
            let i = choose|i: int| 0 <= i < entries.len() && (#[trigger] entries[i]).0 == id;
            assert(spelled.vocab[entries[i].0] == entries[i].1@);
        }
        assert forall|id: usize| #[trigger] spelled.vocab.contains_key(id) implies vocab.contains_key(id) by {
            let i = choose|i: int| 0 <= i < entries.len() && (#[trigger] entries[i]).0 == id;
            assert(vocab.contains_key(entries[i].0));
        }
    }
    assert(loaded.merges =~= merges) by {
        assert forall|p: (usize, usize)| merges.contains_key(p) implies loaded.merges.contains_key(p) && loaded.merges[p]
            == merges[p] by {
            let i = choose|i: int| 0 <= i < list.len() && (#[trigger] list[i]).pair == p;
            assert(loaded.merges[list[i].pair] == list[i].new_id);
        }
        assert forall|p: (usize, usize)| #[trigger] loaded.merges.contains_key(p) implies merges.contains_key(p) by {
            let i = choose|i: int| 0 <= i < list.len() && (#[trigger] list[i]).pair == p;
            assert(merges.contains_key(list[i].pair));
        }
    }
    assert forall|id: usize| #[trigger] vocab.contains_key(id) implies loaded.inverse.contains_key(vocab[id]) by {
        let i = choose|i: int| 0 <= i < entries.len() && (#[trigger] entries[i]).0 == id;
        assert(spelled.inverse.contains_key(entries[i].1@));
    }
}

} // verus!
