//! The byte-pair tokenizer.

use vstd::prelude::*;

use crate::bpe::model::BpeModel;
use crate::bpe::tables::{IdTable, MergeTable, RankTable};
use crate::token_table::TokenTable;

verus! {

/// A byte-pair tokenizer.
pub struct BytePair {
    /// What each id spells.
    pub vocab: IdTable,
    /// The id of each token.
    pub inverse_vocab: TokenTable<usize>,
    /// The learned merges.
    pub bpe_merges: MergeTable,
    /// The ranks of loaded merges.
    pub bpe_ranks: RankTable,
}

impl View for BytePair {
    type V = BpeModel;

    open spec fn view(&self) -> BpeModel {
        BpeModel {
            vocab: self.vocab@,
            inverse: self.inverse_vocab@,
            merges: self.bpe_merges@,
            ranks: self.bpe_ranks@,
        }
    }
}

impl BytePair {
    /// The tables are well formed.
    pub open spec fn wf(&self) -> bool {
        &&& self.inverse_vocab.wf()
        &&& self.bpe_merges.wf()
        &&& self.bpe_ranks.wf()
    }

    /// A tokenizer that knows nothing.
    pub fn new() -> (r: Self)
        ensures
            r.wf(),
            r@ == BpeModel::empty(),
    {
        BytePair {
            vocab: IdTable::new(),
            inverse_vocab: TokenTable::new(),
            bpe_merges: MergeTable::new(),
            bpe_ranks: RankTable::new(),
        }
    }

    /// Picks a pair of neighbours that occurs most often (`"most"`) or least often (`"least"`).
    /// Where several pairs qualify, any of them may be returned.
    pub fn find_freq_pair(&self, tokens: &Vec<usize>, mode: &str) -> (r: Option<(usize, usize)>)
        requires
            tokens@.len() >= 2 ==> mode@ == "most"@ || mode@ == "least"@,
        ensures
            r is None <==> tokens@.len() < 2,
            r matches Some(pair) ==> (if mode@ == "most"@ {
                crate::bpe::merging::most_frequent(tokens@, pair)
            } else {
                crate::bpe::merging::least_frequent(tokens@, pair)
            }),
    {
        crate::bpe::merging::find_freq_pair(tokens, mode)
    }

    /// Replaces every occurrence of `pair_id` by `new_pair_id`, from left to right without overlap.
    pub fn replace_pair(
        &mut self,
        tokens: &mut Vec<usize>,
        pair_id: &(usize, usize),
        new_pair_id: usize,
    ) -> (r: Vec<usize>)
        ensures
            *final(self) == *old(self),
            final(tokens)@ == old(tokens)@,
            r@ == crate::bpe::merging::merge_pass(
                old(tokens)@,
                crate::bpe::merging::only_pair(*pair_id, new_pair_id),
            ),
    {
        crate::bpe::merging::replace_pair(tokens, *pair_id, new_pair_id)
    }
}

} // verus!
