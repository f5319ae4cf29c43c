//! What a byte-pair tokenizer knows, and what training makes of it.

use vstd::prelude::*;

use crate::bpe::merging::{merge_pass, most_frequent, only_pair};
use crate::bpe::tables::{lists_merges, MergeEntry};

verus! {

/// The mark that stands for the space in front of a word.
pub const SPACE_MARK: char = 'Ġ';

/// The knowledge of a byte-pair tokenizer.
#[verifier::ext_equal]
pub struct BpeModel {
    /// What each id spells.
    pub vocab: Map<usize, Seq<char>>,
    /// The id of each token.
    pub inverse: Map<Seq<char>, usize>,
    /// The id that replaces each learned pair of ids.
    pub merges: Map<(usize, usize), usize>,
    /// The rank of each loaded pair of tokens.
    pub ranks: Map<(Seq<char>, Seq<char>), usize>,
}

impl BpeModel {
    /// Knows nothing.
    pub open spec fn empty() -> Self {
        BpeModel { vocab: Map::empty(), inverse: Map::empty(), merges: Map::empty(), ranks: Map::empty() }
    }

    /// Gives `token` the id `id`, both ways.
    pub open spec fn with_token(self, id: usize, token: Seq<char>) -> Self {
        BpeModel { vocab: self.vocab.insert(id, token), inverse: self.inverse.insert(token, id), ..self }
    }

    /// Both members of every merge have a spelling.
    pub open spec fn merges_known(self) -> bool {
        forall|p: (usize, usize)| #[trigger]
            self.merges.contains_key(p) ==> self.vocab.contains_key(p.0) && self.vocab.contains_key(p.1)
    }

    /// Every token's id spells that token.
    pub open spec fn coherent(self) -> bool {
        forall|t: Seq<char>| #[trigger]
            self.inverse.contains_key(t) ==> self.vocab.contains_key(self.inverse[t]) && self.vocab[self.inverse[t]] == t
    }

    /// Everything that an id spells has an id.
    pub open spec fn spellings_known(self) -> bool {
        forall|id: usize| #[trigger] self.vocab.contains_key(id) ==> self.inverse.contains_key(self.vocab[id])
    }

    /// Both members of every merge have smaller ids than the merge.
    pub open spec fn merges_rise(self) -> bool {
        forall|p: (usize, usize)| #[trigger]
            self.merges.contains_key(p) ==> p.0 < self.merges[p] && p.1 < self.merges[p]
    }

    /// Every merge spells what its two members spell together.
    pub open spec fn merges_spell(self) -> bool {
        forall|p: (usize, usize)| #[trigger]
            self.merges.contains_key(p) ==> {
                &&& self.vocab.contains_key(p.0)
                &&& self.vocab.contains_key(p.1)
                &&& self.vocab.contains_key(self.merges[p])
                &&& self.vocab[self.merges[p]] == self.vocab[p.0] + self.vocab[p.1]
            }
    }
}

/// The training text: a space in front is dropped, every other space becomes the space mark.
pub open spec fn marked(text: Seq<char>) -> Seq<char> {
    let body = if text.len() > 0 && text[0] == ' ' {
        text.skip(1)
    } else {
        text
    };
    body.map_values(
        |c: char|
            if c == ' ' {
                SPACE_MARK
            } else {
                c
            },
    )
}

/// Whether `alphabet` can be the base alphabet for `text`: the first 256 code points, then the
/// other characters of the text in any order, then the space mark if it was not among them.
pub open spec fn is_alphabet(text: Seq<char>, alphabet: Seq<char>) -> bool {
    let end = alphabet.len() - if text.contains(SPACE_MARK) {
        0int
    } else {
        1int
    };
    &&& end >= 256
    &&& forall|i: int| 0 <= i < 256 ==> #[trigger] alphabet[i] as int == i
    &&& alphabet.no_duplicates()
    &&& forall|c: char|
        alphabet.subrange(256, end).contains(c) <==> (text.contains(c) && c as int >= 256)
    &&& !text.contains(SPACE_MARK) ==> alphabet.last() == SPACE_MARK
}

/// Gives the first `n` characters of `alphabet` their places as ids.
pub open spec fn with_alphabet(m: BpeModel, alphabet: Seq<char>, n: nat) -> BpeModel
    decreases n,
{
    if n == 0 {
        m
    } else {
        with_alphabet(m, alphabet, (n - 1) as nat).with_token((n - 1) as usize, seq![alphabet[n - 1]])
    }
}

/// Gives each special token that has no id yet the number of ids in use as its id.
pub open spec fn with_specials(m: BpeModel, specials: Seq<Seq<char>>) -> BpeModel
    decreases specials.len(),
{
    if specials.len() == 0 {
        m
    } else {
        let before = with_specials(m, specials.drop_last());
        if before.inverse.contains_key(specials.last()) {
            before
        } else {
            before.with_token(before.vocab.len() as usize, specials.last())
        }
    }
}

/// The token stream after the first `k` of the `chosen` pairs were merged into the ids `first`,
/// `first + 1` and so on.
pub open spec fn tokens_after(tokens: Seq<usize>, first: nat, chosen: Seq<(usize, usize)>, k: nat) -> Seq<usize>
    decreases k,
{
    if k == 0 {
        tokens
    } else {
        merge_pass(
            tokens_after(tokens, first, chosen, (k - 1) as nat),
            only_pair(chosen[k - 1], (first + k - 1) as usize),
        )
    }
}

/// Whether training may choose the pairs `chosen`: each is a most frequent one in the stream it is
/// chosen for, and training stops when the ids run out or no pair is left.
pub open spec fn learns(tokens: Seq<usize>, first: nat, limit: nat, chosen: Seq<(usize, usize)>) -> bool {
    &&& forall|k: int|
        0 <= k < chosen.len() ==> first + k < limit && most_frequent(
            tokens_after(tokens, first, chosen, k as nat),
            #[trigger] chosen[k],
        )
    &&& first + chosen.len() >= limit || tokens_after(tokens, first, chosen, chosen.len()).len() < 2
}

/// The merges after the first `k` of the `chosen` pairs were stored.
pub open spec fn merges_after(
    merges: Map<(usize, usize), usize>,
    first: nat,
    chosen: Seq<(usize, usize)>,
    k: nat,
) -> Map<(usize, usize), usize>
    decreases k,
{
    if k == 0 {
        merges
    } else {
        merges_after(merges, first, chosen, (k - 1) as nat).insert(chosen[k - 1], (first + k - 1) as usize)
    }
}

/// Spells out the merges of `order`, one after the other.
pub open spec fn with_merged_tokens(m: BpeModel, order: Seq<MergeEntry>) -> BpeModel
    decreases order.len(),
{
    if order.len() == 0 {
        m
    } else {
        let before = with_merged_tokens(m, order.drop_last());
        let entry = order.last();
        before.with_token(entry.new_id, before.vocab[entry.pair.0] + before.vocab[entry.pair.1])
    }
}

/// Whether the entries stand in the order of their ids.
pub open spec fn by_new_id(order: Seq<MergeEntry>) -> bool {
    forall|i: int, j: int| 0 <= i <= j < order.len() ==> order[i].new_id <= order[j].new_id
}

/// The knowledge before any merge is learned.
pub open spec fn base_model(m: BpeModel, alphabet: Seq<char>, specials: Seq<Seq<char>>) -> BpeModel {
    with_specials(with_alphabet(m, alphabet, alphabet.len()), specials)
}

/// The training text as ids of single characters.
pub open spec fn char_ids(m: BpeModel, text: Seq<char>) -> Seq<usize> {
    text.map_values(|c: char| m.inverse[seq![c]])
}

/// Whether training may go from `m` to `after` with the given choices.
pub open spec fn trains_with(
    m: BpeModel,
    text: Seq<char>,
    vocab_size: nat,
    specials: Seq<Seq<char>>,
    after: BpeModel,
    alphabet: Seq<char>,
    chosen: Seq<(usize, usize)>,
    order: Seq<MergeEntry>,
) -> bool {
    let base = base_model(m, alphabet, specials);
    let first = base.vocab.len();
    let merges = merges_after(m.merges, first, chosen, chosen.len());
    &&& is_alphabet(marked(text), alphabet)
    &&& learns(char_ids(base, marked(text)), first, vocab_size, chosen)
    &&& lists_merges(order, merges)
    &&& by_new_id(order)
    &&& after == with_merged_tokens((BpeModel { merges, ..base }), order)
}

/// Whether training on `text` may go from `m` to `after`. The order of the characters beyond the
/// first 256, the choice among equally frequent pairs and the order of merges with one id are open.
pub open spec fn trains(m: BpeModel, text: Seq<char>, vocab_size: nat, specials: Seq<Seq<char>>, after: BpeModel) -> bool {
    exists|alphabet: Seq<char>, chosen: Seq<(usize, usize)>, order: Seq<MergeEntry>|
        trains_with(m, text, vocab_size, specials, after, alphabet, chosen, order)
}

} // verus!
