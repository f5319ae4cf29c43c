//! The lookup tables of a byte-pair tokenizer.

use std::collections::HashMap;
use vstd::assert_by_contradiction;
use vstd::hash_map::StringHashMap;
use vstd::prelude::*;
use vstd::std_specs::hash::group_hash_axioms;

use crate::bpe::outside::{json_id_tokens, write_id_tokens};

verus! {

broadcast use group_hash_axioms;

/// Token ids and what each of them spells.
pub struct IdTable {
    tokens: HashMap<usize, String>,
}

impl View for IdTable {
    type V = Map<usize, Seq<char>>;

    closed spec fn view(&self) -> Map<usize, Seq<char>> {
        self.tokens@.map_values(|s: String| s@)
    }
}

impl IdTable {
    /// A table without entries.
    pub fn new() -> (r: Self)
        ensures
            r@ == Map::<usize, Seq<char>>::empty(),
    {
        let r = IdTable { tokens: HashMap::new() };
        assert(r@ =~= Map::<usize, Seq<char>>::empty());
        r
    }

    /// The number of ids in use.
    pub fn len(&self) -> (r: usize)
        ensures
            r == self@.len(),
    {
        assert(self@.dom() =~= self.tokens@.dom());
        self.tokens.len()
    }

    /// What `id` spells, if it is in use.
    pub fn get(&self, id: usize) -> (r: Option<&String>)
        ensures
            match r {
                Some(token) => self@.contains_key(id) && token@ == self@[id],
                None => !self@.contains_key(id),
            },
    {
        self.tokens.get(&id)
    }

    /// The table as JSON, always. Reading the text gives the table back.
    pub fn to_json(&self) -> (r: Result<String, serde_json::Error>)
        ensures
            r is Ok,
            r matches Ok(text) ==> json_id_tokens(text@) == Some(self@),
    {
        write_id_tokens(&self.tokens)
    }

    /// The table is finite.
    pub proof fn lemma_finite(&self)
        ensures
            self@.dom().finite(),
    {
        assert(self@.dom() =~= self.tokens@.dom());
    }

    /// Makes `id` spell `token`.
    pub fn insert(&mut self, id: usize, token: String)
        ensures
            final(self)@ == old(self)@.insert(id, token@),
    {
        self.tokens.insert(id, token);
        assert(self@ =~= old(self)@.insert(id, token@));
    }
}

/// A pair of ids and the id that replaces it.
#[derive(Clone, Copy)]
pub struct MergeEntry {
    pub pair: (usize, usize),
    pub new_id: usize,
}

/// Both members of a pair in one number.
pub open spec fn pair_key(pair: (usize, usize)) -> u128 {
    (pair.0 * 0x1_0000_0000_0000_0000 + pair.1) as u128
}

fn key_of(pair: (usize, usize)) -> (r: u128)
    ensures
        r == pair_key(pair),
{
    assert(pair.0 <= 0xffff_ffff_ffff_ffff && pair.1 <= 0xffff_ffff_ffff_ffff);
    pair.0 as u128 * 0x1_0000_0000_0000_0000 + pair.1 as u128
}

proof fn lemma_pair_key_injective(a: (usize, usize), b: (usize, usize))
    ensures
        pair_key(a) == pair_key(b) ==> a == b,
{
    assert(a.0 <= 0xffff_ffff_ffff_ffff && a.1 <= 0xffff_ffff_ffff_ffff);
    assert(b.0 <= 0xffff_ffff_ffff_ffff && b.1 <= 0xffff_ffff_ffff_ffff);
}

/// A count, an id or a rank for each pair of ids.
pub struct PairTable {
    values: HashMap<u128, usize>,
}

impl View for PairTable {
    type V = Map<(usize, usize), usize>;

    closed spec fn view(&self) -> Map<(usize, usize), usize> {
        Map::new(
            |p: (usize, usize)| self.values@.contains_key(pair_key(p)),
            |p: (usize, usize)| self.values@[pair_key(p)],
        )
    }
}

impl PairTable {
    /// A table without entries.
    pub fn new() -> (r: Self)
        ensures
            r@ == Map::<(usize, usize), usize>::empty(),
    {
        let r = PairTable { values: HashMap::new() };
        assert(r@ =~= Map::<(usize, usize), usize>::empty());
        r
    }

    /// What is stored for `pair`, if anything.
    pub fn get(&self, pair: (usize, usize)) -> (r: Option<usize>)
        ensures
            r == (if self@.contains_key(pair) {
                Some(self@[pair])
            } else {
                None
            }),
    {
        let key: u128 = key_of(pair);
        match self.values.get(&key) {
            Some(v) => Some(*v),
            None => None,
        }
    }

    /// Stores `value` for `pair`.
    pub fn insert(&mut self, pair: (usize, usize), value: usize)
        ensures
            final(self)@ == old(self)@.insert(pair, value),
    {
        let key: u128 = key_of(pair);
        self.values.insert(key, value);
        proof {
            assert forall|p: (usize, usize)| pair_key(p) == key implies p == pair by {
                lemma_pair_key_injective(p, pair);
            }
            assert(self@ =~= old(self)@.insert(pair, value));
        }
    }
}

/// The merges that a tokenizer has learned, each pair once.
pub struct MergeTable {
    places: PairTable,
    entries: Vec<MergeEntry>,
}

impl View for MergeTable {
    type V = Map<(usize, usize), usize>;

    closed spec fn view(&self) -> Map<(usize, usize), usize> {
        self.places@.map_values(|at: usize| self.entries@[at as int].new_id)
    }
}

/// Whether `list` holds exactly the entries of `merges`, each pair once.
pub open spec fn lists_merges(list: Seq<MergeEntry>, merges: Map<(usize, usize), usize>) -> bool {
    &&& forall|i: int, j: int| 0 <= i < list.len() && 0 <= j < list.len() && i != j ==> list[i].pair != list[j].pair
    &&& forall|i: int|
        0 <= i < list.len() ==> merges.contains_key((#[trigger] list[i]).pair) && merges[list[i].pair]
            == list[i].new_id
    &&& forall|p: (usize, usize)| #[trigger]
        merges.contains_key(p) ==> exists|i: int| 0 <= i < list.len() && (#[trigger] list[i]).pair == p
}

impl MergeTable {
    /// Each pair is stored at the place the index gives for it, and nothing else is stored.
    pub closed spec fn wf(&self) -> bool {
        &&& forall|p: (usize, usize)| #[trigger]
            self.places@.contains_key(p) ==> self.places@[p] < self.entries@.len()
                && self.entries@[self.places@[p] as int].pair == p
        &&& forall|i: int|
            0 <= i < self.entries@.len() ==> self.places@.contains_key((#[trigger] self.entries@[i]).pair)
                && self.places@[self.entries@[i].pair] == i
    }

    /// A table without entries.
    pub fn new() -> (r: Self)
        ensures
            r.wf(),
            r@ == Map::<(usize, usize), usize>::empty(),
    {
        let r = MergeTable { places: PairTable::new(), entries: Vec::new() };
        assert(r@ =~= Map::<(usize, usize), usize>::empty());
        r
    }

    /// The id that replaces `pair`, if the pair is merged.
    pub fn get(&self, pair: (usize, usize)) -> (r: Option<usize>)
        requires
            self.wf(),
        ensures
            r == (if self@.contains_key(pair) {
                Some(self@[pair])
            } else {
                None
            }),
    {
        match self.places.get(pair) {
            Some(at) => Some(self.entries[at].new_id),
            None => None,
        }
    }

    /// Lets `new_id` replace `pair`.
    pub fn insert(&mut self, pair: (usize, usize), new_id: usize)
        requires
            old(self).wf(),
        ensures
            final(self).wf(),
            final(self)@ == old(self)@.insert(pair, new_id),
    {
        match self.places.get(pair) {
            Some(at) => {
                self.entries.set(at, MergeEntry { pair, new_id });
            },
            None => {
                self.places.insert(pair, self.entries.len());
                self.entries.push(MergeEntry { pair, new_id });
            },
        }
        assert(self@ =~= old(self)@.insert(pair, new_id));
    }

    /// The merges, each pair once, in the order in which the pairs were first stored.
    pub fn entries(&self) -> (r: &Vec<MergeEntry>)
        requires
            self.wf(),
        ensures
            lists_merges(r@, self@),
    {
        &self.entries
    }
}

/// The rank of each pair of token spellings.
pub struct RankTable {
    numbers: StringHashMap<usize>,
    names: Vec<String>,
    ranks: PairTable,
    used: bool,
}

impl View for RankTable {
    type V = Map<(Seq<char>, Seq<char>), usize>;

    closed spec fn view(&self) -> Map<(Seq<char>, Seq<char>), usize> {
        Map::new(
            |p: (Seq<char>, Seq<char>)|
                self.numbers@.contains_key(p.0) && self.numbers@.contains_key(p.1) && self.ranks@.contains_key(
                    (self.numbers@[p.0], self.numbers@[p.1]),
                ),
            |p: (Seq<char>, Seq<char>)| self.ranks@[(self.numbers@[p.0], self.numbers@[p.1])],
        )
    }
}

impl RankTable {
    /// Every spelling has a number of its own, ranks are stored for numbers in use, and the table
    /// knows whether it is empty.
    pub closed spec fn wf(&self) -> bool {
        &&& forall|s: Seq<char>| #[trigger]
            self.numbers@.contains_key(s) ==> self.numbers@[s] < self.names@.len()
                && self.names@[self.numbers@[s] as int]@ == s
        &&& forall|p: (usize, usize)| #[trigger]
            self.ranks@.contains_key(p) ==> p.0 < self.names@.len() && p.1 < self.names@.len()
        &&& self.used <==> exists|p: (Seq<char>, Seq<char>)| self@.contains_key(p)
    }

    /// A table without entries.
    pub fn new() -> (r: Self)
        ensures
            r.wf(),
            r@ == Map::<(Seq<char>, Seq<char>), usize>::empty(),
    {
        let r = RankTable {
            numbers: StringHashMap::new(),
            names: Vec::new(),
            ranks: PairTable::new(),
            used: false,
        };
        assert(r@ =~= Map::<(Seq<char>, Seq<char>), usize>::empty());
        r
    }

    /// Whether no pair has a rank.
    pub fn is_empty(&self) -> (r: bool)
        requires
            self.wf(),
        ensures
            r == (self@ == Map::<(Seq<char>, Seq<char>), usize>::empty()),
    {
        proof {
            if self@ != Map::<(Seq<char>, Seq<char>), usize>::empty() {
                assert_by_contradiction!(exists|p: (Seq<char>, Seq<char>)| self@.contains_key(p), {
                    assert(self@ =~= Map::<(Seq<char>, Seq<char>), usize>::empty());
                });
            }
        }
        !self.used
    }

    /// The rank of the pair of `a` and `b`, if it has one.
    pub fn get(&self, a: &str, b: &str) -> (r: Option<usize>)
        ensures
            r == (if self@.contains_key((a@, b@)) {
                Some(self@[(a@, b@)])
            } else {
                None
            }),
    {
        match self.numbers.get(a) {
            Some(x) => match self.numbers.get(b) {
                Some(y) => self.ranks.get((*x, *y)),
                None => None,
            },
            None => None,
        }
    }

    fn number_of(&mut self, s: &str) -> (r: usize)
        requires
            old(self).wf(),
        ensures
            final(self).wf(),
            final(self)@ == old(self)@,
            final(self).ranks == old(self).ranks,
            final(self).numbers@.contains_key(s@),
            r == final(self).numbers@[s@],
            forall|t: Seq<char>| #[trigger]
                old(self).numbers@.contains_key(t) ==> final(self).numbers@.contains_key(t)
                    && final(self).numbers@[t] == old(self).numbers@[t],
    {
        if let Some(n) = self.numbers.get(s) {
            return *n;
        }
        let n: usize = self.names.len();
        self.names.push(s.to_owned());
        self.numbers.insert(s.to_owned(), n);
        assert(self@ =~= old(self)@);
        assert(self.used <==> exists|p: (Seq<char>, Seq<char>)| self@.contains_key(p));
        n
    }

    /// Gives the pair of `a` and `b` the rank `rank`.
    pub fn insert(&mut self, a: &str, b: &str, rank: usize)
        requires
            old(self).wf(),
        ensures
            final(self).wf(),
            final(self)@ == old(self)@.insert((a@, b@), rank),
    {
        let x: usize = self.number_of(a);
        let y: usize = self.number_of(b);
        let ghost before = *self;
        self.ranks.insert((x, y), rank);
        self.used = true;
        assert(self@ =~= old(self)@.insert((a@, b@), rank)) by {
            assert forall|p: (Seq<char>, Seq<char>)|
                self.numbers@.contains_key(p.0) && self.numbers@.contains_key(p.1) && (
                self.numbers@[p.0],
                self.numbers@[p.1],
            ) == (x, y) implies p == (a@, b@) by {
                assert(self.names@[x as int]@ == p.0);
                assert(self.names@[y as int]@ == p.1);
                assert(self.numbers@.contains_key(a@));
                assert(self.numbers@.contains_key(b@));
            }
            assert forall|p: (Seq<char>, Seq<char>)| p != (a@, b@) implies self@.contains_key(p)
                == before@.contains_key(p) by {}
        }
        assert(self@.contains_key((a@, b@)));
    }
}

} // verus!
