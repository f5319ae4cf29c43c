//! Tables that are looked up by token and can be walked.

use vstd::hash_map::StringHashMap;
use vstd::prelude::*;

use crate::text::views;

verus! {

/// Tokens, and for each of them an id, a count or a score.
#[verifier::reject_recursive_types(V)]
pub struct TokenTable<V> {
    entries: StringHashMap<V>,
    names: Vec<String>,
}

impl<V> View for TokenTable<V> {
    type V = Map<Seq<char>, V>;

    closed spec fn view(&self) -> Map<Seq<char>, V> {
        self.entries@
    }
}

/// Whether `list` names every key of `keys` exactly once.
pub open spec fn enumerates(list: Seq<Seq<char>>, keys: Set<Seq<char>>) -> bool {
    &&& list.no_duplicates()
    &&& forall|s: Seq<char>| list.contains(s) <==> keys.contains(s)
}

/// A set that is enumerated by a list has as many elements as the list.
pub proof fn lemma_enumeration_len(list: Seq<Seq<char>>, keys: Set<Seq<char>>)
    requires
        enumerates(list, keys),
    ensures
        keys.finite(),
        keys.len() == list.len(),
{
    list.unique_seq_to_set();
    assert(list.to_set() =~= keys);
}

impl<V: Copy> TokenTable<V> {
    /// The list of names holds each key once.
    pub closed spec fn wf(&self) -> bool {
        enumerates(views(self.names@), self.entries@.dom())
    }

    /// A table without entries.
    pub fn new() -> (r: Self)
        ensures
            r.wf(),
            r@ == Map::<Seq<char>, V>::empty(),
    {
        let r = TokenTable { entries: StringHashMap::new(), names: Vec::new() };
        assert(views(r.names@) =~= Seq::<Seq<char>>::empty());
        r
    }

    /// What is stored for `token`, if anything.
    pub fn get(&self, token: &str) -> (r: Option<V>)
        ensures
            r == (if self@.contains_key(token@) {
                Some(self@[token@])
            } else {
                None
            }),
    {
        match self.entries.get(token) {
            Some(value) => Some(*value),
            None => None,
        }
    }

    /// Whether something is stored for `token`.
    pub fn contains(&self, token: &str) -> (r: bool)
        ensures
            r == self@.contains_key(token@),
    {
        self.entries.contains_key(token)
    }

    /// The number of tokens.
    pub fn len(&self) -> (r: usize)
        requires
            self.wf(),
        ensures
            self@.dom().finite(),
            r == self@.len(),
    {
        proof {
            lemma_enumeration_len(views(self.names@), self@.dom());
        }
        self.names.len()
    }

    /// Stores `value` for `token`.
    pub fn insert(&mut self, token: String, value: V)
        requires
            old(self).wf(),
        ensures
            final(self).wf(),
            final(self)@ == old(self)@.insert(token@, value),
    {
        let ghost before = views(self.names@);
        if !self.entries.contains_key(token.as_str()) {
            self.names.push(token.clone());
            let ghost after = views(self.names@);
            assert(after =~= before.push(token@));
            assert(after.last() == token@);
            assert forall|s: Seq<char>| after.contains(s) <==> self.entries@.dom().insert(token@).contains(s) by {
                if before.contains(s) {
                    let k = choose|k: int| 0 <= k < before.len() && before[k] == s;
                    assert(after[k] == s);
                }
                if after.contains(s) && s != token@ {
                    let k = choose|k: int| 0 <= k < after.len() && after[k] == s;
                    assert(before[k] == s);
                }
                if s == token@ {
                    assert(after[after.len() - 1] == s);
                }
            }
            assert(!before.contains(token@));
            assert(after.no_duplicates()) by {
                assert forall|i: int, j: int| 0 <= i < after.len() && 0 <= j < after.len() && i != j implies after[i]
                    != after[j] by {
                    if i < before.len() {
                        assert(before[i] == after[i]);
                        assert(before.contains(before[i]));
                    }
                    if j < before.len() {
                        assert(before[j] == after[j]);
                        assert(before.contains(before[j]));
                    }
                }
            }
        } else {
            assert(self.entries@.dom().insert(token@) =~= self.entries@.dom());
        }
        self.entries.insert(token, value);
    }

    /// The tokens of the table, each once.
    pub fn names(&self) -> (r: &Vec<String>)
        requires
            self.wf(),
        ensures
            enumerates(views(r@), self@.dom()),
    {
        &self.names
    }
}

} // verus!
