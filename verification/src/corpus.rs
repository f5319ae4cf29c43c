//! Texts to learn from: an excerpt, and its split into what is learnt and what is held back.

use vstd::prelude::*;

verus! {

/// Whether a phrase stands at a place in a text.
pub open spec fn stands_at(text: Seq<u8>, phrase: Seq<u8>, at: int) -> bool {
    0 <= at && at + phrase.len() <= text.len() && text.subrange(at, at + phrase.len()) == phrase
}

fn matches_here(text: &Vec<u8>, phrase: &Vec<u8>, at: usize) -> (r: bool)
    requires
        at + phrase@.len() <= text@.len(),
    ensures
        r == stands_at(text@, phrase@, at as int),
{
    let total: usize = text.len();
    let mut i: usize = 0;
    while i < phrase.len()
        invariant
            i <= phrase@.len(),
            total == text@.len(),
            at + phrase@.len() <= total,
            forall|k: int| 0 <= k < i ==> text@[at + k] == #[trigger] phrase@[k],
        decreases phrase@.len() - i,
    {
        if text[at + i] != phrase[i] {
            assert(text@.subrange(at as int, at + phrase@.len())[i as int] != phrase@[i as int]);
            return false;
        }
        i += 1;
    }
    assert(text@.subrange(at as int, at + phrase@.len()) =~= phrase@);
    true
}

/// The first place of a phrase in a text.
pub fn find_phrase(text: &Vec<u8>, phrase: &Vec<u8>) -> (r: Option<usize>)
    ensures
        match r {
            Some(at) => stands_at(text@, phrase@, at as int) && forall|j: int|
                0 <= j < at ==> !#[trigger] stands_at(text@, phrase@, j),
            None => forall|j: int| !#[trigger] stands_at(text@, phrase@, j),
        },
{
    if phrase.len() > text.len() {
        return None;
    }
    let last: usize = text.len() - phrase.len();
    let mut at: usize = 0;
    loop
        invariant
            at <= last,
            last + phrase@.len() == text@.len(),
            forall|j: int| 0 <= j < at ==> !#[trigger] stands_at(text@, phrase@, j),
        decreases last - at,
    {
        if matches_here(text, phrase, at) {
            return Some(at);
        }
        if at == last {
            return None;
        }
        at += 1;
    }
}

/// The part of a text from a place on.
pub fn excerpt(text: &Vec<u8>, start: usize, len: usize) -> (r: Vec<u8>)
    requires
        start + len <= text@.len(),
    ensures
        r@ == text@.subrange(start as int, start + len),
{
    let total: usize = text.len();
    let mut out: Vec<u8> = Vec::new();
    let mut i: usize = 0;
    assert(text@.subrange(start as int, start as int) =~= Seq::<u8>::empty());
    while i < len
        invariant
            i <= len,
            total == text@.len(),
            start + len <= total,
            out@ == text@.subrange(start as int, start + i),
        decreases len - i,
    {
        out.push(text[start + i]);
        i += 1;
        assert(out@ =~= text@.subrange(start as int, start + i));
    }
    out
}

/// A sequence of tokens in two.
pub struct Split {
    /// What is learnt.
    pub train: Vec<usize>,
    /// What is held back.
    pub validation: Vec<usize>,
}

/// Splits a sequence of tokens: the first `at` are learnt, the rest is held back.
pub fn split_tokens(tokens: &Vec<usize>, at: usize) -> (r: Split)
    requires
        at <= tokens@.len(),
    ensures
        r.train@ == tokens@.take(at as int),
        r.validation@ == tokens@.skip(at as int),
{
    let mut train: Vec<usize> = Vec::new();
    let mut validation: Vec<usize> = Vec::new();
    let mut i: usize = 0;
    assert(tokens@.take(0) =~= Seq::<usize>::empty());
    while i < at
        invariant
            i <= at <= tokens@.len(),
            train@ == tokens@.take(i as int),
        decreases at - i,
    {
        train.push(tokens[i]);
        i += 1;
        assert(train@ =~= tokens@.take(i as int));
    }
    let ghost rest = tokens@.skip(at as int);
    assert(rest.take(0) =~= Seq::<usize>::empty());
    while i < tokens.len()
        invariant
            at <= i <= tokens@.len(),
            rest == tokens@.skip(at as int),
            validation@ == rest.take(i - at),
        decreases tokens@.len() - i,
    {
        validation.push(tokens[i]);
        i += 1;
        assert(validation@ =~= rest.take(i - at));
    }
    assert(rest.take(i - at) =~= rest);
    Split { train, validation }
}

/// Nothing is lost in a split, and nothing changes its place: both parts in order are the whole.
pub proof fn law_split_is_sequential(tokens: Seq<usize>, at: int)
    requires
        0 <= at <= tokens.len(),
    ensures
        tokens.take(at) + tokens.skip(at) == tokens,
{
    assert(tokens.take(at) + tokens.skip(at) =~= tokens);
}

} // verus!
