//! Sequences that grow token by token.

use vstd::prelude::*;

use crate::numbers::Arithmetic;
use crate::sampling::{can_choose, chosen, sample_next_token};

verus! {

/// How the next token is chosen.
#[derive(Clone, Copy)]
pub struct Decoding {
    /// How much chance there is; next to none leaves only the best token.
    pub temperature: u32,
    /// How many of the best tokens are looked at.
    pub top_k: Option<usize>,
    /// The probability that the tokens that are looked at reach together.
    pub top_p: Option<u32>,
}

/// Where the context of a sequence begins.
pub open spec fn context_start(len: nat, window: nat) -> nat {
    if len > window {
        (len - window) as nat
    } else {
        0
    }
}

/// The context of a sequence: its last tokens, as many as fit in the window.
pub open spec fn context_of(tokens: Seq<usize>, window: nat) -> Seq<usize> {
    tokens.skip(context_start(tokens.len(), window) as int)
}

/// The context of a sequence.
pub fn crop(tokens: &Vec<usize>, window: usize) -> (r: Vec<usize>)
    ensures
        r@ == context_of(tokens@, window as nat),
{
    let start: usize = if tokens.len() > window {
        tokens.len() - window
    } else {
        0
    };
    let ghost goal = context_of(tokens@, window as nat);
    let mut out: Vec<usize> = Vec::new();
    let mut i: usize = start;
    assert(goal.take(0) =~= Seq::<usize>::empty());
    while i < tokens.len()
        invariant
            start == context_start(tokens@.len(), window as nat),
            goal == context_of(tokens@, window as nat),
            start <= i <= tokens@.len(),
            out@ == goal.take(i - start),
        decreases tokens@.len() - i,
    {
        out.push(tokens[i]);
        assert(out@ =~= goal.take(i + 1 - start));
        i += 1;
    }
    assert(goal.take(i - start) =~= goal);
    out
}

/// A sequence that is to grow.
pub struct Generation {
    /// The sequence so far.
    pub tokens: Vec<usize>,
    /// How many tokens can be looked at to find the next one.
    pub window: usize,
    /// How many tokens are still to come.
    pub left: usize,
}

impl Generation {
    /// A sequence that starts as `prompt` and is to grow by `count` tokens.
    pub fn new(prompt: Vec<usize>, window: usize, count: usize) -> (r: Self)
        ensures
            r.tokens == prompt,
            r.window == window,
            r.left == count,
    {
        Generation { tokens: prompt, window, left: count }
    }

    /// What the next token is to be found from; nothing if none is to come.
    pub fn next_context(&self) -> (r: Option<Vec<usize>>)
        ensures
            match r {
                Some(context) => self.left > 0 && context@ == context_of(self.tokens@, self.window as nat),
                None => self.left == 0,
            },
    {
        if self.left == 0 {
            None
        } else {
            Some(crop(&self.tokens, self.window))
        }
    }

    /// Chooses the next token by the scores that come last, one row of scores having been found for
    /// every token of the context, and appends it.
    pub fn extend<N: Arithmetic<Num = u32>>(
        &mut self,
        n: &N,
        logits: &Vec<Vec<u32>>,
        decoding: Decoding,
        draw: u32,
    ) -> (r: usize)
        requires
            n.wf(),
            old(self).left > 0,
            logits@.len() > 0,
            can_choose(n, logits@.last()@, decoding.temperature, decoding.top_k, decoding.top_p),
        ensures
            r == chosen(n, logits@.last()@, decoding.temperature, decoding.top_k, decoding.top_p, draw),
            final(self).tokens@ == old(self).tokens@.push(r),
            final(self).window == old(self).window,
            final(self).left == old(self).left - 1,
    {
        let last = &logits[logits.len() - 1];
        let token = sample_next_token(n, last, decoding.temperature, decoding.top_k, decoding.top_p, draw);
        self.tokens.push(token);
        self.left = self.left - 1;
        token
    }
}

/// The sequence after some tokens were appended one by one.
pub open spec fn grown(prompt: Seq<usize>, tokens: Seq<usize>) -> Seq<usize>
    decreases tokens.len(),
{
    if tokens.len() == 0 {
        prompt
    } else {
        grown(prompt, tokens.drop_last()).push(tokens.last())
    }
}

/// A sequence keeps its prompt: what is appended stands behind it.
pub proof fn law_prompt_stays(prompt: Seq<usize>, tokens: Seq<usize>)
    ensures
        grown(prompt, tokens) == prompt + tokens,
    decreases tokens.len(),
{
    if tokens.len() == 0 {
        assert(prompt + tokens =~= prompt);
    } else {
        law_prompt_stays(prompt, tokens.drop_last());
        assert((prompt + tokens.drop_last()).push(tokens.last()) =~= prompt + tokens);
    }
}

/// A context is the end of its sequence, whole if it fits in the window and as long as the window
/// otherwise.
pub proof fn law_context_fits(tokens: Seq<usize>, window: nat)
    ensures
        context_of(tokens, window).len() <= window,
        tokens.len() <= window ==> context_of(tokens, window) == tokens,
        tokens.len() >= window ==> context_of(tokens, window).len() == window,
        tokens.take(tokens.len() - context_of(tokens, window).len()) + context_of(tokens, window) == tokens,
{
    assert(tokens.take(tokens.len() - context_of(tokens, window).len()) + context_of(tokens, window) =~= tokens);
    if tokens.len() <= window {
        assert(context_of(tokens, window) =~= tokens);
    }
}

/// A window that moves by one token loses its first token once it is full.
pub proof fn law_full_window_slides(tokens: Seq<usize>, token: usize, window: nat)
    requires
        0 < window <= tokens.len(),
    ensures
        context_of(tokens.push(token), window) == context_of(tokens, window).skip(1).push(token),
{
    assert(context_of(tokens.push(token), window) =~= context_of(tokens, window).skip(1).push(token));
}

} // verus!
