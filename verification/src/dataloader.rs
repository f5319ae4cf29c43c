//! Sliding-window next-token dataset.
//!
//! One long token stream becomes many overlapping examples. The target window is the input window
//! moved one token ahead, so that every input position is paired with the token to predict.

use vstd::arithmetic::div_mod::lemma_fundamental_div_mod;
use vstd::prelude::*;

verus! {

/// A token stream cut into overlapping windows.
pub struct DataLoader {
    /// The full tokenized dataset.
    pub token_ids: Vec<usize>,
    /// Size of the input context window.
    pub max_length: usize,
    /// Distance the window slides at each step.
    pub stride: usize,
}

/// Whether an input window that starts at `start` has a target token behind it.
pub open spec fn window_fits(total: nat, max_length: nat, start: int) -> bool {
    0 <= start && start + max_length + 1 <= total
}

/// The input window and the target window that start at `start`.
pub open spec fn window_pair(tokens: Seq<usize>, max_length: nat, start: int) -> (Seq<usize>, Seq<usize>) {
    (
        tokens.subrange(start, start + max_length),
        tokens.subrange(start + 1, start + max_length + 1),
    )
}

/// The number of windows: one for each multiple of the stride where a window fits.
pub open spec fn window_count(total: nat, max_length: nat, stride: nat) -> nat {
    if total <= max_length {
        0
    } else {
        ((total - max_length - 1) as nat) / stride + 1
    }
}

/// The counted windows are exactly those that fit.
pub proof fn law_counted_windows_fit(total: nat, max_length: nat, stride: nat, idx: nat)
    requires
        stride > 0,
    ensures
        idx < window_count(total, max_length, stride) <==> window_fits(total, max_length, (idx * stride) as int),
{
    if total > max_length {
        let room = (total - max_length - 1) as nat;
        let q = room / stride;
        lemma_fundamental_div_mod(room as int, stride as int);
        if idx <= q {
            assert(idx * stride <= q * stride) by (nonlinear_arith)
                requires
                    idx <= q,
            ;
            assert(q * stride == stride * q) by (nonlinear_arith);
        } else {
            assert(idx * stride >= (q + 1) * stride) by (nonlinear_arith)
                requires
                    idx >= q + 1,
            ;
            assert((q + 1) * stride == stride * q + stride) by (nonlinear_arith);
            assert(room % stride < stride);
        }
    } else {
        assert(idx * stride >= 0) by (nonlinear_arith);
    }
}

/// Every target element is the input element one place further on.
pub proof fn law_target_is_shifted_input(tokens: Seq<usize>, max_length: nat, start: int, k: int)
    requires
        window_fits(tokens.len(), max_length, start),
        0 <= k,
        k + 1 < max_length,
    ensures
        window_pair(tokens, max_length, start).1[k] == window_pair(tokens, max_length, start).0[k + 1],
{
}

impl DataLoader {
    /// Stores the token stream and the window settings.
    pub fn new(token_ids: Vec<usize>, max_length: usize, stride: usize) -> (r: Self)
        ensures
            r.token_ids == token_ids,
            r.max_length == max_length,
            r.stride == stride,
    {
        DataLoader { token_ids, max_length, stride }
    }

    /// The windows of this loader can be counted: there is a stride, or there are no windows.
    pub open spec fn countable(&self) -> bool {
        self.stride > 0 || self.token_ids@.len() <= self.max_length
    }

    /// The number of windows of this loader.
    pub open spec fn count(&self) -> nat {
        window_count(self.token_ids@.len(), self.max_length as nat, self.stride as nat)
    }

    /// The number of windows.
    pub fn len(&self) -> (r: usize)
        requires
            self.countable(),
        ensures
            r == self.count(),
    {
        if self.token_ids.len() <= self.max_length {
            0
        } else {
            let room: usize = self.token_ids.len() - self.max_length - 1;
            proof {
                assert(room / self.stride <= room) by (nonlinear_arith)
                    requires
                        self.stride > 0,
                ;
            }
            room / self.stride + 1
        }
    }

    /// Whether the stream is too short for a window.
    pub fn is_empty(&self) -> (r: bool)
        requires
            self.countable(),
        ensures
            r == (self.token_ids@.len() <= self.max_length),
    {
        self.len() == 0
    }

    /// The input and target windows with number `idx`.
    pub fn get_item(&self, idx: usize) -> (r: (Vec<usize>, Vec<usize>))
        requires
            window_fits(self.token_ids@.len(), self.max_length as nat, idx * self.stride),
        ensures
            (r.0@, r.1@) == window_pair(self.token_ids@, self.max_length as nat, idx * self.stride),
    {
        let total: usize = self.token_ids.len();
        let start: usize = idx * self.stride;
        let end: usize = start + self.max_length;
        let input_chunk = copy_range(&self.token_ids, start, end);
        let target_chunk = copy_range(&self.token_ids, start + 1, end + 1);
        (input_chunk, target_chunk)
    }

    /// Starts a walk over all windows.
    pub fn iter(&self) -> (r: DataLoaderIterator<'_>)
        ensures
            r.source() == *self,
            r.position() == 0,
    {
        DataLoaderIterator { loader: self, current_idx: 0 }
    }
}

fn copy_range(tokens: &Vec<usize>, from: usize, to: usize) -> (r: Vec<usize>)
    requires
        from <= to <= tokens@.len(),
    ensures
        r@ == tokens@.subrange(from as int, to as int),
{
    let mut out: Vec<usize> = Vec::new();
    let mut i: usize = from;
    while i < to
        invariant
            from <= i <= to <= tokens@.len(),
            out@ == tokens@.subrange(from as int, i as int),
        decreases to - i,
    {
        out.push(tokens[i]);
        i += 1;
        assert(out@ =~= tokens@.subrange(from as int, i as int));
    }
    out
}

/// A walk over the windows of a loader.
pub struct DataLoaderIterator<'a> {
    loader: &'a DataLoader,
    current_idx: usize,
}

impl<'a> DataLoaderIterator<'a> {
    /// The loader that is walked.
    pub closed spec fn source(&self) -> DataLoader {
        *self.loader
    }

    /// The number of the window that comes next.
    pub closed spec fn position(&self) -> nat {
        self.current_idx as nat
    }

    /// Hands out the next window pair, or nothing when all have been handed out.
    pub fn next(&mut self) -> (r: Option<(Vec<usize>, Vec<usize>)>)
        requires
            old(self).source().countable(),
        ensures
            final(self).source() == old(self).source(),
            r is Some <==> old(self).position() < old(self).source().count(),
            r matches Some(item) ==> {
                &&& final(self).position() == old(self).position() + 1
                &&& (item.0@, item.1@) == window_pair(
                    old(self).source().token_ids@,
                    old(self).source().max_length as nat,
                    old(self).position() * old(self).source().stride,
                )
            },
            r is None ==> final(self).position() == old(self).position(),
    {
        if self.current_idx < self.loader.len() {
            proof {
                law_counted_windows_fit(
                    self.loader.token_ids@.len(),
                    self.loader.max_length as nat,
                    self.loader.stride as nat,
                    self.current_idx as nat,
                );
            }
            let item = self.loader.get_item(self.current_idx);
            self.current_idx += 1;
            Some(item)
        } else {
            None
        }
    }
}

} // verus!
