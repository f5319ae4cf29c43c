//! Trainable values with their gradients.

use vstd::prelude::*;

use crate::matrix::grid;
use crate::numbers::{zero, Arithmetic, Term};

verus! {

/// A matrix of trainable values, and the gradient of each.
pub struct Param<T> {
    /// The values.
    pub data: Vec<Vec<T>>,
    /// The gradients.
    pub grad: Vec<Vec<T>>,
}

/// A matrix of the same shape, filled with `fill`.
pub open spec fn filled<T, U>(m: Seq<Seq<T>>, fill: U) -> Seq<Seq<U>> {
    m.map_values(|row: Seq<T>| Seq::new(row.len(), |j: int| fill))
}

/// Whether two matrices have the same shape.
pub open spec fn same_shape<T, U>(a: Seq<Seq<T>>, b: Seq<Seq<U>>) -> bool {
    a.len() == b.len() && forall|i: int| 0 <= i < a.len() ==> (#[trigger] a[i]).len() == b[i].len()
}

/// A matrix of the shape of `data`, filled with `fill`.
pub fn fill_like<T, U: Copy>(data: &Vec<Vec<T>>, fill: U) -> (r: Vec<Vec<U>>)
    ensures
        grid(r@) == filled(grid(data@), fill),
{
    let ghost goal = filled(grid(data@), fill);
    let mut out: Vec<Vec<U>> = Vec::new();
    let mut i: usize = 0;
    while i < data.len()
        invariant
            i <= data@.len(),
            goal == filled(grid(data@), fill),
            grid(out@) == goal.take(i as int),
        decreases data@.len() - i,
    {
        let len: usize = data[i].len();
        let mut row: Vec<U> = Vec::new();
        let mut j: usize = 0;
        while j < len
            invariant
                j <= len,
                row@.len() == j,
                forall|k: int| 0 <= k < j ==> #[trigger] row@[k] == fill,
            decreases len - j,
        {
            row.push(fill);
            j += 1;
        }
        assert(row@ =~= goal[i as int]);
        let ghost before = grid(out@);
        out.push(row);
        assert(grid(out@) =~= before.push(row@));
        i += 1;
        assert(grid(out@) =~= goal.take(i as int));
    }
    assert(goal.take(i as int) =~= goal);
    out
}

impl<T: Copy> Param<T> {
    /// Values with gradients of zero.
    pub fn new<N: Arithmetic<Num = T>>(n: &N, data: Vec<Vec<T>>) -> (r: Self)
        requires
            n.wf(),
        ensures
            r.data == data,
            grid(r.grad@) == filled(grid(data@), zero(n)),
    {
        let grad = fill_like(&data, n.eval(Term::Decimal(0, 0)));
        Param { data, grad }
    }

    /// Values with the given gradients.
    pub fn with_grad(data: Vec<Vec<T>>, grad: Vec<Vec<T>>) -> (r: Self)
        requires
            same_shape(grid(data@), grid(grad@)),
        ensures
            r.data == data,
            r.grad == grad,
    {
        Param { data, grad }
    }

    /// Zeros in the shape of the values.
    pub fn zeros_like_data<N: Arithmetic<Num = T>>(&self, n: &N) -> (r: Vec<Vec<T>>)
        requires
            n.wf(),
        ensures
            grid(r@) == filled(grid(self.data@), zero(n)),
    {
        fill_like(&self.data, n.eval(Term::Decimal(0, 0)))
    }

    /// Sets all gradients to zero.
    pub fn zero_grad<N: Arithmetic<Num = T>>(&mut self, n: &N)
        requires
            n.wf(),
        ensures
            final(self).data == old(self).data,
            grid(final(self).grad@) == filled(grid(old(self).grad@), zero(n)),
    {
        let nothing = n.eval(Term::Decimal(0, 0));
        self.grad = fill_like(&self.grad, nothing);
    }
}

} // verus!
