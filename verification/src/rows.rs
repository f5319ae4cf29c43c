//! Row-by-row work on matrices.

use vstd::prelude::*;

use crate::activation::{softmax, softmaxed};
use crate::matrix::{covers, grid};
use crate::numbers::{Arithmetic, Term};

verus! {

/// A copy of a row.
pub fn copy_row<T: Copy>(row: &Vec<T>) -> (r: Vec<T>)
    ensures
        r@ == row@,
{
    let mut out: Vec<T> = Vec::new();
    let mut j: usize = 0;
    while j < row.len()
        invariant
            j <= row@.len(),
            out@ == row@.take(j as int),
        decreases row@.len() - j,
    {
        out.push(row[j]);
        j += 1;
        assert(out@ =~= row@.take(j as int));
    }
    assert(row@.take(j as int) =~= row@);
    out
}

/// Puts the elements of `more` behind those of `row`.
pub fn append_row<T: Copy>(row: &mut Vec<T>, more: &Vec<T>)
    ensures
        final(row)@ == old(row)@ + more@,
{
    let ghost start = row@;
    let mut j: usize = 0;
    assert(start + more@.take(0) =~= start);
    while j < more.len()
        invariant
            j <= more@.len(),
            row@ == start + more@.take(j as int),
        decreases more@.len() - j,
    {
        row.push(more[j]);
        j += 1;
        assert(row@ =~= start + more@.take(j as int));
    }
    assert(more@.take(j as int) =~= more@);
}

/// The rows of `first`, followed by those of `second`.
pub fn append_rows<T: Copy>(first: &Vec<Vec<T>>, second: &Vec<Vec<T>>) -> (r: Vec<Vec<T>>)
    ensures
        grid(r@) == grid(first@) + grid(second@),
{
    let mut out = copy_rows(first);
    let ghost start = grid(first@);
    let mut i: usize = 0;
    assert(start + grid(second@).take(0) =~= start);
    while i < second.len()
        invariant
            i <= second@.len(),
            grid(out@) == start + grid(second@).take(i as int),
        decreases second@.len() - i,
    {
        let ghost before = grid(out@);
        let row = copy_row(&second[i]);
        out.push(row);
        assert(grid(out@) =~= before.push(row@));
        i += 1;
        assert(grid(out@) =~= start + grid(second@).take(i as int));
    }
    assert(grid(second@).take(i as int) =~= grid(second@));
    out
}

/// A copy of a matrix.
pub fn copy_rows<T: Copy>(rows: &Vec<Vec<T>>) -> (r: Vec<Vec<T>>)
    ensures
        grid(r@) == grid(rows@),
{
    let mut out: Vec<Vec<T>> = Vec::new();
    let mut i: usize = 0;
    while i < rows.len()
        invariant
            i <= rows@.len(),
            grid(out@) == grid(rows@).take(i as int),
        decreases rows@.len() - i,
    {
        let ghost before = grid(out@);
        let row = copy_row(&rows[i]);
        out.push(row);
        assert(grid(out@) =~= before.push(row@));
        i += 1;
        assert(grid(out@) =~= grid(rows@).take(i as int));
    }
    assert(grid(rows@).take(i as int) =~= grid(rows@));
    out
}

/// `into` with the first `rows` rows and `cols` columns of `from` added.
pub open spec fn accumulated<N: Arithmetic>(
    n: &N,
    into: Seq<Seq<N::Num>>,
    from: Seq<Seq<N::Num>>,
    rows: nat,
    cols: nat,
) -> Seq<Seq<N::Num>> {
    Seq::new(
        into.len(),
        |i: int|
            Seq::new(
                into[i].len(),
                |j: int|
                    if i < rows && j < cols {
                        n.value(Term::Add(into[i][j], from[i][j]))
                    } else {
                        into[i][j]
                    },
            ),
    )
}

/// Adds the first `rows` rows and `cols` columns of `from` to those of `into`.
pub fn accumulate<N: Arithmetic>(
    n: &N,
    into: &mut Vec<Vec<N::Num>>,
    from: &Vec<Vec<N::Num>>,
    rows: usize,
    cols: usize,
)
    requires
        n.wf(),
        cols > 0 ==> covers(grid(old(into)@), rows as nat, cols as nat) && covers(grid(from@), rows as nat, cols as nat),
    ensures
        grid(final(into)@) == accumulated(n, grid(old(into)@), grid(from@), rows as nat, cols as nat),
{
    let ghost before = grid(into@);
    let ghost other = grid(from@);
    let ghost goal = accumulated(n, before, other, rows as nat, cols as nat);
    if cols == 0 {
        assert forall|i: int| 0 <= i < before.len() implies before[i] == goal[i] by {
            assert(before[i] =~= goal[i]);
        }
        assert(grid(into@) =~= goal);
        return;
    }
    let mut i: usize = 0;
    while i < rows
        invariant
            n.wf(),
            cols > 0,
            i <= rows,
            before == grid(old(into)@),
            other == grid(from@),
            goal == accumulated(n, before, other, rows as nat, cols as nat),
            covers(before, rows as nat, cols as nat),
            covers(other, rows as nat, cols as nat),
            into@.len() == before.len(),
            forall|k: int| 0 <= k < i ==> (#[trigger] into@[k])@ == goal[k],
            forall|k: int| i <= k < before.len() ==> (#[trigger] into@[k])@ == before[k],
        decreases rows - i,
    {
        assert(before[i as int].len() >= cols && other[i as int].len() >= cols);
        assert(other[i as int] == from@[i as int]@);
        let mut j: usize = 0;
        while j < cols
            invariant
                n.wf(),
                i < rows,
                j <= cols,
                before == grid(old(into)@),
                goal == accumulated(n, before, other, rows as nat, cols as nat),
                before.len() >= rows,
                from@.len() >= rows,
                before[i as int].len() >= cols,
                other[i as int].len() >= cols,
                other[i as int] == from@[i as int]@,
                into@.len() == before.len(),
                into@[i as int]@.len() == before[i as int].len(),
                forall|k: int| 0 <= k < i ==> (#[trigger] into@[k])@ == goal[k],
                forall|k: int| i < k < before.len() ==> (#[trigger] into@[k])@ == before[k],
                forall|k: int| 0 <= k < j ==> #[trigger] into@[i as int]@[k] == goal[i as int][k],
                forall|k: int|
                    j <= k < before[i as int].len() ==> #[trigger] into@[i as int]@[k] == before[i as int][k],
            decreases cols - j,
        {
            let x = into[i][j];
            into[i][j] = n.eval(Term::Add(x, from[i][j]));
            j += 1;
        }
        assert(into@[i as int]@ =~= goal[i as int]);
        i += 1;
    }
    assert forall|k: int| 0 <= k < before.len() implies grid(into@)[k] == goal[k] by {
        if k >= rows {
            assert(into@[k]@ == before[k]);
            assert(before[k] =~= goal[k]);
        } else {
            assert(into@[k]@ == goal[k]);
        }
    }
    assert(grid(into@) =~= goal);
}

/// Every element divided by `by`.
pub open spec fn divided<N: Arithmetic>(n: &N, rows: Seq<Seq<N::Num>>, by: N::Num) -> Seq<Seq<N::Num>> {
    rows.map_values(|row: Seq<N::Num>| row.map_values(|x: N::Num| n.value(Term::Div(x, by))))
}

/// Divides every element by `by`.
pub fn divide_rows<N: Arithmetic>(n: &N, rows: &Vec<Vec<N::Num>>, by: N::Num) -> (r: Vec<Vec<N::Num>>)
    requires
        n.wf(),
    ensures
        grid(r@) == divided(n, grid(rows@), by),
{
    let ghost goal = divided(n, grid(rows@), by);
    let mut out: Vec<Vec<N::Num>> = Vec::new();
    let mut i: usize = 0;
    while i < rows.len()
        invariant
            n.wf(),
            goal == divided(n, grid(rows@), by),
            i <= rows@.len(),
            grid(out@) == goal.take(i as int),
        decreases rows@.len() - i,
    {
        let mut row: Vec<N::Num> = Vec::new();
        let mut j: usize = 0;
        assert(goal[i as int] == rows@[i as int]@.map_values(|x: N::Num| n.value(Term::Div(x, by))));
        while j < rows[i].len()
            invariant
                n.wf(),
                i < rows@.len(),
                j <= rows@[i as int]@.len(),
                goal[i as int] == rows@[i as int]@.map_values(|x: N::Num| n.value(Term::Div(x, by))),
                row@ == goal[i as int].take(j as int),
            decreases rows@[i as int]@.len() - j,
        {
            row.push(n.eval(Term::Div(rows[i][j], by)));
            j += 1;
            assert(row@ =~= goal[i as int].take(j as int));
        }
        assert(row@ =~= goal[i as int]);
        let ghost before = grid(out@);
        out.push(row);
        assert(grid(out@) =~= before.push(row@));
        i += 1;
        assert(grid(out@) =~= goal.take(i as int));
    }
    assert(goal.take(i as int) =~= goal);
    out
}

/// The softmax of every row.
pub open spec fn softmax_rows_of<N: Arithmetic>(n: &N, rows: Seq<Seq<N::Num>>) -> Seq<Seq<N::Num>> {
    rows.map_values(|row: Seq<N::Num>| softmaxed(n, row))
}

/// Turns every row into probabilities.
pub fn softmax_rows<N: Arithmetic>(n: &N, rows: &Vec<Vec<N::Num>>) -> (r: Vec<Vec<N::Num>>)
    requires
        n.wf(),
    ensures
        grid(r@) == softmax_rows_of(n, grid(rows@)),
{
    let ghost goal = softmax_rows_of(n, grid(rows@));
    let mut out: Vec<Vec<N::Num>> = Vec::new();
    let mut i: usize = 0;
    while i < rows.len()
        invariant
            n.wf(),
            goal == softmax_rows_of(n, grid(rows@)),
            i <= rows@.len(),
            grid(out@) == goal.take(i as int),
        decreases rows@.len() - i,
    {
        let ghost before = grid(out@);
        let row = softmax(n, &rows[i]);
        out.push(row);
        assert(grid(out@) =~= before.push(row@));
        i += 1;
        assert(grid(out@) =~= goal.take(i as int));
    }
    assert(goal.take(i as int) =~= goal);
    out
}

/// Row `i` filled with `fill` behind place `offset + i`, up to the length of the first row.
pub open spec fn masked_after<T>(rows: Seq<Seq<T>>, offset: nat, fill: T) -> Seq<Seq<T>> {
    Seq::new(
        rows.len(),
        |i: int|
            Seq::new(
                rows[i].len(),
                |j: int|
                    if offset + i < j < rows[0].len() {
                        fill
                    } else {
                        rows[i][j]
                    },
            ),
    )
}

/// Fills row `i` with `fill` behind place `offset + i`, up to the length of the first row.
pub fn mask_after<T: Copy>(rows: &mut Vec<Vec<T>>, offset: usize, fill: T)
    requires
        old(rows)@.len() > 0 ==> covers(grid(old(rows)@), old(rows)@.len(), old(rows)@[0]@.len()),
    ensures
        grid(final(rows)@) == masked_after(grid(old(rows)@), offset as nat, fill),
{
    let ghost before = grid(rows@);
    let ghost goal = masked_after(before, offset as nat, fill);
    if rows.len() == 0 {
        assert(before =~= goal);
        return;
    }
    let cols: usize = rows[0].len();
    assert(before[0] == rows@[0]@);
    let mut i: usize = 0;
    while i < rows.len()
        invariant
            i <= rows@.len(),
            before == grid(old(rows)@),
            before.len() > 0,
            goal == masked_after(before, offset as nat, fill),
            cols == before[0].len(),
            covers(before, before.len(), cols as nat),
            rows@.len() == before.len(),
            forall|k: int| 0 <= k < i ==> (#[trigger] rows@[k])@ == goal[k],
            forall|k: int| i <= k < before.len() ==> (#[trigger] rows@[k])@ == before[k],
        decreases rows@.len() - i,
    {
        assert(before[i as int].len() >= cols);
        let mut j: usize = 0;
        while j < cols
            invariant
                i < before.len(),
                before == grid(old(rows)@),
                goal == masked_after(before, offset as nat, fill),
                cols == before[0].len(),
                before[i as int].len() >= cols,
                j <= cols,
                rows@.len() == before.len(),
                rows@[i as int]@.len() == before[i as int].len(),
                forall|k: int| 0 <= k < i ==> (#[trigger] rows@[k])@ == goal[k],
                forall|k: int| i < k < before.len() ==> (#[trigger] rows@[k])@ == before[k],
                forall|k: int| 0 <= k < j ==> #[trigger] rows@[i as int]@[k] == goal[i as int][k],
                forall|k: int|
                    j <= k < before[i as int].len() ==> #[trigger] rows@[i as int]@[k] == before[i as int][k],
            decreases cols - j,
        {
            if j > i && j - i > offset {
                rows[i][j] = fill;
            }
            j += 1;
        }
        assert(rows@[i as int]@ =~= goal[i as int]);
        i += 1;
    }
    assert(grid(rows@) =~= goal);
}

/// A row of one value.
pub open spec fn uniform_row<T>(fill: T, len: nat) -> Seq<T> {
    Seq::new(len, |j: int| fill)
}

/// A matrix of one value.
pub open spec fn uniform<T>(fill: T, rows: nat, cols: nat) -> Seq<Seq<T>> {
    Seq::new(rows, |i: int| uniform_row(fill, cols))
}

/// Makes a row of one value.
pub fn make_row<T: Copy>(fill: T, len: usize) -> (r: Vec<T>)
    ensures
        r@ == uniform_row(fill, len as nat),
{
    let mut out: Vec<T> = Vec::new();
    let mut j: usize = 0;
    while j < len
        invariant
            j <= len,
            out@ == uniform_row(fill, j as nat),
        decreases len - j,
    {
        out.push(fill);
        j += 1;
        assert(out@ =~= uniform_row(fill, j as nat));
    }
    out
}

/// Makes a matrix of one value.
pub fn make_rows<T: Copy>(fill: T, rows: usize, cols: usize) -> (r: Vec<Vec<T>>)
    ensures
        grid(r@) == uniform(fill, rows as nat, cols as nat),
{
    let mut out: Vec<Vec<T>> = Vec::new();
    let mut i: usize = 0;
    assert(grid(out@) =~= uniform(fill, 0, cols as nat));
    while i < rows
        invariant
            i <= rows,
            grid(out@) == uniform(fill, i as nat, cols as nat),
        decreases rows - i,
    {
        let ghost before = grid(out@);
        let row = make_row(fill, cols);
        out.push(row);
        assert(grid(out@) =~= before.push(row@));
        i += 1;
        assert(grid(out@) =~= uniform(fill, i as nat, cols as nat));
    }
    out
}

} // verus!
