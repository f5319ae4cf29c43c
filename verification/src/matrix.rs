//! Vectors and matrices of numbers.

use vstd::prelude::*;

use crate::numbers::{zero, Arithmetic, Term};

verus! {

/// The rows of a matrix.
pub open spec fn grid<T>(rows: Seq<Vec<T>>) -> Seq<Seq<T>> {
    rows.map_values(|row: Vec<T>| row@)
}

/// The smaller of two lengths.
pub open spec fn shorter(a: nat, b: nat) -> nat {
    if a <= b {
        a
    } else {
        b
    }
}

/// Whether all of the first `rows` rows have at least `cols` elements.
pub open spec fn covers<T>(m: Seq<Seq<T>>, rows: nat, cols: nat) -> bool {
    m.len() >= rows && forall|i: int| 0 <= i < rows ==> (#[trigger] m[i]).len() >= cols
}

/// Whether a matrix has exactly this shape.
pub open spec fn has_shape<T>(m: Seq<Seq<T>>, rows: nat, cols: nat) -> bool {
    m.len() == rows && forall|i: int| 0 <= i < rows ==> (#[trigger] m[i]).len() == cols
}

/// The elements added one by one, as far as both vectors go.
pub open spec fn vector_sum<N: Arithmetic>(n: &N, a: Seq<N::Num>, b: Seq<N::Num>) -> Seq<N::Num> {
    Seq::new(shorter(a.len(), b.len()), |i: int| n.value(Term::Add(a[i], b[i])))
}

/// The rows added one by one, as far as both matrices go.
pub open spec fn matrix_sum<N: Arithmetic>(n: &N, a: Seq<Seq<N::Num>>, b: Seq<Seq<N::Num>>) -> Seq<Seq<N::Num>> {
    Seq::new(shorter(a.len(), b.len()), |i: int| vector_sum(n, a[i], b[i]))
}

/// The sum over the first `k` places of row `i` of `a` times column `j` of `b`.
pub open spec fn dot<N: Arithmetic>(n: &N, a: Seq<Seq<N::Num>>, b: Seq<Seq<N::Num>>, i: int, j: int, k: nat) -> N::Num
    decreases k,
{
    if k == 0 {
        zero(n)
    } else {
        n.value(
            Term::Add(dot(n, a, b, i, j, (k - 1) as nat), n.value(Term::Mul(a[i][k - 1], b[k - 1][j]))),
        )
    }
}

/// Whether two matrices can be multiplied: the rows of the first reach as far as its first row, and
/// the second has a row for each of these places that reaches as far as its own first row.
pub open spec fn multiplies<T>(a: Seq<Seq<T>>, b: Seq<Seq<T>>) -> bool {
    a.len() > 0 ==> b.len() > 0 && (b[0].len() > 0 ==> covers(a, a.len(), a[0].len()) && covers(
        b,
        a[0].len(),
        b[0].len(),
    ))
}

/// The matrix product.
pub open spec fn product<N: Arithmetic>(n: &N, a: Seq<Seq<N::Num>>, b: Seq<Seq<N::Num>>) -> Seq<Seq<N::Num>> {
    Seq::new(a.len(), |i: int| Seq::new(b[0].len(), |j: int| dot(n, a, b, i, j, a[0].len())))
}

/// Whether a matrix can be transposed: it has a row, and all rows reach as far as the first.
pub open spec fn transposes<T>(m: Seq<Seq<T>>) -> bool {
    m.len() > 0 && covers(m, m.len(), m[0].len())
}

/// Rows and columns exchanged.
pub open spec fn transposed<T>(m: Seq<Seq<T>>) -> Seq<Seq<T>> {
    Seq::new(m[0].len(), |i: int| Seq::new(m.len(), |j: int| m[j][i]))
}

/// Transposing a matrix twice gives it back.
pub proof fn law_transpose_twice<T>(m: Seq<Seq<T>>, rows: nat, cols: nat)
    requires
        has_shape(m, rows, cols),
        rows > 0,
        cols > 0,
    ensures
        transposed(transposed(m)) == m,
{
    let t = transposed(m);
    assert(m[0].len() == cols);
    assert(t[0].len() == rows);
    assert forall|i: int| 0 <= i < rows implies #[trigger] transposed(t)[i] == m[i] by {
        assert(m[i].len() == cols);
        assert(transposed(t)[i] =~= m[i]);
    }
    assert(transposed(t) =~= m);
}

/// Adds two vectors element by element, as far as both go.
pub fn add<N: Arithmetic>(n: &N, a: &Vec<N::Num>, b: &Vec<N::Num>) -> (r: Vec<N::Num>)
    requires
        n.wf(),
    ensures
        r@ == vector_sum(n, a@, b@),
{
    let mut out: Vec<N::Num> = Vec::new();
    let mut i: usize = 0;
    while i < a.len() && i < b.len()
        invariant
            n.wf(),
            i <= a@.len(),
            i <= b@.len(),
            out@ == vector_sum(n, a@, b@).take(i as int),
        decreases a@.len() - i,
    {
        out.push(n.eval(Term::Add(a[i], b[i])));
        i += 1;
        assert(out@ =~= vector_sum(n, a@, b@).take(i as int));
    }
    assert(vector_sum(n, a@, b@).take(i as int) =~= vector_sum(n, a@, b@));
    out
}

/// Adds two matrices row by row, as far as both go.
pub fn add_mat<N: Arithmetic>(n: &N, a: &Vec<Vec<N::Num>>, b: &Vec<Vec<N::Num>>) -> (r: Vec<Vec<N::Num>>)
    requires
        n.wf(),
    ensures
        grid(r@) == matrix_sum(n, grid(a@), grid(b@)),
{
    let ghost goal = matrix_sum(n, grid(a@), grid(b@));
    let mut out: Vec<Vec<N::Num>> = Vec::new();
    let mut i: usize = 0;
    while i < a.len() && i < b.len()
        invariant
            n.wf(),
            i <= a@.len(),
            i <= b@.len(),
            goal == matrix_sum(n, grid(a@), grid(b@)),
            grid(out@) == goal.take(i as int),
        decreases a@.len() - i,
    {
        let ghost before = grid(out@);
        let row = self::add(n, &a[i], &b[i]);
        out.push(row);
        assert(grid(out@) =~= before.push(row@));
        i += 1;
        assert(grid(out@) =~= goal.take(i as int));
    }
    assert(goal.take(i as int) =~= goal);
    out
}

/// Multiplies two matrices.
pub fn matmul<N: Arithmetic>(n: &N, a: &Vec<Vec<N::Num>>, b: &Vec<Vec<N::Num>>) -> (r: Vec<Vec<N::Num>>)
    requires
        n.wf(),
        multiplies(grid(a@), grid(b@)),
    ensures
        grid(r@) == product(n, grid(a@), grid(b@)),
{
    let ghost left = grid(a@);
    let ghost right = grid(b@);
    let ghost goal = product(n, left, right);
    let mut result: Vec<Vec<N::Num>> = Vec::new();
    let mut i: usize = 0;
    while i < a.len()
        invariant
            n.wf(),
            left == grid(a@),
            right == grid(b@),
            multiplies(left, right),
            goal == product(n, left, right),
            i <= a@.len(),
            grid(result@) == goal.take(i as int),
        decreases a@.len() - i,
    {
        let cols: usize = b[0].len();
        let inner: usize = a[0].len();
        let mut row: Vec<N::Num> = Vec::new();
        let mut j: usize = 0;
        assert(right[0] == b@[0]@ && left[0] == a@[0]@ && left[i as int] == a@[i as int]@);
        while j < cols
            invariant
                n.wf(),
                left == grid(a@),
                right == grid(b@),
                multiplies(left, right),
                goal == product(n, left, right),
                i < a@.len(),
                j <= cols,
                cols == right[0].len(),
                inner == left[0].len(),
                row@ == goal[i as int].take(j as int),
            decreases cols - j,
        {
            let mut sum = n.eval(Term::Decimal(0, 0));
            let mut k: usize = 0;
            while k < inner
                invariant
                    n.wf(),
                    left == grid(a@),
                    right == grid(b@),
                    covers(left, left.len(), left[0].len()),
                    covers(right, left[0].len(), right[0].len()),
                    i < a@.len(),
                    j < cols,
                    k <= inner,
                    cols == right[0].len(),
                    inner == left[0].len(),
                    sum == dot(n, left, right, i as int, j as int, k as nat),
                decreases inner - k,
            {
                assert(left[i as int].len() >= inner);
                assert(right[k as int].len() >= cols);
                assert(left[i as int] == a@[i as int]@ && right[k as int] == b@[k as int]@);
                sum = n.eval(Term::Add(sum, n.eval(Term::Mul(a[i][k], b[k][j]))));
                k += 1;
            }
            row.push(sum);
            j += 1;
            assert(row@ =~= goal[i as int].take(j as int));
        }
        let ghost before = grid(result@);
        assert(row@ =~= goal[i as int]);
        result.push(row);
        assert(grid(result@) =~= before.push(row@));
        i += 1;
        assert(grid(result@) =~= goal.take(i as int));
    }
    assert(goal.take(i as int) =~= goal);
    result
}

/// Exchanges rows and columns.
pub fn mat_transpose<T: Copy>(matrix: &Vec<Vec<T>>) -> (r: Vec<Vec<T>>)
    requires
        matrix@.len() > 0,
        covers(grid(matrix@), matrix@.len(), matrix@[0]@.len()),
    ensures
        grid(r@) == transposed(grid(matrix@)),
{
    let ghost all = grid(matrix@);
    let ghost goal = transposed(all);
    let rows: usize = matrix.len();
    let cols: usize = matrix[0].len();
    let mut out: Vec<Vec<T>> = Vec::new();
    let mut i: usize = 0;
    assert(all[0] == matrix@[0]@);
    while i < cols
        invariant
            all == grid(matrix@),
            goal == transposed(all),
            rows == matrix@.len(),
            rows > 0,
            cols == all[0].len(),
            covers(all, rows as nat, cols as nat),
            i <= cols,
            grid(out@) == goal.take(i as int),
        decreases cols - i,
    {
        let mut row: Vec<T> = Vec::new();
        let mut j: usize = 0;
        while j < rows
            invariant
                all == grid(matrix@),
                goal == transposed(all),
                rows == matrix@.len(),
                cols == all[0].len(),
                covers(all, rows as nat, cols as nat),
                i < cols,
                j <= rows,
                row@ == goal[i as int].take(j as int),
            decreases rows - j,
        {
            assert(all[j as int].len() >= cols);
            assert(all[j as int] == matrix@[j as int]@);
            row.push(matrix[j][i]);
            j += 1;
            assert(row@ =~= goal[i as int].take(j as int));
        }
        let ghost before = grid(out@);
        assert(row@ =~= goal[i as int]);
        out.push(row);
        assert(grid(out@) =~= before.push(row@));
        i += 1;
        assert(grid(out@) =~= goal.take(i as int));
    }
    assert(goal.take(i as int) =~= goal);
    out
}

} // verus!
