//! The file format of trained weights.
//!
//! A file starts with the number of matrices. Each matrix follows with its number of rows, its
//! number of columns and its elements, row by row. Counts take eight bytes and elements, as bit
//! patterns of single precision numbers, four; the lowest byte comes first.

use vstd::prelude::*;

use crate::matrix::{covers, grid, has_shape};
use crate::text::{ends_with, finishes_with};

verus! {

/// The bytes of a number, lowest first.
pub open spec fn little_endian(x: nat, width: nat) -> Seq<u8>
    decreases width,
{
    if width == 0 {
        Seq::empty()
    } else {
        seq![(x % 256) as u8] + little_endian(x / 256, (width - 1) as nat)
    }
}

/// The number that `width` bytes from place `at` on stand for.
pub open spec fn number_at(bytes: Seq<u8>, at: int, width: nat) -> nat
    decreases width,
{
    if width == 0 {
        0
    } else {
        bytes[at] as nat + 256 * number_at(bytes, at + 1, (width - 1) as nat)
    }
}

/// Whether a number fits in `width` bytes.
pub open spec fn fits(x: nat, width: nat) -> bool
    decreases width,
{
    if width == 0 {
        x == 0
    } else {
        fits(x / 256, (width - 1) as nat)
    }
}

proof fn lemma_little_endian_len(x: nat, width: nat)
    ensures
        little_endian(x, width).len() == width,
    decreases width,
{
    if width > 0 {
        lemma_little_endian_len(x / 256, (width - 1) as nat);
    }
}

/// A number that was written is the number that is read.
pub proof fn law_number_round_trip(x: nat, width: nat, bytes: Seq<u8>, at: int)
    requires
        fits(x, width),
        0 <= at,
        at + width <= bytes.len(),
        bytes.subrange(at, at + width) == little_endian(x, width),
    ensures
        number_at(bytes, at, width) == x,
    decreases width,
{
    if width > 0 {
        let rest = little_endian(x / 256, (width - 1) as nat);
        lemma_little_endian_len(x / 256, (width - 1) as nat);
        let part = bytes.subrange(at, at + width);
        assert(part[0] == (x % 256) as u8);
        assert(bytes[at] == part[0]);
        assert(bytes.subrange(at + 1, at + 1 + (width - 1)) =~= rest) by {
            assert forall|t: int| 0 <= t < width - 1 implies bytes.subrange(at + 1, at + 1 + (width - 1))[t]
                == rest[t] by {
                assert(part[t + 1] == rest[t]);
            }
        }
        law_number_round_trip(x / 256, (width - 1) as nat, bytes, at + 1);
    }
}

proof fn lemma_u64_fits(x: u64)
    ensures
        fits(x as nat, 8),
{
    reveal_with_fuel(fits, 9);
}

proof fn lemma_u32_fits(x: u32)
    ensures
        fits(x as nat, 4),
{
    reveal_with_fuel(fits, 5);
}

/// The bytes of the elements of a row.
pub open spec fn row_bytes(row: Seq<u32>) -> Seq<u8>
    decreases row.len(),
{
    if row.len() == 0 {
        Seq::empty()
    } else {
        row_bytes(row.drop_last()) + little_endian(row.last() as nat, 4)
    }
}

/// The bytes of the elements of a matrix.
pub open spec fn rows_bytes(m: Seq<Seq<u32>>) -> Seq<u8>
    decreases m.len(),
{
    if m.len() == 0 {
        Seq::empty()
    } else {
        rows_bytes(m.drop_last()) + row_bytes(m.last())
    }
}

/// The bytes of a matrix: its counts, then its elements.
pub open spec fn matrix_bytes(m: Seq<Seq<u32>>) -> Seq<u8> {
    little_endian(m.len(), 8) + little_endian(m[0].len(), 8) + rows_bytes(m)
}

/// The bytes of a list of matrices, without their number.
pub open spec fn list_bytes(list: Seq<Seq<Seq<u32>>>) -> Seq<u8>
    decreases list.len(),
{
    if list.len() == 0 {
        Seq::empty()
    } else {
        list_bytes(list.drop_last()) + matrix_bytes(list.last())
    }
}

/// The bytes of a file.
pub open spec fn file_bytes(list: Seq<Seq<Seq<u32>>>) -> Seq<u8> {
    little_endian(list.len(), 8) + list_bytes(list)
}

/// The matrices of a list.
pub open spec fn grids(list: Seq<Vec<Vec<u32>>>) -> Seq<Seq<Seq<u32>>> {
    list.map_values(|m: Vec<Vec<u32>>| grid(m@))
}

/// Whether every matrix has a row.
pub open spec fn all_have_rows(list: Seq<Seq<Seq<u32>>>) -> bool {
    forall|i: int| 0 <= i < list.len() ==> (#[trigger] list[i]).len() > 0
}

fn push_number(out: &mut Vec<u8>, x: u64, width: usize)
    ensures
        final(out)@ == old(out)@ + little_endian(x as nat, width as nat),
{
    let ghost start = out@;
    let ghost whole = little_endian(x as nat, width as nat);
    let mut rest: u64 = x;
    let mut i: usize = 0;
    assert(start + whole =~= out@ + little_endian(rest as nat, width as nat));
    while i < width
        invariant
            i <= width,
            start + whole == out@ + little_endian(rest as nat, (width - i) as nat),
        decreases width - i,
    {
        let ghost before = out@;
        let byte: u8 = (rest % 256) as u8;
        out.push(byte);
        proof {
            let tail = little_endian(rest as nat / 256, (width - i - 1) as nat);
            assert(little_endian(rest as nat, (width - i) as nat) == seq![byte] + tail);
            assert(before + (seq![byte] + tail) =~= before.push(byte) + tail);
        }
        rest = rest / 256;
        i += 1;
    }
    assert(out@ + little_endian(rest as nat, 0) =~= out@);
}

/// The bytes of a weights file.
pub fn encode_weights(list: &Vec<Vec<Vec<u32>>>) -> (r: Vec<u8>)
    requires
        all_have_rows(grids(list@)),
    ensures
        r@ == file_bytes(grids(list@)),
{
    let ghost all = grids(list@);
    let mut out: Vec<u8> = Vec::new();
    push_number(&mut out, list.len() as u64, 8);
    let ghost head = little_endian(all.len(), 8);
    assert(out@ =~= head);
    let mut p: usize = 0;
    assert(out@ =~= head + list_bytes(all.take(0)));
    while p < list.len()
        invariant
            p <= list@.len(),
            all == grids(list@),
            all_have_rows(all),
            out@ == head + list_bytes(all.take(p as int)),
        decreases list@.len() - p,
    {
        let ghost before = out@;
        let ghost m = all[p as int];
        assert(m == grid(list@[p as int]@) && m.len() > 0);
        assert(m[0] == list@[p as int]@[0]@);
        push_number(&mut out, list[p].len() as u64, 8);
        push_number(&mut out, list[p][0].len() as u64, 8);
        let ghost counts = little_endian(m.len(), 8) + little_endian(m[0].len(), 8);
        assert(out@ =~= before + counts);
        let mut i: usize = 0;
        assert(out@ =~= before + counts + rows_bytes(m.take(0)));
        while i < list[p].len()
            invariant
                p < list@.len(),
                m == grid(list@[p as int]@),
                i <= list@[p as int]@.len(),
                out@ == before + counts + rows_bytes(m.take(i as int)),
            decreases list@[p as int]@.len() - i,
        {
            let ghost so_far = out@;
            let ghost row = m[i as int];
            assert(row == list@[p as int]@[i as int]@);
            let mut j: usize = 0;
            assert(out@ =~= so_far + row_bytes(row.take(0)));
            while j < list[p][i].len()
                invariant
                    p < list@.len(),
                    i < list@[p as int]@.len(),
                    row == list@[p as int]@[i as int]@,
                    j <= row.len(),
                    out@ == so_far + row_bytes(row.take(j as int)),
                decreases row.len() - j,
            {
                let value: u32 = list[p][i][j];
                let ghost now = out@;
                push_number(&mut out, value as u64, 4);
                proof {
                    assert(row.take(j + 1).drop_last() =~= row.take(j as int));
                    assert(out@ =~= so_far + row_bytes(row.take(j + 1)));
                }
                j += 1;
            }
            proof {
                assert(row.take(j as int) =~= row);
                assert(m.take(i + 1).drop_last() =~= m.take(i as int));
                assert(out@ =~= before + counts + rows_bytes(m.take(i + 1)));
            }
            i += 1;
        }
        proof {
            assert(m.take(i as int) =~= m);
            assert(all.take(p + 1).drop_last() =~= all.take(p as int));
            assert(out@ =~= head + list_bytes(all.take(p + 1)));
        }
        p += 1;
    }
    assert(all.take(p as int) =~= all);
    out
}

/// Why a file does not fit the matrices that it is read into.
pub enum WeightsError {
    /// The file ends too early.
    UnexpectedEnd,
    /// The file has another number of matrices.
    CountMismatch,
    /// A matrix of the file has another number of rows.
    RowMismatch,
    /// A matrix of the file has another number of columns.
    ColumnMismatch,
}

/// Where row `i` of a matrix starts that starts at `at`.
pub open spec fn row_start(at: int, cols: nat, i: nat) -> int
    decreases i,
{
    if i == 0 {
        at + 16
    } else {
        row_start(at, cols, (i - 1) as nat) + 4 * cols
    }
}

/// What keeps a matrix at `at` from being read into `m`.
pub open spec fn matrix_error(bytes: Seq<u8>, at: int, m: Seq<Seq<u32>>) -> Option<WeightsError> {
    if bytes.len() < at + 16 {
        Some(WeightsError::UnexpectedEnd)
    } else if number_at(bytes, at, 8) as u64 as usize != m.len() {
        Some(WeightsError::RowMismatch)
    } else if number_at(bytes, at + 8, 8) as u64 as usize != m[0].len() {
        Some(WeightsError::ColumnMismatch)
    } else if bytes.len() < row_start(at, m[0].len(), m.len()) {
        Some(WeightsError::UnexpectedEnd)
    } else {
        None
    }
}

/// A row with those elements replaced, in its first `cols` places, that the file reaches.
pub open spec fn row_read(bytes: Seq<u8>, start: int, row: Seq<u32>, cols: nat) -> Seq<u32> {
    Seq::new(
        row.len(),
        |j: int|
            if j < cols && start + 4 * j + 4 <= bytes.len() {
                number_at(bytes, start + 4 * j, 4) as u32
            } else {
                row[j]
            },
    )
}

/// A matrix with those elements replaced that the file reaches.
pub open spec fn matrix_read(bytes: Seq<u8>, at: int, m: Seq<Seq<u32>>) -> Seq<Seq<u32>> {
    Seq::new(m.len(), |i: int| row_read(bytes, row_start(at, m[0].len(), i as nat), m[i], m[0].len()))
}

/// How far the reading of a file got.
pub struct Reading {
    /// The matrices as they are now.
    pub list: Seq<Seq<Seq<u32>>>,
    /// Where the next matrix starts.
    pub at: int,
    /// What stopped the reading.
    pub failed: Option<WeightsError>,
}

/// What became of reading the first `k` matrices.
pub open spec fn read_up_to(bytes: Seq<u8>, list: Seq<Seq<Seq<u32>>>, k: nat) -> Reading
    decreases k,
{
    if k == 0 {
        Reading { list, at: 8, failed: None }
    } else {
        let so_far = read_up_to(bytes, list, (k - 1) as nat);
        let m = list[k - 1];
        if so_far.failed is Some {
            so_far
        } else {
            match matrix_error(bytes, so_far.at, m) {
                Some(WeightsError::UnexpectedEnd) => Reading {
                    list: if bytes.len() < so_far.at + 16 {
                        so_far.list
                    } else {
                        so_far.list.update(k - 1, matrix_read(bytes, so_far.at, m))
                    },
                    at: so_far.at,
                    failed: Some(WeightsError::UnexpectedEnd),
                },
                Some(e) => Reading { list: so_far.list, at: so_far.at, failed: Some(e) },
                None => Reading {
                    list: so_far.list.update(k - 1, matrix_read(bytes, so_far.at, m)),
                    at: row_start(so_far.at, m[0].len(), m.len()),
                    failed: None,
                },
            }
        }
    }
}

/// What becomes of reading a file into matrices.
pub open spec fn read_file(bytes: Seq<u8>, list: Seq<Seq<Seq<u32>>>) -> Reading {
    if bytes.len() < 8 {
        Reading { list, at: 0, failed: Some(WeightsError::UnexpectedEnd) }
    } else if number_at(bytes, 0, 8) as u64 as usize != list.len() {
        Reading { list, at: 8, failed: Some(WeightsError::CountMismatch) }
    } else {
        read_up_to(bytes, list, list.len())
    }
}

/// Whether every matrix can be read into: it has a row, and all rows reach as far as the first.
pub open spec fn all_readable(list: Seq<Seq<Seq<u32>>>) -> bool {
    forall|i: int|
        0 <= i < list.len() ==> (#[trigger] list[i]).len() > 0 && covers(list[i], list[i].len(), list[i][0].len())
}

fn read_u32(bytes: &Vec<u8>, at: usize) -> (r: u32)
    requires
        at + 4 <= bytes@.len(),
    ensures
        r == number_at(bytes@, at as int, 4),
{
    let total: usize = bytes.len();
    assert(at + 4 <= total);
    proof {
        reveal_with_fuel(number_at, 5);
    }
    bytes[at] as u32 + 256 * (bytes[at + 1] as u32) + 65536 * (bytes[at + 2] as u32) + 16777216 * (bytes[at + 3] as u32)
}

fn read_u64(bytes: &Vec<u8>, at: usize) -> (r: u64)
    requires
        at + 8 <= bytes@.len(),
    ensures
        r == number_at(bytes@, at as int, 8),
{
    let total: usize = bytes.len();
    assert(at + 8 <= total);
    let low: u64 = read_u32(bytes, at) as u64;
    let high: u64 = read_u32(bytes, at + 4) as u64;
    proof {
        reveal_with_fuel(number_at, 9);
    }
    low + 4294967296 * high
}

proof fn lemma_row_start_grows(at: int, cols: nat, i: nat, k: nat)
    requires
        i <= k,
    ensures
        row_start(at, cols, i) <= row_start(at, cols, k),
        i < k ==> row_start(at, cols, i) + 4 * cols <= row_start(at, cols, k),
    decreases k,
{
    if i < k {
        lemma_row_start_grows(at, cols, i, (k - 1) as nat);
    }
}

proof fn lemma_unreached(bytes: Seq<u8>, at: int, m: Seq<Seq<u32>>, i: int)
    requires
        0 <= i < m.len(),
        row_start(at, m[0].len(), i as nat) + 4 > bytes.len(),
    ensures
        matrix_read(bytes, at, m)[i] == m[i],
{
    assert(matrix_read(bytes, at, m)[i] =~= m[i]);
}

/// Reads the elements of a matrix that starts at `at`; says whether the file reaches to its end.
fn read_rows(bytes: &Vec<u8>, at: usize, m: &mut Vec<Vec<u32>>) -> (r: bool)
    requires
        at + 16 <= bytes@.len(),
        old(m)@.len() > 0,
        covers(grid(old(m)@), old(m)@.len(), old(m)@[0]@.len()),
    ensures
        grid(final(m)@) == matrix_read(bytes@, at as int, grid(old(m)@)),
        r == (row_start(at as int, old(m)@[0]@.len(), old(m)@.len()) <= bytes@.len()),
{
    let ghost before = grid(m@);
    let ghost goal = matrix_read(bytes@, at as int, before);
    let cols: usize = m[0].len();
    let rows: usize = m.len();
    assert(before[0] == m@[0]@);
    let total: usize = bytes.len();
    assert(at + 16 <= total);
    let mut place: usize = at + 16;
    let mut i: usize = 0;
    while i < rows
        invariant
            i <= rows,
            rows == before.len(),
            before == grid(old(m)@),
            cols == before[0].len(),
            before[0] == old(m)@[0]@,
            covers(before, rows as nat, cols as nat),
            goal == matrix_read(bytes@, at as int, before),
            m@.len() == rows,
            place == row_start(at as int, cols as nat, i as nat),
            place <= bytes@.len(),
            forall|k: int| 0 <= k < i ==> (#[trigger] m@[k])@ == goal[k],
            forall|k: int| i <= k < rows ==> (#[trigger] m@[k])@ == before[k],
        decreases rows - i,
    {
        let ghost start = place as int;
        assert(before[i as int].len() >= cols);
        let mut j: usize = 0;
        while j < cols
            invariant
                i < rows,
                rows == before.len(),
                before == grid(old(m)@),
                cols == before[0].len(),
                before[0] == old(m)@[0]@,
                goal == matrix_read(bytes@, at as int, before),
                m@.len() == rows,
                rows == old(m)@.len(),
                j <= cols,
                before[i as int].len() >= cols,
                start == row_start(at as int, cols as nat, i as nat),
                place == start + 4 * j,
                place <= bytes@.len(),
                m@[i as int]@.len() == before[i as int].len(),
                forall|k: int| 0 <= k < i ==> (#[trigger] m@[k])@ == goal[k],
                forall|k: int| i < k < rows ==> (#[trigger] m@[k])@ == before[k],
                forall|k: int| 0 <= k < j ==> #[trigger] m@[i as int]@[k] == goal[i as int][k],
                forall|k: int|
                    j <= k < before[i as int].len() ==> #[trigger] m@[i as int]@[k] == before[i as int][k],
            decreases cols - j,
        {
            if bytes.len() - place < 4 {
                proof {
                    assert(m@[i as int]@ =~= goal[i as int]);
                    lemma_row_start_grows(at as int, cols as nat, (i + 1) as nat, rows as nat);
                    assert forall|k: int| 0 <= k < rows implies grid(m@)[k] == goal[k] by {
                        if k > i {
                            lemma_row_start_grows(at as int, cols as nat, (i + 1) as nat, k as nat);
                            lemma_unreached(bytes@, at as int, before, k);
                            assert(m@[k]@ == before[k]);
                        } else if k < i {
                            assert(m@[k]@ == goal[k]);
                        }
                    }
                    assert(grid(m@) =~= goal);
                }
                return false;
            }
            let value: u32 = read_u32(bytes, place);
            m[i][j] = value;
            place = place + 4;
            j += 1;
        }
        assert(m@[i as int]@ =~= goal[i as int]);
        i += 1;
    }
    assert(grid(m@) =~= goal);
    true
}

proof fn lemma_failure_stays(bytes: Seq<u8>, list: Seq<Seq<Seq<u32>>>, k: nat, end: nat)
    requires
        k <= end,
        read_up_to(bytes, list, k).failed is Some,
    ensures
        read_up_to(bytes, list, end) == read_up_to(bytes, list, k),
    decreases end,
{
    if k < end {
        lemma_failure_stays(bytes, list, k, (end - 1) as nat);
    }
}

/// Reads a weights file into matrices. What was read before an error stays.
pub fn decode_weights(bytes: &Vec<u8>, list: &mut Vec<Vec<Vec<u32>>>) -> (r: Result<(), WeightsError>)
    requires
        all_readable(grids(old(list)@)),
    ensures
        ({
            let reading = read_file(bytes@, grids(old(list)@));
            &&& grids(final(list)@) == reading.list
            &&& match r {
                Ok(_) => reading.failed is None,
                Err(e) => reading.failed == Some(e),
            }
        }),
{
    let ghost origin = grids(list@);
    if bytes.len() < 8 {
        return Err(WeightsError::UnexpectedEnd);
    }
    let count: usize = read_u64(bytes, 0) as usize;
    if count != list.len() {
        return Err(WeightsError::CountMismatch);
    }
    let mut at: usize = 8;
    let mut p: usize = 0;
    while p < list.len()
        invariant
            p <= list@.len(),
            list@.len() == origin.len(),
            origin == grids(old(list)@),
            all_readable(origin),
            at <= bytes@.len(),
            read_file(bytes@, origin) == read_up_to(bytes@, origin, origin.len()),
            read_up_to(bytes@, origin, p as nat).failed is None,
            read_up_to(bytes@, origin, p as nat).at == at,
            read_up_to(bytes@, origin, p as nat).list == grids(list@),
            forall|k: int| p <= k < origin.len() ==> #[trigger] grids(list@)[k] == origin[k],
        decreases list@.len() - p,
    {
        let ghost so_far = read_up_to(bytes@, origin, p as nat);
        let ghost next = read_up_to(bytes@, origin, (p + 1) as nat);
        let ghost m = origin[p as int];
        assert(grids(list@)[p as int] == m && m == grid(list@[p as int]@));
        assert(m.len() > 0 && covers(m, m.len(), m[0].len()));
        assert(m[0] == list@[p as int]@[0]@);
        if bytes.len() - at < 16 {
            proof {
                lemma_failure_stays(bytes@, origin, (p + 1) as nat, origin.len());
            }
            return Err(WeightsError::UnexpectedEnd);
        }
        let rows: usize = read_u64(bytes, at) as usize;
        let cols: usize = read_u64(bytes, at + 8) as usize;
        if rows != list[p].len() {
            proof {
                lemma_failure_stays(bytes@, origin, (p + 1) as nat, origin.len());
            }
            return Err(WeightsError::RowMismatch);
        }
        if cols != list[p][0].len() {
            proof {
                lemma_failure_stays(bytes@, origin, (p + 1) as nat, origin.len());
            }
            return Err(WeightsError::ColumnMismatch);
        }
        let ghost before = grids(list@);
        let whole: bool = read_rows(bytes, at, &mut list[p]);
        assert(grids(list@) =~= before.update(p as int, matrix_read(bytes@, at as int, m)));
        if !whole {
            proof {
                lemma_failure_stays(bytes@, origin, (p + 1) as nat, origin.len());
            }
            return Err(WeightsError::UnexpectedEnd);
        }
        at = next_matrix(bytes, at, rows, cols);
        p += 1;
    }
    Ok(())
}

/// Where the next matrix starts.
fn next_matrix(bytes: &Vec<u8>, at: usize, rows: usize, cols: usize) -> (r: usize)
    requires
        row_start(at as int, cols as nat, rows as nat) <= bytes@.len(),
    ensures
        r == row_start(at as int, cols as nat, rows as nat),
{
    proof {
        lemma_row_start_grows(at as int, cols as nat, 0, rows as nat);
    }
    let total: usize = bytes.len();
    let mut place: usize = at + 16;
    let mut i: usize = 0;
    while i < rows
        invariant
            i <= rows,
            total == bytes@.len(),
            place == row_start(at as int, cols as nat, i as nat),
            row_start(at as int, cols as nat, rows as nat) <= bytes@.len(),
        decreases rows - i,
    {
        proof {
            lemma_row_start_grows(at as int, cols as nat, (i + 1) as nat, rows as nat);
        }
        place = place + 4 * cols;
        i += 1;
    }
    place
}

/// Whether weights are kept as text at a path.
pub fn is_json_path(path: &str) -> (r: bool)
    ensures
        r == finishes_with(path@, ".json"@),
{
    ends_with(path, ".json")
}

/// What keeps one list of matrices from taking the place of another, from matrix `from` on.
pub open spec fn shape_error(list: Seq<Seq<Seq<u32>>>, weights: Seq<Seq<Seq<u32>>>, from: nat) -> Option<WeightsError>
    decreases list.len() - from,
{
    if from >= list.len() {
        None
    } else if list[from as int].len() != weights[from as int].len() {
        Some(WeightsError::RowMismatch)
    } else if list[from as int][0].len() != weights[from as int][0].len() {
        Some(WeightsError::ColumnMismatch)
    } else {
        shape_error(list, weights, from + 1)
    }
}

/// Checks that matrices can take the place of others: as many, with as many rows, and first rows of
/// the same length.
pub fn check_shapes(list: &Vec<Vec<Vec<u32>>>, weights: &Vec<Vec<Vec<u32>>>) -> (r: Result<(), WeightsError>)
    requires
        all_have_rows(grids(list@)),
    ensures
        match r {
            Ok(_) => list@.len() == weights@.len() && shape_error(grids(list@), grids(weights@), 0) is None,
            Err(e) => if list@.len() != weights@.len() {
                e is CountMismatch
            } else {
                shape_error(grids(list@), grids(weights@), 0) == Some(e)
            },
        },
{
    if list.len() != weights.len() {
        return Err(WeightsError::CountMismatch);
    }
    let ghost a = grids(list@);
    let ghost b = grids(weights@);
    let mut p: usize = 0;
    while p < list.len()
        invariant
            p <= list@.len(),
            list@.len() == weights@.len(),
            a == grids(list@),
            b == grids(weights@),
            all_have_rows(a),
            shape_error(a, b, 0) == shape_error(a, b, p as nat),
        decreases list@.len() - p,
    {
        assert(a[p as int].len() > 0 && a[p as int] == grid(list@[p as int]@));
        assert(b[p as int] == grid(weights@[p as int]@));
        if list[p].len() != weights[p].len() {
            return Err(WeightsError::RowMismatch);
        }
        assert(a[p as int][0] == list@[p as int]@[0]@ && b[p as int][0] == weights@[p as int]@[0]@);
        if list[p][0].len() != weights[p][0].len() {
            return Err(WeightsError::ColumnMismatch);
        }
        p += 1;
    }
    Ok(())
}

proof fn lemma_row_bytes(row: Seq<u32>, j: int)
    requires
        0 <= j < row.len(),
    ensures
        row_bytes(row).len() == 4 * row.len(),
        row_bytes(row).subrange(4 * j, 4 * j + 4) == little_endian(row[j] as nat, 4),
    decreases row.len(),
{
    lemma_little_endian_len(row.last() as nat, 4);
    let front = row.drop_last();
    if j < front.len() {
        lemma_row_bytes(front, j);
        assert(row_bytes(row).subrange(4 * j, 4 * j + 4) =~= row_bytes(front).subrange(4 * j, 4 * j + 4));
    } else {
        if front.len() > 0 {
            lemma_row_bytes(front, 0);
        }
        assert(row_bytes(row).subrange(4 * j, 4 * j + 4) =~= little_endian(row[j] as nat, 4));
    }
}

proof fn lemma_row_bytes_len(row: Seq<u32>)
    ensures
        row_bytes(row).len() == 4 * row.len(),
{
    if row.len() > 0 {
        lemma_row_bytes(row, 0);
    }
}

proof fn lemma_rows_bytes(m: Seq<Seq<u32>>, cols: nat, at: int, i: int)
    requires
        has_shape(m, m.len(), cols),
        0 <= i <= m.len(),
    ensures
        rows_bytes(m).len() == row_start(at, cols, m.len()) - (at + 16),
        0 <= row_start(at, cols, i as nat) - (at + 16) <= rows_bytes(m).len(),
        i < m.len() ==> row_start(at, cols, i as nat) - (at + 16) + 4 * cols <= rows_bytes(m).len() && rows_bytes(
            m,
        ).subrange(row_start(at, cols, i as nat) - (at + 16), row_start(at, cols, i as nat) - (at + 16) + 4 * cols)
            == row_bytes(m[i]),
    decreases m.len(),
{
    lemma_row_start_grows(at, cols, 0, i as nat);
    lemma_row_start_grows(at, cols, i as nat, m.len());
    if m.len() > 0 {
        let front = m.drop_last();
        assert(has_shape(front, front.len(), cols)) by {
            assert forall|k: int| 0 <= k < front.len() implies (#[trigger] front[k]).len() == cols by {
                assert(m[k].len() == cols);
            }
        }
        assert(m.last().len() == cols);
        lemma_row_bytes_len(m.last());
        lemma_rows_bytes(
            front,
            cols,
            at,
            if i < front.len() {
                i
            } else {
                front.len() as int
            },
        );
        if i < m.len() {
            let start = row_start(at, cols, i as nat) - (at + 16);
            lemma_row_start_grows(at, cols, (i + 1) as nat, m.len());
            assert(rows_bytes(m).subrange(start, start + 4 * cols) =~= row_bytes(m[i]));
        }
    }
}

proof fn lemma_matrix_round_trip(bytes: Seq<u8>, at: int, m: Seq<Seq<u32>>, target: Seq<Seq<u32>>, cols: nat)
    requires
        0 < m.len() <= usize::MAX,
        cols <= usize::MAX,
        has_shape(m, m.len(), cols),
        has_shape(target, m.len(), cols),
        0 <= at,
        at + matrix_bytes(m).len() <= bytes.len(),
        bytes.subrange(at, at + matrix_bytes(m).len()) == matrix_bytes(m),
    ensures
        matrix_error(bytes, at, target) is None,
        matrix_read(bytes, at, target) == m,
        row_start(at, cols, m.len()) == at + matrix_bytes(m).len(),
{
    let part = matrix_bytes(m);
    assert(m[0].len() == cols && target[0].len() == cols);
    lemma_little_endian_len(m.len(), 8);
    lemma_little_endian_len(cols, 8);
    lemma_u64_fits(m.len() as u64);
    lemma_u64_fits(cols as u64);
    lemma_rows_bytes(m, cols, at, 0);
    assert(bytes.subrange(at, at + 8) =~= little_endian(m.len(), 8)) by {
        assert forall|t: int| 0 <= t < 8 implies bytes.subrange(at, at + 8)[t] == little_endian(m.len(), 8)[t] by {
            assert(bytes.subrange(at, at + part.len())[t] == part[t]);
        }
    }
    law_number_round_trip(m.len(), 8, bytes, at);
    assert(bytes.subrange(at + 8, at + 8 + 8) =~= little_endian(cols, 8)) by {
        assert forall|t: int| 0 <= t < 8 implies bytes.subrange(at + 8, at + 8 + 8)[t] == little_endian(cols, 8)[t] by {
            assert(bytes.subrange(at, at + part.len())[8 + t] == part[8 + t]);
        }
    }
    law_number_round_trip(cols, 8, bytes, at + 8);
    let read = matrix_read(bytes, at, target);
    assert forall|i: int| 0 <= i < m.len() implies read[i] == m[i] by {
        lemma_rows_bytes(m, cols, at, i);
        let start = row_start(at, cols, i as nat);
        let offset = start - (at + 16);
        assert(target[i].len() == cols && m[i].len() == cols);
        assert forall|j: int| 0 <= j < cols implies read[i][j] == m[i][j] by {
            lemma_row_bytes(m[i], j);
            lemma_u32_fits(m[i][j]);
            let here = start + 4 * j;
            let written = little_endian(m[i][j] as nat, 4);
            lemma_little_endian_len(m[i][j] as nat, 4);
            assert(bytes.subrange(here, here + 4) =~= written) by {
                assert forall|t: int| 0 <= t < 4 implies bytes.subrange(here, here + 4)[t] == written[t] by {
                    let row = row_bytes(m[i]);
                    assert(row.subrange(4 * j, 4 * j + 4)[t] == row[4 * j + t]);
                    assert(rows_bytes(m).subrange(offset, offset + 4 * cols)[4 * j + t] == rows_bytes(m)[offset + 4 * j + t]);
                    assert(part[16 + offset + 4 * j + t] == rows_bytes(m)[offset + 4 * j + t]);
                    assert(bytes.subrange(at, at + part.len())[16 + offset + 4 * j + t] == part[16 + offset + 4 * j + t]);
                }
            }
            law_number_round_trip(m[i][j] as nat, 4, bytes, here);
        }
        assert(read[i] =~= m[i]);
    }
    assert(read =~= m);
}

proof fn lemma_list_bytes_prefix(list: Seq<Seq<Seq<u32>>>, k: int)
    requires
        0 <= k < list.len(),
    ensures
        list_bytes(list.take(k)).len() + matrix_bytes(list[k]).len() <= list_bytes(list).len(),
        list_bytes(list).subrange(
            list_bytes(list.take(k)).len() as int,
            list_bytes(list.take(k)).len() as int + matrix_bytes(list[k]).len(),
        ) == matrix_bytes(list[k]),
    decreases list.len(),
{
    let front = list.drop_last();
    if k == list.len() - 1 {
        assert(list.take(k) =~= front);
        let n = list_bytes(front).len() as int;
        assert(list_bytes(list).subrange(n, n + matrix_bytes(list[k]).len()) =~= matrix_bytes(list[k]));
    } else {
        lemma_list_bytes_prefix(front, k);
        assert(front.take(k) =~= list.take(k));
        let n = list_bytes(front.take(k)).len() as int;
        let e = n + matrix_bytes(list[k]).len();
        assert(list_bytes(list).subrange(n, e) =~= list_bytes(front).subrange(n, e));
    }
}

/// Whether two lists of matrices have the same shapes, all rows of a matrix being equally long.
pub open spec fn same_shapes(a: Seq<Seq<Seq<u32>>>, b: Seq<Seq<Seq<u32>>>) -> bool {
    &&& a.len() == b.len()
    &&& forall|p: int|
        0 <= p < a.len() ==> 0 < (#[trigger] a[p]).len() <= usize::MAX && a[p][0].len() <= usize::MAX && has_shape(
            a[p],
            a[p].len(),
            a[p][0].len(),
        ) && has_shape(b[p], a[p].len(), a[p][0].len())
}

proof fn lemma_read_saved(saved: Seq<Seq<Seq<u32>>>, target: Seq<Seq<Seq<u32>>>, k: nat)
    requires
        same_shapes(saved, target),
        k <= saved.len(),
    ensures
        ({
            let r = read_up_to(file_bytes(saved), target, k);
            &&& r.failed is None
            &&& r.at == 8 + list_bytes(saved.take(k as int)).len()
            &&& r.list.len() == target.len()
            &&& forall|p: int| 0 <= p < k ==> #[trigger] r.list[p] == saved[p]
        }),
    decreases k,
{
    let bytes = file_bytes(saved);
    lemma_little_endian_len(saved.len(), 8);
    if k == 0 {
        assert(saved.take(0) =~= Seq::empty());
    } else {
        lemma_read_saved(saved, target, (k - 1) as nat);
        let p = k - 1;
        let m = saved[p];
        let at = 8 + list_bytes(saved.take(p)).len() as int;
        lemma_list_bytes_prefix(saved, p);
        let n = matrix_bytes(m).len() as int;
        assert(bytes.subrange(at, at + n) =~= matrix_bytes(m)) by {
            let body = list_bytes(saved);
            assert forall|t: int| 0 <= t < n implies bytes.subrange(at, at + n)[t] == matrix_bytes(m)[t] by {
                assert(body.subrange(at - 8, at - 8 + n)[t] == matrix_bytes(m)[t]);
            }
        }
        assert(0 < m.len());
        lemma_matrix_round_trip(bytes, at, m, target[p], m[0].len());
        assert(target[p].len() == m.len());
        assert(target[p][0].len() == m[0].len());
        assert(saved.take(k as int).drop_last() =~= saved.take(p));
        assert(saved.take(k as int).last() == m);
    }
}

/// Weights that were saved are the weights that are read, into matrices of the same shapes.
pub proof fn law_weights_round_trip(saved: Seq<Seq<Seq<u32>>>, target: Seq<Seq<Seq<u32>>>)
    requires
        same_shapes(saved, target),
        saved.len() <= usize::MAX,
    ensures
        read_file(file_bytes(saved), target).failed is None,
        read_file(file_bytes(saved), target).list == saved,
{
    let bytes = file_bytes(saved);
    lemma_little_endian_len(saved.len(), 8);
    lemma_u64_fits(saved.len() as u64);
    assert(bytes.subrange(0, 8) =~= little_endian(saved.len(), 8));
    law_number_round_trip(saved.len(), 8, bytes, 0);
    lemma_read_saved(saved, target, saved.len());
    let r = read_up_to(bytes, target, target.len());
    assert(r.list =~= saved);
}

} // verus!
