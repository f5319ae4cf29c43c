//! Small pictures side by side in a large one.

use vstd::prelude::*;

verus! {

/// The height and width of a small picture.
pub const SIDE: usize = 28;

/// How many pixels a small picture has.
pub const AREA: usize = 784;

/// The place, in a list of small pictures one behind the other, of the pixel that is seen at row `y`
/// and column `x` of the large one.
pub open spec fn source(cols: int, y: int, x: int) -> int {
    ((y / 28) * cols + x / 28) * 784 + (y % 28) * 28 + x % 28
}

/// The rows of the large picture.
pub open spec fn picture_rows(pixels: Seq<u8>, rows: nat, cols: nat) -> Seq<Seq<u8>> {
    Seq::new(
        rows * SIDE as nat,
        |y: int| Seq::new(cols * SIDE as nat, |x: int| pixels[source(cols as int, y, x)]),
    )
}

/// The first `k` rows one behind the other.
pub open spec fn joined(picture: Seq<Seq<u8>>, k: nat) -> Seq<u8>
    decreases k,
{
    if k == 0 {
        Seq::empty()
    } else {
        joined(picture, (k - 1) as nat) + picture[k - 1]
    }
}

proof fn lemma_source(rows: int, cols: int, y: int, x: int)
    requires
        0 <= y < rows * 28,
        0 <= x < cols * 28,
    ensures
        0 <= y / 28 < rows,
        0 <= x / 28 < cols,
        0 <= (y / 28) * cols + x / 28 < rows * cols,
        0 <= source(cols, y, x) < rows * cols * 784,
{
    let r = y / 28;
    let c = x / 28;
    assert(0 <= r * cols + c < rows * cols) by (nonlinear_arith)
        requires
            0 <= r < rows,
            0 <= c < cols,
    ;
    let tile = r * cols + c;
    assert(tile * 784 + 784 <= rows * cols * 784) by (nonlinear_arith)
        requires
            tile + 1 <= rows * cols,
    ;
}

/// Puts small pictures in a large one, `cols` beside and `rows` below each other, and gives its pixels
/// row by row.
pub fn assemble(pixels: &Vec<u8>, rows: usize, cols: usize) -> (r: Vec<u8>)
    requires
        rows * cols * AREA <= pixels@.len(),
        rows * SIDE <= usize::MAX,
        cols * SIDE <= usize::MAX,
    ensures
        r@ == joined(picture_rows(pixels@, rows as nat, cols as nat), rows as nat * SIDE as nat),
{
    let total: usize = pixels.len();
    let ghost picture = picture_rows(pixels@, rows as nat, cols as nat);
    let height: usize = rows * SIDE;
    let width: usize = cols * SIDE;
    let mut out: Vec<u8> = Vec::new();
    let mut y: usize = 0;
    while y < height
        invariant
            y <= height,
            height == rows * SIDE,
            width == cols * SIDE,
            total == pixels@.len(),
            rows * cols * AREA <= total,
            picture == picture_rows(pixels@, rows as nat, cols as nat),
            out@ == joined(picture, y as nat),
        decreases height - y,
    {
        let ghost before = out@;
        let mut x: usize = 0;
        assert(before + picture[y as int].take(0) =~= before);
        while x < width
            invariant
                y < height,
                x <= width,
                height == rows * SIDE,
                width == cols * SIDE,
                total == pixels@.len(),
                rows * cols * AREA <= total,
                picture == picture_rows(pixels@, rows as nat, cols as nat),
                out@ == before + picture[y as int].take(x as int),
            decreases width - x,
        {
            proof {
                lemma_source(rows as int, cols as int, y as int, x as int);
                let tile = (y as int / 28) * cols + x as int / 28;
                assert((y as int / 28) * cols <= tile);
                assert(tile * 784 <= source(cols as int, y as int, x as int));
            }
            let tile: usize = (y / SIDE) * cols + x / SIDE;
            let place: usize = tile * AREA + (y % SIDE) * SIDE + x % SIDE;
            assert(place == source(cols as int, y as int, x as int));
            out.push(pixels[place]);
            x += 1;
            assert(out@ =~= before + picture[y as int].take(x as int));
        }
        assert(picture[y as int].take(x as int) =~= picture[y as int]);
        y += 1;
    }
    out
}

/// Every pixel of every small picture is seen where its picture stands.
pub proof fn law_pictures_stand_in_place(
    pixels: Seq<u8>,
    rows: nat,
    cols: nat,
    r: int,
    c: int,
    y: int,
    x: int,
)
    requires
        0 <= r < rows,
        0 <= c < cols,
        0 <= y < SIDE,
        0 <= x < SIDE,
    ensures
        0 <= r * SIDE + y < rows * SIDE,
        0 <= c * SIDE + x < cols * SIDE,
        picture_rows(pixels, rows, cols)[r * SIDE + y][c * SIDE + x] == pixels[(r * cols + c) * AREA + y * SIDE + x],
{
    assert((r * 28 + y) / 28 == r && (r * 28 + y) % 28 == y);
    assert((c * 28 + x) / 28 == c && (c * 28 + x) % 28 == x);
}

} // verus!
