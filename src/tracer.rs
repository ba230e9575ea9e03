use vstd::prelude::*;
use crate::palette::{EscapeResult, Pixel, shade, shade_of, interior_pixel};

verus! {

/// Smallest side length, in pixels, at which a rectangle with a mixed border
/// is still subdivided.
pub const MIN_SPLIT: usize = 6;

/// What evaluating pixel `(x, y)` with `f` gives.
pub open spec fn result_at<F: Fn(usize, usize) -> EscapeResult>(f: &F, x: int, y: int) -> EscapeResult {
    choose|r: EscapeResult| #[trigger] call_ensures(*f, (x as usize, y as usize), r)
}

/// `f` evaluates pixels: it may be called on every pixel and its result
/// depends on the pixel alone.
pub open spec fn is_evaluator<F: Fn(usize, usize) -> EscapeResult>(f: &F) -> bool {
    &&& forall|x: usize, y: usize| #[trigger] call_requires(*f, (x, y))
    &&& forall|x: usize, y: usize, r1: EscapeResult, r2: EscapeResult|
        #[trigger] call_ensures(*f, (x, y), r1) && #[trigger] call_ensures(*f, (x, y), r2) ==> r1 == r2
}

/// Evaluates pixel `(x, y)`.
pub fn evaluate_at<F: Fn(usize, usize) -> EscapeResult>(f: &F, x: usize, y: usize) -> (r: EscapeResult)
    requires
        is_evaluator(f),
    ensures
        r == result_at(f, x as int, y as int),
{
    assert(call_requires(*f, (x, y)));
    let r = f(x, y);
    proof {
        let c = result_at(f, x as int, y as int);
        assert(call_ensures(*f, (x, y), c));
    }
    r
}

/// An axis-aligned pixel rectangle in image coordinates.
#[derive(Clone, Copy, Debug, PartialEq, Eq, Structural)]
pub struct Rect {
    pub x: usize,
    pub y: usize,
    pub width: usize,
    pub height: usize,
}

/// What the tracer does with a rectangle once its border is known.
#[derive(Clone, Copy, Debug, PartialEq, Eq, Structural)]
pub enum FillPlan {
    /// Paint the inside with the interior colour without evaluating it.
    FlatInterior,
    /// Evaluate every inside pixel.
    EvaluateAll,
    /// Split along the longer side and trace both halves.
    Split,
}

/// The decision for a rectangle of the given size whose border holds
/// interior pixels (`has_interior`) and/or escaped ones (`has_escaped`).
pub open spec fn plan_of(has_interior: bool, has_escaped: bool, width: int, height: int) -> FillPlan {
    if has_interior && !has_escaped {
        FillPlan::FlatInterior
    } else if !has_interior || width < MIN_SPLIT || height < MIN_SPLIT {
        FillPlan::EvaluateAll
    } else {
        FillPlan::Split
    }
}

/// Chooses how to fill a rectangle from what its border holds: a border of
/// interior pixels only is filled flat, a border of escaped pixels only is
/// filled by evaluation, a mixed border is split unless a side is shorter
/// than `MIN_SPLIT`, in which case every pixel is evaluated.
pub fn plan_step(has_interior: bool, has_escaped: bool, width: usize, height: usize) -> (r: FillPlan)
    ensures
        r == plan_of(has_interior, has_escaped, width as int, height as int),
{
    if has_interior && !has_escaped {
        FillPlan::FlatInterior
    } else if !has_interior || width < MIN_SPLIT || height < MIN_SPLIT {
        FillPlan::EvaluateAll
    } else {
        FillPlan::Split
    }
}

/// `(x, y)` lies in `r`.
pub open spec fn in_rect(r: Rect, x: int, y: int) -> bool {
    r.x <= x < r.x + r.width && r.y <= y < r.y + r.height
}

/// `(x, y)` lies on the outermost ring of pixels of `r`.
pub open spec fn on_border(r: Rect, x: int, y: int) -> bool {
    &&& in_rect(r, x, y)
    &&& (x == r.x || x == r.x + r.width - 1 || y == r.y || y == r.y + r.height - 1)
}

/// `(x, y)` lies in `r` but not on its border.
pub open spec fn strictly_inside(r: Rect, x: int, y: int) -> bool {
    r.x < x < r.x + r.width - 1 && r.y < y < r.y + r.height - 1
}

/// Every border pixel of `r` evaluates to `Interior`.
pub open spec fn border_interior<F: Fn(usize, usize) -> EscapeResult>(f: &F, r: Rect) -> bool {
    forall|x: int, y: int| #[trigger] on_border(r, x, y) ==> result_at(f, x, y) == EscapeResult::Interior
}

/// `(x, y)` lies strictly inside some rectangle whose border is all interior.
pub open spec fn enclosed<F: Fn(usize, usize) -> EscapeResult>(f: &F, x: int, y: int) -> bool {
    exists|r: Rect| #[trigger] strictly_inside(r, x, y) && border_interior(f, r)
}

/// Evaluators for which every pixel enclosed by an all-interior border is
/// itself interior: on them, flat filling is exact.
pub open spec fn hole_free<F: Fn(usize, usize) -> EscapeResult>(f: &F) -> bool {
    forall|x: int, y: int| #[trigger] enclosed(f, x, y) ==> result_at(f, x, y) == EscapeResult::Interior
}

/// The four bytes of pixel `i` of a byte buffer.
pub open spec fn pixel_of(bytes: Seq<u8>, i: int) -> Pixel {
    (bytes[4 * i], bytes[4 * i + 1], bytes[4 * i + 2], bytes[4 * i + 3])
}

/// A colour the tracer may give pixel `(x, y)`: its exact shade, or the
/// interior colour where the pixel is enclosed by an all-interior border.
pub open spec fn admissible<F: Fn(usize, usize) -> EscapeResult>(f: &F, x: int, y: int, p: Pixel) -> bool {
    p == shade_of(result_at(f, x, y)) || (p == interior_pixel() && enclosed(f, x, y))
}

/// Column of the pixel at index `i` of a tile that starts at pixel `start`
/// of an image `width` pixels wide.
pub open spec fn col_of(width: int, start: int, i: int) -> int {
    (start + i) % width
}

/// Row of the pixel at index `i` of such a tile.
pub open spec fn row_of(width: int, start: int, i: int) -> int {
    (start + i) / width
}

/// The record of a tile's rendering: `evaluations[i]` is how often pixel
/// `i` was evaluated, `flats` the rectangles whose inside was filled flat.
/// No pixel is evaluated twice; every flat rectangle has an all-interior
/// border and no pixel inside it is evaluated, each holding the interior
/// colour; every pixel not evaluated lies inside a flat rectangle; every
/// evaluated pixel holds its exact shade.
pub open spec fn traced<F: Fn(usize, usize) -> EscapeResult>(
    f: &F,
    width: int,
    start: int,
    bytes: Seq<u8>,
    evaluations: Seq<nat>,
    flats: Seq<Rect>,
) -> bool {
    let n = bytes.len() / 4;
    &&& evaluations.len() == n
    &&& forall|i: int| 0 <= i < n ==> #[trigger] evaluations[i] <= 1
    &&& forall|i: int| 0 <= i < n && evaluations[i] == 1 ==> #[trigger] pixel_of(bytes, i) == shade_of(
        result_at(f, col_of(width, start, i), row_of(width, start, i)),
    )
    &&& forall|m: int| 0 <= m < flats.len() ==> border_interior(f, #[trigger] flats[m])
    &&& forall|m: int, i: int|
        #![trigger strictly_inside(flats[m], col_of(width, start, i), row_of(width, start, i)), evaluations[i]]
        0 <= m < flats.len() && 0 <= i < n && strictly_inside(flats[m], col_of(width, start, i), row_of(width, start, i))
        ==> evaluations[i] == 0 && pixel_of(bytes, i) == interior_pixel()
    &&& forall|i: int| 0 <= i < n && #[trigger] evaluations[i] == 0
        ==> exists|m: int| 0 <= m < flats.len() && #[trigger] strictly_inside(flats[m], col_of(width, start, i), row_of(width, start, i))
}

/// Every pixel of the tile's bytes has an admissible colour.
pub open spec fn rendered<F: Fn(usize, usize) -> EscapeResult>(f: &F, width: int, start: int, bytes: Seq<u8>) -> bool {
    &&& bytes.len() % 4 == 0
    &&& forall|i: int| 0 <= i < bytes.len() / 4 ==> #[trigger] admissible(
        f,
        col_of(width, start, i),
        row_of(width, start, i),
        pixel_of(bytes, i),
    )
}

/// What is known of tile pixel `i` during tracing: 0 nothing; 1 evaluated,
/// interior; 2 evaluated, escaped; 3 filled flat inside an interior border.
spec fn known_ok<F: Fn(usize, usize) -> EscapeResult>(f: &F, width: int, start: int, out: Seq<u8>, known: Seq<u8>, i: int) -> bool {
    let x = col_of(width, start, i);
    let y = row_of(width, start, i);
    &&& known[i] <= 3
    &&& known[i] == 1 ==> result_at(f, x, y) == EscapeResult::Interior && pixel_of(out, i) == interior_pixel()
    &&& known[i] == 2 ==> result_at(f, x, y) is Escaped && pixel_of(out, i) == shade_of(result_at(f, x, y))
    &&& known[i] == 3 ==> pixel_of(out, i) == interior_pixel() && enclosed(f, x, y)
}

spec fn state_ok<F: Fn(usize, usize) -> EscapeResult>(f: &F, width: int, start: int, out: Seq<u8>, known: Seq<u8>) -> bool {
    &&& out.len() == 4 * known.len()
    &&& forall|i: int| 0 <= i < known.len() ==> #[trigger] known_ok(f, width, start, out, known, i)
}

/// `evals[j]` counts the calls of the evaluator on pixel `j`: one for every
/// pixel whose result is known, none for the others.
spec fn counted(known: Seq<u8>, evals: Seq<nat>) -> bool {
    &&& evals.len() == known.len()
    &&& forall|j: int| 0 <= j < known.len() ==> #[trigger] evals[j] == (if known[j] == 1 || known[j] == 2 { 1nat } else { 0nat })
}

/// Writes pixel `i` of a byte buffer.
fn write_pixel(out: &mut Vec<u8>, i: usize, p: Pixel)
    requires
        4 * i + 3 < old(out).len(),
    ensures
        final(out).len() == old(out).len(),
        pixel_of(final(out)@, i as int) == p,
        forall|k: int| 0 <= k < old(out).len() && !(4 * i <= k < 4 * i + 4) ==> final(out)@[k] == old(out)@[k],
{
    out.set(4 * i, p.0);
    out.set(4 * i + 1, p.1);
    out.set(4 * i + 2, p.2);
    out.set(4 * i + 3, p.3);
}

proof fn lemma_pixel_unchanged(a: Seq<u8>, b: Seq<u8>, i: int, j: int)
    requires
        a.len() == b.len(),
        0 <= j,
        4 * j + 3 < a.len(),
        i != j,
        forall|k: int| 0 <= k < a.len() && !(4 * i <= k < 4 * i + 4) ==> b[k] == a[k],
    ensures
        pixel_of(a, j) == pixel_of(b, j),
{
}

/// Makes sure pixel `i` is evaluated and painted with its exact shade,
/// evaluating it only when nothing exact is known of it yet. Returns whether
/// it is interior.
fn visit<F: Fn(usize, usize) -> EscapeResult>(
    f: &F,
    width: usize,
    start: usize,
    out: &mut Vec<u8>,
    known: &mut Vec<u8>,
    evals: &mut Ghost<Seq<nat>>,
    i: usize,
) -> (interior: bool)
    requires
        width > 0,
        is_evaluator(f),
        state_ok(f, width as int, start as int, old(out)@, old(known)@),
        counted(old(known)@, old(evals)@),
        i < old(known).len(),
        old(known)@[i as int] != 3,
        start + i <= usize::MAX,
    ensures
        state_ok(f, width as int, start as int, final(out)@, final(known)@),
        counted(final(known)@, final(evals)@),
        final(known).len() == old(known).len(),
        final(known)@[i as int] == 1 || final(known)@[i as int] == 2,
        interior == (final(known)@[i as int] == 1),
        forall|j: int| 0 <= j < old(known).len() && j != i ==> final(known)@[j] == old(known)@[j],
{
    let k = known[i];
    if k == 1 {
        return true;
    }
    if k == 2 {
        return false;
    }
    let p: usize = start + i;
    let x = p % width;
    let y = p / width;
    let r = evaluate_at(f, x, y);
    proof {
        evals@ = evals@.update(i as int, evals@[i as int] + 1);
    }
    let color = shade(r);
    let ghost out0 = out@;
    let ghost known0 = known@;
    write_pixel(out, i, color);
    let interior = match r {
        EscapeResult::Interior => true,
        EscapeResult::Escaped { .. } => false,
    };
    known.set(i, if interior { 1 } else { 2 });
    proof {
        assert forall|j: int| 0 <= j < known@.len() implies #[trigger] known_ok(f, width as int, start as int, out@, known@, j) by {
            if j != i {
                assert(known_ok(f, width as int, start as int, out0, known0, j));
                lemma_pixel_unchanged(out0, out@, i as int, j);
            }
        }
    }
    interior
}

/// Paints pixel `i`, of which nothing is known yet, with the interior colour.
fn paint_flat<F: Fn(usize, usize) -> EscapeResult>(f: &F, width: usize, start: usize, out: &mut Vec<u8>, known: &mut Vec<u8>, i: usize)
    requires
        width > 0,
        is_evaluator(f),
        state_ok(f, width as int, start as int, old(out)@, old(known)@),
        i < old(known).len(),
        old(known)@[i as int] == 0,
        enclosed(f, col_of(width as int, start as int, i as int), row_of(width as int, start as int, i as int)),
    ensures
        state_ok(f, width as int, start as int, final(out)@, final(known)@),
        final(known).len() == old(known).len(),
        final(known)@[i as int] == 3,
        forall|j: int| 0 <= j < old(known).len() && j != i ==> final(known)@[j] == old(known)@[j],
{
    let ghost out0 = out@;
    let ghost known0 = known@;
    write_pixel(out, i, (0, 0, 0, 255));
    known.set(i, 3);
    proof {
        assert forall|j: int| 0 <= j < known@.len() implies #[trigger] known_ok(f, width as int, start as int, out@, known@, j) by {
            if j != i {
                assert(known_ok(f, width as int, start as int, out0, known0, j));
                lemma_pixel_unchanged(out0, out@, i as int, j);
            }
        }
    }
}

/// Tile index of pixel `(x, y)` in a tile that starts at pixel `start`.
pub open spec fn index_of(width: int, start: int, x: int, y: int) -> int {
    y * width + x - start
}

/// Every pixel of `r` lies in the tile of `n` pixels that starts at `start`,
/// and `r` does not cross the image's right edge.
pub open spec fn rect_fits(r: Rect, width: int, start: int, n: int) -> bool {
    r.width == 0 || r.height == 0 || {
        &&& r.x + r.width <= width
        &&& start <= r.y * width + r.x
        &&& (r.y + r.height - 1) * width + r.x + r.width <= start + n
    }
}

proof fn lemma_coords(width: int, start: int, n: int, r: Rect, x: int, y: int)
    requires
        width > 0,
        start >= 0,
        rect_fits(r, width, start, n),
        in_rect(r, x, y),
    ensures
        0 <= index_of(width, start, x, y) < n,
        col_of(width, start, index_of(width, start, x, y)) == x,
        row_of(width, start, index_of(width, start, x, y)) == y,
{
    let ry = r.y as int;
    let rh = r.height as int;
    assert(y * width >= ry * width) by (nonlinear_arith)
        requires y >= ry, width > 0;
    assert(y * width <= (ry + rh - 1) * width) by (nonlinear_arith)
        requires y <= ry + rh - 1, width > 0;
    vstd::arithmetic::div_mod::lemma_fundamental_div_mod_converse(y * width + x, width, y, x);
}

proof fn lemma_index_coords(width: int, start: int, i: int)
    requires
        width > 0,
        start >= 0,
        i >= 0,
    ensures
        index_of(width, start, col_of(width, start, i), row_of(width, start, i)) == i,
        0 <= col_of(width, start, i) < width,
        row_of(width, start, i) >= 0,
{
    vstd::arithmetic::div_mod::lemma_fundamental_div_mod(start + i, width);
    vstd::arithmetic::mul::lemma_mul_is_commutative(width, (start + i) / width);
}

proof fn lemma_fits_bounds(r: Rect, width: int, start: int, n: int)
    requires
        width > 0,
        start >= 0,
        r.width > 0,
        r.height > 0,
        rect_fits(r, width, start, n),
    ensures
        r.y + r.height - 1 < start + n,
        r.x + r.width <= width,
{
    let a = r.y + r.height - 1;
    assert(a <= a * width) by (nonlinear_arith)
        requires a >= 0, width >= 1;
}

/// Tile index of pixel `(x, y)` of a rectangle that fits the tile.
fn tile_index(width: usize, start: usize, n: usize, r: Rect, x: usize, y: usize) -> (i: usize)
    requires
        width > 0,
        start + n <= usize::MAX,
        rect_fits(r, width as int, start as int, n as int),
        in_rect(r, x as int, y as int),
    ensures
        i as int == index_of(width as int, start as int, x as int, y as int),
        i < n,
{
    proof {
        lemma_coords(width as int, start as int, n as int, r, x as int, y as int);
    }
    y * width + x - start
}

/// The tile pixel at the index of `(x, y)` in `r` is `(x, y)` itself, so no
/// other pixel shares that index.
proof fn lemma_border_index(width: int, start: int, n: int, r: Rect, x: int, y: int)
    requires
        width > 0,
        start >= 0,
        rect_fits(r, width, start, n),
        in_rect(r, x, y),
    ensures
        forall|j: int| 0 <= j < n && (col_of(width, start, j) != x || row_of(width, start, j) != y)
            ==> j != index_of(width, start, x, y),
        in_rect(r, col_of(width, start, index_of(width, start, x, y)), row_of(width, start, index_of(width, start, x, y))),
{
    lemma_coords(width, start, n, r, x, y);
}

spec fn scanned(known: Seq<u8>, i: int, has_escaped: bool) -> bool {
    &&& known[i] == 1 || known[i] == 2
    &&& !has_escaped ==> known[i] == 1
}

/// Visits border pixel `(x, y)` of `r` and records what it holds.
fn scan_pixel<F: Fn(usize, usize) -> EscapeResult>(
    f: &F,
    width: usize,
    start: usize,
    out: &mut Vec<u8>,
    known: &mut Vec<u8>,
    evals: &mut Ghost<Seq<nat>>,
    r: Rect,
    x: usize,
    y: usize,
    has_interior: &mut bool,
    has_escaped: &mut bool,
)
    requires
        width > 0,
        is_evaluator(f),
        start + old(known).len() <= usize::MAX,
        state_ok(f, width as int, start as int, old(out)@, old(known)@),
        counted(old(known)@, old(evals)@),
        rect_fits(r, width as int, start as int, old(known).len() as int),
        in_rect(r, x as int, y as int),
        old(known)@[index_of(width as int, start as int, x as int, y as int)] != 3,
    ensures
        state_ok(f, width as int, start as int, final(out)@, final(known)@),
        counted(final(known)@, final(evals)@),
        final(known).len() == old(known).len(),
        forall|j: int| 0 <= j < old(known).len() && j != index_of(width as int, start as int, x as int, y as int)
            ==> final(known)@[j] == old(known)@[j],
        forall|j: int| 0 <= j < old(known).len() ==> (final(known)@[j] == 3) == (old(known)@[j] == 3),
        forall|j: int| 0 <= j < old(known).len() && old(known)@[j] != 0 ==> final(known)@[j] != 0,
        forall|j: int| 0 <= j < old(known).len() && scanned(old(known)@, j, *old(has_escaped)) ==> scanned(final(known)@, j, *final(has_escaped)),
        scanned(final(known)@, index_of(width as int, start as int, x as int, y as int), *final(has_escaped)),
{
    let n = known.len();
    let i = tile_index(width, start, n, r, x, y);
    let interior = visit(f, width, start, out, known, evals, i);
    if interior {
        *has_interior = true;
    } else {
        *has_escaped = true;
    }
}

/// Evaluates (where not yet known) and paints the border of `r`; returns
/// whether the border holds an interior pixel and whether it holds an
/// escaped one.
fn scan_border<F: Fn(usize, usize) -> EscapeResult>(
    f: &F,
    width: usize,
    start: usize,
    out: &mut Vec<u8>,
    known: &mut Vec<u8>,
    evals: &mut Ghost<Seq<nat>>,
    r: Rect,
) -> (flags: (bool, bool))
    requires
        width > 0,
        is_evaluator(f),
        start + old(known).len() <= usize::MAX,
        state_ok(f, width as int, start as int, old(out)@, old(known)@),
        counted(old(known)@, old(evals)@),
        rect_fits(r, width as int, start as int, old(known).len() as int),
        r.width > 0,
        r.height > 0,
        forall|j: int| 0 <= j < old(known).len() && in_rect(r, col_of(width as int, start as int, j), row_of(width as int, start as int, j))
            ==> old(known)@[j] != 3,
    ensures
        state_ok(f, width as int, start as int, final(out)@, final(known)@),
        counted(final(known)@, final(evals)@),
        final(known).len() == old(known).len(),
        forall|j: int| 0 <= j < old(known).len() && !on_border(r, col_of(width as int, start as int, j), row_of(width as int, start as int, j))
            ==> final(known)@[j] == old(known)@[j],
        forall|j: int| 0 <= j < old(known).len() ==> (final(known)@[j] == 3) == (old(known)@[j] == 3),
        forall|j: int| 0 <= j < old(known).len() && old(known)@[j] != 0 ==> final(known)@[j] != 0,
        forall|x: int, y: int| #[trigger] on_border(r, x, y) ==> {
            let i = index_of(width as int, start as int, x, y);
            0 <= i < final(known).len() && final(known)@[i] != 0
        },
        !flags.1 ==> border_interior(f, r),
{
    let ghost w = width as int;
    let ghost s = start as int;
    let n = known.len();
    let ghost known_in = known@;
    let mut has_interior = false;
    let mut has_escaped = false;
    proof {
        lemma_fits_bounds(r, w, s, n as int);
    }
    let last_row = r.y + (r.height - 1);
    let last_col = r.x + (r.width - 1);
    let mut y = r.y;
    while y <= last_row
        invariant
            width > 0,
            is_evaluator(f),
            w == width as int,
            s == start as int,
            start + n <= usize::MAX,
            n == known.len(),
            known_in.len() == n,
            state_ok(f, w, s, out@, known@),
            rect_fits(r, w, s, n as int),
            r.width > 0,
            r.height > 0,
            last_row == r.y + r.height - 1,
            last_row < start + n,
            last_col == r.x + r.width - 1,
            r.y <= y <= last_row + 1,
            counted(known@, evals@),
            forall|j: int| 0 <= j < n && in_rect(r, col_of(w, s, j), row_of(w, s, j)) ==> known_in[j] != 3,
            forall|j: int| 0 <= j < n ==> (known@[j] == 3) == (known_in[j] == 3),
            forall|j: int| 0 <= j < n && !on_border(r, col_of(w, s, j), row_of(w, s, j)) ==> known@[j] == known_in[j],
            forall|j: int| 0 <= j < n && known_in[j] != 0 ==> known@[j] != 0,
            forall|px: int, py: int| #[trigger] on_border(r, px, py) && py < y ==> scanned(known@, index_of(w, s, px, py), has_escaped),
        decreases last_row + 1 - y,
    {
        if y == r.y || y == last_row {
            let mut x = r.x;
            while x <= last_col
                invariant
                    width > 0,
                    is_evaluator(f),
                    w == width as int,
                    s == start as int,
                    start + n <= usize::MAX,
                    n == known.len(),
                    known_in.len() == n,
                    state_ok(f, w, s, out@, known@),
                    rect_fits(r, w, s, n as int),
                    r.width > 0,
                    r.height > 0,
                    last_row == r.y + r.height - 1,
                    last_col == r.x + r.width - 1,
                    r.y <= y <= last_row,
                    y == r.y || y == last_row,
                    r.x <= x <= last_col + 1,
                    counted(known@, evals@),
                    forall|j: int| 0 <= j < n && in_rect(r, col_of(w, s, j), row_of(w, s, j)) ==> known_in[j] != 3,
                    forall|j: int| 0 <= j < n ==> (known@[j] == 3) == (known_in[j] == 3),
                    forall|j: int| 0 <= j < n && !on_border(r, col_of(w, s, j), row_of(w, s, j)) ==> known@[j] == known_in[j],
                    forall|j: int| 0 <= j < n && known_in[j] != 0 ==> known@[j] != 0,
                    forall|px: int, py: int| #[trigger] on_border(r, px, py) && (py < y || (py == y && px < x)) ==> scanned(known@, index_of(w, s, px, py), has_escaped),
                decreases last_col + 1 - x,
            {
                let ghost before = known@;
                let ghost esc0 = has_escaped;
                proof {
                    lemma_coords(w, s, n as int, r, x as int, y as int);
                    lemma_border_index(w, s, n as int, r, x as int, y as int);
                }
                proof {
                    let ghost ci = index_of(w, s, x as int, y as int);
                    assert(in_rect(r, col_of(w, s, ci), row_of(w, s, ci)));
                    assert(known_in[ci] != 3);
                    assert((known@[ci] == 3) == (known_in[ci] == 3));
                }
                scan_pixel(f, width, start, out, known, evals, r, x, y, &mut has_interior, &mut has_escaped);
                proof {
                    assert forall|px: int, py: int| #[trigger] on_border(r, px, py) && (py < y || (py == y && px < x + 1)) implies scanned(known@, index_of(w, s, px, py), has_escaped) by {
                        if !(px == x && py == y) {
                            lemma_coords(w, s, n as int, r, px, py);
                            assert(scanned(before, index_of(w, s, px, py), esc0));
                        }
                    }
                }
                x = x + 1;
            }
        } else {
            let ghost before = known@;
            let ghost esc0 = has_escaped;
            proof {
                lemma_coords(w, s, n as int, r, r.x as int, y as int);
                lemma_border_index(w, s, n as int, r, r.x as int, y as int);
                lemma_coords(w, s, n as int, r, last_col as int, y as int);
                lemma_border_index(w, s, n as int, r, last_col as int, y as int);
            }
            proof {
                let ci = index_of(w, s, r.x as int, y as int);
                assert(in_rect(r, col_of(w, s, ci), row_of(w, s, ci)));
                assert(known_in[ci] != 3);
                assert((known@[ci] == 3) == (known_in[ci] == 3));
            }
            scan_pixel(f, width, start, out, known, evals, r, r.x, y, &mut has_interior, &mut has_escaped);
            let ghost mid = known@;
            let ghost esc1 = has_escaped;
            proof {
                let ci = index_of(w, s, last_col as int, y as int);
                assert(in_rect(r, col_of(w, s, ci), row_of(w, s, ci)));
                assert(known_in[ci] != 3);
                assert((known@[ci] == 3) == (known_in[ci] == 3));
            }
            scan_pixel(f, width, start, out, known, evals, r, last_col, y, &mut has_interior, &mut has_escaped);
            proof {
                assert forall|px: int, py: int| #[trigger] on_border(r, px, py) && py < y + 1 implies scanned(known@, index_of(w, s, px, py), has_escaped) by {
                    lemma_coords(w, s, n as int, r, px, py);
                    let j = index_of(w, s, px, py);
                    if py < y {
                        assert(scanned(before, j, esc0));
                        assert(scanned(mid, j, esc1));
                    } else if px == r.x {
                        assert(scanned(mid, j, esc1));
                    }
                }
            }
        }
        y = y + 1;
    }
    proof {
        if !has_escaped {
            assert forall|x: int, y: int| #[trigger] on_border(r, x, y) implies result_at(f, x, y) == EscapeResult::Interior by {
                lemma_coords(w, s, n as int, r, x, y);
                let i = index_of(w, s, x, y);
                assert(known_ok(f, w, s, out@, known@, i));
            }
        }
        assert forall|x: int, y: int| #[trigger] on_border(r, x, y) implies {
            let i = index_of(w, s, x, y);
            0 <= i < known.len() && known@[i] != 0
        } by {
            lemma_coords(w, s, n as int, r, x, y);
            assert(scanned(known@, index_of(w, s, x, y), has_escaped));
        }
    }
    (has_interior, has_escaped)
}

/// Fills the pixels strictly inside `r`, of which nothing is known yet: flat
/// with the interior colour when `flat` holds (which needs an all-interior
/// border), else by evaluation.
fn fill_inside<F: Fn(usize, usize) -> EscapeResult>(
    f: &F,
    width: usize,
    start: usize,
    out: &mut Vec<u8>,
    known: &mut Vec<u8>,
    evals: &mut Ghost<Seq<nat>>,
    r: Rect,
    flat: bool,
)
    requires
        width > 0,
        is_evaluator(f),
        start + old(known).len() <= usize::MAX,
        state_ok(f, width as int, start as int, old(out)@, old(known)@),
        counted(old(known)@, old(evals)@),
        rect_fits(r, width as int, start as int, old(known).len() as int),
        r.width > 0,
        r.height > 0,
        flat ==> border_interior(f, r),
        forall|j: int| 0 <= j < old(known).len() && strictly_inside(r, col_of(width as int, start as int, j), row_of(width as int, start as int, j))
            ==> old(known)@[j] == 0,
    ensures
        state_ok(f, width as int, start as int, final(out)@, final(known)@),
        counted(final(known)@, final(evals)@),
        final(known).len() == old(known).len(),
        forall|j: int| 0 <= j < old(known).len() && !strictly_inside(r, col_of(width as int, start as int, j), row_of(width as int, start as int, j))
            ==> final(known)@[j] == old(known)@[j],
        forall|j: int| 0 <= j < old(known).len() && strictly_inside(r, col_of(width as int, start as int, j), row_of(width as int, start as int, j))
            ==> if flat { final(known)@[j] == 3 } else { final(known)@[j] == 1 || final(known)@[j] == 2 },
{
    let ghost w = width as int;
    let ghost s = start as int;
    let n = known.len();
    let ghost known_in = known@;
    proof {
        lemma_fits_bounds(r, w, s, n as int);
    }
    let last_row = r.y + (r.height - 1);
    let last_col = r.x + (r.width - 1);
    let mut y = r.y + 1;
    while y < last_row
        invariant
            width > 0,
            is_evaluator(f),
            w == width as int,
            s == start as int,
            start + n <= usize::MAX,
            n == known.len(),
            known_in.len() == n,
            state_ok(f, w, s, out@, known@),
            counted(known@, evals@),
            rect_fits(r, w, s, n as int),
            r.width > 0,
            r.height > 0,
            flat ==> border_interior(f, r),
            last_row == r.y + r.height - 1,
            last_col == r.x + r.width - 1,
            r.y + 1 <= y <= last_row || (y == r.y + 1 && last_row < y),
            forall|j: int| 0 <= j < n && !(strictly_inside(r, col_of(w, s, j), row_of(w, s, j)) && row_of(w, s, j) < y)
                ==> known@[j] == known_in[j],
            forall|j: int| 0 <= j < n && strictly_inside(r, col_of(w, s, j), row_of(w, s, j)) && row_of(w, s, j) < y
                ==> if flat { known@[j] == 3 } else { known@[j] == 1 || known@[j] == 2 },
            forall|j: int| 0 <= j < n && strictly_inside(r, col_of(w, s, j), row_of(w, s, j)) ==> known_in[j] == 0,
        decreases last_row - y,
    {
        let mut x = r.x + 1;
        while x < last_col
            invariant
                width > 0,
                is_evaluator(f),
                w == width as int,
                s == start as int,
                start + n <= usize::MAX,
                n == known.len(),
                known_in.len() == n,
                state_ok(f, w, s, out@, known@),
                counted(known@, evals@),
                rect_fits(r, w, s, n as int),
                r.width > 0,
                r.height > 0,
                flat ==> border_interior(f, r),
                last_row == r.y + r.height - 1,
                last_col == r.x + r.width - 1,
                r.y + 1 <= y < last_row,
                r.x + 1 <= x <= last_col || (x == r.x + 1 && last_col < x),
                forall|j: int| 0 <= j < n && !(strictly_inside(r, col_of(w, s, j), row_of(w, s, j))
                    && (row_of(w, s, j) < y || (row_of(w, s, j) == y && col_of(w, s, j) < x)))
                    ==> known@[j] == known_in[j],
                forall|j: int| 0 <= j < n && strictly_inside(r, col_of(w, s, j), row_of(w, s, j))
                    && (row_of(w, s, j) < y || (row_of(w, s, j) == y && col_of(w, s, j) < x))
                    ==> if flat { known@[j] == 3 } else { known@[j] == 1 || known@[j] == 2 },
                forall|j: int| 0 <= j < n && strictly_inside(r, col_of(w, s, j), row_of(w, s, j)) ==> known_in[j] == 0,
            decreases last_col - x,
        {
            let i = tile_index(width, start, n, r, x, y);
            let ghost before = known@;
            proof {
                lemma_coords(w, s, n as int, r, x as int, y as int);
                assert(strictly_inside(r, x as int, y as int));
                assert(known_in[i as int] == 0);
            }
            if flat {
                paint_flat(f, width, start, out, known, i);
                proof {
                    assert forall|j: int| 0 <= j < n implies #[trigger] evals@[j] == (if known@[j] == 1 || known@[j] == 2 { 1nat } else { 0nat }) by {
                        assert(evals@[j] == (if before[j] == 1 || before[j] == 2 { 1nat } else { 0nat }));
                    }
                }
            } else {
                visit(f, width, start, out, known, evals, i);
            }
            proof {
                assert forall|j: int| 0 <= j < n && col_of(w, s, j) == x && row_of(w, s, j) == y implies j == i by {
                    lemma_index_coords(w, s, j);
                }
            }
            x = x + 1;
        }
        y = y + 1;
    }
}

/// `(x, y)` lies in one of the rectangles of `ws`.
pub open spec fn covered(ws: Seq<Rect>, x: int, y: int) -> bool {
    exists|k: int| 0 <= k < ws.len() && #[trigger] in_rect(ws[k], x, y)
}

/// Pixels strictly inside a rectangle, plus one: what a split must shrink.
spec fn rect_weight(r: Rect) -> nat {
    if r.width >= 2 && r.height >= 2 {
        ((r.width - 2) * (r.height - 2)) as nat + 1
    } else {
        1
    }
}

spec fn total_weight(ws: Seq<Rect>) -> nat
    decreases ws.len(),
{
    if ws.len() == 0 {
        0
    } else {
        total_weight(ws.drop_last()) + rect_weight(ws.last())
    }
}

proof fn lemma_sub_fits(q: Rect, c: Rect, width: int, start: int, n: int)
    requires
        width > 0,
        rect_fits(q, width, start, n),
        q.x <= c.x,
        c.x + c.width <= q.x + q.width,
        q.y <= c.y,
        c.y + c.height <= q.y + q.height,
        c.width > 0,
        c.height > 0,
    ensures
        rect_fits(c, width, start, n),
{
    let qy = q.y as int;
    let cy = c.y as int;
    let qb = q.y + q.height - 1;
    let cb = c.y + c.height - 1;
    assert(cy * width >= qy * width) by (nonlinear_arith)
        requires cy >= qy, width > 0;
    assert(cb * width <= qb * width) by (nonlinear_arith)
        requires cb <= qb, width > 0;
}

/// Splits `q` along its longer side into two rectangles that share the
/// dividing line.
fn split_rect(q: Rect) -> (halves: (Rect, Rect))
    requires
        q.width >= MIN_SPLIT,
        q.height >= MIN_SPLIT,
        q.x + q.width <= usize::MAX,
        q.y + q.height <= usize::MAX,
    ensures
        forall|x: int, y: int| in_rect(q, x, y) ==> in_rect(halves.0, x, y) || in_rect(halves.1, x, y),
        rect_weight(halves.0) + rect_weight(halves.1) < rect_weight(q),
        halves.0.x >= q.x && halves.0.x + halves.0.width <= q.x + q.width,
        halves.0.y >= q.y && halves.0.y + halves.0.height <= q.y + q.height,
        halves.1.x >= q.x && halves.1.x + halves.1.width <= q.x + q.width,
        halves.1.y >= q.y && halves.1.y + halves.1.height <= q.y + q.height,
        halves.0.width > 0 && halves.0.height > 0,
        halves.1.width > 0 && halves.1.height > 0,
        forall|x: int, y: int| strictly_inside(halves.0, x, y) ==> strictly_inside(q, x, y) && !in_rect(halves.1, x, y),
        forall|x: int, y: int| strictly_inside(halves.1, x, y) ==> strictly_inside(q, x, y) && !in_rect(halves.0, x, y),
{
    if q.width >= q.height {
        let half = q.width / 2;
        let a = Rect { x: q.x, y: q.y, width: half + 1, height: q.height };
        let b = Rect { x: q.x + half, y: q.y, width: q.width - half, height: q.height };
        proof {
            let h2 = q.height - 2;
            assert((half - 1) * h2 + (q.width - half - 2) * h2 == (q.width - 3) * h2) by (nonlinear_arith);
            assert((q.width - 3) * h2 + 1 < (q.width - 2) * h2) by (nonlinear_arith)
                requires h2 >= 4;
        }
        (a, b)
    } else {
        let half = q.height / 2;
        let a = Rect { x: q.x, y: q.y, width: q.width, height: half + 1 };
        let b = Rect { x: q.x, y: q.y + half, width: q.width, height: q.height - half };
        proof {
            let w2 = q.width - 2;
            assert(w2 * (half - 1) + w2 * (q.height - half - 2) == w2 * (q.height - 3)) by (nonlinear_arith);
            assert(w2 * (q.height - 3) + 1 < w2 * (q.height - 2)) by (nonlinear_arith)
                requires w2 >= 4;
        }
        (a, b)
    }
}

/// The inside of each rectangle of `ws` shares no pixel with any other
/// rectangle of `ws`.
spec fn work_disjoint(ws: Seq<Rect>) -> bool {
    forall|k1: int, k2: int, x: int, y: int|
        #![trigger strictly_inside(ws[k1], x, y), in_rect(ws[k2], x, y)]
        0 <= k1 < ws.len() && 0 <= k2 < ws.len() && k1 != k2 && strictly_inside(ws[k1], x, y) ==> !in_rect(ws[k2], x, y)
}

/// Nothing is known yet of the pixels inside the rectangles of `ws`.
spec fn fresh_inside(ws: Seq<Rect>, w: int, s: int, known: Seq<u8>) -> bool {
    forall|k: int, j: int|
        #![trigger strictly_inside(ws[k], col_of(w, s, j), row_of(w, s, j)), known[j]]
        0 <= k < ws.len() && 0 <= j < known.len() && strictly_inside(ws[k], col_of(w, s, j), row_of(w, s, j)) ==> known[j] == 0
}

/// No flat-filled pixel lies in a rectangle of `ws`.
spec fn flats_outside(ws: Seq<Rect>, w: int, s: int, known: Seq<u8>) -> bool {
    forall|j: int| 0 <= j < known.len() && #[trigger] known[j] == 3 ==> !covered(ws, col_of(w, s, j), row_of(w, s, j))
}

/// Every rectangle of `flats` has an all-interior border and its inside is
/// filled flat; every flat-filled pixel lies inside one of them.
spec fn flats_ok<F: Fn(usize, usize) -> EscapeResult>(f: &F, w: int, s: int, known: Seq<u8>, flats: Seq<Rect>) -> bool {
    &&& forall|m: int| 0 <= m < flats.len() ==> border_interior(f, #[trigger] flats[m])
    &&& forall|m: int, j: int|
        #![trigger strictly_inside(flats[m], col_of(w, s, j), row_of(w, s, j)), known[j]]
        0 <= m < flats.len() && 0 <= j < known.len() && strictly_inside(flats[m], col_of(w, s, j), row_of(w, s, j)) ==> known[j] == 3
    &&& forall|j: int| 0 <= j < known.len() && #[trigger] known[j] == 3
        ==> exists|m: int| 0 <= m < flats.len() && #[trigger] strictly_inside(flats[m], col_of(w, s, j), row_of(w, s, j))
}

/// The work-list invariants hold again once the last rectangle `q` of `ws`
/// has had its border scanned and its inside filled.
proof fn lemma_step_fill<F: Fn(usize, usize) -> EscapeResult>(
    f: &F, w: int, s: int, ws: Seq<Rect>, k0: Seq<u8>, k2: Seq<u8>, fl0: Seq<Rect>, fl1: Seq<Rect>, flat: bool,
)
    requires
        ws.len() > 0,
        work_disjoint(ws),
        fresh_inside(ws, w, s, k0),
        flats_outside(ws, w, s, k0),
        flats_ok(f, w, s, k0, fl0),
        k2.len() == k0.len(),
        forall|j: int| 0 <= j < k0.len() && !in_rect(ws.last(), col_of(w, s, j), row_of(w, s, j)) ==> k2[j] == k0[j],
        forall|j: int| 0 <= j < k0.len() && in_rect(ws.last(), col_of(w, s, j), row_of(w, s, j))
            && !strictly_inside(ws.last(), col_of(w, s, j), row_of(w, s, j)) ==> k2[j] != 3,
        forall|j: int| 0 <= j < k0.len() && strictly_inside(ws.last(), col_of(w, s, j), row_of(w, s, j))
            ==> if flat { k2[j] == 3 } else { k2[j] != 3 },
        flat ==> border_interior(f, ws.last()),
        fl1 == (if flat { fl0.push(ws.last()) } else { fl0 }),
    ensures
        work_disjoint(ws.drop_last()),
        fresh_inside(ws.drop_last(), w, s, k2),
        flats_outside(ws.drop_last(), w, s, k2),
        flats_ok(f, w, s, k2, fl1),
{
    let q = ws.last();
    let last = ws.len() - 1;
    let rest = ws.drop_last();
    assert forall|k: int, j: int|
        #![trigger strictly_inside(rest[k], col_of(w, s, j), row_of(w, s, j)), k2[j]]
        0 <= k < rest.len() && 0 <= j < k2.len() && strictly_inside(rest[k], col_of(w, s, j), row_of(w, s, j)) implies k2[j] == 0 by {
        assert(strictly_inside(ws[k], col_of(w, s, j), row_of(w, s, j)));
        assert(!in_rect(ws[last], col_of(w, s, j), row_of(w, s, j)));
        assert(k0[j] == 0);
    }
    assert forall|j: int| 0 <= j < k2.len() && #[trigger] k2[j] == 3 implies !covered(rest, col_of(w, s, j), row_of(w, s, j)) by {
        let x = col_of(w, s, j);
        let y = row_of(w, s, j);
        if covered(rest, x, y) {
            let k = choose|k: int| 0 <= k < rest.len() && #[trigger] in_rect(rest[k], x, y);
            assert(in_rect(ws[k], x, y));
            if k0[j] == 3 {
                assert(!covered(ws, x, y));
            } else {
                assert(strictly_inside(ws[last], x, y));
            }
        }
    }
    assert forall|m: int| 0 <= m < fl1.len() implies border_interior(f, #[trigger] fl1[m]) by {
        if m < fl0.len() {
            assert(fl1[m] == fl0[m]);
        }
    }
    assert forall|m: int, j: int|
        #![trigger strictly_inside(fl1[m], col_of(w, s, j), row_of(w, s, j)), k2[j]]
        0 <= m < fl1.len() && 0 <= j < k2.len() && strictly_inside(fl1[m], col_of(w, s, j), row_of(w, s, j)) implies k2[j] == 3 by {
        let x = col_of(w, s, j);
        let y = row_of(w, s, j);
        if m < fl0.len() {
            assert(fl1[m] == fl0[m]);
            assert(k0[j] == 3);
            if in_rect(q, x, y) {
                assert(in_rect(ws[last], x, y));
            }
        }
    }
    assert forall|j: int| 0 <= j < k2.len() && #[trigger] k2[j] == 3
        implies exists|m: int| 0 <= m < fl1.len() && #[trigger] strictly_inside(fl1[m], col_of(w, s, j), row_of(w, s, j)) by {
        let x = col_of(w, s, j);
        let y = row_of(w, s, j);
        if k0[j] == 3 {
            let m = choose|m: int| 0 <= m < fl0.len() && #[trigger] strictly_inside(fl0[m], x, y);
            assert(fl1[m] == fl0[m]);
        } else {
            assert(strictly_inside(q, x, y));
            assert(fl1[fl1.len() - 1] == q);
        }
    }
}

/// The work-list invariants hold for the remaining rectangles and the two
/// halves once the last rectangle `q` of `ws` has had its border scanned and
/// has been split into `a` and `b`.
proof fn lemma_step_split<F: Fn(usize, usize) -> EscapeResult>(
    f: &F, w: int, s: int, ws: Seq<Rect>, k0: Seq<u8>, k1: Seq<u8>, fl: Seq<Rect>, a: Rect, b: Rect,
)
    requires
        ws.len() > 0,
        work_disjoint(ws),
        fresh_inside(ws, w, s, k0),
        flats_outside(ws, w, s, k0),
        flats_ok(f, w, s, k0, fl),
        k1.len() == k0.len(),
        forall|j: int| 0 <= j < k0.len() && !on_border(ws.last(), col_of(w, s, j), row_of(w, s, j)) ==> k1[j] == k0[j],
        forall|j: int| 0 <= j < k0.len() ==> (k1[j] == 3) == (k0[j] == 3),
        forall|x: int, y: int| in_rect(a, x, y) ==> in_rect(ws.last(), x, y),
        forall|x: int, y: int| in_rect(b, x, y) ==> in_rect(ws.last(), x, y),
        forall|x: int, y: int| strictly_inside(a, x, y) ==> strictly_inside(ws.last(), x, y) && !in_rect(b, x, y),
        forall|x: int, y: int| strictly_inside(b, x, y) ==> strictly_inside(ws.last(), x, y) && !in_rect(a, x, y),
    ensures
        work_disjoint(ws.drop_last().push(a).push(b)),
        fresh_inside(ws.drop_last().push(a).push(b), w, s, k1),
        flats_outside(ws.drop_last().push(a).push(b), w, s, k1),
        flats_ok(f, w, s, k1, fl),
{
    let q = ws.last();
    let last = ws.len() - 1;
    let rest = ws.drop_last();
    let nw = rest.push(a).push(b);
    assert(nw[last] == a);
    assert(nw[last + 1] == b);
    assert forall|k1: int, k2: int, x: int, y: int|
        #![trigger strictly_inside(nw[k1], x, y), in_rect(nw[k2], x, y)]
        0 <= k1 < nw.len() && 0 <= k2 < nw.len() && k1 != k2 && strictly_inside(nw[k1], x, y) implies !in_rect(nw[k2], x, y) by {
        if k1 < last && k2 < last {
            assert(nw[k1] == ws[k1] && nw[k2] == ws[k2]);
        } else if k1 < last {
            assert(nw[k1] == ws[k1]);
            assert(!in_rect(ws[last], x, y));
        } else if k2 < last {
            assert(nw[k2] == ws[k2]);
            assert(strictly_inside(ws[last], x, y));
        }
    }
    assert forall|k: int, j: int|
        #![trigger strictly_inside(nw[k], col_of(w, s, j), row_of(w, s, j)), k1[j]]
        0 <= k < nw.len() && 0 <= j < k1.len() && strictly_inside(nw[k], col_of(w, s, j), row_of(w, s, j)) implies k1[j] == 0 by {
        let x = col_of(w, s, j);
        let y = row_of(w, s, j);
        if k < last {
            assert(nw[k] == ws[k]);
            assert(strictly_inside(ws[k], x, y));
            assert(!in_rect(ws[last], x, y));
            assert(k0[j] == 0);
        } else {
            assert(strictly_inside(ws[last], x, y));
            assert(k0[j] == 0);
        }
    }
    assert forall|j: int| 0 <= j < k1.len() && #[trigger] k1[j] == 3 implies !covered(nw, col_of(w, s, j), row_of(w, s, j)) by {
        let x = col_of(w, s, j);
        let y = row_of(w, s, j);
        assert(k0[j] == 3);
        assert(!covered(ws, x, y));
        if covered(nw, x, y) {
            let k = choose|k: int| 0 <= k < nw.len() && #[trigger] in_rect(nw[k], x, y);
            if k < last {
                assert(nw[k] == ws[k]);
                assert(in_rect(ws[k], x, y));
            } else {
                assert(in_rect(ws[last], x, y));
            }
        }
    }
    assert forall|m: int, j: int|
        #![trigger strictly_inside(fl[m], col_of(w, s, j), row_of(w, s, j)), k1[j]]
        0 <= m < fl.len() && 0 <= j < k1.len() && strictly_inside(fl[m], col_of(w, s, j), row_of(w, s, j)) implies k1[j] == 3 by {
        assert(k0[j] == 3);
    }
    assert forall|j: int| 0 <= j < k1.len() && #[trigger] k1[j] == 3
        implies exists|m: int| 0 <= m < fl.len() && #[trigger] strictly_inside(fl[m], col_of(w, s, j), row_of(w, s, j)) by {
        assert(k0[j] == 3);
    }
}

/// Traces every rectangle of `work` with the adaptive fill: the border is
/// evaluated, then the inside is filled flat, evaluated, or split in two and
/// the halves traced in turn, until the work list is empty. Each rectangle
/// filled flat is appended to `flats`.
fn trace<F: Fn(usize, usize) -> EscapeResult>(
    f: &F,
    width: usize,
    start: usize,
    out: &mut Vec<u8>,
    known: &mut Vec<u8>,
    evals: &mut Ghost<Seq<nat>>,
    flats: &mut Ghost<Seq<Rect>>,
    work: Vec<Rect>,
)
    requires
        width > 0,
        is_evaluator(f),
        start + old(known).len() <= usize::MAX,
        state_ok(f, width as int, start as int, old(out)@, old(known)@),
        counted(old(known)@, old(evals)@),
        forall|k: int| 0 <= k < work.len() ==> rect_fits(#[trigger] work@[k], width as int, start as int, old(known).len() as int),
        work_disjoint(work@),
        fresh_inside(work@, width as int, start as int, old(known)@),
        flats_outside(work@, width as int, start as int, old(known)@),
        flats_ok(f, width as int, start as int, old(known)@, old(flats)@),
    ensures
        state_ok(f, width as int, start as int, final(out)@, final(known)@),
        counted(final(known)@, final(evals)@),
        flats_ok(f, width as int, start as int, final(known)@, final(flats)@),
        final(known).len() == old(known).len(),
        forall|j: int| 0 <= j < old(known).len() && old(known)@[j] != 0 ==> final(known)@[j] != 0,
        forall|j: int| 0 <= j < old(known).len() && covered(work@, col_of(width as int, start as int, j), row_of(width as int, start as int, j)) ==> final(known)@[j] != 0,
{
    let ghost w = width as int;
    let ghost s = start as int;
    let n = known.len();
    let ghost known_in = known@;
    let ghost initial = work@;
    let mut work = work;
    while work.len() > 0
        invariant
            width > 0,
            is_evaluator(f),
            w == width as int,
            s == start as int,
            start + n <= usize::MAX,
            n == known.len(),
            known_in.len() == n,
            state_ok(f, w, s, out@, known@),
            counted(known@, evals@),
            forall|k: int| 0 <= k < work.len() ==> rect_fits(#[trigger] work@[k], w, s, n as int),
            work_disjoint(work@),
            fresh_inside(work@, w, s, known@),
            flats_outside(work@, w, s, known@),
            flats_ok(f, w, s, known@, flats@),
            forall|j: int| 0 <= j < n && known_in[j] != 0 ==> known@[j] != 0,
            forall|j: int| 0 <= j < n && covered(initial, col_of(w, s, j), row_of(w, s, j)) ==> known@[j] != 0 || covered(work@, col_of(w, s, j), row_of(w, s, j)),
        decreases total_weight(work@),
    {
        let ghost ws = work@;
        let q = work.pop().unwrap();
        let ghost rest = work@;
        assert(rest =~= ws.drop_last());
        assert(total_weight(ws) == total_weight(rest) + rect_weight(q));
        assert(rect_fits(ws[ws.len() - 1], w, s, n as int));
        let ghost known_mid = known@;
        let ghost flats_mid = flats@;
        if q.width > 0 && q.height > 0 {
            proof {
                lemma_fits_bounds(q, w, s, n as int);
                assert forall|j: int| 0 <= j < n && in_rect(q, col_of(w, s, j), row_of(w, s, j)) implies known@[j] != 3 by {
                    assert(in_rect(ws[ws.len() - 1], col_of(w, s, j), row_of(w, s, j)));
                }
            }
            let (has_interior, has_escaped) = scan_border(f, width, start, out, known, evals, q);
            let ghost known_b = known@;
            proof {
                assert forall|j: int| 0 <= j < n && strictly_inside(q, col_of(w, s, j), row_of(w, s, j)) implies known@[j] == 0 by {
                    assert(strictly_inside(ws[ws.len() - 1], col_of(w, s, j), row_of(w, s, j)));
                }
            }
            let plan = plan_step(has_interior, has_escaped, q.width, q.height);
            match plan {
                FillPlan::FlatInterior => {
                    fill_inside(f, width, start, out, known, evals, q, true);
                    proof {
                        flats@ = flats@.push(q);
                        lemma_step_fill(f, w, s, ws, known_mid, known@, flats_mid, flats@, true);
                        lemma_rect_done(w, s, n as int, known_b, known@, q);
                    }
                }
                FillPlan::EvaluateAll => {
                    fill_inside(f, width, start, out, known, evals, q, false);
                    proof {
                        lemma_step_fill(f, w, s, ws, known_mid, known@, flats_mid, flats@, false);
                        lemma_rect_done(w, s, n as int, known_b, known@, q);
                    }
                }
                FillPlan::Split => {
                    let (a, b) = split_rect(q);
                    proof {
                        lemma_sub_fits(q, a, w, s, n as int);
                        lemma_sub_fits(q, b, w, s, n as int);
                        lemma_step_split(f, w, s, ws, known_mid, known@, flats@, a, b);
                    }
                    work.push(a);
                    work.push(b);
                    proof {
                        assert(work@ == rest.push(a).push(b));
                        assert(work@.drop_last() =~= rest.push(a));
                        assert(rest.push(a).drop_last() =~= rest);
                        assert(total_weight(rest.push(a)) == total_weight(rest) + rect_weight(a));
                        assert(total_weight(work@) == total_weight(rest.push(a)) + rect_weight(b));
                        assert forall|j: int| 0 <= j < n && covered(initial, col_of(w, s, j), row_of(w, s, j)) implies known@[j] != 0 || covered(work@, col_of(w, s, j), row_of(w, s, j)) by {
                            let x = col_of(w, s, j);
                            let y = row_of(w, s, j);
                            if known@[j] == 0 {
                                assert(known_mid[j] == 0);
                                assert(covered(ws, x, y));
                                let k = choose|k: int| 0 <= k < ws.len() && #[trigger] in_rect(ws[k], x, y);
                                if k < ws.len() - 1 {
                                    assert(work@[k] == ws[k]);
                                } else if in_rect(a, x, y) {
                                    assert(work@[work.len() - 2] == a);
                                } else {
                                    assert(work@[work.len() - 1] == b);
                                }
                            }
                        }
                    }
                }
            }
        } else {
            proof {
                assert forall|k1: int, k2: int, x: int, y: int|
                    #![trigger strictly_inside(rest[k1], x, y), in_rect(rest[k2], x, y)]
                    0 <= k1 < rest.len() && 0 <= k2 < rest.len() && k1 != k2 && strictly_inside(rest[k1], x, y)
                    implies !in_rect(rest[k2], x, y) by {
                    assert(rest[k1] == ws[k1] && rest[k2] == ws[k2]);
                    assert(strictly_inside(ws[k1], x, y));
                }
                assert forall|k: int, j: int|
                    #![trigger strictly_inside(rest[k], col_of(w, s, j), row_of(w, s, j)), known@[j]]
                    0 <= k < rest.len() && 0 <= j < n && strictly_inside(rest[k], col_of(w, s, j), row_of(w, s, j)) implies known@[j] == 0 by {
                    assert(strictly_inside(ws[k], col_of(w, s, j), row_of(w, s, j)));
                }
                assert forall|j: int| 0 <= j < n && #[trigger] known@[j] == 3 implies !covered(rest, col_of(w, s, j), row_of(w, s, j)) by {
                    if covered(rest, col_of(w, s, j), row_of(w, s, j)) {
                        let k = choose|k: int| 0 <= k < rest.len() && #[trigger] in_rect(rest[k], col_of(w, s, j), row_of(w, s, j));
                        assert(in_rect(ws[k], col_of(w, s, j), row_of(w, s, j)));
                    }
                }
            }
        }
        proof {
            assert forall|j: int| 0 <= j < n && covered(initial, col_of(w, s, j), row_of(w, s, j)) implies known@[j] != 0 || covered(work@, col_of(w, s, j), row_of(w, s, j)) by {
                let x = col_of(w, s, j);
                let y = row_of(w, s, j);
                if known@[j] == 0 && !covered(work@, x, y) {
                    assert(known_mid[j] == 0);
                    assert(covered(ws, x, y));
                    let k = choose|k: int| 0 <= k < ws.len() && #[trigger] in_rect(ws[k], x, y);
                    if k < ws.len() - 1 {
                        assert(in_rect(work@[k], x, y));
                    }
                    lemma_index_coords(w, s, j);
                }
            }
        }
    }
}

/// After the border scan of `q` (taking the known states to `k1`) and its
/// inside fill (taking them to `k2`), every pixel of `q` is known.
proof fn lemma_rect_done(w: int, s: int, n: int, k1: Seq<u8>, k2: Seq<u8>, q: Rect)
    requires
        w > 0,
        s >= 0,
        k1.len() == n,
        k2.len() == n,
        forall|x: int, y: int| #[trigger] on_border(q, x, y) ==> {
            let i = index_of(w, s, x, y);
            0 <= i < n && k1[i] != 0
        },
        forall|j: int| 0 <= j < n && !strictly_inside(q, col_of(w, s, j), row_of(w, s, j)) ==> k2[j] == k1[j],
        forall|j: int| 0 <= j < n && strictly_inside(q, col_of(w, s, j), row_of(w, s, j)) ==> k2[j] != 0,
    ensures
        forall|j: int| 0 <= j < n && in_rect(q, col_of(w, s, j), row_of(w, s, j)) ==> k2[j] != 0,
{
    assert forall|j: int| 0 <= j < n && in_rect(q, col_of(w, s, j), row_of(w, s, j)) implies k2[j] != 0 by {
        lemma_index_coords(w, s, j);
        let x = col_of(w, s, j);
        let y = row_of(w, s, j);
        if on_border(q, x, y) {
            assert(k1[index_of(w, s, x, y)] != 0);
        }
    }
}

/// A contiguous run of pixels `start..end` of a row-major image, with its
/// RGBA8 bytes.
pub struct Tile {
    pub start: usize,
    pub end: usize,
    pub data: Vec<u8>,
}

impl Tile {
    /// The bytes hold exactly the tile's pixels.
    pub open spec fn wf(&self) -> bool {
        self.start <= self.end && self.data.len() == 4 * (self.end - self.start)
    }

    /// A tile of pixels `start..end`, all bytes zero.
    pub fn new(start: usize, end: usize) -> (t: Tile)
        requires
            start <= end,
            4 * (end - start) <= usize::MAX,
        ensures
            t.wf(),
            t.start == start,
            t.end == end,
            forall|k: int| 0 <= k < t.data.len() ==> t.data@[k] == 0,
    {
        Tile { start, end, data: zeroed(4 * (end - start)) }
    }

    /// Whether the bytes hold exactly the tile's pixels.
    pub fn is_well_formed(&self) -> (r: bool)
        ensures
            r == self.wf(),
    {
        self.start <= self.end && self.data.len() / 4 == self.end - self.start && self.data.len() % 4 == 0
    }
}

/// A vector of `n` zero bytes.
pub fn zeroed(n: usize) -> (v: Vec<u8>)
    ensures
        v.len() == n,
        forall|k: int| 0 <= k < n ==> v@[k] == 0,
{
    let mut v: Vec<u8> = Vec::with_capacity(n);
    let mut k: usize = 0;
    while k < n
        invariant
            k <= n,
            v.len() == k,
            forall|m: int| 0 <= m < k ==> v@[m] == 0,
        decreases n - k,
    {
        v.push(0);
        k = k + 1;
    }
    v
}

/// Pixel `j` of the tile of pixels `start..end` lies on its first row, on
/// a row between the first and the last, or on its last row.
pub open spec fn tile_cover(width: int, start: int, end: int, j: int) -> bool {
    let ys = start / width;
    let ye = (end - 1) / width;
    let x = col_of(width, start, j);
    let y = row_of(width, start, j);
    &&& 0 <= x < width
    &&& ys <= y <= ye
    &&& y == ys ==> start % width <= x
    &&& y == ye ==> x <= (end - 1) % width
}

proof fn lemma_tile_rows(width: int, start: int, end: int, j: int)
    requires
        width > 0,
        0 <= start,
        0 <= j < end - start,
    ensures
        tile_cover(width, start, end, j),
{
    let p = start + j;
    let last = end - 1;
    vstd::arithmetic::div_mod::lemma_div_is_ordered(start, p, width);
    vstd::arithmetic::div_mod::lemma_div_is_ordered(p, last, width);
    vstd::arithmetic::div_mod::lemma_fundamental_div_mod(p, width);
    vstd::arithmetic::div_mod::lemma_fundamental_div_mod(start, width);
    vstd::arithmetic::div_mod::lemma_fundamental_div_mod(last, width);
    vstd::arithmetic::div_mod::lemma_mod_bound(p, width);
}

proof fn lemma_row_order(width: int, a: int, b: int)
    requires
        width > 0,
        a < b,
    ensures
        (a + 1) * width <= b * width,
{
    assert((a + 1) * width <= b * width) by (nonlinear_arith)
        requires a + 1 <= b, width > 0;
}

/// Once every pixel of a tile is known, the tile is rendered and the ghost
/// counts and flat rectangles form its record.
proof fn lemma_traced<F: Fn(usize, usize) -> EscapeResult>(
    f: &F, w: int, s: int, bytes: Seq<u8>, known: Seq<u8>, ev: Seq<nat>, fl: Seq<Rect>,
)
    requires
        state_ok(f, w, s, bytes, known),
        counted(known, ev),
        flats_ok(f, w, s, known, fl),
        forall|j: int| 0 <= j < known.len() ==> known[j] != 0,
    ensures
        rendered(f, w, s, bytes),
        traced(f, w, s, bytes, ev, fl),
{
    let n = known.len() as int;
    assert(bytes.len() / 4 == n);
    assert forall|i: int| 0 <= i < bytes.len() / 4 implies #[trigger] admissible(
        f,
        col_of(w, s, i),
        row_of(w, s, i),
        pixel_of(bytes, i),
    ) by {
        assert(known_ok(f, w, s, bytes, known, i));
    }
    assert forall|i: int| 0 <= i < n && ev[i] == 1 implies #[trigger] pixel_of(bytes, i) == shade_of(
        result_at(f, col_of(w, s, i), row_of(w, s, i)),
    ) by {
        assert(known_ok(f, w, s, bytes, known, i));
    }
    assert forall|m: int, i: int|
        #![trigger strictly_inside(fl[m], col_of(w, s, i), row_of(w, s, i)), ev[i]]
        0 <= m < fl.len() && 0 <= i < n && strictly_inside(fl[m], col_of(w, s, i), row_of(w, s, i))
        implies ev[i] == 0 && pixel_of(bytes, i) == interior_pixel() by {
        assert(known[i] == 3);
        assert(known_ok(f, w, s, bytes, known, i));
        assert(ev[i] == (if known[i] == 1 || known[i] == 2 { 1nat } else { 0nat }));
    }
    assert forall|i: int| 0 <= i < n && #[trigger] ev[i] == 0
        implies exists|m: int| 0 <= m < fl.len() && #[trigger] strictly_inside(fl[m], col_of(w, s, i), row_of(w, s, i)) by {
        assert(known_ok(f, w, s, bytes, known, i));
        assert(ev[i] == (if known[i] == 1 || known[i] == 2 { 1nat } else { 0nat }));
        assert(known[i] == 3);
    }
}

/// Renders every pixel of `tile` with the adaptive boundary-tracing fill,
/// and returns a record of the work: how often each pixel was evaluated,
/// and the rectangles whose inside was filled flat.
pub fn render_tile_traced<F: Fn(usize, usize) -> EscapeResult>(f: &F, width: usize, tile: &mut Tile) -> (log: (
    Ghost<Seq<nat>>,
    Ghost<Seq<Rect>>,
))
    requires
        width > 0,
        is_evaluator(f),
        old(tile).wf(),
    ensures
        final(tile).wf(),
        final(tile).start == old(tile).start,
        final(tile).end == old(tile).end,
        rendered(f, width as int, old(tile).start as int, final(tile).data@),
        traced(f, width as int, old(tile).start as int, final(tile).data@, log.0@, log.1@),
{
    let start = tile.start;
    let end = tile.end;
    let n = end - start;
    let ghost w = width as int;
    let ghost s = start as int;
    if n == 0 {
        return (Ghost(Seq::empty()), Ghost(Seq::empty()));
    }
    let mut known = zeroed(n);
    let last = end - 1;
    let ys = start / width;
    let xs = start % width;
    let ye = last / width;
    let xe = last % width;
    proof {
        vstd::arithmetic::div_mod::lemma_fundamental_div_mod(start as int, w);
        vstd::arithmetic::div_mod::lemma_fundamental_div_mod(last as int, w);
        vstd::arithmetic::div_mod::lemma_div_is_ordered(start as int, last as int, w);
        assert(ys * w + xs == start) by {
            vstd::arithmetic::mul::lemma_mul_is_commutative(w, ys as int);
        }
        assert(ye * w + xe == last) by {
            vstd::arithmetic::mul::lemma_mul_is_commutative(w, ye as int);
        }
    }
    let mut work: Vec<Rect> = Vec::new();
    if ys == ye {
        work.push(Rect { x: xs, y: ys, width: xe - xs + 1, height: 1 });
    } else {
        // A partial first row, the rows that are whole, a partial last row.
        let first_full = if xs == 0 { ys } else { ys + 1 };
        let end_full = if xe + 1 == width { ye + 1 } else { ye };
        proof {
            lemma_row_order(w, ys as int, ye as int);
            assert((ys as int + 1) * w == ys * w + w) by (nonlinear_arith);
            assert((ye as int + 1) * w == ye * w + w) by (nonlinear_arith);
            assert((end_full as int - 1) * w + w == end_full * w) by (nonlinear_arith);
            assert(end_full * w <= end as int) by (nonlinear_arith)
                requires end_full <= ye + 1, ye * w + xe == last, end_full == ye + 1 ==> xe + 1 == w,
                    last == end - 1, w > 0, end_full >= ye;
        }
        work.push(Rect { x: xs, y: ys, width: width - xs, height: if xs == 0 { 0 } else { 1 } });
        work.push(Rect { x: 0, y: first_full, width, height: end_full - first_full });
        work.push(Rect { x: 0, y: ye, width: xe + 1, height: if xe + 1 == width { 0 } else { 1 } });
    }
    proof {
        assert forall|k: int| 0 <= k < work.len() implies rect_fits(#[trigger] work@[k], w, s, n as int) by {}
        assert forall|i: int| 0 <= i < known.len() implies #[trigger] known_ok(f, w, s, tile.data@, known@, i) by {}
        assert forall|j: int| 0 <= j < n implies covered(work@, col_of(w, s, j), row_of(w, s, j)) by {
            lemma_tile_rows(w, s, end as int, j);
            let x = col_of(w, s, j);
            let y = row_of(w, s, j);
            if ys == ye {
                assert(in_rect(work@[0], x, y));
            } else if y == ys && xs != 0 {
                assert(in_rect(work@[0], x, y));
            } else if y == ye && xe + 1 != width {
                assert(in_rect(work@[2], x, y));
            } else {
                assert(in_rect(work@[1], x, y));
            }
        }
    }
    let mut evals: Ghost<Seq<nat>> = Ghost(Seq::new(n as nat, |j: int| 0nat));
    let mut flats: Ghost<Seq<Rect>> = Ghost(Seq::empty());
    proof {
        let ws = work@;
        assert forall|k1: int, k2: int, x: int, y: int|
            #![trigger strictly_inside(ws[k1], x, y), in_rect(ws[k2], x, y)]
            0 <= k1 < ws.len() && 0 <= k2 < ws.len() && k1 != k2 && strictly_inside(ws[k1], x, y)
            implies !in_rect(ws[k2], x, y) by {}
    }
    let ghost initial = work@;
    trace(f, width, start, &mut tile.data, &mut known, &mut evals, &mut flats, work);
    proof {
        assert forall|j: int| 0 <= j < n implies known@[j] != 0 by {
            assert(covered(initial, col_of(w, s, j), row_of(w, s, j)));
        }
        lemma_traced(f, w, s, tile.data@, known@, evals@, flats@);
    }
    (evals, flats)
}

/// Renders every pixel of `tile` with the adaptive boundary-tracing fill:
/// no pixel is evaluated twice, and every pixel holds its exact shade unless
/// it lies inside a rectangle with an all-interior border whose inside was
/// filled flat without evaluation.
pub fn render_tile<F: Fn(usize, usize) -> EscapeResult>(f: &F, width: usize, tile: &mut Tile)
    requires
        width > 0,
        is_evaluator(f),
        old(tile).wf(),
    ensures
        final(tile).wf(),
        final(tile).start == old(tile).start,
        final(tile).end == old(tile).end,
        rendered(f, width as int, old(tile).start as int, final(tile).data@),
        exists|evaluations: Seq<nat>, flats: Seq<Rect>| traced(f, width as int, old(tile).start as int, final(tile).data@, evaluations, flats),
{
    let log = render_tile_traced(f, width, tile);
    assert(traced(f, width as int, old(tile).start as int, tile.data@, log.0@, log.1@));
}

/// Every pixel of the tile's bytes has exactly the colour its evaluation
/// gives.
pub open spec fn exact<F: Fn(usize, usize) -> EscapeResult>(f: &F, width: int, start: int, bytes: Seq<u8>) -> bool {
    forall|i: int| 0 <= i < bytes.len() / 4 ==> #[trigger] pixel_of(bytes, i) == shade_of(
        result_at(f, col_of(width, start, i), row_of(width, start, i)),
    )
}

/// Flat filling agrees with per-pixel evaluation on every pixel that is
/// itself interior: in a rendered tile such a pixel holds exactly the colour
/// evaluation gives it, whether it was evaluated or filled flat.
pub proof fn lemma_interior_fill_exact<F: Fn(usize, usize) -> EscapeResult>(f: &F, width: int, start: int, bytes: Seq<u8>)
    requires
        rendered(f, width, start, bytes),
    ensures
        forall|i: int| 0 <= i < bytes.len() / 4 && result_at(f, col_of(width, start, i), row_of(width, start, i)) == EscapeResult::Interior
            ==> #[trigger] pixel_of(bytes, i) == shade_of(result_at(f, col_of(width, start, i), row_of(width, start, i))),
{
    assert forall|i: int| 0 <= i < bytes.len() / 4 && result_at(f, col_of(width, start, i), row_of(width, start, i)) == EscapeResult::Interior
        implies #[trigger] pixel_of(bytes, i) == shade_of(result_at(f, col_of(width, start, i), row_of(width, start, i))) by {
        assert(admissible(f, col_of(width, start, i), row_of(width, start, i), pixel_of(bytes, i)));
    }
}

/// On an evaluator where every pixel enclosed by an all-interior border is
/// interior, a rendered tile is exactly its per-pixel evaluation.
pub proof fn lemma_hole_free_exact<F: Fn(usize, usize) -> EscapeResult>(f: &F, width: int, start: int, bytes: Seq<u8>)
    requires
        rendered(f, width, start, bytes),
        hole_free(f),
    ensures
        exact(f, width, start, bytes),
{
    assert forall|i: int| 0 <= i < bytes.len() / 4 implies #[trigger] pixel_of(bytes, i) == shade_of(
        result_at(f, col_of(width, start, i), row_of(width, start, i)),
    ) by {
        let x = col_of(width, start, i);
        let y = row_of(width, start, i);
        assert(admissible(f, x, y, pixel_of(bytes, i)));
        if enclosed(f, x, y) {
            assert(result_at(f, x, y) == EscapeResult::Interior);
        }
    }
}

} // verus!
