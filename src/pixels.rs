use vstd::prelude::*;
use crate::palette::{EscapeResult, Pixel, shade_of};
use crate::tracer::{
    Tile, is_evaluator, result_at, render_tile, rendered, hole_free, exact, pixel_of, col_of, row_of,
    lemma_hole_free_exact,
};

verus! {

/// Why a pixel store could not be built.
#[derive(Clone, Copy, Debug, PartialEq, Eq, Structural)]
pub enum BufferError {
    /// The store must be cut into at least one tile.
    NoWorkers,
    /// `4 * width * height` bytes exceed the largest allocation.
    TooLarge,
}

/// The largest number of bytes one allocation may hold.
pub open spec fn max_bytes() -> int {
    isize::MAX as int
}

/// A `width` by `height` RGBA8 image fits in one allocation.
pub open spec fn fits_in_memory(width: int, height: int) -> bool {
    4 * (width * height) <= max_bytes()
}

/// First pixel of tile `k` when `total` pixels are cut into `count` tiles:
/// every tile but the last holds `total / count` pixels, the last one also
/// takes the remainder.
pub open spec fn tile_start(total: int, count: int, k: int) -> int {
    if k < count {
        k * (total / count)
    } else {
        total
    }
}

/// Tile `k` of `tiles` covers exactly the range `tile_range` gives it.
pub open spec fn ranged(tiles: Seq<Tile>, total: int, count: int) -> bool {
    &&& tiles.len() == count
    &&& forall|k: int| 0 <= k < count ==> (#[trigger] tiles[k]).start == tile_start(total, count, k)
        && tiles[k].end == tile_start(total, count, k + 1)
}

/// Tiles that each cover the range `tile_range` gives them, with their
/// bytes, cut the image into contiguous runs.
pub proof fn lemma_ranged_partitioned(tiles: Seq<Tile>, total: int, count: int)
    requires
        total >= 0,
        count >= 1,
        ranged(tiles, total, count),
        forall|k: int| 0 <= k < count ==> (#[trigger] tiles[k]).wf(),
    ensures
        partitioned(tiles, total),
{
    assert(tiles[0].start == 0);
    assert forall|k: int| 0 <= k < tiles.len() - 1 implies (#[trigger] tiles[k]).end == tiles[k + 1].start by {
        assert(tiles[k + 1].start == tile_start(total, count, k + 1));
    }
}

/// Whether a `width` by `height` RGBA8 image fits in one allocation.
pub fn image_fits(width: usize, height: usize) -> (r: bool)
    ensures
        r == fits_in_memory(width as int, height as int),
{
    match width.checked_mul(height) {
        Some(total) => total <= (isize::MAX as usize) / 4,
        None => {
            proof {
                assert(4 * (width * height) > max_bytes()) by (nonlinear_arith)
                    requires width * height > usize::MAX, max_bytes() <= usize::MAX;
            }
            false
        }
    }
}

/// `tiles` cut pixels `0..total` into contiguous runs, in order, each with
/// exactly its bytes.
pub open spec fn partitioned(tiles: Seq<Tile>, total: int) -> bool {
    &&& tiles.len() >= 1
    &&& tiles[0].start == 0
    &&& tiles[tiles.len() - 1].end == total
    &&& forall|k: int| 0 <= k < tiles.len() ==> (#[trigger] tiles[k]).wf()
    &&& forall|k: int| 0 <= k < tiles.len() - 1 ==> (#[trigger] tiles[k]).end == tiles[k + 1].start
}

proof fn lemma_tile_start_order(total: int, count: int, k: int)
    requires
        total >= 0,
        count >= 1,
        0 <= k < count,
    ensures
        0 <= tile_start(total, count, k) <= tile_start(total, count, k + 1) <= total,
{
    let per = total / count;
    vstd::arithmetic::div_mod::lemma_fundamental_div_mod(total, count);
    assert(0 <= per) by {
        vstd::arithmetic::div_mod::lemma_div_pos_is_pos(total, count);
    }
    assert(k * per <= (k + 1) * per) by (nonlinear_arith)
        requires per >= 0;
    assert((k + 1) * per <= count * per) by (nonlinear_arith)
        requires per >= 0, k + 1 <= count;
    assert(count * per <= total) by {
        vstd::arithmetic::mul::lemma_mul_is_commutative(count, per);
        vstd::arithmetic::div_mod::lemma_mod_pos_bound(total, count);
    }
    assert(0 <= k * per) by (nonlinear_arith)
        requires per >= 0, k >= 0;
}

/// The pixel range `start..end` of tile `k` when `total` pixels are cut
/// into `count` tiles.
pub fn tile_range(total: usize, count: usize, k: usize) -> (r: (usize, usize))
    requires
        count >= 1,
        k < count,
    ensures
        r.0 == tile_start(total as int, count as int, k as int),
        r.1 == tile_start(total as int, count as int, k as int + 1),
        r.0 <= r.1 <= total,
{
    proof {
        lemma_tile_start_order(total as int, count as int, k as int);
    }
    let per = total / count;
    let end = if k + 1 < count { (k + 1) * per } else { total };
    (k * per, end)
}

/// Whether `tiles` cut pixels `0..total` into contiguous runs in order,
/// each with exactly its bytes.
pub fn check_partition(tiles: &Vec<Tile>, total: usize) -> (r: bool)
    ensures
        r == partitioned(tiles@, total as int),
{
    let n = tiles.len();
    if n == 0 {
        return false;
    }
    if tiles[0].start != 0 || tiles[n - 1].end != total {
        return false;
    }
    let mut k: usize = 0;
    while k < n
        invariant
            n == tiles.len(),
            k <= n,
            forall|m: int| 0 <= m < k ==> (#[trigger] tiles@[m]).wf(),
            forall|m: int| 0 <= m < k && m < n - 1 ==> (#[trigger] tiles@[m]).end == tiles@[m + 1].start,
        decreases n - k,
    {
        if !tiles[k].is_well_formed() {
            return false;
        }
        if k + 1 < n && tiles[k].end != tiles[k + 1].start {
            return false;
        }
        k = k + 1;
    }
    true
}

/// Where every tile holds its own run of `t`, the tiles' bytes in order are
/// the start of `t`.
#[verifier::rlimit(40)]
pub proof fn lemma_flatten_matches(tiles: Seq<Tile>, t: Seq<u8>)
    requires
        tiles.len() >= 1,
        tiles[0].start == 0,
        forall|k: int| 0 <= k < tiles.len() ==> (#[trigger] tiles[k]).wf(),
        forall|k: int| 0 <= k < tiles.len() - 1 ==> (#[trigger] tiles[k]).end == tiles[k + 1].start,
        4 * tiles.last().end <= t.len(),
        forall|k: int| 0 <= k < tiles.len() ==> (#[trigger] tiles[k]).data@ =~= t.subrange(4 * tiles[k].start, 4 * tiles[k].end),
    ensures
        flatten(tiles) =~= t.subrange(0, 4 * tiles.last().end),
    decreases tiles.len(),
{
    let last = tiles.last();
    if tiles.len() == 1 {
        assert(flatten(tiles.drop_last()) =~= Seq::empty());
    } else {
        let init = tiles.drop_last();
        assert(init[init.len() - 1].end == last.start);
        assert forall|k: int| 0 <= k < init.len() implies #[trigger] init[k].end <= last.start by {
            lemma_chain_order(tiles, k, tiles.len() - 1);
        }
        lemma_flatten_matches(init, t);
    }
}

proof fn lemma_chain_order(tiles: Seq<Tile>, a: int, b: int)
    requires
        0 <= a < b < tiles.len(),
        forall|k: int| 0 <= k < tiles.len() ==> (#[trigger] tiles[k]).wf(),
        forall|k: int| 0 <= k < tiles.len() - 1 ==> (#[trigger] tiles[k]).end == tiles[k + 1].start,
    ensures
        tiles[a].end <= tiles[b].start,
    decreases b - a,
{
    if a + 1 < b {
        lemma_chain_order(tiles, a + 1, b);
    }
}

/// An RGBA8 image, row-major, cut into contiguous tiles that can be lent out
/// and rendered independently.
pub struct Pixels {
    width: usize,
    height: usize,
    tiles: Vec<Tile>,
}

/// The bytes of `tiles` one after the other.
pub open spec fn flatten(tiles: Seq<Tile>) -> Seq<u8>
    decreases tiles.len(),
{
    if tiles.len() == 0 {
        Seq::empty()
    } else {
        flatten(tiles.drop_last()) + tiles.last().data@
    }
}

impl View for Pixels {
    type V = Seq<u8>;

    /// The image's bytes in row-major order (empty while the tiles are lent).
    closed spec fn view(&self) -> Seq<u8> {
        flatten(self.tiles@)
    }
}

impl Pixels {
    /// Width in pixels.
    pub closed spec fn spec_width(&self) -> nat {
        self.width as nat
    }

    /// Height in pixels.
    pub closed spec fn spec_height(&self) -> nat {
        self.height as nat
    }

    /// The tiles currently held (none while they are lent).
    pub closed spec fn tiles_view(&self) -> Seq<Tile> {
        self.tiles@
    }

    /// Number of pixels.
    pub open spec fn pixel_count(&self) -> int {
        (self.spec_width() * self.spec_height()) as int
    }

    /// The image fits in memory and its tiles are all in place.
    pub open spec fn wf(&self) -> bool {
        &&& fits_in_memory(self.spec_width() as int, self.spec_height() as int)
        &&& partitioned(self.tiles_view(), self.pixel_count())
    }

    /// The tiles are lent out.
    pub open spec fn lent(&self) -> bool {
        &&& fits_in_memory(self.spec_width() as int, self.spec_height() as int)
        &&& self.tiles_view().len() == 0
    }

    /// Every tile has been rendered from `f`.
    pub open spec fn rendered_by<F: Fn(usize, usize) -> EscapeResult>(&self, f: &F) -> bool {
        forall|k: int| 0 <= k < self.tiles_view().len() ==> rendered(
            f,
            self.spec_width() as int,
            (#[trigger] self.tiles_view()[k]).start as int,
            self.tiles_view()[k].data@,
        )
    }

    /// A `width` by `height` image of zero bytes held as one single tile.
    pub fn new(width: usize, height: usize) -> (r: Result<Pixels, BufferError>)
        ensures
            !fits_in_memory(width as int, height as int) <==> r == Err::<Pixels, BufferError>(BufferError::TooLarge),
            r is Ok <==> fits_in_memory(width as int, height as int),
            r is Ok ==> {
                let p = r->Ok_0;
                &&& p.wf()
                &&& p.spec_width() == width
                &&& p.spec_height() == height
                &&& ranged(p.tiles_view(), p.pixel_count(), 1)
                &&& p@ =~= Seq::new((4 * p.pixel_count()) as nat, |i: int| 0u8)
            },
    {
        Pixels::tiled(width, height, 1)
    }

    /// A `width` by `height` image of zero bytes cut into `workers` tiles.
    pub fn tiled(width: usize, height: usize, workers: usize) -> (r: Result<Pixels, BufferError>)
        ensures
            workers == 0 <==> r == Err::<Pixels, BufferError>(BufferError::NoWorkers),
            (workers > 0 && !fits_in_memory(width as int, height as int)) <==> r == Err::<Pixels, BufferError>(BufferError::TooLarge),
            r is Ok <==> workers > 0 && fits_in_memory(width as int, height as int),
            r is Ok ==> {
                let p = r->Ok_0;
                &&& p.wf()
                &&& p.spec_width() == width
                &&& p.spec_height() == height
                &&& ranged(p.tiles_view(), p.pixel_count(), workers as int)
                &&& p@ =~= Seq::new((4 * p.pixel_count()) as nat, |i: int| 0u8)
            },
    {
        if workers == 0 {
            return Err(BufferError::NoWorkers);
        }
        let total = match width.checked_mul(height) {
            Some(t) => t,
            None => {
                proof {
                    assert(4 * (width * height) > max_bytes()) by (nonlinear_arith)
                        requires width * height > usize::MAX, max_bytes() <= usize::MAX;
                }
                return Err(BufferError::TooLarge);
            }
        };
        if total > (isize::MAX as usize) / 4 {
            return Err(BufferError::TooLarge);
        }
        let mut tiles: Vec<Tile> = Vec::with_capacity(workers);
        let mut k: usize = 0;
        while k < workers
            invariant
                workers >= 1,
                total == width * height,
                4 * total <= max_bytes(),
                k <= workers,
                tiles.len() == k,
                forall|m: int| 0 <= m < k ==> (#[trigger] tiles@[m]).wf(),
                forall|m: int| 0 <= m < k ==> (#[trigger] tiles@[m]).start == tile_start(total as int, workers as int, m),
                forall|m: int| 0 <= m < k ==> (#[trigger] tiles@[m]).end == tile_start(total as int, workers as int, m + 1),
                forall|m: int| 0 <= m < k ==> forall|b: int| 0 <= b < (#[trigger] tiles@[m]).data.len() ==> tiles@[m].data@[b] == 0,
            decreases workers - k,
        {
            let (a, b) = tile_range(total, workers, k);
            tiles.push(Tile::new(a, b));
            k = k + 1;
        }
        let p = Pixels { width, height, tiles };
        proof {
            let zeros = Seq::new((4 * total) as nat, |i: int| 0u8);
            assert forall|m: int| 0 <= m < p.tiles@.len() implies (#[trigger] p.tiles@[m]).data@ =~= zeros.subrange(4 * p.tiles@[m].start, 4 * p.tiles@[m].end) by {
                lemma_tile_start_order(total as int, workers as int, m);
            }
            lemma_flatten_matches(p.tiles@, zeros);
        }
        Ok(p)
    }

    /// Number of bytes of the image (four per pixel).
    pub fn len(&self) -> (r: usize)
        requires
            self.wf() || self.lent(),
        ensures
            r == 4 * self.pixel_count(),
    {
        4 * (self.width * self.height)
    }

    /// Width and height in pixels.
    pub fn dimensions(&self) -> (r: (usize, usize))
        ensures
            r.0 == self.spec_width(),
            r.1 == self.spec_height(),
    {
        (self.width, self.height)
    }

    /// Number of tiles currently held.
    pub fn tile_count(&self) -> (r: usize)
        ensures
            r == self.tiles_view().len(),
    {
        self.tiles.len()
    }

    /// Tile `k`.
    pub fn tile(&self, k: usize) -> (t: &Tile)
        requires
            k < self.tiles_view().len(),
        ensures
            *t == self.tiles_view()[k as int],
    {
        &self.tiles[k]
    }

    /// Lends out all tiles, in order; the image holds none until they are
    /// given back.
    pub fn take_tiles(&mut self) -> (tiles: Vec<Tile>)
        requires
            old(self).wf(),
        ensures
            tiles@ == old(self).tiles_view(),
            final(self).lent(),
            final(self).spec_width() == old(self).spec_width(),
            final(self).spec_height() == old(self).spec_height(),
    {
        let mut tiles: Vec<Tile> = Vec::new();
        std::mem::swap(&mut tiles, &mut self.tiles);
        tiles
    }

    /// Takes tiles back. They are accepted if and only if they cut this
    /// image's pixels into contiguous runs in order, each with its bytes;
    /// otherwise they are handed back and the image is left as it was.
    pub fn restore_tiles(&mut self, tiles: Vec<Tile>) -> (r: Result<(), Vec<Tile>>)
        requires
            fits_in_memory(old(self).spec_width() as int, old(self).spec_height() as int),
        ensures
            r is Ok <==> partitioned(tiles@, old(self).pixel_count()),
            r is Ok ==> final(self).tiles_view() == tiles@ && final(self).wf(),
            r is Err ==> *final(self) == *old(self) && r->Err_0@ == tiles@,
            final(self).spec_width() == old(self).spec_width(),
            final(self).spec_height() == old(self).spec_height(),
    {
        let total = self.width * self.height;
        if check_partition(&tiles, total) {
            self.tiles = tiles;
            Ok(())
        } else {
            Err(tiles)
        }
    }

    /// Renders every tile from `f` on this thread.
    pub fn render<F: Fn(usize, usize) -> EscapeResult>(&mut self, f: &F)
        requires
            old(self).wf(),
            is_evaluator(f),
        ensures
            final(self).wf(),
            final(self).spec_width() == old(self).spec_width(),
            final(self).spec_height() == old(self).spec_height(),
            final(self).tiles_view().len() == old(self).tiles_view().len(),
            forall|k: int| 0 <= k < old(self).tiles_view().len() ==> (#[trigger] final(self).tiles_view()[k]).start == old(self).tiles_view()[k].start
                && final(self).tiles_view()[k].end == old(self).tiles_view()[k].end,
            final(self).rendered_by(f),
    {
        let ghost t0 = self.tiles@;
        let count = self.tiles.len();
        let width = self.width;
        let mut k: usize = 0;
        while k < count
            invariant
                is_evaluator(f),
                count == self.tiles.len(),
                count == t0.len(),
                width == self.width,
                self.height == old(self).height,
                self.width == old(self).width,
                fits_in_memory(width as int, self.height as int),
                partitioned(t0, (width * self.height) as int),
                k <= count,
                forall|m: int| 0 <= m < count ==> (#[trigger] self.tiles@[m]).wf(),
                forall|m: int| 0 <= m < count ==> (#[trigger] self.tiles@[m]).start == t0[m].start && self.tiles@[m].end == t0[m].end,
                forall|m: int| 0 <= m < k ==> rendered(f, width as int, (#[trigger] self.tiles@[m]).start as int, self.tiles@[m].data@),
            decreases count - k,
        {
            if width > 0 {
                render_tile(f, width, &mut self.tiles[k]);
            } else {
                proof {
                    vstd::arithmetic::mul::lemma_mul_basics(self.height as int);
                    if k < count - 1 {
                        lemma_chain_order(t0, k as int, count - 1);
                    }
                }
                assert(self.tiles@[k as int].data@.len() == 0);
            }
            k = k + 1;
        }
    }

    /// The image's bytes, row-major, four per pixel.
    pub fn to_bytes(&self) -> (r: Vec<u8>)
        ensures
            r@ == self@,
    {
        let mut out: Vec<u8> = Vec::new();
        let mut k: usize = 0;
        while k < self.tiles.len()
            invariant
                k <= self.tiles.len(),
                out@ == flatten(self.tiles@.subrange(0, k as int)),
            decreases self.tiles.len() - k,
        {
            let data = &self.tiles[k].data;
            let ghost before = out@;
            let mut b: usize = 0;
            while b < data.len()
                invariant
                    b <= data.len(),
                    out@ == before + data@.subrange(0, b as int),
                decreases data.len() - b,
            {
                out.push(data[b]);
                b = b + 1;
                assert(out@ =~= before + data@.subrange(0, b as int));
            }
            assert(data@.subrange(0, data.len() as int) =~= data@);
            assert(self.tiles@.subrange(0, k + 1).drop_last() =~= self.tiles@.subrange(0, k as int));
            k = k + 1;
        }
        assert(self.tiles@.subrange(0, self.tiles.len() as int) =~= self.tiles@);
        out
    }
}

/// Channel `c` (0 red, 1 green, 2 blue, 3 alpha) of a pixel.
pub open spec fn channel(p: Pixel, c: int) -> u8 {
    if c == 0 {
        p.0
    } else if c == 1 {
        p.1
    } else if c == 2 {
        p.2
    } else {
        p.3
    }
}

/// The bytes of a `width`-wide image of `total` pixels with every pixel
/// painted by per-pixel evaluation.
pub open spec fn image_bytes<F: Fn(usize, usize) -> EscapeResult>(f: &F, width: int, total: int) -> Seq<u8> {
    Seq::new((4 * total) as nat, |b: int| channel(shade_of(result_at(f, (b / 4) % width, (b / 4) / width)), b % 4))
}

/// On an evaluator where flat filling is exact, a rendered image is its
/// per-pixel evaluation, byte for byte.
pub proof fn lemma_render_exact<F: Fn(usize, usize) -> EscapeResult>(f: &F, p: Pixels)
    requires
        p.wf(),
        p.rendered_by(f),
        hole_free(f),
    ensures
        p@ == image_bytes(f, p.spec_width() as int, p.pixel_count()),
{
    let tiles = p.tiles_view();
    let w = p.spec_width() as int;
    let total = p.pixel_count();
    let t = image_bytes(f, w, total);
    assert forall|k: int| 0 <= k < tiles.len() implies (#[trigger] tiles[k]).data@ =~= t.subrange(4 * tiles[k].start, 4 * tiles[k].end) by {
        let tile = tiles[k];
        if k < tiles.len() - 1 {
            lemma_chain_order(tiles, k, tiles.len() - 1);
        }
        let st = tile.start as int;
        lemma_hole_free_exact(f, w, st, tile.data@);
        assert forall|b: int| 0 <= b < tile.data.len() implies tile.data@[b] == t[4 * st + b] by {
            let i = b / 4;
            let c = b % 4;
            assert(b == 4 * i + c);
            assert((4 * st + b) / 4 == st + i);
            assert((4 * st + b) % 4 == c);
            assert(pixel_of(tile.data@, i) == shade_of(result_at(f, col_of(w, st, i), row_of(w, st, i))));
        }
    }
    lemma_flatten_matches(tiles, t);
    assert(t.subrange(0, 4 * total) =~= t);
}

/// However an image is cut into tiles, rendering every tile gives the same
/// bytes, and so the same bytes as rendering it as one single tile, on every
/// evaluator where flat filling is exact.
pub proof fn lemma_tiling_invariant<F: Fn(usize, usize) -> EscapeResult>(f: &F, a: Pixels, b: Pixels)
    requires
        a.wf(),
        b.wf(),
        a.spec_width() == b.spec_width(),
        a.spec_height() == b.spec_height(),
        a.rendered_by(f),
        b.rendered_by(f),
        hole_free(f),
    ensures
        a@ == b@,
{
    lemma_render_exact(f, a);
    lemma_render_exact(f, b);
}

} // verus!
