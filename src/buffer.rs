use vstd::prelude::*;
use crate::pixels::{Pixels, BufferError, fits_in_memory, partitioned, ranged};
use crate::palette::EscapeResult;
use crate::tracer::{Tile, is_evaluator};

verus! {

/// Two equal-size images: one is drawn into while the other is presented.
/// Swapping flips which is which; no pixel is copied.
pub struct FrameBuffer {
    first: Pixels,
    second: Pixels,
    draw_index: usize,
}

impl FrameBuffer {
    /// Which image is drawn into: 0 the first, 1 the second.
    pub closed spec fn spec_draw_index(&self) -> nat {
        self.draw_index as nat
    }

    /// The image being drawn into.
    pub closed spec fn draw_spec(&self) -> Pixels {
        if self.draw_index == 0 { self.first } else { self.second }
    }

    /// The image being presented.
    pub closed spec fn present_spec(&self) -> Pixels {
        if self.draw_index == 0 { self.second } else { self.first }
    }

    /// Both images have one size; the presented one is whole, the drawn one
    /// is whole or has its tiles lent out.
    pub open spec fn wf(&self) -> bool {
        &&& self.spec_draw_index() < 2
        &&& self.present_spec().wf()
        &&& self.draw_spec().wf() || self.draw_spec().lent()
        &&& self.draw_spec().spec_width() == self.present_spec().spec_width()
        &&& self.draw_spec().spec_height() == self.present_spec().spec_height()
        &&& self.draw_spec().tiles_view().len() == 0 || self.draw_spec().tiles_view().len() == self.present_spec().tiles_view().len()
    }

    /// Width in pixels.
    pub open spec fn spec_width(&self) -> nat {
        self.present_spec().spec_width()
    }

    /// Height in pixels.
    pub open spec fn spec_height(&self) -> nat {
        self.present_spec().spec_height()
    }

    /// Number of tiles each image is cut into.
    pub open spec fn spec_tile_count(&self) -> nat {
        self.present_spec().tiles_view().len()
    }

    /// Two `width` by `height` images of zero bytes, each cut into `workers`
    /// tiles; the first is drawn into.
    pub fn new(width: usize, height: usize, workers: usize) -> (r: Result<FrameBuffer, BufferError>)
        ensures
            workers == 0 <==> r == Err::<FrameBuffer, BufferError>(BufferError::NoWorkers),
            (workers > 0 && !fits_in_memory(width as int, height as int)) <==> r == Err::<FrameBuffer, BufferError>(BufferError::TooLarge),
            r is Ok <==> workers > 0 && fits_in_memory(width as int, height as int),
            r is Ok ==> {
                let b = r->Ok_0;
                &&& b.wf()
                &&& b.draw_spec().wf()
                &&& b.spec_draw_index() == 0
                &&& b.spec_width() == width
                &&& b.spec_height() == height
                &&& b.spec_tile_count() == workers
                &&& ranged(b.draw_spec().tiles_view(), (width * height) as int, workers as int)
                &&& ranged(b.present_spec().tiles_view(), (width * height) as int, workers as int)
            },
    {
        let first = match Pixels::tiled(width, height, workers) {
            Ok(p) => p,
            Err(e) => return Err(e),
        };
        let second = match Pixels::tiled(width, height, workers) {
            Ok(p) => p,
            Err(e) => return Err(e),
        };
        Ok(FrameBuffer { first, second, draw_index: 0 })
    }

    /// Width and height in pixels.
    pub fn dimensions(&self) -> (r: (usize, usize))
        requires
            self.wf(),
        ensures
            r.0 == self.spec_width(),
            r.1 == self.spec_height(),
    {
        if self.draw_index == 0 { self.second.dimensions() } else { self.first.dimensions() }
    }

    /// The image being drawn into.
    pub fn draw_buffer(&self) -> (p: &Pixels)
        ensures
            *p == self.draw_spec(),
    {
        if self.draw_index == 0 { &self.first } else { &self.second }
    }

    /// The image being presented.
    pub fn present_buffer(&self) -> (p: &Pixels)
        ensures
            *p == self.present_spec(),
    {
        if self.draw_index == 0 { &self.second } else { &self.first }
    }

    /// Exchanges the drawn and the presented image.
    pub fn swap(&mut self)
        requires
            old(self).wf(),
            old(self).draw_spec().wf(),
        ensures
            final(self).wf(),
            final(self).draw_spec() == old(self).present_spec(),
            final(self).present_spec() == old(self).draw_spec(),
            final(self).spec_draw_index() == 1 - old(self).spec_draw_index(),
    {
        self.draw_index = 1 - self.draw_index;
    }

    /// Lends out the tiles of the image being drawn into, in order.
    pub fn take_draw_tiles(&mut self) -> (tiles: Vec<Tile>)
        requires
            old(self).wf(),
            old(self).draw_spec().wf(),
        ensures
            final(self).wf(),
            tiles@ == old(self).draw_spec().tiles_view(),
            final(self).draw_spec().lent(),
            final(self).present_spec() == old(self).present_spec(),
            final(self).spec_draw_index() == old(self).spec_draw_index(),
    {
        if self.draw_index == 0 { self.first.take_tiles() } else { self.second.take_tiles() }
    }

    /// Gives the drawn image its tiles back; they are refused, and handed
    /// back, unless they cut the image into as many contiguous runs as the
    /// presented image has, each with its bytes.
    pub fn restore_draw_tiles(&mut self, tiles: Vec<Tile>) -> (r: Result<(), Vec<Tile>>)
        requires
            old(self).wf(),
        ensures
            final(self).wf(),
            r is Ok <==> partitioned(tiles@, old(self).draw_spec().pixel_count()) && tiles@.len() == old(self).spec_tile_count(),
            r is Ok ==> final(self).draw_spec().tiles_view() == tiles@ && final(self).draw_spec().wf(),
            r is Err ==> *final(self) == *old(self) && r->Err_0@ == tiles@,
            final(self).present_spec() == old(self).present_spec(),
            final(self).spec_draw_index() == old(self).spec_draw_index(),
    {
        let count = if self.draw_index == 0 { self.second.tile_count() } else { self.first.tile_count() };
        if tiles.len() != count {
            return Err(tiles);
        }
        if self.draw_index == 0 { self.first.restore_tiles(tiles) } else { self.second.restore_tiles(tiles) }
    }

    /// Renders the image being drawn into from `f`, on this thread.
    pub fn render_draw<F: Fn(usize, usize) -> EscapeResult>(&mut self, f: &F)
        requires
            old(self).wf(),
            is_evaluator(f),
            old(self).draw_spec().wf(),
        ensures
            final(self).wf(),
            final(self).draw_spec().wf(),
            final(self).draw_spec().rendered_by(f),
            final(self).draw_spec().tiles_view().len() == old(self).draw_spec().tiles_view().len(),
            forall|k: int| 0 <= k < old(self).draw_spec().tiles_view().len() ==> (#[trigger] final(self).draw_spec().tiles_view()[k]).start == old(self).draw_spec().tiles_view()[k].start
                && final(self).draw_spec().tiles_view()[k].end == old(self).draw_spec().tiles_view()[k].end,
            final(self).present_spec() == old(self).present_spec(),
            final(self).spec_draw_index() == old(self).spec_draw_index(),
    {
        if self.draw_index == 0 { self.first.render(f) } else { self.second.render(f) }
    }
}

} // verus!
