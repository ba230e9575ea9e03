use vstd::prelude::*;
use crate::buffer::FrameBuffer;
use crate::pixels::{BufferError, Pixels, fits_in_memory, image_fits, ranged, tile_range, tile_start, lemma_ranged_partitioned};
use crate::palette::EscapeResult;
use crate::tracer::{Tile, is_evaluator};

verus! {

/// Smallest iteration cap.
pub const MIN_ITERATION_CAP: u32 = 1;

/// Largest iteration cap (two to the thirtieth).
pub const MAX_ITERATION_CAP: u32 = 1073741824;

/// `v` brought into `MIN_ITERATION_CAP..=MAX_ITERATION_CAP`.
pub open spec fn clamp_cap(v: int) -> int {
    if v < MIN_ITERATION_CAP {
        MIN_ITERATION_CAP as int
    } else if v > MAX_ITERATION_CAP {
        MAX_ITERATION_CAP as int
    } else {
        v
    }
}

/// The iteration cap after adding `delta` to `cap`, clamped to the allowed
/// range rather than overflowing.
pub fn adjust_iteration_cap(cap: u32, delta: i64) -> (r: u32)
    ensures
        r == clamp_cap(cap + delta),
{
    if delta >= MAX_ITERATION_CAP as i64 {
        MAX_ITERATION_CAP
    } else if delta <= -(u32::MAX as i64) {
        MIN_ITERATION_CAP
    } else {
        let v: i64 = cap as i64 + delta;
        if v < MIN_ITERATION_CAP as i64 {
            MIN_ITERATION_CAP
        } else if v > MAX_ITERATION_CAP as i64 {
            MAX_ITERATION_CAP
        } else {
            v as u32
        }
    }
}

/// Relies on num_cpus::get: the number of logical CPUs this process may run
/// on, documented to be at least one.
#[verifier::external_body]
fn available_cpus() -> (n: usize)
    ensures
        n >= 1,
{
    num_cpus::get()
}

/// Two workers per CPU, saturating at the largest even `usize`.
pub open spec fn workers_for(cpus: int) -> int {
    if cpus <= usize::MAX / 2 {
        2 * cpus
    } else {
        2 * (usize::MAX / 2)
    }
}

/// The number of workers for `cpus` CPUs: two per CPU.
pub fn worker_count_for(cpus: usize) -> (n: usize)
    ensures
        n == workers_for(cpus as int),
{
    if cpus > usize::MAX / 2 {
        (usize::MAX / 2) * 2
    } else {
        cpus * 2
    }
}

/// The recommended number of workers: two per available CPU.
pub fn default_worker_count() -> (n: usize)
    ensures
        exists|c: int| c >= 1 && n == workers_for(c),
        n >= 2,
        n % 2 == 0,
{
    let cpus = available_cpus();
    let n = worker_count_for(cpus);
    assert(cpus >= 1 && n == workers_for(cpus as int));
    n
}

/// The integer part of the view: image size and iteration cap.
#[derive(Clone, Copy, Debug, PartialEq, Eq, Structural)]
pub struct FrameSettings {
    pub width: usize,
    pub height: usize,
    pub iteration_cap: u32,
}

/// A change requested between frames. `View` carries a change of the
/// mapping from pixels to the plane (a pan or a zoom), which this crate
/// queues and hands back in order without reading.
pub enum Command<V> {
    View(V),
    SetIterationCap(i64),
    Resize(usize, usize),
}

/// Whether a command takes effect: a resize to an image too large for one
/// allocation is refused, and the previous size kept.
pub open spec fn accepted<V>(c: Command<V>) -> bool {
    match c {
        Command::Resize(w, h) => fits_in_memory(w as int, h as int),
        _ => true,
    }
}

/// Settings after one command.
pub open spec fn settings_step<V>(s: FrameSettings, c: Command<V>) -> FrameSettings {
    match c {
        Command::View(_) => s,
        Command::SetIterationCap(d) => FrameSettings { iteration_cap: clamp_cap(s.iteration_cap + d) as u32, ..s },
        Command::Resize(w, h) => if fits_in_memory(w as int, h as int) {
            FrameSettings { width: w, height: h, ..s }
        } else {
            s
        },
    }
}

/// Settings after the commands `cs`, applied in order.
pub open spec fn settings_after<V>(s: FrameSettings, cs: Seq<Command<V>>) -> FrameSettings
    decreases cs.len(),
{
    if cs.len() == 0 {
        s
    } else {
        settings_step(settings_after(s, cs.drop_last()), cs.last())
    }
}

/// The commands of `cs` that take effect, in order.
pub open spec fn kept<V>(cs: Seq<Command<V>>) -> Seq<Command<V>>
    decreases cs.len(),
{
    if cs.len() == 0 {
        Seq::empty()
    } else if accepted(cs.last()) {
        kept(cs.drop_last()).push(cs.last())
    } else {
        kept(cs.drop_last())
    }
}

/// A resize to a size that fits in memory, applied alone, sets exactly that
/// pixel size and leaves the iteration cap as it was.
pub proof fn lemma_resize_sets_size<V>(s: FrameSettings, width: usize, height: usize)
    requires
        fits_in_memory(width as int, height as int),
    ensures
        settings_after(s, seq![Command::<V>::Resize(width, height)]) == (FrameSettings { width, height, ..s }),
        kept(seq![Command::<V>::Resize(width, height)]) == seq![Command::<V>::Resize(width, height)],
        resizes(seq![Command::<V>::Resize(width, height)]),
{
    let cs = seq![Command::<V>::Resize(width, height)];
    reveal_with_fuel(settings_after, 2);
    reveal_with_fuel(kept, 2);
    assert(cs.drop_last() =~= Seq::<Command<V>>::empty());
    assert(cs.last() == Command::<V>::Resize(width, height));
    assert(cs[0] is Resize && accepted(cs[0]));
    assert(Seq::<Command<V>>::empty().push(cs.last()) =~= cs);
}

/// Some command of `cs` is a resize that takes effect.
pub open spec fn resizes<V>(cs: Seq<Command<V>>) -> bool {
    exists|i: int| 0 <= i < cs.len() && #[trigger] cs[i] is Resize && accepted(cs[i])
}

/// Where a frame stands.
#[derive(Clone, Copy, Debug, PartialEq, Eq, Structural)]
pub enum Phase {
    /// Between frames: commands may be applied, a frame may start.
    Idle,
    /// The draw image's tiles are out with the workers.
    Rendering,
    /// Every tile is back; the buffers may be swapped.
    Swapping,
    /// A worker was lost; the coordinator must be rebuilt.
    Failed,
}

/// Why a coordinator operation was refused.
#[derive(Clone, Copy, Debug, PartialEq, Eq, Structural)]
pub enum FrameError {
    /// At least one worker is needed.
    NoWorkers,
    /// The image does not fit in one allocation.
    TooLarge,
    /// A frame can start only between frames.
    NotIdle,
    /// Tiles are taken back only while a frame renders.
    NotRendering,
    /// A frame is finished only once every tile is back.
    NotSwapping,
    /// No worker has that number.
    UnknownTile,
    /// That worker's tile is already back.
    DuplicateTile,
    /// The tile handed back does not cover that worker's pixels.
    MisshapenTile,
}

/// What finishing a frame did.
pub struct FrameUpdate<V> {
    /// The commands that took effect, in arrival order.
    pub commands: Vec<Command<V>>,
    /// Whether a resize took effect, so that both images were rebuilt.
    pub resized: bool,
    /// The number of the next frame.
    pub frame: u64,
}

/// Tile `tile` may stand in slot `k` of `count` over `total` pixels.
pub open spec fn fits_slot(tile: Tile, total: int, count: int, k: int) -> bool {
    &&& tile.wf()
    &&& tile.start == tile_start(total, count, k)
    &&& tile.end == tile_start(total, count, k + 1)
}

/// The tiles held in the slots, in slot order.
pub open spec fn unwrap_slots(slots: Seq<Option<Tile>>) -> Seq<Tile> {
    slots.map_values(|o: Option<Tile>| o->Some_0)
}

/// Sequences frames: lends the draw image's tiles to the workers, takes
/// them back, swaps the images and applies the queued commands in arrival
/// order between frames.
pub struct FrameCoordinator<V> {
    phase: Phase,
    buffer: FrameBuffer,
    workers: usize,
    returned: Vec<Option<Tile>>,
    pending: Vec<Command<V>>,
    settings: FrameSettings,
    frame: u64,
}

impl<V> FrameCoordinator<V> {
    /// Where the frame stands.
    pub closed spec fn phase_spec(&self) -> Phase {
        self.phase
    }

    /// The two images.
    pub closed spec fn buffer_spec(&self) -> FrameBuffer {
        self.buffer
    }

    /// Number of workers, and of tiles per image.
    pub closed spec fn workers_spec(&self) -> nat {
        self.workers as nat
    }

    /// The tiles handed back so far in this frame, by worker.
    pub closed spec fn returned_spec(&self) -> Seq<Option<Tile>> {
        self.returned@
    }

    /// The commands queued since the last frame boundary, in arrival order.
    pub closed spec fn pending_spec(&self) -> Seq<Command<V>> {
        self.pending@
    }

    /// Image size and iteration cap.
    pub closed spec fn settings_spec(&self) -> FrameSettings {
        self.settings
    }

    /// Number of the frame to render next.
    pub closed spec fn frame_spec(&self) -> u64 {
        self.frame
    }

    /// Number of pixels of each image.
    pub open spec fn total(&self) -> int {
        self.settings_spec().width * self.settings_spec().height
    }

    /// The coordinator's invariant.
    pub open spec fn wf(&self) -> bool {
        let b = self.buffer_spec();
        let n = self.workers_spec() as int;
        let t = self.total();
        &&& n >= 1
        &&& b.wf()
        &&& b.spec_width() == self.settings_spec().width
        &&& b.spec_height() == self.settings_spec().height
        &&& MIN_ITERATION_CAP <= self.settings_spec().iteration_cap <= MAX_ITERATION_CAP
        &&& ranged(b.present_spec().tiles_view(), t, n)
        &&& (self.phase_spec() == Phase::Idle || self.phase_spec() == Phase::Swapping) ==> b.draw_spec().wf() && ranged(b.draw_spec().tiles_view(), t, n)
        &&& self.phase_spec() == Phase::Rendering ==> {
            &&& b.draw_spec().lent()
            &&& self.returned_spec().len() == n
            &&& forall|k: int| 0 <= k < n && (#[trigger] self.returned_spec()[k]) is Some ==> fits_slot(self.returned_spec()[k]->Some_0, t, n, k)
        }
    }

    /// A coordinator for a `width` by `height` image cut into `workers`
    /// tiles, with the iteration cap clamped into range; no frame has run.
    pub fn new(width: usize, height: usize, iteration_cap: u32, workers: usize) -> (r: Result<Self, FrameError>)
        ensures
            workers == 0 <==> r == Err::<Self, FrameError>(FrameError::NoWorkers),
            (workers > 0 && !fits_in_memory(width as int, height as int)) <==> r == Err::<Self, FrameError>(FrameError::TooLarge),
            r is Ok <==> workers > 0 && fits_in_memory(width as int, height as int),
            r is Ok ==> {
                let c = r->Ok_0;
                &&& c.wf()
                &&& c.phase_spec() == Phase::Idle
                &&& c.workers_spec() == workers
                &&& c.settings_spec() == FrameSettings { width, height, iteration_cap: clamp_cap(iteration_cap as int) as u32 }
                &&& c.pending_spec().len() == 0
                &&& c.frame_spec() == 0
            },
    {
        let buffer = match FrameBuffer::new(width, height, workers) {
            Ok(b) => b,
            Err(BufferError::NoWorkers) => return Err(FrameError::NoWorkers),
            Err(BufferError::TooLarge) => return Err(FrameError::TooLarge),
        };
        let cap = adjust_iteration_cap(iteration_cap, 0);
        Ok(FrameCoordinator {
            phase: Phase::Idle,
            buffer,
            workers,
            returned: Vec::new(),
            pending: Vec::new(),
            settings: FrameSettings { width, height, iteration_cap: cap },
            frame: 0,
        })
    }

    /// Where the frame stands.
    pub fn phase(&self) -> (r: Phase)
        ensures
            r == self.phase_spec(),
    {
        self.phase
    }

    /// Image size and iteration cap.
    pub fn settings(&self) -> (r: FrameSettings)
        ensures
            r == self.settings_spec(),
    {
        self.settings
    }

    /// Number of the frame to render next.
    pub fn frame(&self) -> (r: u64)
        ensures
            r == self.frame_spec(),
    {
        self.frame
    }

    /// Number of workers.
    pub fn workers(&self) -> (r: usize)
        ensures
            r == self.workers_spec(),
    {
        self.workers
    }

    /// Number of queued commands.
    pub fn pending_count(&self) -> (r: usize)
        ensures
            r == self.pending_spec().len(),
    {
        self.pending.len()
    }

    /// The image to present: the last finished frame.
    pub fn present_buffer(&self) -> (p: &Pixels)
        ensures
            *p == self.buffer_spec().present_spec(),
    {
        self.buffer.present_buffer()
    }

    /// Queues a command; it takes effect when the current or next frame
    /// finishes.
    pub fn submit(&mut self, c: Command<V>)
        requires
            old(self).wf(),
        ensures
            final(self).wf(),
            final(self).pending_spec() == old(self).pending_spec().push(c),
            final(self).phase_spec() == old(self).phase_spec(),
            final(self).buffer_spec() == old(self).buffer_spec(),
            final(self).workers_spec() == old(self).workers_spec(),
            final(self).returned_spec() == old(self).returned_spec(),
            final(self).settings_spec() == old(self).settings_spec(),
            final(self).frame_spec() == old(self).frame_spec(),
    {
        self.pending.push(c);
    }

    /// Marks the coordinator failed after a worker was lost; it accepts no
    /// further frame.
    pub fn worker_lost(&mut self)
        requires
            old(self).wf(),
        ensures
            final(self).wf(),
            final(self).phase_spec() == Phase::Failed,
            final(self).buffer_spec() == old(self).buffer_spec(),
            final(self).pending_spec() == old(self).pending_spec(),
            final(self).settings_spec() == old(self).settings_spec(),
            final(self).frame_spec() == old(self).frame_spec(),
    {
        self.phase = Phase::Failed;
    }

    /// Starts a frame: lends out the draw image's tiles, tile `k` for worker
    /// `k`. Refused unless the coordinator is idle.
    pub fn start_frame(&mut self) -> (r: Result<Vec<Tile>, FrameError>)
        requires
            old(self).wf(),
        ensures
            final(self).wf(),
            old(self).phase_spec() != Phase::Idle <==> r == Err::<Vec<Tile>, FrameError>(FrameError::NotIdle),
            r is Ok <==> old(self).phase_spec() == Phase::Idle,
            r is Err ==> *final(self) == *old(self),
            r is Ok ==> {
                &&& final(self).phase_spec() == Phase::Rendering
                &&& r->Ok_0@ == old(self).buffer_spec().draw_spec().tiles_view()
                &&& ranged(r->Ok_0@, old(self).total(), old(self).workers_spec() as int)
                &&& forall|k: int| 0 <= k < final(self).returned_spec().len() ==> (#[trigger] final(self).returned_spec()[k]) is None
                &&& final(self).buffer_spec().present_spec() == old(self).buffer_spec().present_spec()
                &&& final(self).pending_spec() == old(self).pending_spec()
                &&& final(self).settings_spec() == old(self).settings_spec()
                &&& final(self).frame_spec() == old(self).frame_spec()
                &&& final(self).workers_spec() == old(self).workers_spec()
            },
    {
        if self.phase != Phase::Idle {
            return Err(FrameError::NotIdle);
        }
        let tiles = self.buffer.take_draw_tiles();
        let mut returned: Vec<Option<Tile>> = Vec::with_capacity(self.workers);
        let mut k: usize = 0;
        while k < self.workers
            invariant
                k <= self.workers,
                returned.len() == k,
                forall|m: int| 0 <= m < k ==> (#[trigger] returned@[m]) is None,
            decreases self.workers - k,
        {
            returned.push(None);
            k = k + 1;
        }
        self.returned = returned;
        self.phase = Phase::Rendering;
        Ok(tiles)
    }

    /// Takes back worker `k`'s tile. Refused unless a frame is rendering,
    /// `k` names a worker whose tile is still out, and the tile covers that
    /// worker's pixels with their bytes. Returns whether every tile is back,
    /// in which case the draw image is whole again and may be swapped.
    pub fn tile_finished(&mut self, k: usize, tile: Tile) -> (r: Result<bool, FrameError>)
        requires
            old(self).wf(),
        ensures
            final(self).wf(),
            old(self).phase_spec() != Phase::Rendering <==> r == Err::<bool, FrameError>(FrameError::NotRendering),
            (old(self).phase_spec() == Phase::Rendering && k >= old(self).workers_spec())
                <==> r == Err::<bool, FrameError>(FrameError::UnknownTile),
            (old(self).phase_spec() == Phase::Rendering && k < old(self).workers_spec() && old(self).returned_spec()[k as int] is Some)
                <==> r == Err::<bool, FrameError>(FrameError::DuplicateTile),
            (old(self).phase_spec() == Phase::Rendering && k < old(self).workers_spec() && old(self).returned_spec()[k as int] is None
                && !fits_slot(tile, old(self).total(), old(self).workers_spec() as int, k as int))
                <==> r == Err::<bool, FrameError>(FrameError::MisshapenTile),
            r is Ok <==> old(self).phase_spec() == Phase::Rendering && k < old(self).workers_spec()
                && old(self).returned_spec()[k as int] is None
                && fits_slot(tile, old(self).total(), old(self).workers_spec() as int, k as int),
            r is Err ==> *final(self) == *old(self),
            r is Ok ==> {
                let slots = old(self).returned_spec().update(k as int, Some(tile));
                &&& (r->Ok_0 <==> forall|j: int| 0 <= j < slots.len() ==> (#[trigger] slots[j]) is Some)
                &&& !r->Ok_0 ==> final(self).phase_spec() == Phase::Rendering && final(self).returned_spec() == slots
                &&& r->Ok_0 ==> final(self).phase_spec() == Phase::Swapping
                    && final(self).buffer_spec().draw_spec().tiles_view() == unwrap_slots(slots)
                &&& final(self).buffer_spec().present_spec() == old(self).buffer_spec().present_spec()
                &&& final(self).pending_spec() == old(self).pending_spec()
                &&& final(self).settings_spec() == old(self).settings_spec()
                &&& final(self).frame_spec() == old(self).frame_spec()
                &&& final(self).workers_spec() == old(self).workers_spec()
            },
    {
        if self.phase != Phase::Rendering {
            return Err(FrameError::NotRendering);
        }
        if k >= self.workers {
            return Err(FrameError::UnknownTile);
        }
        if self.returned[k].is_some() {
            return Err(FrameError::DuplicateTile);
        }
        let total = self.settings.width * self.settings.height;
        let (a, b) = tile_range(total, self.workers, k);
        if !(tile.is_well_formed() && tile.start == a && tile.end == b) {
            return Err(FrameError::MisshapenTile);
        }
        let n = self.workers;
        let ghost t = total as int;
        self.returned.set(k, Some(tile));
        let ghost slots = self.returned@;
        let mut all = true;
        let mut j: usize = 0;
        while j < n
            invariant
                n == self.returned.len(),
                slots == self.returned@,
                j <= n,
                all <==> forall|m: int| 0 <= m < j ==> (#[trigger] slots[m]) is Some,
            decreases n - j,
        {
            if self.returned[j].is_none() {
                all = false;
            }
            j = j + 1;
        }
        if !all {
            return Ok(false);
        }
        let mut rest: Vec<Option<Tile>> = Vec::new();
        std::mem::swap(&mut rest, &mut self.returned);
        let mut tiles: Vec<Tile> = Vec::with_capacity(n);
        while rest.len() > 0
            invariant
                n == slots.len(),
                forall|m: int| 0 <= m < n ==> (#[trigger] slots[m]) is Some,
                tiles.len() + rest.len() == n,
                rest@ == slots.subrange(tiles.len() as int, n as int),
                tiles@ == unwrap_slots(slots).subrange(0, tiles.len() as int),
            decreases rest.len(),
        {
            let ghost m = tiles.len() as int;
            let o = rest.remove(0);
            assert(o == slots[m]);
            match o {
                Some(x) => {
                    tiles.push(x);
                }
                None => {}
            }
            assert(rest@ =~= slots.subrange(m + 1, n as int));
            assert(tiles@ =~= unwrap_slots(slots).subrange(0, m + 1));
        }
        assert(tiles@ =~= unwrap_slots(slots));
        proof {
            assert forall|m: int| 0 <= m < n implies (#[trigger] tiles@[m]).wf() by {
                assert(fits_slot(slots[m]->Some_0, t, n as int, m));
            }
            assert forall|m: int| 0 <= m < n implies (#[trigger] tiles@[m]).start == tile_start(t, n as int, m)
                && tiles@[m].end == tile_start(t, n as int, m + 1) by {
                assert(fits_slot(slots[m]->Some_0, t, n as int, m));
            }
            lemma_ranged_partitioned(tiles@, t, n as int);
        }
        match self.buffer.restore_draw_tiles(tiles) {
            Ok(()) => {}
            Err(_) => {
                return Err(FrameError::MisshapenTile);
            }
        }
        self.phase = Phase::Swapping;
        Ok(true)
    }

    /// Finishes a frame once every tile is back: swaps the images, applies
    /// the queued commands in arrival order (rebuilding both images at the
    /// new size when a resize takes effect) and moves on to the next frame
    /// number. Refused unless every tile is back.
    pub fn finish_frame(&mut self) -> (r: Result<FrameUpdate<V>, FrameError>)
        requires
            old(self).wf(),
        ensures
            final(self).wf(),
            old(self).phase_spec() != Phase::Swapping <==> r is Err,
            r is Err ==> r == Err::<FrameUpdate<V>, FrameError>(FrameError::NotSwapping) && *final(self) == *old(self),
            r is Ok ==> {
                let u = r->Ok_0;
                &&& final(self).phase_spec() == Phase::Idle
                &&& final(self).settings_spec() == settings_after(old(self).settings_spec(), old(self).pending_spec())
                &&& final(self).pending_spec().len() == 0
                &&& u.commands@ == kept(old(self).pending_spec())
                &&& u.resized == resizes(old(self).pending_spec())
                &&& final(self).frame_spec() == (old(self).frame_spec() + 1) % 0x1_0000_0000_0000_0000
                &&& u.frame == final(self).frame_spec()
                &&& final(self).workers_spec() == old(self).workers_spec()
                &&& !u.resized ==> final(self).buffer_spec().present_spec() == old(self).buffer_spec().draw_spec()
                    && final(self).buffer_spec().draw_spec() == old(self).buffer_spec().present_spec()
            },
    {
        if self.phase != Phase::Swapping {
            return Err(FrameError::NotSwapping);
        }
        self.buffer.swap();
        let mut pending: Vec<Command<V>> = Vec::new();
        std::mem::swap(&mut pending, &mut self.pending);
        let ghost orig = pending@;
        let ghost s0 = self.settings;
        let mut settings = self.settings;
        let mut commands: Vec<Command<V>> = Vec::new();
        let mut resized = false;
        while pending.len() > 0
            invariant
                pending@ == orig.subrange(orig.len() - pending.len(), orig.len() as int),
                pending.len() <= orig.len(),
                settings == settings_after(s0, orig.subrange(0, orig.len() - pending.len())),
                commands@ == kept(orig.subrange(0, orig.len() - pending.len())),
                resized == resizes(orig.subrange(0, orig.len() - pending.len())),
                !resized ==> settings.width == s0.width && settings.height == s0.height,
                self.workers >= 1,
                fits_in_memory(settings.width as int, settings.height as int),
                MIN_ITERATION_CAP <= settings.iteration_cap <= MAX_ITERATION_CAP,
            decreases pending.len(),
        {
            let ghost m = orig.len() - pending.len();
            let ghost prefix = orig.subrange(0, m);
            let c = pending.remove(0);
            assert(c == orig[m]);
            let ghost next = orig.subrange(0, m + 1);
            assert(next.drop_last() =~= prefix);
            assert(next.last() == c);
            let keep = match &c {
                Command::View(_) => true,
                Command::SetIterationCap(d) => {
                    settings.iteration_cap = adjust_iteration_cap(settings.iteration_cap, *d);
                    true
                }
                Command::Resize(w, h) => {
                    if image_fits(*w, *h) {
                        settings.width = *w;
                        settings.height = *h;
                        resized = true;
                        true
                    } else {
                        false
                    }
                }
            };
            proof {
                if c is Resize && accepted(c) {
                    assert(next[m] is Resize && accepted(next[m]));
                } else {
                    if resizes(next) {
                        let i = choose|i: int| 0 <= i < next.len() && #[trigger] next[i] is Resize && accepted(next[i]);
                        assert(prefix[i] is Resize && accepted(prefix[i]));
                    }
                }
                if resizes(prefix) {
                    let i = choose|i: int| 0 <= i < prefix.len() && #[trigger] prefix[i] is Resize && accepted(prefix[i]);
                    assert(next[i] is Resize && accepted(next[i]));
                }
            }
            if keep {
                commands.push(c);
            }
            assert(pending@ =~= orig.subrange(m + 1, orig.len() as int));
        }
        assert(orig.subrange(0, orig.len() as int) =~= orig);
        self.settings = settings;
        if resized {
            match FrameBuffer::new(settings.width, settings.height, self.workers) {
                Ok(b) => {
                    self.buffer = b;
                }
                Err(e) => {
                    // Unreachable: the size fits and there is a worker.
                    assert(e != BufferError::NoWorkers);
                    assert(e != BufferError::TooLarge);
                }
            }
        }
        self.frame = if self.frame == u64::MAX { 0 } else { self.frame + 1 };
        self.phase = Phase::Idle;
        Ok(FrameUpdate { commands, resized, frame: self.frame })
    }

    /// Renders a whole frame on this thread: every tile of the draw image is
    /// traced from `f`, then the frame is finished as `finish_frame` does.
    /// Unless a resize rebuilt the images, the presented image is then
    /// rendered from `f`. Refused unless the coordinator is idle.
    pub fn render_frame_local<F: Fn(usize, usize) -> EscapeResult>(&mut self, f: &F) -> (r: Result<FrameUpdate<V>, FrameError>)
        requires
            old(self).wf(),
            is_evaluator(f),
        ensures
            final(self).wf(),
            old(self).phase_spec() != Phase::Idle <==> r is Err,
            r is Err ==> r == Err::<FrameUpdate<V>, FrameError>(FrameError::NotIdle) && *final(self) == *old(self),
            r is Ok ==> {
                let u = r->Ok_0;
                &&& final(self).phase_spec() == Phase::Idle
                &&& final(self).settings_spec() == settings_after(old(self).settings_spec(), old(self).pending_spec())
                &&& final(self).pending_spec().len() == 0
                &&& u.commands@ == kept(old(self).pending_spec())
                &&& u.resized == resizes(old(self).pending_spec())
                &&& final(self).frame_spec() == (old(self).frame_spec() + 1) % 0x1_0000_0000_0000_0000
                &&& u.frame == final(self).frame_spec()
                &&& final(self).workers_spec() == old(self).workers_spec()
                &&& !u.resized ==> final(self).buffer_spec().present_spec().rendered_by(f)
                    && final(self).buffer_spec().draw_spec() == old(self).buffer_spec().present_spec()
            },
    {
        if self.phase != Phase::Idle {
            return Err(FrameError::NotIdle);
        }
        self.buffer.render_draw(f);
        self.phase = Phase::Swapping;
        proof {
            let b = self.buffer.draw_spec();
            assert(ranged(b.tiles_view(), self.total(), self.workers as int));
        }
        self.finish_frame()
    }
}

} // verus!
