//! The screen shared by several partitions, and its chunked flush.
use vstd::prelude::*;
use vstd::laws_eq::obeys_concrete_eq;
use crate::geometry::{Point, Rectangle, Size};
use crate::partition::{CompressedDisplayPartition, NewPartitionError, draw_spec, fill_spec, local_index};
use crate::compressed_buffer::DecompressingIter;
use crate::registry::{MAX_APPS_PER_SCREEN, registered_areas, registry_get, registry_len, registry_new, registry_push};
use crate::runs::{fill_runs, repeat};

verus! {

/// What the completion step of a flush asks for.
#[derive(Clone, Copy, Debug, PartialEq, Eq, Structural)]
pub enum FlushResult {
    /// Keep flushing.
    Continue,
    /// Stop the flush loop.
    Abort,
}

/// Whether a screen of `size` holds rectangle `r`: its top-left corner, and
/// its bottom-right pixel where it has one.
pub open spec fn fits_in(size: Size, r: Rectangle) -> bool {
    let screen = Rectangle { top_left: Point { x: 0, y: 0 }, size };
    &&& screen.has_point(r.left(), r.top())
    &&& (r.is_empty() || screen.has_point(r.right() - 1, r.bottom() - 1))
}

/// Whether two rectangles share a point.
pub open spec fn overlap(a: Rectangle, b: Rectangle) -> bool {
    exists|x: int, y: int| a.has_point(x, y) && b.has_point(x, y)
}

/// Pixel `(x, y)` of the screen as partition `p` holds it.
pub open spec fn partition_pixel<B: Copy + PartialEq>(p: CompressedDisplayPartition<B>, x: int, y: int) -> B {
    p.decoded()[local_index(p.area_spec().size.width, x - p.area_spec().left(), y - p.area_spec().top())]
}

/// Pixel `(x, y)` of the screen made of the first `n` of `parts`: that of
/// the last of them that covers it, `background` where none does.
pub open spec fn screen_pixel<B: Copy + PartialEq>(
    parts: Seq<CompressedDisplayPartition<B>>,
    n: int,
    x: int,
    y: int,
    background: B,
) -> B
    decreases n,
{
    if n <= 0 {
        background
    } else if parts[n - 1].area_spec().has_point(x, y) {
        partition_pixel(parts[n - 1], x, y)
    } else {
        screen_pixel(parts, n - 1, x, y, background)
    }
}

/// No two of `parts` share a point.
pub open spec fn pairwise_disjoint<B: Copy + PartialEq>(parts: Seq<CompressedDisplayPartition<B>>) -> bool {
    forall|i: int, j: int|
        0 <= i < parts.len() && 0 <= j < parts.len() && i != j ==> !overlap(
            #[trigger] parts[i].area_spec(),
            #[trigger] parts[j].area_spec(),
        )
}

/// Where partitions do not overlap, the screen shows at each point the
/// pixel of the partition that covers it.
pub proof fn lemma_screen_pixel_owner<B: Copy + PartialEq>(
    parts: Seq<CompressedDisplayPartition<B>>,
    n: int,
    b: int,
    x: int,
    y: int,
    background: B,
)
    requires
        pairwise_disjoint(parts),
        0 <= b < n <= parts.len(),
        parts[b].area_spec().has_point(x, y),
    ensures
        screen_pixel(parts, n, x, y, background) == partition_pixel(parts[b], x, y),
    decreases n,
{
    if n - 1 != b {
        assert(!parts[n - 1].area_spec().has_point(x, y)) by {
            if parts[n - 1].area_spec().has_point(x, y) {
                assert(overlap(parts[n - 1].area_spec(), parts[b].area_spec()));
            }
        }
        lemma_screen_pixel_owner(parts, n - 1, b, x, y, background);
    }
}

/// Writes to partition `a` (which change its pixels, and no other
/// partition nor its rectangle) never change what a flush decodes at a
/// point of another partition `b`: before and after, it is `b`'s pixel.
pub proof fn lemma_partition_isolation<B: Copy + PartialEq>(
    before: Seq<CompressedDisplayPartition<B>>,
    after: Seq<CompressedDisplayPartition<B>>,
    a: int,
    b: int,
    x: int,
    y: int,
    background: B,
)
    requires
        pairwise_disjoint(before),
        after.len() == before.len(),
        0 <= a < before.len(),
        0 <= b < before.len(),
        a != b,
        forall|j: int| 0 <= j < before.len() && j != a ==> #[trigger] after[j] == before[j],
        after[a].area_spec() == before[a].area_spec(),
        before[b].area_spec().has_point(x, y),
    ensures
        screen_pixel(after, after.len() as int, x, y, background) == partition_pixel(before[b], x, y),
        screen_pixel(before, before.len() as int, x, y, background) == partition_pixel(before[b], x, y),
{
    assert(pairwise_disjoint(after)) by {
        assert forall|i: int, j: int|
            0 <= i < after.len() && 0 <= j < after.len() && i != j implies !overlap(
            #[trigger] after[i].area_spec(),
            #[trigger] after[j].area_spec(),
        ) by {
            assert(after[i].area_spec() == before[i].area_spec());
            assert(after[j].area_spec() == before[j].area_spec());
        }
    }
    lemma_screen_pixel_owner(before, before.len() as int, b, x, y, background);
    lemma_screen_pixel_owner(after, after.len() as int, b, x, y, background);
}

/// Two decompositions `y * w + x` with `0 <= x < w` agree.
pub proof fn lemma_index_unique(w: int, x1: int, y1: int, x2: int, y2: int)
    requires
        0 <= x1 < w,
        0 <= x2 < w,
        y1 * w + x1 == y2 * w + x2,
    ensures
        x1 == x2,
        y1 == y2,
{
    vstd::arithmetic::div_mod::lemma_fundamental_div_mod_converse(y1 * w + x1, w, y1, x1);
    vstd::arithmetic::div_mod::lemma_fundamental_div_mod_converse(y1 * w + x1, w, y2, x2);
}

/// Index in a buffer `w` wide of column `x`, row `y`, for every position of
/// a `w` by `h` area, lies inside it.
pub proof fn lemma_index_bound(w: int, h: int, x: int, y: int)
    requires
        0 <= x < w,
        0 <= y < h,
    ensures
        0 <= y * w + x < w * h,
{
    assert(0 <= y * w + x < w * h) by (nonlinear_arith)
        requires 0 <= x < w, 0 <= y < h;
}

/// While partition `p` (the `i`-th) is copied into chunk buffer `out`, `w`
/// wide and `ch` high, whose first row is screen row `cy`: the first `done`
/// of its pixels in the chunk, counted row by row from row `itop`, are in
/// place; every other position holds the chunk as the first `i` partitions
/// make it.
pub open spec fn chunk_progress<B: Copy + PartialEq>(
    out: Seq<B>,
    parts: Seq<CompressedDisplayPartition<B>>,
    i: int,
    p: CompressedDisplayPartition<B>,
    w: u32,
    ch: int,
    cy: int,
    itop: int,
    done: int,
    background: B,
) -> bool {
    forall|x: int, yr: int|
        0 <= x < w && 0 <= yr < ch ==> #[trigger] out[local_index(w, x, yr)] == (if p.area_spec().has_point(
            x,
            cy + yr,
        ) && local_index(p.area_spec().size.width, x - p.area_spec().left(), cy + yr - itop) < done {
            partition_pixel(p, x, cy + yr)
        } else {
            screen_pixel(parts, i, x, cy + yr, background)
        })
}

/// Where the flush loop stands, and what it does next.
#[derive(Clone, Copy, Debug, PartialEq, Eq, Structural)]
pub enum FlushStep {
    /// Wait for the flush interval.
    Sleep,
    /// Decode chunk `n` inside the flush lock and hand it to the sink.
    Chunk(usize),
    /// Call the completion callback inside the flush lock.
    Complete,
    /// Leave the loop.
    Stop,
}

/// A display shared among partitions, each with its own compressed buffer,
/// flushed in full-width chunks `CHUNK_HEIGHT` rows high. The display owns
/// the partitions; apps reach theirs by the index that
/// [`SharedCompressedDisplay::new_partition`] returned.
pub struct SharedCompressedDisplay<const CHUNK_HEIGHT: usize, B> {
    size: Size,
    partition_areas: heapless::Vec<Rectangle, MAX_APPS_PER_SCREEN>,
    partitions: Vec<CompressedDisplayPartition<B>>,
}

impl<const CHUNK_HEIGHT: usize, B: Copy + PartialEq> SharedCompressedDisplay<CHUNK_HEIGHT, B> {
    pub closed spec fn size_spec(&self) -> Size {
        self.size
    }

    /// The partitions, in the order they were created.
    pub closed spec fn partitions_spec(&self) -> Seq<CompressedDisplayPartition<B>> {
        self.partitions@
    }

    pub closed spec fn wf(&self) -> bool {
        &&& obeys_concrete_eq::<B>()
        &&& self.size.area() <= u32::MAX
        &&& self.size.width <= i32::MAX
        &&& self.size.height <= i32::MAX
        &&& 0 < CHUNK_HEIGHT
        &&& self.size.height as int % CHUNK_HEIGHT as int == 0
        &&& self.partitions@.len() <= MAX_APPS_PER_SCREEN
        &&& registered_areas(self.partition_areas).len() == self.partitions@.len()
        &&& forall|i: int|
            0 <= i < self.partitions@.len() ==> #[trigger] registered_areas(self.partition_areas)[i]
                == self.partitions@[i].area_spec()
        &&& forall|i: int|
            0 <= i < self.partitions@.len() ==> (#[trigger] self.partitions@[i]).wf() && fits_in(
                self.size,
                self.partitions@[i].area_spec(),
            ) && self.partitions@[i].parent_size_spec() == self.size
        &&& forall|i: int, j: int|
            0 <= i < self.partitions@.len() && 0 <= j < self.partitions@.len() && i != j ==> !overlap(
                #[trigger] self.partitions@[i].area_spec(),
                #[trigger] self.partitions@[j].area_spec(),
            )
    }

    /// A display of `size` with no partition yet. `CHUNK_HEIGHT` must be
    /// positive and divide the height.
    pub fn new(size: Size) -> (r: Self)
        requires
            obeys_concrete_eq::<B>(),
            size.area() <= u32::MAX,
            size.width <= i32::MAX,
            size.height <= i32::MAX,
            0 < CHUNK_HEIGHT,
            size.height as int % CHUNK_HEIGHT as int == 0,
        ensures
            r.wf(),
            r.size_spec() == size,
            r.partitions_spec().len() == 0,
    {
        SharedCompressedDisplay { size, partition_areas: registry_new(), partitions: Vec::new() }
    }

    /// The display's size.
    pub fn size(&self) -> (r: Size)
        ensures
            r == self.size_spec(),
    {
        self.size
    }

    /// Whether the display holds point `p`.
    pub fn contains(&self, p: Point) -> (r: bool)
        ensures
            r == (Rectangle { top_left: Point { x: 0, y: 0 }, size: self.size_spec() }).has_point(
                p.x as int,
                p.y as int,
            ),
    {
        Rectangle::new_at_origin(self.size).contains(p)
    }

    /// Number of partitions.
    pub fn partition_count(&self) -> (r: usize)
        requires
            self.wf(),
        ensures
            r == self.partitions_spec().len(),
    {
        registry_len(&self.partition_areas)
    }

    /// Partition `id`.
    pub fn partition(&self, id: usize) -> (r: &CompressedDisplayPartition<B>)
        requires
            id < self.partitions_spec().len(),
        ensures
            *r == self.partitions_spec()[id as int],
    {
        &self.partitions[id]
    }

    /// Creates a partition for `area`, every pixel set to `fill`, and
    /// returns its index. The rectangle must lie on the display, share no
    /// point with another partition, be at least 8 pixels wide and have a
    /// width that is a multiple of 8; the first of these that fails is the
    /// error.
    pub fn new_partition(&mut self, area: Rectangle, fill: B) -> (r: Result<usize, NewPartitionError>)
        requires
            old(self).wf(),
            old(self).partitions_spec().len() < MAX_APPS_PER_SCREEN,
        ensures
            final(self).wf(),
            final(self).size_spec() == old(self).size_spec(),
            !fits_in(old(self).size_spec(), area) <==> r == Err::<usize, _>(NewPartitionError::OutsideParent),
            fits_in(old(self).size_spec(), area) && (exists|i: int|
                0 <= i < old(self).partitions_spec().len() && overlap(
                    #[trigger] old(self).partitions_spec()[i].area_spec(),
                    area,
                )) <==> r == Err::<usize, _>(NewPartitionError::Overlaps),
            r is Ok || r == Err::<usize, _>(NewPartitionError::TooSmall) || r == Err::<usize, _>(
                NewPartitionError::BadWidth,
            ) ==> fits_in(old(self).size_spec(), area) && !(exists|i: int|
                0 <= i < old(self).partitions_spec().len() && overlap(
                    #[trigger] old(self).partitions_spec()[i].area_spec(),
                    area,
                )),
            r == Err::<usize, _>(NewPartitionError::TooSmall) <==> (fits_in(old(self).size_spec(), area)
                && !(r == Err::<usize, _>(NewPartitionError::Overlaps)) && area.size.width < 8),
            r == Err::<usize, _>(NewPartitionError::BadWidth) <==> (fits_in(old(self).size_spec(), area)
                && !(r == Err::<usize, _>(NewPartitionError::Overlaps)) && area.size.width >= 8
                && area.size.width % 8 != 0),
            r is Err ==> final(self).partitions_spec() == old(self).partitions_spec(),
            r matches Ok(id) ==> {
                &&& id == old(self).partitions_spec().len()
                &&& final(self).partitions_spec().len() == id + 1
                &&& final(self).partitions_spec().take(id as int) == old(self).partitions_spec()
                &&& final(self).partitions_spec()[id as int].area_spec() == area
                &&& final(self).partitions_spec()[id as int].decoded() == repeat(fill, area.size.area())
            },
    {
        let x = area.top_left.x as i64;
        let y = area.top_left.y as i64;
        let sw = self.size.width as i64;
        let sh = self.size.height as i64;
        let corner_inside = 0 <= x && x < sw && 0 <= y && y < sh;
        let inside = if area.is_zero_sized() {
            corner_inside
        } else {
            corner_inside && x + area.size.width as i64 <= sw && y + area.size.height as i64 <= sh
        };
        if !inside {
            return Err(NewPartitionError::OutsideParent);
        }
        let n = registry_len(&self.partition_areas);
        let mut i: usize = 0;
        while i < n
            invariant
                self.wf(),
                self == old(self),
                n == self.partitions@.len(),
                fits_in(self.size, area),
                i <= n,
                forall|j: int| 0 <= j < i ==> !overlap(#[trigger] self.partitions@[j].area_spec(), area),
            decreases n - i,
        {
            let p = registry_get(&self.partition_areas, i);
            let common = p.intersection(&area);
            if !common.is_zero_sized() {
                proof {
                    assert(common.has_point(common.left(), common.top()));
                    assert(p == self.partitions@[i as int].area_spec());
                    assert(overlap(old(self).partitions_spec()[i as int].area_spec(), area));
                }
                return Err(NewPartitionError::Overlaps);
            }
            proof {
                assert forall|x: int, y: int| !(p.has_point(x, y) && area.has_point(x, y)) by {
                    if p.has_point(x, y) && area.has_point(x, y) {
                        assert(common.has_point(x, y));
                    }
                }
            }
            i = i + 1;
        }
        proof {
            let w = area.size.width as int;
            let h = area.size.height as int;
            let sw = self.size.width as int;
            let sh = self.size.height as int;
            if !area.is_empty() {
                assert(w <= sw && h <= sh);
                assert(w * h <= sw * sh) by (nonlinear_arith)
                    requires 0 < w <= sw, 0 < h <= sh;
            } else {
                assert(w * h == 0) by (nonlinear_arith)
                    requires w == 0 || h == 0;
            }
        }
        let partition = match CompressedDisplayPartition::new(self.size, area, fill) {
            Ok(p) => p,
            Err(e) => {
                return Err(e);
            },
        };
        let ghost old_parts = self.partitions@;
        let _ = registry_push(&mut self.partition_areas, area);
        self.partitions.push(partition);
        proof {
            assert(self.partitions@.take(n as int) =~= old_parts);
            assert forall|i: int, j: int|
                0 <= i < self.partitions@.len() && 0 <= j < self.partitions@.len() && i != j implies !overlap(
                #[trigger] self.partitions@[i].area_spec(),
                #[trigger] self.partitions@[j].area_spec(),
            ) by {
                if j == n && i < n {
                    assert(!overlap(self.partitions@[i].area_spec(), area));
                } else if i == n && j < n {
                    assert(!overlap(self.partitions@[j].area_spec(), area));
                    if overlap(self.partitions@[i].area_spec(), self.partitions@[j].area_spec()) {
                        let (x, y) = choose|x: int, y: int| self.partitions@[i].area_spec().has_point(x, y)
                            && self.partitions@[j].area_spec().has_point(x, y);
                        assert(overlap(self.partitions@[j].area_spec(), area));
                    }
                }
            }
        }
        Ok(n)
    }

    /// Draws `pixels` into partition `id` (see
    /// [`CompressedDisplayPartition::draw_iter`]); no other partition changes.
    pub fn draw_iter(&mut self, id: usize, pixels: &Vec<(Point, B)>)
        requires
            old(self).wf(),
            id < old(self).partitions_spec().len(),
        ensures
            final(self).wf(),
            final(self).size_spec() == old(self).size_spec(),
            final(self).partitions_spec().len() == old(self).partitions_spec().len(),
            forall|j: int|
                0 <= j < old(self).partitions_spec().len() && j != id ==> #[trigger] final(self).partitions_spec()[j]
                    == old(self).partitions_spec()[j],
            final(self).partitions_spec()[id as int].area_spec() == old(self).partitions_spec()[id as int].area_spec(),
            final(self).partitions_spec()[id as int].decoded() == draw_spec(
                old(self).partitions_spec()[id as int].decoded(),
                old(self).partitions_spec()[id as int].area_spec().size,
                pixels@,
            ),
    {
        self.partitions[id].draw_iter(pixels);
        proof {
            self.lemma_one_changed(*old(self), id as int);
        }
    }

    /// Fills `area`, relative to partition `id`, with `color` (see
    /// [`CompressedDisplayPartition::fill_solid`]); no other partition
    /// changes.
    pub fn fill_solid(&mut self, id: usize, area: &Rectangle, color: B)
        requires
            old(self).wf(),
            id < old(self).partitions_spec().len(),
        ensures
            final(self).wf(),
            final(self).size_spec() == old(self).size_spec(),
            final(self).partitions_spec().len() == old(self).partitions_spec().len(),
            forall|j: int|
                0 <= j < old(self).partitions_spec().len() && j != id ==> #[trigger] final(self).partitions_spec()[j]
                    == old(self).partitions_spec()[j],
            final(self).partitions_spec()[id as int].area_spec() == old(self).partitions_spec()[id as int].area_spec(),
            final(self).partitions_spec()[id as int].decoded() == fill_spec(
                old(self).partitions_spec()[id as int].decoded(),
                old(self).partitions_spec()[id as int].area_spec().size.width,
                *area,
                color,
            ),
    {
        self.partitions[id].fill_solid(area, color);
        proof {
            self.lemma_one_changed(*old(self), id as int);
        }
    }

    /// Sets every pixel of partition `id` to `color`; no other partition
    /// changes.
    pub fn clear(&mut self, id: usize, color: B)
        requires
            old(self).wf(),
            id < old(self).partitions_spec().len(),
        ensures
            final(self).wf(),
            final(self).size_spec() == old(self).size_spec(),
            final(self).partitions_spec().len() == old(self).partitions_spec().len(),
            forall|j: int|
                0 <= j < old(self).partitions_spec().len() && j != id ==> #[trigger] final(self).partitions_spec()[j]
                    == old(self).partitions_spec()[j],
            final(self).partitions_spec()[id as int].area_spec() == old(self).partitions_spec()[id as int].area_spec(),
            final(self).partitions_spec()[id as int].decoded() == repeat(
                color,
                old(self).partitions_spec()[id as int].area_spec().size.area(),
            ),
            final(self).partitions_spec()[id as int].buffer_spec().runs_spec() == fill_runs(
                color,
                old(self).partitions_spec()[id as int].area_spec().size.area(),
            ),
    {
        self.partitions[id].clear(color);
        proof {
            self.lemma_one_changed(*old(self), id as int);
        }
    }

    /// Changing one partition's pixels, and nothing else, keeps the display
    /// well formed.
    proof fn lemma_one_changed(&self, before: Self, id: int)
        requires
            before.wf(),
            0 <= id < before.partitions@.len(),
            self.size == before.size,
            self.partition_areas == before.partition_areas,
            self.partitions@.len() == before.partitions@.len(),
            forall|j: int| 0 <= j < before.partitions@.len() && j != id ==> self.partitions@[j] == before.partitions@[j],
            self.partitions@[id].wf(),
            self.partitions@[id].area_spec() == before.partitions@[id].area_spec(),
            self.partitions@[id].parent_size_spec() == before.partitions@[id].parent_size_spec(),
        ensures
            self.wf(),
    {
        assert forall|i: int| 0 <= i < self.partitions@.len() implies #[trigger] self.partitions@[i].area_spec()
            == before.partitions@[i].area_spec() by {
        }
    }

    /// Number of chunks that a flush sends.
    pub fn num_chunks(&self) -> (r: usize)
        requires
            self.wf(),
        ensures
            r == self.size_spec().height as int / CHUNK_HEIGHT as int,
    {
        self.size.height as usize / CHUNK_HEIGHT
    }

    /// The rectangle of chunk `chunk`: the full width of the display, rows
    /// `chunk * CHUNK_HEIGHT` up to the next chunk.
    pub fn chunk_area(&self, chunk: usize) -> (r: Rectangle)
        requires
            self.wf(),
            chunk < self.size_spec().height as int / CHUNK_HEIGHT as int,
        ensures
            r.top_left == (Point { x: 0, y: (chunk * CHUNK_HEIGHT) as i32 }),
            r.size == (Size { width: self.size_spec().width, height: CHUNK_HEIGHT as u32 }),
            r.top() == chunk * CHUNK_HEIGHT,
            r.size.height == CHUNK_HEIGHT,
            chunk * CHUNK_HEIGHT + CHUNK_HEIGHT <= self.size_spec().height,
    {
        let h = self.size.height as usize;
        proof {
            let c = chunk as int;
            let ch = CHUNK_HEIGHT as int;
            let hh = h as int;
            vstd::arithmetic::div_mod::lemma_fundamental_div_mod(hh, ch);
            assert((c + 1) * ch <= hh) by (nonlinear_arith)
                requires c < hh / ch, hh == ch * (hh / ch) + hh % ch, hh % ch == 0, ch > 0;
            assert(c * ch + ch <= hh) by (nonlinear_arith)
                requires (c + 1) * ch <= hh;
        }
        Rectangle::new(Point::new(0, (chunk * CHUNK_HEIGHT) as i32), Size::new(self.size.width, CHUNK_HEIGHT as u32))
    }

    /// Decodes chunk `chunk` of the screen, row by row: each pixel as the
    /// partition that covers it holds it, `background` where none does.
    /// Only the part of each partition that lies in the chunk is decoded.
    pub fn decompress_chunk(&self, chunk: usize, background: B) -> (r: Vec<B>)
        requires
            self.wf(),
            chunk < self.size_spec().height as int / CHUNK_HEIGHT as int,
        ensures
            r@.len() == self.size_spec().width * CHUNK_HEIGHT,
            forall|x: int, yr: int|
                0 <= x < self.size_spec().width && 0 <= yr < CHUNK_HEIGHT ==> #[trigger] r@[local_index(
                    self.size_spec().width,
                    x,
                    yr,
                )] == screen_pixel(
                    self.partitions_spec(),
                    self.partitions_spec().len() as int,
                    x,
                    chunk * CHUNK_HEIGHT + yr,
                    background,
                ),
    {
        let chunk_area = self.chunk_area(chunk);
        let w = self.size.width as usize;
        let cy: usize = chunk * CHUNK_HEIGHT;
        let ghost wi = w as int;
        let ghost wu: u32 = self.size.width;
        let ghost chi = CHUNK_HEIGHT as int;
        let ghost cyi = cy as int;
        let ghost parts = self.partitions@;
        proof {
            assert(wi * chi <= wi * (self.size.height as int)) by (nonlinear_arith)
                requires chi <= self.size.height, wi >= 0;
        }
        let total: usize = w * CHUNK_HEIGHT;
        let mut out: Vec<B> = Vec::new();
        let mut k: usize = 0;
        while k < total
            invariant
                k <= total,
                out@ == Seq::new(k as nat, |_j: int| background),
            decreases total - k,
        {
            out.push(background);
            k = k + 1;
            assert(out@ =~= Seq::new(k as nat, |_j: int| background));
        }
        proof {
            assert forall|x: int, yr: int| 0 <= x < wi && 0 <= yr < chi implies #[trigger] out@[local_index(wu,
                x,
                yr,
            )] == screen_pixel(parts, 0, x, cyi + yr, background) by {
                lemma_index_bound(wi, chi, x, yr);
            }
        }
        let n = self.partitions.len();
        let mut i: usize = 0;
        while i < n
            invariant
                self.wf(),
                parts == self.partitions@,
                n == parts.len(),
                i <= n,
                chunk_area.top() == cyi,
                chunk_area.left() == 0,
                chunk_area.size.width == wi,
                chunk_area.size.height == chi,
                cyi + chi <= self.size.height,
                cyi == cy,
                wi == self.size.width,
                wi == w,
                wu == self.size.width,
                chi == CHUNK_HEIGHT,
                total == wi * chi,
                total <= u32::MAX,
                out@.len() == total,
                forall|x: int, yr: int|
                    0 <= x < wi && 0 <= yr < chi ==> #[trigger] out@[local_index(wu, x, yr)]
                        == screen_pixel(parts, i as int, x, cyi + yr, background),
            decreases n - i,
        {
            let p = &self.partitions[i];
            let a = p.bounding_box();
            let inter = a.intersection(&chunk_area);
            if inter.is_zero_sized() {
                proof {
                    assert forall|x: int, yr: int| 0 <= x < wi && 0 <= yr < chi implies #[trigger] out@[local_index(wu,
                        x,
                        yr,
                    )] == screen_pixel(parts, i + 1, x, cyi + yr, background) by {
                        if a.has_point(x, cyi + yr) {
                            assert(chunk_area.has_point(x, cyi + yr));
                            assert(inter.has_point(x, cyi + yr));
                        }
                    }
                }
                i = i + 1;
                continue;
            }
            let ghost before = out@;
            let ghost pp = *p;
            let aw = a.size.width as usize;
            let ax = a.top_left.x as usize;
            let ghost awi = aw as int;
            let ghost ahi = a.size.height as int;
            let ghost itop = inter.top();
            proof {
                p.buffer_spec().lemma_decoded_len();
                assert(a.left() >= 0 && a.right() <= wi);
                assert(inter.left() == a.left() && inter.size.width == aw);
                assert(itop >= a.top() && itop >= cyi);
                assert(inter.bottom() <= a.bottom() && inter.bottom() <= cyi + chi);
            }
            let rows_above: usize = (inter.top_left.y as i64 - a.top_left.y as i64) as usize;
            proof {
                assert(cyi <= i32::MAX);
            }
            let row0: usize = (inter.top_left.y as i64 - cy as i64) as usize;
            let ih = inter.size.height as usize;
            proof {
                assert(rows_above * awi < ahi * awi) by (nonlinear_arith)
                    requires rows_above < ahi, awi > 0;
                assert(ahi * awi == awi * ahi) by (nonlinear_arith);
                assert(pp.decoded().len() == awi * ahi);
            }
            let skip: usize = rows_above * aw;
            let mut it = DecompressingIter::new(p.buffer());
            if skip > 0 {
                let _ = it.nth(skip - 1);
            }
            proof {
                assert forall|x: int, yr: int| 0 <= x < wi && 0 <= yr < chi implies #[trigger] out@[local_index(wu,
                    x,
                    yr,
                )] == (if a.has_point(x, cyi + yr) && local_index(a.size.width, x - a.left(), cyi + yr - itop) < 0 {
                    partition_pixel(pp, x, cyi + yr)
                } else {
                    screen_pixel(parts, i as int, x, cyi + yr, background)
                }) by {
                    if a.has_point(x, cyi + yr) {
                        assert(0 <= local_index(a.size.width, x - a.left(), cyi + yr - itop)) by (nonlinear_arith)
                            requires 0 <= x - a.left(), 0 <= cyi + yr - itop, a.size.width >= 0;
                    }
                }
            }
            let mut row: usize = 0;
            while row < ih
                invariant
                    self.wf(),
                    parts == self.partitions@,
                    n == parts.len(),
                    i < n,
                    pp == parts[i as int],
                    a == pp.area_spec(),
                    pp.wf(),
                    pp.decoded().len() == awi * ahi,
                    ahi * awi <= u32::MAX,
                    awi == a.size.width,
                    awi == aw,
                    awi >= 8,
                    ahi == a.size.height,
                    ax == a.left(),
                    a.left() >= 0,
                    a.right() <= wi,
                    itop == a.top() + rows_above,
                    itop == cyi + row0,
                    rows_above + ih <= ahi,
                    row0 + ih <= chi,
                    itop >= cyi,
                    itop >= a.top(),
                    itop == a.top() || itop == cyi,
                    itop + ih == a.bottom() || itop + ih == cyi + chi,
                    itop + ih <= a.bottom(),
                    itop + ih <= cyi + chi,
                    wi == self.size.width,
                    wi == w,
                    wu == self.size.width,
                    cyi == cy,
                    chi == CHUNK_HEIGHT,
                    total == wi * chi,
                    out@.len() == total,
                    it.wf(),
                    it.source() == pp.decoded(),
                    it.position() == (rows_above + row) * awi,
                    row <= ih,
                    chunk_progress(out@, parts, i as int, pp, wu, chi, cyi, itop, row * awi, background),
                decreases ih - row,
            {
                proof {
                    assert((row0 + row) * wi + ax + awi <= total) by (nonlinear_arith)
                        requires ax + awi <= wi, row0 + row < chi, total == wi * chi;
                }
                let base: usize = (row0 + row) * w + ax;
                let mut col: usize = 0;
                while col < aw
                    invariant
                        parts == self.partitions@,
                        i < n,
                        n == parts.len(),
                        pp == parts[i as int],
                        a == pp.area_spec(),
                        pp.decoded().len() == awi * ahi,
                        awi == a.size.width,
                        awi == aw,
                        ahi == a.size.height,
                        ax == a.left(),
                        a.left() >= 0,
                        a.right() <= wi,
                        itop == a.top() + rows_above,
                        itop == cyi + row0,
                        rows_above + ih <= ahi,
                        row0 + ih <= chi,
                        row < ih,
                        base == (row0 + row) * wi + ax,
                        base + awi <= total,
                        wi == self.size.width,
                        wi == w,
                        wu == self.size.width,
                        chi == CHUNK_HEIGHT,
                        cyi == cy,
                        out@.len() == total,
                        total == wi * chi,
                        it.wf(),
                        it.source() == pp.decoded(),
                        it.position() == (rows_above + row) * awi + col,
                        col <= aw,
                        chunk_progress(out@, parts, i as int, pp, wu, chi, cyi, itop, row * awi + col, background),
                    decreases aw - col,
                {
                    let ghost pos = it.position();
                    let ghost x0 = ax + col;
                    let ghost yr0 = row0 + row;
                    proof {
                        assert(pos < awi * ahi) by (nonlinear_arith)
                            requires pos == (rows_above + row) * awi + col, col < awi, rows_above + row < ahi;
                        assert(pos == local_index(a.size.width, x0 - a.left(), cyi + yr0 - a.top())) by (nonlinear_arith)
                            requires pos == (rows_above + row) * awi + col, x0 - a.left() == col,
                                cyi + yr0 - a.top() == rows_above + row, awi == a.size.width;
                        assert(local_index(a.size.width, x0 - a.left(), cyi + yr0 - itop) == row * awi + col) by (nonlinear_arith)
                            requires x0 - a.left() == col, cyi + yr0 - itop == row, awi == a.size.width;
                        assert(base + col == local_index(wu, x0, yr0)) by (nonlinear_arith)
                            requires base == (row0 + row) * wi + ax, x0 == ax + col, yr0 == row0 + row, wi == wu;
                    }
                    match it.next() {
                        Some(v) => {
                            let ghost prev = out@;
                            out.set(base + col, v);
                            proof {
                                assert(v == partition_pixel(pp, x0, cyi + yr0));
                                assert forall|x: int, yr: int| 0 <= x < wi && 0 <= yr < chi implies #[trigger] out@[local_index(wu,
                                    x,
                                    yr,
                                )] == (if a.has_point(x, cyi + yr) && local_index(a.size.width, x - a.left(), cyi + yr - itop)
                                    < row * awi + col + 1 {
                                    partition_pixel(pp, x, cyi + yr)
                                } else {
                                    screen_pixel(parts, i as int, x, cyi + yr, background)
                                }) by {
                                    lemma_index_bound(wi, chi, x, yr);
                                    assert(prev[local_index(wu, x, yr)] == (if a.has_point(x, cyi + yr) && local_index(a.size.width, x - a.left(), cyi + yr - itop)
                                        < row * awi + col {
                                        partition_pixel(pp, x, cyi + yr)
                                    } else {
                                        screen_pixel(parts, i as int, x, cyi + yr, background)
                                    }));
                                    if x == x0 && yr == yr0 {
                                        assert(a.has_point(x, cyi + yr));
                                    } else {
                                        if local_index(wu, x, yr) == local_index(wu, x0, yr0) {
                                            lemma_index_unique(wi, x, yr, x0, yr0);
                                        }
                                        if a.has_point(x, cyi + yr) && local_index(a.size.width, x - a.left(), cyi + yr - itop)
                                            == row * awi + col {
                                            lemma_index_unique(awi, x - a.left(), cyi + yr - itop, col as int, row as int);
                                        }
                                    }
                                }
                            }
                        },
                        None => {},
                    }
                    col = col + 1;
                }
                row = row + 1;
                proof {
                    assert(row * awi == (row - 1) * awi + awi) by (nonlinear_arith);
                    assert((rows_above + row) * awi == (rows_above + row - 1) * awi + awi) by (nonlinear_arith);
                }
            }
            proof {
                assert forall|x: int, yr: int| 0 <= x < wi && 0 <= yr < chi implies #[trigger] out@[local_index(wu,
                    x,
                    yr,
                )] == screen_pixel(parts, i + 1, x, cyi + yr, background) by {
                    if a.has_point(x, cyi + yr) {
                        assert(local_index(a.size.width, x - a.left(), cyi + yr - itop) < ih * awi) by (nonlinear_arith)
                            requires 0 <= x - a.left() < awi, 0 <= cyi + yr - itop < ih, awi == a.size.width;
                    }
                }
            }
            i = i + 1;
        }
        out
    }

    /// The partitions of a well-formed display share no point.
    pub proof fn lemma_disjoint(&self)
        requires
            self.wf(),
        ensures
            pairwise_disjoint(self.partitions_spec()),
    {
    }

    /// The step of the flush loop after `done`; `completion` is what the
    /// completion callback returned where `done` is
    /// [`FlushStep::Complete`]. After a sleep a cycle starts only where a
    /// partition exists; the chunks go in order; after the completion the
    /// loop sleeps, or stops where the callback asked for it.
    pub fn next_flush_step(&self, done: FlushStep, completion: FlushResult) -> (r: FlushStep)
        requires
            self.wf(),
        ensures
            done == FlushStep::Sleep ==> r == (if self.partitions_spec().len() == 0 {
                FlushStep::Sleep
            } else if self.size_spec().height as int / CHUNK_HEIGHT as int > 0 {
                FlushStep::Chunk(0)
            } else {
                FlushStep::Complete
            }),
            done matches FlushStep::Chunk(c) ==> r == (if c + 1 < self.size_spec().height as int
                / CHUNK_HEIGHT as int {
                FlushStep::Chunk((c + 1) as usize)
            } else {
                FlushStep::Complete
            }),
            done == FlushStep::Complete ==> r == (if completion == FlushResult::Abort {
                FlushStep::Stop
            } else {
                FlushStep::Sleep
            }),
            done == FlushStep::Stop ==> r == FlushStep::Stop,
    {
        let chunks = self.num_chunks();
        match done {
            FlushStep::Sleep => {
                if self.partitions.len() == 0 {
                    FlushStep::Sleep
                } else if chunks > 0 {
                    FlushStep::Chunk(0)
                } else {
                    FlushStep::Complete
                }
            },
            FlushStep::Chunk(c) => {
                if c < chunks && c + 1 < chunks {
                    FlushStep::Chunk(c + 1)
                } else {
                    FlushStep::Complete
                }
            },
            FlushStep::Complete => match completion {
                FlushResult::Abort => FlushStep::Stop,
                FlushResult::Continue => FlushStep::Sleep,
            },
            FlushStep::Stop => FlushStep::Stop,
        }
    }
}

} // verus!