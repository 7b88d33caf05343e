//! One app's rectangle of the screen, with its own compressed buffer.
use vstd::prelude::*;
use vstd::laws_eq::obeys_concrete_eq;
use vstd::arithmetic::div_mod::{lemma_fundamental_div_mod, lemma_fundamental_div_mod_converse};
use crate::geometry::{Point, Rectangle, Size};
use crate::compressed_buffer::CompressedBuffer;
use crate::runs::{fill_runs, fill_span, repeat};

verus! {

/// Why a partition could not be created.
#[derive(Clone, Copy, Debug, PartialEq, Eq, Structural)]
pub enum NewPartitionError {
    /// Overlaps with existing partitions.
    Overlaps,
    /// Area outside the parent display.
    OutsideParent,
    /// Cannot create partitions less than 8 pixels wide.
    TooSmall,
    /// A partition should have width divisible by 8.
    BadWidth,
}

/// Whether `p`, in coordinates relative to a region of `size`, lies inside
/// the region.
pub open spec fn in_region(size: Size, p: Point) -> bool {
    0 <= p.x < size.width && 0 <= p.y < size.height
}

/// Buffer position of column `x`, row `y` in a region `width` wide: the
/// buffer holds the region row by row.
pub open spec fn local_index(width: u32, x: int, y: int) -> int {
    y * width + x
}

/// The elements after drawing `pixels` in order onto `d`, a region of
/// `size`; pixels outside the region are dropped.
pub open spec fn draw_spec<B>(d: Seq<B>, size: Size, pixels: Seq<(Point, B)>) -> Seq<B>
    decreases pixels.len(),
{
    if pixels.len() == 0 {
        d
    } else {
        let before = draw_spec(d, size, pixels.drop_last());
        let (p, v) = pixels.last();
        if in_region(size, p) {
            before.update(local_index(size.width, p.x as int, p.y as int), v)
        } else {
            before
        }
    }
}

/// The elements after setting every position of `d`, a region `width`
/// wide, that lies in `r` to `v`.
pub open spec fn fill_spec<B>(d: Seq<B>, width: u32, r: Rectangle, v: B) -> Seq<B> {
    Seq::new(d.len(), |j: int| if r.has_point(j % width as int, j / width as int) { v } else { d[j] })
}

proof fn lemma_index_in_region(size: Size, x: int, y: int)
    requires
        0 <= x < size.width,
        0 <= y < size.height,
    ensures
        0 <= local_index(size.width, x, y) < size.area(),
        local_index(size.width, x, y) % size.width as int == x,
        local_index(size.width, x, y) / size.width as int == y,
{
    let w = size.width as int;
    let h = size.height as int;
    assert(0 <= y * w + x < w * h) by (nonlinear_arith)
        requires 0 <= x < w, 0 <= y < h;
    lemma_fundamental_div_mod_converse(y * w + x, w, y, x);
}

/// A partition of the screen: a rectangle of the parent display and the
/// compressed buffer that holds its pixels, row by row in coordinates
/// relative to the rectangle.
pub struct CompressedDisplayPartition<B> {
    buffer: CompressedBuffer<B>,
    parent_size: Size,
    area: Rectangle,
}

impl<B: Copy + PartialEq> CompressedDisplayPartition<B> {
    pub closed spec fn area_spec(&self) -> Rectangle {
        self.area
    }

    pub closed spec fn parent_size_spec(&self) -> Size {
        self.parent_size
    }

    pub closed spec fn buffer_spec(&self) -> CompressedBuffer<B> {
        self.buffer
    }

    /// The partition's pixels, row by row.
    pub open spec fn decoded(&self) -> Seq<B> {
        self.buffer_spec().decoded()
    }

    /// The buffer is well formed and sized to the rectangle, which is at
    /// least 8 pixels wide.
    pub open spec fn wf(&self) -> bool {
        &&& self.buffer_spec().wf()
        &&& self.buffer_spec().size_spec() == self.area_spec().size
        &&& self.area_spec().size.width >= 8
    }

    /// Creates a partition for `area` of a parent display of `parent_size`,
    /// every pixel set to `fill`. The rectangle must be at least 8 pixels
    /// wide and its width a multiple of 8.
    pub fn new(parent_size: Size, area: Rectangle, fill: B) -> (r: Result<Self, NewPartitionError>)
        requires
            obeys_concrete_eq::<B>(),
            area.size.area() <= u32::MAX,
        ensures
            area.size.width < 8 <==> r == Err::<Self, _>(NewPartitionError::TooSmall),
            area.size.width >= 8 && area.size.width % 8 != 0 <==> r == Err::<Self, _>(
                NewPartitionError::BadWidth,
            ),
            r is Ok <==> area.size.width >= 8 && area.size.width % 8 == 0,
            r matches Ok(p) ==> {
                &&& p.wf()
                &&& p.area_spec() == area
                &&& p.parent_size_spec() == parent_size
                &&& p.decoded() == repeat(fill, area.size.area())
            },
    {
        if area.size.width < 8 {
            return Err(NewPartitionError::TooSmall);
        }
        if area.size.width % 8 != 0 {
            return Err(NewPartitionError::BadWidth);
        }
        Ok(CompressedDisplayPartition { buffer: CompressedBuffer::new(area.size, fill), parent_size, area })
    }

    /// The partition's rectangle on the parent display.
    pub fn bounding_box(&self) -> (r: Rectangle)
        ensures
            r == self.area_spec(),
    {
        self.area
    }

    /// Size of the parent display.
    pub fn parent_size(&self) -> (r: Size)
        ensures
            r == self.parent_size_spec(),
    {
        self.parent_size
    }

    /// Whether the partition's rectangle holds point `p` of the parent
    /// display.
    pub fn contains(&self, p: Point) -> (r: bool)
        ensures
            r == self.area_spec().has_point(p.x as int, p.y as int),
    {
        self.area.contains(p)
    }

    /// The compressed buffer.
    pub fn buffer(&self) -> (r: &CompressedBuffer<B>)
        ensures
            *r == self.buffer_spec(),
    {
        &self.buffer
    }

    /// Draws `pixels` in order; each point is relative to the partition's
    /// top-left corner, and points outside the partition are dropped.
    pub fn draw_iter(&mut self, pixels: &Vec<(Point, B)>)
        requires
            old(self).wf(),
        ensures
            final(self).wf(),
            final(self).area_spec() == old(self).area_spec(),
            final(self).parent_size_spec() == old(self).parent_size_spec(),
            final(self).decoded() == draw_spec(old(self).decoded(), old(self).area_spec().size, pixels@),
    {
        let size = self.area.size;
        let ghost d0 = self.decoded();
        proof {
            self.buffer.lemma_decoded_len();
        }
        let mut i: usize = 0;
        while i < pixels.len()
            invariant
                self.wf(),
                self.area == old(self).area,
                self.parent_size == old(self).parent_size,
                size == self.area.size,
                i <= pixels@.len(),
                self.decoded() == draw_spec(d0, size, pixels@.take(i as int)),
                self.decoded().len() == size.area(),
            decreases pixels@.len() - i,
        {
            let (p, v) = pixels[i];
            proof {
                assert(pixels@.take(i as int + 1).drop_last() =~= pixels@.take(i as int));
            }
            if 0 <= p.x && (p.x as u32) < size.width && 0 <= p.y && (p.y as u32) < size.height {
                proof {
                    lemma_index_in_region(size, p.x as int, p.y as int);
                }
                let index: usize = (p.y as u32 * size.width + p.x as u32) as usize;
                let _ = self.buffer.set_at_index(index, v);
            }
            i = i + 1;
        }
        proof {
            assert(pixels@.take(i as int) =~= pixels@);
        }
    }

    /// Sets every pixel of `area`, in coordinates relative to the partition,
    /// to `color`; the part of `area` outside the partition is ignored.
    pub fn fill_solid(&mut self, area: &Rectangle, color: B)
        requires
            old(self).wf(),
        ensures
            final(self).wf(),
            final(self).area_spec() == old(self).area_spec(),
            final(self).parent_size_spec() == old(self).parent_size_spec(),
            final(self).decoded() == fill_spec(
                old(self).decoded(),
                old(self).area_spec().size.width,
                *area,
                color,
            ),
    {
        let size = self.area.size;
        let w = size.width;
        let ghost d0 = self.decoded();
        let drawable = Rectangle::new_at_origin(size);
        let r = drawable.intersection(area);
        let ghost wi = w as int;
        let ghost hi = size.height as int;
        proof {
            self.buffer.lemma_decoded_len();
            assert(d0.len() == wi * hi);
            assert forall|j: int| 0 <= j < d0.len() implies (#[trigger] r.has_point(j % wi, j / wi)
                <==> area.has_point(j % wi, j / wi)) by {
                lemma_fundamental_div_mod(j, wi);
                let q = j / wi;
                let m = j % wi;
                assert(0 <= q < hi) by (nonlinear_arith)
                    requires 0 <= j < wi * hi, j == wi * q + m, 0 <= m < wi, wi > 0;
            }
        }
        if r.is_zero_sized() {
            proof {
                assert(fill_spec(d0, w, *area, color) =~= d0);
            }
            return;
        }
        let left = r.top_left.x as u32;
        let width = r.size.width;
        let top = r.top_left.y as u32;
        let bottom = top + r.size.height;
        let mut y: u32 = top;
        while y < bottom
            invariant
                self.wf(),
                self.area == old(self).area,
                self.parent_size == old(self).parent_size,
                size == self.area.size,
                w == size.width,
                w >= 8,
                wi == w,
                hi == size.height,
                d0.len() == size.area(),
                r.left() == left,
                r.top() == top,
                r.size.width == width,
                left + width <= w,
                bottom == r.bottom(),
                bottom <= size.height,
                top <= y <= bottom,
                self.decoded() == Seq::new(
                    d0.len(),
                    |j: int|
                        if r.has_point(j % wi, j / wi) && j / wi < y {
                            color
                        } else {
                            d0[j]
                        },
                ),
            decreases bottom - y,
        {
            let ghost before = self.decoded();
            proof {
                let yi = y as int;
                assert(yi * wi + left + width <= wi * hi) by (nonlinear_arith)
                    requires yi < hi, left + width <= wi;
            }
            let start: usize = (y * w + left) as usize;
            let _ = self.buffer.set_at_index_contiguous(start, color, width as usize);
            proof {
                assert forall|j: int| 0 <= j < d0.len() implies (start <= j < start + width
                    <==> (#[trigger] (j / wi) == y && left <= j % wi < left + width)) by {
                    lemma_fundamental_div_mod(j, wi);
                    if start <= j < start + width {
                        lemma_fundamental_div_mod_converse(j, wi, y as int, j - y * wi);
                    }
                    if j / wi == y && left <= j % wi < left + width {
                        assert(j == y * wi + j % wi) by (nonlinear_arith)
                            requires j == wi * (j / wi) + j % wi, j / wi == y;
                    }
                }
                assert(self.decoded() =~= Seq::new(
                    d0.len(),
                    |j: int|
                        if r.has_point(j % wi, j / wi) && j / wi < y + 1 {
                            color
                        } else {
                            d0[j]
                        },
                ));
            }
            y = y + 1;
        }
        proof {
            assert forall|j: int| 0 <= j < d0.len() && #[trigger] r.has_point(j % wi, j / wi) implies j / wi < y by {
            }
            assert(self.decoded() =~= fill_spec(d0, w, *area, color));
        }
    }

    /// Sets every pixel of the partition to `color`.
    pub fn clear(&mut self, color: B)
        requires
            old(self).wf(),
        ensures
            final(self).wf(),
            final(self).area_spec() == old(self).area_spec(),
            final(self).parent_size_spec() == old(self).parent_size_spec(),
            final(self).decoded() == repeat(color, old(self).area_spec().size.area()),
            final(self).buffer_spec().runs_spec() == fill_runs(color, old(self).area_spec().size.area()),
    {
        self.buffer.clear_and_refill(color);
    }
}

} // verus!
