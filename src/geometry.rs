use vstd::prelude::*;

verus! {

/// A point on the screen or inside a partition.
#[derive(Clone, Copy, Debug, PartialEq, Eq, Structural)]
pub struct Point {
    pub x: i32,
    pub y: i32,
}

/// The width and height of an area, in pixels.
#[derive(Clone, Copy, Debug, PartialEq, Eq, Structural)]
pub struct Size {
    pub width: u32,
    pub height: u32,
}

/// An axis-aligned rectangle: its top-left corner and its size.
#[derive(Clone, Copy, Debug, PartialEq, Eq, Structural)]
pub struct Rectangle {
    pub top_left: Point,
    pub size: Size,
}

impl Point {
    pub fn new(x: i32, y: i32) -> (r: Point)
        ensures
            r.x == x,
            r.y == y,
    {
        Point { x, y }
    }
}

impl Size {
    pub fn new(width: u32, height: u32) -> (r: Size)
        ensures
            r.width == width,
            r.height == height,
    {
        Size { width, height }
    }

    pub fn zero() -> (r: Size)
        ensures
            r.width == 0,
            r.height == 0,
    {
        Size { width: 0, height: 0 }
    }

    /// Number of pixels in an area of this size.
    pub open spec fn area(self) -> nat {
        self.width as nat * self.height as nat
    }
}

impl Rectangle {
    pub open spec fn left(self) -> int {
        self.top_left.x as int
    }

    pub open spec fn top(self) -> int {
        self.top_left.y as int
    }

    /// First column to the right of the rectangle.
    pub open spec fn right(self) -> int {
        self.top_left.x as int + self.size.width as int
    }

    /// First row below the rectangle.
    pub open spec fn bottom(self) -> int {
        self.top_left.y as int + self.size.height as int
    }

    pub open spec fn has_point(self, x: int, y: int) -> bool {
        self.left() <= x < self.right() && self.top() <= y < self.bottom()
    }

    pub open spec fn is_empty(self) -> bool {
        self.size.width == 0 || self.size.height == 0
    }

    /// The rectangle covering exactly the points of both `self` and `o`;
    /// the zero rectangle where they share no point.
    pub open spec fn meet(self, o: Rectangle) -> Rectangle {
        let l = if self.left() >= o.left() { self.top_left.x } else { o.top_left.x };
        let t = if self.top() >= o.top() { self.top_left.y } else { o.top_left.y };
        let r = if self.right() <= o.right() { self.right() } else { o.right() };
        let b = if self.bottom() <= o.bottom() { self.bottom() } else { o.bottom() };
        if l < r && t < b {
            Rectangle {
                top_left: Point { x: l, y: t },
                size: Size { width: (r - l) as u32, height: (b - t) as u32 },
            }
        } else {
            Rectangle { top_left: Point { x: 0, y: 0 }, size: Size { width: 0, height: 0 } }
        }
    }

    pub fn new(top_left: Point, size: Size) -> (r: Rectangle)
        ensures
            r.top_left == top_left,
            r.size == size,
    {
        Rectangle { top_left, size }
    }

    /// The rectangle of the given size whose top-left corner is the origin.
    pub fn new_at_origin(size: Size) -> (r: Rectangle)
        ensures
            r.top_left == (Point { x: 0, y: 0 }),
            r.size == size,
    {
        Rectangle { top_left: Point { x: 0, y: 0 }, size }
    }

    pub fn contains(&self, p: Point) -> (r: bool)
        ensures
            r == self.has_point(p.x as int, p.y as int),
    {
        let px = p.x as i64;
        let py = p.y as i64;
        let l = self.top_left.x as i64;
        let t = self.top_left.y as i64;
        l <= px && px < l + self.size.width as i64 && t <= py && py < t + self.size.height as i64
    }

    pub fn is_zero_sized(&self) -> (r: bool)
        ensures
            r == self.is_empty(),
    {
        self.size.width == 0 || self.size.height == 0
    }

    /// The common part of two rectangles.
    pub fn intersection(&self, o: &Rectangle) -> (r: Rectangle)
        ensures
            r == self.meet(*o),
            forall|x: int, y: int| r.has_point(x, y) <==> (self.has_point(x, y) && o.has_point(x, y)),
    {
        let l = if self.top_left.x >= o.top_left.x { self.top_left.x } else { o.top_left.x };
        let t = if self.top_left.y >= o.top_left.y { self.top_left.y } else { o.top_left.y };
        let sr = self.top_left.x as i64 + self.size.width as i64;
        let or = o.top_left.x as i64 + o.size.width as i64;
        let sb = self.top_left.y as i64 + self.size.height as i64;
        let ob = o.top_left.y as i64 + o.size.height as i64;
        let r = if sr <= or { sr } else { or };
        let b = if sb <= ob { sb } else { ob };
        if (l as i64) < r && (t as i64) < b {
            Rectangle {
                top_left: Point { x: l, y: t },
                size: Size { width: (r - l as i64) as u32, height: (b - t as i64) as u32 },
            }
        } else {
            Rectangle { top_left: Point { x: 0, y: 0 }, size: Size { width: 0, height: 0 } }
        }
    }
}

} // verus!
