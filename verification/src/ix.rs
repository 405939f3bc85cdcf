//! Two-dimensional indices bound to a grid size, with checked stepping to
//! neighbouring cells, and a rectangular board addressed by them.

use vstd::prelude::*;

verus! {

/// A position on a `w` by `h` grid, guaranteed in bounds.
#[derive(Debug, Copy, Clone, PartialEq, Eq, Structural)]
pub struct Ix2 {
    /// Column.
    pub x: usize,
    /// Row.
    pub y: usize,
    /// Grid width.
    pub w: usize,
    /// Grid height.
    pub h: usize,
}

impl Ix2 {
    /// The grid width this index is bound to.
    pub open spec fn spec_w(self) -> int {
        self.w as int
    }

    /// The grid height this index is bound to.
    pub open spec fn spec_h(self) -> int {
        self.h as int
    }

    /// The position lies on its grid.
    pub open spec fn wf(self) -> bool {
        self.x < self.spec_w() && self.y < self.spec_h()
    }

    /// A position on a `w` by `h` grid; the coordinates must be in
    /// bounds.
    pub fn new(x: i64, y: i64, w: usize, h: usize) -> (r: Ix2)
        requires
            0 <= x < w,
            0 <= y < h,
        ensures
            r.x == x,
            r.y == y,
            r.spec_w() == w,
            r.spec_h() == h,
            r.wf(),
    {
        Ix2 { x: x as usize, y: y as usize, w, h }
    }

    /// A position on a `w` by `h` grid, or nothing when out of bounds.
    pub fn try_new(x: i64, y: i64, w: usize, h: usize) -> (r: Option<Ix2>)
        ensures
            r is Some <==> (0 <= x < w && 0 <= y < h),
            r matches Some(t) ==> t.x == x && t.y == y && t.spec_w() == w && t.spec_h() == h
                && t.wf(),
    {
        if x >= 0 && (x as u64) < (w as u64) && y >= 0 && (y as u64) < (h as u64) {
            Some(Ix2 { x: x as usize, y: y as usize, w, h })
        } else {
            None
        }
    }

    /// Step by an offset, or nothing when the result leaves the grid.
    pub fn try_add(&self, rhs: (i64, i64)) -> (r: Option<Ix2>)
        requires
            self.wf(),
        ensures
            r is Some <==> (0 <= self.x + rhs.0 < self.spec_w() && 0 <= self.y + rhs.1
                < self.spec_h()),
            r matches Some(t) ==> t.x == self.x + rhs.0 && t.y == self.y + rhs.1 && t.spec_w()
                == self.spec_w() && t.spec_h() == self.spec_h() && t.wf(),
    {
        let nx = self.x as i128 + rhs.0 as i128;
        let ny = self.y as i128 + rhs.1 as i128;
        if nx >= 0 && nx < self.w as i128 && ny >= 0 && ny < self.h as i128 {
            Some(Ix2 { x: nx as usize, y: ny as usize, w: self.w, h: self.h })
        } else {
            None
        }
    }

    /// Step backward by an offset, or nothing when the result leaves the
    /// grid.
    pub fn try_sub(&self, rhs: (i64, i64)) -> (r: Option<Ix2>)
        requires
            self.wf(),
        ensures
            r is Some <==> (0 <= self.x - rhs.0 < self.spec_w() && 0 <= self.y - rhs.1
                < self.spec_h()),
            r matches Some(t) ==> t.x == self.x - rhs.0 && t.y == self.y - rhs.1 && t.spec_w()
                == self.spec_w() && t.spec_h() == self.spec_h() && t.wf(),
    {
        let nx = self.x as i128 - rhs.0 as i128;
        let ny = self.y as i128 - rhs.1 as i128;
        if nx >= 0 && nx < self.w as i128 && ny >= 0 && ny < self.h as i128 {
            Some(Ix2 { x: nx as usize, y: ny as usize, w: self.w, h: self.h })
        } else {
            None
        }
    }

    /// The in-bounds cells adjacent horizontally or vertically, in the
    /// order right, left, down, up.
    pub fn neighbor4(&self) -> (r: Vec<Ix2>)
        requires
            self.wf(),
        ensures
            r@ == self.neighbor4_spec(),
    {
        let mut r: Vec<Ix2> = Vec::new();
        if let Some(t) = self.try_add((1, 0)) {
            r.push(t);
        }
        if let Some(t) = self.try_add((-1, 0)) {
            r.push(t);
        }
        if let Some(t) = self.try_add((0, 1)) {
            r.push(t);
        }
        if let Some(t) = self.try_add((0, -1)) {
            r.push(t);
        }
        proof {
            assert(r@ =~= self.neighbor4_spec());
        }
        r
    }

    /// The cell one step along an offset, as a sequence: a singleton when
    /// in bounds and empty otherwise.
    pub open spec fn step_spec(self, dx: int, dy: int) -> Seq<Ix2> {
        if 0 <= self.x + dx < self.spec_w() && 0 <= self.y + dy < self.spec_h() {
            seq![
                Ix2 {
                    x: (self.x + dx) as usize,
                    y: (self.y + dy) as usize,
                    w: (self.spec_w()) as usize,
                    h: (self.spec_h()) as usize,
                },
            ]
        } else {
            Seq::empty()
        }
    }

    /// The four orthogonal neighbours that lie on the grid, in order.
    pub open spec fn neighbor4_spec(self) -> Seq<Ix2> {
        self.step_spec(1, 0) + self.step_spec(-1, 0) + self.step_spec(0, 1) + self.step_spec(
            0,
            -1,
        )
    }

    /// The eight surrounding cells that lie on the grid, in row-major
    /// order of offsets.
    pub open spec fn neighbor8_spec(self) -> Seq<Ix2> {
        self.step_spec(-1, -1) + self.step_spec(-1, 0) + self.step_spec(-1, 1) + self.step_spec(
            0,
            -1,
        ) + self.step_spec(0, 1) + self.step_spec(1, -1) + self.step_spec(1, 0) + self.step_spec(
            1,
            1,
        )
    }

    /// The in-bounds cells adjacent in any direction, diagonals included.
    pub fn neighbor8(&self) -> (r: Vec<Ix2>)
        requires
            self.wf(),
        ensures
            r@ == self.neighbor8_spec(),
    {
        let mut r: Vec<Ix2> = Vec::new();
        if let Some(t) = self.try_add((-1, -1)) {
            r.push(t);
        }
        if let Some(t) = self.try_add((-1, 0)) {
            r.push(t);
        }
        if let Some(t) = self.try_add((-1, 1)) {
            r.push(t);
        }
        if let Some(t) = self.try_add((0, -1)) {
            r.push(t);
        }
        if let Some(t) = self.try_add((0, 1)) {
            r.push(t);
        }
        if let Some(t) = self.try_add((1, -1)) {
            r.push(t);
        }
        if let Some(t) = self.try_add((1, 0)) {
            r.push(t);
        }
        if let Some(t) = self.try_add((1, 1)) {
            r.push(t);
        }
        proof {
            assert(r@ =~= self.neighbor8_spec());
        }
        r
    }
}

/// A rectangular grid of cells, indexed row-first.
#[derive(Debug, Clone)]
pub struct Board<T>(pub Vec<Vec<T>>);

impl<T> Board<T> {
    /// Rows exist and all have the same length.
    pub open spec fn wf(&self) -> bool {
        &&& self.0@.len() >= 1
        &&& forall|r: int|
            0 <= r < self.0@.len() ==> (#[trigger] self.0@[r])@.len() == self.0@[0]@.len()
    }

    /// Wrap a rectangular matrix.
    pub fn new(mat: Vec<Vec<T>>) -> (r: Board<T>)
        requires
            mat@.len() >= 1,
            forall|t: int| 0 <= t < mat@.len() ==> (#[trigger] mat@[t])@.len() == mat@[0]@.len(),
        ensures
            r.wf(),
            r.0 == mat,
    {
        Board(mat)
    }

    /// The common row length.
    pub fn width(&self) -> (r: usize)
        requires
            self.wf(),
        ensures
            r == self.0@[0]@.len(),
    {
        self.0[0].len()
    }

    /// The number of rows.
    pub fn height(&self) -> (r: usize)
        requires
            self.wf(),
        ensures
            r == self.0@.len(),
    {
        self.0.len()
    }

    /// An index bound to this board's dimensions.
    pub fn ix(&self, x: i64, y: i64) -> (r: Ix2)
        requires
            self.wf(),
            0 <= x < self.0@[0]@.len(),
            0 <= y < self.0@.len(),
        ensures
            r.x == x,
            r.y == y,
            r.spec_w() == self.0@[0]@.len(),
            r.spec_h() == self.0@.len(),
            r.wf(),
    {
        let w = self.0[0].len();
        let h = self.0.len();
        Ix2::new(x, y, w, h)
    }

    /// The cell at a coordinate pair, or nothing when out of bounds.
    pub fn get(&self, x: i64, y: i64) -> (r: Option<&T>)
        requires
            self.wf(),
        ensures
            r is Some <==> (0 <= x < self.0@[0]@.len() && 0 <= y < self.0@.len()),
            r matches Some(v) ==> *v == self.0@[y as int]@[x as int],
    {
        let w = self.0[0].len();
        let h = self.0.len();
        if x >= 0 && (x as u64) < (w as u64) && y >= 0 && (y as u64) < (h as u64) {
            Some(&self.0[y as usize][x as usize])
        } else {
            None
        }
    }

    /// Replace the cell at a coordinate pair; the coordinates must be in
    /// bounds.
    pub fn set(&mut self, x: usize, y: usize, v: T)
        requires
            old(self).wf(),
            x < old(self).0@[0]@.len(),
            y < old(self).0@.len(),
        ensures
            final(self).wf(),
            final(self).0@.len() == old(self).0@.len(),
            final(self).0@[y as int]@ == old(self).0@[y as int]@.update(x as int, v),
            forall|r: int|
                0 <= r < old(self).0@.len() && r != y ==> final(self).0@[r] == old(self).0@[r],
    {
        self.0[y][x] = v;
        proof {
            assert(self.0@[y as int]@ =~= old(self).0@[y as int]@.update(x as int, v));
        }
    }
}

impl Board<char> {
    /// The first cell holding `v`, scanning row by row.
    pub fn find(&self, v: char) -> (r: Option<Ix2>)
        requires
            self.wf(),
        ensures
            r matches Some(t) ==> t.wf() && t.spec_w() == self.0@[0]@.len() && t.spec_h()
                == self.0@.len() && self.0@[t.y as int]@[t.x as int] == v,
            r is None ==> forall|yy: int, xx: int|
                0 <= yy < self.0@.len() && 0 <= xx < self.0@[0]@.len() ==> self.0@[yy]@[xx] != v,
    {
        let w = self.0[0].len();
        let h = self.0.len();
        let mut y: usize = 0;
        while y < h
            invariant
                self.wf(),
                w == self.0@[0]@.len(),
                h == self.0@.len(),
                y <= h,
                forall|yy: int, xx: int|
                    0 <= yy < y && 0 <= xx < w ==> self.0@[yy]@[xx] != v,
            decreases h - y,
        {
            let mut x: usize = 0;
            while x < w
                invariant
                    self.wf(),
                    w == self.0@[0]@.len(),
                    h == self.0@.len(),
                    y < h,
                    x <= w,
                    forall|yy: int, xx: int|
                        0 <= yy < y && 0 <= xx < w ==> self.0@[yy]@[xx] != v,
                    forall|xx: int| 0 <= xx < x ==> self.0@[y as int]@[xx] != v,
                decreases w - x,
            {
                if self.0[y][x] == v {
                    return Some(Ix2 { x, y, w, h });
                }
                x = x + 1;
            }
            y = y + 1;
        }
        None
    }
}

} // verus!
