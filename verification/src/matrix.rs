//! Dense two-dimensional grid of `i32` cells addressed by *logical*
//! coordinates that start at -1: cell `(x, y)` lives at physical offset
//! `(x + 1, y + 1)` of a flat row-major buffer. The -1 border lets the
//! distance computation keep sentinel cells below and to the left of the
//! ordinary dynamic-programming table.

use vstd::prelude::*;

verus! {

/// A `width * height` grid of `i32` values, zero-filled on construction.
/// Logical x ranges over `[-1, width - 2]` and logical y over
/// `[-1, height - 2]`.
pub struct Matrix {
    width: i32,
    height: i32,
    data: Vec<i32>,
}

impl Matrix {
    /// Physical width of the backing buffer.
    pub closed spec fn width(self) -> int {
        self.width as int
    }

    /// Physical height of the backing buffer.
    pub closed spec fn height(self) -> int {
        self.height as int
    }

    /// Well-formed: positive dimensions, a backing buffer of exactly
    /// `width * height` cells, and a cell count small enough that every
    /// physical index fits in `i32`.
    pub closed spec fn wf(self) -> bool {
        &&& 1 <= self.width
        &&& 1 <= self.height
        &&& self.width * self.height <= i32::MAX
        &&& self.data@.len() == self.width * self.height
    }

    /// The value stored at logical coordinates `(x, y)`.
    pub closed spec fn cell(self, x: int, y: int) -> int {
        self.data@[self.width * (y + 1) + (x + 1)] as int
    }

    proof fn lemma_index_in_range(self, x: int, y: int)
        requires
            self.wf(),
            -1 <= x <= self.width() - 2,
            -1 <= y <= self.height() - 2,
        ensures
            0 <= self.width() * (y + 1),
            self.width() * (y + 1) + (x + 1) < self.width() * self.height(),
    {
        let w = self.width();
        let h = self.height();
        assert(0 <= w * (y + 1) && w * (y + 1) <= w * (h - 1)) by (nonlinear_arith)
            requires
                1 <= w,
                0 <= y + 1 <= h - 1,
        ;
        assert(w * (h - 1) + w == w * h) by (nonlinear_arith);
    }

    proof fn lemma_index_injective(self, x1: int, y1: int, x2: int, y2: int)
        requires
            self.wf(),
            -1 <= x1 <= self.width() - 2,
            -1 <= y1 <= self.height() - 2,
            -1 <= x2 <= self.width() - 2,
            -1 <= y2 <= self.height() - 2,
            x1 != x2 || y1 != y2,
        ensures
            self.width() * (y1 + 1) + (x1 + 1) != self.width() * (y2 + 1) + (x2 + 1),
    {
        let w = self.width();
        if y1 != y2 {
            assert(w * (y1 + 1) + (x1 + 1) != w * (y2 + 1) + (x2 + 1)) by (nonlinear_arith)
                requires
                    1 <= w,
                    y1 != y2,
                    0 <= x1 + 1 < w,
                    0 <= x2 + 1 < w,
            ;
        }
    }

    /// A zero-filled grid with the given physical dimensions.
    pub fn new(width: i32, height: i32) -> (m: Matrix)
        requires
            1 <= width,
            1 <= height,
            width * height <= i32::MAX,
        ensures
            m.wf(),
            m.width() == width,
            m.height() == height,
            forall|x: int, y: int|
                -1 <= x <= width - 2 && -1 <= y <= height - 2 ==> m.cell(x, y) == 0,
    {
        let total: usize = (width as usize) * (height as usize);
        let mut data: Vec<i32> = Vec::new();
        let mut filled: usize = 0;
        while filled < total
            invariant
                filled <= total,
                data@.len() == filled,
                forall|q: int| 0 <= q < filled ==> data@[q] == 0,
            decreases total - filled,
        {
            data.push(0);
            filled = filled + 1;
        }
        let m = Matrix { width, height, data };
        proof {
            assert forall|x: int, y: int|
                -1 <= x <= width - 2 && -1 <= y <= height - 2 implies m.cell(x, y) == 0 by {
                m.lemma_index_in_range(x, y);
            }
        }
        m
    }

    /// Read the cell at logical coordinates `(x, y)`.
    pub fn get(&self, x: i32, y: i32) -> (r: i32)
        requires
            self.wf(),
            -1 <= x <= self.width() - 2,
            -1 <= y <= self.height() - 2,
        ensures
            r == self.cell(x as int, y as int),
    {
        proof {
            self.lemma_index_in_range(x as int, y as int);
        }
        let idx: i32 = self.width * (y + 1) + (x + 1);
        self.data[idx as usize]
    }

    /// Write `value` to the cell at logical coordinates `(x, y)`; every other
    /// cell keeps its previous value.
    pub fn set(&mut self, x: i32, y: i32, value: i32)
        requires
            old(self).wf(),
            -1 <= x <= old(self).width() - 2,
            -1 <= y <= old(self).height() - 2,
        ensures
            final(self).wf(),
            final(self).width() == old(self).width(),
            final(self).height() == old(self).height(),
            final(self).cell(x as int, y as int) == value,
            forall|x2: int, y2: int|
                -1 <= x2 <= old(self).width() - 2 && -1 <= y2 <= old(self).height() - 2
                    && !(x2 == x && y2 == y) ==> final(self).cell(x2, y2) == old(self).cell(x2, y2),
    {
        proof {
            self.lemma_index_in_range(x as int, y as int);
        }
        let idx: i32 = self.width * (y + 1) + (x + 1);
        self.data[idx as usize] = value;
        proof {
            assert forall|x2: int, y2: int|
                -1 <= x2 <= old(self).width() - 2 && -1 <= y2 <= old(self).height() - 2
                    && !(x2 == x && y2 == y) implies self.cell(x2, y2) == old(self).cell(
                x2,
                y2,
            ) by {
                old(self).lemma_index_in_range(x2, y2);
                old(self).lemma_index_injective(x2, y2, x as int, y as int);
            }
        }
    }
}

} // verus!
