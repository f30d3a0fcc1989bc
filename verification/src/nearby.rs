//! Cells and their neighbours: on a board that holds a mark and a free
//! cell, some free cell has a mark beside it.

use vstd::prelude::*;
use crate::cells::{lemma_count_full, lemma_count_zero};
use crate::grid::{lemma_join, lemma_split, Grid, EMPTY_MARK};

verus! {

impl Grid {
    /// Cell `i` is a free cell with an occupied cell around it.
    pub open spec fn free_near_mark(self, i: int) -> bool {
        0 <= i < self.cells.len() && self.cells[i] == EMPTY_MARK && self.occupied_near(i)
    }

    /// Down a column from an occupied cell to a free one, some free cell
    /// has an occupied cell above it.
    proof fn lemma_walk_down(self, a: int, m: int) -> (i: int)
        requires
            self.wf(),
            0 <= a,
            1 <= m,
            a + m * self.side < self.cells.len(),
            self.cells[a] != EMPTY_MARK,
            self.cells[a + m * self.side] == EMPTY_MARK,
        ensures
            self.free_near_mark(i),
        decreases m,
    {
        let k = self.side;
        let next = a + k;
        assert((m - 1) * k + k == m * k) by (nonlinear_arith);
        assert((m - 1) * k >= 0) by (nonlinear_arith)
            requires
                m >= 1,
                k >= 0,
        ;
        if self.cells[next] == EMPTY_MARK {
            next
        } else {
            if m == 1 {
                assert(m * k == k) by (nonlinear_arith)
                    requires
                        m == 1,
                ;
            }
            self.lemma_walk_down(next, m - 1)
        }
    }

    /// Up a column from an occupied cell to a free one, some free cell has
    /// an occupied cell below it.
    proof fn lemma_walk_up(self, a: int, m: int) -> (i: int)
        requires
            self.wf(),
            a < self.cells.len(),
            1 <= m,
            0 <= a - m * self.side,
            self.cells[a] != EMPTY_MARK,
            self.cells[a - m * self.side] == EMPTY_MARK,
        ensures
            self.free_near_mark(i),
        decreases m,
    {
        let k = self.side;
        let next = a - k;
        assert((m - 1) * k + k == m * k) by (nonlinear_arith);
        assert((m - 1) * k >= 0) by (nonlinear_arith)
            requires
                m >= 1,
                k >= 0,
        ;
        if self.cells[next] == EMPTY_MARK {
            next
        } else {
            if m == 1 {
                assert(m * k == k) by (nonlinear_arith)
                    requires
                        m == 1,
                ;
            }
            self.lemma_walk_up(next, m - 1)
        }
    }

    /// Along a row to the right from an occupied cell to a free one, some
    /// free cell has an occupied cell to its left.
    proof fn lemma_walk_right(self, a: int, m: int) -> (i: int)
        requires
            self.wf(),
            0 <= a < self.cells.len(),
            1 <= m,
            a % self.side + m < self.side,
            self.cells[a] != EMPTY_MARK,
            self.cells[a + m] == EMPTY_MARK,
        ensures
            self.free_near_mark(i),
        decreases m,
    {
        let k = self.side;
        let next = a + 1;
        lemma_split(a, k, k);
        lemma_join(a / k, a % k + 1, k, k);
        if self.cells[next] == EMPTY_MARK {
            next
        } else {
            self.lemma_walk_right(next, m - 1)
        }
    }

    /// Along a row to the left from an occupied cell to a free one, some
    /// free cell has an occupied cell to its right.
    proof fn lemma_walk_left(self, a: int, m: int) -> (i: int)
        requires
            self.wf(),
            0 <= a < self.cells.len(),
            1 <= m,
            0 <= a % self.side - m,
            self.cells[a] != EMPTY_MARK,
            self.cells[a - m] == EMPTY_MARK,
        ensures
            self.free_near_mark(i),
        decreases m,
    {
        let k = self.side;
        let next = a - 1;
        lemma_split(a, k, k);
        lemma_join(a / k, a % k - 1, k, k);
        if self.cells[next] == EMPTY_MARK {
            next
        } else {
            self.lemma_walk_left(next, m - 1)
        }
    }

    /// On a board with an occupied cell and a free cell, some free cell has
    /// an occupied cell around it.
    pub proof fn lemma_free_near_mark(self, occupied: int, free: int) -> (i: int)
        requires
            self.wf(),
            0 <= occupied < self.cells.len(),
            0 <= free < self.cells.len(),
            self.cells[occupied] != EMPTY_MARK,
            self.cells[free] == EMPTY_MARK,
        ensures
            self.free_near_mark(i),
    {
        let k = self.side;
        lemma_split(occupied, k, k);
        lemma_split(free, k, k);
        let ro = occupied / k;
        let co = occupied % k;
        let re = free / k;
        let ce = free % k;
        let turn = re * k + co;
        lemma_join(re, co, k, k);
        if self.cells[turn] != EMPTY_MARK {
            if ce > co {
                self.lemma_walk_right(turn, ce - co)
            } else {
                self.lemma_walk_left(turn, co - ce)
            }
        } else {
            assert((re - ro) * k == re * k - ro * k) by (nonlinear_arith);
            assert((ro - re) * k == ro * k - re * k) by (nonlinear_arith);
            if re > ro {
                self.lemma_walk_down(occupied, re - ro)
            } else {
                self.lemma_walk_up(occupied, ro - re)
            }
        }
    }

    /// A board that holds a mark and a free cell offers the search a cell.
    pub proof fn lemma_candidate_exists(self) -> (i: int)
        requires
            self.wf(),
            0 < self.empty_count() < self.cells.len(),
        ensures
            self.is_candidate(i),
    {
        lemma_count_zero(self.cells, EMPTY_MARK);
        lemma_count_full(self.cells, EMPTY_MARK);
        let free = choose|i: int| 0 <= i < self.cells.len() && self.cells[i] == EMPTY_MARK;
        let occupied = choose|i: int| 0 <= i < self.cells.len() && self.cells[i] != EMPTY_MARK;
        if self.prunes() {
            self.lemma_free_near_mark(occupied, free)
        } else {
            free
        }
    }
}

} // verus!
