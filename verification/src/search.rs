//! What the search computes: the minimax value of a position over the cells
//! that the search may take, and how a value found inside a window of
//! bounds relates to it.

use vstd::prelude::*;
use crate::cells::{lemma_count_bound, lemma_count_update};
use crate::grid::{Grid, BOT_MARK, EMPTY_MARK, P1_MARK, WINNER_VALUE};

verus! {

/// The player who moves after `player`.
pub open spec fn opponent(player: i8) -> i8 {
    if player == BOT_MARK {
        P1_MARK
    } else {
        BOT_MARK
    }
}

/// The value from which a player who has no cell to take starts.
pub open spec fn no_move_value(maximize: bool) -> int {
    if maximize {
        i32::MIN as int
    } else {
        i32::MAX as int
    }
}

/// What a search between the bounds `alpha` and `beta` tells by the value
/// `found` about the minimax value `exact`: at or below `alpha` it is an
/// upper bound, at or above `beta` a lower bound, and between the two it is
/// the value itself.
pub open spec fn bounded_by(exact: int, alpha: int, beta: int, found: int) -> bool {
    &&& found <= alpha ==> exact <= found
    &&& alpha < found < beta ==> exact == found
    &&& found >= beta ==> exact >= found
}

impl Grid {
    /// The search goes no further: the game is won, no depth is left, or no
    /// cell is free.
    pub open spec fn is_leaf(self, depth: int) -> bool {
        self.winner() != EMPTY_MARK || depth <= 0 || self.empty_count() == 0
    }

    /// What a position at which the search stops is worth.
    pub open spec fn leaf_value(self, depth: int) -> int {
        self.heuristic_value(self.winner(), depth)
    }

    /// The minimax value of the position with `depth` plies left, `player`
    /// to move: the worth of the position where the search stops, else the
    /// best of the values of the positions after each cell that `player`
    /// may take, the highest if `maximize` holds and the lowest if not.
    pub open spec fn search_value(self, player: i8, depth: int, maximize: bool) -> int
        decreases depth, 1int, 0int,
    {
        if self.is_leaf(depth) {
            self.leaf_value(depth)
        } else {
            self.best_among(player, depth, maximize, self.cells.len() as int)
        }
    }

    /// The minimax value of the position after `player` has taken cell `i`.
    pub open spec fn child_value(self, i: int, player: i8, depth: int, maximize: bool) -> int
        decreases depth, 0int, 0int,
    {
        if depth > 0 {
            self.place(i, player).search_value(opponent(player), depth - 1, !maximize)
        } else {
            0
        }
    }

    /// The best of the values after each of the cells below `upto` that
    /// `player` may take, or `no_move_value` where there is none.
    pub open spec fn best_among(self, player: i8, depth: int, maximize: bool, upto: int) -> int
        decreases depth, 0int, upto,
    {
        if upto <= 0 || depth <= 0 {
            no_move_value(maximize)
        } else {
            let rest = self.best_among(player, depth, maximize, upto - 1);
            if self.is_candidate(upto - 1) {
                let value = self.child_value(upto - 1, player, depth, maximize);
                if maximize {
                    if value > rest {
                        value
                    } else {
                        rest
                    }
                } else {
                    if value < rest {
                        value
                    } else {
                        rest
                    }
                }
            } else {
                rest
            }
        }
    }

    /// The best value is at least as good as the value after each cell that
    /// may be taken.
    pub proof fn lemma_best_covers(self, player: i8, depth: int, maximize: bool, upto: int, i: int)
        requires
            depth > 0,
            0 <= i < upto,
            self.is_candidate(i),
        ensures
            maximize ==> self.child_value(i, player, depth, maximize) <= self.best_among(
                player,
                depth,
                maximize,
                upto,
            ),
            !maximize ==> self.child_value(i, player, depth, maximize) >= self.best_among(
                player,
                depth,
                maximize,
                upto,
            ),
        decreases upto,
    {
        if i < upto - 1 {
            self.lemma_best_covers(player, depth, maximize, upto - 1, i);
        }
    }

    /// The best value is the value after one of the cells that may be
    /// taken, or `no_move_value`.
    pub proof fn lemma_best_attained(self, player: i8, depth: int, maximize: bool, upto: int) -> (i:
        int)
        requires
            depth > 0,
            self.best_among(player, depth, maximize, upto) != no_move_value(maximize),
        ensures
            0 <= i < upto,
            self.is_candidate(i),
            self.child_value(i, player, depth, maximize) == self.best_among(
                player,
                depth,
                maximize,
                upto,
            ),
        decreases upto,
    {
        let rest = self.best_among(player, depth, maximize, upto - 1);
        if self.is_candidate(upto - 1) && self.child_value(upto - 1, player, depth, maximize)
            == self.best_among(player, depth, maximize, upto) {
            upto - 1
        } else {
            self.lemma_best_attained(player, depth, maximize, upto - 1)
        }
    }

    /// A value that bounds the value after every cell that may be taken
    /// bounds the best value.
    pub proof fn lemma_best_within(
        self,
        player: i8,
        depth: int,
        maximize: bool,
        upto: int,
        bound: int,
    )
        requires
            depth > 0,
            maximize ==> bound >= i32::MIN,
            !maximize ==> bound <= i32::MAX,
            maximize ==> forall|i: int|
                0 <= i < upto && self.is_candidate(i) ==> #[trigger] self.child_value(
                    i,
                    player,
                    depth,
                    maximize,
                ) <= bound,
            !maximize ==> forall|i: int|
                0 <= i < upto && self.is_candidate(i) ==> #[trigger] self.child_value(
                    i,
                    player,
                    depth,
                    maximize,
                ) >= bound,
        ensures
            maximize ==> self.best_among(player, depth, maximize, upto) <= bound,
            !maximize ==> self.best_among(player, depth, maximize, upto) >= bound,
        decreases upto,
    {
        if upto > 0 {
            self.lemma_best_within(player, depth, maximize, upto - 1, bound);
            let rest = self.best_among(player, depth, maximize, upto - 1);
            if self.is_candidate(upto - 1) {
                let value = self.child_value(upto - 1, player, depth, maximize);
                assert(maximize ==> value <= bound);
                assert(!maximize ==> value >= bound);
            }
        }
    }
}

impl Grid {
    /// No search value of a board that holds a mark lies beyond this, to
    /// either side.
    pub open spec fn search_limit() -> int {
        Self::value_limit() * 256
    }

    /// The worth of a position at which the search stops is bounded.
    pub proof fn lemma_leaf_value_bound(self, depth: int)
        requires
            self.wf(),
            -255 <= depth <= 255,
        ensures
            -Self::search_limit() <= self.leaf_value(depth) <= Self::search_limit(),
    {
        self.lemma_winner_is_run();
        self.lemma_value_bound();
        let total = self.value_in_total();
        let factor = depth + 1;
        assert(-7_728_000 * 256 <= total * factor <= 7_728_000 * 256) by (nonlinear_arith)
            requires
                -7_728_000 <= total <= 7_728_000,
                -256 <= factor <= 256,
        ;
        let won = self.winner() * WINNER_VALUE;
        assert(-10000 * 256 <= won * factor <= 10000 * 256) by (nonlinear_arith)
            requires
                -10000 <= won <= 10000,
                -256 <= factor <= 256,
        ;
    }

    /// The board after a player has taken a free cell is well formed and
    /// holds a mark.
    pub proof fn lemma_place_marks(self, i: int, player: i8)
        requires
            self.wf(),
            0 <= i < self.cells.len(),
            self.cells[i] == EMPTY_MARK,
            player == P1_MARK || player == BOT_MARK,
        ensures
            self.place(i, player).wf(),
            self.place(i, player).empty_count() == self.empty_count() - 1,
            self.place(i, player).empty_count() < self.cells.len(),
    {
        self.lemma_place_wf(i, player);
        lemma_count_update(self.cells, i, player, EMPTY_MARK);
        lemma_count_bound(self.cells, EMPTY_MARK);
    }

    /// The minimax value of a board that holds a mark is bounded.
    pub proof fn lemma_search_value_bound(self, player: i8, depth: int, maximize: bool)
        requires
            self.wf(),
            self.empty_count() < self.cells.len(),
            -255 <= depth <= 255,
            player == P1_MARK || player == BOT_MARK,
        ensures
            -Self::search_limit() <= self.search_value(player, depth, maximize)
                <= Self::search_limit(),
        decreases depth, 3int, 0int,
    {
        if self.is_leaf(depth) {
            self.lemma_leaf_value_bound(depth);
        } else {
            let len = self.cells.len() as int;
            self.lemma_best_bound(player, depth, maximize, len);
            let i = self.lemma_candidate_exists();
            self.lemma_child_value_bound(i, player, depth, maximize);
            self.lemma_best_covers(player, depth, maximize, len, i);
        }
    }

    /// The minimax value after a player has taken a cell that may be taken
    /// is bounded.
    pub proof fn lemma_child_value_bound(self, i: int, player: i8, depth: int, maximize: bool)
        requires
            self.wf(),
            0 < depth <= 255,
            player == P1_MARK || player == BOT_MARK,
            self.is_candidate(i),
        ensures
            -Self::search_limit() <= self.child_value(i, player, depth, maximize)
                <= Self::search_limit(),
        decreases depth, 1int, 0int,
    {
        self.lemma_place_marks(i, player);
        self.place(i, player).lemma_search_value_bound(opponent(player), depth - 1, !maximize);
    }

    /// The best value among the cells below `upto` is bounded, unless it is
    /// still `no_move_value`.
    pub proof fn lemma_best_bound(self, player: i8, depth: int, maximize: bool, upto: int)
        requires
            self.wf(),
            0 < depth <= 255,
            player == P1_MARK || player == BOT_MARK,
        ensures
            self.best_among(player, depth, maximize, upto) == no_move_value(maximize)
                || -Self::search_limit() <= self.best_among(player, depth, maximize, upto)
                <= Self::search_limit(),
        decreases depth, 2int, upto,
    {
        if upto > 0 {
            self.lemma_best_bound(player, depth, maximize, upto - 1);
            if self.is_candidate(upto - 1) {
                self.lemma_child_value_bound(upto - 1, player, depth, maximize);
            }
        }
    }
}

} // verus!
