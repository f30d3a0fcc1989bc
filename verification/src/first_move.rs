//! The bot's replies to player 1's opening move, for the boards that have
//! an opening book.

use vstd::prelude::*;
use crate::random::pick_one;

verus! {

/// The opening book.
pub struct FirstMove;

impl FirstMove {
    /// The good replies on the 5x5 board to an opening move at cell
    /// `p1_mark_idx`.
    ///
    /// To a corner, or to a cell diagonally next to the centre, the reply is
    /// the centre. To the cell in the middle of an edge the replies are its
    /// two neighbours on the edge; to another cell of an edge, the cell that
    /// mirrors it across the middle of the edge. To a cell straight next to
    /// the centre the replies are the centre and cells close to it. To the
    /// centre, or to anything that is no cell of the board, the replies are
    /// the four cells diagonally next to the centre.
    pub open spec fn spec_replies_5x5(p1_mark_idx: usize) -> Seq<usize> {
        let i = p1_mark_idx;
        if i == 0 || i == 4 || i == 6 || i == 8 || i == 16 || i == 18 || i == 20 || i == 24 {
            seq![12usize]
        } else if i == 5 || i == 9 {
            seq![(i + 10) as usize]
        } else if i == 15 || i == 19 {
            seq![(i - 10) as usize]
        } else if i == 1 || i == 21 {
            seq![(i + 2) as usize]
        } else if i == 3 || i == 23 {
            seq![(i - 2) as usize]
        } else if i == 2 || i == 22 {
            seq![(i - 1) as usize, (i + 1) as usize]
        } else if i == 10 || i == 14 {
            seq![(i - 5) as usize, (i + 5) as usize]
        } else if i == 7 {
            seq![6usize, 8usize, 12usize, 17usize]
        } else if i == 17 {
            seq![16usize, 18usize, 12usize, 7usize]
        } else if i == 11 {
            seq![6usize, 12usize, 16usize]
        } else if i == 13 {
            seq![8usize, 12usize, 18usize]
        } else {
            seq![6usize, 8usize, 16usize, 18usize]
        }
    }

    /// The bot's reply on the 5x5 board to player 1's opening move at cell
    /// `p1_mark_idx`: one of the good replies, each as likely as the others.
    pub fn find_bot_first_move_5x5(p1_mark_idx: usize) -> (reply: u8)
        ensures
            Self::spec_replies_5x5(p1_mark_idx).contains(reply as usize),
            reply < 25,
            reply != p1_mark_idx,
    {
        let center_idx: usize = 12;
        let i: usize = p1_mark_idx;
        let ghost replies = Self::spec_replies_5x5(p1_mark_idx);

        if i == 0 || i == 4 || i == 6 || i == 8 || i == 16 || i == 18 || i == 20 || i == 24 {
            assert(replies[0] == 12);
            center_idx as u8
        } else {
            let (indices, fallback): (Vec<usize>, usize) = if i == 5 || i == 9 {
                (vec![i + 10], i + 5)
            } else if i == 15 || i == 19 {
                (vec![i - 10], i - 5)
            } else if i == 1 || i == 21 {
                (vec![i + 2], i + 1)
            } else if i == 3 || i == 23 {
                (vec![i - 2], i - 1)
            } else if i == 2 || i == 22 {
                (vec![i - 1, i + 1], i - 1)
            } else if i == 10 || i == 14 {
                (vec![i - 5, i + 5], i - 5)
            } else if i == 7 {
                (vec![i - 1, i + 1, i + 5, i + 10], i + 5)
            } else if i == 17 {
                (vec![i - 1, i + 1, i - 5, i - 10], i - 5)
            } else if i == 11 {
                (vec![i - 5, i + 1, i + 5], i + 1)
            } else if i == 13 {
                (vec![i - 5, i - 1, i + 5], i - 1)
            } else {
                (vec![6, 8, 16, 18], center_idx - 5)
            };
            assert(indices@ =~= replies);
            assert(forall|p: int| 0 <= p < indices@.len() ==> #[trigger] indices@[p] < 25);
            assert(forall|p: int| 0 <= p < indices@.len() ==> #[trigger] indices@[p] != i);
            Self::get_random_or_fallback_idx(indices.as_slice(), fallback)
        }
    }

    /// One of `indices`, each as likely as the others, or `fallback` where
    /// there is none.
    fn get_random_or_fallback_idx(indices: &[usize], fallback: usize) -> (reply: u8)
        requires
            fallback <= u8::MAX,
            forall|p: int| 0 <= p < indices@.len() ==> #[trigger] indices@[p] <= u8::MAX,
        ensures
            indices@.len() == 0 ==> reply == fallback,
            indices@.len() > 0 ==> indices@.contains(reply as usize),
    {
        let choice: Option<usize> = pick_one(indices);
        Self::reply_of(choice, fallback)
    }

    /// The reply that a choice stands for: the chosen cell, or `fallback`
    /// where nothing was chosen, cut to eight bits.
    pub fn reply_of(choice: Option<usize>, fallback: usize) -> (reply: u8)
        ensures
            reply == match choice {
                Some(cell) => cell as u8,
                None => fallback as u8,
            },
    {
        match choice {
            Some(cell) => #[verifier::truncate] (cell as u8),
            None => #[verifier::truncate] (fallback as u8),
        }
    }
}

} // verus!
