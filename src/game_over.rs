use vstd::prelude::*;
use crate::board::{Bitboards, Color, Position};
use crate::make_move::{apply_move, in_check, is_check, lemma_keep_safe, legal_moves, safe};
use crate::movegen::{lemma_side_moves_on_board, side_moves, Move};

verus! {

/// `c` is checkmated: its king is attacked and every pseudo-legal move of `c`
/// leaves it attacked.
pub open spec fn checkmated(p: Position, c: Color) -> bool {
    &&& in_check(p, c)
    &&& forall|i: int| 0 <= i < side_moves(p, c).len() ==> !safe(p, #[trigger] side_moves(p, c)[i], c)
}

/// A checkmated side has no legal move, so a search finds no move for it.
pub proof fn lemma_checkmated_has_no_legal_moves(p: Position, c: Color)
    requires
        checkmated(p, c),
    ensures
        legal_moves(p, c).len() == 0,
{
    lemma_keep_safe(p, c, side_moves(p, c));
}

/// Whether `color` is checkmated.
pub fn checkmate(board: &Bitboards, color: Color) -> (r: bool)
    ensures
        r == checkmated(board@, color),
{
    if !is_check(board, color) {
        return false;
    }
    let moves = Move::generate_moves_for_side(color, board);
    proof {
        lemma_side_moves_on_board(board@, color, 6);
    }
    let mut i: usize = 0;
    while i < moves.len()
        invariant
            i <= moves@.len(),
            moves@ == side_moves(board@, color),
            forall|j: int| 0 <= j < moves@.len() ==> (#[trigger] moves@[j]).from < 64 && moves@[j].to < 64,
            forall|j: int| 0 <= j < i ==> !safe(board@, #[trigger] moves@[j], color),
        decreases moves@.len() - i,
    {
        let mv = moves[i];
        let mut clone = *board;
        apply_move(&mut clone, &mv, color);
        if !is_check(&clone, color) {
            return false;
        }
        i = i + 1;
    }
    true
}

} // verus!
