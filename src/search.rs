use vstd::prelude::*;
use crate::board::{Bitboards, Color, Position};
use crate::evaluation::{evaluate, evaluation};
use crate::game_over::{checkmate, checkmated, lemma_checkmated_has_no_legal_moves};
use crate::make_move::{apply, apply_move, generate_legal_moves, lemma_keep_safe, legal_moves};
use crate::movegen::{lemma_side_moves_on_board, side_moves, Move};

verus! {

/// Score of a lost position for the side to move.
pub const MATE_SCORE: i32 = -10000;

/// Scores never leave this bound.
pub open spec fn score_bound() -> int {
    5_000_000
}

/// A white-positive score seen from the side of `c`.
pub open spec fn relative(e: int, c: Color) -> int {
    if c == Color::White {
        e
    } else {
        -e
    }
}

/// The negamax value of `p` for `c` searched `depth` plies deep: the
/// evaluation from the side of `c` at depth zero; the mate score when `c` is
/// checkmated; zero when `c` has no legal move; otherwise the best negated
/// value over the legal moves of `c`.
pub open spec fn negamax_value(p: Position, depth: nat, c: Color) -> int
    decreases depth, 1nat, 0nat,
{
    if depth == 0 {
        relative(evaluate(p), c)
    } else if checkmated(p, c) {
        -10000
    } else if legal_moves(p, c).len() == 0 {
        0
    } else {
        best_score(p, depth, c, legal_moves(p, c))
    }
}

/// The largest negated value, one ply less deep, over the moves `ms`, or the
/// least `i32` when there is none.
pub open spec fn best_score(p: Position, depth: nat, c: Color, ms: Seq<Move>) -> int
    decreases depth, 0nat, ms.len(),
{
    if depth == 0 || ms.len() == 0 {
        i32::MIN as int
    } else {
        let prev = best_score(p, depth, c, ms.drop_last());
        let s = -negamax_value(apply(p, ms.last(), c), (depth - 1) as nat, c.other());
        if s > prev {
            s
        } else {
            prev
        }
    }
}

/// The first of the moves `ms` with the largest negated value one ply less
/// deep, with that value.
pub open spec fn root_choice(p: Position, depth: nat, c: Color, ms: Seq<Move>) -> Option<(Move, int)>
    decreases ms.len(),
{
    if ms.len() == 0 {
        None
    } else {
        let prev = root_choice(p, depth, c, ms.drop_last());
        let m = ms.last();
        let s = -negamax_value(apply(p, m, c), (depth - 1) as nat, c.other());
        match prev {
            None => Some((m, s)),
            Some((pm, ps)) => if s > ps {
                Some((m, s))
            } else {
                prev
            },
        }
    }
}

/// The score of playing `m` for `c`, searched `depth` plies deep in all.
pub open spec fn move_score(p: Position, depth: nat, c: Color, m: Move) -> int {
    -negamax_value(apply(p, m, c), (depth - 1) as nat, c.other())
}

/// The root choice is one of the moves, scored by `move_score`, and no move
/// scores higher.
pub proof fn lemma_root_choice_is_best(p: Position, depth: nat, c: Color, ms: Seq<Move>)
    ensures
        root_choice(p, depth, c, ms) is Some <==> ms.len() > 0,
        root_choice(p, depth, c, ms) is Some ==> {
            let (m, s) = root_choice(p, depth, c, ms).unwrap();
            &&& ms.contains(m)
            &&& s == move_score(p, depth, c, m)
            &&& forall|i: int| 0 <= i < ms.len() ==> move_score(p, depth, c, #[trigger] ms[i]) <= s
        },
    decreases ms.len(),
{
    if ms.len() > 0 {
        let init = ms.drop_last();
        lemma_root_choice_is_best(p, depth, c, init);
        let (m, s) = root_choice(p, depth, c, ms).unwrap();
        assert(ms[ms.len() - 1] == ms.last());
        if root_choice(p, depth, c, init) is Some {
            let (pm, ps) = root_choice(p, depth, c, init).unwrap();
            let j = choose|j: int| 0 <= j < init.len() && init[j] == pm;
            assert(ms[j] == pm);
        }
        assert forall|i: int| 0 <= i < ms.len() implies move_score(p, depth, c, #[trigger] ms[i]) <= s by {
            if i < init.len() {
                assert(ms[i] == init[i]);
            }
        }
    }
}

/// A checkmated side gets no move from the search, whatever the depth, and
/// its negamax value at any positive depth is the mate score.
pub proof fn lemma_mated_side_has_no_best_move(p: Position, depth: nat, c: Color)
    requires
        checkmated(p, c),
    ensures
        root_choice(p, depth, c, legal_moves(p, c)) is None,
        depth > 0 ==> negamax_value(p, depth, c) == MATE_SCORE,
{
    lemma_checkmated_has_no_legal_moves(p, c);
    lemma_root_choice_is_best(p, depth, c, legal_moves(p, c));
}

pub proof fn lemma_value_bound(p: Position, depth: nat, c: Color)
    ensures
        -score_bound() <= negamax_value(p, depth, c) <= score_bound(),
    decreases depth, 1nat, 0nat,
{
    if depth == 0 {
        crate::evaluation::lemma_evaluate_bound(p);
    } else if !checkmated(p, c) && legal_moves(p, c).len() != 0 {
        lemma_best_bound(p, depth, c, legal_moves(p, c));
    }
}

pub proof fn lemma_best_bound(p: Position, depth: nat, c: Color, ms: Seq<Move>)
    requires
        depth > 0,
        ms.len() > 0,
    ensures
        -score_bound() <= best_score(p, depth, c, ms) <= score_bound(),
    decreases depth, 0nat, ms.len(),
{
    lemma_value_bound(apply(p, ms.last(), c), (depth - 1) as nat, c.other());
    if ms.len() > 1 {
        lemma_best_bound(p, depth, c, ms.drop_last());
    } else {
        assert(best_score(p, depth, c, ms.drop_last()) == i32::MIN as int);
    }
}

/// The opponent of `color`.
pub fn opposite(color: Color) -> (r: Color)
    ensures
        r == color.other(),
{
    match color {
        Color::White => Color::Black,
        Color::Black => Color::White,
    }
}

/// The negamax value of `board` for `color`, searched `depth` plies deep
/// over legal moves, without pruning.
pub fn negamax(board: &Bitboards, depth: u32, color: Color) -> (r: i32)
    ensures
        r == negamax_value(board@, depth as nat, color),
    decreases depth,
{
    proof {
        lemma_value_bound(board@, depth as nat, color);
    }
    if depth == 0 {
        let e = evaluation(board, color);
        return match color {
            Color::White => e,
            Color::Black => -e,
        };
    }
    if checkmate(board, color) {
        return MATE_SCORE;
    }
    let moves = generate_legal_moves(board, color);
    if moves.len() == 0 {
        return 0;
    }
    proof {
        lemma_side_moves_on_board(board@, color, 6);
        lemma_keep_safe(board@, color, side_moves(board@, color));
    }
    let mut best: i32 = i32::MIN;
    let mut i: usize = 0;
    while i < moves.len()
        invariant
            0 < depth,
            i <= moves@.len(),
            moves@ == legal_moves(board@, color),
            moves@.len() > 0,
            forall|j: int| 0 <= j < moves@.len() ==> side_moves(board@, color).contains(#[trigger] moves@[j]),
            forall|j: int| 0 <= j < side_moves(board@, color).len() ==> (#[trigger] side_moves(board@, color)[j]).from < 64 && side_moves(board@, color)[j].to < 64,
            best == best_score(board@, depth as nat, color, moves@.take(i as int)),
        decreases moves@.len() - i,
    {
        let mv = moves[i];
        proof {
            assert(side_moves(board@, color).contains(moves@[i as int]));
        }
        let mut clone = *board;
        apply_move(&mut clone, &mv, color);
        let child = negamax(&clone, depth - 1, opposite(color));
        proof {
            lemma_value_bound(clone@, (depth - 1) as nat, color.other());
            assert(moves@.take(i + 1).drop_last() =~= moves@.take(i as int));
            assert(moves@.take(i + 1).last() == mv);
        }
        let score = -child;
        if score > best {
            best = score;
        }
        i = i + 1;
    }
    proof {
        assert(moves@.take(moves@.len() as int) =~= moves@);
    }
    best
}

/// The first legal move of `color` with the best negamax value searched
/// `depth` plies deep, with that value; none when `color` has no legal move.
pub fn best_move(board: &mut Bitboards, depth: u32, color: Color) -> (r: Option<(Move, i32)>)
    requires
        depth >= 1,
    ensures
        *final(board) == *old(board),
        r.is_none() == (legal_moves(old(board)@, color).len() == 0),
        r.is_some() ==> root_choice(old(board)@, depth as nat, color, legal_moves(old(board)@, color))
            == Some((r.unwrap().0, r.unwrap().1 as int)),
        r.is_some() ==> {
            let (m, s) = r.unwrap();
            let legal = legal_moves(old(board)@, color);
            &&& legal.contains(m)
            &&& s == move_score(old(board)@, depth as nat, color, m)
            &&& forall|i: int| 0 <= i < legal.len() ==> move_score(old(board)@, depth as nat, color, #[trigger] legal[i]) <= s
        },
{
    let moves = generate_legal_moves(board, color);
    if moves.len() == 0 {
        return None;
    }
    proof {
        lemma_side_moves_on_board(board@, color, 6);
        lemma_keep_safe(board@, color, side_moves(board@, color));
    }
    let mut best_score: i32 = i32::MIN;
    let mut best_move: Option<Move> = None;
    let mut i: usize = 0;
    while i < moves.len()
        invariant
            1 <= depth,
            i <= moves@.len(),
            moves@ == legal_moves(board@, color),
            forall|j: int| 0 <= j < moves@.len() ==> side_moves(board@, color).contains(#[trigger] moves@[j]),
            forall|j: int| 0 <= j < side_moves(board@, color).len() ==> (#[trigger] side_moves(board@, color)[j]).from < 64 && side_moves(board@, color)[j].to < 64,
            match root_choice(board@, depth as nat, color, moves@.take(i as int)) {
                None => best_move.is_none() && i == 0,
                Some((m, s)) => best_move == Some(m) && best_score == s,
            },
        decreases moves@.len() - i,
    {
        let mv = moves[i];
        proof {
            assert(side_moves(board@, color).contains(moves@[i as int]));
        }
        let mut clone = *board;
        apply_move(&mut clone, &mv, color);
        let child = negamax(&clone, depth - 1, opposite(color));
        proof {
            lemma_value_bound(clone@, (depth - 1) as nat, color.other());
            assert(moves@.take(i + 1).drop_last() =~= moves@.take(i as int));
            assert(moves@.take(i + 1).last() == mv);
        }
        let score = -child;
        if best_move.is_none() || score > best_score {
            best_score = score;
            best_move = Some(mv);
        }
        i = i + 1;
    }
    proof {
        assert(moves@.take(moves@.len() as int) =~= moves@);
        lemma_root_choice_is_best(board@, depth as nat, color, moves@);
    }
    match best_move {
        Some(m) => Some((m, best_score)),
        None => None,
    }
}

} // verus!
