use vstd::prelude::*;
use crate::make_move::{attacked, is_square_attacked};
use crate::board::{
    bit, lemma_bit_or, lemma_bit_zero, lemma_squares_where_bound, lemma_squares_where_ext, lemma_squares_where_shape, set_bit, slot_of,
    squares_of, squares_where, test_bit, Bitboards, Color, PieceType, Position,
};

verus! {

/// A move: origin and destination squares, the piece moved, whether a pawn
/// becomes a queen, and whether a king castles (moving a rook as well).
#[derive(Clone, Copy, Debug, PartialEq, Eq, Structural)]
pub struct Move {
    pub from: u8,
    pub to: u8,
    pub piece: PieceType,
    pub promotion_rights: bool,
    pub is_castling: bool,
}

pub open spec fn rank(s: int) -> int {
    s / 8
}

pub open spec fn file(s: int) -> int {
    s % 8
}

pub open spec fn abs(x: int) -> int {
    if x < 0 {
        -x
    } else {
        x
    }
}

/// `to` lies `dr` ranks and `df` files away from `from`, on the board.
pub open spec fn offset_hit(from: int, dr: int, df: int, to: int) -> bool {
    0 <= rank(from) + dr < 8 && 0 <= file(from) + df < 8 && to == 8 * (rank(from) + dr) + file(
        from,
    ) + df
}

pub proof fn lemma_offset_hit(from: int, dr: int, df: int, to: int)
    requires
        0 <= from < 64,
    ensures
        offset_hit(from, dr, df, to) <==> (0 <= to < 64 && rank(to) == rank(from) + dr && file(to)
            == file(from) + df),
{
}

/// A knight jump: two ranks and one file apart, or one rank and two files.
pub open spec fn knight_step(from: int, to: int) -> bool {
    let dr = abs(rank(to) - rank(from));
    let df = abs(file(to) - file(from));
    (dr == 1 && df == 2) || (dr == 2 && df == 1)
}

/// A king's reach: Chebyshev distance at most one, its own square included.
pub open spec fn king_reach(from: int, to: int) -> bool {
    abs(rank(to) - rank(from)) <= 1 && abs(file(to) - file(from)) <= 1
}

/// A king step: Chebyshev distance one.
pub open spec fn king_step(from: int, to: int) -> bool {
    let dr = abs(rank(to) - rank(from));
    let df = abs(file(to) - file(from));
    dr <= 1 && df <= 1 && (dr == 1 || df == 1)
}

pub open spec fn knight_target(p: Position, c: Color, from: int, to: int) -> bool {
    0 <= to < 64 && knight_step(from, to) && !p.occupied_by(c, to)
}

pub open spec fn king_target(p: Position, c: Color, from: int, to: int) -> bool {
    0 <= to < 64 && king_step(from, to) && !p.occupied_by(c, to)
}

/// One move from `from` to each square of `dests`, in that order.
pub open spec fn moves_to(from: int, piece: PieceType, promo: bool, castle: bool, dests: Seq<u8>) -> Seq<Move> {
    dests.map_values(
        |t: u8|
            Move { from: from as u8, to: t, piece: piece, promotion_rights: promo, is_castling: castle },
    )
}

/// `k` steps in direction `d`, one of -1, 0, 1.
pub open spec fn scale(d: int, k: int) -> int {
    if d > 0 {
        k
    } else if d < 0 {
        -k
    } else {
        0
    }
}

/// The square `k` steps from `from` along (dr, df).
pub open spec fn ray_square(from: int, dr: int, df: int, k: int) -> int {
    8 * (rank(from) + scale(dr, k)) + file(from) + scale(df, k)
}

/// How many steps along (dr, df) lead from `from` to `to`, when `to` is on that ray.
pub open spec fn ray_steps(from: int, dr: int, df: int, to: int) -> int {
    let r = rank(to) - rank(from);
    let f = file(to) - file(from);
    if dr > 0 {
        r
    } else if dr < 0 {
        -r
    } else if df > 0 {
        f
    } else {
        -f
    }
}

/// The first `k` squares along (dr, df) from `from` are empty.
pub open spec fn path_clear(p: Position, from: int, dr: int, df: int, k: nat) -> bool
    decreases k,
{
    k == 0 || (path_clear(p, from, dr, df, (k - 1) as nat) && !p.occupied(
        ray_square(from, dr, df, k as int),
    ))
}

/// A slider of color `c` on `from` reaches `to` along (dr, df): every square
/// before it is empty, and `to` is not held by `c`.
pub open spec fn ray_target(p: Position, c: Color, from: int, dr: int, df: int, to: int) -> bool {
    let k = ray_steps(from, dr, df, to);
    &&& 0 <= to < 64
    &&& k >= 1
    &&& rank(to) == rank(from) + scale(dr, k)
    &&& file(to) == file(from) + scale(df, k)
    &&& path_clear(p, from, dr, df, (k - 1) as nat)
    &&& !p.occupied_by(c, to)
}

pub open spec fn rook_target(p: Position, c: Color, from: int, to: int) -> bool {
    ray_target(p, c, from, 1, 0, to) || ray_target(p, c, from, -1, 0, to) || ray_target(
        p,
        c,
        from,
        0,
        1,
        to,
    ) || ray_target(p, c, from, 0, -1, to)
}

pub open spec fn bishop_target(p: Position, c: Color, from: int, to: int) -> bool {
    ray_target(p, c, from, 1, 1, to) || ray_target(p, c, from, 1, -1, to) || ray_target(
        p,
        c,
        from,
        -1,
        1,
        to,
    ) || ray_target(p, c, from, -1, -1, to)
}

pub proof fn lemma_path_clear(p: Position, from: int, dr: int, df: int, n: nat, j: int)
    requires
        path_clear(p, from, dr, df, n),
        1 <= j <= n,
    ensures
        !p.occupied(ray_square(from, dr, df, j)),
    decreases n,
{
    if j < n {
        lemma_path_clear(p, from, dr, df, (n - 1) as nat, j);
    }
}

/// Rank on which pawns of `c` start.
pub open spec fn start_rank(c: Color) -> int {
    if c == Color::White { 1 } else { 6 }
}

/// Direction in which pawns of `c` advance, in ranks.
pub open spec fn forward(c: Color) -> int {
    if c == Color::White { 1 } else { -1 }
}

/// A pawn of `c` on `from` is one step from its farthest rank.
pub open spec fn promotes(c: Color, from: int) -> bool {
    rank(from) == if c == Color::White { 6int } else { 1int }
}

/// Rank of an en-passant target that a pawn of `c` may capture onto.
pub open spec fn en_passant_rank(c: Color) -> int {
    if c == Color::White { 5 } else { 2 }
}

/// A pawn of `c` on `from` may go to `to`: one step forward onto an empty
/// square; two steps from its starting rank over an empty square onto an
/// empty one; or one step diagonally forward onto a piece of the opponent or
/// onto the en-passant target. The en-passant capture is deliberately
/// restricted to a target on `en_passant_rank(c)`, the rank that a double push
/// of the opponent leaves behind, so that a pawn never captures en passant onto
/// the target of its own side's double push.
pub open spec fn pawn_target(p: Position, c: Color, from: int, to: int) -> bool {
    let dr = rank(to) - rank(from);
    let df = file(to) - file(from);
    &&& 0 <= to < 64
    &&& {
        ||| dr == forward(c) && df == 0 && !p.occupied(to)
        ||| dr == 2 * forward(c) && df == 0 && rank(from) == start_rank(c) && !p.occupied(to)
            && !p.occupied(from + 8 * forward(c))
        ||| dr == forward(c) && abs(df) == 1 && (p.occupied_by(c.other(), to) || (p.en_passant
            == Some(to as u8) && rank(to) == en_passant_rank(c)))
    }
}

/// Where a piece of type `piece` and color `c` on `from` may go by its own
/// movement rule (castling aside).
pub open spec fn target_of(p: Position, c: Color, piece: PieceType, from: int, to: int) -> bool {
    match piece {
        PieceType::Pawn => pawn_target(p, c, from, to),
        PieceType::Knight => knight_target(p, c, from, to),
        PieceType::Bishop => bishop_target(p, c, from, to),
        PieceType::Rook => rook_target(p, c, from, to),
        PieceType::Queen => rook_target(p, c, from, to) || bishop_target(p, c, from, to),
        PieceType::King => king_target(p, c, from, to),
    }
}

/// Home square of the king of `c`.
pub open spec fn king_home(c: Color) -> int {
    if c == Color::White { 4 } else { 60 }
}

pub open spec fn castle_right(p: Position, c: Color, kingside: bool) -> bool {
    match (c, kingside) {
        (Color::White, true) => p.white_kingside,
        (Color::White, false) => p.white_queenside,
        (Color::Black, true) => p.black_kingside,
        (Color::Black, false) => p.black_queenside,
    }
}

/// The king of `c` may castle on the given side: the right is kept, the rook
/// stands on its home square, the squares between king and rook are empty,
/// and none of the king's start, passage and landing squares is attacked.
pub open spec fn castle_ok(p: Position, c: Color, kingside: bool) -> bool {
    let home = king_home(c);
    &&& castle_right(p, c, kingside)
    &&& if kingside {
        &&& p.holds(c, PieceType::Rook, home + 3)
        &&& !p.occupied(home + 1) && !p.occupied(home + 2)
        &&& !attacked(p, home, c) && !attacked(p, home + 1, c) && !attacked(p, home + 2, c)
    } else {
        &&& p.holds(c, PieceType::Rook, home - 4)
        &&& !p.occupied(home - 1) && !p.occupied(home - 2) && !p.occupied(home - 3)
        &&& !attacked(p, home, c) && !attacked(p, home - 1, c) && !attacked(p, home - 2, c)
    }
}

/// The castling move of the king of `c`: two files toward the rook.
pub open spec fn castle_move(c: Color, kingside: bool) -> Move {
    let home = king_home(c);
    Move {
        from: home as u8,
        to: (if kingside { home + 2 } else { home - 2 }) as u8,
        piece: PieceType::King,
        promotion_rights: false,
        is_castling: true,
    }
}

pub open spec fn castle_if(p: Position, c: Color, kingside: bool) -> Seq<Move> {
    if castle_ok(p, c, kingside) {
        seq![castle_move(c, kingside)]
    } else {
        Seq::empty()
    }
}

/// The castling moves of a king of `c` on `from`, kingside first.
pub open spec fn castle_moves(p: Position, c: Color, from: int) -> Seq<Move> {
    if from == king_home(c) {
        castle_if(p, c, true) + castle_if(p, c, false)
    } else {
        Seq::empty()
    }
}

/// The pseudo-legal moves of a piece of type `piece` and color `c` on `from`.
pub open spec fn piece_moves(p: Position, from: int, piece: PieceType, c: Color) -> Seq<Move> {
    match piece {
        PieceType::Pawn => target_moves(
            from,
            PieceType::Pawn,
            promotes(c, from),
            false,
            |t: int| pawn_target(p, c, from, t),
        ),
        PieceType::Queen => target_moves(
            from,
            PieceType::Queen,
            false,
            false,
            |t: int| rook_target(p, c, from, t),
        ) + target_moves(from, PieceType::Queen, false, false, |t: int| bishop_target(p, c, from, t)),
        PieceType::King => target_moves(
            from,
            PieceType::King,
            false,
            false,
            |t: int| king_target(p, c, from, t),
        ) + castle_moves(p, c, from),
        _ => target_moves(from, piece, false, false, |t: int| target_of(p, c, piece, from, t)),
    }
}

/// The order in which a side's piece types are enumerated.
pub open spec fn side_order() -> Seq<PieceType> {
    seq![
        PieceType::Pawn,
        PieceType::Knight,
        PieceType::Bishop,
        PieceType::Rook,
        PieceType::Queen,
        PieceType::King,
    ]
}

/// The moves of the pieces of type `piece` and color `c` on squares below `n`.
pub open spec fn type_moves(p: Position, c: Color, piece: PieceType, n: nat) -> Seq<Move>
    decreases n,
{
    if n == 0 {
        Seq::empty()
    } else {
        type_moves(p, c, piece, (n - 1) as nat) + if p.holds(c, piece, n - 1) {
            piece_moves(p, n - 1, piece, c)
        } else {
            Seq::empty()
        }
    }
}

/// The moves of the first `k` piece types of `side_order`.
pub open spec fn side_moves_upto(p: Position, c: Color, k: nat) -> Seq<Move>
    decreases k,
{
    if k == 0 {
        Seq::empty()
    } else {
        side_moves_upto(p, c, (k - 1) as nat) + type_moves(p, c, side_order()[k - 1], 64)
    }
}

/// The pseudo-legal moves of `c`: by piece type in `side_order`, then by square.
pub open spec fn side_moves(p: Position, c: Color) -> Seq<Move> {
    side_moves_upto(p, c, 6)
}

/// One move from `from` to each square that satisfies `f`, lowest first.
pub open spec fn target_moves(
    from: int,
    piece: PieceType,
    promo: bool,
    castle: bool,
    f: spec_fn(int) -> bool,
) -> Seq<Move> {
    moves_to(from, piece, promo, castle, squares_where(f, 64))
}

/// Every move of `ms` goes between squares of the board.
pub open spec fn on_board(ms: Seq<Move>) -> bool {
    forall|i: int| 0 <= i < ms.len() ==> (#[trigger] ms[i]).from < 64 && ms[i].to < 64
}

pub proof fn lemma_target_moves_on_board(
    from: int,
    piece: PieceType,
    promo: bool,
    castle: bool,
    f: spec_fn(int) -> bool,
)
    requires
        0 <= from < 64,
    ensures
        on_board(target_moves(from, piece, promo, castle, f)),
{
    lemma_squares_where_shape(f, 64);
    let sq = squares_where(f, 64);
    assert forall|i: int| 0 <= i < target_moves(from, piece, promo, castle, f).len() implies (
    #[trigger] target_moves(from, piece, promo, castle, f)[i]).from < 64 && target_moves(
        from,
        piece,
        promo,
        castle,
        f,
    )[i].to < 64 by {
        assert(sq[i] < 64);
    }
}

pub proof fn lemma_piece_moves_on_board(p: Position, from: int, piece: PieceType, c: Color)
    requires
        0 <= from < 64,
    ensures
        on_board(piece_moves(p, from, piece, c)),
{
    match piece {
        PieceType::Pawn => {
            lemma_target_moves_on_board(from, PieceType::Pawn, promotes(c, from), false, |t: int| pawn_target(p, c, from, t));
        },
        PieceType::Queen => {
            let a = target_moves(from, PieceType::Queen, false, false, |t: int| rook_target(p, c, from, t));
            let b = target_moves(from, PieceType::Queen, false, false, |t: int| bishop_target(p, c, from, t));
            lemma_target_moves_on_board(from, PieceType::Queen, false, false, |t: int| rook_target(p, c, from, t));
            lemma_target_moves_on_board(from, PieceType::Queen, false, false, |t: int| bishop_target(p, c, from, t));
            assert forall|i: int| 0 <= i < (a + b).len() implies (#[trigger] (a + b)[i]).from < 64 && (a + b)[i].to < 64 by {
                if i >= a.len() {
                    assert((a + b)[i] == b[i - a.len()]);
                }
            }
        },
        PieceType::King => {
            let a = target_moves(from, PieceType::King, false, false, |t: int| king_target(p, c, from, t));
            let b = castle_moves(p, c, from);
            lemma_target_moves_on_board(from, PieceType::King, false, false, |t: int| king_target(p, c, from, t));
            assert forall|i: int| 0 <= i < (a + b).len() implies (#[trigger] (a + b)[i]).from < 64 && (a + b)[i].to < 64 by {
                if i >= a.len() {
                    assert((a + b)[i] == b[i - a.len()]);
                    let ks = castle_if(p, c, true);
                    let qs = castle_if(p, c, false);
                    if i - a.len() >= ks.len() {
                        assert(b[i - a.len()] == qs[i - a.len() - ks.len()]);
                    }
                }
            }
        },
        _ => {
            lemma_target_moves_on_board(from, piece, false, false, |t: int| target_of(p, c, piece, from, t));
        },
    }
}

/// A piece has at most 130 pseudo-legal moves.
pub proof fn lemma_piece_moves_len(p: Position, from: int, piece: PieceType, c: Color)
    ensures
        piece_moves(p, from, piece, c).len() <= 130,
{
    lemma_squares_where_bound(|t: int| pawn_target(p, c, from, t), 64);
    lemma_squares_where_bound(|t: int| rook_target(p, c, from, t), 64);
    lemma_squares_where_bound(|t: int| bishop_target(p, c, from, t), 64);
    lemma_squares_where_bound(|t: int| king_target(p, c, from, t), 64);
    lemma_squares_where_bound(|t: int| target_of(p, c, piece, from, t), 64);
}

pub proof fn lemma_type_moves_on_board(p: Position, c: Color, piece: PieceType, n: nat)
    requires
        n <= 64,
    ensures
        on_board(type_moves(p, c, piece, n)),
    decreases n,
{
    if n > 0 {
        lemma_type_moves_on_board(p, c, piece, (n - 1) as nat);
        lemma_piece_moves_on_board(p, n - 1, piece, c);
        let a = type_moves(p, c, piece, (n - 1) as nat);
        let b = if p.holds(c, piece, n - 1) { piece_moves(p, n - 1, piece, c) } else { Seq::empty() };
        assert forall|i: int| 0 <= i < (a + b).len() implies (#[trigger] (a + b)[i]).from < 64 && (a + b)[i].to < 64 by {
            if i >= a.len() {
                assert((a + b)[i] == b[i - a.len()]);
            }
        }
    }
}

/// Every pseudo-legal move goes between squares of the board.
pub proof fn lemma_side_moves_on_board(p: Position, c: Color, k: nat)
    requires
        k <= 6,
    ensures
        on_board(side_moves_upto(p, c, k)),
    decreases k,
{
    if k > 0 {
        lemma_side_moves_on_board(p, c, (k - 1) as nat);
        lemma_type_moves_on_board(p, c, side_order()[k - 1], 64);
        let a = side_moves_upto(p, c, (k - 1) as nat);
        let b = type_moves(p, c, side_order()[k - 1], 64);
        assert forall|i: int| 0 <= i < (a + b).len() implies (#[trigger] (a + b)[i]).from < 64 && (a + b)[i].to < 64 by {
            if i >= a.len() {
                assert((a + b)[i] == b[i - a.len()]);
            }
        }
    }
}

/// What a pseudo-legal move of `c` is: it leaves a square that holds a piece
/// of `c` of its type, and either follows that piece's movement rule (only a
/// pawn promoting) or is an allowed castling.
pub open spec fn pseudo_legal(p: Position, c: Color, m: Move) -> bool {
    &&& 0 <= m.from < 64
    &&& 0 <= m.to < 64
    &&& p.holds(c, m.piece, m.from as int)
    &&& if m.is_castling {
        &&& m.piece == PieceType::King
        &&& (m == castle_move(c, true) && castle_ok(p, c, true)) || (m == castle_move(c, false)
            && castle_ok(p, c, false))
    } else {
        &&& target_of(p, c, m.piece, m.from as int, m.to as int)
        &&& m.promotion_rights ==> m.piece == PieceType::Pawn
    }
}

proof fn lemma_concat_contains(a: Seq<Move>, b: Seq<Move>, x: Move)
    requires
        (a + b).contains(x),
    ensures
        a.contains(x) || b.contains(x),
{
    let k = choose|k: int| 0 <= k < (a + b).len() && (a + b)[k] == x;
    if k < a.len() {
        assert(a[k] == x);
    } else {
        assert(b[k - a.len()] == x);
    }
}

proof fn lemma_target_moves_member(
    from: int,
    piece: PieceType,
    promo: bool,
    castle: bool,
    f: spec_fn(int) -> bool,
    m: Move,
)
    requires
        0 <= from < 64,
        target_moves(from, piece, promo, castle, f).contains(m),
    ensures
        m.from == from,
        m.piece == piece,
        m.promotion_rights == promo,
        m.is_castling == castle,
        f(m.to as int),
        m.to < 64,
{
    lemma_squares_where_shape(f, 64);
    let sq = squares_where(f, 64);
    let ms = target_moves(from, piece, promo, castle, f);
    let k = choose|k: int| 0 <= k < ms.len() && ms[k] == m;
    assert(m.to == sq[k]);
    assert(f(sq[k] as int));
}

proof fn lemma_piece_moves_member(p: Position, from: int, piece: PieceType, c: Color, m: Move)
    requires
        0 <= from < 64,
        p.holds(c, piece, from),
        piece_moves(p, from, piece, c).contains(m),
    ensures
        pseudo_legal(p, c, m),
{
    match piece {
        PieceType::Pawn => {
            lemma_target_moves_member(from, PieceType::Pawn, promotes(c, from), false, |t: int| pawn_target(p, c, from, t), m);
        },
        PieceType::Queen => {
            let a = target_moves(from, PieceType::Queen, false, false, |t: int| rook_target(p, c, from, t));
            let b = target_moves(from, PieceType::Queen, false, false, |t: int| bishop_target(p, c, from, t));
            lemma_concat_contains(a, b, m);
            if a.contains(m) {
                lemma_target_moves_member(from, PieceType::Queen, false, false, |t: int| rook_target(p, c, from, t), m);
            } else {
                lemma_target_moves_member(from, PieceType::Queen, false, false, |t: int| bishop_target(p, c, from, t), m);
            }
        },
        PieceType::King => {
            let a = target_moves(from, PieceType::King, false, false, |t: int| king_target(p, c, from, t));
            let b = castle_moves(p, c, from);
            lemma_concat_contains(a, b, m);
            if a.contains(m) {
                lemma_target_moves_member(from, PieceType::King, false, false, |t: int| king_target(p, c, from, t), m);
            } else {
                assert(from == king_home(c));
                lemma_concat_contains(castle_if(p, c, true), castle_if(p, c, false), m);
                if castle_if(p, c, true).contains(m) {
                    assert(m == castle_move(c, true));
                } else {
                    assert(m == castle_move(c, false));
                }
            }
        },
        _ => {
            lemma_target_moves_member(from, piece, false, false, |t: int| target_of(p, c, piece, from, t), m);
        },
    }
}

proof fn lemma_type_moves_member(p: Position, c: Color, piece: PieceType, n: nat, m: Move)
    requires
        n <= 64,
        type_moves(p, c, piece, n).contains(m),
    ensures
        pseudo_legal(p, c, m),
    decreases n,
{
    if n > 0 {
        let a = type_moves(p, c, piece, (n - 1) as nat);
        let b = if p.holds(c, piece, n - 1) { piece_moves(p, n - 1, piece, c) } else { Seq::empty() };
        lemma_concat_contains(a, b, m);
        if a.contains(m) {
            lemma_type_moves_member(p, c, piece, (n - 1) as nat, m);
        } else {
            lemma_piece_moves_member(p, n - 1, piece, c, m);
        }
    }
}

/// Every move that `generate_moves_for_side` lists is pseudo-legal.
pub proof fn lemma_side_moves_member(p: Position, c: Color, k: nat, m: Move)
    requires
        k <= 6,
        side_moves_upto(p, c, k).contains(m),
    ensures
        pseudo_legal(p, c, m),
    decreases k,
{
    if k > 0 {
        let a = side_moves_upto(p, c, (k - 1) as nat);
        let b = type_moves(p, c, side_order()[k - 1], 64);
        lemma_concat_contains(a, b, m);
        if a.contains(m) {
            lemma_side_moves_member(p, c, (k - 1) as nat, m);
        } else {
            lemma_type_moves_member(p, c, side_order()[k - 1], 64, m);
        }
    }
}

impl Move {
    /// Whether the square `offset` away from `from` is on the board and set in `bitboard`.
    fn is_square_occupied(bitboard: u64, from: u8, offset: i8) -> (r: bool)
        requires
            from < 64,
        ensures
            r == bit(bitboard, from + offset),
    {
        let target: i16 = from as i16 + offset as i16;
        if 0 <= target && target < 64 {
            test_bit(bitboard, target as u8)
        } else {
            false
        }
    }

    /// The union of the masks of `color`.
    pub fn get_own_pieces(bitboards: &Bitboards, color: Color) -> (r: u64)
        ensures
            forall|s: int| #[trigger] bit(r, s) == bitboards@.occupied_by(color, s),
    {
        let a = bitboards.boards[slot_of(color, PieceType::Pawn)];
        let b = bitboards.boards[slot_of(color, PieceType::Rook)];
        let c = bitboards.boards[slot_of(color, PieceType::Knight)];
        let d = bitboards.boards[slot_of(color, PieceType::Bishop)];
        let e = bitboards.boards[slot_of(color, PieceType::Queen)];
        let f = bitboards.boards[slot_of(color, PieceType::King)];
        proof {
            lemma_bit_or(a, b);
            lemma_bit_or(a | b, c);
            lemma_bit_or(a | b | c, d);
            lemma_bit_or(a | b | c | d, e);
            lemma_bit_or(a | b | c | d | e, f);
        }
        a | b | c | d | e | f
    }

    /// The union of the masks of the opponent of `color`.
    pub fn get_opponent_pieces(bitboards: &Bitboards, color: Color) -> (r: u64)
        ensures
            forall|s: int| #[trigger] bit(r, s) == bitboards@.occupied_by(color.other(), s),
    {
        let opponent = match color {
            Color::White => Color::Black,
            Color::Black => Color::White,
        };
        Self::get_own_pieces(bitboards, opponent)
    }

    /// One move from `from_sq` to each set bit of `destinations`, lowest first.
    pub fn moves_from_bitboard(
        from_sq: u8,
        piece: PieceType,
        destinations: u64,
        promotion_rights: bool,
        is_castling: bool,
    ) -> (r: Vec<Move>)
        ensures
            r@ == moves_to(from_sq as int, piece, promotion_rights, is_castling, squares_of(destinations)),
    {
        let mut moves_vec: Vec<Move> = Vec::new();
        let mut i: u8 = 0;
        while i < 64
            invariant
                i <= 64,
                moves_vec@ == moves_to(
                    from_sq as int,
                    piece,
                    promotion_rights,
                    is_castling,
                    squares_where(|j: int| bit(destinations, j), i as nat),
                ),
            decreases 64 - i,
        {
            if test_bit(destinations, i) {
                let m = Move { from: from_sq, to: i, piece, promotion_rights, is_castling };
                moves_vec.push(m);
                proof {
                    let prev = squares_where(|j: int| bit(destinations, j), i as nat);
                    assert(moves_to(from_sq as int, piece, promotion_rights, is_castling, prev.push(i))
                        =~= moves_to(from_sq as int, piece, promotion_rights, is_castling, prev).push(m));
                }
            }
            i = i + 1;
        }
        moves_vec
    }

    /// `mask` with the square `dr` ranks and `df` files from `sq` added, when it
    /// is on the board and not in `own`.
    fn add_offset(mask: u64, sq: u8, dr: i8, df: i8, own: u64) -> (r: u64)
        requires
            sq < 64,
            -2 <= dr <= 2,
            -2 <= df <= 2,
        ensures
            forall|t: int| #[trigger] bit(r, t) == (bit(mask, t) || (offset_hit(sq as int, dr as int, df as int, t) && !bit(own, t))),
    {
        let r: i8 = (sq / 8) as i8 + dr;
        let f: i8 = (sq % 8) as i8 + df;
        if 0 <= r && r < 8 && 0 <= f && f < 8 {
            let t: u8 = (r * 8 + f) as u8;
            if !test_bit(own, t) {
                return set_bit(mask, t);
            }
        }
        mask
    }

    /// `mask` with the squares that a slider of `color` on `sq` reaches along (dr, df) added.
    fn slide(mask: u64, sq: u8, dr: i8, df: i8, own: u64, enemy: u64, board: &Bitboards, color: Color) -> (r: u64)
        requires
            sq < 64,
            -1 <= dr <= 1,
            -1 <= df <= 1,
            dr != 0 || df != 0,
            forall|s: int| #[trigger] bit(own, s) == board@.occupied_by(color, s),
            forall|s: int| #[trigger] bit(enemy, s) == board@.occupied_by(color.other(), s),
        ensures
            forall|t: int| #[trigger] bit(r, t) == (bit(mask, t) || ray_target(board@, color, sq as int, dr as int, df as int, t)),
    {
        let ghost p = board@;
        let ghost from = sq as int;
        let mut r: i8 = (sq / 8) as i8;
        let mut f: i8 = (sq % 8) as i8;
        let mut k: i8 = 0;
        let mut m = mask;
        loop
            invariant_except_break
                forall|t: int| #[trigger] bit(m, t) == (bit(mask, t) || (ray_target(p, color, from, dr as int, df as int, t) && ray_steps(from, dr as int, df as int, t) <= k)),
            invariant
                0 <= k <= 7,
                r == rank(from) + scale(dr as int, k as int),
                f == file(from) + scale(df as int, k as int),
                0 <= r < 8,
                0 <= f < 8,
                path_clear(p, from, dr as int, df as int, k as nat),
                -1 <= dr <= 1,
                -1 <= df <= 1,
                dr != 0 || df != 0,
                p == board@,
                from == sq,
                sq < 64,
                forall|s: int| #[trigger] bit(own, s) == board@.occupied_by(color, s),
                forall|s: int| #[trigger] bit(enemy, s) == board@.occupied_by(color.other(), s),
            ensures
                forall|t: int| #[trigger] bit(m, t) == (bit(mask, t) || ray_target(p, color, from, dr as int, df as int, t)),
            decreases 7 - k,
        {
            let nr: i8 = r + dr;
            let nf: i8 = f + df;
            let ghost k1 = k + 1;
            if nr < 0 || nr >= 8 || nf < 0 || nf >= 8 {
                proof {
                    assert forall|t: int| #[trigger] bit(m, t) == (bit(mask, t) || ray_target(p, color, from, dr as int, df as int, t)) by {
                        if ray_target(p, color, from, dr as int, df as int, t) {
                            assert(ray_steps(from, dr as int, df as int, t) <= k);
                        }
                    }
                }
                break;
            }
            let t: u8 = (nr * 8 + nf) as u8;
            assert(t == ray_square(from, dr as int, df as int, k1));
            if test_bit(own, t) {
                proof {
                    assert forall|u: int| #[trigger] bit(m, u) == (bit(mask, u) || ray_target(p, color, from, dr as int, df as int, u)) by {
                        if ray_target(p, color, from, dr as int, df as int, u) && ray_steps(from, dr as int, df as int, u) > k {
                            let ku = ray_steps(from, dr as int, df as int, u);
                            if ku == k1 {
                                assert(u == t);
                            } else {
                                lemma_path_clear(p, from, dr as int, df as int, (ku - 1) as nat, k1);
                            }
                        }
                    }
                }
                break;
            }
            let m2 = set_bit(m, t);
            proof {
                assert(rank(t as int) == nr && file(t as int) == nf);
                assert(ray_steps(from, dr as int, df as int, t as int) == k1);
                assert(ray_target(p, color, from, dr as int, df as int, t as int));
                assert forall|u: int| #[trigger] bit(m2, u) == (bit(mask, u) || (ray_target(p, color, from, dr as int, df as int, u) && ray_steps(from, dr as int, df as int, u) <= k1)) by {
                    if ray_target(p, color, from, dr as int, df as int, u) && ray_steps(from, dr as int, df as int, u) == k1 {
                        assert(u == t);
                    }
                }
            }
            m = m2;
            if test_bit(enemy, t) {
                proof {
                    assert forall|u: int| #[trigger] bit(m, u) == (bit(mask, u) || ray_target(p, color, from, dr as int, df as int, u)) by {
                        if ray_target(p, color, from, dr as int, df as int, u) && ray_steps(from, dr as int, df as int, u) > k1 {
                            let ku = ray_steps(from, dr as int, df as int, u);
                            lemma_path_clear(p, from, dr as int, df as int, (ku - 1) as nat, k1);
                        }
                    }
                }
                break;
            }
            r = nr;
            f = nf;
            k = k + 1;
            proof {
                assert(path_clear(p, from, dr as int, df as int, k as nat));
            }
        }
        m
    }

    /// The non-castling destinations of a king of `color` on `sq`.
    fn king_targets(sq: u8, color: Color, board: &Bitboards) -> (r: u64)
        requires
            sq < 64,
        ensures
            forall|t: int| #[trigger] bit(r, t) == king_target(board@, color, sq as int, t),
    {
        let own = Self::get_own_pieces(board, color);
        let mut m: u64 = 0;
        proof {
            lemma_bit_zero();
        }
        m = Self::add_offset(m, sq, 0, 1, own);
        m = Self::add_offset(m, sq, 0, -1, own);
        m = Self::add_offset(m, sq, 1, 0, own);
        m = Self::add_offset(m, sq, -1, 0, own);
        m = Self::add_offset(m, sq, 1, 1, own);
        m = Self::add_offset(m, sq, 1, -1, own);
        m = Self::add_offset(m, sq, -1, 1, own);
        m = Self::add_offset(m, sq, -1, -1, own);
        proof {
            assert forall|t: int| #[trigger] bit(m, t) == king_target(board@, color, sq as int, t) by {
                lemma_offset_hit(sq as int, 0, 1, t);
                lemma_offset_hit(sq as int, 0, -1, t);
                lemma_offset_hit(sq as int, 1, 0, t);
                lemma_offset_hit(sq as int, -1, 0, t);
                lemma_offset_hit(sq as int, 1, 1, t);
                lemma_offset_hit(sq as int, 1, -1, t);
                lemma_offset_hit(sq as int, -1, 1, t);
                lemma_offset_hit(sq as int, -1, -1, t);
            }
        }
        m
    }

    /// The destinations of a rook of `color` on `sq`.
    fn rook_targets(sq: u8, color: Color, board: &Bitboards) -> (r: u64)
        requires
            sq < 64,
        ensures
            forall|t: int| #[trigger] bit(r, t) == rook_target(board@, color, sq as int, t),
    {
        let own = Self::get_own_pieces(board, color);
        let enemy = Self::get_opponent_pieces(board, color);
        proof {
            lemma_bit_zero();
        }
        let m = Self::slide(0, sq, 1, 0, own, enemy, board, color);
        let m = Self::slide(m, sq, -1, 0, own, enemy, board, color);
        let m = Self::slide(m, sq, 0, 1, own, enemy, board, color);
        Self::slide(m, sq, 0, -1, own, enemy, board, color)
    }

    /// The destinations of a bishop of `color` on `sq`.
    fn bishop_targets(sq: u8, color: Color, board: &Bitboards) -> (r: u64)
        requires
            sq < 64,
        ensures
            forall|t: int| #[trigger] bit(r, t) == bishop_target(board@, color, sq as int, t),
    {
        let own = Self::get_own_pieces(board, color);
        let enemy = Self::get_opponent_pieces(board, color);
        proof {
            lemma_bit_zero();
        }
        let m = Self::slide(0, sq, 1, 1, own, enemy, board, color);
        let m = Self::slide(m, sq, 1, -1, own, enemy, board, color);
        let m = Self::slide(m, sq, -1, 1, own, enemy, board, color);
        Self::slide(m, sq, -1, -1, own, enemy, board, color)
    }

    /// The destinations of a pawn of `color` on `sq`.
    fn pawn_targets(sq: u8, color: Color, board: &Bitboards) -> (r: u64)
        requires
            sq < 64,
        ensures
            forall|t: int| #[trigger] bit(r, t) == pawn_target(board@, color, sq as int, t),
    {
        let own = Self::get_own_pieces(board, color);
        let enemy = Self::get_opponent_pieces(board, color);
        let ghost p = board@;
        let fwd: i8 = match color {
            Color::White => 1,
            Color::Black => -1,
        };
        let start: i8 = match color {
            Color::White => 1,
            Color::Black => 6,
        };
        let ep_rank: i8 = match color {
            Color::White => 5,
            Color::Black => 2,
        };
        let r: i8 = (sq / 8) as i8;
        let f: i8 = (sq % 8) as i8;
        let nr: i8 = r + fwd;
        let mut m: u64 = 0;
        proof {
            lemma_bit_zero();
        }
        if 0 <= nr && nr < 8 {
            let t1: u8 = (nr * 8 + f) as u8;
            if !test_bit(own, t1) && !test_bit(enemy, t1) {
                m = set_bit(m, t1);
                let nr2: i8 = nr + fwd;
                if r == start && 0 <= nr2 && nr2 < 8 {
                    let t2: u8 = (nr2 * 8 + f) as u8;
                    if !test_bit(own, t2) && !test_bit(enemy, t2) {
                        m = set_bit(m, t2);
                    }
                }
            }
            if f > 0 {
                let t3: u8 = (nr * 8 + f - 1) as u8;
                if test_bit(enemy, t3) || (board.en_passant_square == Some(t3) && nr == ep_rank) {
                    m = set_bit(m, t3);
                }
            }
            if f < 7 {
                let t4: u8 = (nr * 8 + f + 1) as u8;
                if test_bit(enemy, t4) || (board.en_passant_square == Some(t4) && nr == ep_rank) {
                    m = set_bit(m, t4);
                }
            }
        }
        proof {
            assert forall|t: int| #[trigger] bit(m, t) == pawn_target(p, color, sq as int, t) by {
                lemma_offset_hit(sq as int, fwd as int, 0, t);
                lemma_offset_hit(sq as int, 2 * fwd as int, 0, t);
                lemma_offset_hit(sq as int, fwd as int, -1, t);
                lemma_offset_hit(sq as int, fwd as int, 1, t);
            }
        }
        m
    }

    /// The destinations of a piece of type `piece` and color `color` on `sq`,
    /// castling aside.
    pub fn piece_targets(sq: u8, piece: PieceType, color: Color, board: &Bitboards) -> (r: u64)
        requires
            sq < 64,
        ensures
            forall|t: int| #[trigger] bit(r, t) == target_of(board@, color, piece, sq as int, t),
    {
        match piece {
            PieceType::Pawn => Self::pawn_targets(sq, color, board),
            PieceType::Knight => Self::knight_targets(sq, color, board),
            PieceType::Bishop => Self::bishop_targets(sq, color, board),
            PieceType::Rook => Self::rook_targets(sq, color, board),
            PieceType::Queen => {
                let a = Self::rook_targets(sq, color, board);
                let b = Self::bishop_targets(sq, color, board);
                proof {
                    lemma_bit_or(a, b);
                }
                a | b
            },
            PieceType::King => Self::king_targets(sq, color, board),
        }
    }

    /// The pseudo-legal moves of a piece of type `piece` and color `color` on `sq`.
    pub fn generate_moves_for_piece(sq: u8, piece: PieceType, color: Color, boards: &Bitboards) -> (r: Vec<Move>)
        requires
            sq < 64,
        ensures
            r@ == piece_moves(boards@, sq as int, piece, color),
    {
        match piece {
            PieceType::Pawn => Self::pawn_moves(sq, color, boards),
            PieceType::Knight => Self::knight_moves(sq, color, boards),
            PieceType::King => Self::king_moves(sq, color, boards),
            PieceType::Rook => Self::rook_moves(sq, color, boards),
            PieceType::Bishop => Self::bishop_moves(sq, color, boards),
            PieceType::Queen => Self::queen_moves(sq, color, boards),
        }
    }

    /// The pseudo-legal moves of `color`: pawns, knights, bishops, rooks,
    /// queens, then the king, each type square by square upward.
    pub fn generate_moves_for_side(color: Color, boards: &Bitboards) -> (r: Vec<Move>)
        ensures
            r@ == side_moves(boards@, color),
    {
        let kinds: [PieceType; 6] = [
            PieceType::Pawn,
            PieceType::Knight,
            PieceType::Bishop,
            PieceType::Rook,
            PieceType::Queen,
            PieceType::King,
        ];
        let mut moves: Vec<Move> = Vec::new();
        let mut k: usize = 0;
        while k < 6
            invariant
                k <= 6,
                kinds@ == side_order(),
                moves@ == side_moves_upto(boards@, color, k as nat),
            decreases 6 - k,
        {
            let piece = kinds[k];
            let bb = boards.boards[slot_of(color, piece)];
            let mut sq: u8 = 0;
            while sq < 64
                invariant
                    sq <= 64,
                    k < 6,
                    piece == side_order()[k as int],
                    bb == boards@.mask(color, piece),
                    moves@ == side_moves_upto(boards@, color, k as nat) + type_moves(boards@, color, piece, sq as nat),
                decreases 64 - sq,
            {
                if test_bit(bb, sq) {
                    let mut more = Self::generate_moves_for_piece(sq, piece, color, boards);
                    moves.append(&mut more);
                }
                proof {
                    assert(side_moves_upto(boards@, color, k as nat) + type_moves(boards@, color, piece, (sq + 1) as nat)
                        =~= moves@);
                }
                sq = sq + 1;
            }
            k = k + 1;
        }
        moves
    }

    /// The castling move of the king of `color` on `king_sq` toward the rook
    /// home square `rook_sq`, when it is allowed.
    fn castling(king_sq: u8, rook_sq: u8, color: Color, board: &Bitboards) -> (r: Vec<Move>)
        requires
            king_sq == king_home(color),
            rook_sq == king_sq + 3 || rook_sq == king_sq - 4,
        ensures
            r@ == castle_if(board@, color, rook_sq > king_sq),
    {
        let own = Self::get_own_pieces(board, color);
        let enemy = Self::get_opponent_pieces(board, color);
        let kingside = rook_sq > king_sq;
        let right = match (color, kingside) {
            (Color::White, true) => board.white_kingside,
            (Color::White, false) => board.white_queenside,
            (Color::Black, true) => board.black_kingside,
            (Color::Black, false) => board.black_queenside,
        };
        let mut ok = right && test_bit(board.boards[slot_of(color, PieceType::Rook)], rook_sq);
        let to: u8;
        if kingside {
            ok = ok && !Self::is_square_occupied(own, king_sq, 1) && !Self::is_square_occupied(enemy, king_sq, 1)
                && !Self::is_square_occupied(own, king_sq, 2) && !Self::is_square_occupied(enemy, king_sq, 2)
                && !is_square_attacked(board, king_sq, color)
                && !is_square_attacked(board, king_sq + 1, color)
                && !is_square_attacked(board, king_sq + 2, color);
            to = king_sq + 2;
        } else {
            ok = ok && !Self::is_square_occupied(own, king_sq, -1) && !Self::is_square_occupied(enemy, king_sq, -1)
                && !Self::is_square_occupied(own, king_sq, -2) && !Self::is_square_occupied(enemy, king_sq, -2)
                && !Self::is_square_occupied(own, king_sq, -3) && !Self::is_square_occupied(enemy, king_sq, -3)
                && !is_square_attacked(board, king_sq, color)
                && !is_square_attacked(board, king_sq - 1, color)
                && !is_square_attacked(board, king_sq - 2, color);
            to = king_sq - 2;
        }
        let mut moves: Vec<Move> = Vec::new();
        if ok {
            moves.push(Move { from: king_sq, to, piece: PieceType::King, promotion_rights: false, is_castling: true });
        }
        proof {
            assert(moves@ =~= castle_if(board@, color, kingside));
        }
        moves
    }

    fn knight_moves(sq: u8, color: Color, board: &Bitboards) -> (r: Vec<Move>)
        requires
            sq < 64,
        ensures
            r@ == piece_moves(board@, sq as int, PieceType::Knight, color),
    {
        let m = Self::knight_targets(sq, color, board);
        proof {
            lemma_squares_where_ext(|i: int| bit(m, i), |t: int| target_of(board@, color, PieceType::Knight, sq as int, t), 64);
        }
        Self::moves_from_bitboard(sq, PieceType::Knight, m, false, false)
    }

    fn king_moves(sq: u8, color: Color, board: &Bitboards) -> (r: Vec<Move>)
        requires
            sq < 64,
        ensures
            r@ == piece_moves(board@, sq as int, PieceType::King, color),
    {
        let m = Self::king_targets(sq, color, board);
        proof {
            lemma_squares_where_ext(|i: int| bit(m, i), |t: int| king_target(board@, color, sq as int, t), 64);
        }
        let mut all_moves = Self::moves_from_bitboard(sq, PieceType::King, m, false, false);
        let is_home = match color {
            Color::White => sq == 4,
            Color::Black => sq == 60,
        };
        if is_home {
            let mut kingside = Self::castling(sq, sq + 3, color, board);
            let mut queenside = Self::castling(sq, sq - 4, color, board);
            all_moves.append(&mut kingside);
            all_moves.append(&mut queenside);
        }
        proof {
            assert(all_moves@ =~= piece_moves(board@, sq as int, PieceType::King, color));
        }
        all_moves
    }

    fn pawn_moves(sq: u8, color: Color, board: &Bitboards) -> (r: Vec<Move>)
        requires
            sq < 64,
        ensures
            r@ == piece_moves(board@, sq as int, PieceType::Pawn, color),
    {
        let m = Self::pawn_targets(sq, color, board);
        proof {
            lemma_squares_where_ext(|i: int| bit(m, i), |t: int| pawn_target(board@, color, sq as int, t), 64);
        }
        let promotion = match color {
            Color::White => 48 <= sq && sq <= 55,
            Color::Black => 8 <= sq && sq <= 15,
        };
        Self::moves_from_bitboard(sq, PieceType::Pawn, m, promotion, false)
    }

    /// The pseudo-legal moves of a rook of `color` on `sq`.
    pub fn rook_moves(sq: u8, color: Color, board: &Bitboards) -> (r: Vec<Move>)
        requires
            sq < 64,
        ensures
            r@ == piece_moves(board@, sq as int, PieceType::Rook, color),
    {
        let m = Self::rook_targets(sq, color, board);
        proof {
            lemma_squares_where_ext(|i: int| bit(m, i), |t: int| target_of(board@, color, PieceType::Rook, sq as int, t), 64);
        }
        Self::moves_from_bitboard(sq, PieceType::Rook, m, false, false)
    }

    /// The pseudo-legal moves of a bishop of `color` on `sq`.
    pub fn bishop_moves(sq: u8, color: Color, board: &Bitboards) -> (r: Vec<Move>)
        requires
            sq < 64,
        ensures
            r@ == piece_moves(board@, sq as int, PieceType::Bishop, color),
    {
        let m = Self::bishop_targets(sq, color, board);
        proof {
            lemma_squares_where_ext(|i: int| bit(m, i), |t: int| target_of(board@, color, PieceType::Bishop, sq as int, t), 64);
        }
        Self::moves_from_bitboard(sq, PieceType::Bishop, m, false, false)
    }

    /// The rook-direction moves, then the bishop-direction moves, of a queen.
    fn queen_moves(sq: u8, color: Color, board: &Bitboards) -> (r: Vec<Move>)
        requires
            sq < 64,
        ensures
            r@ == piece_moves(board@, sq as int, PieceType::Queen, color),
    {
        let a = Self::rook_targets(sq, color, board);
        let b = Self::bishop_targets(sq, color, board);
        proof {
            lemma_squares_where_ext(|i: int| bit(a, i), |t: int| rook_target(board@, color, sq as int, t), 64);
            lemma_squares_where_ext(|i: int| bit(b, i), |t: int| bishop_target(board@, color, sq as int, t), 64);
        }
        let mut moves = Self::moves_from_bitboard(sq, PieceType::Queen, a, false, false);
        let mut diagonal = Self::moves_from_bitboard(sq, PieceType::Queen, b, false, false);
        moves.append(&mut diagonal);
        moves
    }

    /// The destinations of a knight of `color` on `sq`.
    fn knight_targets(sq: u8, color: Color, board: &Bitboards) -> (r: u64)
        requires
            sq < 64,
        ensures
            forall|t: int| #[trigger] bit(r, t) == knight_target(board@, color, sq as int, t),
    {
        let own = Self::get_own_pieces(board, color);
        let mut m: u64 = 0;
        proof {
            lemma_bit_zero();
        }
        m = Self::add_offset(m, sq, 2, 1, own);
        m = Self::add_offset(m, sq, 2, -1, own);
        m = Self::add_offset(m, sq, 1, 2, own);
        m = Self::add_offset(m, sq, 1, -2, own);
        m = Self::add_offset(m, sq, -2, 1, own);
        m = Self::add_offset(m, sq, -2, -1, own);
        m = Self::add_offset(m, sq, -1, 2, own);
        m = Self::add_offset(m, sq, -1, -2, own);
        proof {
            assert forall|t: int| #[trigger] bit(m, t) == knight_target(board@, color, sq as int, t) by {
                lemma_offset_hit(sq as int, 2, 1, t);
                lemma_offset_hit(sq as int, 2, -1, t);
                lemma_offset_hit(sq as int, 1, 2, t);
                lemma_offset_hit(sq as int, 1, -2, t);
                lemma_offset_hit(sq as int, -2, 1, t);
                lemma_offset_hit(sq as int, -2, -1, t);
                lemma_offset_hit(sq as int, -1, 2, t);
                lemma_offset_hit(sq as int, -1, -2, t);
            }
        }
        m
    }
}

} // verus!
