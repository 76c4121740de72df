use vstd::prelude::*;
use crate::board::{
    lemma_bits_below_bound, popcount, slot_of, test_bit, Bitboards, Color, PieceType,
    Position,
};
use crate::movegen::{file, lemma_piece_moves_len, piece_moves, rank, Move};

verus! {

/// Weight of the mobility term.
pub const MOBILITY_WEIGHT: i64 = 5;

/// Material value of a piece type; the king counts for nothing.
pub open spec fn piece_value(t: PieceType) -> int {
    match t {
        PieceType::Pawn => 100,
        PieceType::Rook => 500,
        PieceType::Knight => 320,
        PieceType::Bishop => 330,
        PieceType::Queen => 900,
        PieceType::King => 0,
    }
}

/// Weight of one destination of a piece type in the mobility term.
pub open spec fn mobility_weight(t: PieceType) -> int {
    match t {
        PieceType::Pawn => 0,
        PieceType::Knight => 4,
        PieceType::Bishop => 4,
        PieceType::Rook => 5,
        PieceType::Queen => 9,
        PieceType::King => 0,
    }
}

/// The piece types in mask order.
pub open spec fn all_types() -> Seq<PieceType> {
    seq![
        PieceType::Pawn,
        PieceType::Rook,
        PieceType::Knight,
        PieceType::Bishop,
        PieceType::Queen,
        PieceType::King,
    ]
}

/// Material of white minus material of black, over the first `k` types.
pub open spec fn material_upto(p: Position, k: nat) -> int
    decreases k,
{
    if k == 0 {
        0
    } else {
        let t = all_types()[k - 1];
        material_upto(p, (k - 1) as nat) + (popcount(p.mask(Color::White, t)) - popcount(
            p.mask(Color::Black, t),
        )) * piece_value(t)
    }
}

pub open spec fn material(p: Position) -> int {
    material_upto(p, 6)
}

/// Weighted number of destinations of the pieces of type `t` and color `c`
/// on squares below `n`.
pub open spec fn type_mobility(p: Position, c: Color, t: PieceType, n: nat) -> int
    decreases n,
{
    if n == 0 {
        0
    } else {
        type_mobility(p, c, t, (n - 1) as nat) + if p.holds(c, t, n - 1) {
            mobility_weight(t) * piece_moves(p, n - 1, t, c).len()
        } else {
            0
        }
    }
}

pub open spec fn mobility_upto(p: Position, c: Color, k: nat) -> int
    decreases k,
{
    if k == 0 {
        0
    } else {
        mobility_upto(p, c, (k - 1) as nat) + type_mobility(p, c, all_types()[k - 1], 64)
    }
}

/// Weighted number of pseudo-legal destinations of the pieces of `c`.
pub open spec fn mobility(p: Position, c: Color) -> int {
    mobility_upto(p, c, 6)
}

/// The knight table, rank 1 first.
pub open spec fn knight_table() -> Seq<int> {
    seq![
        -50, -40, -30, -30, -30, -30, -40, -50,
        -40, -20,   0,   0,   0,   0, -20, -40,
        -30,   0,  10,  15,  15,  10,   0, -30,
        -30,   5,  15,  20,  20,  15,   5, -30,
        -30,   0,  15,  20,  20,  15,   0, -30,
        -30,   5,  10,  15,  15,  10,   5, -30,
        -40, -20,   0,   5,   5,   0, -20, -40,
        -50, -40, -30, -30, -30, -30, -40, -50,
    ]
}

/// The square with the same file on the mirrored rank.
pub open spec fn mirror(s: int) -> int {
    (7 - rank(s)) * 8 + file(s)
}

/// Table values of the white knights minus those of the black knights on
/// their mirrored squares, over squares below `n`.
pub open spec fn knight_placement(p: Position, n: nat) -> int
    decreases n,
{
    if n == 0 {
        0
    } else {
        let s = n - 1;
        knight_placement(p, (n - 1) as nat) + (if p.holds(Color::White, PieceType::Knight, s) {
            knight_table()[s]
        } else {
            0
        }) - (if p.holds(Color::Black, PieceType::Knight, s) {
            knight_table()[mirror(s)]
        } else {
            0
        })
    }
}

/// The static score of a position, white positive: material, five times the
/// mobility difference, and the knight table.
pub open spec fn evaluate(p: Position) -> int {
    material(p) + 5 * (mobility(p, Color::White) - mobility(p, Color::Black)) + knight_placement(p, 64)
}

fn mirror_square(square: u8) -> (r: u8)
    requires
        square < 64,
    ensures
        r == mirror(square as int),
        r < 64,
{
    let rank = square / 8;
    let file = square % 8;
    (7 - rank) * 8 + file
}

fn knight_table_at(s: u8) -> (r: i64)
    requires
        s < 64,
    ensures
        r == knight_table()[s as int],
{
    let table: [i64; 64] = [
        -50, -40, -30, -30, -30, -30, -40, -50,
        -40, -20,   0,   0,   0,   0, -20, -40,
        -30,   0,  10,  15,  15,  10,   0, -30,
        -30,   5,  15,  20,  20,  15,   5, -30,
        -30,   0,  15,  20,  20,  15,   0, -30,
        -30,   5,  10,  15,  15,  10,   5, -30,
        -40, -20,   0,   5,   5,   0, -20, -40,
        -50, -40, -30, -30, -30, -30, -40, -50,
    ];
    assert(table@.map_values(|v: i64| v as int) =~= knight_table());
    assert(table@.map_values(|v: i64| v as int)[s as int] == table@[s as int] as int);
    table[s as usize]
}

fn piece_value_of(t: PieceType) -> (r: i64)
    ensures
        r == piece_value(t),
{
    match t {
        PieceType::Pawn => 100,
        PieceType::Rook => 500,
        PieceType::Knight => 320,
        PieceType::Bishop => 330,
        PieceType::Queen => 900,
        PieceType::King => 0,
    }
}

fn mobility_weight_of(t: PieceType) -> (r: i64)
    ensures
        r == mobility_weight(t),
{
    match t {
        PieceType::Pawn => 0,
        PieceType::Knight => 4,
        PieceType::Bishop => 4,
        PieceType::Rook => 5,
        PieceType::Queen => 9,
        PieceType::King => 0,
    }
}

proof fn lemma_type_mobility_bound(p: Position, c: Color, t: PieceType, n: nat)
    ensures
        0 <= type_mobility(p, c, t, n) <= 1170 * n,
    decreases n,
{
    if n > 0 {
        lemma_type_mobility_bound(p, c, t, (n - 1) as nat);
        lemma_piece_moves_len(p, n - 1, t, c);
        let len = piece_moves(p, n - 1, t, c).len();
        assert(mobility_weight(t) * len <= 9 * 130) by (nonlinear_arith)
            requires
                0 <= mobility_weight(t) <= 9,
                len <= 130,
        ;
        assert(mobility_weight(t) * len >= 0) by (nonlinear_arith)
            requires
                0 <= mobility_weight(t),
                len >= 0,
        ;
    }
}

proof fn lemma_mobility_bound(p: Position, c: Color, k: nat)
    requires
        k <= 6,
    ensures
        0 <= mobility_upto(p, c, k) <= 74880 * k,
    decreases k,
{
    if k > 0 {
        lemma_mobility_bound(p, c, (k - 1) as nat);
        lemma_type_mobility_bound(p, c, all_types()[k - 1], 64);
    }
}

/// Material of white minus material of black.
fn material_score(board: &Bitboards) -> (r: i64)
    ensures
        r == material(board@),
        -400000 <= r <= 400000,
{
    let kinds: [PieceType; 6] = [
        PieceType::Pawn,
        PieceType::Rook,
        PieceType::Knight,
        PieceType::Bishop,
        PieceType::Queen,
        PieceType::King,
    ];
    let mut score: i64 = 0;
    let mut k: usize = 0;
    while k < 6
        invariant
            k <= 6,
            kinds@ == all_types(),
            score == material_upto(board@, k as nat),
            -57600 * (k as int) <= score <= 57600 * (k as int),
        decreases 6 - k,
    {
        let t = kinds[k];
        let white = Bitboards::count_pieces(board.boards[slot_of(Color::White, t)]) as i64;
        let black = Bitboards::count_pieces(board.boards[slot_of(Color::Black, t)]) as i64;
        proof {
            lemma_bits_below_bound(board@.mask(Color::White, t), 64);
            lemma_bits_below_bound(board@.mask(Color::Black, t), 64);
        }
        let v = piece_value_of(t);
        assert(-64 * 900 <= (white - black) * v <= 64 * 900) by (nonlinear_arith)
            requires
                0 <= white <= 64,
                0 <= black <= 64,
                0 <= v <= 900,
        ;
        score = score + (white - black) * v;
        k = k + 1;
    }
    score
}

/// Weighted number of pseudo-legal destinations of the pieces of `color`.
fn side_mobility(board: &Bitboards, color: Color) -> (r: i64)
    ensures
        r == mobility(board@, color),
{
    let kinds: [PieceType; 6] = [
        PieceType::Pawn,
        PieceType::Rook,
        PieceType::Knight,
        PieceType::Bishop,
        PieceType::Queen,
        PieceType::King,
    ];
    let mut total: i64 = 0;
    let mut k: usize = 0;
    while k < 6
        invariant
            k <= 6,
            kinds@ == all_types(),
            total == mobility_upto(board@, color, k as nat),
        decreases 6 - k,
    {
        let t = kinds[k];
        let bb = board.boards[slot_of(color, t)];
        let w = mobility_weight_of(t);
        let mut sub: i64 = 0;
        let mut s: u8 = 0;
        proof {
            lemma_mobility_bound(board@, color, k as nat);
        }
        while s < 64
            invariant
                s <= 64,
                k < 6,
                t == all_types()[k as int],
                bb == board@.mask(color, t),
                w == mobility_weight(t),
                sub == type_mobility(board@, color, t, s as nat),
                0 <= total <= 74880 * k,
                total == mobility_upto(board@, color, k as nat),
            decreases 64 - s,
        {
            proof {
                lemma_type_mobility_bound(board@, color, t, s as nat);
                lemma_type_mobility_bound(board@, color, t, (s + 1) as nat);
            }
            if test_bit(bb, s) {
                let moves = Move::generate_moves_for_piece(s, t, color, board);
                sub = sub + w * moves.len() as i64;
            }
            s = s + 1;
        }
        proof {
            lemma_type_mobility_bound(board@, color, t, 64);
        }
        total = total + sub;
        k = k + 1;
    }
    total
}

/// Table values of the white knights minus those of the black knights on
/// their mirrored squares.
fn knight_positional(board: &Bitboards) -> (r: i64)
    ensures
        r == knight_placement(board@, 64),
        -6400 <= r <= 6400,
{
    let white = board.boards[slot_of(Color::White, PieceType::Knight)];
    let black = board.boards[slot_of(Color::Black, PieceType::Knight)];
    let mut score: i64 = 0;
    let mut s: u8 = 0;
    while s < 64
        invariant
            s <= 64,
            white == board@.mask(Color::White, PieceType::Knight),
            black == board@.mask(Color::Black, PieceType::Knight),
            score == knight_placement(board@, s as nat),
            -100 * s <= score <= 100 * s,
        decreases 64 - s,
    {
        if test_bit(white, s) {
            score = score + knight_table_at(s);
        }
        if test_bit(black, s) {
            score = score - knight_table_at(mirror_square(s));
        }
        s = s + 1;
    }
    score
}

pub proof fn lemma_evaluate_bound(p: Position)
    ensures
        -5_000_000 <= evaluate(p) <= 5_000_000,
{
    lemma_mobility_bound(p, Color::White, 6);
    lemma_mobility_bound(p, Color::Black, 6);
    lemma_material_bound(p, 6);
    lemma_placement_bound(p, 64);
}

proof fn lemma_material_bound(p: Position, k: nat)
    requires
        k <= 6,
    ensures
        -57600 * k <= material_upto(p, k) <= 57600 * k,
    decreases k,
{
    if k > 0 {
        lemma_material_bound(p, (k - 1) as nat);
        let t = all_types()[k - 1];
        let w = popcount(p.mask(Color::White, t));
        let b = popcount(p.mask(Color::Black, t));
        lemma_bits_below_bound(p.mask(Color::White, t), 64);
        lemma_bits_below_bound(p.mask(Color::Black, t), 64);
        assert(-57600 <= (w - b) * piece_value(t) <= 57600) by (nonlinear_arith)
            requires
                0 <= w <= 64,
                0 <= b <= 64,
                0 <= piece_value(t) <= 900,
        ;
    }
}

proof fn lemma_placement_bound(p: Position, n: nat)
    requires
        n <= 64,
    ensures
        -100 * n <= knight_placement(p, n) <= 100 * n,
    decreases n,
{
    if n > 0 {
        lemma_placement_bound(p, (n - 1) as nat);
        let s = n - 1;
        if p.holds(Color::Black, PieceType::Knight, s) {
            assert(0 <= mirror(s) < 64);
        }
    }
}

/// The static score of `board`, white positive whatever `color` is.
pub fn evaluation(board: &Bitboards, color: Color) -> (r: i32)
    ensures
        r == evaluate(board@),
        -5_000_000 <= r <= 5_000_000,
{
    let material_score = material_score(board);
    let white = side_mobility(board, Color::White);
    let black = side_mobility(board, Color::Black);
    proof {
        lemma_mobility_bound(board@, Color::White, 6);
        lemma_mobility_bound(board@, Color::Black, 6);
    }
    let mobility_score = white - black;
    let pst_score = knight_positional(board);
    (material_score + mobility_score * MOBILITY_WEIGHT + pst_score) as i32
}

} // verus!
