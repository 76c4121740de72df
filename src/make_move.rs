use vstd::prelude::*;
use crate::board::{
    bit, clear_bit, lemma_bit_clear, lemma_bit_or, lemma_bit_single, set_bit, slot,
    slot_of, test_bit, Bitboards, Color, PieceType, Position,
};
use crate::movegen::{
    forward, king_home, king_reach, lemma_side_moves_member,
    lemma_side_moves_on_board, pseudo_legal, side_moves, target_of, Move,
};

verus! {

/// `m` without square `s`.
pub open spec fn without(m: u64, s: int) -> u64 {
    m & !(1u64 << (s as u64))
}

/// `m` with square `s`.
pub open spec fn with(m: u64, s: int) -> u64 {
    m | (1u64 << (s as u64))
}

pub open spec fn clear_at(masks: Seq<u64>, i: int, s: int) -> Seq<u64> {
    masks.update(i, without(masks[i], s))
}

pub open spec fn set_at(masks: Seq<u64>, i: int, s: int) -> Seq<u64> {
    masks.update(i, with(masks[i], s))
}

/// Clears `s` in the first of the masks `base + k`, ..., `base + 5` that holds it.
pub open spec fn capture_at(masks: Seq<u64>, base: int, k: nat, s: int) -> Seq<u64>
    decreases 6 - k,
{
    if k >= 6 {
        masks
    } else if bit(masks[base + k], s) {
        clear_at(masks, base + k, s)
    } else {
        capture_at(masks, base, k + 1, s)
    }
}

/// `m` is a pawn move onto the en-passant target.
pub open spec fn is_en_passant(p: Position, m: Move) -> bool {
    m.piece == PieceType::Pawn && p.en_passant == Some(m.to)
}

/// Square of the pawn taken en passant by a pawn of `c` landing on `to`.
pub open spec fn passed_pawn(c: Color, to: int) -> int {
    if c == Color::White {
        to - 8
    } else {
        to + 8
    }
}

/// The rook move that goes with a castling king move from `from` to `to`.
pub open spec fn move_rook(masks: Seq<u64>, from: int, to: int) -> Seq<u64> {
    let w = slot(Color::White, PieceType::Rook);
    let b = slot(Color::Black, PieceType::Rook);
    if from == 4 && to == 6 {
        set_at(clear_at(masks, w, 7), w, 5)
    } else if from == 4 && to == 2 {
        set_at(clear_at(masks, w, 0), w, 3)
    } else if from == 60 && to == 62 {
        set_at(clear_at(masks, b, 63), b, 61)
    } else if from == 60 && to == 58 {
        set_at(clear_at(masks, b, 56), b, 59)
    } else {
        masks
    }
}

/// The masks after the piece of `m` left its square and what it takes is removed.
pub open spec fn taken_masks(p: Position, m: Move, c: Color) -> Seq<u64> {
    let e = c.other();
    let lifted = clear_at(p.masks, slot(c, m.piece), m.from as int);
    if is_en_passant(p, m) {
        let s = passed_pawn(c, m.to as int);
        if 0 <= s < 64 {
            clear_at(lifted, slot(e, PieceType::Pawn), s)
        } else {
            lifted
        }
    } else {
        capture_at(lifted, slot(e, PieceType::Pawn), 0, m.to as int)
    }
}

/// The masks after `c` plays `m`.
pub open spec fn apply_masks(p: Position, m: Move, c: Color) -> Seq<u64> {
    let landing = if m.promotion_rights {
        slot(c, PieceType::Queen)
    } else {
        slot(c, m.piece)
    };
    let placed = set_at(taken_masks(p, m, c), landing, m.to as int);
    if m.is_castling {
        move_rook(placed, m.from as int, m.to as int)
    } else {
        placed
    }
}

/// A pawn move of two ranks.
pub open spec fn is_double_push(m: Move) -> bool {
    m.piece == PieceType::Pawn && (m.to - m.from == 16 || m.from - m.to == 16)
}

/// The position after `c` plays `m`, legal or not.
pub open spec fn apply(p: Position, m: Move, c: Color) -> Position {
    let king_moved = m.piece == PieceType::King;
    Position {
        masks: apply_masks(p, m, c),
        white_kingside: p.white_kingside && !(king_moved && c == Color::White) && m.from != 7
            && m.to != 7,
        white_queenside: p.white_queenside && !(king_moved && c == Color::White) && m.from != 0
            && m.to != 0,
        black_kingside: p.black_kingside && !(king_moved && c == Color::Black) && m.from != 63
            && m.to != 63,
        black_queenside: p.black_queenside && !(king_moved && c == Color::Black) && m.from != 56
            && m.to != 56,
        en_passant: if is_double_push(m) {
            Some(((m.from + m.to) / 2) as u8)
        } else {
            None
        },
    }
}

/// The king of `c` stands on an attacked square.
pub open spec fn in_check(p: Position, c: Color) -> bool {
    exists|s: int| 0 <= s < 64 && #[trigger] p.holds(c, PieceType::King, s) && attacked(p, s, c)
}

/// Playing `m` leaves the king of `c` unattacked.
pub open spec fn safe(p: Position, m: Move, c: Color) -> bool {
    !in_check(apply(p, m, c), c)
}

/// The moves of `ms` that are safe for `c`, in order.
pub open spec fn keep_safe(p: Position, c: Color, ms: Seq<Move>) -> Seq<Move>
    decreases ms.len(),
{
    if ms.len() == 0 {
        Seq::empty()
    } else {
        let last = ms.last();
        keep_safe(p, c, ms.drop_last()) + if safe(p, last, c) {
            seq![last]
        } else {
            Seq::empty()
        }
    }
}

/// The legal moves of `c`.
pub open spec fn legal_moves(p: Position, c: Color) -> Seq<Move> {
    keep_safe(p, c, side_moves(p, c))
}

/// A piece of color `e` on `s` attacks `sq`: `sq` is among its destinations,
/// or, for a king, at Chebyshev distance at most one (the king's own square
/// included).
pub open spec fn attacks_from(p: Position, e: Color, s: int, sq: int) -> bool {
    ||| p.holds(e, PieceType::Pawn, s) && target_of(p, e, PieceType::Pawn, s, sq)
    ||| p.holds(e, PieceType::Knight, s) && target_of(p, e, PieceType::Knight, s, sq)
    ||| p.holds(e, PieceType::Bishop, s) && target_of(p, e, PieceType::Bishop, s, sq)
    ||| p.holds(e, PieceType::Rook, s) && target_of(p, e, PieceType::Rook, s, sq)
    ||| p.holds(e, PieceType::Queen, s) && target_of(p, e, PieceType::Queen, s, sq)
    ||| p.holds(e, PieceType::King, s) && king_reach(s, sq)
}

/// Square `sq` is attacked by the opponent of `c`.
pub open spec fn attacked(p: Position, sq: int, c: Color) -> bool {
    exists|s: int| 0 <= s < 64 && #[trigger] attacks_from(p, c.other(), s, sq)
}

/// Whether the squares `a` and `b` are at Chebyshev distance at most one.
fn adjacent(a: u8, b: u8) -> (r: bool)
    requires
        a < 64,
        b < 64,
    ensures
        r == king_reach(a as int, b as int),
{
    let dr: i8 = (a / 8) as i8 - (b / 8) as i8;
    let df: i8 = (a % 8) as i8 - (b % 8) as i8;
    let dr = if dr < 0 { -dr } else { dr };
    let df = if df < 0 { -df } else { df };
    dr <= 1 && df <= 1
}

/// Whether the piece of color `enemy` on `s`, if any, attacks `sq`.
fn attacks_from_square(board: &Bitboards, enemy: Color, s: u8, sq: u8) -> (r: bool)
    requires
        s < 64,
        sq < 64,
    ensures
        r == attacks_from(board@, enemy, s as int, sq as int),
{
    let kinds: [PieceType; 5] = [
        PieceType::Pawn,
        PieceType::Knight,
        PieceType::Bishop,
        PieceType::Rook,
        PieceType::Queen,
    ];
    let mut k: usize = 0;
    while k < 5
        invariant
            k <= 5,
            s < 64,
            sq < 64,
            kinds@ == seq![PieceType::Pawn, PieceType::Knight, PieceType::Bishop, PieceType::Rook, PieceType::Queen],
            forall|j: int| 0 <= j < k ==> !(board@.holds(enemy, #[trigger] kinds@[j], s as int) && target_of(board@, enemy, kinds@[j], s as int, sq as int)),
        decreases 5 - k,
    {
        let piece = kinds[k];
        if test_bit(board.boards[slot_of(enemy, piece)], s) {
            let targets = Move::piece_targets(s, piece, enemy, board);
            if test_bit(targets, sq) {
                return true;
            }
        }
        k = k + 1;
    }
    proof {
        assert(!(board@.holds(enemy, kinds@[0], s as int) && target_of(board@, enemy, kinds@[0], s as int, sq as int)));
        assert(!(board@.holds(enemy, kinds@[1], s as int) && target_of(board@, enemy, kinds@[1], s as int, sq as int)));
        assert(!(board@.holds(enemy, kinds@[2], s as int) && target_of(board@, enemy, kinds@[2], s as int, sq as int)));
        assert(!(board@.holds(enemy, kinds@[3], s as int) && target_of(board@, enemy, kinds@[3], s as int, sq as int)));
        assert(!(board@.holds(enemy, kinds@[4], s as int) && target_of(board@, enemy, kinds@[4], s as int, sq as int)));
    }
    test_bit(board.boards[slot_of(enemy, PieceType::King)], s) && adjacent(s, sq)
}

/// Whether square `sq` is attacked by the opponent of `color`.
pub fn is_square_attacked(board: &Bitboards, sq: u8, color: Color) -> (r: bool)
    requires
        sq < 64,
    ensures
        r == attacked(board@, sq as int, color),
{
    let enemy_color = match color {
        Color::White => Color::Black,
        Color::Black => Color::White,
    };
    let mut s: u8 = 0;
    while s < 64
        invariant
            s <= 64,
            sq < 64,
            enemy_color == color.other(),
            forall|j: int| 0 <= j < s ==> !#[trigger] attacks_from(board@, enemy_color, j, sq as int),
        decreases 64 - s,
    {
        if attacks_from_square(board, enemy_color, s, sq) {
            return true;
        }
        s = s + 1;
    }
    false
}

/// What `keep_safe` keeps are safe moves of `ms`; when no move of `ms` is
/// safe it keeps nothing.
pub proof fn lemma_keep_safe(p: Position, c: Color, ms: Seq<Move>)
    ensures
        forall|i: int| 0 <= i < keep_safe(p, c, ms).len() ==> ms.contains(#[trigger] keep_safe(p, c, ms)[i]) && safe(p, keep_safe(p, c, ms)[i], c),
        (forall|i: int| 0 <= i < ms.len() ==> !safe(p, #[trigger] ms[i], c)) ==> keep_safe(p, c, ms).len() == 0,
    decreases ms.len(),
{
    if ms.len() > 0 {
        let init = ms.drop_last();
        lemma_keep_safe(p, c, init);
        let k = keep_safe(p, c, ms);
        let ki = keep_safe(p, c, init);
        assert forall|i: int| 0 <= i < k.len() implies ms.contains(#[trigger] k[i]) && safe(p, k[i], c) by {
            if i < ki.len() {
                assert(k[i] == ki[i]);
                let j = choose|j: int| 0 <= j < init.len() && init[j] == ki[i];
                assert(ms[j] == init[j]);
            } else {
                assert(k[i] == ms.last());
                assert(ms[ms.len() - 1] == ms.last());
            }
        }
        if forall|i: int| 0 <= i < ms.len() ==> !safe(p, #[trigger] ms[i], c) {
            assert forall|i: int| 0 <= i < init.len() implies !safe(p, #[trigger] init[i], c) by {
                assert(init[i] == ms[i]);
            }
            assert(!safe(p, ms[ms.len() - 1], c));
        }
    }
}

/// No square is held by two of the masks.
pub open spec fn slots_disjoint(ms: Seq<u64>) -> bool {
    forall|i: int, j: int, t: int|
        0 <= i < 12 && 0 <= j < 12 && #[trigger] bit(ms[i], t) && #[trigger] bit(ms[j], t) ==> i
            == j
}

/// A reachable position: twelve masks, no square held twice, and the
/// en-passant target, if any, an empty square.
pub open spec fn sound(p: Position) -> bool {
    &&& p.masks.len() == 12
    &&& p.disjoint()
    &&& match p.en_passant {
        Some(e) => !p.occupied(e as int),
        None => true,
    }
}

pub open spec fn slot_color(i: int) -> Color {
    if i < 6 {
        Color::White
    } else {
        Color::Black
    }
}

pub open spec fn slot_piece(i: int) -> PieceType {
    let k = i % 6;
    if k == 0 {
        PieceType::Pawn
    } else if k == 1 {
        PieceType::Rook
    } else if k == 2 {
        PieceType::Knight
    } else if k == 3 {
        PieceType::Bishop
    } else if k == 4 {
        PieceType::Queen
    } else {
        PieceType::King
    }
}

proof fn lemma_slots(p: Position)
    requires
        p.masks.len() == 12,
    ensures
        p.disjoint() <==> slots_disjoint(p.masks),
        forall|t: int| #[trigger] p.occupied(t) <==> exists|i: int| 0 <= i < 12 && #[trigger] bit(p.masks[i], t),
{
    assert forall|i: int| 0 <= i < 12 implies slot(slot_color(i), #[trigger] slot_piece(i)) == i by {}
    if p.disjoint() {
        assert forall|i: int, j: int, t: int|
            0 <= i < 12 && 0 <= j < 12 && #[trigger] bit(p.masks[i], t) && #[trigger] bit(p.masks[j], t) implies i == j by {
            assert(slot(slot_color(i), slot_piece(i)) == i);
            assert(slot(slot_color(j), slot_piece(j)) == j);
            assert(p.holds(slot_color(i), slot_piece(i), t));
            assert(p.holds(slot_color(j), slot_piece(j), t));
        }
    }
    if slots_disjoint(p.masks) {
        assert forall|t: int, c1: Color, p1: PieceType, c2: Color, p2: PieceType|
            p.holds(c1, p1, t) && p.holds(c2, p2, t) implies c1 == c2 && p1 == p2 by {
            assert(bit(p.masks[slot(c1, p1)], t));
            assert(bit(p.masks[slot(c2, p2)], t));
        }
    }
    assert forall|t: int| #[trigger] p.occupied(t) <==> exists|i: int| 0 <= i < 12 && #[trigger] bit(p.masks[i], t) by {
        if exists|i: int| 0 <= i < 12 && #[trigger] bit(p.masks[i], t) {
            let i = choose|i: int| 0 <= i < 12 && #[trigger] bit(p.masks[i], t);
            assert(slot(slot_color(i), slot_piece(i)) == i);
            assert(p.holds(slot_color(i), slot_piece(i), t));
        }
        if p.occupied(t) {
            let c = if p.occupied_by(Color::White, t) { Color::White } else { Color::Black };
            if p.holds(c, PieceType::Pawn, t) { assert(bit(p.masks[slot(c, PieceType::Pawn)], t)); }
            if p.holds(c, PieceType::Rook, t) { assert(bit(p.masks[slot(c, PieceType::Rook)], t)); }
            if p.holds(c, PieceType::Knight, t) { assert(bit(p.masks[slot(c, PieceType::Knight)], t)); }
            if p.holds(c, PieceType::Bishop, t) { assert(bit(p.masks[slot(c, PieceType::Bishop)], t)); }
            if p.holds(c, PieceType::Queen, t) { assert(bit(p.masks[slot(c, PieceType::Queen)], t)); }
            if p.holds(c, PieceType::King, t) { assert(bit(p.masks[slot(c, PieceType::King)], t)); }
        }
    }
}

proof fn lemma_clear_at(ms: Seq<u64>, k: int, s: int)
    requires
        0 <= s < 64,
        0 <= k < ms.len(),
    ensures
        clear_at(ms, k, s).len() == ms.len(),
        forall|i: int, t: int|
            0 <= i < ms.len() ==> #[trigger] bit(clear_at(ms, k, s)[i], t) == (bit(ms[i], t) && !(
            i == k && t == s)),
{
    lemma_bit_clear(ms[k], s as u64);
}

proof fn lemma_set_at(ms: Seq<u64>, k: int, s: int)
    requires
        0 <= s < 64,
        0 <= k < ms.len(),
    ensures
        set_at(ms, k, s).len() == ms.len(),
        forall|i: int, t: int|
            0 <= i < ms.len() ==> #[trigger] bit(set_at(ms, k, s)[i], t) == (bit(ms[i], t) || (i
                == k && t == s)),
{
    lemma_bit_single(s as u64);
    lemma_bit_or(ms[k], 1u64 << (s as u64));
}

proof fn lemma_capture_at(ms: Seq<u64>, base: int, k: nat, s: int)
    requires
        ms.len() == 12,
        base == 0 || base == 6,
        k <= 6,
        0 <= s < 64,
    ensures
        capture_at(ms, base, k, s).len() == 12,
        forall|i: int, t: int|
            0 <= i < 12 && #[trigger] bit(capture_at(ms, base, k, s)[i], t) ==> bit(ms[i], t),
        slots_disjoint(ms) ==> forall|j: int|
            base + k <= j < base + 6 ==> !#[trigger] bit(capture_at(ms, base, k, s)[j], s),
    decreases 6 - k,
{
    if k < 6 {
        if bit(ms[base + k], s) {
            lemma_clear_at(ms, base + k, s);
        } else {
            lemma_capture_at(ms, base, k + 1, s);
        }
    }
}

/// Playing a pseudo-legal move on a reachable position gives a reachable
/// position: still no square held by two pieces, and the new en-passant
/// target, if any, empty.
pub proof fn lemma_apply_sound(p: Position, c: Color, m: Move)
    requires
        sound(p),
        pseudo_legal(p, c, m),
    ensures
        sound(apply(p, m, c)),
{
    let ms = p.masks;
    let e = c.other();
    let from = m.from as int;
    let to = m.to as int;
    let q = apply(p, m, c);
    lemma_slots(p);
    // the mover does not hold the landing square
    assert(!p.occupied_by(c, to));
    let lifted = clear_at(ms, slot(c, m.piece), from);
    lemma_clear_at(ms, slot(c, m.piece), from);
    assert(slots_disjoint(lifted));
    let taken = taken_masks(p, m, c);
    assert(taken.len() == 12 && forall|i: int, t: int| 0 <= i < 12 && #[trigger] bit(taken[i], t) ==> bit(ms[i], t)) by {
        if is_en_passant(p, m) {
            let s = passed_pawn(c, to);
            if 0 <= s < 64 {
                lemma_clear_at(lifted, slot(e, PieceType::Pawn), s);
            }
        } else {
            lemma_capture_at(lifted, slot(e, PieceType::Pawn), 0, to);
        }
    }
    assert forall|i: int| 0 <= i < 12 implies !#[trigger] bit(taken[i], to) by {
        if is_en_passant(p, m) {
            assert(!p.occupied(to));
            if bit(ms[i], to) {
                assert(p.occupied(to));
            }
        } else {
            lemma_capture_at(lifted, slot(e, PieceType::Pawn), 0, to);
            if bit(taken[i], to) {
                assert(bit(ms[i], to));
                assert(slot(slot_color(i), slot_piece(i)) == i);
                assert(p.holds(slot_color(i), slot_piece(i), to));
                if slot_color(i) == c {
                    assert(p.occupied_by(c, to));
                }
            }
        }
    }
    let landing = if m.promotion_rights { slot(c, PieceType::Queen) } else { slot(c, m.piece) };
    let placed = set_at(taken, landing, to);
    lemma_set_at(taken, landing, to);
    let ns = apply_masks(p, m, c);
    let r = slot(c, PieceType::Rook);
    let rook_to = if m.to == king_home(c) + 2 { king_home(c) + 1 } else { king_home(c) - 1 };
    let rook_from = if m.to == king_home(c) + 2 { king_home(c) + 3 } else { king_home(c) - 4 };
    if m.is_castling {
        assert(ns == set_at(clear_at(placed, r, rook_from), r, rook_to));
        lemma_clear_at(placed, r, rook_from);
        lemma_set_at(clear_at(placed, r, rook_from), r, rook_to);
        assert(!p.occupied(rook_to));
        assert forall|i: int| 0 <= i < 12 implies !#[trigger] bit(ms[i], rook_to) by {
            if bit(ms[i], rook_to) {
                assert(p.occupied(rook_to));
            }
        }
    }
    // which masks hold a square after the move
    assert forall|i: int, t: int| 0 <= i < 12 && #[trigger] bit(ns[i], t) implies
        (bit(ms[i], t) && t != to && !(m.is_castling && t == rook_to))
        || (i == landing && t == to)
        || (m.is_castling && i == r && t == rook_to) by {
        if bit(taken[i], t) {
            assert(bit(ms[i], t));
        }
    }
    assert(ns.len() == 12);
    assert(slots_disjoint(ns)) by {
        assert forall|i: int, j: int, t: int|
            0 <= i < 12 && 0 <= j < 12 && #[trigger] bit(ns[i], t) && #[trigger] bit(ns[j], t) implies i == j by {
            if !(t == to) && !(m.is_castling && t == rook_to) {
                assert(bit(ms[i], t) && bit(ms[j], t));
            }
        }
    }
    lemma_slots(q);
    if is_double_push(m) {
        let mid = (from + to) / 2;
        assert(mid == from + 8 * forward(c));
        assert(!p.occupied(mid));
        assert forall|i: int| 0 <= i < 12 implies !#[trigger] bit(ns[i], mid) by {
            if bit(ms[i], mid) {
                assert(p.occupied(mid));
            }
        }
    }
}

/// Every move that `generate_moves_for_side` lists for `c`, played on a
/// reachable position, leaves a reachable position: no square ends up held by
/// two pieces.
pub proof fn lemma_side_move_keeps_sound(p: Position, c: Color, m: Move)
    requires
        sound(p),
        side_moves(p, c).contains(m),
    ensures
        sound(apply(p, m, c)),
        apply(p, m, c).disjoint(),
{
    lemma_side_moves_member(p, c, 6, m);
    lemma_apply_sound(p, c, m);
}

/// Whether the king of `color` stands on an attacked square.
pub fn is_check(board: &Bitboards, color: Color) -> (r: bool)
    ensures
        r == in_check(board@, color),
{
    let kings = board.boards[slot_of(color, PieceType::King)];
    let mut s: u8 = 0;
    while s < 64
        invariant
            s <= 64,
            kings == board@.mask(color, PieceType::King),
            forall|j: int| 0 <= j < s ==> !(#[trigger] board@.holds(color, PieceType::King, j) && attacked(board@, j, color)),
        decreases 64 - s,
    {
        if test_bit(kings, s) && is_square_attacked(board, s, color) {
            return true;
        }
        s = s + 1;
    }
    false
}

/// Removes `to` from the first of the six masks from `base` on that holds it.
fn take_first(boards: &mut [u64; 12], base: usize, to: u8)
    requires
        base == 0 || base == 6,
        to < 64,
    ensures
        final(boards)@ == capture_at(old(boards)@, base as int, 0, to as int),
{
    let ghost start = boards@;
    let mut k: usize = 0;
    while k < 6
        invariant_except_break
            boards@ == start,
        invariant
            k <= 6,
            base == 0 || base == 6,
            to < 64,
            capture_at(start, base as int, 0, to as int) == capture_at(start, base as int, k as nat, to as int),
        ensures
            boards@ == capture_at(start, base as int, 0, to as int),
        decreases 6 - k,
    {
        if test_bit(boards[base + k], to) {
            boards[base + k] = clear_bit(boards[base + k], to);
            assert(boards@ =~= clear_at(start, base + k, to as int));
            break;
        }
        k = k + 1;
    }
}

/// The masks after the piece of `mv` left its square and what it takes is removed.
fn lift_and_take(board: &Bitboards, mv: &Move, color: Color) -> (r: [u64; 12])
    requires
        mv.from < 64,
        mv.to < 64,
    ensures
        r@ == taken_masks(board@, *mv, color),
{
    let mut boards = board.boards;
    let enemy_color = match color {
        Color::White => Color::Black,
        Color::Black => Color::White,
    };
    let i = slot_of(color, mv.piece);
    boards[i] = clear_bit(boards[i], mv.from);
    assert(boards@ =~= clear_at(board@.masks, slot(color, mv.piece), mv.from as int));
    let base = slot_of(enemy_color, PieceType::Pawn);
    if mv.piece == PieceType::Pawn && board.en_passant_square == Some(mv.to) {
        let captured: i16 = match color {
            Color::White => mv.to as i16 - 8,
            Color::Black => mv.to as i16 + 8,
        };
        if 0 <= captured && captured < 64 {
            let ghost before = boards@;
            boards[base] = clear_bit(boards[base], captured as u8);
            assert(boards@ =~= clear_at(before, base as int, captured as int));
        }
    } else {
        take_first(&mut boards, base, mv.to);
    }
    boards
}

/// The masks after `color` plays `mv`.
fn moved_masks(board: &Bitboards, mv: &Move, color: Color) -> (r: [u64; 12])
    requires
        mv.from < 64,
        mv.to < 64,
    ensures
        r@ == apply_masks(board@, *mv, color),
{
    let mut boards = lift_and_take(board, mv, color);
    let landing = if mv.promotion_rights {
        slot_of(color, PieceType::Queen)
    } else {
        slot_of(color, mv.piece)
    };
    let ghost taken = boards@;
    boards[landing] = set_bit(boards[landing], mv.to);
    let ghost placed = boards@;
    assert(placed =~= set_at(taken, landing as int, mv.to as int));
    if mv.is_castling {
        let w = slot_of(Color::White, PieceType::Rook);
        let b = slot_of(Color::Black, PieceType::Rook);
        if mv.from == 4 && mv.to == 6 {
            boards[w] = set_bit(clear_bit(boards[w], 7), 5);
        } else if mv.from == 4 && mv.to == 2 {
            boards[w] = set_bit(clear_bit(boards[w], 0), 3);
        } else if mv.from == 60 && mv.to == 62 {
            boards[b] = set_bit(clear_bit(boards[b], 63), 61);
        } else if mv.from == 60 && mv.to == 58 {
            boards[b] = set_bit(clear_bit(boards[b], 56), 59);
        }
        assert(boards@ =~= move_rook(placed, mv.from as int, mv.to as int));
    }
    boards
}

/// Plays `mv` for `color`: lifts the piece, removes what it takes (en
/// passant included), places it (as a queen on promotion), moves the rook of
/// a castling, and updates the en-passant target and castling rights.
pub fn apply_move(board: &mut Bitboards, mv: &Move, color: Color)
    requires
        mv.from < 64,
        mv.to < 64,
    ensures
        final(board)@ == apply(old(board)@, *mv, color),
{
    let ghost p = old(board)@;
    board.boards = moved_masks(board, mv, color);

    // en-passant target
    board.en_passant_square = None;
    if mv.piece == PieceType::Pawn && (mv.to as i16 - mv.from as i16 == 16 || mv.from as i16
        - mv.to as i16 == 16) {
        board.en_passant_square = Some(((mv.from as u16 + mv.to as u16) / 2) as u8);
    }

    // castling rights
    if mv.piece == PieceType::King {
        match color {
            Color::White => {
                board.white_kingside = false;
                board.white_queenside = false;
            },
            Color::Black => {
                board.black_kingside = false;
                board.black_queenside = false;
            },
        }
    }
    if mv.from == 0 || mv.to == 0 {
        board.white_queenside = false;
    }
    if mv.from == 7 || mv.to == 7 {
        board.white_kingside = false;
    }
    if mv.from == 56 || mv.to == 56 {
        board.black_queenside = false;
    }
    if mv.from == 63 || mv.to == 63 {
        board.black_kingside = false;
    }
    assert(board@ == apply(p, *mv, color));
}

/// Plays `mv` for `color` when it leaves the king of `color` unattacked, and
/// returns true; otherwise leaves the position exactly as it was and returns false.
pub fn try_safe(position: &mut Bitboards, mv: &Move, color: Color) -> (r: bool)
    requires
        mv.from < 64,
        mv.to < 64,
    ensures
        r == safe(old(position)@, *mv, color),
        r ==> final(position)@ == apply(old(position)@, *mv, color),
        !r ==> *final(position) == *old(position),
{
    let snapshot = *position;
    apply_move(position, mv, color);
    if is_check(position, color) {
        *position = snapshot;
        false
    } else {
        true
    }
}

/// The legal moves of `color`: its pseudo-legal moves, in order, that leave
/// its king unattacked.
pub fn generate_legal_moves(board: &Bitboards, color: Color) -> (r: Vec<Move>)
    ensures
        r@ == legal_moves(board@, color),
{
    let moves = Move::generate_moves_for_side(color, board);
    proof {
        lemma_side_moves_on_board(board@, color, 6);
    }
    let mut legal: Vec<Move> = Vec::new();
    let mut i: usize = 0;
    while i < moves.len()
        invariant
            i <= moves@.len(),
            moves@ == side_moves(board@, color),
            forall|j: int| 0 <= j < moves@.len() ==> (#[trigger] moves@[j]).from < 64 && moves@[j].to < 64,
            legal@ == keep_safe(board@, color, moves@.take(i as int)),
        decreases moves@.len() - i,
    {
        let mv = moves[i];
        let mut trial = *board;
        let ok = try_safe(&mut trial, &mv, color);
        if ok {
            legal.push(mv);
        }
        proof {
            assert(moves@.take(i + 1).drop_last() =~= moves@.take(i as int));
            assert(legal@ =~= keep_safe(board@, color, moves@.take(i + 1)));
        }
        i = i + 1;
    }
    proof {
        assert(moves@.take(moves@.len() as int) =~= moves@);
    }
    legal
}

} // verus!
