use vstd::prelude::*;

verus! {

/// Side of a piece.
#[derive(Clone, Copy, Debug, PartialEq, Eq, Structural)]
pub enum Color {
    White,
    Black,
}

/// Kind of a piece; the order is the one of the piece index inside a color.
#[derive(Clone, Copy, Debug, PartialEq, Eq, Structural)]
pub enum PieceType {
    Pawn,
    Rook,
    Knight,
    Bishop,
    Queen,
    King,
}

impl Color {
    pub open spec fn idx(self) -> int {
        match self {
            Color::White => 0,
            Color::Black => 1,
        }
    }

    pub open spec fn other(self) -> Color {
        match self {
            Color::White => Color::Black,
            Color::Black => Color::White,
        }
    }
}

impl PieceType {
    pub open spec fn idx(self) -> int {
        match self {
            PieceType::Pawn => 0,
            PieceType::Rook => 1,
            PieceType::Knight => 2,
            PieceType::Bishop => 3,
            PieceType::Queen => 4,
            PieceType::King => 5,
        }
    }
}

/// Position of the mask of `(c, p)` among the twelve masks.
pub open spec fn slot(c: Color, p: PieceType) -> int {
    6 * c.idx() + p.idx()
}

pub fn slot_of(c: Color, p: PieceType) -> (r: usize)
    ensures
        r == slot(c, p),
        r < 12,
{
    let ci: usize = match c {
        Color::White => 0,
        Color::Black => 6,
    };
    let pi: usize = match p {
        PieceType::Pawn => 0,
        PieceType::Rook => 1,
        PieceType::Knight => 2,
        PieceType::Bishop => 3,
        PieceType::Queen => 4,
        PieceType::King => 5,
    };
    ci + pi
}

/// Whether bit `i` of `m` is set.
pub open spec fn bit(m: u64, i: int) -> bool {
    0 <= i < 64 && (m >> (i as u64)) & 1u64 == 1u64
}

pub proof fn lemma_bit_or(a: u64, b: u64)
    ensures
        forall|i: int| #[trigger] bit(a | b, i) == (bit(a, i) || bit(b, i)),
{
    assert forall|i: int| #[trigger] bit(a | b, i) == (bit(a, i) || bit(b, i)) by {
        if 0 <= i < 64 {
            let j = i as u64;
            assert(((a | b) >> j) & 1u64 == 1u64 <==> ((a >> j) & 1u64 == 1u64 || (b >> j) & 1u64
                == 1u64)) by (bit_vector);
        }
    }
}

pub proof fn lemma_bit_single(s: u64)
    requires
        s < 64,
    ensures
        forall|i: int| #[trigger] bit(1u64 << s, i) == (i == s),
{
    assert forall|i: int| #[trigger] bit(1u64 << s, i) == (i == s) by {
        if 0 <= i < 64 {
            let j = i as u64;
            assert(((1u64 << s) >> j) & 1u64 == 1u64 <==> j == s) by (bit_vector)
                requires
                    s < 64,
                    j < 64,
            ;
        }
    }
}

pub proof fn lemma_bit_clear(m: u64, s: u64)
    requires
        s < 64,
    ensures
        forall|i: int| #[trigger] bit(m & !(1u64 << s), i) == (bit(m, i) && i != s),
{
    assert forall|i: int| #[trigger] bit(m & !(1u64 << s), i) == (bit(m, i) && i != s) by {
        if 0 <= i < 64 {
            let j = i as u64;
            assert(((m & !(1u64 << s)) >> j) & 1u64 == 1u64 <==> ((m >> j) & 1u64 == 1u64 && j
                != s)) by (bit_vector)
                requires
                    s < 64,
                    j < 64,
            ;
        }
    }
}

pub proof fn lemma_bit_zero()
    ensures
        forall|i: int| !#[trigger] bit(0u64, i),
{
    assert forall|i: int| !#[trigger] bit(0u64, i) by {
        if 0 <= i < 64 {
            let j = i as u64;
            assert((0u64 >> j) & 1u64 == 0u64) by (bit_vector);
        }
    }
}

/// Whether bit `i` of `m` is set, computed.
pub fn test_bit(m: u64, i: u8) -> (r: bool)
    requires
        i < 64,
    ensures
        r == bit(m, i as int),
{
    (m >> (i as u64)) & 1u64 == 1u64
}

/// `m` with bit `s` set.
pub fn set_bit(m: u64, s: u8) -> (r: u64)
    requires
        s < 64,
    ensures
        r == m | (1u64 << (s as u64)),
        forall|i: int| #[trigger] bit(r, i) == (bit(m, i) || i == s),
{
    proof {
        lemma_bit_single(s as u64);
        lemma_bit_or(m, 1u64 << (s as u64));
    }
    m | (1u64 << (s as u64))
}

/// `m` with bit `s` cleared.
pub fn clear_bit(m: u64, s: u8) -> (r: u64)
    requires
        s < 64,
    ensures
        r == m & !(1u64 << (s as u64)),
        forall|i: int| #[trigger] bit(r, i) == (bit(m, i) && i != s),
{
    proof {
        lemma_bit_clear(m, s as u64);
    }
    m & !(1u64 << (s as u64))
}

/// The squares below `n` that satisfy `f`, in increasing order.
pub open spec fn squares_where(f: spec_fn(int) -> bool, n: nat) -> Seq<u8>
    decreases n,
{
    if n == 0 {
        Seq::empty()
    } else {
        let prev = squares_where(f, (n - 1) as nat);
        if f(n - 1) {
            prev.push((n - 1) as u8)
        } else {
            prev
        }
    }
}

/// The squares whose bit is set in `m`, lowest first.
pub open spec fn squares_of(m: u64) -> Seq<u8> {
    squares_where(|i: int| bit(m, i), 64)
}

/// Number of the bits of `m` below `n` that are set.
pub open spec fn bits_below(m: u64, n: nat) -> nat
    decreases n,
{
    if n == 0 {
        0
    } else {
        bits_below(m, (n - 1) as nat) + if bit(m, n - 1) {
            1nat
        } else {
            0nat
        }
    }
}

/// Number of set bits of `m`.
pub open spec fn popcount(m: u64) -> nat {
    bits_below(m, 64)
}

pub proof fn lemma_squares_where_shape(f: spec_fn(int) -> bool, n: nat)
    requires
        n <= 256,
    ensures
        forall|i: int, j: int|
            #![trigger squares_where(f, n)[i], squares_where(f, n)[j]]
            0 <= i < j < squares_where(f, n).len() ==> squares_where(f, n)[i]
                < squares_where(f, n)[j],
        forall|i: int|
            0 <= i < squares_where(f, n).len() ==> (#[trigger] squares_where(f, n)[i] as int) < n
                && f(squares_where(f, n)[i] as int),
        forall|x: int| 0 <= x < n ==> (#[trigger] f(x) <==> squares_where(f, n).contains(x as u8)),
    decreases n,
{
    if n > 0 {
        lemma_squares_where_shape(f, (n - 1) as nat);
        let prev = squares_where(f, (n - 1) as nat);
        let cur = squares_where(f, n);
        assert forall|x: int| 0 <= x < n implies (#[trigger] f(x) <==> cur.contains(x as u8)) by {
            if x < n - 1 {
                if f(x) {
                    assert(prev.contains(x as u8));
                    let k = choose|k: int| 0 <= k < prev.len() && prev[k] == x as u8;
                    assert(cur[k] == x as u8);
                }
                if cur.contains(x as u8) {
                    let k = choose|k: int| 0 <= k < cur.len() && cur[k] == x as u8;
                    if k < prev.len() {
                        assert(prev[k] == x as u8);
                    }
                }
            } else {
                if f(x) {
                    assert(cur[cur.len() - 1] == x as u8);
                }
                if cur.contains(x as u8) {
                    let k = choose|k: int| 0 <= k < cur.len() && cur[k] == x as u8;
                    if k < prev.len() {
                        assert(prev[k] == x as u8);
                    }
                }
            }
        }
    }
}

pub proof fn lemma_squares_where_len(f: spec_fn(int) -> bool, m: u64, n: nat)
    requires
        forall|i: int| 0 <= i < n ==> #[trigger] f(i) == bit(m, i),
    ensures
        squares_where(f, n).len() == bits_below(m, n),
    decreases n,
{
    if n > 0 {
        lemma_squares_where_len(f, m, (n - 1) as nat);
    }
}

pub proof fn lemma_squares_where_bound(f: spec_fn(int) -> bool, n: nat)
    ensures
        squares_where(f, n).len() <= n,
    decreases n,
{
    if n > 0 {
        lemma_squares_where_bound(f, (n - 1) as nat);
    }
}

pub proof fn lemma_bits_below_bound(m: u64, n: nat)
    ensures
        bits_below(m, n) <= n,
    decreases n,
{
    if n > 0 {
        lemma_bits_below_bound(m, (n - 1) as nat);
    }
}

pub proof fn lemma_squares_where_ext(f: spec_fn(int) -> bool, g: spec_fn(int) -> bool, n: nat)
    requires
        forall|i: int| 0 <= i < n ==> #[trigger] f(i) == g(i),
    ensures
        squares_where(f, n) == squares_where(g, n),
    decreases n,
{
    if n > 0 {
        lemma_squares_where_ext(f, g, (n - 1) as nat);
    }
}

/// The squares of a mask come out strictly increasing, all below 64, and
/// there are as many as the mask has set bits.
pub proof fn lemma_squares_of(m: u64)
    ensures
        forall|i: int, j: int|
            #![trigger squares_of(m)[i], squares_of(m)[j]]
            0 <= i < j < squares_of(m).len() ==> squares_of(m)[i] < squares_of(m)[j],
        forall|i: int| 0 <= i < squares_of(m).len() ==> #[trigger] squares_of(m)[i] < 64,
        squares_of(m).len() == popcount(m),
        forall|x: int| 0 <= x < 64 ==> (#[trigger] bit(m, x) <==> squares_of(m).contains(x as u8)),
{
    let f = |i: int| bit(m, i);
    lemma_squares_where_shape(f, 64);
    lemma_squares_where_len(f, m, 64);
    assert forall|x: int| 0 <= x < 64 implies (#[trigger] bit(m, x) <==> squares_of(m).contains(
        x as u8,
    )) by {
        assert(f(x) == bit(m, x));
    }
}

/// The model of a position: the twelve masks, indexed by `slot`, castling
/// rights and the en-passant target.
pub ghost struct Position {
    pub masks: Seq<u64>,
    pub white_kingside: bool,
    pub white_queenside: bool,
    pub black_kingside: bool,
    pub black_queenside: bool,
    pub en_passant: Option<u8>,
}

impl Position {
    pub open spec fn mask(self, c: Color, p: PieceType) -> u64 {
        self.masks[slot(c, p)]
    }

    /// A piece of color `c` and type `p` stands on `s`.
    pub open spec fn holds(self, c: Color, p: PieceType, s: int) -> bool {
        bit(self.mask(c, p), s)
    }

    pub open spec fn occupied_by(self, c: Color, s: int) -> bool {
        self.holds(c, PieceType::Pawn, s) || self.holds(c, PieceType::Rook, s) || self.holds(
            c,
            PieceType::Knight,
            s,
        ) || self.holds(c, PieceType::Bishop, s) || self.holds(c, PieceType::Queen, s)
            || self.holds(c, PieceType::King, s)
    }

    pub open spec fn occupied(self, s: int) -> bool {
        self.occupied_by(Color::White, s) || self.occupied_by(Color::Black, s)
    }

    /// No square holds two pieces.
    pub open spec fn disjoint(self) -> bool {
        forall|s: int, c1: Color, p1: PieceType, c2: Color, p2: PieceType|
            #![trigger self.holds(c1, p1, s), self.holds(c2, p2, s)]
            self.holds(c1, p1, s) && self.holds(c2, p2, s) ==> c1 == c2 && p1 == p2
    }
}

/// The position: twelve masks, the one of color `c` and piece type `p` at
/// `6 * c + p`, castling rights and the en-passant target square.
#[derive(Clone, Copy)]
pub struct Bitboards {
    pub boards: [u64; 12],
    pub white_kingside: bool,
    pub white_queenside: bool,
    pub black_kingside: bool,
    pub black_queenside: bool,
    pub en_passant_square: Option<u8>,
}

impl View for Bitboards {
    type V = Position;

    open spec fn view(&self) -> Position {
        Position {
            masks: self.boards@,
            white_kingside: self.white_kingside,
            white_queenside: self.white_queenside,
            black_kingside: self.black_kingside,
            black_queenside: self.black_queenside,
            en_passant: self.en_passant_square,
        }
    }
}

impl Bitboards {
    /// An empty board without castling rights or en-passant target.
    pub fn new() -> (r: Self)
        ensures
            r@.masks.len() == 12,
            forall|c: Color, p: PieceType| #[trigger] r@.mask(c, p) == 0,
            forall|c: Color, p: PieceType, s: int| !#[trigger] r@.holds(c, p, s),
            !r.white_kingside && !r.white_queenside && !r.black_kingside && !r.black_queenside,
            r.en_passant_square.is_none(),
            r@.disjoint(),
    {
        let r = Bitboards {
            boards: [0u64; 12],
            white_kingside: false,
            white_queenside: false,
            black_kingside: false,
            black_queenside: false,
            en_passant_square: None,
        };
        proof {
            lemma_bit_zero();
            assert forall|c: Color, p: PieceType| #[trigger] r@.mask(c, p) == 0 by {
                assert(r.boards@[slot(c, p)] == 0);
            }
        }
        r
    }

    /// The mask of one color and piece type.
    pub fn _get_single_bit_board(&self, piece: PieceType, color: Color) -> (r: u64)
        ensures
            r == self@.mask(color, piece),
    {
        self.boards[slot_of(color, piece)]
    }

    /// Puts a piece of `color` and `piece` on `square`.
    pub fn add_piece(bitboards: &mut Bitboards, color: Color, piece: PieceType, square: u8)
        requires
            square < 64,
        ensures
            forall|c: Color, p: PieceType, s: int| #[trigger]
                final(bitboards)@.holds(c, p, s) == (old(bitboards)@.holds(c, p, s) || (c == color
                    && p == piece && s == square)),
            final(bitboards).white_kingside == old(bitboards).white_kingside,
            final(bitboards).white_queenside == old(bitboards).white_queenside,
            final(bitboards).black_kingside == old(bitboards).black_kingside,
            final(bitboards).black_queenside == old(bitboards).black_queenside,
            final(bitboards).en_passant_square == old(bitboards).en_passant_square,
            old(bitboards)@.disjoint() && !old(bitboards)@.occupied(square as int)
                ==> final(bitboards)@.disjoint(),
    {
        let i = slot_of(color, piece);
        let m = set_bit(bitboards.boards[i], square);
        bitboards.boards[i] = m;
        proof {
            assert forall|c: Color, p: PieceType, s: int| #[trigger]
                final(bitboards)@.holds(c, p, s) == (old(bitboards)@.holds(c, p, s) || (c == color
                    && p == piece && s == square)) by {
                if slot(c, p) == slot(color, piece) {
                    assert(c == color && p == piece);
                }
            }
        }
    }

    /// The squares of the set bits of `bitboard`, lowest first.
    pub fn _get_piece_squares(bitboard: u64) -> (r: Vec<u8>)
        ensures
            r@ == squares_of(bitboard),
    {
        let mut r: Vec<u8> = Vec::new();
        let mut i: u8 = 0;
        while i < 64
            invariant
                i <= 64,
                r@ == squares_where(|j: int| bit(bitboard, j), i as nat),
            decreases 64 - i,
        {
            if test_bit(bitboard, i) {
                r.push(i);
            }
            i = i + 1;
        }
        r
    }

    /// Number of set bits of `bitboard`.
    pub fn count_pieces(bitboard: u64) -> (r: u32)
        ensures
            r == popcount(bitboard),
    {
        let mut n: u32 = 0;
        let mut i: u8 = 0;
        while i < 64
            invariant
                i <= 64,
                n == bits_below(bitboard, i as nat),
                n <= i,
            decreases 64 - i,
        {
            if test_bit(bitboard, i) {
                n = n + 1;
            }
            i = i + 1;
        }
        n
    }
}

} // verus!
