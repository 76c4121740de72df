use vstd::prelude::*;
use crate::board::{Bitboards, Color, PieceType};
use vstd::string::StringSliceAdditionalSpecFns;

verus! {

pub open spec fn is_digit(b: u8) -> bool {
    48 <= b <= 57
}

/// ASCII whitespace: space, tab, line feed, form feed, carriage return.
pub open spec fn is_space(b: u8) -> bool {
    b == 32 || b == 9 || b == 10 || b == 12 || b == 13
}

/// The bytes before the first space.
pub open spec fn first_field(bs: Seq<u8>) -> Seq<u8>
    decreases bs.len(),
{
    if bs.len() == 0 || bs[0] == 32 {
        Seq::empty()
    } else {
        seq![bs[0]] + first_field(bs.drop_first())
    }
}

/// One byte of a rank, expanded: a digit gives as many empty squares `.`.
pub open spec fn expand_byte(b: u8) -> Seq<char> {
    if is_digit(b) {
        Seq::new((b - 48) as nat, |i: int| '.')
    } else {
        seq![b as char]
    }
}

/// The ranks of a placement field separated by `/`, as written, each expanded.
pub open spec fn ranks_of(bs: Seq<u8>) -> Seq<Seq<char>>
    decreases bs.len(),
{
    if bs.len() == 0 {
        seq![Seq::empty()]
    } else {
        let prev = ranks_of(bs.drop_last());
        let b = bs.last();
        if b == 47 {
            prev.push(Seq::empty())
        } else {
            prev.update(prev.len() - 1, prev.last() + expand_byte(b))
        }
    }
}

/// The ranks joined, the last written first.
pub open spec fn reversed_concat(rs: Seq<Seq<char>>) -> Seq<char>
    decreases rs.len(),
{
    if rs.len() == 0 {
        Seq::empty()
    } else {
        rs.last() + reversed_concat(rs.drop_last())
    }
}

/// The square stream of a record: its placement field expanded, with the
/// rank written last (rank 1) first, so that a character's index is its square.
pub open spec fn placement(bs: Seq<u8>) -> Seq<char> {
    reversed_concat(ranks_of(first_field(bs)))
}

/// The whitespace-separated fields of a record.
pub open spec fn fields(bs: Seq<u8>) -> Seq<Seq<u8>>
    decreases bs.len(),
{
    if bs.len() == 0 {
        Seq::empty()
    } else {
        let prev = fields(bs.drop_last());
        let b = bs.last();
        if is_space(b) {
            prev
        } else if bs.len() == 1 || is_space(bs[bs.len() - 2]) {
            prev.push(seq![b])
        } else {
            prev.update(prev.len() - 1, prev.last().push(b))
        }
    }
}

/// The side named by the second field of a record: `w` or `b`.
pub open spec fn side_of(bs: Seq<u8>) -> Option<Color> {
    let f = fields(bs);
    if f.len() >= 2 && f[1] == seq![119u8] {
        Some(Color::White)
    } else if f.len() >= 2 && f[1] == seq![98u8] {
        Some(Color::Black)
    } else {
        None
    }
}

/// The piece that a letter names: upper case white, lower case black.
pub open spec fn piece_of(c: char) -> Option<(Color, PieceType)> {
    match c {
        'P' => Some((Color::White, PieceType::Pawn)),
        'R' => Some((Color::White, PieceType::Rook)),
        'N' => Some((Color::White, PieceType::Knight)),
        'B' => Some((Color::White, PieceType::Bishop)),
        'Q' => Some((Color::White, PieceType::Queen)),
        'K' => Some((Color::White, PieceType::King)),
        'p' => Some((Color::Black, PieceType::Pawn)),
        'r' => Some((Color::Black, PieceType::Rook)),
        'n' => Some((Color::Black, PieceType::Knight)),
        'b' => Some((Color::Black, PieceType::Bishop)),
        'q' => Some((Color::Black, PieceType::Queen)),
        'k' => Some((Color::Black, PieceType::King)),
        _ => None,
    }
}

/// A square stream can be loaded: every character is `.` or a piece letter,
/// and no piece lies past the last square.
pub open spec fn loadable(cs: Seq<char>) -> bool {
    forall|i: int|
        0 <= i < cs.len() && #[trigger] cs[i] != '.' ==> piece_of(cs[i]) is Some && i < 64
}

proof fn lemma_first_field(bs: Seq<u8>, i: int)
    requires
        0 <= i <= bs.len(),
        forall|j: int| 0 <= j < i ==> bs[j] != 32,
        i == bs.len() || bs[i] == 32,
    ensures
        first_field(bs) == bs.take(i),
    decreases i,
{
    if i > 0 {
        lemma_first_field(bs.drop_first(), i - 1);
        assert(bs.take(i) =~= seq![bs[0]] + bs.drop_first().take(i - 1));
    } else {
        assert(bs.take(i) =~= Seq::<u8>::empty());
    }
}

/// Relies on String::push: appends one character.
#[verifier::external_body]
fn push_char(s: &mut String, c: char)
    ensures
        final(s)@ == old(s)@.push(c),
{
    s.push(c)
}

/// The square stream of the record `bytes` (see `placement`).
fn placement_chars(bytes: &[u8]) -> (r: Vec<char>)
    ensures
        r@ == placement(bytes@),
{
    let mut out: Vec<char> = Vec::new();
    let mut cur: Vec<char> = Vec::new();
    let mut i: usize = 0;
    while i < bytes.len() && bytes[i] != 32
        invariant
            i <= bytes@.len(),
            forall|j: int| 0 <= j < i ==> bytes@[j] != 32,
            cur@ == ranks_of(bytes@.take(i as int)).last(),
            out@ == reversed_concat(ranks_of(bytes@.take(i as int)).drop_last()),
            ranks_of(bytes@.take(i as int)).len() >= 1,
        decreases bytes@.len() - i,
    {
        let b = bytes[i];
        let ghost pre = bytes@.take(i as int);
        assert(bytes@.take(i + 1).drop_last() =~= pre);
        if b == 47 {
            let mut joined = cur;
            joined.append(&mut out);
            out = joined;
            cur = Vec::new();
            proof {
                let rs = ranks_of(pre);
                assert(rs.push(Seq::empty()).drop_last() =~= rs);
            }
        } else if 48 <= b && b <= 57 {
            let ghost before = cur@;
            let n = b - 48;
            let mut k: u8 = 0;
            while k < n
                invariant
                    k <= n,
                    cur@ == before + Seq::new(k as nat, |j: int| '.'),
                decreases n - k,
            {
                cur.push('.');
                k = k + 1;
                assert(cur@ =~= before + Seq::new(k as nat, |j: int| '.'));
            }
            proof {
                let rs = ranks_of(pre);
                assert(rs.update(rs.len() - 1, rs.last() + expand_byte(b)).drop_last() =~= rs.drop_last());
            }
        } else {
            cur.push(b as char);
            proof {
                let rs = ranks_of(pre);
                assert(rs.update(rs.len() - 1, rs.last() + expand_byte(b)).drop_last() =~= rs.drop_last());
                assert(cur@ =~= rs.last() + expand_byte(b));
            }
        }
        i = i + 1;
    }
    proof {
        lemma_first_field(bytes@, i as int);
    }
    cur.append(&mut out);
    cur
}

/// The square stream of a position record: the placement field with digits
/// expanded into `.` and the ranks reversed, so that index `i` of the result
/// is square `i`. Works on the bytes of the record.
pub fn parse_fen(fen: &str) -> (r: String)
    ensures
        r@ == placement(fen.spec_bytes()),
{
    let cs = placement_chars(fen.as_bytes());
    let mut s = String::new();
    let mut i: usize = 0;
    while i < cs.len()
        invariant
            i <= cs@.len(),
            s@ == cs@.take(i as int),
        decreases cs@.len() - i,
    {
        push_char(&mut s, cs[i]);
        assert(cs@.take(i + 1) =~= cs@.take(i as int).push(cs@[i as int]));
        i = i + 1;
    }
    assert(cs@.take(cs@.len() as int) =~= cs@);
    s
}

/// The side to move named by the second field of a record, `w` or `b`;
/// none for anything else or a missing field.
pub fn side_to_move(fen: &str) -> (r: Option<Color>)
    ensures
        r == side_of(fen.spec_bytes()),
{
    let bytes = fen.as_bytes();
    let mut count: usize = 0;
    let mut second: Vec<u8> = Vec::new();
    let mut i: usize = 0;
    while i < bytes.len()
        invariant
            i <= bytes@.len(),
            count == fields(bytes@.take(i as int)).len(),
            count <= i,
            i > 0 && !is_space(bytes@[i - 1]) ==> count >= 1,
            count >= 2 ==> second@ == fields(bytes@.take(i as int))[1],
            count < 2 ==> second@.len() == 0,
        decreases bytes@.len() - i,
    {
        let b = bytes[i];
        let ghost pre = bytes@.take(i as int);
        assert(bytes@.take(i + 1).drop_last() =~= pre);
        let space = b == 32 || b == 9 || b == 10 || b == 12 || b == 13;
        assert(bytes@.take(i + 1).last() == b);
        assert(bytes@.take(i + 1).len() == i + 1);
        if !space {
            let starts = i == 0 || {
                let a = bytes[i - 1];
                a == 32 || a == 9 || a == 10 || a == 12 || a == 13
            };
            proof {
                if i > 0 {
                    assert(bytes@.take(i + 1)[i - 1] == bytes@[i - 1]);
                }
            }
            if starts {
                count = count + 1;
                if count == 2 {
                    second.push(b);
                }
            } else if count == 2 {
                second.push(b);
            }
        }
        i = i + 1;
    }
    assert(bytes@.take(bytes@.len() as int) =~= bytes@);
    if count >= 2 && second.len() == 1 && second[0] == 119 {
        assert(second@ =~= seq![119u8]);
        Some(Color::White)
    } else if count >= 2 && second.len() == 1 && second[0] == 98 {
        assert(second@ =~= seq![98u8]);
        Some(Color::Black)
    } else {
        None
    }
}

fn piece_of_char(c: char) -> (r: Option<(Color, PieceType)>)
    ensures
        r == piece_of(c),
{
    match c {
        'P' => Some((Color::White, PieceType::Pawn)),
        'R' => Some((Color::White, PieceType::Rook)),
        'N' => Some((Color::White, PieceType::Knight)),
        'B' => Some((Color::White, PieceType::Bishop)),
        'Q' => Some((Color::White, PieceType::Queen)),
        'K' => Some((Color::White, PieceType::King)),
        'p' => Some((Color::Black, PieceType::Pawn)),
        'r' => Some((Color::Black, PieceType::Rook)),
        'n' => Some((Color::Black, PieceType::Knight)),
        'b' => Some((Color::Black, PieceType::Bishop)),
        'q' => Some((Color::Black, PieceType::Queen)),
        'k' => Some((Color::Black, PieceType::King)),
        _ => None,
    }
}

/// The position that a record's placement field describes, without castling
/// rights or en-passant target; none when the field holds a character that is
/// neither a digit, `/`, nor a piece letter, or describes more than 64 squares
/// of pieces.
pub fn load_position(fen: &str) -> (r: Option<Bitboards>)
    ensures
        r is Some == loadable(placement(fen.spec_bytes())),
        r is Some ==> {
            let p = r.unwrap()@;
            let cs = placement(fen.spec_bytes());
            &&& forall|c: Color, t: PieceType, s: int| #[trigger] p.holds(c, t, s) == (0 <= s
                < cs.len() && piece_of(cs[s]) == Some((c, t)))
            &&& p.disjoint()
            &&& !p.white_kingside && !p.white_queenside && !p.black_kingside && !p.black_queenside
            &&& p.en_passant is None
        },
{
    let cs = placement_chars(fen.as_bytes());
    let mut board = Bitboards::new();
    let mut i: usize = 0;
    while i < cs.len()
        invariant
            i <= cs@.len(),
            cs@ == placement(fen.spec_bytes()),
            forall|j: int| 0 <= j < i && #[trigger] cs@[j] != '.' ==> piece_of(cs@[j]) is Some && j < 64,
            forall|c: Color, t: PieceType, s: int| #[trigger] board@.holds(c, t, s) == (0 <= s < i
                && piece_of(cs@[s]) == Some((c, t))),
            board@.disjoint(),
            !board.white_kingside && !board.white_queenside && !board.black_kingside && !board.black_queenside,
            board.en_passant_square is None,
        decreases cs@.len() - i,
    {
        let ch = cs[i];
        if ch != '.' {
            match piece_of_char(ch) {
                None => {
                    return None;
                },
                Some((color, piece)) => {
                    if i >= 64 {
                        return None;
                    }
                    proof {
                        assert(!board@.occupied(i as int)) by {
                            if board@.occupied(i as int) {
                                assert(board@.occupied_by(Color::White, i as int) || board@.occupied_by(Color::Black, i as int));
                            }
                        }
                    }
                    Bitboards::add_piece(&mut board, color, piece, i as u8);
                },
            }
        }
        i = i + 1;
    }
    Some(board)
}

} // verus!
