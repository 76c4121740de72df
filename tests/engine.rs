use bitchess::board::{Bitboards, Color, PieceType};
use bitchess::evaluation::evaluation;
use bitchess::game_over::checkmate;
use bitchess::make_move::{apply_move, generate_legal_moves, is_check, is_square_attacked, try_safe};
use bitchess::movegen::Move;
use bitchess::parse_fen::{load_position, parse_fen, side_to_move};
use bitchess::search::{best_move, negamax, opposite};

const START: &str = "rnbqkbnr/pppppppp/8/8/8/8/PPPPPPPP/RNBQKBNR w KQkq - 0 1";
const SCHOLARS_MATE: &str = "r1bqkb1r/pppp1Qpp/2n2n2/4p3/2B1P3/8/PPPP1PPP/RNB1K1NR b KQkq - 0 4";

fn board_with(pieces: &[(Color, PieceType, u8)]) -> Bitboards {
    let mut b = Bitboards::new();
    for &(c, p, s) in pieces {
        Bitboards::add_piece(&mut b, c, p, s);
    }
    b
}

fn destinations(moves: &[Move]) -> Vec<u8> {
    moves.iter().map(|m| m.to).collect()
}

#[test]
fn knight_on_d4_has_eight_moves() {
    let b = board_with(&[(Color::White, PieceType::Knight, 27)]);
    let moves = Move::generate_moves_for_piece(27, PieceType::Knight, Color::White, &b);
    assert_eq!(destinations(&moves), vec![10, 12, 17, 21, 33, 37, 42, 44]);
    assert!(moves.iter().all(|m| m.from == 27 && m.piece == PieceType::Knight));
}

#[test]
fn knight_on_a1_has_two_moves() {
    let b = board_with(&[(Color::White, PieceType::Knight, 0)]);
    let moves = Move::generate_moves_for_piece(0, PieceType::Knight, Color::White, &b);
    assert_eq!(destinations(&moves), vec![10, 17]);
}

#[test]
fn knight_skips_own_pieces_and_takes_enemy_ones() {
    let b = board_with(&[
        (Color::White, PieceType::Knight, 27),
        (Color::White, PieceType::Pawn, 10),
        (Color::Black, PieceType::Pawn, 12),
    ]);
    let moves = Move::generate_moves_for_piece(27, PieceType::Knight, Color::White, &b);
    assert_eq!(destinations(&moves), vec![12, 17, 21, 33, 37, 42, 44]);
}

#[test]
fn rook_on_a1_has_fourteen_moves() {
    let b = board_with(&[(Color::White, PieceType::Rook, 0)]);
    let moves = Move::rook_moves(0, Color::White, &b);
    assert_eq!(moves.len(), 14);
    assert_eq!(
        destinations(&moves),
        vec![1, 2, 3, 4, 5, 6, 7, 8, 16, 24, 32, 40, 48, 56]
    );
}

#[test]
fn rook_ray_stops_at_pieces() {
    let b = board_with(&[
        (Color::White, PieceType::Rook, 0),
        (Color::White, PieceType::Pawn, 3),
        (Color::Black, PieceType::Pawn, 16),
    ]);
    let moves = Move::rook_moves(0, Color::White, &b);
    assert_eq!(destinations(&moves), vec![1, 2, 8, 16]);
}

#[test]
fn bishop_on_d4_sees_both_diagonals() {
    let b = board_with(&[(Color::White, PieceType::Bishop, 27)]);
    let moves = Move::bishop_moves(27, Color::White, &b);
    assert_eq!(moves.len(), 13);
    assert_eq!(
        destinations(&moves),
        vec![0, 6, 9, 13, 18, 20, 34, 36, 41, 45, 48, 54, 63]
    );
}

#[test]
fn bishop_does_not_wrap_around_the_board() {
    let b = board_with(&[(Color::Black, PieceType::Bishop, 7)]);
    let moves = Move::bishop_moves(7, Color::Black, &b);
    assert_eq!(destinations(&moves), vec![14, 21, 28, 35, 42, 49, 56]);
}

#[test]
fn queen_moves_are_rook_then_bishop_moves() {
    let b = board_with(&[(Color::White, PieceType::Queen, 0)]);
    let moves = Move::generate_moves_for_piece(0, PieceType::Queen, Color::White, &b);
    assert_eq!(moves.len(), 21);
    assert!(moves.iter().all(|m| m.piece == PieceType::Queen));
    assert_eq!(moves[13].to, 56);
    assert_eq!(moves[14].to, 9);
}

#[test]
fn starting_position_has_twenty_moves_for_each_side() {
    let b = load_position(START).unwrap();
    let white = Move::generate_moves_for_side(Color::White, &b);
    let black = Move::generate_moves_for_side(Color::Black, &b);
    assert_eq!(white.len(), 20);
    assert_eq!(black.len(), 20);
    assert_eq!(white[0].from, 8);
    assert_eq!(white[0].to, 16);
    assert_eq!(white[1].to, 24);
    assert_eq!(white[16].piece, PieceType::Knight);
}

#[test]
fn pawn_double_push_then_en_passant() {
    let mut b = board_with(&[
        (Color::White, PieceType::Pawn, 12),
        (Color::Black, PieceType::Pawn, 27),
    ]);
    let push = Move { from: 12, to: 28, piece: PieceType::Pawn, promotion_rights: false, is_castling: false };
    apply_move(&mut b, &push, Color::White);
    assert_eq!(b.en_passant_square, Some(20));
    let moves = Move::generate_moves_for_piece(27, PieceType::Pawn, Color::Black, &b);
    assert_eq!(destinations(&moves), vec![19, 20]);
    let ep: Vec<&Move> = moves.iter().filter(|m| m.to == 20).collect();
    assert_eq!(ep.len(), 1);
    let capture = *ep[0];
    apply_move(&mut b, &capture, Color::Black);
    assert_eq!(b.boards[0], 0);
    assert_eq!(b.boards[6], 1u64 << 20);
    assert_eq!(b.en_passant_square, None);
}

#[test]
fn en_passant_target_is_not_taken_by_the_side_that_pushed() {
    let mut b = board_with(&[
        (Color::White, PieceType::Pawn, 12),
        (Color::White, PieceType::Pawn, 11),
    ]);
    let push = Move { from: 12, to: 28, piece: PieceType::Pawn, promotion_rights: false, is_castling: false };
    apply_move(&mut b, &push, Color::White);
    let moves = Move::generate_moves_for_piece(11, PieceType::Pawn, Color::White, &b);
    assert_eq!(destinations(&moves), vec![19, 27]);
}

#[test]
fn white_castles_kingside() {
    let mut b = board_with(&[
        (Color::White, PieceType::King, 4),
        (Color::White, PieceType::Rook, 7),
        (Color::Black, PieceType::King, 60),
    ]);
    b.white_kingside = true;
    let moves = Move::generate_moves_for_piece(4, PieceType::King, Color::White, &b);
    let castle: Vec<&Move> = moves.iter().filter(|m| m.is_castling).collect();
    assert_eq!(castle.len(), 1);
    assert_eq!(castle[0].to, 6);
    let mv = *castle[0];
    apply_move(&mut b, &mv, Color::White);
    assert_eq!(b.boards[5], 1u64 << 6);
    assert_eq!(b.boards[1], 1u64 << 5);
    assert!(!b.white_kingside);
}

#[test]
fn no_castling_through_an_attacked_square() {
    let mut b = board_with(&[
        (Color::White, PieceType::King, 4),
        (Color::White, PieceType::Rook, 7),
        (Color::Black, PieceType::Rook, 61),
    ]);
    b.white_kingside = true;
    let moves = Move::generate_moves_for_piece(4, PieceType::King, Color::White, &b);
    assert!(moves.iter().all(|m| !m.is_castling));
}

#[test]
fn black_castles_queenside() {
    let mut b = board_with(&[
        (Color::Black, PieceType::King, 60),
        (Color::Black, PieceType::Rook, 56),
    ]);
    b.black_queenside = true;
    let moves = Move::generate_moves_for_piece(60, PieceType::King, Color::Black, &b);
    let castle: Vec<&Move> = moves.iter().filter(|m| m.is_castling).collect();
    assert_eq!(castle.len(), 1);
    assert_eq!(castle[0].to, 58);
    let mv = *castle[0];
    apply_move(&mut b, &mv, Color::Black);
    assert_eq!(b.boards[7], 1u64 << 59);
    assert_eq!(b.boards[11], 1u64 << 58);
    assert!(!b.black_queenside);
}

#[test]
fn promotion_makes_a_queen() {
    let mut b = board_with(&[(Color::White, PieceType::Pawn, 48)]);
    let moves = Move::generate_moves_for_piece(48, PieceType::Pawn, Color::White, &b);
    assert_eq!(moves.len(), 1);
    assert!(moves[0].promotion_rights);
    let mv = moves[0];
    apply_move(&mut b, &mv, Color::White);
    assert_eq!(b.boards[0], 0);
    assert_eq!(b.boards[4], 1u64 << 56);
}

#[test]
fn capture_removes_the_taken_piece_and_rook_rights() {
    let mut b = board_with(&[
        (Color::White, PieceType::Rook, 0),
        (Color::Black, PieceType::Rook, 56),
    ]);
    b.white_queenside = true;
    b.black_queenside = true;
    let mv = Move { from: 0, to: 56, piece: PieceType::Rook, promotion_rights: false, is_castling: false };
    apply_move(&mut b, &mv, Color::White);
    assert_eq!(b.boards[7], 0);
    assert_eq!(b.boards[1], 1u64 << 56);
    assert!(!b.white_queenside);
    assert!(!b.black_queenside);
}

#[test]
fn rejected_move_leaves_position_unchanged() {
    let mut b = board_with(&[
        (Color::White, PieceType::King, 4),
        (Color::White, PieceType::Rook, 12),
        (Color::Black, PieceType::Rook, 60),
    ]);
    b.en_passant_square = Some(40);
    let before = b;
    let mv = Move { from: 12, to: 8, piece: PieceType::Rook, promotion_rights: false, is_castling: false };
    assert!(!try_safe(&mut b, &mv, Color::White));
    assert_eq!(b.boards, before.boards);
    assert_eq!(b.en_passant_square, before.en_passant_square);
    let ok = Move { from: 12, to: 20, piece: PieceType::Rook, promotion_rights: false, is_castling: false };
    assert!(try_safe(&mut b, &ok, Color::White));
    assert_eq!(b.boards[1], 1u64 << 20);
}

#[test]
fn attacks_are_seen() {
    let b = board_with(&[
        (Color::White, PieceType::Rook, 0),
        (Color::White, PieceType::King, 20),
    ]);
    assert!(is_square_attacked(&b, 56, Color::Black));
    assert!(!is_square_attacked(&b, 57, Color::Black));
    assert!(is_square_attacked(&b, 29, Color::Black));
    assert!(!is_square_attacked(&b, 56, Color::White));
}

#[test]
fn enemy_king_attacks_its_own_square_and_neighbours() {
    let b = board_with(&[(Color::Black, PieceType::King, 0)]);
    assert!(is_square_attacked(&b, 0, Color::White));
    assert!(is_square_attacked(&b, 9, Color::White));
    assert!(!is_square_attacked(&b, 2, Color::White));
    assert!(!is_square_attacked(&b, 7, Color::White));
    assert!(!is_square_attacked(&b, 0, Color::Black));
}

#[test]
fn scholars_mate_search_depth_three_finds_no_move() {
    let mut b = load_position(SCHOLARS_MATE).unwrap();
    assert!(best_move(&mut b, 3, Color::Black).is_none());
    assert_eq!(negamax(&b, 3, Color::Black), -10000);
}

#[test]
fn starting_position_is_not_mate() {
    let b = load_position(START).unwrap();
    assert!(!checkmate(&b, Color::White));
    assert!(!checkmate(&b, Color::Black));
    assert!(!is_check(&b, Color::White));
}

#[test]
fn scholars_mate_is_mate() {
    let mut b = load_position(SCHOLARS_MATE).unwrap();
    assert!(is_check(&b, Color::Black));
    assert!(checkmate(&b, Color::Black));
    assert!(!checkmate(&b, Color::White));
    assert_eq!(generate_legal_moves(&b, Color::Black).len(), 0);
    assert!(best_move(&mut b, 1, Color::Black).is_none());
    assert_eq!(negamax(&b, 1, Color::Black), -10000);
}

#[test]
fn best_move_takes_a_hanging_queen() {
    let mut b = board_with(&[
        (Color::White, PieceType::King, 0),
        (Color::White, PieceType::Rook, 3),
        (Color::Black, PieceType::Queen, 59),
        (Color::Black, PieceType::King, 63),
    ]);
    let (mv, score) = best_move(&mut b, 1, Color::White).unwrap();
    assert_eq!(mv.from, 3);
    assert_eq!(mv.to, 59);
    assert!(score > 0);
}

#[test]
fn best_move_from_start_is_a_legal_move() {
    let mut b = load_position(START).unwrap();
    let before = b.boards;
    let (mv, _) = best_move(&mut b, 2, Color::White).unwrap();
    assert_eq!(b.boards, before);
    let legal = generate_legal_moves(&b, Color::White);
    assert!(legal.iter().any(|m| *m == mv));
}

#[test]
fn evaluation_of_a_lone_knight() {
    let w = board_with(&[(Color::White, PieceType::Knight, 27)]);
    assert_eq!(evaluation(&w, Color::White), 500);
    assert_eq!(evaluation(&w, Color::Black), 500);
    let b = board_with(&[(Color::Black, PieceType::Knight, 35)]);
    assert_eq!(evaluation(&b, Color::White), -500);
}

#[test]
fn evaluation_of_the_start_is_even() {
    let b = load_position(START).unwrap();
    assert_eq!(evaluation(&b, Color::White), 0);
}

#[test]
fn negamax_at_depth_zero_is_relative() {
    let b = board_with(&[(Color::White, PieceType::Knight, 27)]);
    assert_eq!(negamax(&b, 0, Color::White), 500);
    assert_eq!(negamax(&b, 0, Color::Black), -500);
}

#[test]
fn squares_and_counts() {
    assert_eq!(Bitboards::_get_piece_squares(0b1010_0001), vec![0, 5, 7]);
    assert_eq!(Bitboards::count_pieces(0b1010_0001), 3);
    assert_eq!(Bitboards::_get_piece_squares(0), Vec::<u8>::new());
    assert_eq!(Bitboards::count_pieces(u64::MAX), 64);
    assert_eq!(Bitboards::_get_piece_squares(1u64 << 63), vec![63]);
}

#[test]
fn new_board_is_empty() {
    let b = Bitboards::new();
    assert_eq!(b.boards, [0u64; 12]);
    assert!(!b.white_kingside && !b.black_queenside);
    assert_eq!(b.en_passant_square, None);
    let mut c = b;
    Bitboards::add_piece(&mut c, Color::Black, PieceType::Queen, 59);
    assert_eq!(c._get_single_bit_board(PieceType::Queen, Color::Black), 1u64 << 59);
}

#[test]
fn parse_fen_expands_and_reverses() {
    let s = parse_fen(START);
    assert_eq!(s.len(), 64);
    assert_eq!(&s[0..8], "RNBQKBNR");
    assert_eq!(&s[8..16], "PPPPPPPP");
    assert_eq!(&s[16..48], ".".repeat(32));
    assert_eq!(&s[56..64], "rnbqkbnr");
    assert_eq!(parse_fen("8/k7 w"), "k...............");
    assert_eq!(parse_fen("k7/8 w"), "........k.......");
}

#[test]
fn side_to_move_reads_second_field() {
    assert_eq!(side_to_move(START), Some(Color::White));
    assert_eq!(side_to_move(SCHOLARS_MATE), Some(Color::Black));
    assert_eq!(side_to_move("8/8/8/8/8/8/8/8  \t b"), Some(Color::Black));
    assert_eq!(side_to_move("8/8/8/8/8/8/8/8 x - - 0 1"), None);
    assert_eq!(side_to_move("8/8/8/8/8/8/8/8 white"), None);
    assert_eq!(side_to_move("8/8/8/8/8/8/8/8"), None);
}

#[test]
fn load_position_rejects_unknown_letters() {
    assert!(load_position("rnbqkbnr/pppppppp/8/8/8/8/PPPPPPPP/RNBQKBNX w").is_none());
    assert!(load_position("k/8/8/8/8/8/8/8/8 w").is_none());
    assert!(load_position("8/8/8/8/8/8/8/8/k w").is_some());
    let b = load_position("8/8/8/8/8/8/8/4K3 w").unwrap();
    assert_eq!(b.boards[5], 1u64 << 4);
}

#[test]
fn opposite_swaps_sides() {
    assert_eq!(opposite(Color::White), Color::Black);
    assert_eq!(opposite(Color::Black), Color::White);
}

fn masks_disjoint(b: &Bitboards) -> bool {
    for i in 0..12 {
        for j in 0..12 {
            if i != j && b.boards[i] & b.boards[j] != 0 {
                return false;
            }
        }
    }
    true
}

#[test]
fn played_moves_keep_squares_single() {
    let mut b = load_position(START).unwrap();
    let mut color = Color::White;
    for _ in 0..12 {
        let legal = generate_legal_moves(&b, color);
        assert!(!legal.is_empty());
        let mv = legal[legal.len() / 2];
        apply_move(&mut b, &mv, color);
        assert!(masks_disjoint(&b));
        if let Some(e) = b.en_passant_square {
            assert!(b.boards.iter().all(|m| m & (1u64 << e) == 0));
        }
        color = opposite(color);
    }
}

#[test]
fn legal_moves_exclude_self_check() {
    let b = board_with(&[
        (Color::White, PieceType::King, 4),
        (Color::White, PieceType::Rook, 12),
        (Color::Black, PieceType::Rook, 60),
    ]);
    let pseudo = Move::generate_moves_for_side(Color::White, &b);
    let legal = generate_legal_moves(&b, Color::White);
    assert!(pseudo.iter().any(|m| m.from == 12 && m.to == 8));
    assert!(legal.iter().all(|m| !(m.from == 12 && m.to == 8)));
    assert!(legal.iter().any(|m| m.from == 12 && m.to == 60));
    let start = load_position(START).unwrap();
    assert_eq!(generate_legal_moves(&start, Color::White).len(), 20);
}
