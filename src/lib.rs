pub mod board;
pub mod evaluation;
pub mod game_over;
pub mod make_move;
pub mod movegen;
pub mod parse_fen;
pub mod search;
