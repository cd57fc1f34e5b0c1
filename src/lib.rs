//! Move generation, position handling and perft counting for 6x6 Tak.

pub mod bitboard;
pub mod color;
pub mod make_move;
pub mod move_list;
pub mod movegen;
pub mod moves;
pub mod notation;
pub mod perft;
pub mod piece;
pub mod position;
pub mod road;
pub mod square;
pub mod tei;
pub mod text;
pub mod tps;

pub use bitboard::Bitboard;
pub use color::Color;
pub use moves::{Dir, Move};
pub use piece::{Piece, PieceType};
pub use position::Position;
pub use square::{Square, SquareParseError};
pub use tps::TpsError;
pub use move_list::MoveList;
pub use road::Terminal;
pub use tei::{Interface, ProtocolError, Reply};
pub use notation::MoveParseError;
pub use movegen::SpreadCounts;
