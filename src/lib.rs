//! Move generation for knight, bishop and rook on a rectangular board, the
//! count of knight–bishop–rook triangles, and a small closed summation.

pub mod magical_well;
pub mod piece;
pub mod point;
pub mod transpose;
pub mod triangle;

pub use magical_well::magicalWell;
pub use piece::{Piece, PieceType};
pub use point::Point;
pub use triangle::chessTriangle;
