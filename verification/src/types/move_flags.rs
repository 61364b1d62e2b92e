//! Move flags packed into the high nibble of a `Move`.
use vstd::prelude::*;

verus! {

pub const QUIET: u16 = 0;
pub const DOUBLE_PUSH: u16 = 1;
pub const KING_CASTLE: u16 = 2;
pub const QUEEN_CASTLE: u16 = 3;
pub const CAPTURE: u16 = 4;
pub const EN_PASSANT: u16 = 5;
pub const PROMO_KNIGHT: u16 = 8;
pub const PROMO_BISHOP: u16 = 9;
pub const PROMO_ROOK: u16 = 10;
pub const PROMO_QUEEN: u16 = 11;
pub const PROMO_CAPTURE_KNIGHT: u16 = 12;
pub const PROMO_CAPTURE_BISHOP: u16 = 13;
pub const PROMO_CAPTURE_ROOK: u16 = 14;
pub const PROMO_CAPTURE_QUEEN: u16 = 15;

} // verus!
