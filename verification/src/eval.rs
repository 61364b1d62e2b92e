//! Static evaluation: tapered material + piece-square tables (PeSTO values)
//! plus pawn structure, mobility, rook placement and a king shelter term.
//!
//! Scores are centipawns from the side to move's point of view.
use vstd::prelude::*;
use crate::attacks::{self, file, rank, abs};
use crate::bitboard::{
    Bitboard, member, pop, popcount, pop_lsb, file_bb, lemma_has_and, lemma_has_or, lemma_has_not,
    lemma_zero_iff, lemma_pop_bound, FILE_A, north, south, east, west,
};
use crate::position::{Position, attack_set};
use crate::movegen;
use crate::types::{Color, Piece, PieceType, Square, flip_square, file_of, rank_of};
use crate::text::{push_char, push_int, int_text};

verus! {

pub const MATE: i32 = 30_000;
/// Any |score| above this encodes a forced mate at some distance.
pub const MATE_IN_MAX_PLY: i32 = 29_000;
pub const INFINITY: i32 = 32_000;

/// Game phase of a full opening board.
pub const TOTAL_PHASE: i32 = 24;
pub const TEMPO: i32 = 12;
pub const KING_SHELTER: i32 = 9;

/// Midgame material values, indexed by `PieceType`.
pub open spec fn mg_material(pt: int) -> int {
    if pt == 0 { 82 } else if pt == 1 { 337 } else if pt == 2 { 365 } else if pt == 3 { 477 } else if pt == 4 { 1025 } else { 0 }
}

/// Endgame material values, indexed by `PieceType`.
pub open spec fn eg_material(pt: int) -> int {
    if pt == 0 { 94 } else if pt == 1 { 281 } else if pt == 2 { 297 } else if pt == 3 { 512 } else if pt == 4 { 936 } else { 0 }
}

/// Game phase weight per piece; 24 is a full opening board.
pub open spec fn phase_weight(pt: int) -> int {
    if pt == 1 || pt == 2 { 1 } else if pt == 3 { 2 } else if pt == 4 { 4 } else { 0 }
}

/// Mobility is scored per attacked square, offset so an average piece is neutral.
pub open spec fn mobility_mg(pt: int) -> int {
    if pt == 1 || pt == 2 { 4 } else if pt == 3 { 3 } else if pt == 4 { 1 } else { 0 }
}

pub open spec fn mobility_eg(pt: int) -> int {
    if pt == 1 { 4 } else if pt == 2 { 5 } else if pt == 3 { 4 } else if pt == 4 { 3 } else { 0 }
}

pub open spec fn mobility_offset(pt: int) -> int {
    if pt == 1 { 4 } else if pt == 2 || pt == 3 { 6 } else if pt == 4 { 12 } else { 0 }
}

pub open spec fn passed_mg(r: int) -> int {
    if r == 1 { 5 } else if r == 2 { 10 } else if r == 3 { 20 } else if r == 4 { 35 } else if r == 5 { 60 } else if r == 6 { 100 } else { 0 }
}

pub open spec fn passed_eg(r: int) -> int {
    if r == 1 { 15 } else if r == 2 { 25 } else if r == 3 { 40 } else if r == 4 { 65 } else if r == 5 { 105 } else if r == 6 { 165 } else { 0 }
}

pub open spec fn mg_table(pt: int) -> Seq<i32> {
    if pt == 0 {
        seq![0i32, 0i32, 0i32, 0i32, 0i32, 0i32, 0i32, 0i32, 98i32, 134i32, 61i32, 95i32, 68i32, 126i32, 34i32, -11i32, -6i32, 7i32, 26i32, 31i32, 65i32, 56i32, 25i32, -20i32, -14i32, 13i32, 6i32, 21i32, 23i32, 12i32, 17i32, -23i32, -27i32, -2i32, -5i32, 12i32, 17i32, 6i32, 10i32, -25i32, -26i32, -4i32, -4i32, -10i32, 3i32, 3i32, 33i32, -12i32, -35i32, -1i32, -20i32, -23i32, -15i32, 24i32, 38i32, -22i32, 0i32, 0i32, 0i32, 0i32, 0i32, 0i32, 0i32, 0i32]
    } else if pt == 1 {
        seq![-167i32, -89i32, -34i32, -49i32, 61i32, -97i32, -15i32, -107i32, -73i32, -41i32, 72i32, 36i32, 23i32, 62i32, 7i32, -17i32, -47i32, 60i32, 37i32, 65i32, 84i32, 129i32, 73i32, 44i32, -9i32, 17i32, 19i32, 53i32, 37i32, 69i32, 18i32, 22i32, -13i32, 4i32, 16i32, 13i32, 28i32, 19i32, 21i32, -8i32, -23i32, -9i32, 12i32, 10i32, 19i32, 17i32, 25i32, -16i32, -29i32, -53i32, -12i32, -3i32, -1i32, 18i32, -14i32, -19i32, -105i32, -21i32, -58i32, -33i32, -17i32, -28i32, -19i32, -23i32]
    } else if pt == 2 {
        seq![-29i32, 4i32, -82i32, -37i32, -25i32, -42i32, 7i32, -8i32, -26i32, 16i32, -18i32, -13i32, 30i32, 59i32, 18i32, -47i32, -16i32, 37i32, 43i32, 40i32, 35i32, 50i32, 37i32, -2i32, -4i32, 5i32, 19i32, 50i32, 37i32, 37i32, 7i32, -2i32, -6i32, 13i32, 13i32, 26i32, 34i32, 12i32, 10i32, 4i32, 0i32, 15i32, 15i32, 15i32, 14i32, 27i32, 18i32, 10i32, 4i32, 15i32, 16i32, 0i32, 7i32, 21i32, 33i32, 1i32, -33i32, -3i32, -14i32, -21i32, -13i32, -12i32, -39i32, -21i32]
    } else if pt == 3 {
        seq![32i32, 42i32, 32i32, 51i32, 63i32, 9i32, 31i32, 43i32, 27i32, 32i32, 58i32, 62i32, 80i32, 67i32, 26i32, 44i32, -5i32, 19i32, 26i32, 36i32, 17i32, 45i32, 61i32, 16i32, -24i32, -11i32, 7i32, 26i32, 24i32, 35i32, -8i32, -20i32, -36i32, -26i32, -12i32, -1i32, 9i32, -7i32, 6i32, -23i32, -45i32, -25i32, -16i32, -17i32, 3i32, 0i32, -5i32, -33i32, -44i32, -16i32, -20i32, -9i32, -1i32, 11i32, -6i32, -71i32, -19i32, -13i32, 1i32, 17i32, 16i32, 7i32, -37i32, -26i32]
    } else if pt == 4 {
        seq![-28i32, 0i32, 29i32, 12i32, 59i32, 44i32, 43i32, 45i32, -24i32, -39i32, -5i32, 1i32, -16i32, 57i32, 28i32, 54i32, -13i32, -17i32, 7i32, 8i32, 29i32, 56i32, 47i32, 57i32, -27i32, -27i32, -16i32, -16i32, -1i32, 17i32, -2i32, 1i32, -9i32, -26i32, -9i32, -10i32, -2i32, -4i32, 3i32, -3i32, -14i32, 2i32, -11i32, -2i32, -5i32, 2i32, 14i32, 5i32, -35i32, -8i32, 11i32, 2i32, 8i32, 15i32, -3i32, 1i32, -1i32, -18i32, -9i32, 10i32, -15i32, -25i32, -31i32, -50i32]
    } else {
        seq![-65i32, 23i32, 16i32, -15i32, -56i32, -34i32, 2i32, 13i32, 29i32, -1i32, -20i32, -7i32, -8i32, -4i32, -38i32, -29i32, -9i32, 24i32, 2i32, -16i32, -20i32, 6i32, 22i32, -22i32, -17i32, -20i32, -12i32, -27i32, -30i32, -25i32, -14i32, -36i32, -49i32, -1i32, -27i32, -39i32, -46i32, -44i32, -33i32, -51i32, -14i32, -14i32, -22i32, -46i32, -44i32, -30i32, -15i32, -27i32, 1i32, 7i32, -8i32, -64i32, -43i32, -16i32, 9i32, 8i32, -15i32, 36i32, 12i32, -54i32, 8i32, -28i32, 24i32, 14i32]
    }
}

pub open spec fn eg_table(pt: int) -> Seq<i32> {
    if pt == 0 {
        seq![0i32, 0i32, 0i32, 0i32, 0i32, 0i32, 0i32, 0i32, 178i32, 173i32, 158i32, 134i32, 147i32, 132i32, 165i32, 187i32, 94i32, 100i32, 85i32, 67i32, 56i32, 53i32, 82i32, 84i32, 32i32, 24i32, 13i32, 5i32, -2i32, 4i32, 17i32, 17i32, 13i32, 9i32, -3i32, -7i32, -7i32, -8i32, 3i32, -1i32, 4i32, 7i32, -6i32, 1i32, 0i32, -5i32, -1i32, -8i32, 13i32, 8i32, 8i32, 10i32, 13i32, 0i32, 2i32, -7i32, 0i32, 0i32, 0i32, 0i32, 0i32, 0i32, 0i32, 0i32]
    } else if pt == 1 {
        seq![-58i32, -38i32, -13i32, -28i32, -31i32, -27i32, -63i32, -99i32, -25i32, -8i32, -25i32, -2i32, -9i32, -25i32, -24i32, -52i32, -24i32, -20i32, 10i32, 9i32, -1i32, -9i32, -19i32, -41i32, -17i32, 3i32, 22i32, 22i32, 22i32, 11i32, 8i32, -18i32, -18i32, -6i32, 16i32, 25i32, 16i32, 17i32, 4i32, -18i32, -23i32, -3i32, -1i32, 15i32, 10i32, -3i32, -20i32, -22i32, -42i32, -20i32, -10i32, -5i32, -2i32, -20i32, -23i32, -44i32, -29i32, -51i32, -23i32, -15i32, -22i32, -18i32, -50i32, -64i32]
    } else if pt == 2 {
        seq![-14i32, -21i32, -11i32, -8i32, -7i32, -9i32, -17i32, -24i32, -8i32, -4i32, 7i32, -12i32, -3i32, -13i32, -4i32, -14i32, 2i32, -8i32, 0i32, -1i32, -2i32, 6i32, 0i32, 4i32, -3i32, 9i32, 12i32, 9i32, 14i32, 10i32, 3i32, 2i32, -6i32, 3i32, 13i32, 19i32, 7i32, 10i32, -3i32, -9i32, -12i32, -3i32, 8i32, 10i32, 13i32, 3i32, -7i32, -15i32, -14i32, -18i32, -7i32, -1i32, 4i32, -9i32, -15i32, -27i32, -23i32, -9i32, -23i32, -5i32, -9i32, -16i32, -5i32, -17i32]
    } else if pt == 3 {
        seq![13i32, 10i32, 18i32, 15i32, 12i32, 12i32, 8i32, 5i32, 11i32, 13i32, 13i32, 11i32, -3i32, 3i32, 8i32, 3i32, 7i32, 7i32, 7i32, 5i32, 4i32, -3i32, -5i32, -3i32, 4i32, 3i32, 13i32, 1i32, 2i32, 1i32, -1i32, 2i32, 3i32, 5i32, 8i32, 4i32, -5i32, -6i32, -8i32, -11i32, -4i32, 0i32, -5i32, -1i32, -7i32, -12i32, -8i32, -16i32, -6i32, -6i32, 0i32, 2i32, -9i32, -9i32, -11i32, -3i32, -9i32, 2i32, 3i32, -1i32, -5i32, -13i32, 4i32, -20i32]
    } else if pt == 4 {
        seq![-9i32, 22i32, 22i32, 27i32, 27i32, 19i32, 10i32, 20i32, -17i32, 20i32, 32i32, 41i32, 58i32, 25i32, 30i32, 0i32, -20i32, 6i32, 9i32, 49i32, 47i32, 35i32, 19i32, 9i32, 3i32, 22i32, 24i32, 45i32, 57i32, 40i32, 57i32, 36i32, -18i32, 28i32, 19i32, 47i32, 31i32, 34i32, 39i32, 23i32, -16i32, -27i32, 15i32, 6i32, 9i32, 17i32, 10i32, 5i32, -22i32, -23i32, -30i32, -16i32, -16i32, -23i32, -36i32, -32i32, -33i32, -28i32, -22i32, -43i32, -5i32, -32i32, -20i32, -41i32]
    } else {
        seq![-74i32, -35i32, -18i32, -18i32, -11i32, 15i32, 4i32, -17i32, -12i32, 17i32, 14i32, 17i32, 17i32, 38i32, 23i32, 11i32, 10i32, 17i32, 23i32, 15i32, 20i32, 45i32, 44i32, 13i32, -8i32, 22i32, 24i32, 27i32, 26i32, 33i32, 26i32, 3i32, -18i32, -4i32, 21i32, 24i32, 27i32, 23i32, 9i32, -11i32, -19i32, -3i32, 11i32, 21i32, 23i32, 16i32, 7i32, -9i32, -27i32, -11i32, 4i32, 13i32, 14i32, 4i32, -5i32, -17i32, -53i32, -34i32, -21i32, -11i32, -28i32, -14i32, -24i32, -43i32]
    }
}

fn mg_table_at(pt: usize, sq: usize) -> (v: i32)
    requires
        pt < 6,
        sq < 64,
    ensures
        v == mg_table(pt as int)[sq as int],
        -200 <= v <= 200,
{
    let t: [i32; 64] = if pt == 0 {
        [0, 0, 0, 0, 0, 0, 0, 0, 98, 134, 61, 95, 68, 126, 34, -11, -6, 7, 26, 31, 65, 56, 25, -20, -14, 13, 6, 21, 23, 12, 17, -23, -27, -2, -5, 12, 17, 6, 10, -25, -26, -4, -4, -10, 3, 3, 33, -12, -35, -1, -20, -23, -15, 24, 38, -22, 0, 0, 0, 0, 0, 0, 0, 0]
    } else if pt == 1 {
        [-167, -89, -34, -49, 61, -97, -15, -107, -73, -41, 72, 36, 23, 62, 7, -17, -47, 60, 37, 65, 84, 129, 73, 44, -9, 17, 19, 53, 37, 69, 18, 22, -13, 4, 16, 13, 28, 19, 21, -8, -23, -9, 12, 10, 19, 17, 25, -16, -29, -53, -12, -3, -1, 18, -14, -19, -105, -21, -58, -33, -17, -28, -19, -23]
    } else if pt == 2 {
        [-29, 4, -82, -37, -25, -42, 7, -8, -26, 16, -18, -13, 30, 59, 18, -47, -16, 37, 43, 40, 35, 50, 37, -2, -4, 5, 19, 50, 37, 37, 7, -2, -6, 13, 13, 26, 34, 12, 10, 4, 0, 15, 15, 15, 14, 27, 18, 10, 4, 15, 16, 0, 7, 21, 33, 1, -33, -3, -14, -21, -13, -12, -39, -21]
    } else if pt == 3 {
        [32, 42, 32, 51, 63, 9, 31, 43, 27, 32, 58, 62, 80, 67, 26, 44, -5, 19, 26, 36, 17, 45, 61, 16, -24, -11, 7, 26, 24, 35, -8, -20, -36, -26, -12, -1, 9, -7, 6, -23, -45, -25, -16, -17, 3, 0, -5, -33, -44, -16, -20, -9, -1, 11, -6, -71, -19, -13, 1, 17, 16, 7, -37, -26]
    } else if pt == 4 {
        [-28, 0, 29, 12, 59, 44, 43, 45, -24, -39, -5, 1, -16, 57, 28, 54, -13, -17, 7, 8, 29, 56, 47, 57, -27, -27, -16, -16, -1, 17, -2, 1, -9, -26, -9, -10, -2, -4, 3, -3, -14, 2, -11, -2, -5, 2, 14, 5, -35, -8, 11, 2, 8, 15, -3, 1, -1, -18, -9, 10, -15, -25, -31, -50]
    } else {
        [-65, 23, 16, -15, -56, -34, 2, 13, 29, -1, -20, -7, -8, -4, -38, -29, -9, 24, 2, -16, -20, 6, 22, -22, -17, -20, -12, -27, -30, -25, -14, -36, -49, -1, -27, -39, -46, -44, -33, -51, -14, -14, -22, -46, -44, -30, -15, -27, 1, 7, -8, -64, -43, -16, 9, 8, -15, 36, 12, -54, 8, -28, 24, 14]
    };
    proof {
        assert(t@ == mg_table(pt as int));
    }
    t[sq]
}

fn eg_table_at(pt: usize, sq: usize) -> (v: i32)
    requires
        pt < 6,
        sq < 64,
    ensures
        v == eg_table(pt as int)[sq as int],
        -200 <= v <= 200,
{
    let t: [i32; 64] = if pt == 0 {
        [0, 0, 0, 0, 0, 0, 0, 0, 178, 173, 158, 134, 147, 132, 165, 187, 94, 100, 85, 67, 56, 53, 82, 84, 32, 24, 13, 5, -2, 4, 17, 17, 13, 9, -3, -7, -7, -8, 3, -1, 4, 7, -6, 1, 0, -5, -1, -8, 13, 8, 8, 10, 13, 0, 2, -7, 0, 0, 0, 0, 0, 0, 0, 0]
    } else if pt == 1 {
        [-58, -38, -13, -28, -31, -27, -63, -99, -25, -8, -25, -2, -9, -25, -24, -52, -24, -20, 10, 9, -1, -9, -19, -41, -17, 3, 22, 22, 22, 11, 8, -18, -18, -6, 16, 25, 16, 17, 4, -18, -23, -3, -1, 15, 10, -3, -20, -22, -42, -20, -10, -5, -2, -20, -23, -44, -29, -51, -23, -15, -22, -18, -50, -64]
    } else if pt == 2 {
        [-14, -21, -11, -8, -7, -9, -17, -24, -8, -4, 7, -12, -3, -13, -4, -14, 2, -8, 0, -1, -2, 6, 0, 4, -3, 9, 12, 9, 14, 10, 3, 2, -6, 3, 13, 19, 7, 10, -3, -9, -12, -3, 8, 10, 13, 3, -7, -15, -14, -18, -7, -1, 4, -9, -15, -27, -23, -9, -23, -5, -9, -16, -5, -17]
    } else if pt == 3 {
        [13, 10, 18, 15, 12, 12, 8, 5, 11, 13, 13, 11, -3, 3, 8, 3, 7, 7, 7, 5, 4, -3, -5, -3, 4, 3, 13, 1, 2, 1, -1, 2, 3, 5, 8, 4, -5, -6, -8, -11, -4, 0, -5, -1, -7, -12, -8, -16, -6, -6, 0, 2, -9, -9, -11, -3, -9, 2, 3, -1, -5, -13, 4, -20]
    } else if pt == 4 {
        [-9, 22, 22, 27, 27, 19, 10, 20, -17, 20, 32, 41, 58, 25, 30, 0, -20, 6, 9, 49, 47, 35, 19, 9, 3, 22, 24, 45, 57, 40, 57, 36, -18, 28, 19, 47, 31, 34, 39, 23, -16, -27, 15, 6, 9, 17, 10, 5, -22, -23, -30, -16, -16, -23, -36, -32, -33, -28, -22, -43, -5, -32, -20, -41]
    } else {
        [-74, -35, -18, -18, -11, 15, 4, -17, -12, 17, 14, 17, 17, 38, 23, 11, 10, 17, 23, 15, 20, 45, 44, 13, -8, 22, 24, 27, 26, 33, 26, 3, -18, -4, 21, 24, 27, 23, 9, -11, -19, -3, 11, 21, 23, 16, 7, -9, -27, -11, 4, 13, 14, 4, -5, -17, -53, -34, -21, -11, -28, -14, -24, -43]
    };
    proof {
        assert(t@ == eg_table(pt as int));
    }
    t[sq]
}


fn material_mg(pt: usize) -> (v: i32)
    requires
        pt < 6,
    ensures
        v == mg_material(pt as int),
{
    if pt == 0 { 82 } else if pt == 1 { 337 } else if pt == 2 { 365 } else if pt == 3 { 477 } else if pt == 4 { 1025 } else { 0 }
}

fn material_eg(pt: usize) -> (v: i32)
    requires
        pt < 6,
    ensures
        v == eg_material(pt as int),
{
    if pt == 0 { 94 } else if pt == 1 { 281 } else if pt == 2 { 297 } else if pt == 3 { 512 } else if pt == 4 { 936 } else { 0 }
}

fn weight_of(pt: usize) -> (v: i32)
    requires
        pt < 6,
    ensures
        v == phase_weight(pt as int),
{
    if pt == 1 || pt == 2 { 1 } else if pt == 3 { 2 } else if pt == 4 { 4 } else { 0 }
}

fn mob_mg(pt: usize) -> (v: i32)
    requires
        pt < 6,
    ensures
        v == mobility_mg(pt as int),
{
    if pt == 1 || pt == 2 { 4 } else if pt == 3 { 3 } else if pt == 4 { 1 } else { 0 }
}

fn mob_eg(pt: usize) -> (v: i32)
    requires
        pt < 6,
    ensures
        v == mobility_eg(pt as int),
{
    if pt == 1 { 4 } else if pt == 2 { 5 } else if pt == 3 { 4 } else if pt == 4 { 3 } else { 0 }
}

fn mob_offset(pt: usize) -> (v: i32)
    requires
        pt < 6,
    ensures
        v == mobility_offset(pt as int),
{
    if pt == 1 { 4 } else if pt == 2 || pt == 3 { 6 } else if pt == 4 { 12 } else { 0 }
}

fn passed_bonus_mg(r: usize) -> (v: i32)
    requires
        r < 8,
    ensures
        v == passed_mg(r as int),
{
    if r == 1 { 5 } else if r == 2 { 10 } else if r == 3 { 20 } else if r == 4 { 35 } else if r == 5 { 60 } else if r == 6 { 100 } else { 0 }
}

fn passed_bonus_eg(r: usize) -> (v: i32)
    requires
        r < 8,
    ensures
        v == passed_eg(r as int),
{
    if r == 1 { 15 } else if r == 2 { 25 } else if r == 3 { 40 } else if r == 4 { 65 } else if r == 5 { 105 } else if r == 6 { 165 } else { 0 }
}

/// Value used for move ordering and delta pruning.
pub fn piece_value(pt: PieceType) -> (v: i32)
    ensures
        v == mg_material(pt.spec_index() as int),
{
    material_mg(pt.index())
}

pub open spec fn own_pawns(pos: &Position, c: Color) -> u64 {
    pos.pieces[0] & pos.colors[c.spec_index() as int]
}

/// Squares attacked by pawns of colour `c`.
pub open spec fn pawn_span(pawns: u64, c: Color) -> u64 {
    match c {
        Color::White => crate::bitboard::spec_east(crate::bitboard::spec_north(pawns))
            | crate::bitboard::spec_west(crate::bitboard::spec_north(pawns)),
        Color::Black => crate::bitboard::spec_east(crate::bitboard::spec_south(pawns))
            | crate::bitboard::spec_west(crate::bitboard::spec_south(pawns)),
    }
}

/// Tables are written from white's view, so black reads them directly and
/// white mirrors.
pub open spec fn table_square(c: Color, sq: int) -> int {
    if c == Color::White {
        ((sq as u8) ^ 56u8) as int
    } else {
        sq
    }
}

pub open spec fn relative_rank(c: Color, sq: int) -> int {
    if c == Color::White {
        sq / 8
    } else {
        7 - sq / 8
    }
}

pub open spec fn ahead(c: Color, t: int, sq: int) -> bool {
    if c == Color::White {
        rank(t) > rank(sq)
    } else {
        rank(t) < rank(sq)
    }
}

/// No enemy pawn stands ahead of `sq` on its file or an adjacent one.
pub open spec fn is_passed(pos: &Position, c: Color, sq: int) -> bool {
    forall|t: int| #[trigger] member(own_pawns(pos, c.spec_flip()), t) ==> !(abs(file(t) - file(sq)) <= 1 && ahead(c, t, sq))
}

/// No friendly pawn stands on an adjacent file.
pub open spec fn is_isolated(pos: &Position, c: Color, sq: int) -> bool {
    forall|t: int| #[trigger] member(own_pawns(pos, c), t) ==> abs(file(t) - file(sq)) != 1
}

/// Another friendly pawn shares the file.
pub open spec fn is_doubled(pos: &Position, c: Color, sq: int) -> bool {
    pop(own_pawns(pos, c) & (FILE_A << ((sq % 8) as u64))) > 1
}

/// No pawn of `pawns` stands on the file of `sq`.
pub open spec fn file_free(pawns: u64, sq: int) -> bool {
    forall|t: int| #[trigger] member(pawns, t) ==> file(t) != file(sq)
}

/// Attacked squares a piece could use: not its own side's, not covered by
/// enemy pawns, less the type's offset.
pub open spec fn safe_squares(pos: &Position, c: Color, pt: int, sq: int) -> int {
    pop(attack_set(crate::types::piece_type_of_index(pt), sq, pos.occ()) & !pos.colors[c.spec_index() as int] & !pawn_span(own_pawns(pos, c.spec_flip()), c.spec_flip())) - mobility_offset(pt)
}

pub open spec fn shelter(pos: &Position, c: Color, sq: int) -> int {
    (pop(attack_set(PieceType::King, sq, pos.occ()) & own_pawns(pos, c)) * 9) as int
}

/// Pawn-structure midgame terms of a pawn of colour `c` on `sq`: passed,
/// isolated and doubled (the doubled penalty is halved, as it counts once
/// per pawn on the file).
pub open spec fn pawn_mg(pos: &Position, c: Color, sq: int) -> int {
    (if is_passed(pos, c, sq) { passed_mg(relative_rank(c, sq)) } else { 0 })
        + (if is_isolated(pos, c, sq) { -14int } else { 0 })
        + (if is_doubled(pos, c, sq) { -5int } else { 0 })
}

pub open spec fn pawn_eg(pos: &Position, c: Color, sq: int) -> int {
    (if is_passed(pos, c, sq) { passed_eg(relative_rank(c, sq)) } else { 0 })
        + (if is_isolated(pos, c, sq) { -12int } else { 0 })
        + (if is_doubled(pos, c, sq) { -11int } else { 0 })
}

/// A rook on a file without own pawns earns `open` when no enemy pawn is
/// there either, else `semi`.
pub open spec fn rook_file(pos: &Position, c: Color, sq: int, open: int, semi: int) -> int {
    if file_free(own_pawns(pos, c), sq) {
        if file_free(own_pawns(pos, c.spec_flip()), sq) { open } else { semi }
    } else {
        0
    }
}

/// The midgame terms of a piece of type index `pt` and colour `c` on `sq`.
pub open spec fn piece_mg(pos: &Position, c: Color, pt: int, sq: int) -> int {
    mg_material(pt) + mg_table(pt)[table_square(c, sq)]
        + (if pt == 0 { pawn_mg(pos, c, sq) } else { 0 })
        + (if pt == 3 { rook_file(pos, c, sq, 28, 12) } else { 0 })
        + (if pt == 5 { shelter(pos, c, sq) } else { 0 })
        + (if 1 <= pt <= 4 { safe_squares(pos, c, pt, sq) * mobility_mg(pt) } else { 0 })
}

/// The endgame terms of a piece of type index `pt` and colour `c` on `sq`.
pub open spec fn piece_eg(pos: &Position, c: Color, pt: int, sq: int) -> int {
    eg_material(pt) + eg_table(pt)[table_square(c, sq)]
        + (if pt == 0 { pawn_eg(pos, c, sq) } else { 0 })
        + (if pt == 3 { rook_file(pos, c, sq, 12, 6) } else { 0 })
        + (if 1 <= pt <= 4 { safe_squares(pos, c, pt, sq) * mobility_eg(pt) } else { 0 })
}

pub open spec fn holds(pos: &Position, c: Color, pt: int, s: int) -> bool {
    0 <= s < 64 && pos.board@[s] == Some(Piece { color: c, piece_type: crate::types::piece_type_of_index(pt) })
}

/// Midgame terms of colour `c`'s pieces of type `pt` on the first `n` squares.
pub open spec fn type_mg(pos: &Position, c: Color, pt: int, n: int) -> int
    decreases n,
{
    if n <= 0 {
        0
    } else {
        type_mg(pos, c, pt, n - 1) + if holds(pos, c, pt, n - 1) { piece_mg(pos, c, pt, n - 1) } else { 0 }
    }
}

pub open spec fn type_eg(pos: &Position, c: Color, pt: int, n: int) -> int
    decreases n,
{
    if n <= 0 {
        0
    } else {
        type_eg(pos, c, pt, n - 1) + if holds(pos, c, pt, n - 1) { piece_eg(pos, c, pt, n - 1) } else { 0 }
    }
}

/// Midgame terms of colour `c`'s pieces of the first `k` types.
pub open spec fn kinds_mg(pos: &Position, c: Color, k: int) -> int
    decreases k,
{
    if k <= 0 {
        0
    } else {
        kinds_mg(pos, c, k - 1) + type_mg(pos, c, k - 1, 64)
    }
}

pub open spec fn kinds_eg(pos: &Position, c: Color, k: int) -> int
    decreases k,
{
    if k <= 0 {
        0
    } else {
        kinds_eg(pos, c, k - 1) + type_eg(pos, c, k - 1, 64)
    }
}

/// Phase weight of colour `c`'s pieces of the first `k` types.
pub open spec fn kinds_phase(pos: &Position, c: Color, k: int) -> int
    decreases k,
{
    if k <= 0 {
        0
    } else {
        kinds_phase(pos, c, k - 1) + pop(pos.pieces[k - 1] & pos.colors[c.spec_index() as int]) * phase_weight(k - 1)
    }
}

pub open spec fn bishop_pair(pos: &Position, c: Color) -> bool {
    pop(pos.pieces[2] & pos.colors[c.spec_index() as int]) >= 2
}

/// One side's midgame total, before its sign.
pub open spec fn side_mg(pos: &Position, c: Color) -> int {
    kinds_mg(pos, c, 6) + if bishop_pair(pos, c) { 30int } else { 0 }
}

pub open spec fn side_eg(pos: &Position, c: Color) -> int {
    kinds_eg(pos, c, 6) + if bishop_pair(pos, c) { 50int } else { 0 }
}

/// How many pieces of type index `pt` colour `c` has on the first `n` squares.
pub open spec fn count_on(pos: &Position, c: Color, pt: int, n: int) -> int
    decreases n,
{
    if n <= 0 {
        0
    } else {
        count_on(pos, c, pt, n - 1) + if holds(pos, c, pt, n - 1) { 1int } else { 0 }
    }
}

/// The midgame terms of a piece that come from where it stands: its square
/// table entry, pawn structure, rook file, king shelter and mobility.
pub open spec fn placed_mg(pos: &Position, c: Color, pt: int, sq: int) -> int {
    mg_table(pt)[table_square(c, sq)]
        + (if pt == 0 { pawn_mg(pos, c, sq) } else { 0 })
        + (if pt == 3 { rook_file(pos, c, sq, 28, 12) } else { 0 })
        + (if pt == 5 { shelter(pos, c, sq) } else { 0 })
        + (if 1 <= pt <= 4 { safe_squares(pos, c, pt, sq) * mobility_mg(pt) } else { 0 })
}

/// The endgame terms of a piece that come from where it stands.
pub open spec fn placed_eg(pos: &Position, c: Color, pt: int, sq: int) -> int {
    eg_table(pt)[table_square(c, sq)]
        + (if pt == 0 { pawn_eg(pos, c, sq) } else { 0 })
        + (if pt == 3 { rook_file(pos, c, sq, 12, 6) } else { 0 })
        + (if 1 <= pt <= 4 { safe_squares(pos, c, pt, sq) * mobility_eg(pt) } else { 0 })
}

/// The placement terms of colour `c`'s pieces of type `pt` on the first `n` squares.
pub open spec fn type_placed(pos: &Position, c: Color, pt: int, n: int, mg: bool) -> int
    decreases n,
{
    if n <= 0 {
        0
    } else {
        type_placed(pos, c, pt, n - 1, mg) + if holds(pos, c, pt, n - 1) {
            if mg { placed_mg(pos, c, pt, n - 1) } else { placed_eg(pos, c, pt, n - 1) }
        } else {
            0
        }
    }
}

/// All placement terms of colour `c`, midgame or endgame.
pub open spec fn placement(pos: &Position, c: Color, mg: bool) -> int {
    type_placed(pos, c, 0, 64, mg) + type_placed(pos, c, 1, 64, mg) + type_placed(pos, c, 2, 64, mg)
        + type_placed(pos, c, 3, 64, mg) + type_placed(pos, c, 4, 64, mg) + type_placed(pos, c, 5, 64, mg)
}

proof fn lemma_type_split(pos: &Position, c: Color, pt: int, n: int)
    requires
        0 <= pt < 6,
    ensures
        type_mg(pos, c, pt, n) == mg_material(pt) * count_on(pos, c, pt, n) + type_placed(pos, c, pt, n, true),
        type_eg(pos, c, pt, n) == eg_material(pt) * count_on(pos, c, pt, n) + type_placed(pos, c, pt, n, false),
    decreases n,
{
    if n > 0 {
        lemma_type_split(pos, c, pt, n - 1);
        let k = count_on(pos, c, pt, n - 1);
        assert(mg_material(pt) * (k + 1) == mg_material(pt) * k + mg_material(pt)) by (nonlinear_arith);
        assert(eg_material(pt) * (k + 1) == eg_material(pt) * k + eg_material(pt)) by (nonlinear_arith);
    }
}

/// Each side's midgame and endgame totals are its material, counted at the
/// PeSTO values (pawn 82/94, knight 337/281, bishop 365/297, rook 477/512,
/// queen 1025/936, king nothing), plus the bishop pair bonus (30/50), plus
/// terms that depend only on where the pieces stand. So one more knight of a
/// colour, all else equal, adds 337 to its midgame and 281 to its endgame
/// total besides its placement.
pub proof fn lemma_side_material(pos: &Position, c: Color)
    ensures
        side_mg(pos, c) == 82 * count_on(pos, c, 0, 64) + 337 * count_on(pos, c, 1, 64) + 365 * count_on(pos, c, 2, 64)
            + 477 * count_on(pos, c, 3, 64) + 1025 * count_on(pos, c, 4, 64) + placement(pos, c, true)
            + (if bishop_pair(pos, c) { 30int } else { 0 }),
        side_eg(pos, c) == 94 * count_on(pos, c, 0, 64) + 281 * count_on(pos, c, 1, 64) + 297 * count_on(pos, c, 2, 64)
            + 512 * count_on(pos, c, 3, 64) + 936 * count_on(pos, c, 4, 64) + placement(pos, c, false)
            + (if bishop_pair(pos, c) { 50int } else { 0 }),
{
    lemma_type_split(pos, c, 0, 64);
    lemma_type_split(pos, c, 1, 64);
    lemma_type_split(pos, c, 2, 64);
    lemma_type_split(pos, c, 3, 64);
    lemma_type_split(pos, c, 4, 64);
    lemma_type_split(pos, c, 5, 64);
    assert(kinds_mg(pos, c, 6) == type_mg(pos, c, 0, 64) + type_mg(pos, c, 1, 64) + type_mg(pos, c, 2, 64)
        + type_mg(pos, c, 3, 64) + type_mg(pos, c, 4, 64) + type_mg(pos, c, 5, 64)) by {
        reveal_with_fuel(kinds_mg, 7);
    }
    assert(kinds_eg(pos, c, 6) == type_eg(pos, c, 0, 64) + type_eg(pos, c, 1, 64) + type_eg(pos, c, 2, 64)
        + type_eg(pos, c, 3, 64) + type_eg(pos, c, 4, 64) + type_eg(pos, c, 5, 64)) by {
        reveal_with_fuel(kinds_eg, 7);
    }
}

/// Rust's integer division, which truncates toward zero.
pub open spec fn trunc_div(a: int, b: int) -> int {
    if a >= 0 {
        a / b
    } else {
        -((-a) / b)
    }
}

/// The static evaluation: white-minus-black midgame and endgame totals,
/// blended by the game phase, seen from the side to move, plus a tempo bonus.
pub open spec fn evaluation(pos: &Position) -> int {
    let mg = side_mg(pos, Color::White) - side_mg(pos, Color::Black);
    let eg = side_eg(pos, Color::White) - side_eg(pos, Color::Black);
    let raw = kinds_phase(pos, Color::White, 6) + kinds_phase(pos, Color::Black, 6);
    let phase = if raw < 24 { raw } else { 24 };
    let tapered = trunc_div(mg * phase + eg * (24 - phase), 24);
    (if pos.side_to_move == Color::White { tapered } else { -tapered }) + 12
}

/// The files either side of file `f`.
fn adjacent_files(f: u8) -> (m: Bitboard)
    requires
        f < 8,
    ensures
        forall|t: int| #[trigger] member(m, t) <==> 0 <= t < 64 && abs(t % 8 - f) == 1,
{
    let left = if f > 0 {
        file_bb(f - 1)
    } else {
        0
    };
    let right = if f < 7 {
        file_bb(f + 1)
    } else {
        0
    };
    proof {
        lemma_has_or(left, right);
        crate::bitboard::lemma_has_zero();
    }
    left | right
}

/// Squares that must be free of enemy pawns for a pawn on `sq` to be passed.
fn passed_mask(color: Color, sq: Square) -> (m: Bitboard)
    requires
        sq < 64,
    ensures
        forall|t: int| #[trigger] member(m, t) <==> 0 <= t < 64 && abs(file(t) - file(sq as int)) <= 1 && ahead(color, t, sq as int),
{
    let f = file_of(sq);
    let r = rank_of(sq);
    let own_file = file_bb(f);
    let adj = adjacent_files(f);
    let span = own_file | adj;
    proof {
        lemma_has_or(own_file, adj);
        crate::bitboard::lemma_has_full();
        crate::bitboard::lemma_has_zero();
    }
    let ahead_bb = match color {
        Color::White => if r == 7 {
            0
        } else {
            let k = (r as u64 + 1) * 8;
            proof {
                attacks::lemma_shifts(crate::bitboard::FULL, k);
            }
            crate::bitboard::FULL << k
        },
        Color::Black => if r == 0 {
            0
        } else {
            let k = (8 - r as u64) * 8;
            proof {
                attacks::lemma_shifts(crate::bitboard::FULL, k);
            }
            crate::bitboard::FULL >> k
        },
    };
    proof {
        lemma_has_and(span, ahead_bb);
        assert forall|t: int| #[trigger] member(span & ahead_bb, t) <==> 0 <= t < 64 && abs(file(t) - file(sq as int)) <= 1 && ahead(color, t, sq as int) by {
            if 0 <= t < 64 {
                assert(member(ahead_bb, t) <==> ahead(color, t, sq as int));
            }
        }
    }
    span & ahead_bb
}

fn pawn_attack_span(pawns: Bitboard, color: Color) -> (m: Bitboard)
    ensures
        m == pawn_span(pawns, color),
{
    match color {
        Color::White => east(north(pawns)) | west(north(pawns)),
        Color::Black => east(south(pawns)) | west(south(pawns)),
    }
}

/// The pawn-structure terms of a pawn on `sq`.
fn pawn_terms(color: Color, sq: Square, own: Bitboard, enemy: Bitboard, pos: &Position) -> (r: (i32, i32))
    requires
        sq < 64,
        own == own_pawns(pos, color),
        enemy == own_pawns(pos, color.spec_flip()),
    ensures
        r.0 as int == pawn_mg(pos, color, sq as int),
        r.1 as int == pawn_eg(pos, color, sq as int),
        -30 <= r.0 <= 200,
        -30 <= r.1 <= 200,
{
    let f = file_of(sq);
    let rel = match color {
        Color::White => rank_of(sq),
        Color::Black => 7 - rank_of(sq),
    } as usize;
    let mut mg: i32 = 0;
    let mut eg: i32 = 0;
    let passed = passed_mask(color, sq);
    proof {
        lemma_has_and(passed, enemy);
        lemma_zero_iff(passed & enemy);
    }
    if passed & enemy == 0 {
        assert(is_passed(pos, color, sq as int)) by {
            assert forall|t: int| #[trigger] member(enemy, t) implies !(abs(file(t) - file(sq as int)) <= 1 && ahead(color, t, sq as int)) by {
                assert(!member(passed & enemy, t));
            }
        }
        mg = passed_bonus_mg(rel);
        eg = passed_bonus_eg(rel);
    } else {
        assert(!is_passed(pos, color, sq as int));
    }
    let adj = adjacent_files(f);
    proof {
        lemma_has_and(own, adj);
        lemma_zero_iff(own & adj);
    }
    if own & adj == 0 {
        assert(is_isolated(pos, color, sq as int)) by {
            assert forall|t: int| #[trigger] member(own, t) implies abs(file(t) - file(sq as int)) != 1 by {
                assert(!member(own & adj, t));
            }
        }
        mg = mg - 14;
        eg = eg - 12;
    } else {
        assert(!is_isolated(pos, color, sq as int));
    }
    let same = file_bb(f);
    if popcount(own & same) > 1 {
        mg = mg - 5;
        eg = eg - 11;
    }
    (mg, eg)
}

/// The open- or semi-open-file bonus of a rook on `sq`.
fn rook_terms(color: Color, sq: Square, own: Bitboard, enemy: Bitboard, pos: &Position) -> (r: (i32, i32))
    requires
        sq < 64,
        own == own_pawns(pos, color),
        enemy == own_pawns(pos, color.spec_flip()),
    ensures
        r.0 as int == rook_file(pos, color, sq as int, 28, 12),
        r.1 as int == rook_file(pos, color, sq as int, 12, 6),
{
    let fb = file_bb(file_of(sq));
    proof {
        lemma_has_and(own, fb);
        lemma_zero_iff(own & fb);
        lemma_has_and(enemy, fb);
        lemma_zero_iff(enemy & fb);
        assert(file_free(own, sq as int) <==> own & fb == 0) by {
            if own & fb == 0 {
                assert forall|t: int| #[trigger] member(own, t) implies file(t) != file(sq as int) by {
                    assert(!member(own & fb, t));
                }
            }
        }
        assert(file_free(enemy, sq as int) <==> enemy & fb == 0) by {
            if enemy & fb == 0 {
                assert forall|t: int| #[trigger] member(enemy, t) implies file(t) != file(sq as int) by {
                    assert(!member(enemy & fb, t));
                }
            }
        }
    }
    if own & fb == 0 {
        if enemy & fb == 0 {
            (28, 12)
        } else {
            (12, 6)
        }
    } else {
        (0, 0)
    }
}

/// The midgame and endgame terms of one piece.
fn piece_terms(
    pos: &Position,
    color: Color,
    pt: usize,
    sq: Square,
    occupied: Bitboard,
    own: Bitboard,
    own_pawns_bb: Bitboard,
    enemy_pawns: Bitboard,
    enemy_pawn_attacks: Bitboard,
) -> (r: (i32, i32))
    requires
        pt < 6,
        sq < 64,
        occupied == pos.occ(),
        own == pos.colors[color.spec_index() as int],
        own_pawns_bb == own_pawns(pos, color),
        enemy_pawns == own_pawns(pos, color.spec_flip()),
        enemy_pawn_attacks == pawn_span(enemy_pawns, color.spec_flip()),
    ensures
        r.0 as int == piece_mg(pos, color, pt as int, sq as int),
        r.1 as int == piece_eg(pos, color, pt as int, sq as int),
        -3000 <= r.0 <= 3000,
        -3000 <= r.1 <= 3000,
{
    let table_sq = if color == Color::White {
        flip_square(sq)
    } else {
        sq
    } as usize;
    let mut mg = material_mg(pt) + mg_table_at(pt, table_sq);
    let mut eg = material_eg(pt) + eg_table_at(pt, table_sq);
    if pt == 0 {
        let (a, b) = pawn_terms(color, sq, own_pawns_bb, enemy_pawns, pos);
        mg = mg + a;
        eg = eg + b;
    } else if pt == 3 {
        let (a, b) = rook_terms(color, sq, own_pawns_bb, enemy_pawns, pos);
        mg = mg + a;
        eg = eg + b;
    } else if pt == 5 {
        let shelter_bb = movegen::piece_attacks(PieceType::King, sq, occupied) & own_pawns_bb;
        let n = popcount(shelter_bb);
        proof {
            lemma_pop_bound(shelter_bb);
        }
        mg = mg + n as i32 * KING_SHELTER;
    }
    if 1 <= pt && pt <= 4 {
        let kind = PieceType::from_index(pt);
        let moves = movegen::piece_attacks(kind, sq, occupied);
        let usable = moves & !own & !enemy_pawn_attacks;
        let n = popcount(usable);
        proof {
            lemma_pop_bound(usable);
        }
        let safe = n as i32 - mob_offset(pt);
        mg = mg + safe * mob_mg(pt);
        eg = eg + safe * mob_eg(pt);
    }
    (mg, eg)
}

/// Squares in `[a, b)` holding none of the pieces add nothing.
proof fn lemma_type_gap(pos: &Position, c: Color, pt: int, a: int, b: int)
    requires
        0 <= a <= b,
        forall|s: int| a <= s < b ==> !#[trigger] holds(pos, c, pt, s),
    ensures
        type_mg(pos, c, pt, b) == type_mg(pos, c, pt, a),
        type_eg(pos, c, pt, b) == type_eg(pos, c, pt, a),
    decreases b - a,
{
    if a < b {
        lemma_type_gap(pos, c, pt, a, b - 1);
        assert(!holds(pos, c, pt, b - 1));
    }
}

/// The summed terms of one side's pieces of type index `pt`.
fn type_terms(
    pos: &Position,
    color: Color,
    pt: usize,
    occupied: Bitboard,
    own: Bitboard,
    own_pawns_bb: Bitboard,
    enemy_pawns: Bitboard,
    enemy_pawn_attacks: Bitboard,
) -> (r: (i32, i32))
    requires
        pos.wf(),
        pt < 6,
        occupied == pos.occ(),
        own == pos.colors[color.spec_index() as int],
        own_pawns_bb == own_pawns(pos, color),
        enemy_pawns == own_pawns(pos, color.spec_flip()),
        enemy_pawn_attacks == pawn_span(enemy_pawns, color.spec_flip()),
    ensures
        r.0 as int == type_mg(pos, color, pt as int, 64),
        r.1 as int == type_eg(pos, color, pt as int, 64),
        -192000 <= r.0 <= 192000,
        -192000 <= r.1 <= 192000,
{
    let kind = PieceType::from_index(pt);
    let mut b = pos.pieces(color, kind);
    let ghost orig = b;
    let ghost mut k: int = 0;
    let mut mg: i32 = 0;
    let mut eg: i32 = 0;
    while b != 0
        invariant
            pos.wf(),
            pt < 6,
            kind == crate::types::piece_type_of_index(pt as int),
            occupied == pos.occ(),
            own == pos.colors[color.spec_index() as int],
            own_pawns_bb == own_pawns(pos, color),
            enemy_pawns == own_pawns(pos, color.spec_flip()),
            enemy_pawn_attacks == pawn_span(enemy_pawns, color.spec_flip()),
            forall|s: int| #[trigger] member(orig, s) <==> holds(pos, color, pt as int, s),
            0 <= k <= 64,
            forall|t: int| #[trigger] member(b, t) <==> member(orig, t) && t >= k,
            mg as int == type_mg(pos, color, pt as int, k),
            eg as int == type_eg(pos, color, pt as int, k),
            -3000 * k <= mg <= 3000 * k,
            -3000 * k <= eg <= 3000 * k,
        decreases b,
    {
        let ghost before = b;
        let sq = pop_lsb(&mut b);
        proof {
            assert forall|s: int| k <= s < sq implies !#[trigger] holds(pos, color, pt as int, s) by {
                assert(!member(before, s));
                assert(!member(orig, s));
            }
            lemma_type_gap(pos, color, pt as int, k, sq as int);
            assert(member(orig, sq as int));
            assert(holds(pos, color, pt as int, sq as int));
        }
        let (a, e) = piece_terms(pos, color, pt, sq, occupied, own, own_pawns_bb, enemy_pawns, enemy_pawn_attacks);
        mg = mg + a;
        eg = eg + e;
        proof {
            k = sq as int + 1;
            assert forall|t: int| #[trigger] member(b, t) <==> member(orig, t) && t >= k by {
                if member(orig, t) && sq < t {
                    assert(member(before, t));
                }
            }
        }
    }
    proof {
        crate::bitboard::lemma_has_zero();
        assert forall|s: int| k <= s < 64 implies !#[trigger] holds(pos, color, pt as int, s) by {
            assert(!member(b, s));
            assert(!member(orig, s));
        }
        lemma_type_gap(pos, color, pt as int, k, 64);
    }
    (mg, eg)
}

/// One side's midgame and endgame totals (before its sign) and its phase weight.
fn side_terms(pos: &Position, color: Color) -> (r: (i32, i32, i32))
    requires
        pos.wf(),
    ensures
        r.0 as int == side_mg(pos, color),
        r.1 as int == side_eg(pos, color),
        r.2 as int == kinds_phase(pos, color, 6),
        -1200000 <= r.0 <= 1200000,
        -1200000 <= r.1 <= 1200000,
        0 <= r.2 <= 1536,
{
    let occupied = pos.occupied();
    let own = pos.color_bb(color);
    let own_pawns_bb = pos.pieces(color, PieceType::Pawn);
    let enemy_pawns = pos.pieces(color.flip(), PieceType::Pawn);
    // Squares defended by enemy pawns are not useful mobility.
    let enemy_pawn_attacks = pawn_attack_span(enemy_pawns, color.flip());
    let mut mg: i32 = 0;
    let mut eg: i32 = 0;
    let mut phase: i32 = 0;
    let mut pt: usize = 0;
    while pt < 6
        invariant
            pos.wf(),
            pt <= 6,
            occupied == pos.occ(),
            own == pos.colors[color.spec_index() as int],
            own_pawns_bb == own_pawns(pos, color),
            enemy_pawns == own_pawns(pos, color.spec_flip()),
            enemy_pawn_attacks == pawn_span(enemy_pawns, color.spec_flip()),
            mg as int == kinds_mg(pos, color, pt as int),
            eg as int == kinds_eg(pos, color, pt as int),
            phase as int == kinds_phase(pos, color, pt as int),
            -192000 * pt <= mg <= 192000 * pt,
            -192000 * pt <= eg <= 192000 * pt,
            0 <= phase <= 256 * pt,
        decreases 6 - pt,
    {
        let (a, e) = type_terms(pos, color, pt, occupied, own, own_pawns_bb, enemy_pawns, enemy_pawn_attacks);
        let n = popcount(pos.pieces(color, PieceType::from_index(pt)));
        proof {
            lemma_pop_bound(pos.pieces[pt as int] & pos.colors[color.spec_index() as int]);
        }
        mg = mg + a;
        eg = eg + e;
        phase = phase + n as i32 * weight_of(pt);
        pt = pt + 1;
    }
    if popcount(pos.pieces(color, PieceType::Bishop)) >= 2 {
        mg = mg + 30;
        eg = eg + 50;
    }
    (mg, eg, phase)
}

/// The static evaluation in centipawns from the side to move's point of view.
pub fn evaluate(pos: &Position) -> (v: i32)
    requires
        pos.wf(),
    ensures
        v as int == evaluation(pos),
        -2_500_000 <= v <= 2_500_000,
{
    let (wm, we, wp) = side_terms(pos, Color::White);
    let (bm, be, bp) = side_terms(pos, Color::Black);
    let mg = wm - bm;
    let eg = we - be;
    let raw = wp + bp;
    let phase = if raw < TOTAL_PHASE {
        raw
    } else {
        TOTAL_PHASE
    };
    proof {
        assert(0 <= phase <= 24);
        assert(-2400000 * 24 <= mg * phase <= 2400000 * 24) by (nonlinear_arith)
            requires
                -2400000 <= mg <= 2400000,
                0 <= phase <= 24,
        ;
        assert(-2400000 * 24 <= eg * (24 - phase) <= 2400000 * 24) by (nonlinear_arith)
            requires
                -2400000 <= eg <= 2400000,
                0 <= phase <= 24,
        ;
    }
    assert(-2400000 * 24 <= mg * phase + eg * (24 - phase) <= 2400000 * 24) by (nonlinear_arith)
        requires
            -2400000 <= mg <= 2400000,
            -2400000 <= eg <= 2400000,
            0 <= phase <= 24,
    ;
    let blended = mg * phase + eg * (TOTAL_PHASE - phase);
    let tapered = blended / TOTAL_PHASE;
    proof {
        assert(tapered as int == trunc_div(blended as int, 24));
    }
    let perspective = if pos.side_to_move == Color::White {
        tapered
    } else {
        -tapered
    };
    perspective + TEMPO
}

/// The signed number of full moves to the mate that `score` encodes.
pub open spec fn mate_moves(score: int) -> int {
    let plies = 30000 - abs(score);
    let moves = trunc_div(plies + 1, 2);
    if score > 0 { moves } else { -moves }
}

/// The UCI rendering of a score: `mate <moves>` beyond the mate bound,
/// `cp <n>` otherwise.
pub open spec fn score_text(score: int) -> Seq<char> {
    if abs(score) >= 29000 {
        seq!['m', 'a', 't', 'e', ' '] + int_text(mate_moves(score))
    } else {
        seq!['c', 'p', ' '] + int_text(score)
    }
}

/// Formats a score the way UCI expects: `cp <n>` or `mate <moves>`.
pub fn format_score(score: i32) -> (s: String)
    requires
        score > i32::MIN,
    ensures
        s@ == score_text(score as int),
{
    let mut s = String::new();
    let a = if score < 0 { -score } else { score };
    if a >= MATE_IN_MAX_PLY {
        let plies_to_mate = MATE - a;
        let moves = (plies_to_mate + 1) / 2;
        push_char(&mut s, 'm');
        push_char(&mut s, 'a');
        push_char(&mut s, 't');
        push_char(&mut s, 'e');
        push_char(&mut s, ' ');
        let m = if score > 0 { moves } else { -moves };
        push_int(&mut s, m as i64);
    } else {
        push_char(&mut s, 'c');
        push_char(&mut s, 'p');
        push_char(&mut s, ' ');
        push_int(&mut s, score as i64);
    }
    s
}

} // verus!
