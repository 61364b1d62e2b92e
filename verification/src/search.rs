//! Iterative-deepening alpha-beta search.
//!
//! Principal variation search over a transposition table, with quiescence at
//! the horizon, null-move pruning, late move reductions, killer/history move
//! ordering and aspiration windows.
use vstd::prelude::*;
use crate::types::{Color, Move, Piece, PieceType, Square, move_text};
use crate::text::{push_char, push_str, push_decimal, decimal};
use crate::position::Position;
use crate::movegen::{legal_move, MoveList, generate_captures, generate_moves, pseudo_legal, sane, tactical, lemma_pseudo_applicable, lemma_sane_after};
use crate::position::{PosState, make_state, legal_after, unmake_state, can_unmake_state, attacked_on, king_on};
use crate::eval::{INFINITY, MATE, MATE_IN_MAX_PLY};
use crate::eval::{self, mg_material};
use crate::tt::{Bound, TranspositionTable};
use std::sync::Arc;
use std::sync::atomic::{AtomicBool, Ordering};
use std::time::{Duration, Instant};

verus! {

pub const MAX_PLY: usize = 128;
/// Assumed GUI/transport latency, reserved out of every time budget.
pub const MOVE_OVERHEAD: u64 = 30;

pub struct SearchLimits {
    pub depth: u32,
    pub movetime: Option<u64>,
    pub time: [Option<u64>; 2],
    pub increment: [u64; 2],
    pub moves_to_go: Option<u32>,
    pub nodes: Option<u64>,
    pub infinite: bool,
}

impl Clone for SearchLimits {
    fn clone(&self) -> (r: Self)
        ensures
            r == *self,
    {
        SearchLimits {
            depth: self.depth,
            movetime: self.movetime,
            time: self.time,
            increment: self.increment,
            moves_to_go: self.moves_to_go,
            nodes: self.nodes,
            infinite: self.infinite,
        }
    }
}

/// No limit but the maximum depth.
pub open spec fn default_limits() -> SearchLimits {
    SearchLimits {
        depth: 127,
        movetime: None,
        time: [None, None],
        increment: [0, 0],
        moves_to_go: None,
        nodes: None,
        infinite: false,
    }
}

impl Default for SearchLimits {
    fn default() -> (r: SearchLimits)
        ensures
            r == default_limits(),
    {
        SearchLimits {
            depth: 127,
            movetime: None,
            time: [None, None],
            increment: [0, 0],
            moves_to_go: None,
            nodes: None,
            infinite: false,
        }
    }
}

pub open spec fn sat_sub(a: int, b: int) -> int {
    if a >= b {
        a - b
    } else {
        0
    }
}

pub open spec fn max1(a: int) -> int {
    if a >= 1 {
        a
    } else {
        1
    }
}

pub open spec fn clamp(x: int, lo: int, hi: int) -> int {
    if x < lo {
        lo
    } else if x > hi {
        hi
    } else {
        x
    }
}

impl SearchLimits {
    pub fn fixed_depth(depth: u32) -> (r: SearchLimits)
        ensures
            r == (SearchLimits { depth, ..default_limits() }),
    {
        SearchLimits { depth, ..Default::default() }
    }

    pub fn fixed_time(millis: u64) -> (r: SearchLimits)
        ensures
            r == (SearchLimits { movetime: Some(millis), ..default_limits() }),
    {
        SearchLimits { movetime: Some(millis), ..Default::default() }
    }

    /// The clock left for `side`, less the transport overhead, at least 1 ms.
    pub open spec fn remaining(&self, side: Color) -> int {
        max1(sat_sub(self.time[side.spec_index() as int]->0 as int, MOVE_OVERHEAD as int))
    }

    /// The time to aim for before starting another iteration, unclamped.
    pub open spec fn soft_target(&self, side: Color) -> int {
        let inc = self.increment[side.spec_index() as int] as int;
        match self.moves_to_go {
            Some(moves) => self.remaining(side) / clamp(moves as int, 1, 40) + inc / 2,
            None => self.remaining(side) / 25 + inc / 2,
        }
    }

    /// The soft and hard time limits in milliseconds: none for an infinite
    /// search or without a clock; the move time (less overhead) for a fixed
    /// move time; otherwise a share of the clock for the soft limit and a
    /// third of it as the hard ceiling.
    pub open spec fn budget_spec(&self, side: Color) -> (Option<u64>, Option<u64>) {
        if self.infinite {
            (None, None)
        } else if self.movetime is Some {
            let ms = max1(sat_sub(self.movetime->0 as int, MOVE_OVERHEAD as int)) as u64;
            (Some(ms), Some(ms))
        } else if self.time[side.spec_index() as int] is None {
            (None, None)
        } else {
            let hard = max1(self.remaining(side) / 3);
            (Some(clamp(self.soft_target(side), 1, hard) as u64), Some(hard as u64))
        }
    }

    /// Whether the soft target of a clock-based budget fits in 64 bits, as
    /// `budget` and a search under these limits need it to.
    pub fn budget_fits(&self, side: Color) -> (r: bool)
        ensures
            r == (!self.infinite && self.movetime is None && self.time[side.spec_index() as int] is Some
                ==> self.soft_target(side) <= u64::MAX),
    {
        if self.infinite || self.movetime.is_some() {
            return true;
        }
        let t = match self.time[side.index()] {
            Some(t) => t,
            None => return true,
        };
        let remaining = if t > MOVE_OVERHEAD + 1 {
            t - MOVE_OVERHEAD
        } else {
            1
        };
        let increment = self.increment[side.index()];
        let share = match self.moves_to_go {
            Some(moves) => {
                let m: u64 = if moves < 1 {
                    1
                } else if moves > 40 {
                    40
                } else {
                    moves as u64
                };
                remaining / m
            },
            None => remaining / 25,
        };
        share.checked_add(increment / 2).is_some()
    }

    /// Splits the clock into a target time to start the next iteration (soft)
    /// and a ceiling that aborts the current one (hard), in milliseconds.
    pub fn budget(&self, side: Color) -> (r: (Option<u64>, Option<u64>))
        requires
            !self.infinite && self.movetime is None && self.time[side.spec_index() as int] is Some
                ==> self.soft_target(side) <= u64::MAX,
        ensures
            r == self.budget_spec(side),
    {
        if self.infinite {
            return (None, None);
        }
        if let Some(movetime) = self.movetime {
            let ms = if movetime > MOVE_OVERHEAD {
                movetime - MOVE_OVERHEAD
            } else {
                1
            };
            return (Some(ms), Some(ms));
        }
        let t = match self.time[side.index()] {
            Some(t) => t,
            None => return (None, None),
        };
        let remaining = if t > MOVE_OVERHEAD + 1 {
            t - MOVE_OVERHEAD
        } else {
            1
        };
        let increment = self.increment[side.index()];
        let soft = match self.moves_to_go {
            Some(moves) => {
                let m: u64 = if moves < 1 {
                    1
                } else if moves > 40 {
                    40
                } else {
                    moves as u64
                };
                remaining / m + increment / 2
            },
            None => remaining / 25 + increment / 2,
        };
        // Never commit more than a third of what is left to a single move.
        let hard = if remaining / 3 >= 1 {
            remaining / 3
        } else {
            1
        };
        let soft = if soft < 1 {
            1
        } else if soft > hard {
            hard
        } else {
            soft
        };
        (Some(soft), Some(hard))
    }
}

/// For each depth, the move numbers from which the late-move reduction
/// grows by one ply (64 where it never does): the table
/// `floor(0.75 + ln(depth) * ln(moves) / 2.25)` in step form.
pub open spec fn lmr_steps(d: int) -> Seq<int> {
    if d == 0 {
        seq![64int, 64int, 64int, 64int, 64int, 64int, 64int, 64int]
    } else if d == 1 {
        seq![64int, 64int, 64int, 64int, 64int, 64int, 64int, 64int]
    } else if d == 2 {
        seq![3int, 58int, 64int, 64int, 64int, 64int, 64int, 64int]
    } else if d == 3 {
        seq![2int, 13int, 64int, 64int, 64int, 64int, 64int, 64int]
    } else if d == 4 {
        seq![2int, 8int, 39int, 64int, 64int, 64int, 64int, 64int]
    } else if d == 5 {
        seq![2int, 6int, 24int, 64int, 64int, 64int, 64int, 64int]
    } else if d == 6 {
        seq![2int, 5int, 17int, 60int, 64int, 64int, 64int, 64int]
    } else if d == 7 {
        seq![2int, 5int, 14int, 43int, 64int, 64int, 64int, 64int]
    } else if d == 8 {
        seq![2int, 4int, 12int, 34int, 64int, 64int, 64int, 64int]
    } else if d == 9 {
        seq![2int, 4int, 11int, 28int, 64int, 64int, 64int, 64int]
    } else if d == 10 {
        seq![2int, 4int, 10int, 24int, 64int, 64int, 64int, 64int]
    } else if d == 11 {
        seq![2int, 4int, 9int, 22int, 54int, 64int, 64int, 64int]
    } else if d == 12 {
        seq![2int, 4int, 8int, 19int, 47int, 64int, 64int, 64int]
    } else if d == 13 {
        seq![2int, 3int, 8int, 18int, 42int, 64int, 64int, 64int]
    } else if d == 14 {
        seq![2int, 3int, 7int, 16int, 38int, 64int, 64int, 64int]
    } else if d == 15 {
        seq![2int, 3int, 7int, 15int, 35int, 64int, 64int, 64int]
    } else if d == 16 {
        seq![2int, 3int, 7int, 14int, 32int, 64int, 64int, 64int]
    } else if d == 17 {
        seq![2int, 3int, 6int, 14int, 30int, 64int, 64int, 64int]
    } else if d == 18 {
        seq![2int, 3int, 6int, 13int, 28int, 60int, 64int, 64int]
    } else if d == 19 {
        seq![2int, 3int, 6int, 12int, 26int, 56int, 64int, 64int]
    } else if d == 20 {
        seq![2int, 3int, 6int, 12int, 25int, 52int, 64int, 64int]
    } else if d == 21 {
        seq![2int, 3int, 6int, 12int, 24int, 49int, 64int, 64int]
    } else if d == 22 {
        seq![2int, 3int, 6int, 11int, 23int, 46int, 64int, 64int]
    } else if d == 23 {
        seq![2int, 3int, 6int, 11int, 22int, 44int, 64int, 64int]
    } else if d == 24 {
        seq![2int, 3int, 5int, 10int, 21int, 42int, 64int, 64int]
    } else if d == 25 {
        seq![2int, 3int, 5int, 10int, 20int, 40int, 64int, 64int]
    } else if d == 26 {
        seq![2int, 3int, 5int, 10int, 19int, 38int, 64int, 64int]
    } else if d == 27 {
        seq![2int, 3int, 5int, 10int, 19int, 37int, 64int, 64int]
    } else if d == 28 {
        seq![2int, 3int, 5int, 9int, 18int, 35int, 64int, 64int]
    } else if d == 29 {
        seq![2int, 3int, 5int, 9int, 18int, 34int, 64int, 64int]
    } else if d == 30 {
        seq![2int, 3int, 5int, 9int, 17int, 33int, 63int, 64int]
    } else if d == 31 {
        seq![2int, 3int, 5int, 9int, 17int, 32int, 61int, 64int]
    } else if d == 32 {
        seq![2int, 3int, 5int, 9int, 16int, 31int, 58int, 64int]
    } else if d == 33 {
        seq![2int, 3int, 5int, 9int, 16int, 30int, 56int, 64int]
    } else if d == 34 {
        seq![2int, 3int, 5int, 8int, 16int, 29int, 54int, 64int]
    } else if d == 35 {
        seq![2int, 3int, 5int, 8int, 15int, 28int, 53int, 64int]
    } else if d == 36 {
        seq![2int, 3int, 5int, 8int, 15int, 28int, 51int, 64int]
    } else if d == 37 {
        seq![2int, 3int, 5int, 8int, 15int, 27int, 50int, 64int]
    } else if d == 38 {
        seq![2int, 3int, 5int, 8int, 14int, 26int, 48int, 64int]
    } else if d == 39 {
        seq![2int, 3int, 4int, 8int, 14int, 26int, 47int, 64int]
    } else if d == 40 {
        seq![2int, 3int, 4int, 8int, 14int, 25int, 46int, 64int]
    } else if d == 41 {
        seq![2int, 3int, 4int, 8int, 14int, 25int, 45int, 64int]
    } else if d == 42 {
        seq![2int, 3int, 4int, 8int, 13int, 24int, 44int, 64int]
    } else if d == 43 {
        seq![2int, 3int, 4int, 7int, 13int, 24int, 43int, 64int]
    } else if d == 44 {
        seq![2int, 3int, 4int, 7int, 13int, 23int, 42int, 64int]
    } else if d == 45 {
        seq![2int, 3int, 4int, 7int, 13int, 23int, 41int, 64int]
    } else if d == 46 {
        seq![2int, 3int, 4int, 7int, 13int, 22int, 40int, 64int]
    } else if d == 47 {
        seq![2int, 3int, 4int, 7int, 12int, 22int, 39int, 64int]
    } else if d == 48 {
        seq![2int, 3int, 4int, 7int, 12int, 22int, 38int, 64int]
    } else if d == 49 {
        seq![2int, 3int, 4int, 7int, 12int, 21int, 38int, 64int]
    } else if d == 50 {
        seq![2int, 3int, 4int, 7int, 12int, 21int, 37int, 64int]
    } else if d == 51 {
        seq![2int, 3int, 4int, 7int, 12int, 21int, 36int, 64int]
    } else if d == 52 {
        seq![2int, 3int, 4int, 7int, 12int, 20int, 36int, 63int]
    } else if d == 53 {
        seq![2int, 3int, 4int, 7int, 12int, 20int, 35int, 61int]
    } else if d == 54 {
        seq![2int, 3int, 4int, 7int, 11int, 20int, 34int, 60int]
    } else if d == 55 {
        seq![2int, 3int, 4int, 7int, 11int, 20int, 34int, 59int]
    } else if d == 56 {
        seq![2int, 3int, 4int, 7int, 11int, 19int, 33int, 58int]
    } else if d == 57 {
        seq![2int, 3int, 4int, 7int, 11int, 19int, 33int, 57int]
    } else if d == 58 {
        seq![2int, 2int, 4int, 7int, 11int, 19int, 32int, 56int]
    } else if d == 59 {
        seq![2int, 2int, 4int, 7int, 11int, 19int, 32int, 55int]
    } else if d == 60 {
        seq![2int, 2int, 4int, 6int, 11int, 18int, 32int, 54int]
    } else if d == 61 {
        seq![2int, 2int, 4int, 6int, 11int, 18int, 31int, 53int]
    } else if d == 62 {
        seq![2int, 2int, 4int, 6int, 11int, 18int, 31int, 53int]
    } else {
        seq![2int, 2int, 4int, 6int, 11int, 18int, 30int, 52int]
    }
}

fn lmr_steps_at(d: usize) -> (r: [u8; 8])
    requires
        d < 64,
    ensures
        forall|k: int| 0 <= k < 8 ==> r@[k] == lmr_steps(d as int)[k],
{
    if d == 0 {
        [64, 64, 64, 64, 64, 64, 64, 64]
    } else if d == 1 {
        [64, 64, 64, 64, 64, 64, 64, 64]
    } else if d == 2 {
        [3, 58, 64, 64, 64, 64, 64, 64]
    } else if d == 3 {
        [2, 13, 64, 64, 64, 64, 64, 64]
    } else if d == 4 {
        [2, 8, 39, 64, 64, 64, 64, 64]
    } else if d == 5 {
        [2, 6, 24, 64, 64, 64, 64, 64]
    } else if d == 6 {
        [2, 5, 17, 60, 64, 64, 64, 64]
    } else if d == 7 {
        [2, 5, 14, 43, 64, 64, 64, 64]
    } else if d == 8 {
        [2, 4, 12, 34, 64, 64, 64, 64]
    } else if d == 9 {
        [2, 4, 11, 28, 64, 64, 64, 64]
    } else if d == 10 {
        [2, 4, 10, 24, 64, 64, 64, 64]
    } else if d == 11 {
        [2, 4, 9, 22, 54, 64, 64, 64]
    } else if d == 12 {
        [2, 4, 8, 19, 47, 64, 64, 64]
    } else if d == 13 {
        [2, 3, 8, 18, 42, 64, 64, 64]
    } else if d == 14 {
        [2, 3, 7, 16, 38, 64, 64, 64]
    } else if d == 15 {
        [2, 3, 7, 15, 35, 64, 64, 64]
    } else if d == 16 {
        [2, 3, 7, 14, 32, 64, 64, 64]
    } else if d == 17 {
        [2, 3, 6, 14, 30, 64, 64, 64]
    } else if d == 18 {
        [2, 3, 6, 13, 28, 60, 64, 64]
    } else if d == 19 {
        [2, 3, 6, 12, 26, 56, 64, 64]
    } else if d == 20 {
        [2, 3, 6, 12, 25, 52, 64, 64]
    } else if d == 21 {
        [2, 3, 6, 12, 24, 49, 64, 64]
    } else if d == 22 {
        [2, 3, 6, 11, 23, 46, 64, 64]
    } else if d == 23 {
        [2, 3, 6, 11, 22, 44, 64, 64]
    } else if d == 24 {
        [2, 3, 5, 10, 21, 42, 64, 64]
    } else if d == 25 {
        [2, 3, 5, 10, 20, 40, 64, 64]
    } else if d == 26 {
        [2, 3, 5, 10, 19, 38, 64, 64]
    } else if d == 27 {
        [2, 3, 5, 10, 19, 37, 64, 64]
    } else if d == 28 {
        [2, 3, 5, 9, 18, 35, 64, 64]
    } else if d == 29 {
        [2, 3, 5, 9, 18, 34, 64, 64]
    } else if d == 30 {
        [2, 3, 5, 9, 17, 33, 63, 64]
    } else if d == 31 {
        [2, 3, 5, 9, 17, 32, 61, 64]
    } else if d == 32 {
        [2, 3, 5, 9, 16, 31, 58, 64]
    } else if d == 33 {
        [2, 3, 5, 9, 16, 30, 56, 64]
    } else if d == 34 {
        [2, 3, 5, 8, 16, 29, 54, 64]
    } else if d == 35 {
        [2, 3, 5, 8, 15, 28, 53, 64]
    } else if d == 36 {
        [2, 3, 5, 8, 15, 28, 51, 64]
    } else if d == 37 {
        [2, 3, 5, 8, 15, 27, 50, 64]
    } else if d == 38 {
        [2, 3, 5, 8, 14, 26, 48, 64]
    } else if d == 39 {
        [2, 3, 4, 8, 14, 26, 47, 64]
    } else if d == 40 {
        [2, 3, 4, 8, 14, 25, 46, 64]
    } else if d == 41 {
        [2, 3, 4, 8, 14, 25, 45, 64]
    } else if d == 42 {
        [2, 3, 4, 8, 13, 24, 44, 64]
    } else if d == 43 {
        [2, 3, 4, 7, 13, 24, 43, 64]
    } else if d == 44 {
        [2, 3, 4, 7, 13, 23, 42, 64]
    } else if d == 45 {
        [2, 3, 4, 7, 13, 23, 41, 64]
    } else if d == 46 {
        [2, 3, 4, 7, 13, 22, 40, 64]
    } else if d == 47 {
        [2, 3, 4, 7, 12, 22, 39, 64]
    } else if d == 48 {
        [2, 3, 4, 7, 12, 22, 38, 64]
    } else if d == 49 {
        [2, 3, 4, 7, 12, 21, 38, 64]
    } else if d == 50 {
        [2, 3, 4, 7, 12, 21, 37, 64]
    } else if d == 51 {
        [2, 3, 4, 7, 12, 21, 36, 64]
    } else if d == 52 {
        [2, 3, 4, 7, 12, 20, 36, 63]
    } else if d == 53 {
        [2, 3, 4, 7, 12, 20, 35, 61]
    } else if d == 54 {
        [2, 3, 4, 7, 11, 20, 34, 60]
    } else if d == 55 {
        [2, 3, 4, 7, 11, 20, 34, 59]
    } else if d == 56 {
        [2, 3, 4, 7, 11, 19, 33, 58]
    } else if d == 57 {
        [2, 3, 4, 7, 11, 19, 33, 57]
    } else if d == 58 {
        [2, 2, 4, 7, 11, 19, 32, 56]
    } else if d == 59 {
        [2, 2, 4, 7, 11, 19, 32, 55]
    } else if d == 60 {
        [2, 2, 4, 6, 11, 18, 32, 54]
    } else if d == 61 {
        [2, 2, 4, 6, 11, 18, 31, 53]
    } else if d == 62 {
        [2, 2, 4, 6, 11, 18, 31, 53]
    } else {
        [2, 2, 4, 6, 11, 18, 30, 52]
    }
}

/// The number of steps of `steps` reached by move number `m`.
pub open spec fn steps_reached(steps: Seq<int>, m: int, k: int) -> int
    decreases k,
{
    if k <= 0 {
        0
    } else {
        steps_reached(steps, m, k - 1) + if steps[k - 1] <= m {
            1int
        } else {
            0
        }
    }
}

/// The late-move reduction for a move numbered `m` at depth `d`.
pub open spec fn lmr(d: int, m: int) -> int {
    steps_reached(lmr_steps(d), m, 8)
}

fn reduction(depth: usize, moves: usize) -> (r: i32)
    requires
        depth < 64,
        moves < 64,
    ensures
        r == lmr(depth as int, moves as int),
        0 <= r <= 8,
{
    let steps = lmr_steps_at(depth);
    let mut r: i32 = 0;
    let mut k: usize = 0;
    while k < 8
        invariant
            k <= 8,
            0 <= r <= k,
            forall|j: int| 0 <= j < 8 ==> steps@[j] == lmr_steps(depth as int)[j],
            r == steps_reached(lmr_steps(depth as int), moves as int, k as int),
        decreases 8 - k,
    {
        if steps[k] as usize <= moves {
            r = r + 1;
        }
        k = k + 1;
    }
    r
}

/// Triangular PV table: row `ply` holds the line found at that ply.
pub struct PvTable {
    pub moves: Vec<Move>,
    pub len: Vec<usize>,
}

impl PvTable {
    pub open spec fn wf(&self) -> bool {
        &&& self.moves@.len() == MAX_PLY * MAX_PLY
        &&& self.len@.len() == MAX_PLY
        &&& forall|p: int| 0 <= p < MAX_PLY ==> #[trigger] self.len@[p] <= MAX_PLY
    }

    /// The line stored at `ply`.
    pub open spec fn line(&self, ply: int) -> Seq<Move> {
        self.moves@.subrange(ply * MAX_PLY, ply * MAX_PLY + self.len@[ply] as int)
    }

    pub fn new() -> (t: PvTable)
        ensures
            t.wf(),
            forall|p: int| 0 <= p < MAX_PLY ==> #[trigger] t.line(p).len() == 0,
    {
        let mut moves: Vec<Move> = Vec::new();
        let mut i: usize = 0;
        while i < MAX_PLY * MAX_PLY
            invariant
                i <= MAX_PLY * MAX_PLY,
                moves@.len() == i,
            decreases MAX_PLY * MAX_PLY - i,
        {
            moves.push(Move::none());
            i = i + 1;
        }
        let mut len: Vec<usize> = Vec::new();
        let mut j: usize = 0;
        while j < MAX_PLY
            invariant
                j <= MAX_PLY,
                len@.len() == j,
                forall|p: int| 0 <= p < j ==> #[trigger] len@[p] == 0,
            decreases MAX_PLY - j,
        {
            len.push(0);
            j = j + 1;
        }
        PvTable { moves, len }
    }

    pub fn clear(&mut self, ply: usize)
        requires
            old(self).wf(),
            ply < MAX_PLY,
        ensures
            final(self).wf(),
            final(self).line(ply as int).len() == 0,
            forall|p: int| 0 <= p < MAX_PLY && p != ply ==> #[trigger] final(self).line(p) == old(self).line(p),
    {
        self.len.set(ply, 0);
        proof {
            assert forall|p: int| 0 <= p < MAX_PLY && p != ply implies #[trigger] self.line(p) == old(self).line(p) by {
                assert(self.len@[p] == old(self).len@[p]);
            }
        }
    }

    /// Prepends `mv` to the child's line and stores it as this ply's line.
    pub fn update(&mut self, ply: usize, mv: Move)
        requires
            old(self).wf(),
            ply + 2 <= MAX_PLY,
        ensures
            final(self).wf(),
            final(self).line(ply as int) == seq![mv] + old(self).line(ply + 1).take(
                if old(self).line(ply + 1).len() < MAX_PLY - ply - 2 { old(self).line(ply + 1).len() as int } else { MAX_PLY - ply - 2 },
            ),
            forall|p: int| 0 <= p < MAX_PLY && p != ply ==> #[trigger] final(self).line(p) == old(self).line(p),
    {
        let base = ply * MAX_PLY;
        let child = (ply + 1) * MAX_PLY;
        self.moves.set(base, mv);
        let child_len = self.len[ply + 1];
        let copy_len = if child_len < MAX_PLY - ply - 2 {
            child_len
        } else {
            MAX_PLY - ply - 2
        };
        let mut i: usize = 0;
        while i < copy_len
            invariant
                self.moves@.len() == MAX_PLY * MAX_PLY,
                self.len@ == old(self).len@,
                ply + 2 <= MAX_PLY,
                base == ply * MAX_PLY,
                child == (ply + 1) * MAX_PLY,
                copy_len + ply + 2 <= MAX_PLY,
                copy_len <= child_len,
                child_len == old(self).len@[ply + 1],
                i <= copy_len,
                self.moves@[base as int] == mv,
                forall|k: int| 0 <= k < i ==> #[trigger] self.moves@[base + 1 + k] == old(self).moves@[child + k],
                forall|q: int| 0 <= q < MAX_PLY * MAX_PLY && !(base <= q < base + MAX_PLY) ==> #[trigger] self.moves@[q] == old(self).moves@[q],
            decreases copy_len - i,
        {
            let m = self.moves[child + i];
            self.moves.set(base + i + 1, m);
            i = i + 1;
        }
        self.len.set(ply, copy_len + 1);
        proof {
            let old_child = old(self).line(ply + 1);
            assert(child + child_len <= MAX_PLY * MAX_PLY) by (nonlinear_arith)
                requires
                    child == (ply + 1) * 128,
                    child_len <= 128,
                    ply + 2 <= 128,
            ;
            assert(old_child.len() == child_len);
            let ln = self.line(ply as int);
            let want = seq![mv] + old_child.take(copy_len as int);
            assert(ln.len() == copy_len + 1);
            assert(want.len() == copy_len + 1);
            assert forall|k: int| 0 <= k < copy_len + 1 implies #[trigger] ln[k] == want[k] by {
                if k == 0 {
                    assert(ln[0] == self.moves@[base as int]);
                } else {
                    assert(ln[k] == self.moves@[base + 1 + (k - 1)]);
                    assert(old_child[k - 1] == old(self).moves@[child + (k - 1)]);
                }
            }
            assert(ln =~= want);
            assert forall|p: int| 0 <= p < MAX_PLY && p != ply implies #[trigger] self.line(p) == old(self).line(p) by {
                assert(self.len@[p] == old(self).len@[p]);
                let lo = p * MAX_PLY;
                assert(self.moves@.subrange(lo, lo + self.len@[p] as int) =~= old(self).moves@.subrange(lo, lo + self.len@[p] as int)) by {
                    assert forall|k: int| 0 <= k < self.len@[p] implies #[trigger] self.moves@[lo + k] == old(self).moves@[lo + k] by {
                        if p < ply {
                            assert(lo + k < base) by (nonlinear_arith)
                                requires
                                    lo == p * 128,
                                    base == ply * 128,
                                    p < ply,
                                    k < 128,
                            ;
                        } else {
                            assert(lo >= base + 128) by (nonlinear_arith)
                                requires
                                    lo == p * 128,
                                    base == ply * 128,
                                    p > ply,
                            ;
                        }
                    }
                }
            }
        }
    }

    /// The line found at `ply`.
    pub fn line_vec(&self, ply: usize) -> (v: Vec<Move>)
        requires
            self.wf(),
            ply < MAX_PLY,
        ensures
            v@ == self.line(ply as int),
    {
        let n = self.len[ply];
        let n = if n < MAX_PLY { n } else { MAX_PLY };
        let mut v: Vec<Move> = Vec::new();
        let mut i: usize = 0;
        while i < n
            invariant
                self.wf(),
                ply < MAX_PLY,
                n == self.len@[ply as int],
                i <= n,
                v@ == self.line(ply as int).take(i as int),
            decreases n - i,
        {
            v.push(self.moves[ply * MAX_PLY + i]);
            i = i + 1;
        }
        v
    }
}

pub const CAPTURE_BASE: i32 = 16777216;
pub const KILLER_BASE: i32 = 8388608;
pub const HISTORY_MAX: i32 = 4194303;

/// Index of the history counter for `side` moving `from` to `to`.
pub open spec fn history_slot(side: Color, from: int, to: int) -> int {
    side.spec_index() * 4096 + from * 64 + to
}

pub open spec fn value_on(board: Seq<Option<Piece>>, sq: int) -> int {
    match board[sq] {
        Some(p) => mg_material(p.piece_type.spec_index() as int),
        None => 0,
    }
}

/// The ordering score of `mv`: the table move first, then captures and
/// promotions by most valuable victim / least valuable attacker, then the two
/// killers, then the history counter.
pub open spec fn move_score(
    board: Seq<Option<Piece>>,
    side: Color,
    killer0: Move,
    killer1: Move,
    history: Seq<i32>,
    tt_move: Move,
    mv: Move,
) -> int {
    if mv == tt_move {
        i32::MAX as int
    } else if mv.spec_is_capture() || mv.spec_is_promotion() {
        let victim = if mv.spec_is_en_passant() {
            82int
        } else {
            value_on(board, mv.spec_to() as int)
        };
        let promo = match mv.spec_promotion_piece() {
            Some(pt) => mg_material(pt.spec_index() as int),
            None => 0,
        };
        CAPTURE_BASE + victim * 16 - value_on(board, mv.spec_from() as int) + promo
    } else if mv == killer0 {
        KILLER_BASE as int
    } else if mv == killer1 {
        KILLER_BASE - 1
    } else {
        history[history_slot(side, mv.spec_from() as int, mv.spec_to() as int)] as int
    }
}

fn value_at(pos: &Position, sq: Square) -> (v: i32)
    requires
        sq < 64,
    ensures
        v == value_on(pos.board@, sq as int),
        0 <= v <= 1025,
{
    match pos.piece_at(sq) {
        Some(p) => eval::piece_value(p.piece_type),
        None => 0,
    }
}

/// Yields moves best-first by selection sort, so nodes that cut off early
/// never pay to order the whole list.
pub struct MoveOrder {
    pub moves: Vec<Move>,
    pub scores: Vec<i32>,
    pub index: usize,
}

impl MoveOrder {
    pub open spec fn wf(&self) -> bool {
        &&& self.moves@.len() == self.scores@.len()
        &&& self.index <= self.moves@.len()
    }

    pub fn new(moves: MoveList, scores: Vec<i32>) -> (o: MoveOrder)
        requires
            moves@.len() == scores@.len(),
        ensures
            o.wf(),
            o.moves@ == moves@,
            o.scores@ == scores@,
            o.index == 0,
    {
        MoveOrder { moves: moves.moves, scores, index: 0 }
    }

    /// The remaining move with the highest score (the first of equals), moved
    /// to the front of the remaining ones; `None` once all were yielded.
    pub fn next(&mut self) -> (r: Option<Move>)
        requires
            old(self).wf(),
        ensures
            final(self).wf(),
            old(self).index == old(self).moves@.len() ==> r is None && *final(self) == *old(self),
            old(self).index < old(self).moves@.len() ==> exists|b: int| {
                &&& old(self).index <= b < old(self).moves@.len()
                &&& forall|j: int| old(self).index <= j < old(self).moves@.len() ==> #[trigger] old(self).scores@[j] <= old(self).scores@[b]
                &&& forall|j: int| old(self).index <= j < b ==> #[trigger] old(self).scores@[j] < old(self).scores@[b]
                &&& final(self).moves@ == old(self).moves@.update(old(self).index as int, old(self).moves@[b]).update(b, old(self).moves@[old(self).index as int])
                &&& final(self).scores@ == old(self).scores@.update(old(self).index as int, old(self).scores@[b]).update(b, old(self).scores@[old(self).index as int])
                &&& r == Some(old(self).moves@[b])
                &&& final(self).index == old(self).index + 1
            },
    {
        let n = self.moves.len();
        if self.index >= n {
            return None;
        }
        let idx = self.index;
        let mut best = idx;
        let mut i = idx + 1;
        while i < n
            invariant
                self.wf(),
                *self == *old(self),
                n == self.moves@.len(),
                idx == self.index,
                idx <= best < i <= n,
                forall|j: int| idx <= j < i ==> #[trigger] self.scores@[j] <= self.scores@[best as int],
                forall|j: int| idx <= j < best ==> #[trigger] self.scores@[j] < self.scores@[best as int],
            decreases n - i,
        {
            if self.scores[i] > self.scores[best] {
                best = i;
            }
            i = i + 1;
        }
        let a = self.moves[idx];
        let b = self.moves[best];
        self.moves.set(idx, b);
        self.moves.set(best, a);
        let sa = self.scores[idx];
        let sb = self.scores[best];
        self.scores.set(idx, sb);
        self.scores.set(best, sa);
        self.index = idx + 1;
        proof {
            assert(self.moves@ == old(self).moves@.update(idx as int, old(self).moves@[best as int]).update(best as int, old(self).moves@[idx as int]));
        }
        Some(b)
    }
}

#[verifier::external_type_specification]
#[verifier::external_body]
pub struct ExInstant(Instant);

/// `Instant::now`: a reading of the monotonic clock. Nothing is claimed of it.
#[verifier::external_body]
pub(crate) fn clock_now() -> Instant {
    Instant::now()
}

/// `Instant::elapsed`: the time since `start`. Nothing is claimed of the
/// reading: it depends on the clock.
#[verifier::external_body]
fn time_since(start: &Instant) -> Duration {
    start.elapsed()
}

/// `Duration::as_micros`: the whole microseconds in `d`. Nothing is claimed
/// of the count, since a `Duration` is opaque here.
#[verifier::external_body]
fn whole_micros(d: &Duration) -> u128 {
    d.as_micros()
}

/// The whole microseconds since `start`, truncated to 64 bits.
pub(crate) fn micros_since(start: &Instant) -> u64 {
    let us = whole_micros(&time_since(start));
    #[verifier::truncate]
    (us as u64)
}

pub open spec fn history_after(
    h: Seq<i32>,
    side: Color,
    tried: Seq<Move>,
    mv: Move,
    bonus: int,
    k: int,
) -> Seq<i32>
    decreases k,
{
    if k <= 0 {
        h
    } else {
        let prev = history_after(h, side, tried, mv, bonus, k - 1);
        let o = tried[k - 1];
        let slot = history_slot(side, o.spec_from() as int, o.spec_to() as int);
        let v = prev[slot] + if o == mv {
            bonus
        } else {
            -bonus
        };
        prev.update(slot, clamp(v, -HISTORY_MAX as int, HISTORY_MAX as int) as i32)
    }
}

pub open spec fn history_bounded(h: Seq<i32>) -> bool {
    forall|i: int| 0 <= i < h.len() ==> -HISTORY_MAX <= #[trigger] h[i] <= HISTORY_MAX
}

pub struct Search {
    pub tt: TranspositionTable,
    pub stop: Arc<AtomicBool>,
    /// Two killer moves per ply, at `2 * ply` and `2 * ply + 1`.
    pub killers: Vec<Move>,
    /// Quiet-move history counters, indexed by `history_slot`.
    pub history: Vec<i32>,
    pub pv: PvTable,
    pub nodes: u64,
    pub seldepth: usize,
    pub start: Instant,
    pub soft_limit: Option<u64>,
    pub hard_limit: Option<u64>,
    pub node_limit: Option<u64>,
    pub stopped: bool,
    /// Suppresses `info` lines; used by tests and fixed-depth analysis.
    pub silent: bool,
    /// The `info` lines of the current search, oldest first.
    pub info: Vec<String>,
}

impl Search {
    pub open spec fn wf(&self) -> bool {
        &&& self.tt.wf()
        &&& self.killers@.len() == 2 * MAX_PLY
        &&& self.history@.len() == 8192
        &&& history_bounded(self.history@)
        &&& self.pv.wf()
        &&& tt_scores_ok(self.tt.entries@)
    }

    /// A searcher with a `hash_mb` table, nothing learnt, no limits, and
    /// `stop` as its stop flag.
    pub fn new(hash_mb: usize, stop: Arc<AtomicBool>) -> (s: Search)
        requires
            hash_mb <= usize::MAX / 1048576,
        ensures
            s.wf(),
            !s.silent,
            s.tt.entries@.len() == crate::tt::table_len(hash_mb as nat, vstd::layout::size_of::<crate::tt::Entry>()),
            s.tt.generation == 0,
            forall|i: int| 0 <= i < s.tt.entries@.len() ==> #[trigger] s.tt.entries@[i] == crate::tt::empty_entry(),
            s.stop == stop,
            s.nodes == 0,
            !s.stopped,
            s.seldepth == 0,
            forall|i: int| 0 <= i < s.killers@.len() ==> #[trigger] s.killers@[i] == Move(0),
            forall|i: int| 0 <= i < s.history@.len() ==> #[trigger] s.history@[i] == 0,
            forall|p: int| 0 <= p < MAX_PLY ==> #[trigger] s.pv.line(p).len() == 0,
            s.soft_limit is None,
            s.hard_limit is None,
            s.node_limit is None,
            s.info@.len() == 0,
    {
        let mut killers: Vec<Move> = Vec::new();
        let mut i: usize = 0;
        while i < 2 * MAX_PLY
            invariant
                i <= 2 * MAX_PLY,
                killers@.len() == i,
                forall|j: int| 0 <= j < i ==> #[trigger] killers@[j] == Move(0),
            decreases 2 * MAX_PLY - i,
        {
            killers.push(Move::none());
            i = i + 1;
        }
        let mut history: Vec<i32> = Vec::new();
        let mut j: usize = 0;
        while j < 8192
            invariant
                j <= 8192,
                history@.len() == j,
                history_bounded(history@),
                forall|k: int| 0 <= k < j ==> #[trigger] history@[k] == 0,
            decreases 8192 - j,
        {
            history.push(0);
            j = j + 1;
        }
        Search {
            tt: TranspositionTable::new(hash_mb),
            stop,
            killers,
            history,
            pv: PvTable::new(),
            nodes: 0,
            seldepth: 0,
            start: clock_now(),
            soft_limit: None,
            hard_limit: None,
            node_limit: None,
            stopped: false,
            silent: false,
            info: Vec::new(),
        }
    }

    /// Clears everything that must not leak between games.
    pub fn reset(&mut self)
        requires
            old(self).wf(),
        ensures
            final(self).wf(),
            final(self).tt.generation == 0,
            forall|i: int| 0 <= i < final(self).tt.entries@.len() ==> #[trigger] final(self).tt.entries@[i] == crate::tt::empty_entry(),
            final(self).tt.entries@.len() == old(self).tt.entries@.len(),
            final(self).silent == old(self).silent,
            forall|i: int| 0 <= i < final(self).killers@.len() ==> #[trigger] final(self).killers@[i] == Move(0),
            forall|i: int| 0 <= i < final(self).history@.len() ==> #[trigger] final(self).history@[i] == 0,
    {
        self.tt.clear();
        let ghost t = self.tt;
        let mut i: usize = 0;
        while i < 2 * MAX_PLY
            invariant
                i <= 2 * MAX_PLY,
                self.killers@.len() == 2 * MAX_PLY,
                forall|j: int| 0 <= j < i ==> #[trigger] self.killers@[j] == Move(0),
                self.tt == t,
                self.history@ == old(self).history@,
                self.pv == old(self).pv,
                self.silent == old(self).silent,
            decreases 2 * MAX_PLY - i,
        {
            self.killers.set(i, Move::none());
            i = i + 1;
        }
        let mut j: usize = 0;
        while j < 8192
            invariant
                j <= 8192,
                self.history@.len() == 8192,
                history_bounded(self.history@),
                forall|k: int| 0 <= k < j ==> #[trigger] self.history@[k] == 0,
                self.killers@.len() == 2 * MAX_PLY,
                forall|k: int| 0 <= k < 2 * MAX_PLY ==> #[trigger] self.killers@[k] == Move(0),
                self.tt == t,
                self.pv == old(self).pv,
                self.silent == old(self).silent,
            decreases 8192 - j,
        {
            self.history.set(j, 0);
            j = j + 1;
        }
    }

    /// Polls the stop flag, the node limit and the clock.
    fn check_limits(&mut self)
        requires
            old(self).wf(),
        ensures
            final(self).wf(),
            final(self).nodes == old(self).nodes,
            old(self).node_limit matches Some(l) && old(self).nodes >= l ==> final(self).stopped,
            old(self).stopped ==> final(self).stopped,
            final(self).tt == old(self).tt,
            final(self).killers == old(self).killers,
            final(self).history == old(self).history,
            final(self).pv == old(self).pv,
            final(self).node_limit == old(self).node_limit,
            final(self).soft_limit == old(self).soft_limit,
            final(self).hard_limit == old(self).hard_limit,
            final(self).seldepth == old(self).seldepth,
            final(self).silent == old(self).silent,
            final(self).info == old(self).info,
    {
        if self.stop_requested() {
            self.stopped = true;
            return;
        }
        if let Some(limit) = self.node_limit {
            if self.nodes >= limit {
                self.stopped = true;
                return;
            }
        }
        if let Some(limit) = self.hard_limit {
            if self.elapsed_at_least(limit) {
                self.stopped = true;
            }
        }
    }

    fn stop_requested(&self) -> bool {
        self.stop.load(Ordering::Relaxed)
    }

    /// Whether at least `millis` milliseconds passed since the search began.
    fn elapsed_at_least(&self, millis: u64) -> (r: bool)
        ensures
            millis == 0 ==> r,
    {
        let us = micros_since(&self.start);
        (us as u128) >= (millis as u128) * 1000
    }

    /// Ordering scores for `moves`, one per move.
    fn score_moves(&self, pos: &Position, moves: &MoveList, tt_move: Move, ply: usize) -> (scores: Vec<i32>)
        requires
            self.wf(),
            ply < MAX_PLY,
        ensures
            scores@.len() == moves@.len(),
            forall|i: int| 0 <= i < moves@.len() ==> #[trigger] scores@[i] as int == move_score(
                pos.board@,
                pos.side_to_move,
                self.killers@[2 * ply],
                self.killers@[2 * ply + 1],
                self.history@,
                tt_move,
                moves@[i],
            ),
    {
        let k0 = self.killers[2 * ply];
        let k1 = self.killers[2 * ply + 1];
        let side = pos.side_to_move.index();
        let mut scores: Vec<i32> = Vec::new();
        let n = moves.len();
        let mut i: usize = 0;
        while i < n
            invariant
                self.wf(),
                ply < MAX_PLY,
                n == moves@.len(),
                k0 == self.killers@[2 * ply],
                k1 == self.killers@[2 * ply + 1],
                side == pos.side_to_move.spec_index(),
                i <= n,
                scores@.len() == i,
                forall|j: int| 0 <= j < i ==> #[trigger] scores@[j] as int == move_score(
                    pos.board@,
                    pos.side_to_move,
                    k0,
                    k1,
                    self.history@,
                    tt_move,
                    moves@[j],
                ),
            decreases n - i,
        {
            let mv = moves.get(i);
            let sc: i32 = if mv == tt_move {
                i32::MAX
            } else if mv.is_capture() || mv.is_promotion() {
                let victim = if mv.is_en_passant() {
                    eval::piece_value(PieceType::Pawn)
                } else {
                    value_at(pos, mv.to())
                };
                let attacker = value_at(pos, mv.from());
                let promo = match mv.promotion_piece() {
                    Some(pt) => eval::piece_value(pt),
                    None => 0,
                };
                // Most valuable victim, least valuable attacker.
                CAPTURE_BASE + victim * 16 - attacker + promo
            } else if mv == k0 {
                KILLER_BASE
            } else if mv == k1 {
                KILLER_BASE - 1
            } else {
                self.history[side * 4096 + mv.from() as usize * 64 + mv.to() as usize]
            };
            scores.push(sc);
            i = i + 1;
        }
        scores
    }

    /// Remembers a quiet move that caused a cutoff, and penalises the quiet
    /// moves that were tried before it.
    fn record_cutoff(&mut self, side: Color, mv: Move, depth: i32, ply: usize, tried: &Vec<Move>)
        requires
            old(self).wf(),
            ply < MAX_PLY,
            0 <= depth <= 1000,
        ensures
            final(self).wf(),
            final(self).killers@ == (if old(self).killers@[2 * ply] != mv {
                old(self).killers@.update(2 * ply + 1, old(self).killers@[2 * ply]).update(2 * ply, mv)
            } else {
                old(self).killers@
            }),
            final(self).history@ == history_after(
                old(self).history@,
                side,
                tried@,
                mv,
                if depth * depth < 400 { depth * depth } else { 400 },
                tried@.len() as int,
            ),
            final(self).tt == old(self).tt,
            final(self).pv == old(self).pv,
            final(self).nodes == old(self).nodes,
            final(self).stopped == old(self).stopped,
            final(self).keeps(old(self)),
    {
        if self.killers[2 * ply] != mv {
            let k = self.killers[2 * ply];
            self.killers.set(2 * ply + 1, k);
            self.killers.set(2 * ply, mv);
        }
        assert(depth * depth <= 1000000) by (nonlinear_arith)
            requires
                0 <= depth <= 1000,
        ;
        let sq = depth * depth;
        let ghost k_after = self.killers@;
        let bonus = if sq < 400 {
            sq
        } else {
            400
        };
        let s = side.index();
        let mut i: usize = 0;
        while i < tried.len()
            invariant
                i <= tried@.len(),
                0 <= bonus <= 400,
                s == side.spec_index(),
                self.history@.len() == 8192,
                history_bounded(self.history@),
                self.history@ == history_after(old(self).history@, side, tried@, mv, bonus as int, i as int),
                self.killers@ == k_after,
                k_after.len() == 2 * MAX_PLY,
                self.tt == old(self).tt,
                self.pv == old(self).pv,
                self.nodes == old(self).nodes,
                self.stopped == old(self).stopped,
                self.keeps(old(self)),
            decreases tried@.len() - i,
        {
            let other = tried[i];
            let slot = s * 4096 + other.from() as usize * 64 + other.to() as usize;
            let cur = self.history[slot];
            let v = if other == mv {
                cur + bonus
            } else {
                cur - bonus
            };
            let v = if v < -HISTORY_MAX {
                -HISTORY_MAX
            } else if v > HISTORY_MAX {
                HISTORY_MAX
            } else {
                v
            };
            self.history.set(slot, v);
            i = i + 1;
        }
    }
}

/// A position the search can explore down to `MAX_PLY`: sane, with room on
/// both clocks for the remaining plies.
pub open spec fn searchable(s: PosState, ply: int) -> bool {
    &&& sane(s)
    &&& s.halfmove + (MAX_PLY - ply) < 0xffff
    &&& s.fullmove + (MAX_PLY - ply) < 0xffff
}

/// The widest window a node at `ply` is searched with.
pub open spec fn window_bound(ply: int) -> int {
    1_500_000_000 + ply
}

/// No score the search returns is wider than this.
pub open spec fn score_bound() -> int {
    1_600_000_000
}

/// Scores the table holds stay far from the ends of `i32`.
pub open spec fn tt_scores_ok(entries: Seq<crate::tt::Entry>) -> bool {
    forall|i: int| 0 <= i < entries.len() ==> -1_000_000_128 <= #[trigger] entries[i].score <= 1_000_000_128
}


proof fn lemma_child(s: PosState, mv: Move, ply: int)
    requires
        searchable(s, ply),
        0 <= ply < MAX_PLY,
        pseudo_legal(s, mv),
        legal_after(s, mv),
    ensures
        crate::position::move_is_applicable(s, mv),
        searchable(make_state(s, mv), ply + 1),
        can_unmake_state(make_state(s, mv)),
        unmake_state(make_state(s, mv)) == s,
{
    lemma_pseudo_applicable(s, mv);
    lemma_sane_after(s, mv);
    crate::position::lemma_unmake_after_make(s, mv);
}

proof fn lemma_null_child(s: PosState, ply: int)
    requires
        searchable(s, ply),
        0 <= ply < MAX_PLY,
        !attacked_on(s.board, king_on(s.board, s.side), s.side.spec_flip()),
    ensures
        searchable(crate::position::null_state(s), ply + 1),
        crate::position::unnull_state(crate::position::null_state(s)) == s,
{
    crate::movegen::lemma_sane_after_null(s);
    crate::position::lemma_unnull_after_null(s);
}

/// Every move `next` leaves in the order, and the one it yields, was in the
/// order before.
proof fn lemma_next_keeps(s0: PosState, before: MoveOrder, after: MoveOrder, mv: Move)
    requires
        before.wf(),
        forall|i: int| 0 <= i < before.moves@.len() ==> #[trigger] pseudo_legal(s0, before.moves@[i]),
        before.index < before.moves@.len(),
        exists|b: int| {
            &&& before.index <= b < before.moves@.len()
            &&& after.moves@ == before.moves@.update(before.index as int, before.moves@[b]).update(b, before.moves@[before.index as int])
            &&& Some(mv) == Some(before.moves@[b])
        },
    ensures
        pseudo_legal(s0, mv),
        forall|i: int| 0 <= i < after.moves@.len() ==> #[trigger] pseudo_legal(s0, after.moves@[i]),
{
    let b = choose|b: int| {
        &&& before.index <= b < before.moves@.len()
        &&& after.moves@ == before.moves@.update(before.index as int, before.moves@[b]).update(b, before.moves@[before.index as int])
        &&& Some(mv) == Some(before.moves@[b])
    };
    assert(pseudo_legal(s0, before.moves@[b]));
    assert forall|i: int| 0 <= i < after.moves@.len() implies #[trigger] pseudo_legal(s0, after.moves@[i]) by {
        assert(pseudo_legal(s0, before.moves@[i]));
        assert(pseudo_legal(s0, before.moves@[before.index as int]));
    }
}

/// The next move of an order of tactical moves is tactical, and so are the
/// ones left.
proof fn lemma_next_tactical(before: MoveOrder, after: MoveOrder, mv: Move)
    requires
        before.wf(),
        forall|i: int| 0 <= i < before.moves@.len() ==> #[trigger] tactical(before.moves@[i]),
        before.index < before.moves@.len(),
        exists|b: int| {
            &&& before.index <= b < before.moves@.len()
            &&& after.moves@ == before.moves@.update(before.index as int, before.moves@[b]).update(b, before.moves@[before.index as int])
            &&& Some(mv) == Some(before.moves@[b])
        },
    ensures
        tactical(mv),
        forall|i: int| 0 <= i < after.moves@.len() ==> #[trigger] tactical(after.moves@[i]),
{
    let b = choose|b: int| {
        &&& before.index <= b < before.moves@.len()
        &&& after.moves@ == before.moves@.update(before.index as int, before.moves@[b]).update(b, before.moves@[before.index as int])
        &&& Some(mv) == Some(before.moves@[b])
    };
    assert(tactical(before.moves@[b]));
    assert forall|i: int| 0 <= i < after.moves@.len() implies #[trigger] tactical(after.moves@[i]) by {
        assert(tactical(before.moves@[i]));
        assert(tactical(before.moves@[before.index as int]));
    }
}

/// What delta pruning reckons a capture wins: the piece on the target
/// square, or a pawn.
pub open spec fn capture_gain(b: Seq<Option<Piece>>, mv: Move) -> int {
    match b[mv.spec_to() as int] {
        Some(p) => mg_material(p.piece_type.spec_index() as int),
        None => mg_material(0),
    }
}

/// After `mv` the other side has no capture or promotion to answer with.
pub open spec fn quiet_after(s: PosState, mv: Move) -> bool {
    forall|x: Move| legal_move(make_state(s, mv), x) ==> !#[trigger] tactical(x)
}

/// A capture or promotion that quiescence search from `s` (standing pat at
/// `e` against `beta`) plays out rather than prunes, and after which the
/// position is quiet.
pub open spec fn searched_capture(s: PosState, mv: Move, e: int, beta: int) -> bool {
    &&& legal_move(s, mv)
    &&& tactical(mv)
    &&& (mv.spec_is_promotion() || e + capture_gain(s.board, mv) + 200 >= beta)
    &&& quiet_after(s, mv)
}

/// `best` is at least what playing `mv` from `s` is worth: nothing when the
/// position after it is drawn, else minus its static evaluation.
pub open spec fn answered(best: int, s: PosState, mv: Move) -> bool {
    exists|c: Position| #[trigger] c.state() == make_state(s, mv) && c.wf() && (if drawn(&c) {
        best >= 0
    } else {
        best >= -eval::evaluation(&c)
    })
}

proof fn lemma_answered_mono(b1: int, b2: int, s: PosState, mv: Move)
    requires
        answered(b1, s, mv),
        b1 <= b2,
    ensures
        answered(b2, s, mv),
{
    let c = choose|c: Position| #[trigger] c.state() == make_state(s, mv) && c.wf() && (if drawn(&c) {
        b1 >= 0
    } else {
        b1 >= -eval::evaluation(&c)
    });
    assert(c.state() == make_state(s, mv));
}

/// Taking the next move of an order leaves the moves already taken in
/// place, puts it after them, and loses no move.
proof fn lemma_next_prefix(before: MoveOrder, after: MoveOrder, mv: Move)
    requires
        before.wf(),
        before.index < before.moves@.len(),
        exists|b: int| {
            &&& before.index <= b < before.moves@.len()
            &&& after.moves@ == before.moves@.update(before.index as int, before.moves@[b]).update(b, before.moves@[before.index as int])
            &&& Some(mv) == Some(before.moves@[b])
        },
    ensures
        after.moves@[before.index as int] == mv,
        forall|k: int| 0 <= k < before.index ==> after.moves@[k] == before.moves@[k],
        forall|x: Move| before.moves@.contains(x) ==> after.moves@.contains(x),
{
    let b = choose|b: int| {
        &&& before.index <= b < before.moves@.len()
        &&& after.moves@ == before.moves@.update(before.index as int, before.moves@[b]).update(b, before.moves@[before.index as int])
        &&& Some(mv) == Some(before.moves@[b])
    };
    assert forall|x: Move| before.moves@.contains(x) implies after.moves@.contains(x) by {
        let k = choose|k: int| 0 <= k < before.moves@.len() && before.moves@[k] == x;
        if k == before.index {
            assert(after.moves@[b] == x);
        } else if k == b {
            assert(after.moves@[before.index as int] == x);
        } else {
            assert(after.moves@[k] == x);
        }
    }
}

/// The side to move is in check.
pub open spec fn checked(s: PosState) -> bool {
    attacked_on(s.board, king_on(s.board, s.side), s.side.spec_flip())
}

/// The game is drawn where it stands: fifty moves, repetition or too little
/// material to mate.
pub open spec fn drawn(pos: &Position) -> bool {
    pos.halfmove_clock >= 100 || pos.repeated() || pos.insufficient()
}

/// `m` checkmates at once: it is legal, and afterwards the side to move is in
/// check, has no legal move, and the game is not drawn by rule (a draw by
/// rule is scored before mate is looked for).
#[verifier::opaque]
pub open spec fn mates(s: PosState, m: Move) -> bool {
    &&& legal_move(s, m)
    &&& checked(make_state(s, m))
    &&& forall|x: Move| !#[trigger] legal_move(make_state(s, m), x)
    &&& forall|p: Position| p.wf() && p.state() == make_state(s, m) ==> !#[trigger] drawn(&p)
}

/// What a search of a checkmated position at `ply` returns for the window
/// `(alpha, beta)`: mate distance pruning narrows the window to the mates
/// possible this far from the root, and if nothing is left of it the lower
/// edge is returned; otherwise the node is scored as mated here.
pub open spec fn mated_score(alpha: int, beta: int, ply: int) -> int {
    let lo = if alpha > -MATE + ply { alpha } else { -MATE + ply };
    let hi = if beta < MATE - ply - 1 { beta } else { MATE - ply - 1 };
    if lo >= hi { lo } else { -MATE + ply }
}

/// The least score a search at `ply` owes a position with a mate in one,
/// given the window's upper edge: the mate itself, or `beta` if the window
/// closes below it.
pub open spec fn mate_floor(beta: int, ply: int) -> int {
    if beta < MATE - ply - 1 { beta } else { MATE - ply - 1 }
}

/// A mated child seen through either window of `child_score` gives its
/// parent at least the mate floor, or a score that fails low at or above it.
proof fn lemma_mated_child_windows(alpha: int, beta: int, ply: int)
    ensures
        -mated_score(-beta, -alpha, ply + 1) >= mate_floor(beta, ply),
        -mated_score(-alpha - 1, -alpha, ply + 1) <= alpha ==> -mated_score(-alpha - 1, -alpha, ply + 1) >= mate_floor(beta, ply),
{
}

/// Whether a position is drawn by rule depends on its state alone.
proof fn lemma_drawn_of_state(p: Position, q: Position)
    requires
        p.wf(),
        q.wf(),
        p.state() == q.state(),
    ensures
        drawn(&p) == drawn(&q),
{
    assert(p.board@ == q.board@);
    assert forall|i: int| 0 <= i < 6 implies p.pieces[i] == q.pieces[i] by {
        assert forall|t: int| 0 <= t < 64 implies #[trigger] crate::bitboard::member(p.pieces[i], t)
            == crate::bitboard::member(q.pieces[i], t) by {
            assert(crate::bitboard::member(p.pieces[i], t) == crate::position::holds_type(p.board@[t], i));
            assert(crate::bitboard::member(q.pieces[i], t) == crate::position::holds_type(q.board@[t], i));
        }
        crate::bitboard::lemma_bits_ext(p.pieces[i], q.pieces[i]);
    }
    assert forall|i: int| 0 <= i < 2 implies p.colors[i] == q.colors[i] by {
        assert forall|t: int| 0 <= t < 64 implies #[trigger] crate::bitboard::member(p.colors[i], t)
            == crate::bitboard::member(q.colors[i], t) by {
            assert(crate::bitboard::member(p.colors[i], t) == crate::position::holds_color(p.board@[t], i));
            assert(crate::bitboard::member(q.colors[i], t) == crate::position::holds_color(q.board@[t], i));
        }
        crate::bitboard::lemma_bits_ext(p.colors[i], q.colors[i]);
    }
    assert(p.pieces[0] == q.pieces[0] && p.pieces[1] == q.pieces[1] && p.pieces[2] == q.pieces[2]);
    assert(p.pieces[3] == q.pieces[3] && p.pieces[4] == q.pieces[4]);
    assert(p.colors[0] == q.colors[0] && p.colors[1] == q.colors[1]);
    assert(p.repetitions@ == q.repetitions@);
}

/// Every mating move among the first `n` of `moves` whose position the
/// table `t` never held has been answered: `best` reached `floor`.
#[verifier::opaque]
pub open spec fn mates_answered(s0: PosState, moves: Seq<Move>, n: int, t: TranspositionTable, best: int, floor: int) -> bool {
    forall|k: int| 0 <= k < n && #[trigger] mates(s0, moves[k]) && t.never_held(make_state(s0, moves[k]).hash) ==> best >= floor
}

/// None of the first `n` of `moves` is legal.
#[verifier::opaque]
pub open spec fn none_legal(s0: PosState, moves: Seq<Move>, n: int) -> bool {
    forall|k: int| 0 <= k < n ==> !legal_move(s0, #[trigger] moves[k])
}

/// One more move tried keeps the mating moves answered.
proof fn lemma_answered_step(
    s0: PosState,
    before: Seq<Move>,
    after: Seq<Move>,
    i: int,
    t0: TranspositionTable,
    t1: TranspositionTable,
    best0: int,
    best1: int,
    floor: int,
)
    requires
        mates_answered(s0, before, i, t0, best0, floor),
        0 <= i < after.len(),
        forall|k: int| 0 <= k < i ==> after[k] == before[k],
        t0.held@.subset_of(t1.held@),
        best0 <= best1,
        mates(s0, after[i]) && t1.never_held(make_state(s0, after[i]).hash) ==> best1 >= floor,
    ensures
        mates_answered(s0, after, i + 1, t1, best1, floor),
{
    reveal(mates_answered);
    assert forall|k: int| 0 <= k < i + 1 && #[trigger] mates(s0, after[k]) && t1.never_held(make_state(s0, after[k]).hash)
        implies best1 >= floor by {
        if k < i {
            assert(after[k] == before[k]);
            assert(t0.never_held(make_state(s0, before[k]).hash));
            assert(mates(s0, before[k]));
        }
    }
}

/// One more move tried, and found illegal, keeps the tried moves illegal.
proof fn lemma_none_legal_step(s0: PosState, before: Seq<Move>, after: Seq<Move>, i: int)
    requires
        none_legal(s0, before, i),
        0 <= i < after.len(),
        forall|k: int| 0 <= k < i ==> after[k] == before[k],
        !legal_move(s0, after[i]),
    ensures
        none_legal(s0, after, i + 1),
{
    reveal(none_legal);
    assert forall|k: int| 0 <= k < i + 1 implies !legal_move(s0, #[trigger] after[k]) by {
        if k < i {
            assert(after[k] == before[k]);
            assert(!legal_move(s0, before[k]));
        }
    }
}

/// Once every pseudo-legal move has been tried, every mating move whose
/// position the table never held has been answered.
proof fn lemma_all_answered(s0: PosState, moves: Seq<Move>, t: TranspositionTable, best: int, floor: int)
    requires
        forall|x: Move| #[trigger] pseudo_legal(s0, x) ==> moves.contains(x),
        mates_answered(s0, moves, moves.len() as int, t, best, floor),
    ensures
        forall|m: Move| #[trigger] mates(s0, m) && t.never_held(make_state(s0, m).hash) ==> best >= floor,
{
    reveal(mates_answered);
    assert forall|m: Move| #[trigger] mates(s0, m) && t.never_held(make_state(s0, m).hash) implies best >= floor by {
        reveal(mates);
        assert(pseudo_legal(s0, m));
        assert(moves.contains(m));
        let k = choose|k: int| 0 <= k < moves.len() && moves[k] == m;
        assert(mates(s0, moves[k]));
    }
}

/// Once every pseudo-legal move has been tried and none was legal, there is
/// no legal move.
proof fn lemma_none_legal_all(s0: PosState, moves: Seq<Move>)
    requires
        forall|x: Move| #[trigger] pseudo_legal(s0, x) ==> moves.contains(x),
        none_legal(s0, moves, moves.len() as int),
    ensures
        forall|m: Move| !#[trigger] legal_move(s0, m),
{
    reveal(none_legal);
    assert forall|m: Move| !#[trigger] legal_move(s0, m) by {
        if legal_move(s0, m) {
            assert(moves.contains(m));
            let k = choose|k: int| 0 <= k < moves.len() && moves[k] == m;
            assert(!legal_move(s0, moves[k]));
        }
    }
}

/// A position with no legal move has no mating move.
proof fn lemma_no_mates(s0: PosState)
    requires
        forall|m: Move| !#[trigger] legal_move(s0, m),
    ensures
        forall|m: Move| !#[trigger] mates(s0, m),
{
    reveal(mates);
    assert forall|m: Move| !#[trigger] mates(s0, m) by {
        assert(!legal_move(s0, m));
    }
}

/// The lower edge of the window left at `ply` by mate distance pruning.
pub open spec fn mate_lo(alpha: int, ply: int) -> int {
    if alpha > -MATE + ply { alpha } else { -MATE + ply }
}

/// The upper edge of the window left at `ply` by mate distance pruning.
pub open spec fn mate_hi(beta: int, ply: int) -> int {
    if beta < MATE - ply - 1 { beta } else { MATE - ply - 1 }
}

/// After `m` the side to move is not in check, and the position is drawn by
/// rule or does not evaluate below a mate for the side that moved.
#[verifier::opaque]
pub open spec fn quiet_reply(s: PosState, m: Move) -> bool {
    &&& !checked(make_state(s, m))
    &&& forall|p: Position| p.wf() && p.state() == make_state(s, m) ==> #[trigger] drawn(&p) || eval::evaluation(&p) > 1 - MATE
}

/// The side to move is not in check, and each of its legal moves either
/// mates at once or gives a quiet reply: the positions in which a
/// one-ply search sees every mate in one and nothing that outscores it.
pub open spec fn mates_or_quiet(s: PosState) -> bool {
    &&& !checked(s)
    &&& forall|m: Move| #[trigger] legal_move(s, m) ==> mates(s, m) || quiet_reply(s, m)
}

/// No mating move leads to a position the table `t` has stored an entry under.
pub open spec fn mates_unheld(s: PosState, t: TranspositionTable) -> bool {
    forall|m: Move| #[trigger] mates(s, m) ==> t.never_held(make_state(s, m).hash)
}

/// A mated child searched with a window around the mate score gives its
/// parent exactly that score.
proof fn lemma_mated_child_exact(alpha: int, beta: int, ply: int)
    requires
        alpha <= MATE - ply - 1 <= beta,
        0 <= ply < 1000,
    ensures
        -mated_score(-beta, -alpha, ply + 1) == MATE - ply - 1,
        -mated_score(-alpha - 1, -alpha, ply + 1) <= MATE - ply - 1,
        -mated_score(-alpha - 1, -alpha, ply + 1) <= alpha ==> -mated_score(-alpha - 1, -alpha, ply + 1) == MATE - ply - 1,
{
}

/// The position reached by a quiet reply is the one `quiet_reply` speaks of.
proof fn lemma_quiet_child(s: PosState, m: Move, c: Position)
    requires
        quiet_reply(s, m),
        c.wf(),
        c.state() == make_state(s, m),
    ensures
        !checked(c.state()),
        forall|p: Position| p.wf() && p.state() == c.state() ==> #[trigger] drawn(&p) || eval::evaluation(&p) > 1 - MATE,
{
    reveal(quiet_reply);
}

/// The position reached by a mating move is the one `mates` speaks of.
proof fn lemma_mates_child(s: PosState, m: Move, c: Position)
    requires
        mates(s, m),
        c.wf(),
        c.state() == make_state(s, m),
    ensures
        checked(c.state()),
        forall|x: Move| !#[trigger] legal_move(c.state(), x),
        !drawn(&c),
{
    reveal(mates);
    assert(c.wf() && c.state() == make_state(s, m));
}

impl Search {
    /// What every search routine keeps of the searcher besides its tables.
    pub open spec fn keeps(&self, other: &Search) -> bool {
        &&& self.silent == other.silent
        &&& self.soft_limit == other.soft_limit
        &&& self.hard_limit == other.hard_limit
        &&& self.node_limit == other.node_limit
        &&& self.info == other.info
    }

    /// Searches captures until the position is quiet, so the evaluation is not
    /// taken in the middle of an exchange.
    fn quiescence(&mut self, pos: &mut Position, alpha: i32, beta: i32, ply: usize) -> (r: i32)
        requires
            old(self).wf(),
            old(pos).wf(),
            searchable(old(pos).state(), ply as int),
            ply < MAX_PLY,
            -window_bound(ply as int) <= alpha <= window_bound(ply as int),
            -window_bound(ply as int) <= beta <= window_bound(ply as int),
        ensures
            final(self).wf(),
            final(self).keeps(old(self)),
            final(self).tt.entries@.len() == old(self).tt.entries@.len(),
            final(pos).wf(),
            final(pos).state() == old(pos).state(),
            final(pos).keys == old(pos).keys,
            final(self).pv == old(self).pv,
            final(self).tt == old(self).tt,
            -score_bound() <= r <= score_bound(),
            old(self).stopped ==> final(self).stopped,
            final(self).stopped ==> r == 0,
            !final(self).stopped && drawn(old(pos)) ==> r == 0,
            !final(self).stopped && !drawn(old(pos)) ==> r >= eval::evaluation(old(pos)),
            !final(self).stopped && !drawn(old(pos)) && (ply >= MAX_PLY - 1 || eval::evaluation(old(pos)) >= beta
                || forall|mv: Move| legal_move(old(pos).state(), mv) ==> !#[trigger] tactical(mv))
                ==> r == eval::evaluation(old(pos)),
            !final(self).stopped && !drawn(old(pos)) && ply < MAX_PLY - 1 && alpha < beta ==> forall|mv: Move|
                #[trigger] searched_capture(old(pos).state(), mv, eval::evaluation(old(pos)), beta as int) ==> r >= beta
                    || answered(r as int, old(pos).state(), mv),
        decreases MAX_PLY - ply, 0int,
    {
        let ghost alpha0 = alpha;
        let mut alpha = alpha;
        if self.nodes % 2048 == 0 {
            self.check_limits();
        }
        if self.stopped {
            return 0;
        }
        self.nodes = self.nodes.wrapping_add(1);
        if ply > self.seldepth {
            self.seldepth = ply;
        }
        if pos.is_draw() {
            return 0;
        }
        if ply >= MAX_PLY - 1 {
            return eval::evaluate(pos);
        }
        let stand_pat = eval::evaluate(pos);
        if stand_pat >= beta {
            return stand_pat;
        }
        if stand_pat > alpha {
            alpha = stand_pat;
        }
        let ghost s0 = pos.state();
        let moves = generate_captures(pos);
        let scores = self.score_moves(pos, &moves, Move::none(), ply);
        let mut ordered = MoveOrder::new(moves, scores);
        let mut best = stand_pat;
        let ghost e0 = eval::evaluation(old(pos));
        loop
            invariant_except_break
                -window_bound(ply as int) <= alpha <= window_bound(ply as int),
                alpha0 < beta ==> alpha < beta,
                alpha0 < beta ==> forall|k: int| 0 <= k < ordered.index && searched_capture(s0, ordered.moves@[k], e0, beta as int)
                    ==> #[trigger] answered(best as int, s0, ordered.moves@[k]),
            invariant
                e0 == eval::evaluation(old(pos)),
                forall|x: Move| pseudo_legal(s0, x) && tactical(x) ==> ordered.moves@.contains(x),
                !self.stopped,
                stand_pat as int == eval::evaluation(old(pos)),
                best >= stand_pat,
                best == stand_pat || exists|m: Move| legal_move(s0, m) && #[trigger] tactical(m),
                forall|i: int| 0 <= i < ordered.moves@.len() ==> #[trigger] tactical(ordered.moves@[i]),
                self.wf(),
                self.keeps(old(self)),
                self.tt.entries@.len() == old(self).tt.entries@.len(),
                self.pv == old(self).pv,
                self.tt == old(self).tt,
                pos.wf(),
                pos.state() == s0,
                s0 == old(pos).state(),
                pos.keys == old(pos).keys,
                searchable(s0, ply as int),
                ply < MAX_PLY - 1,
                ordered.wf(),
                forall|i: int| 0 <= i < ordered.moves@.len() ==> #[trigger] pseudo_legal(s0, ordered.moves@[i]),
                -window_bound(ply as int) <= beta <= window_bound(ply as int),
                -score_bound() <= best <= score_bound(),
                -2_500_000 <= stand_pat <= 2_500_000,
            ensures
                self.wf(),
                self.keeps(old(self)),
                self.tt.entries@.len() == old(self).tt.entries@.len(),
                self.pv == old(self).pv,
                self.tt == old(self).tt,
                pos.wf(),
                pos.state() == s0,
                pos.keys == old(pos).keys,
                -score_bound() <= best <= score_bound(),
                alpha0 < beta ==> (best >= beta || forall|x: Move| #[trigger] searched_capture(s0, x, e0, beta as int)
                    ==> answered(best as int, s0, x)),
            decreases ordered.moves@.len() - ordered.index,
        {
            let ghost before = ordered;
            let mv = match ordered.next() {
                Some(mv) => mv,
                None => {
                    proof {
                        if alpha0 < beta {
                            assert forall|x: Move| #[trigger] searched_capture(s0, x, e0, beta as int) implies answered(best as int, s0, x) by {
                                assert(ordered.moves@.contains(x));
                                let k = choose|k: int| 0 <= k < ordered.moves@.len() && ordered.moves@[k] == x;
                                assert(searched_capture(s0, ordered.moves@[k], e0, beta as int));
                            }
                        }
                    }
                    break;
                },
            };
            proof {
                lemma_next_keeps(s0, before, ordered, mv);
                lemma_next_tactical(before, ordered, mv);
                lemma_next_prefix(before, ordered, mv);
                assert forall|k: int| 0 <= k < before.index implies #[trigger] ordered.moves@[k] == before.moves@[k] by {}
            }
            // Delta pruning: even winning this material would not reach alpha.
            if !mv.is_promotion() {
                let captured = match pos.piece_at(mv.to()) {
                    Some(p) => eval::piece_value(p.piece_type),
                    None => eval::piece_value(PieceType::Pawn),
                };
                if stand_pat + captured + 200 < alpha {
                    proof {
                        assert(captured == capture_gain(s0.board, mv));
                        assert(!searched_capture(s0, mv, e0, beta as int) || !(alpha0 < beta));
                        assert(ordered.moves@[before.index as int] == mv);
                    }
                    continue;
                }
            }
            proof {
                lemma_pseudo_applicable(s0, mv);
            }
            if !pos.try_make_move(mv) {
                proof {
                    assert(!searched_capture(s0, mv, e0, beta as int));
                    assert(ordered.moves@[before.index as int] == mv);
                }
                continue;
            }
            proof {
                lemma_child(s0, mv, ply as int);
            }
            proof {
                assert(legal_move(s0, mv));
            }
            let ghost child = *pos;
            let score = -self.quiescence(pos, -beta, -alpha, ply + 1);
            pos.unmake_move();
            if self.stopped {
                return 0;
            }
            proof {
                if searched_capture(s0, mv, e0, beta as int) {
                    assert(quiet_after(s0, mv));
                    assert(child.state() == make_state(s0, mv));
                    assert(forall|x: Move| legal_move(child.state(), x) ==> !#[trigger] tactical(x));
                    assert(if drawn(&child) { score >= 0 } else { score >= -eval::evaluation(&child) });
                    assert(answered(score as int, s0, mv));
                }
            }
            let ghost best_before = best;
            if score > best {
                best = score;
                if score > alpha {
                    alpha = score;
                }
                if alpha >= beta {
                    break;
                }
            }
            proof {
                if alpha0 < beta {
                    assert forall|k: int| 0 <= k < ordered.index && searched_capture(s0, ordered.moves@[k], e0, beta as int)
                        implies #[trigger] answered(best as int, s0, ordered.moves@[k]) by {
                        if k < before.index {
                            assert(ordered.moves@[k] == before.moves@[k]);
                            lemma_answered_mono(best_before as int, best as int, s0, ordered.moves@[k]);
                        } else {
                            assert(ordered.moves@[k] == mv);
                            lemma_answered_mono(score as int, best as int, s0, mv);
                        }
                    }
                }
            }
        }
        best
    }
}

/// Storing a score the table can hold keeps every stored score bounded.
proof fn lemma_store_keeps(before: TranspositionTable, after: TranspositionTable, key: u64, mv: Move, score: i32, depth: i16, bound: Bound, ply: int)
    requires
        before.wf(),
        tt_scores_ok(before.entries@),
        -1_000_000_000 <= score <= 1_000_000_000,
        0 <= ply < MAX_PLY,
        after.entries@ == before.entries@.update(before.spec_slot(key), before.store_spec(key, mv, score, depth, bound, ply)),
    ensures
        tt_scores_ok(after.entries@),
{
    let k = key as usize;
    let m = before.mask;
    crate::tt::lemma_mask_bits(k, m);
    assert forall|i: int| 0 <= i < after.entries@.len() implies -1_000_000_128 <= #[trigger] after.entries@[i].score <= 1_000_000_128 by {
        if i != before.spec_slot(key) {
            assert(after.entries@[i] == before.entries@[i]);
        }
    }
}

/// A probe of a table with bounded scores finds a bounded score.
proof fn lemma_probe_bounded(t: TranspositionTable, key: u64, ply: int)
    requires
        t.wf(),
        tt_scores_ok(t.entries@),
        0 <= ply < MAX_PLY,
    ensures
        t.probe_spec(key, ply) matches Some(h) ==> -1_000_000_128 <= h.score <= 1_000_000_128,
{
    let k = key as usize;
    let m = t.mask;
    crate::tt::lemma_mask_bits(k, m);
    let e = t.entries@[t.spec_slot(key)];
    assert(-1_000_000_128 <= e.score <= 1_000_000_128);
}

impl Search {
    /// Principal variation search of `pos` to `depth` within `(alpha, beta)`.
    #[verifier::rlimit(100)]
    fn negamax(&mut self, pos: &mut Position, depth: i32, alpha: i32, beta: i32, ply: usize, is_pv: bool) -> (r: i32)
        requires
            old(self).wf(),
            old(pos).wf(),
            searchable(old(pos).state(), ply as int),
            ply < MAX_PLY,
            -window_bound(ply as int) <= alpha <= window_bound(ply as int),
            -window_bound(ply as int) <= beta <= window_bound(ply as int),
            -10 <= depth <= 256 + ply,
        ensures
            final(self).wf(),
            final(self).keeps(old(self)),
            final(self).tt.entries@.len() == old(self).tt.entries@.len(),
            final(pos).wf(),
            final(pos).state() == old(pos).state(),
            final(pos).keys == old(pos).keys,
            -score_bound() <= r <= score_bound(),
            forall|p: int| 0 <= p < ply ==> #[trigger] final(self).pv.line(p) == old(self).pv.line(p),
            final(self).pv.line(ply as int).len() > 0 ==> legal_move(old(pos).state(), final(self).pv.line(ply as int)[0]),
            old(self).stopped ==> final(self).stopped,
            final(self).stopped ==> r == 0,
            ply > 0 && !final(self).stopped && drawn(old(pos)) ==> r == 0,
            ply >= MAX_PLY - 1 && !final(self).stopped && !drawn(old(pos)) ==> r == eval::evaluation(old(pos)),
            !final(self).stopped && is_pv && ply < MAX_PLY - 1 && (ply == 0 || !drawn(old(pos))) && alpha < beta
                && -MATE + ply < beta && alpha < MATE - ply - 1 && (depth >= 1 || (depth >= 0 && checked(
                old(pos).state(),
            ))) && (forall|m: Move| !#[trigger] legal_move(old(pos).state(), m)) ==> r == (if checked(
                old(pos).state(),
            ) {
                -MATE + ply
            } else {
                0
            }),
            old(self).tt.held@.subset_of(final(self).tt.held@),
            !final(self).stopped && 0 < ply < MAX_PLY - 1 && !drawn(old(pos)) && checked(old(pos).state()) && depth >= 0
                && (forall|m: Move| !#[trigger] legal_move(old(pos).state(), m))
                && (is_pv || old(self).tt.never_held(old(pos).hash))
                ==> r == mated_score(alpha as int, beta as int, ply as int) && final(self).tt == old(self).tt,
            !final(self).stopped && is_pv && depth >= 1 && ply + 2 < MAX_PLY && (ply == 0 || !drawn(old(pos))) && alpha < beta
                ==> forall|m: Move| #[trigger] mates(old(pos).state(), m) && final(self).tt.never_held(make_state(old(pos).state(), m).hash)
                    ==> r >= mate_floor(beta as int, ply as int),
            ply == 0 && is_pv && depth >= 1 && !final(self).stopped && r > alpha && alpha >= -INFINITY
                && (exists|m: Move| legal_move(old(pos).state(), m)) ==> final(self).pv.line(0).len() > 0,
            !final(self).stopped && 0 < ply < MAX_PLY - 1 && !drawn(old(pos)) && mate_lo(alpha as int, ply as int)
                >= mate_hi(beta as int, ply as int) ==> r == mate_lo(alpha as int, ply as int),
            !final(self).stopped && 0 < ply < MAX_PLY - 1 && !drawn(old(pos)) && mate_lo(alpha as int, ply as int)
                < mate_hi(beta as int, ply as int) && depth <= 0 && !checked(old(pos).state())
                ==> r >= eval::evaluation(old(pos)),
            !final(self).stopped && ply == 0 && is_pv && depth == 1 && alpha == -INFINITY && beta == INFINITY
                && mates_or_quiet(old(pos).state()) && mates_unheld(old(pos).state(), final(self).tt)
                && (exists|m: Move| #[trigger] mates(old(pos).state(), m))
                ==> r == MATE - 1 && final(self).pv.line(0).len() > 0 && mates(old(pos).state(), final(self).pv.line(0)[0]),
        decreases MAX_PLY - ply, 3int,
    {
        let ghost s0 = pos.state();
        let mut depth = depth;
        let mut alpha = alpha;
        let mut beta = beta;
        self.pv.clear(ply);
        if self.nodes % 2048 == 0 {
            self.check_limits();
        }
        if self.stopped {
            return 0;
        }
        let root = ply == 0;
        if !root {
            if pos.is_draw() {
                return 0;
            }
            if ply >= MAX_PLY - 1 {
                return eval::evaluate(pos);
            }
            // Mate distance pruning: a shorter mate elsewhere bounds this node.
            let lo = -MATE + ply as i32;
            if lo > alpha {
                alpha = lo;
            }
            let hi = MATE - ply as i32 - 1;
            if hi < beta {
                beta = hi;
            }
            if alpha >= beta {
                return alpha;
            }
        }
        let in_check = pos.in_check();
        if in_check {
            // Check extension.
            depth = depth + 1;
        }
        if depth <= 0 {
            return self.quiescence(pos, alpha, beta, ply);
        }
        self.nodes = self.nodes.wrapping_add(1);

        let tt_hit = self.tt.probe(pos.hash, ply);
        proof {
            lemma_probe_bounded(self.tt, pos.hash, ply as int);
            if self.tt.never_held(pos.hash) {
                self.tt.lemma_never_held_misses(pos.hash, ply as int);
            }
        }
        let mut tt_move = Move::none();
        match tt_hit {
            Some(hit) => {
                tt_move = hit.mv;
                if !is_pv && hit.depth as i32 >= depth {
                    let usable = match hit.bound {
                        Bound::Exact => true,
                        Bound::Lower => hit.score >= beta,
                        Bound::Upper => hit.score <= alpha,
                    };
                    if usable {
                        return hit.score;
                    }
                }
            },
            None => {},
        }

        let static_eval = if in_check {
            -INFINITY
        } else {
            eval::evaluate(pos)
        };

        if !is_pv && !in_check && -MATE_IN_MAX_PLY < beta && beta < MATE_IN_MAX_PLY {
            // Reverse futility: so far ahead that giving up a margin still wins.
            if depth <= 6 && static_eval - 85 * depth >= beta {
                return static_eval;
            }
            // Null move: if passing still fails high, the real move will too.
            if depth >= 3 && static_eval >= beta && pos.has_non_pawn_material(pos.side_to_move) {
                let reduction = 3 + depth / 5;
                proof {
                    lemma_null_child(s0, ply as int);
                }
                pos.make_null_move();
                let child = self.negamax(pos, depth - reduction, -beta, -beta + 1, ply + 1, false);
                let score = -child;
                pos.unmake_null_move();
                if self.stopped {
                    return 0;
                }
                if score >= beta {
                    // Don't return unproven mate scores from a null search.
                    return if score >= MATE_IN_MAX_PLY {
                        beta
                    } else {
                        score
                    };
                }
            }
        }
        self.search_moves(pos, depth, alpha, beta, ply, is_pv, in_check, tt_move)
    }

    /// The move loop of `negamax`: tries every legal move best-first, keeps
    /// the best score, and records the result in the table.
    #[verifier::rlimit(100)]
    fn search_moves(
        &mut self,
        pos: &mut Position,
        depth: i32,
        alpha: i32,
        beta: i32,
        ply: usize,
        is_pv: bool,
        in_check: bool,
        tt_move: Move,
    ) -> (r: i32)
        requires
            old(self).wf(),
            old(pos).wf(),
            searchable(old(pos).state(), ply as int),
            ply < MAX_PLY - 1,
            -window_bound(ply as int) <= alpha <= window_bound(ply as int),
            -window_bound(ply as int) <= beta <= window_bound(ply as int),
            1 <= depth <= 257 + ply,
            in_check == attacked_on(old(pos).state().board, king_on(old(pos).state().board, old(pos).state().side), old(pos).state().side.spec_flip()),
            old(self).pv.line(ply as int).len() == 0,
        ensures
            final(self).wf(),
            final(self).keeps(old(self)),
            final(self).tt.entries@.len() == old(self).tt.entries@.len(),
            final(pos).wf(),
            final(pos).state() == old(pos).state(),
            final(pos).keys == old(pos).keys,
            -score_bound() <= r <= score_bound(),
            forall|p: int| 0 <= p < ply ==> #[trigger] final(self).pv.line(p) == old(self).pv.line(p),
            final(self).pv.line(ply as int).len() > 0 ==> legal_move(old(pos).state(), final(self).pv.line(ply as int)[0]),
            !old(self).stopped && final(self).stopped ==> r == 0,
            (forall|m: Move| !#[trigger] legal_move(old(pos).state(), m)) ==> r == (if in_check {
                -MATE + ply
            } else {
                0
            }),
            old(self).tt.held@.subset_of(final(self).tt.held@),
            (forall|m: Move| !#[trigger] legal_move(old(pos).state(), m)) ==> final(self).tt == old(self).tt,
            !final(self).stopped && r > alpha && alpha >= -INFINITY && (exists|m: Move| legal_move(old(pos).state(), m))
                ==> final(self).pv.line(ply as int).len() > 0,
            !final(self).stopped && ply + 2 < MAX_PLY && alpha < beta ==> forall|m: Move| #[trigger] mates(old(pos).state(), m)
                && final(self).tt.never_held(make_state(old(pos).state(), m).hash) ==> r >= mate_floor(beta as int, ply as int),
            !final(self).stopped && ply == 0 && depth == 1 && !in_check && alpha == -INFINITY && beta == INFINITY
                && mates_or_quiet(old(pos).state()) && mates_unheld(old(pos).state(), final(self).tt)
                && (exists|m: Move| #[trigger] mates(old(pos).state(), m))
                ==> r == MATE - 1 && final(self).pv.line(0).len() > 0 && mates(old(pos).state(), final(self).pv.line(0)[0]),
        decreases MAX_PLY - ply, 2int,
    {
        let ghost s0 = pos.state();
        let ghost alpha0 = alpha as int;
        let ghost root_case = ply == 0 && depth == 1 && !in_check && alpha == -INFINITY && beta == INFINITY
            && mates_or_quiet(s0);
        let ghost floor = mate_floor(beta as int, ply as int);
        let mut alpha = alpha;
        let moves = generate_moves(pos);
        let scores = self.score_moves(pos, &moves, tt_move, ply);
        let mut ordered = MoveOrder::new(moves, scores);
        let mut best_score = -INFINITY;
        let mut best_move = Move::none();
        let mut bound = Bound::Upper;
        let mut legal_moves: usize = 0;
        let mut quiets_tried: Vec<Move> = Vec::new();
        proof {
            reveal(mates_answered);
            reveal(none_legal);
        }
        loop
            invariant_except_break
                -window_bound(ply as int) <= alpha <= window_bound(ply as int),
                alpha0 < beta ==> alpha < beta,
                ply + 2 < MAX_PLY && alpha0 < beta ==> mates_answered(s0, ordered.moves@, ordered.index as int, self.tt, best_score as int, floor),
            invariant
                self.wf(),
                self.keeps(old(self)),
                self.tt.entries@.len() == old(self).tt.entries@.len(),
                pos.wf(),
                pos.state() == s0,
                s0 == old(pos).state(),
                pos.keys == old(pos).keys,
                searchable(s0, ply as int),
                ply < MAX_PLY - 1,
                1 <= depth <= 257 + ply,
                -window_bound(ply as int) <= beta <= window_bound(ply as int),
                floor == mate_floor(beta as int, ply as int),
                alpha0 <= alpha,
                ordered.wf(),
                forall|i: int| 0 <= i < ordered.moves@.len() ==> #[trigger] pseudo_legal(s0, ordered.moves@[i]),
                forall|x: Move| #[trigger] pseudo_legal(s0, x) ==> ordered.moves@.contains(x),
                -score_bound() <= best_score <= score_bound(),
                legal_moves <= ordered.index,
                legal_moves > 0 ==> exists|m: Move| #[trigger] legal_move(s0, m),
                legal_moves == 0 ==> self.tt == old(self).tt,
                legal_moves == 0 ==> none_legal(s0, ordered.moves@, ordered.index as int),
                old(self).tt.held@.subset_of(self.tt.held@),
                (best_score > alpha0 && alpha0 >= -INFINITY) || alpha > alpha0 ==> self.pv.line(ply as int).len() > 0,
                alpha0 == -INFINITY ==> alpha == best_score,
                alpha0 == -INFINITY && best_score > -INFINITY ==> self.pv.line(ply as int).len() > 0
                    && self.pv.line(ply as int)[0] == best_move,
                legal_moves == 0 ==> best_score == -INFINITY,
                root_case == (ply == 0 && depth == 1 && !in_check && alpha0 == -INFINITY && beta == INFINITY
                    && mates_or_quiet(s0)),
                root_case && mates_unheld(s0, self.tt) ==> best_score <= MATE - 1 && (best_score == MATE - 1
                    ==> mates(s0, best_move)),
                !old(self).stopped ==> !self.stopped,
                forall|p: int| 0 <= p < ply ==> #[trigger] self.pv.line(p) == old(self).pv.line(p),
                self.pv.line(ply as int).len() > 0 ==> legal_move(s0, self.pv.line(ply as int)[0]),
            ensures
                self.wf(),
                self.keeps(old(self)),
                self.tt.entries@.len() == old(self).tt.entries@.len(),
                pos.wf(),
                pos.state() == s0,
                pos.keys == old(pos).keys,
                -score_bound() <= best_score <= score_bound(),
                legal_moves > 0 ==> exists|m: Move| #[trigger] legal_move(s0, m),
                legal_moves == 0 ==> self.tt == old(self).tt,
                legal_moves == 0 ==> forall|m: Move| !#[trigger] legal_move(s0, m),
                old(self).tt.held@.subset_of(self.tt.held@),
                best_score > alpha0 && alpha0 >= -INFINITY ==> self.pv.line(ply as int).len() > 0,
                alpha0 == -INFINITY && best_score > -INFINITY ==> self.pv.line(ply as int).len() > 0
                    && self.pv.line(ply as int)[0] == best_move,
                root_case && mates_unheld(s0, self.tt) ==> best_score <= MATE - 1 && (best_score == MATE - 1
                    ==> mates(s0, best_move)),
                !old(self).stopped ==> !self.stopped,
                forall|p: int| 0 <= p < ply ==> #[trigger] self.pv.line(p) == old(self).pv.line(p),
                self.pv.line(ply as int).len() > 0 ==> legal_move(s0, self.pv.line(ply as int)[0]),
                ply + 2 < MAX_PLY && alpha0 < beta ==> best_score >= beta || forall|m: Move| #[trigger] mates(s0, m)
                    && self.tt.never_held(make_state(s0, m).hash) ==> best_score >= floor,
            decreases ordered.moves@.len() - ordered.index,
        {
            let ghost before = ordered;
            let ghost tt_before = self.tt;
            let ghost best_before = best_score;
            let mv = match ordered.next() {
                Some(mv) => mv,
                None => {
                    proof {
                        if ply + 2 < MAX_PLY && alpha0 < beta {
                            lemma_all_answered(s0, ordered.moves@, self.tt, best_score as int, floor);
                        }
                        if legal_moves == 0 {
                            lemma_none_legal_all(s0, ordered.moves@);
                        }
                    }
                    break;
                },
            };
            proof {
                lemma_next_keeps(s0, before, ordered, mv);
                lemma_next_prefix(before, ordered, mv);
                lemma_pseudo_applicable(s0, mv);
                assert forall|k: int| 0 <= k < before.index implies #[trigger] ordered.moves@[k] == before.moves@[k] by {}
            }
            if !pos.try_make_move(mv) {
                proof {
                    assert(!legal_move(s0, mv));
                    assert(ordered.moves@[before.index as int] == mv);
                    if ply + 2 < MAX_PLY && alpha0 < beta {
                        reveal(mates);
                        lemma_answered_step(s0, before.moves@, ordered.moves@, before.index as int, self.tt, self.tt,
                            best_score as int, best_score as int, floor);
                    }
                    if legal_moves == 0 {
                        lemma_none_legal_step(s0, before.moves@, ordered.moves@, before.index as int);
                    }
                }
                continue;
            }
            proof {
                lemma_child(s0, mv, ply as int);
                assert(legal_move(s0, mv));
                if mates(s0, mv) {
                    lemma_mates_child(s0, mv, *pos);
                }
                if root_case && !mates(s0, mv) {
                    assert(mates(s0, mv) || quiet_reply(s0, mv));
                    lemma_quiet_child(s0, mv, *pos);
                }
            }
            legal_moves = legal_moves + 1;
            let quiet = !mv.is_capture() && !mv.is_promotion();
            if quiet {
                quiets_tried.push(mv);
            }
            let ghost tt_call = self.tt;
            let score = self.child_score(pos, depth, alpha, beta, ply, is_pv, in_check, quiet, legal_moves);
            pos.unmake_move();
            if self.stopped {
                return 0;
            }
            proof {
                if ply + 2 < MAX_PLY && mates(s0, mv) && self.tt.never_held(make_state(s0, mv).hash) {
                    assert(tt_call.never_held(make_state(s0, mv).hash));
                    assert(score >= floor);
                }
                if root_case && mates_unheld(s0, self.tt) {
                    assert(mates_unheld(s0, tt_before)) by {
                        assert forall|m: Move| #[trigger] mates(s0, m) implies tt_before.never_held(make_state(s0, m).hash) by {
                            assert(self.tt.never_held(make_state(s0, m).hash));
                        }
                    }
                    assert(best_before <= MATE - 1);
                    if mates(s0, mv) {
                        assert(tt_call.never_held(make_state(s0, mv).hash));
                        assert(score == MATE - 1);
                    } else if alpha < MATE - 1 {
                        assert(score < MATE - 1);
                    } else {
                        assert(legal_moves > 1);
                        assert(score <= alpha);
                    }
                }
            }
            if score > best_score {
                best_score = score;
                best_move = mv;
                if score > alpha {
                    alpha = score;
                    bound = Bound::Exact;
                    self.pv.update(ply, mv);
                }
                if alpha >= beta {
                    bound = Bound::Lower;
                    if quiet {
                        self.record_cutoff(pos.side_to_move, mv, depth, ply, &quiets_tried);
                    }
                    break;
                }
            }
            proof {
                if ply + 2 < MAX_PLY && alpha0 < beta {
                    assert(ordered.moves@[before.index as int] == mv);
                    lemma_answered_step(s0, before.moves@, ordered.moves@, before.index as int, tt_before, self.tt,
                        best_before as int, best_score as int, floor);
                }
            }
        }
        if legal_moves == 0 {
            proof {
                lemma_no_mates(s0);
                assert(forall|m: Move| !#[trigger] mates(s0, m));
            }
            return if in_check {
                -MATE + ply as i32
            } else {
                0
            };
        }
        if -1_000_000_000 <= best_score && best_score <= 1_000_000_000 {
            let ghost t0 = self.tt;
            self.tt.store(pos.hash, best_move, best_score, depth as i16, bound, ply);
            proof {
                lemma_store_keeps(t0, self.tt, pos.hash, best_move, best_score, depth as i16, bound, ply as int);
            }
        }
        best_score
    }

    /// The score of the move just made, from the mover's side: the first
    /// legal move gets the full window, later ones a null window (reduced when
    /// they look unpromising) and a full re-search only if they beat alpha.
    #[verifier::rlimit(100)]
    #[verifier::spinoff_prover]
    fn child_score(
        &mut self,
        pos: &mut Position,
        depth: i32,
        alpha: i32,
        beta: i32,
        ply: usize,
        is_pv: bool,
        in_check: bool,
        quiet: bool,
        legal_moves: usize,
    ) -> (r: i32)
        requires
            old(self).wf(),
            old(pos).wf(),
            searchable(old(pos).state(), ply + 1),
            ply < MAX_PLY - 1,
            -window_bound(ply as int) <= alpha <= window_bound(ply as int),
            -window_bound(ply as int) <= beta <= window_bound(ply as int),
            1 <= depth <= 257 + ply,
            legal_moves >= 1,
        ensures
            final(self).wf(),
            final(self).keeps(old(self)),
            final(self).tt.entries@.len() == old(self).tt.entries@.len(),
            final(pos).wf(),
            final(pos).state() == old(pos).state(),
            final(pos).keys == old(pos).keys,
            -score_bound() <= r <= score_bound(),
            forall|p: int| 0 <= p <= ply ==> #[trigger] final(self).pv.line(p) == old(self).pv.line(p),
            old(self).stopped ==> final(self).stopped,
            final(self).stopped ==> r == 0,
            legal_moves == 1 && !final(self).stopped && drawn(old(pos)) ==> r == 0,
            legal_moves == 1 && ply + 1 >= MAX_PLY - 1 && !final(self).stopped && !drawn(old(pos))
                ==> r == -eval::evaluation(old(pos)),
            old(self).tt.held@.subset_of(final(self).tt.held@),
            !final(self).stopped && ply + 2 < MAX_PLY && checked(old(pos).state())
                && (forall|x: Move| !#[trigger] legal_move(old(pos).state(), x)) && !drawn(old(pos))
                && old(self).tt.never_held(old(pos).hash)
                ==> r >= mate_floor(beta as int, ply as int) && final(self).tt == old(self).tt,
            !final(self).stopped && ply + 2 < MAX_PLY && checked(old(pos).state())
                && (forall|x: Move| !#[trigger] legal_move(old(pos).state(), x)) && !drawn(old(pos))
                && old(self).tt.never_held(old(pos).hash) && alpha <= MATE - ply - 1 <= beta
                ==> r == MATE - ply - 1,
            !final(self).stopped && depth == 1 && ply + 2 < MAX_PLY && !checked(old(pos).state())
                && alpha < MATE - ply - 1 < beta && (forall|p: Position| p.wf() && p.state() == old(pos).state()
                ==> #[trigger] drawn(&p) || eval::evaluation(&p) > ply + 1 - MATE)
                ==> r < MATE - ply - 1,
            !final(self).stopped && legal_moves > 1 && ply + 2 < MAX_PLY && alpha >= MATE - ply - 1 ==> r <= alpha,
        decreases MAX_PLY - ply, 1int,
    {
        proof {
            lemma_mated_child_windows(alpha as int, beta as int, ply as int);
        }
        let ghost mated = !old(self).stopped && ply + 2 < MAX_PLY && checked(old(pos).state())
            && (forall|x: Move| !#[trigger] legal_move(old(pos).state(), x)) && !drawn(old(pos))
            && old(self).tt.never_held(old(pos).hash);
        if legal_moves == 1 {
            let child = self.negamax(pos, depth - 1, -beta, -alpha, ply + 1, is_pv);
            proof {
                if mated && !self.stopped {
                    assert(child == mated_score(-beta, -alpha, ply + 1));
                    if alpha <= MATE - ply - 1 <= beta {
                        lemma_mated_child_exact(alpha as int, beta as int, ply as int);
                    }
                }
            }
            return -child;
        }
        // Late move reductions: search likely-bad quiet moves shallower.
        let reduction: i32 = if depth >= 3 && legal_moves > 3 && quiet && !in_check {
            let d: usize = if depth < 63 {
                depth as usize
            } else {
                63
            };
            let m: usize = if legal_moves < 63 {
                legal_moves
            } else {
                63
            };
            let base = reduction(d, m) - if is_pv {
                1i32
            } else {
                0i32
            };
            if base < 0 {
                0
            } else if base > depth - 2 {
                depth - 2
            } else {
                base
            }
        } else {
            0
        };
        self.scout(pos, depth, alpha, beta, ply, is_pv, reduction)
    }

    /// A later move's score: a null-window search, reduced by `reduction`,
    /// repeated at full depth if a reduced search beat alpha, and searched
    /// with the full window if it still lands inside it.
    #[verifier::rlimit(100)]
    #[verifier::spinoff_prover]
    fn scout(
        &mut self,
        pos: &mut Position,
        depth: i32,
        alpha: i32,
        beta: i32,
        ply: usize,
        is_pv: bool,
        reduction: i32,
    ) -> (r: i32)
        requires
            old(self).wf(),
            old(pos).wf(),
            searchable(old(pos).state(), ply + 1),
            ply < MAX_PLY - 1,
            -window_bound(ply as int) <= alpha <= window_bound(ply as int),
            -window_bound(ply as int) <= beta <= window_bound(ply as int),
            1 <= depth <= 257 + ply,
            0 <= reduction,
            reduction == 0 || reduction <= depth - 2,
        ensures
            final(self).wf(),
            final(self).keeps(old(self)),
            final(self).tt.entries@.len() == old(self).tt.entries@.len(),
            final(pos).wf(),
            final(pos).state() == old(pos).state(),
            final(pos).keys == old(pos).keys,
            -score_bound() <= r <= score_bound(),
            forall|p: int| 0 <= p <= ply ==> #[trigger] final(self).pv.line(p) == old(self).pv.line(p),
            old(self).stopped ==> final(self).stopped,
            final(self).stopped ==> r == 0,
            old(self).tt.held@.subset_of(final(self).tt.held@),
            !final(self).stopped && ply + 2 < MAX_PLY && checked(old(pos).state())
                && (forall|x: Move| !#[trigger] legal_move(old(pos).state(), x)) && !drawn(old(pos))
                && old(self).tt.never_held(old(pos).hash)
                ==> r >= mate_floor(beta as int, ply as int) && final(self).tt == old(self).tt,
            !final(self).stopped && ply + 2 < MAX_PLY && checked(old(pos).state())
                && (forall|x: Move| !#[trigger] legal_move(old(pos).state(), x)) && !drawn(old(pos))
                && old(self).tt.never_held(old(pos).hash) && alpha <= MATE - ply - 1 <= beta
                ==> r == MATE - ply - 1,
            !final(self).stopped && depth == 1 && ply + 2 < MAX_PLY && !checked(old(pos).state())
                && alpha < MATE - ply - 1 < beta && (forall|p: Position| p.wf() && p.state() == old(pos).state()
                ==> #[trigger] drawn(&p) || eval::evaluation(&p) > ply + 1 - MATE)
                ==> r < MATE - ply - 1,
            !final(self).stopped && ply + 2 < MAX_PLY && alpha >= MATE - ply - 1 ==> r <= alpha,
        decreases MAX_PLY - ply, 0int,
    {
        proof {
            lemma_mated_child_windows(alpha as int, beta as int, ply as int);
        }
        let ghost mated = !old(self).stopped && ply + 2 < MAX_PLY && checked(old(pos).state())
            && (forall|x: Move| !#[trigger] legal_move(old(pos).state(), x)) && !drawn(old(pos))
            && old(self).tt.never_held(old(pos).hash);
        let ghost p0 = *pos;
        proof {
            if alpha <= MATE - ply - 1 <= beta && ply < 1000 {
                lemma_mated_child_exact(alpha as int, beta as int, ply as int);
            }
        }
        let mut score = -self.negamax(pos, depth - 1 - reduction, -alpha - 1, -alpha, ply + 1, false);
        proof {
            assert(pos.wf() && pos.state() == p0.state());
            lemma_drawn_of_state(*pos, p0);
            if mated && !self.stopped {
                assert(-score == mated_score(-alpha - 1, -alpha, ply + 1));
                assert(self.tt == old(self).tt);
            }
        }
        if score > alpha && reduction > 0 {
            score = -self.negamax(pos, depth - 1, -alpha - 1, -alpha, ply + 1, false);
            proof {
                lemma_drawn_of_state(*pos, p0);
                if mated && !self.stopped {
                    assert(-score == mated_score(-alpha - 1, -alpha, ply + 1));
                    assert(self.tt == old(self).tt);
                }
            }
        }
        if score > alpha && score < beta {
            let ghost p1 = *pos;
            score = -self.negamax(pos, depth - 1, -beta, -alpha, ply + 1, is_pv);
            proof {
                if mated && !self.stopped {
                    assert(-score == mated_score(-beta, -alpha, ply + 1));
                }
                assert(p1.wf() && p1.state() == p0.state());
                lemma_drawn_of_state(p1, p0);
            }
        }
        score
    }
}

/// What a completed search found.
#[derive(Clone, Copy, Debug)]
pub struct SearchResult {
    pub best_move: Move,
    pub ponder_move: Option<Move>,
    pub score: i32,
    pub depth: u32,
    pub nodes: u64,
}

/// The moves of a line in UCI notation, separated by single spaces.
pub open spec fn line_text(pv: Seq<Move>) -> Seq<char>
    decreases pv.len(),
{
    if pv.len() == 0 {
        seq![]
    } else if pv.len() == 1 {
        move_text(pv[0])
    } else {
        line_text(pv.drop_last()) + seq![' '] + move_text(pv.last())
    }
}

/// One UCI `info` line.
pub open spec fn info_text(
    depth: u32,
    seldepth: usize,
    score: i32,
    nodes: u64,
    nps: u64,
    hashfull: usize,
    millis: u64,
    pv: Seq<Move>,
) -> Seq<char> {
    "info depth "@ + decimal(depth as nat) + " seldepth "@ + decimal(seldepth as nat) + " score "@
        + eval::score_text(score as int) + " nodes "@ + decimal(nodes as nat) + " nps "@ + decimal(nps as nat)
        + " hashfull "@ + decimal(hashfull as nat) + " time "@ + decimal(millis as nat) + " pv "@
        + line_text(pv)
}

/// Renders one UCI `info` line.
pub fn info_line(
    depth: u32,
    seldepth: usize,
    score: i32,
    nodes: u64,
    nps: u64,
    hashfull: usize,
    millis: u64,
    pv: &Vec<Move>,
) -> (s: String)
    requires
        score > i32::MIN,
    ensures
        s@ == info_text(depth, seldepth, score, nodes, nps, hashfull, millis, pv@),
{
    let mut s = "info depth ".to_owned();
    push_decimal(&mut s, depth as u64);
    push_str(&mut s, " seldepth ");
    push_decimal(&mut s, seldepth as u64);
    push_str(&mut s, " score ");
    let sc = eval::format_score(score);
    push_str(&mut s, sc.as_str());
    push_str(&mut s, " nodes ");
    push_decimal(&mut s, nodes);
    push_str(&mut s, " nps ");
    push_decimal(&mut s, nps);
    push_str(&mut s, " hashfull ");
    push_decimal(&mut s, hashfull as u64);
    push_str(&mut s, " time ");
    push_decimal(&mut s, millis);
    push_str(&mut s, " pv ");
    let ghost head = s@;
    let mut i: usize = 0;
    while i < pv.len()
        invariant
            i <= pv@.len(),
            s@ == head + line_text(pv@.take(i as int)),
        decreases pv@.len() - i,
    {
        let ghost prev = s@;
        if i > 0 {
            push_char(&mut s, ' ');
        }
        let t = pv[i].to_string();
        push_str(&mut s, t.as_str());
        proof {
            let now = pv@.take(i + 1);
            assert(now.drop_last() == pv@.take(i as int));
            assert(now.last() == pv@[i as int]);
            if i == 0 {
                assert(pv@.take(0) =~= seq![]);
                assert(line_text(pv@.take(0)) =~= seq![]);
            }
        }
        i = i + 1;
    }
    proof {
        assert(pv@.take(pv@.len() as int) == pv@);
    }
    s
}

/// The `info` line for an iteration of `depth` that scored `score` with
/// line `pv`, when `millis` milliseconds have passed.
pub open spec fn report_text(search: Search, depth: u32, score: i32, pv: Seq<Move>, millis: u64) -> Seq<char> {
    info_text(
        depth,
        if search.seldepth > depth as usize { search.seldepth } else { depth as usize },
        score,
        search.nodes,
        (vstd::wrapping::u64_specs::wrapping_mul(search.nodes, 1000) / millis) as u64,
        TranspositionTable::used_count(search.tt.entries@, search.tt.generation, 1000) as usize,
        millis,
        pv,
    )
}

impl Search {
    /// Records an `info` line for the iteration that just finished.
    fn report(&mut self, depth: u32, score: i32, pv: &Vec<Move>)
        requires
            old(self).wf(),
            score > i32::MIN,
        ensures
            final(self).wf(),
            final(self).tt == old(self).tt,
            final(self).pv == old(self).pv,
            final(self).stopped == old(self).stopped,
            final(self).nodes == old(self).nodes,
            final(self).silent == old(self).silent,
            final(self).soft_limit == old(self).soft_limit,
            final(self).hard_limit == old(self).hard_limit,
            final(self).node_limit == old(self).node_limit,
            old(self).silent ==> final(self).info@ == old(self).info@,
            !old(self).silent ==> {
                &&& final(self).info@.len() == old(self).info@.len() + 1
                &&& final(self).info@.drop_last() == old(self).info@
                &&& exists|millis: u64| millis >= 1 && #[trigger] report_text(*old(self), depth, score, pv@, millis)
                    == final(self).info@.last()@
            },
    {
        if self.silent {
            return;
        }
        let us = micros_since(&self.start);
        let ms = us / 1000;
        let millis = if ms < 1 {
            1
        } else {
            ms
        };
        let nps = self.nodes.wrapping_mul(1000) / millis;
        let seldepth = if self.seldepth > depth as usize {
            self.seldepth
        } else {
            depth as usize
        };
        let hf = self.tt.hashfull();
        let line = info_line(depth, seldepth, score, self.nodes, nps, hf, millis, pv);
        assert(line@ == report_text(*old(self), depth, score, pv@, millis));
        self.info.push(line);
        assert(self.info@.drop_last() =~= old(self).info@);
    }

    /// Re-searches with a widening window until the score lands inside it.
    fn aspiration_search(&mut self, pos: &mut Position, depth: u32, previous: i32) -> (r: i32)
        requires
            old(self).wf(),
            old(pos).wf(),
            searchable(old(pos).state(), 0),
            1 <= depth <= 127,
            -score_bound() <= previous <= score_bound(),
        ensures
            final(self).wf(),
            final(self).keeps(old(self)),
            final(pos).wf(),
            final(pos).state() == old(pos).state(),
            final(pos).keys == old(pos).keys,
            -score_bound() <= r <= score_bound(),
            final(self).pv.line(0).len() > 0 ==> legal_move(old(pos).state(), final(self).pv.line(0)[0]),
            old(self).tt.held@.subset_of(final(self).tt.held@),
            old(self).stopped ==> final(self).stopped,
            depth < 4 && !final(self).stopped ==> forall|m: Move| #[trigger] mates(old(pos).state(), m)
                && final(self).tt.never_held(make_state(old(pos).state(), m).hash)
                ==> r >= MATE - 1 && final(self).pv.line(0).len() > 0,
            depth == 1 && !final(self).stopped && mates_or_quiet(old(pos).state())
                && mates_unheld(old(pos).state(), final(self).tt) && (exists|m: Move| #[trigger] mates(old(pos).state(), m))
                ==> r == MATE - 1 && final(self).pv.line(0).len() > 0 && mates(old(pos).state(), final(self).pv.line(0)[0]),
    {
        let ghost s0 = pos.state();
        let mut window: i32 = 25;
        let narrow = depth >= 4 && -MATE_IN_MAX_PLY < previous && previous < MATE_IN_MAX_PLY;
        let mut alpha = if narrow {
            previous - window
        } else {
            -INFINITY
        };
        let mut beta = if narrow {
            previous + window
        } else {
            INFINITY
        };
        loop
            invariant
                self.wf(),
                self.keeps(old(self)),
                pos.wf(),
                pos.state() == old(pos).state(),
                pos.keys == old(pos).keys,
                searchable(old(pos).state(), 0),
                1 <= depth <= 127,
                25 <= window <= 450_000_000,
                -INFINITY <= alpha <= INFINITY,
                -INFINITY <= beta <= INFINITY,
                s0 == old(pos).state(),
                old(self).tt.held@.subset_of(self.tt.held@),
                old(self).stopped ==> self.stopped,
                depth < 4 && (exists|m: Move| #[trigger] mates(s0, m) && self.tt.never_held(make_state(s0, m).hash))
                    ==> alpha == -INFINITY && beta == INFINITY,
            decreases 450_000_000 - window,
        {
            let ghost tt_before = self.tt;
            let score = self.negamax(pos, depth as i32, alpha, beta, 0, true);
            if self.stopped {
                return score;
            }
            proof {
                if depth < 4 && (exists|m: Move| #[trigger] mates(s0, m) && self.tt.never_held(make_state(s0, m).hash)) {
                    let m = choose|m: Move| #[trigger] mates(s0, m) && self.tt.never_held(make_state(s0, m).hash);
                    assert(tt_before.never_held(make_state(s0, m).hash));
                    assert(alpha == -INFINITY && beta == INFINITY);
                    reveal(mates);
                    assert(legal_move(s0, m));
                    assert(score >= MATE - 1);
                    assert(self.pv.line(0).len() > 0);
                }
                if depth == 1 && mates_or_quiet(s0) && mates_unheld(s0, self.tt) && (exists|m: Move| #[trigger] mates(s0, m)) {
                    let m = choose|m: Move| #[trigger] mates(s0, m);
                    assert(self.tt.never_held(make_state(s0, m).hash));
                    assert(tt_before.never_held(make_state(s0, m).hash));
                    assert(alpha == -INFINITY && beta == INFINITY);
                    assert(score == MATE - 1);
                }
            }
            if score <= alpha {
                beta = (alpha + beta) / 2;
                alpha = if score - window > -INFINITY {
                    score - window
                } else {
                    -INFINITY
                };
            } else if score >= beta {
                beta = if score + window < INFINITY {
                    score + window
                } else {
                    INFINITY
                };
            } else {
                return score;
            }
            if window > 300_000_000 {
                return score;
            }
            window = window + window / 2;
        }
    }
}

impl Search {
    fn clear_stop(&self) {
        self.stop.store(false, Ordering::Relaxed);
    }

    /// Whether the soft limit says not to start another iteration: 60% of it
    /// has passed.
    fn soft_limit_passed(&self) -> (r: bool)
        ensures
            self.soft_limit is None ==> !r,
            self.soft_limit == Some(0u64) ==> r,
    {
        match self.soft_limit {
            Some(soft) => {
                let us = micros_since(&self.start);
                (us as u128) * 5 >= (soft as u128) * 3000
            },
            None => false,
        }
    }

    /// Prepares the searcher for a new search under `limits`.
    fn begin(&mut self, side: Color, limits: &SearchLimits)
        requires
            old(self).wf(),
            !limits.infinite && limits.movetime is None && limits.time[side.spec_index() as int] is Some
                ==> limits.soft_target(side) <= u64::MAX,
        ensures
            final(self).wf(),
            final(self).silent == old(self).silent,
            final(self).stopped == false,
            final(self).nodes == 0,
            final(self).info@.len() == 0,
    {
        let (soft, hard) = limits.budget(side);
        self.start = clock_now();
        self.soft_limit = soft;
        self.hard_limit = hard;
        self.node_limit = limits.nodes;
        self.nodes = 0;
        self.stopped = false;
        self.info = Vec::new();
        self.clear_stop();
        self.tt.new_generation();
    }

    /// Runs iterative deepening and returns the best move found: a legal move
    /// of the position, or `Move::none()` when there was none to find.
    ///
    /// A mate in one is found by the first iteration, which reports it as a
    /// mate score and ends the search, unless the search was stopped or the
    /// table stored an entry under the mated position's key at some point;
    /// mated positions are never stored, so that takes a key collision.
    pub fn think(&mut self, pos: &mut Position, limits: &SearchLimits) -> (r: SearchResult)
        requires
            old(self).wf(),
            old(pos).wf(),
            searchable(old(pos).state(), 0),
            !limits.infinite && limits.movetime is None && limits.time[old(pos).side_to_move.spec_index() as int] is Some
                ==> limits.soft_target(old(pos).side_to_move) <= u64::MAX,
        ensures
            final(self).wf(),
            final(self).silent == old(self).silent,
            final(pos).wf(),
            final(pos).state() == old(pos).state(),
            final(pos).keys == old(pos).keys,
            r.best_move != Move(0) ==> legal_move(old(pos).state(), r.best_move),
            r.best_move == Move(0) <==> forall|mv: Move| !#[trigger] legal_move(old(pos).state(), mv),
            r.depth <= 127,
            r.depth <= limits.depth,
            r.best_move == Move(0) ==> r.score == 0 && r.depth == 0,
            !limits.infinite && (forall|m1: Move, m2: Move| legal_move(old(pos).state(), m1) && legal_move(
                old(pos).state(),
                m2,
            ) ==> m1 == m2) ==> r.score == 0 && r.depth == 0,
            -score_bound() <= r.score <= score_bound(),
            r.nodes == final(self).nodes,
            limits.depth == 0 ==> r.nodes == 0,
            limits.depth >= 1 && !final(self).stopped && (limits.infinite || !(forall|m1: Move, m2: Move|
                legal_move(old(pos).state(), m1) && legal_move(old(pos).state(), m2) ==> m1 == m2))
                && (exists|m: Move| #[trigger] mates(old(pos).state(), m)
                && final(self).tt.never_held(make_state(old(pos).state(), m).hash))
                ==> r.depth == 1 && r.score >= MATE - 1,
            limits.depth >= 1 && !final(self).stopped && (limits.infinite || !(forall|m1: Move, m2: Move|
                legal_move(old(pos).state(), m1) && legal_move(old(pos).state(), m2) ==> m1 == m2))
                && mates_or_quiet(old(pos).state()) && mates_unheld(old(pos).state(), final(self).tt)
                && (exists|m: Move| #[trigger] mates(old(pos).state(), m))
                ==> r.depth == 1 && r.score == MATE - 1 && mates(old(pos).state(), r.best_move),
    {
        let ghost s0 = pos.state();
        self.begin(pos.side_to_move, limits);

        // Fall back to any legal move so we never emit an illegal bestmove.
        let legal = crate::movegen::generate_legal_moves(pos);
        let mut result = SearchResult {
            best_move: if legal.len() > 0 {
                legal[0]
            } else {
                Move::none()
            },
            ponder_move: None,
            score: 0,
            depth: 0,
            nodes: 0,
        };
        proof {
            crate::movegen::lemma_none_not_pseudo(s0);
            if legal@.len() > 0 {
                assert(legal_move(s0, legal@[0]));
            } else {
                assert forall|mv: Move| !#[trigger] legal_move(s0, mv) by {
                    if legal_move(s0, mv) {
                        assert(legal@.contains(mv));
                    }
                }
            }
        }
        proof {
            if legal@.len() >= 2 {
                assert(legal_move(s0, legal@[0]) && legal_move(s0, legal@[1]));
                assert(legal@[0] != legal@[1]);
            }
        }
        proof {
            if legal@.len() == 0 {
                lemma_no_mates(s0);
            }
            if legal@.len() == 1 {
                assert forall|m1: Move, m2: Move| legal_move(s0, m1) && legal_move(s0, m2) implies m1 == m2 by {
                    assert(legal@.contains(m1));
                    assert(legal@.contains(m2));
                }
            }
        }
        if legal.len() <= 1 {
            // Still report something sensible, but don't burn the clock.
            if legal.len() == 1 {
                let mv = legal[0];
                result.best_move = mv;
                if !limits.infinite {
                    let e = eval::evaluate(pos);
                    let line = vec![mv];
                    self.report(1, e, &line);
                    return result;
                }
            } else {
                return result;
            }
        }

        let mut score: i32 = 0;
        let max_depth: u32 = if limits.depth < 127 {
            limits.depth
        } else {
            127
        };
        let mut depth: u32 = 1;
        while depth <= max_depth
            invariant
                self.wf(),
                self.silent == old(self).silent,
                pos.wf(),
                pos.state() == s0,
                s0 == old(pos).state(),
                pos.keys == old(pos).keys,
                searchable(s0, 0),
                1 <= depth <= 128,
                max_depth <= 127,
                -score_bound() <= score <= score_bound(),
                result.best_move != Move(0),
                legal_move(s0, result.best_move),
                result.depth <= 127,
                result.depth <= limits.depth,
                max_depth <= limits.depth,
                max_depth == 0 ==> self.nodes == 0 && result.nodes == 0,
                max_depth == 0 <==> limits.depth == 0,
                -score_bound() <= result.score <= score_bound(),
                depth >= 2 ==> !(exists|m: Move| #[trigger] mates(s0, m) && self.tt.never_held(make_state(s0, m).hash)),
            ensures
                self.wf(),
                self.silent == old(self).silent,
                pos.wf(),
                pos.state() == s0,
                pos.keys == old(pos).keys,
                max_depth <= 127,
                result.best_move != Move(0),
                legal_move(s0, result.best_move),
                result.depth <= 127,
                result.depth <= limits.depth,
                max_depth == 0 ==> self.nodes == 0,
                -score_bound() <= result.score <= score_bound(),
                max_depth >= 1 && !self.stopped && (exists|m: Move| #[trigger] mates(s0, m)
                    && self.tt.never_held(make_state(s0, m).hash)) ==> result.depth == 1 && result.score >= MATE - 1,
                max_depth >= 1 && !self.stopped && mates_or_quiet(s0) && mates_unheld(s0, self.tt)
                    && (exists|m: Move| #[trigger] mates(s0, m)) ==> result.score == MATE - 1 && mates(s0, result.best_move),
            decreases 128 - depth,
        {
            self.seldepth = 0;
            let ghost tt_before = self.tt;
            let iteration_score = self.aspiration_search(pos, depth, score);
            if self.stopped {
                break;
            }
            let ghost unheld_mate = exists|m: Move| #[trigger] mates(s0, m) && self.tt.never_held(make_state(s0, m).hash);
            proof {
                if depth >= 2 && unheld_mate {
                    let m = choose|m: Move| #[trigger] mates(s0, m) && self.tt.never_held(make_state(s0, m).hash);
                    assert(tt_before.never_held(make_state(s0, m).hash));
                }
                if depth == 1 && unheld_mate {
                    let m = choose|m: Move| #[trigger] mates(s0, m) && self.tt.never_held(make_state(s0, m).hash);
                    assert(iteration_score >= MATE - 1);
                    assert(self.pv.line(0).len() > 0);
                }
                if depth == 1 && mates_or_quiet(s0) && mates_unheld(s0, self.tt) && (exists|m: Move| #[trigger] mates(s0, m)) {
                    let m = choose|m: Move| #[trigger] mates(s0, m);
                    assert(self.tt.never_held(make_state(s0, m).hash));
                    assert(unheld_mate);
                    assert(iteration_score == MATE - 1);
                    assert(mates(s0, self.pv.line(0)[0]));
                }
            }
            score = iteration_score;
            let line = self.pv.line_vec(0);
            proof {
                crate::movegen::lemma_none_not_pseudo(s0);
            }
            if line.len() > 0 {
                result.best_move = line[0];
                result.ponder_move = if line.len() > 1 {
                    Some(line[1])
                } else {
                    None
                };
                result.score = score;
                result.depth = depth;
            }
            self.report(depth, score, &line);
            let magnitude = if score < 0 {
                -score
            } else {
                score
            };
            // Mate found: deeper search cannot improve on it.
            if magnitude >= MATE_IN_MAX_PLY && depth as i32 >= MATE - magnitude {
                break;
            }
            // Starting another iteration we cannot finish just wastes time.
            if self.soft_limit_passed() {
                break;
            }
            depth = depth + 1;
        }
        result.nodes = self.nodes;
        result
    }
}

/// The positions the benchmark searches.
fn bench_fen(i: usize) -> (fen: &'static str)
    ensures
        fen@.len() <= 100,
{
    match i {
        0 => {
            proof {
                reveal_strlit("rnbqkbnr/pppppppp/8/8/8/8/PPPPPPPP/RNBQKBNR w KQkq - 0 1");
            }
            "rnbqkbnr/pppppppp/8/8/8/8/PPPPPPPP/RNBQKBNR w KQkq - 0 1"
        },
        1 => {
            proof {
                reveal_strlit("r3k2r/p1ppqpb1/bn2pnp1/3PN3/1p2P3/2N2Q1p/PPPBBPPP/R3K2R w KQkq - 0 1");
            }
            "r3k2r/p1ppqpb1/bn2pnp1/3PN3/1p2P3/2N2Q1p/PPPBBPPP/R3K2R w KQkq - 0 1"
        },
        2 => {
            proof {
                reveal_strlit("8/2p5/3p4/KP5r/1R3p1k/8/4P1P1/8 w - - 0 1");
            }
            "8/2p5/3p4/KP5r/1R3p1k/8/4P1P1/8 w - - 0 1"
        },
        3 => {
            proof {
                reveal_strlit("r3k2r/Pppp1ppp/1b3nbN/nP6/BBP1P3/q4N2/Pp1P2PP/R2Q1RK1 w kq - 0 1");
            }
            "r3k2r/Pppp1ppp/1b3nbN/nP6/BBP1P3/q4N2/Pp1P2PP/R2Q1RK1 w kq - 0 1"
        },
        4 => {
            proof {
                reveal_strlit("rnbq1k1r/pp1Pbppp/2p5/8/2B5/8/PPP1NnPP/RNBQK2R w KQ - 1 8");
            }
            "rnbq1k1r/pp1Pbppp/2p5/8/2B5/8/PPP1NnPP/RNBQK2R w KQ - 1 8"
        },
        5 => {
            proof {
                reveal_strlit("r4rk1/1pp1qppp/p1np1n2/2b1p1B1/2B1P1b1/P1NP1N2/1PP1QPPP/R4RK1 w - - 0 10");
            }
            "r4rk1/1pp1qppp/p1np1n2/2b1p1B1/2B1P1b1/P1NP1N2/1PP1QPPP/R4RK1 w - - 0 10"
        },
        6 => {
            proof {
                reveal_strlit("4rrk1/pp1n1pp1/3bp2p/3p3P/3P1P2/2N1P3/PPQ2P2/2KR2R1 w - - 0 22");
            }
            "4rrk1/pp1n1pp1/3bp2p/3p3P/3P1P2/2N1P3/PPQ2P2/2KR2R1 w - - 0 22"
        },
        _ => {
            proof {
                reveal_strlit("8/8/8/2k5/8/2K1R3/8/8 w - - 0 1");
            }
            "8/8/8/2k5/8/2K1R3/8/8 w - - 0 1"
        },
    }
}

/// Fixed-depth search over a set of positions; a reproducible node-count
/// baseline for comparing engine versions. Returns the nodes searched.
pub fn bench(depth: u32) -> (nodes: u64)
    ensures
        depth == 0 ==> nodes == 0,
{
    crate::init();
    let stop = Arc::new(AtomicBool::new(false));
    let mut search = Search::new(64, stop);
    search.silent = true;
    let mut nodes: u64 = 0;
    let mut i: usize = 0;
    while i < 8
        invariant
            search.wf(),
            i <= 8,
            depth == 0 ==> nodes == 0,
        decreases 8 - i,
    {
        match Position::from_fen(bench_fen(i)) {
            Ok(mut pos) => {
                if crate::movegen::is_sane(&pos) && pos.halfmove_clock < 0xffff - MAX_PLY as u16
                    && pos.fullmove_number < 0xffff - MAX_PLY as u16 {
                    search.reset();
                    let result = search.think(&mut pos, &SearchLimits::fixed_depth(depth));
                    nodes = nodes.wrapping_add(result.nodes);
                }
            },
            Err(_) => {},
        }
        i = i + 1;
    }
    nodes
}

/// Whether `pos` can be searched from: play can go on from it and both
/// clocks have room for the deepest line the search looks at.
pub fn can_search(pos: &Position) -> (r: bool)
    requires
        pos.wf(),
    ensures
        r == searchable(pos.state(), 0),
{
    crate::movegen::is_sane(pos) && pos.halfmove_clock < 0xffff - MAX_PLY as u16
        && pos.fullmove_number < 0xffff - MAX_PLY as u16
}

impl Search {
    /// Gives the transposition table `megabytes` of memory, emptied.
    pub fn resize_hash(&mut self, megabytes: usize)
        requires
            old(self).wf(),
            megabytes <= usize::MAX / 1048576,
        ensures
            final(self).wf(),
            final(self).silent == old(self).silent,
            final(self).tt.entries@.len() == crate::tt::table_len(megabytes as nat, vstd::layout::size_of::<crate::tt::Entry>()),
            final(self).tt.generation == 0,
            forall|i: int| 0 <= i < final(self).tt.entries@.len() ==> #[trigger] final(self).tt.entries@[i] == crate::tt::empty_entry(),
    {
        self.tt.resize(megabytes);
    }

    /// Empties the transposition table.
    pub fn clear_hash(&mut self)
        requires
            old(self).wf(),
        ensures
            final(self).wf(),
            final(self).silent == old(self).silent,
            final(self).tt.entries@.len() == old(self).tt.entries@.len(),
            forall|i: int| 0 <= i < final(self).tt.entries@.len() ==> #[trigger] final(self).tt.entries@[i] == crate::tt::empty_entry(),
    {
        self.tt.clear();
    }
}

} // verus!
