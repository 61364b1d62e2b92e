//! Zobrist hashing keys, generated from a fixed seed.
use vstd::prelude::*;
use crate::types::{Color, Piece, Square};

verus! {

pub const SEED: u64 = 0x9E37_79B9_7F4A_7C15;
pub const MULTIPLIER: u64 = 0x2545_F491_4F6C_DD1D;

/// Number of keys drawn: 12 x 64 piece keys, 16 castling, 8 en passant, 1 side.
pub const KEY_COUNT: usize = 793;

/// One xorshift64 step.
pub open spec fn xorshift(s: u64) -> u64 {
    let a = s ^ (s >> 12u64);
    let b = a ^ (a << 25u64);
    b ^ (b >> 27u64)
}

/// The generator's state after `n` steps from the seed.
#[verifier::opaque]
pub open spec fn prng_state(n: nat) -> u64
    decreases n,
{
    if n == 0 {
        SEED
    } else {
        xorshift(prng_state((n - 1) as nat))
    }
}

/// The `i`-th number drawn (xorshift64*), counting from 0.
pub open spec fn key(i: nat) -> u64 {
    vstd::wrapping::u64_specs::wrapping_mul(prng_state(i + 1), MULTIPLIER)
}

pub open spec fn piece_key_index(p: Piece, sq: int) -> nat {
    (p.spec_index() * 64 + sq) as nat
}

/// The key for a piece on a square.
pub open spec fn piece_key(p: Piece, sq: int) -> u64 {
    key(piece_key_index(p, sq))
}

pub open spec fn castling_key(rights: int) -> u64 {
    key((768 + rights) as nat)
}

pub open spec fn en_passant_key(file: int) -> u64 {
    key((784 + file) as nat)
}

pub open spec fn side_key_spec() -> u64 {
    key(792)
}

pub open spec fn side_key_of(c: Color) -> u64 {
    match c {
        Color::White => 0,
        Color::Black => side_key_spec(),
    }
}

pub struct Keys {
    pub pieces: Vec<u64>,
    pub castling: Vec<u64>,
    pub en_passant: Vec<u64>,
    pub side_to_move: u64,
}

impl Keys {
    /// Every key is the one the seeded generator draws for its slot.
    pub open spec fn wf(&self) -> bool {
        &&& self.pieces@.len() == 768
        &&& self.castling@.len() == 16
        &&& self.en_passant@.len() == 8
        &&& forall|i: int| 0 <= i < 768 ==> #[trigger] self.pieces@[i] == key(i as nat)
        &&& forall|i: int| 0 <= i < 16 ==> #[trigger] self.castling@[i] == key((768 + i) as nat)
        &&& forall|i: int| 0 <= i < 8 ==> #[trigger] self.en_passant@[i] == key((784 + i) as nat)
        &&& self.side_to_move == key(792)
    }

    /// Draws all keys from the fixed seed, in the order pieces, castling,
    /// en passant, side to move.
    pub fn new() -> (k: Keys)
        ensures
            k.wf(),
    {
        let mut state: u64 = SEED;
        let mut pieces: Vec<u64> = Vec::new();
        let mut castling: Vec<u64> = Vec::new();
        let mut en_passant: Vec<u64> = Vec::new();
        let mut side: u64 = 0;
        let mut i: usize = 0;
        proof {
            reveal(prng_state);
        }
        while i < KEY_COUNT
            invariant
                i <= KEY_COUNT,
                state == prng_state(i as nat),
                pieces@.len() == if i < 768 { i as int } else { 768 },
                castling@.len() == if i < 768 { 0 } else if i < 784 { i - 768 } else { 16 },
                en_passant@.len() == if i < 784 { 0 } else if i < 792 { i - 784 } else { 8 },
                forall|j: int| 0 <= j < pieces@.len() ==> #[trigger] pieces@[j] == key(j as nat),
                forall|j: int|
                    0 <= j < castling@.len() ==> #[trigger] castling@[j] == key((768 + j) as nat),
                forall|j: int|
                    0 <= j < en_passant@.len() ==> #[trigger] en_passant@[j] == key(
                        (784 + j) as nat,
                    ),
                i == KEY_COUNT ==> side == key(792),
            decreases KEY_COUNT - i,
        {
            state ^= state >> 12;
            state ^= state << 25;
            state ^= state >> 27;
            proof {
                reveal(prng_state);
            }
            let v = state.wrapping_mul(MULTIPLIER);
            if i < 768 {
                pieces.push(v);
            } else if i < 784 {
                castling.push(v);
            } else if i < 792 {
                en_passant.push(v);
            } else {
                side = v;
            }
            i = i + 1;
        }
        Keys { pieces, castling, en_passant, side_to_move: side }
    }
}

pub fn piece(keys: &Keys, p: Piece, sq: Square) -> (k: u64)
    requires
        keys.wf(),
        sq < 64,
    ensures
        k == piece_key(p, sq as int),
{
    keys.pieces[p.index() * 64 + sq as usize]
}

pub fn castling(keys: &Keys, rights: u8) -> (k: u64)
    requires
        keys.wf(),
        rights < 16,
    ensures
        k == castling_key(rights as int),
{
    keys.castling[rights as usize]
}

/// Keyed by file only; the rank is implied by the side to move.
pub fn en_passant(keys: &Keys, file: u8) -> (k: u64)
    requires
        keys.wf(),
        file < 8,
    ensures
        k == en_passant_key(file as int),
{
    keys.en_passant[file as usize]
}

/// Mixed in when it is black's turn.
pub fn side_to_move(keys: &Keys) -> (k: u64)
    requires
        keys.wf(),
    ensures
        k == side_key_spec(),
{
    keys.side_to_move
}

pub fn side_key(keys: &Keys, color: Color) -> (k: u64)
    requires
        keys.wf(),
    ensures
        k == side_key_of(color),
{
    match color {
        Color::White => 0,
        Color::Black => side_to_move(keys),
    }
}

impl Clone for Keys {
    fn clone(&self) -> (r: Self)
        ensures
            r.pieces@ == self.pieces@,
            r.castling@ == self.castling@,
            r.en_passant@ == self.en_passant@,
            r.side_to_move == self.side_to_move,
    {
        Keys {
            pieces: crate::text::copy_vec(&self.pieces),
            castling: crate::text::copy_vec(&self.castling),
            en_passant: crate::text::copy_vec(&self.en_passant),
            side_to_move: self.side_to_move,
        }
    }
}

} // verus!
