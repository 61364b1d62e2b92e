//! Board state: piece placement, FEN, and make/unmake with incremental hashing.
use vstd::prelude::*;
use crate::attacks::{
    self, pawn_attack_rel, knight_rel, king_rel, rook_attack_rel, bishop_attack_rel, lemma_rook_sym,
    lemma_bishop_sym,
};
use crate::bitboard::{
    Bitboard, member, bb, lsb, popcount, pop, lemma_has_or, lemma_has_and, lemma_has_not,
    lemma_has_xor, lemma_has_zero, lemma_bits_ext, lemma_zero_iff,
};
use crate::types::{
    Color, Piece, PieceType, Move, Square, move_flags, square_of, file_of, rank_of,
    WHITE_KING_SIDE, WHITE_QUEEN_SIDE, BLACK_KING_SIDE, BLACK_QUEEN_SIDE,
};
use crate::zobrist::{
    self, Keys, piece_key, castling_key, en_passant_key, side_key_of, side_key_spec,
};

verus! {

/// Everything make_move destroys and unmake_move must restore.
#[derive(Clone, Copy)]
pub struct StateInfo {
    pub mv: Move,
    pub captured: Option<Piece>,
    pub castling: u8,
    pub en_passant: Option<Square>,
    pub halfmove_clock: u16,
    pub hash: u64,
}

/// The whole observable state of a position.
pub struct PosState {
    pub board: Seq<Option<Piece>>,
    pub side: Color,
    pub castling: u8,
    pub en_passant: Option<Square>,
    pub halfmove: u16,
    pub fullmove: u16,
    pub hash: u64,
    pub history: Seq<StateInfo>,
    pub repetitions: Seq<u64>,
}

/// The key a square contributes to the hash.
pub open spec fn sq_key(x: Option<Piece>, s: int) -> u64 {
    match x {
        Some(p) => piece_key(p, s),
        None => 0,
    }
}

/// XOR of the keys of the pieces on the first `n` squares.
pub open spec fn board_hash(b: Seq<Option<Piece>>, n: int) -> u64
    decreases n,
{
    if n <= 0 {
        0
    } else {
        board_hash(b, n - 1) ^ sq_key(b[n - 1], n - 1)
    }
}

pub open spec fn ep_key(ep: Option<Square>) -> u64 {
    match ep {
        Some(s) => en_passant_key((s % 8) as int),
        None => 0,
    }
}

/// The Zobrist hash of a placement and the state that travels with it.
pub open spec fn zobrist_of(
    b: Seq<Option<Piece>>,
    castling: u8,
    side: Color,
    ep: Option<Square>,
) -> u64 {
    board_hash(b, 64) ^ castling_key(castling as int) ^ side_key_of(side) ^ ep_key(ep)
}

pub open spec fn state_zobrist(s: PosState) -> u64 {
    zobrist_of(s.board, s.castling, s.side, s.en_passant)
}

pub open spec fn holds_type(x: Option<Piece>, i: int) -> bool {
    match x {
        Some(p) => p.piece_type.spec_index() == i,
        None => false,
    }
}

pub open spec fn holds_color(x: Option<Piece>, i: int) -> bool {
    match x {
        Some(p) => p.color.spec_index() == i,
        None => false,
    }
}

/// Per-square mask of castling rights that survive a piece touching it.
pub open spec fn spec_castle_mask(sq: Square) -> u8 {
    if sq == 0 {
        0xfd
    } else if sq == 4 {
        0xfc
    } else if sq == 7 {
        0xfe
    } else if sq == 56 {
        0xf7
    } else if sq == 60 {
        0xf3
    } else if sq == 63 {
        0xfb
    } else {
        0xff
    }
}

#[verifier::when_used_as_spec(spec_castle_mask)]
pub fn castle_mask(sq: Square) -> (m: u8)
    ensures
        m == spec_castle_mask(sq),
{
    if sq == 0 {
        0xfd
    } else if sq == 4 {
        0xfc
    } else if sq == 7 {
        0xfe
    } else if sq == 56 {
        0xf7
    } else if sq == 60 {
        0xf3
    } else if sq == 63 {
        0xfb
    } else {
        0xff
    }
}

/// Moves whatever stands on `from` to `to`, leaving `from` empty.
pub open spec fn bmove(b: Seq<Option<Piece>>, from: int, to: int) -> Seq<Option<Piece>> {
    b.update(to, b[from]).update(from, None)
}

/// The square a pawn captured en passant stands on.
pub open spec fn ep_capture_square(us: Color, to: Square) -> int {
    if us == Color::White {
        to - 8
    } else {
        to + 8
    }
}

/// What a move takes: the piece on the target square, or the pawn taken en passant.
pub open spec fn captured_by(b: Seq<Option<Piece>>, us: Color, mv: Move) -> Option<Piece> {
    if mv.spec_is_en_passant() {
        Some(Piece { color: us.spec_flip(), piece_type: PieceType::Pawn })
    } else {
        b[mv.spec_to() as int]
    }
}

/// The placement after `us` plays `mv`.
pub open spec fn moved_board(b: Seq<Option<Piece>>, us: Color, mv: Move) -> Seq<Option<Piece>> {
    let from = mv.spec_from() as int;
    let to = mv.spec_to() as int;
    let b1 = if mv.spec_is_en_passant() {
        b.update(ep_capture_square(us, mv.spec_to()), None)
    } else {
        b.update(to, None)
    };
    let b2 = bmove(b1, from, to);
    let b3 = match mv.spec_promotion_piece() {
        Some(pt) => b2.update(to, Some(Piece { color: us, piece_type: pt })),
        None => b2,
    };
    if mv.spec_flags() == 2 {
        bmove(b3, to + 1, to - 1)
    } else if mv.spec_flags() == 3 {
        bmove(b3, to - 2, to + 1)
    } else {
        b3
    }
}

/// The en passant square a move leaves behind.
pub open spec fn ep_after(us: Color, mv: Move) -> Option<Square> {
    if mv.spec_flags() == 1 {
        Some(
            (if us == Color::White {
                mv.spec_to() - 8
            } else {
                mv.spec_to() + 8
            }) as u8,
        )
    } else {
        None
    }
}

/// The state after `mv` is made from `s`.
pub open spec fn make_state(s: PosState, mv: Move) -> PosState {
    let us = s.side;
    let moving = s.board[mv.spec_from() as int];
    let captured = captured_by(s.board, us, mv);
    let board = moved_board(s.board, us, mv);
    let castling = s.castling & spec_castle_mask(mv.spec_from()) & spec_castle_mask(mv.spec_to());
    let en_passant = ep_after(us, mv);
    let side = us.spec_flip();
    PosState {
        board,
        side,
        castling,
        en_passant,
        halfmove: if (moving matches Some(m) && m.piece_type == PieceType::Pawn) || captured is Some {
            0
        } else {
            (s.halfmove + 1) as u16
        },
        fullmove: if side == Color::White {
            (s.fullmove + 1) as u16
        } else {
            s.fullmove
        },
        hash: s.hash ^ state_zobrist(s) ^ zobrist_of(board, castling, side, en_passant),
        history: s.history.push(
            StateInfo {
                mv,
                captured,
                castling: s.castling,
                en_passant: s.en_passant,
                halfmove_clock: s.halfmove,
                hash: s.hash,
            },
        ),
        repetitions: s.repetitions.push(s.hash),
    }
}

/// A sum of non-negative terms with two distinct ones among them is at least 2.
proof fn lemma_sum_two(f: spec_fn(int) -> int, n: int, i: int, j: int)
    requires
        forall|t: int| 0 <= #[trigger] f(t) <= 1,
        0 <= i < n,
        0 <= j < n,
        i != j,
        f(i) == 1,
        f(j) == 1,
    ensures
        crate::symmetry::sum_to(f, n) >= 2,
    decreases n,
{
    if n - 1 != i && n - 1 != j {
        lemma_sum_two(f, n - 1, i, j);
    } else {
        let k = if n - 1 == i { j } else { i };
        lemma_sum_one(f, n - 1, k);
        assert(f(n - 1) == 1);
    }
}

proof fn lemma_sum_one(f: spec_fn(int) -> int, n: int, k: int)
    requires
        forall|t: int| 0 <= #[trigger] f(t) <= 1,
        0 <= k < n,
        f(k) == 1,
    ensures
        crate::symmetry::sum_to(f, n) >= 1,
    decreases n,
{
    if n - 1 == k {
        lemma_sum_nonneg(f, n - 1);
    } else {
        lemma_sum_one(f, n - 1, k);
        assert(f(n - 1) >= 0);
    }
}

proof fn lemma_sum_nonneg(f: spec_fn(int) -> int, n: int)
    requires
        forall|t: int| 0 <= #[trigger] f(t) <= 1,
    ensures
        crate::symmetry::sum_to(f, n) >= 0,
    decreases n,
{
    if n > 0 {
        lemma_sum_nonneg(f, n - 1);
        assert(f(n - 1) >= 0);
    }
}

/// A sum of terms 0 or 1 with at most one term 1 is at most 1.
proof fn lemma_sum_at_most_one(f: spec_fn(int) -> int, n: int)
    requires
        forall|t: int| 0 <= #[trigger] f(t) <= 1,
        forall|i: int, j: int| 0 <= i < n && 0 <= j < n && #[trigger] f(i) == 1 && #[trigger] f(j) == 1 ==> i == j,
    ensures
        crate::symmetry::sum_to(f, n) <= 1,
        (forall|i: int| 0 <= i < n ==> #[trigger] f(i) == 0) ==> crate::symmetry::sum_to(f, n) == 0,
    decreases n,
{
    if n > 0 {
        lemma_sum_at_most_one(f, n - 1);
        if f(n - 1) == 1 {
            assert forall|i: int| 0 <= i < n - 1 implies #[trigger] f(i) == 0 by {
                assert(f(i) >= 0 && f(i) <= 1);
                if f(i) == 1 {
                    assert(i == n - 1);
                }
            }
        }
        assert(f(n - 1) >= 0 && f(n - 1) <= 1);
    }
}

/// The fifty-move clock after a move: a capture (a piece on the target
/// square, or en passant) or a pawn move resets it; any other move adds one.
pub proof fn lemma_halfmove_after_move(s: PosState, mv: Move)
    ensures
        s.board[mv.spec_to() as int] is Some ==> make_state(s, mv).halfmove == 0,
        mv.spec_is_en_passant() ==> make_state(s, mv).halfmove == 0,
        s.board[mv.spec_from() as int] is Some && s.board[mv.spec_from() as int]->0.piece_type == PieceType::Pawn
            ==> make_state(s, mv).halfmove == 0,
        !(s.board[mv.spec_from() as int] is Some && s.board[mv.spec_from() as int]->0.piece_type == PieceType::Pawn)
            && s.board[mv.spec_to() as int] is None && !mv.spec_is_en_passant() && s.halfmove < 0xffff
            ==> make_state(s, mv).halfmove == s.halfmove + 1,
{
}

/// The placement after the last recorded move is taken back; `us` made it.
pub open spec fn unmoved_board(b: Seq<Option<Piece>>, st: StateInfo, us: Color) -> Seq<
    Option<Piece>,
> {
    let mv = st.mv;
    let from = mv.spec_from() as int;
    let to = mv.spec_to() as int;
    let b1 = if mv.spec_flags() == 2 {
        bmove(b, to - 1, to + 1)
    } else if mv.spec_flags() == 3 {
        bmove(b, to + 1, to - 2)
    } else {
        b
    };
    let b2 = if mv.spec_is_promotion() {
        b1.update(to, Some(Piece { color: us, piece_type: PieceType::Pawn }))
    } else {
        b1
    };
    let b3 = bmove(b2, to, from);
    match st.captured {
        Some(c) => b3.update(
            if mv.spec_is_en_passant() {
                ep_capture_square(us, mv.spec_to())
            } else {
                to
            },
            Some(c),
        ),
        None => b3,
    }
}

/// The state after the last recorded move of `s` is taken back.
pub open spec fn unmake_state(s: PosState) -> PosState {
    let st = s.history.last();
    let them = s.side;
    let us = them.spec_flip();
    PosState {
        board: unmoved_board(s.board, st, us),
        side: us,
        castling: st.castling,
        en_passant: st.en_passant,
        halfmove: st.halfmove_clock,
        fullmove: if them == Color::White {
            (s.fullmove - 1) as u16
        } else {
            s.fullmove
        },
        hash: st.hash,
        history: s.history.drop_last(),
        repetitions: s.repetitions.drop_last(),
    }
}

/// Squares a move's castling rook travels between, for a king-side castle.
pub open spec fn move_is_applicable(s: PosState, mv: Move) -> bool {
    let b = s.board;
    let us = s.side;
    let from = mv.spec_from() as int;
    let to = mv.spec_to() as int;
    &&& from != to
    &&& b[from] matches Some(m) && m.color == us
    &&& (b[to] matches Some(c) ==> c.color != us)
    &&& s.halfmove < 0xffff
    &&& s.fullmove < 0xffff
    &&& (mv.spec_is_promotion() ==> (b[from] matches Some(m) && m.piece_type == PieceType::Pawn))
    &&& (mv.spec_is_en_passant() ==> {
        let cap = ep_capture_square(us, mv.spec_to());
        &&& 0 <= cap < 64
        &&& cap != from
        &&& b[cap] == Some(Piece { color: us.spec_flip(), piece_type: PieceType::Pawn })
        &&& b[to] is None
    })
    &&& (mv.spec_flags() == 1 ==> if us == Color::White {
        to >= 8
    } else {
        to < 56
    })
    &&& (mv.spec_flags() == 2 ==> {
        &&& 1 <= to && to + 1 < 64
        &&& to + 1 != from && to - 1 != from
        &&& b[to] is None
        &&& b[to + 1] is Some
        &&& b[to - 1] is None
    })
    &&& (mv.spec_flags() == 3 ==> {
        &&& 2 <= to && to + 1 < 64
        &&& to + 1 != from && to - 2 != from
        &&& b[to] is None
        &&& b[to - 2] is Some
        &&& b[to + 1] is None
    })
}

/// The last recorded move can be taken back from `s`.
pub open spec fn can_unmake_state(s: PosState) -> bool {
    let st = s.history.last();
    let mv = st.mv;
    let us = s.side.spec_flip();
    let from = mv.spec_from() as int;
    let to = mv.spec_to() as int;
    let b = s.board;
    let b1 = if mv.spec_flags() == 2 {
        bmove(b, to - 1, to + 1)
    } else if mv.spec_flags() == 3 {
        bmove(b, to + 1, to - 2)
    } else {
        b
    };
    let b2 = if mv.spec_is_promotion() {
        b1.update(to, Some(Piece { color: us, piece_type: PieceType::Pawn }))
    } else {
        b1
    };
    let b3 = bmove(b2, to, from);
    &&& s.history.len() > 0
    &&& s.repetitions.len() == s.history.len()
    &&& (s.side == Color::White ==> s.fullmove >= 1)
    &&& from != to
    &&& (mv.spec_flags() == 2 ==> 1 <= to && to + 1 < 64 && to - 1 != to + 1 && b[to - 1] is Some
        && b[to + 1] is None && to + 1 != from && to - 1 != from)
    &&& (mv.spec_flags() == 3 ==> 2 <= to && to + 1 < 64 && b[to + 1] is Some && b[to - 2] is None
        && to + 1 != from && to - 2 != from)
    &&& b1[to] is Some
    &&& b2[from] is None
    &&& (st.captured is Some ==> {
        let cap = if mv.spec_is_en_passant() {
            ep_capture_square(us, mv.spec_to())
        } else {
            to
        };
        0 <= cap < 64 && b3[cap] is None
    })
    &&& st.castling < 16
    &&& (st.en_passant matches Some(e) ==> e < 64)
}


pub proof fn lemma_xor_basics(a: u64, b: u64)
    by (bit_vector)
    ensures
        a ^ 0 == a,
        0 ^ a == a,
        a ^ a == 0,
        a ^ b == b ^ a,
{
}

proof fn lemma_bh_prefix(b: Seq<Option<Piece>>, s: int, x: Option<Piece>, n: int)
    requires
        0 <= s < b.len(),
        s >= n,
    ensures
        board_hash(b.update(s, x), n) == board_hash(b, n),
    decreases n,
{
    if n > 0 {
        lemma_bh_prefix(b, s, x, n - 1);
    }
}

proof fn lemma_bh_update(b: Seq<Option<Piece>>, s: int, x: Option<Piece>, n: int)
    requires
        0 <= s < n <= b.len(),
    ensures
        board_hash(b.update(s, x), n) == board_hash(b, n) ^ sq_key(b[s], s) ^ sq_key(x, s),
    decreases n,
{
    let b2 = b.update(s, x);
    if s == n - 1 {
        lemma_bh_prefix(b, s, x, n - 1);
        let h = board_hash(b, n - 1);
        let k0 = sq_key(b[s], s);
        let k1 = sq_key(x, s);
        assert(h ^ k1 == (h ^ k0) ^ k0 ^ k1) by (bit_vector);
    } else {
        lemma_bh_update(b, s, x, n - 1);
        let h = board_hash(b, n - 1);
        let k0 = sq_key(b[s], s);
        let k1 = sq_key(x, s);
        let kn = sq_key(b[n - 1], n - 1);
        assert(b2[n - 1] == b[n - 1]);
        assert(((h ^ k0 ^ k1) ^ kn) == (h ^ kn) ^ k0 ^ k1) by (bit_vector);
    }
}

/// Updating one square changes the board hash by the keys of what left and
/// what arrived there.
pub proof fn lemma_board_hash_update(b: Seq<Option<Piece>>, s: int, x: Option<Piece>)
    requires
        b.len() == 64,
        0 <= s < 64,
    ensures
        board_hash(b.update(s, x), 64) == board_hash(b, 64) ^ sq_key(b[s], s) ^ sq_key(x, s),
{
    lemma_bh_update(b, s, x, 64);
}


/// The parts of the structural invariant visible in a state.
pub open spec fn state_wf(s: PosState) -> bool {
    &&& s.board.len() == 64
    &&& s.castling < 16
    &&& (s.en_passant matches Some(e) ==> e < 64)
    &&& s.history.len() == s.repetitions.len()
}

/// Taking back a move restores exactly the position it was made from: board,
/// side to move, castling rights, en passant square, both clocks, hash and
/// history.
pub proof fn lemma_unmake_after_make(s: PosState, mv: Move)
    requires
        state_wf(s),
        move_is_applicable(s, mv),
    ensures
        can_unmake_state(make_state(s, mv)),
        unmake_state(make_state(s, mv)) == s,
{
    let m = make_state(s, mv);
    let us = s.side;
    let b = s.board;
    lemma_move_ranges(mv);
    let from = mv.spec_from() as int;
    let to = mv.spec_to() as int;
    let st = m.history.last();
    assert(st.mv == mv);
    let flags = mv.spec_flags();
    let b1 = if mv.spec_is_en_passant() {
        b.update(ep_capture_square(us, mv.spec_to()), None)
    } else {
        b.update(to, None)
    };
    let b2 = bmove(b1, from, to);
    let b3 = match mv.spec_promotion_piece() {
        Some(pt) => b2.update(to, Some(Piece { color: us, piece_type: pt })),
        None => b2,
    };
    assert(m.board == if flags == 2 { bmove(b3, to + 1, to - 1) } else if flags == 3 { bmove(b3, to - 2, to + 1) } else { b3 });
    let mb = m.board;
    let u1 = if flags == 2 {
        bmove(mb, to - 1, to + 1)
    } else if flags == 3 {
        bmove(mb, to + 1, to - 2)
    } else {
        mb
    };
    assert(u1 =~= b3);
    let u2 = if mv.spec_is_promotion() {
        u1.update(to, Some(Piece { color: us, piece_type: PieceType::Pawn }))
    } else {
        u1
    };
    assert(u2 =~= b2.update(to, b[from]));
    let u3 = bmove(u2, to, from);
    assert(u3 =~= b1.update(from, b[from]));
    let u = unmoved_board(m.board, st, us);
    assert(u =~= b);
    assert(m.history.drop_last() =~= s.history);
    assert(m.repetitions.drop_last() =~= s.repetitions);
}

pub proof fn lemma_move_ranges(mv: Move)
    ensures
        mv.spec_from() < 64,
        mv.spec_to() < 64,
        mv.spec_flags() < 16,
        mv.spec_is_promotion() <==> mv.spec_flags() >= 8,
        mv.spec_promotion_piece() is Some <==> mv.spec_is_promotion(),
{
    let x = mv.0;
    crate::types::lemma_move_bits(x);
    crate::types::lemma_flag_bits(x >> 12u16);
}


/// A piece of kind `p` standing on `a` attacks `t` when `occ` is occupied.
pub open spec fn piece_attacks_occ(p: Piece, a: int, t: int, occ: u64) -> bool {
    match p.piece_type {
        PieceType::Pawn => pawn_attack_rel(p.color, a, t),
        PieceType::Knight => knight_rel(a, t),
        PieceType::Bishop => bishop_attack_rel(a, t, occ),
        PieceType::Rook => rook_attack_rel(a, t, occ),
        PieceType::Queen => rook_attack_rel(a, t, occ) || bishop_attack_rel(a, t, occ),
        PieceType::King => king_rel(a, t),
    }
}

/// The attack set of a non-pawn piece type from `sq` as a bitboard.
pub open spec fn attack_set(pt: PieceType, sq: int, occ: u64) -> u64 {
    choose|b: u64| #[trigger] is_attack_set(b, pt, sq, occ)
}

pub open spec fn is_attack_set(b: u64, pt: PieceType, sq: int, occ: u64) -> bool {
    forall|t: int| #[trigger] member(b, t) <==> piece_attacks_occ(Piece { color: Color::White, piece_type: pt }, sq, t, occ)
}

/// A bitboard with exactly the members of the attack set is the attack set.
pub proof fn lemma_attack_set(pt: PieceType, sq: int, occ: u64, b: u64)
    requires
        forall|t: int| #[trigger] member(b, t) <==> piece_attacks_occ(Piece { color: Color::White, piece_type: pt }, sq, t, occ),
    ensures
        attack_set(pt, sq, occ) == b,
{
    assert(is_attack_set(b, pt, sq, occ));
    let c = attack_set(pt, sq, occ);
    assert(is_attack_set(c, pt, sq, occ));
    assert forall|t: int| 0 <= t < 64 implies #[trigger] member(b, t) == member(c, t) by {}
    lemma_bits_ext(b, c);
}

/// The piece on `a` attacks `t` when `occ` is occupied.
pub open spec fn attacks_square(b: Seq<Option<Piece>>, a: int, t: int, occ: u64) -> bool {
    0 <= a < 64 && b[a] is Some && piece_attacks_occ(b[a]->0, a, t, occ)
}

/// No piece stands strictly between `a` and `t`.
pub open spec fn clear_on(b: Seq<Option<Piece>>, a: int, t: int) -> bool {
    forall|c: int| #[trigger] attacks::between_rel(a, t, c) ==> b[c] is None
}

/// `a` and `t` share a rank or file.
pub open spec fn rook_line(a: int, t: int) -> bool {
    attacks::aligned(a, t) && (attacks::file(a) == attacks::file(t) || attacks::rank(a)
        == attacks::rank(t))
}

/// `a` and `t` share a diagonal.
pub open spec fn bishop_line(a: int, t: int) -> bool {
    attacks::aligned(a, t) && attacks::file(a) != attacks::file(t) && attacks::rank(a)
        != attacks::rank(t)
}

/// A piece `p` standing on `a` attacks `t` on the board `b`.
pub open spec fn piece_attacks_on(b: Seq<Option<Piece>>, p: Piece, a: int, t: int) -> bool {
    match p.piece_type {
        PieceType::Pawn => pawn_attack_rel(p.color, a, t),
        PieceType::Knight => knight_rel(a, t),
        PieceType::Bishop => bishop_line(a, t) && clear_on(b, a, t),
        PieceType::Rook => rook_line(a, t) && clear_on(b, a, t),
        PieceType::Queen => (rook_line(a, t) || bishop_line(a, t)) && clear_on(b, a, t),
        PieceType::King => king_rel(a, t),
    }
}

/// A piece of `color` on `a` attacks `t` on the board `b`.
pub open spec fn attacker_on(b: Seq<Option<Piece>>, a: int, t: int, color: Color) -> bool {
    0 <= a < 64 && b[a] is Some && b[a]->0.color == color && piece_attacks_on(b, b[a]->0, a, t)
}

/// Some piece of `color` attacks `t` on the board `b`.
pub open spec fn attacked_on(b: Seq<Option<Piece>>, t: int, color: Color) -> bool {
    exists|a: int| #[trigger] attacker_on(b, a, t, color)
}

/// The lowest square at or above `i` holding a king of `color`, or 64.
pub open spec fn king_from(b: Seq<Option<Piece>>, color: Color, i: int) -> int
    decreases 64 - i,
{
    if i >= 64 {
        64
    } else if b[i] == Some(Piece { color, piece_type: PieceType::King }) {
        i
    } else {
        king_from(b, color, i + 1)
    }
}

/// The square `king_square` reports: the lowest one holding a king of `color`.
pub open spec fn king_on(b: Seq<Option<Piece>>, color: Color) -> int {
    king_from(b, color, 0)
}

pub(crate) proof fn lemma_king_from(b: Seq<Option<Piece>>, color: Color, i: int, k: int)
    requires
        0 <= i <= k <= 64,
        k < 64 ==> b[k] == Some(Piece { color, piece_type: PieceType::King }),
        forall|t: int| i <= t < k ==> b[t] != Some(Piece { color, piece_type: PieceType::King }),
    ensures
        king_from(b, color, i) == k,
    decreases k - i,
{
    if i < k {
        lemma_king_from(b, color, i + 1, k);
    }
}

/// `king_on` finds the first square holding a king of `color`.
pub proof fn lemma_king_at(b: Seq<Option<Piece>>, color: Color, k: int)
    requires
        0 <= k < 64,
        b[k] == Some(Piece { color, piece_type: PieceType::King }),
        forall|t: int| 0 <= t < k ==> b[t] != Some(Piece { color, piece_type: PieceType::King }),
    ensures
        king_on(b, color) == k,
{
    lemma_king_from(b, color, 0, k);
}

/// With `occ` marking exactly the occupied squares, attacks measured against the
/// bitboard agree with attacks measured against the board.
pub proof fn lemma_attacks_occ_board(b: Seq<Option<Piece>>, occ: u64, p: Piece, a: int, t: int)
    requires
        forall|s: int| #[trigger] member(occ, s) <==> 0 <= s < 64 && b[s] is Some,
    ensures
        piece_attacks_occ(p, a, t, occ) == piece_attacks_on(b, p, a, t),
{
    assert(attacks::clear_between(a, t, occ) == clear_on(b, a, t)) by {
        if attacks::clear_between(a, t, occ) {
            assert forall|c: int| #[trigger] attacks::between_rel(a, t, c) implies b[c] is None by {
                assert(!member(occ, c));
            }
        }
        if clear_on(b, a, t) {
            assert forall|c: int| #[trigger] attacks::between_rel(a, t, c) implies !member(occ, c) by {
                assert(b[c] is None);
            }
        }
    }
}


/// Square `s` holds a piece of `color` other than a pawn or king.
pub open spec fn non_pawn_at(b: Seq<Option<Piece>>, s: int, color: Color) -> bool {
    0 <= s < 64 && b[s] is Some && b[s]->0.color == color && b[s]->0.piece_type != PieceType::Pawn
        && b[s]->0.piece_type != PieceType::King
}

/// Some square of `b` holds a king of `color`.
pub open spec fn board_has_king(b: Seq<Option<Piece>>, color: Color) -> bool {
    exists|k: int| 0 <= k < 64 && #[trigger] b[k] == Some(Piece { color, piece_type: PieceType::King })
}

/// After `mv`, the mover's lowest king is not attacked by the other side.
pub open spec fn legal_after(s: PosState, mv: Move) -> bool {
    let m = make_state(s, mv);
    !attacked_on(m.board, king_on(m.board, s.side), s.side.spec_flip())
}

/// Making an applicable move never removes the mover's king.
pub proof fn lemma_king_survives(s: PosState, mv: Move)
    requires
        state_wf(s),
        move_is_applicable(s, mv),
        board_has_king(s.board, s.side),
    ensures
        board_has_king(make_state(s, mv).board, s.side),
{
    lemma_move_ranges(mv);
    let us = s.side;
    let b = s.board;
    let king = Some(Piece { color: us, piece_type: PieceType::King });
    let k = choose|k: int| 0 <= k < 64 && #[trigger] b[k] == king;
    let from = mv.spec_from() as int;
    let to = mv.spec_to() as int;
    let b1 = if mv.spec_is_en_passant() {
        b.update(ep_capture_square(us, mv.spec_to()), None)
    } else {
        b.update(to, None)
    };
    let b2 = bmove(b1, from, to);
    let b3 = match mv.spec_promotion_piece() {
        Some(pt) => b2.update(to, Some(Piece { color: us, piece_type: pt })),
        None => b2,
    };
    let k2 = if k == from { to } else { k };
    assert(b3[k2] == king);
    let mb = make_state(s, mv).board;
    if mv.spec_flags() == 2 {
        let k4 = if k2 == to + 1 { to - 1 } else { k2 };
        assert(mb[k4] == king);
    } else if mv.spec_flags() == 3 {
        let k4 = if k2 == to - 2 { to + 1 } else { k2 };
        assert(mb[k4] == king);
    } else {
        assert(mb[k2] == king);
    }
}

/// The state after passing the turn.
pub open spec fn null_state(s: PosState) -> PosState {
    let side = s.side.spec_flip();
    PosState {
        board: s.board,
        side,
        castling: s.castling,
        en_passant: None,
        halfmove: (s.halfmove + 1) as u16,
        fullmove: if side == Color::White {
            (s.fullmove + 1) as u16
        } else {
            s.fullmove
        },
        hash: s.hash ^ ep_key(s.en_passant) ^ side_key_spec(),
        history: s.history.push(
            StateInfo {
                mv: Move(0),
                captured: None,
                castling: s.castling,
                en_passant: s.en_passant,
                halfmove_clock: s.halfmove,
                hash: s.hash,
            },
        ),
        repetitions: s.repetitions.push(s.hash),
    }
}

/// The state after a passed turn is taken back.
pub open spec fn unnull_state(s: PosState) -> PosState {
    let st = s.history.last();
    PosState {
        board: s.board,
        side: s.side.spec_flip(),
        castling: st.castling,
        en_passant: st.en_passant,
        halfmove: st.halfmove_clock,
        fullmove: if s.side == Color::White {
            (s.fullmove - 1) as u16
        } else {
            s.fullmove
        },
        hash: st.hash,
        history: s.history.drop_last(),
        repetitions: s.repetitions.drop_last(),
    }
}

/// Taking back a passed turn restores the position it was passed from.
pub proof fn lemma_unnull_after_null(s: PosState)
    requires
        state_wf(s),
        s.halfmove < 0xffff,
        s.fullmove < 0xffff,
    ensures
        unnull_state(null_state(s)) == s,
{
    let n = null_state(s);
    assert(n.history.drop_last() =~= s.history);
    assert(n.repetitions.drop_last() =~= s.repetitions);
}

/// Passing the turn keeps the stored hash equal to the Zobrist hash.
pub proof fn lemma_null_keeps_hash(s: PosState)
    requires
        s.hash == state_zobrist(s),
    ensures
        null_state(s).hash == state_zobrist(null_state(s)),
{
    let bh = board_hash(s.board, 64);
    let ck = castling_key(s.castling as int);
    let e = ep_key(s.en_passant);
    let z = side_key_spec();
    let sk0 = side_key_of(s.side);
    let sk1 = side_key_of(s.side.spec_flip());
    assert(sk0 ^ sk1 == z) by {
        assert(0u64 ^ z == z && z ^ 0u64 == z) by (bit_vector);
    }
    let h = s.hash;
    assert((h ^ e ^ z) == bh ^ ck ^ sk1 ^ 0u64) by (bit_vector)
        requires
            h == bh ^ ck ^ sk0 ^ e,
            sk0 ^ sk1 == z,
    ;
}

/// Making a move keeps the stored hash equal to the Zobrist hash of the
/// resulting position.
pub proof fn lemma_make_keeps_hash(s: PosState, mv: Move)
    requires
        s.hash == state_zobrist(s),
    ensures
        make_state(s, mv).hash == state_zobrist(make_state(s, mv)),
{
    let m = make_state(s, mv);
    let z0 = state_zobrist(s);
    let z1 = state_zobrist(m);
    let h = s.hash;
    assert(h ^ z0 ^ z1 == z1) by (bit_vector)
        requires
            h == z0,
    ;
}


/// The piece the standard starting position has on square `s`.
pub open spec fn start_piece(s: int) -> Option<Piece> {
    let f = s % 8;
    let r = s / 8;
    let back = if f == 0 || f == 7 {
        PieceType::Rook
    } else if f == 1 || f == 6 {
        PieceType::Knight
    } else if f == 2 || f == 5 {
        PieceType::Bishop
    } else if f == 3 {
        PieceType::Queen
    } else {
        PieceType::King
    };
    if r == 0 {
        Some(Piece { color: Color::White, piece_type: back })
    } else if r == 1 {
        Some(Piece { color: Color::White, piece_type: PieceType::Pawn })
    } else if r == 6 {
        Some(Piece { color: Color::Black, piece_type: PieceType::Pawn })
    } else if r == 7 {
        Some(Piece { color: Color::Black, piece_type: back })
    } else {
        None
    }
}

fn start_piece_at(sq: Square) -> (p: Option<Piece>)
    requires
        sq < 64,
    ensures
        p == start_piece(sq as int),
{
    let f = sq % 8;
    let r = sq / 8;
    let back = if f == 0 || f == 7 {
        PieceType::Rook
    } else if f == 1 || f == 6 {
        PieceType::Knight
    } else if f == 2 || f == 5 {
        PieceType::Bishop
    } else if f == 3 {
        PieceType::Queen
    } else {
        PieceType::King
    };
    if r == 0 {
        Some(Piece::new(Color::White, back))
    } else if r == 1 {
        Some(Piece::new(Color::White, PieceType::Pawn))
    } else if r == 6 {
        Some(Piece::new(Color::Black, PieceType::Pawn))
    } else if r == 7 {
        Some(Piece::new(Color::Black, back))
    } else {
        None
    }
}

pub proof fn lemma_board_hash_empty(b: Seq<Option<Piece>>, n: int)
    requires
        0 <= n <= b.len(),
        forall|i: int| 0 <= i < n ==> b[i] is None,
    ensures
        board_hash(b, n) == 0,
    decreases n,
{
    if n > 0 {
        lemma_board_hash_empty(b, n - 1);
        assert(0u64 ^ 0u64 == 0u64) by (bit_vector);
    }
}

pub const STARTPOS_FEN: &'static str = "rnbqkbnr/pppppppp/8/8/8/8/PPPPPPPP/RNBQKBNR w KQkq - 0 1";

pub struct Position {
    /// Occupancy per piece type, colour-agnostic.
    pub pieces: [Bitboard; 6],
    /// Occupancy per colour.
    pub colors: [Bitboard; 2],
    /// Square-indexed mailbox mirroring the bitboards.
    pub board: [Option<Piece>; 64],
    pub side_to_move: Color,
    pub castling: u8,
    pub en_passant: Option<Square>,
    pub halfmove_clock: u16,
    pub fullmove_number: u16,
    pub hash: u64,
    pub history: Vec<StateInfo>,
    /// Position hashes since the last irreversible move, for repetition detection.
    pub repetitions: Vec<u64>,
    pub keys: Keys,
}

impl Position {
    pub open spec fn board(&self) -> Seq<Option<Piece>> {
        self.board@
    }

    pub open spec fn history(&self) -> Seq<StateInfo> {
        self.history@
    }

    pub open spec fn repetitions(&self) -> Seq<u64> {
        self.repetitions@
    }

    pub open spec fn state(&self) -> PosState {
        PosState {
            board: self.board(),
            side: self.side_to_move,
            castling: self.castling,
            en_passant: self.en_passant,
            halfmove: self.halfmove_clock,
            fullmove: self.fullmove_number,
            hash: self.hash,
            history: self.history(),
            repetitions: self.repetitions(),
        }
    }

    /// The bitboards mirror the mailbox.
    pub open spec fn bits_ok(&self) -> bool {
        &&& forall|s: int, i: int|
            0 <= i < 6 ==> (#[trigger] member(self.pieces[i], s) <==> (0 <= s < 64 && holds_type(self.board@[s], i)))
        &&& forall|s: int, i: int|
            0 <= i < 2 ==> (#[trigger] member(self.colors[i], s) <==> (0 <= s < 64 && holds_color(self.board@[s], i)))
    }

    /// The structural invariant every position keeps.
    pub open spec fn wf(&self) -> bool {
        &&& self.bits_ok()
        &&& self.keys.wf()
        &&& self.board@.len() == 64
        &&& self.castling < 16
        &&& (self.en_passant matches Some(e) ==> e < 64)
        &&& self.history@.len() == self.repetitions@.len()
        &&& forall|i: int|
            0 <= i < self.history@.len() ==> (#[trigger] self.history@[i]).castling < 16 && (
            self.history@[i].en_passant matches Some(e) ==> e < 64)
    }

    /// The stored hash is the Zobrist hash of what is on the board.
    pub open spec fn hash_ok(&self) -> bool {
        self.hash == state_zobrist(self.state())
    }

    /// Every occupied square.
    pub open spec fn occ(&self) -> u64 {
        self.colors[0] | self.colors[1]
    }

    /// Some piece of `color` attacks `sq`.
    pub open spec fn attacked(&self, sq: int, color: Color) -> bool {
        attacked_on(self.board@, sq, color)
    }

    /// Some square holds a king of `color`.
    pub open spec fn has_king(&self, color: Color) -> bool {
        board_has_king(self.board@, color)
    }

    pub open spec fn can_unmake(&self) -> bool {
        can_unmake_state(self.state())
    }

    pub open spec fn applicable(&self, mv: Move) -> bool {
        move_is_applicable(self.state(), mv)
    }

    pub(crate) fn add_piece(&mut self, piece: Piece, sq: Square)
        requires
            old(self).wf(),
            sq < 64,
            old(self).board@[sq as int] is None,
        ensures
            final(self).wf(),
            final(self).board@ == old(self).board@.update(sq as int, Some(piece)),
            final(self).hash == old(self).hash ^ piece_key(piece, sq as int),
            final(self).hash ^ board_hash(final(self).board@, 64) == old(self).hash ^ board_hash(
                old(self).board@,
                64,
            ),
            final(self).keys == old(self).keys,
            final(self).history@ == old(self).history@,
            final(self).repetitions@ == old(self).repetitions@,
            final(self).side_to_move == old(self).side_to_move,
            final(self).castling == old(self).castling,
            final(self).en_passant == old(self).en_passant,
            final(self).halfmove_clock == old(self).halfmove_clock,
            final(self).fullmove_number == old(self).fullmove_number,
    {
        let ghost old_pieces = self.pieces;
        let ghost old_colors = self.colors;
        let b = bb(sq);
        let pt = piece.piece_type.index();
        let c = piece.color.index();
        self.board[sq as usize] = Some(piece);
        self.pieces[pt] = self.pieces[pt] | b;
        self.colors[c] = self.colors[c] | b;
        let k = zobrist::piece(&self.keys, piece, sq);
        self.hash = self.hash ^ k;
        proof {
            lemma_board_hash_update(old(self).board@, sq as int, Some(piece));
            let h = old(self).hash;
            let bh = board_hash(old(self).board@, 64);
            assert((h ^ k) ^ (bh ^ 0 ^ k) == h ^ bh) by (bit_vector);
            lemma_has_or(old_pieces[pt as int], b);
            lemma_has_or(old_colors[c as int], b);
            assert forall|s: int, i: int| 0 <= i < 6 implies (#[trigger] member(self.pieces[i], s)
                <==> (0 <= s < 64 && holds_type(self.board@[s], i))) by {
                if i != pt as int {
                    assert(self.pieces[i] == old_pieces[i]);
                }
            }
            assert forall|s: int, i: int| 0 <= i < 2 implies (#[trigger] member(self.colors[i], s)
                <==> (0 <= s < 64 && holds_color(self.board@[s], i))) by {
                if i != c as int {
                    assert(self.colors[i] == old_colors[i]);
                }
            }
        }
    }

    fn remove_piece(&mut self, sq: Square) -> (piece: Piece)
        requires
            old(self).wf(),
            sq < 64,
            old(self).board@[sq as int] is Some,
        ensures
            final(self).wf(),
            Some(piece) == old(self).board@[sq as int],
            final(self).board@ == old(self).board@.update(sq as int, None),
            final(self).hash == old(self).hash ^ piece_key(piece, sq as int),
            final(self).hash ^ board_hash(final(self).board@, 64) == old(self).hash ^ board_hash(
                old(self).board@,
                64,
            ),
            final(self).keys == old(self).keys,
            final(self).history@ == old(self).history@,
            final(self).repetitions@ == old(self).repetitions@,
            final(self).side_to_move == old(self).side_to_move,
            final(self).castling == old(self).castling,
            final(self).en_passant == old(self).en_passant,
            final(self).halfmove_clock == old(self).halfmove_clock,
            final(self).fullmove_number == old(self).fullmove_number,
    {
        let ghost old_pieces = self.pieces;
        let ghost old_colors = self.colors;
        let piece = match self.board[sq as usize] {
            Some(p) => p,
            None => {
                proof {
                    assert(false);
                }
                Piece::new(Color::White, PieceType::Pawn)
            },
        };
        let b = bb(sq);
        let pt = piece.piece_type.index();
        let c = piece.color.index();
        self.board[sq as usize] = None;
        self.pieces[pt] = self.pieces[pt] & !b;
        self.colors[c] = self.colors[c] & !b;
        let k = zobrist::piece(&self.keys, piece, sq);
        self.hash = self.hash ^ k;
        proof {
            lemma_board_hash_update(old(self).board@, sq as int, None);
            let h = old(self).hash;
            let bh = board_hash(old(self).board@, 64);
            assert((h ^ k) ^ (bh ^ k ^ 0) == h ^ bh) by (bit_vector);
            lemma_has_not(b);
            lemma_has_and(old_pieces[pt as int], !b);
            lemma_has_and(old_colors[c as int], !b);
            assert forall|s: int, i: int| 0 <= i < 6 implies (#[trigger] member(self.pieces[i], s)
                <==> (0 <= s < 64 && holds_type(self.board@[s], i))) by {
                if i != pt as int {
                    assert(self.pieces[i] == old_pieces[i]);
                }
            }
            assert forall|s: int, i: int| 0 <= i < 2 implies (#[trigger] member(self.colors[i], s)
                <==> (0 <= s < 64 && holds_color(self.board@[s], i))) by {
                if i != c as int {
                    assert(self.colors[i] == old_colors[i]);
                }
            }
        }
        piece
    }

    fn move_piece(&mut self, from: Square, to: Square)
        requires
            old(self).wf(),
            from < 64,
            to < 64,
            from != to,
            old(self).board@[from as int] is Some,
            old(self).board@[to as int] is None,
        ensures
            final(self).wf(),
            final(self).board@ == bmove(old(self).board@, from as int, to as int),
            final(self).hash == old(self).hash ^ piece_key(old(self).board@[from as int]->0, from as int)
                ^ piece_key(old(self).board@[from as int]->0, to as int),
            final(self).hash ^ board_hash(final(self).board@, 64) == old(self).hash ^ board_hash(
                old(self).board@,
                64,
            ),
            final(self).keys == old(self).keys,
            final(self).history@ == old(self).history@,
            final(self).repetitions@ == old(self).repetitions@,
            final(self).side_to_move == old(self).side_to_move,
            final(self).castling == old(self).castling,
            final(self).en_passant == old(self).en_passant,
            final(self).halfmove_clock == old(self).halfmove_clock,
            final(self).fullmove_number == old(self).fullmove_number,
    {
        let ghost old_pieces = self.pieces;
        let ghost old_colors = self.colors;
        let piece = match self.board[from as usize] {
            Some(p) => p,
            None => {
                proof {
                    assert(false);
                }
                Piece::new(Color::White, PieceType::Pawn)
            },
        };
        let bf = bb(from);
        let bt = bb(to);
        let delta = bf | bt;
        let pt = piece.piece_type.index();
        let c = piece.color.index();
        self.board[from as usize] = None;
        self.board[to as usize] = Some(piece);
        self.pieces[pt] = self.pieces[pt] ^ delta;
        self.colors[c] = self.colors[c] ^ delta;
        let k1 = zobrist::piece(&self.keys, piece, from);
        let k2 = zobrist::piece(&self.keys, piece, to);
        self.hash = self.hash ^ k1 ^ k2;
        proof {
            let b0 = old(self).board@;
            let b1 = b0.update(to as int, Some(piece));
            lemma_board_hash_update(b0, to as int, Some(piece));
            lemma_board_hash_update(b1, from as int, None);
            assert(b1.update(from as int, None) == bmove(b0, from as int, to as int));
            let h = old(self).hash;
            let bh = board_hash(b0, 64);
            assert((h ^ k1 ^ k2) ^ ((bh ^ 0 ^ k2) ^ k1 ^ 0) == h ^ bh) by (bit_vector);
            lemma_has_or(bf, bt);
            lemma_has_xor(old_pieces[pt as int], delta);
            lemma_has_xor(old_colors[c as int], delta);
            assert(self.board@ =~= bmove(old(self).board@, from as int, to as int));
            assert forall|s: int, i: int| 0 <= i < 6 implies (#[trigger] member(self.pieces[i], s)
                <==> (0 <= s < 64 && holds_type(self.board@[s], i))) by {
                if i != pt as int {
                    assert(self.pieces[i] == old_pieces[i]);
                }
            }
            assert forall|s: int, i: int| 0 <= i < 2 implies (#[trigger] member(self.colors[i], s)
                <==> (0 <= s < 64 && holds_color(self.board@[s], i))) by {
                if i != c as int {
                    assert(self.colors[i] == old_colors[i]);
                }
            }
        }
    }

    /// Applies a pseudo-legal move unconditionally. See `try_make_move` for the
    /// legality-checked variant used by search.
    #[verifier::rlimit(60)]
    pub fn make_move(&mut self, mv: Move)
        requires
            old(self).wf(),
            old(self).applicable(mv),
        ensures
            final(self).wf(),
            final(self).state() == make_state(old(self).state(), mv),
            final(self).keys == old(self).keys,
    {
        let ghost s0 = self.state();
        let us = self.side_to_move;
        let them = us.flip();
        let from = mv.from();
        let to = mv.to();
        let moving = match self.board[from as usize] {
            Some(p) => p,
            None => {
                proof {
                    assert(false);
                }
                Piece::new(us, PieceType::Pawn)
            },
        };
        let captured = if mv.is_en_passant() {
            Some(Piece::new(them, PieceType::Pawn))
        } else {
            self.board[to as usize]
        };
        let info = StateInfo {
            mv,
            captured,
            castling: self.castling,
            en_passant: self.en_passant,
            halfmove_clock: self.halfmove_clock,
            hash: self.hash,
        };
        self.history.push(info);
        let h = self.hash;
        self.repetitions.push(h);

        let ghost e0 = ep_key(self.en_passant);
        match self.en_passant {
            Some(ep) => {
                let k = zobrist::en_passant(&self.keys, file_of(ep));
                self.hash = self.hash ^ k;
            },
            None => {
                proof {
                    lemma_xor_basics(self.hash, 0);
                }
            },
        }
        let ghost h1 = self.hash;
        let ghost bh0 = board_hash(self.board@, 64);
        assert(h1 == s0.hash ^ e0);
        self.en_passant = None;

        if moving.piece_type == PieceType::Pawn || captured.is_some() {
            self.halfmove_clock = 0;
        } else {
            self.halfmove_clock = self.halfmove_clock + 1;
        }

        if mv.is_en_passant() {
            let captured_sq = if us == Color::White {
                to - 8
            } else {
                to + 8
            };
            self.remove_piece(captured_sq);
        } else if captured.is_some() {
            self.remove_piece(to);
        } else {
            proof {
                assert(self.board@ =~= s0.board.update(to as int, None));
            }
        }
        let ghost b1 = self.board@;

        self.move_piece(from, to);
        let ghost b2 = self.board@;

        match mv.promotion_piece() {
            Some(promo) => {
                self.remove_piece(to);
                self.add_piece(Piece::new(us, promo), to);
                proof {
                    assert(self.board@ =~= b2.update(to as int, Some(Piece { color: us, piece_type: promo })));
                }
            },
            None => {},
        }
        let ghost b3 = self.board@;

        let flags = mv.flags();
        if flags == move_flags::KING_CASTLE {
            self.move_piece(to + 1, to - 1);
        } else if flags == move_flags::QUEEN_CASTLE {
            self.move_piece(to - 2, to + 1);
        }
        let ghost hb = self.hash;
        let ghost bh1 = board_hash(self.board@, 64);
        assert(hb ^ bh1 == h1 ^ bh0);
        if flags == move_flags::DOUBLE_PUSH {
            let ep = if us == Color::White {
                to - 8
            } else {
                to + 8
            };
            self.en_passant = Some(ep);
            let k = zobrist::en_passant(&self.keys, file_of(ep));
            self.hash = self.hash ^ k;
        }
        let ghost h3 = self.hash;
        let ghost e1 = ep_key(self.en_passant);
        proof {
            if flags != move_flags::DOUBLE_PUSH {
                lemma_xor_basics(h3, 0);
            }
            assert(h3 == hb ^ e1);
        }

        let c0 = self.castling;
        let kc0 = zobrist::castling(&self.keys, c0);
        self.hash = self.hash ^ kc0;
        let m = castle_mask(from) & castle_mask(to);
        proof {
            assert(c0 & m < 16) by (bit_vector)
                requires
                    c0 < 16,
            ;
            assert(c0 & (castle_mask(from) & castle_mask(to)) == c0 & castle_mask(from) & castle_mask(to)) by (bit_vector);
        }
        self.castling = c0 & m;
        let kc1 = zobrist::castling(&self.keys, self.castling);
        self.hash = self.hash ^ kc1;

        self.side_to_move = them;
        let ks = zobrist::side_to_move(&self.keys);
        self.hash = self.hash ^ ks;
        if self.side_to_move == Color::White {
            self.fullmove_number = self.fullmove_number + 1;
        }
        proof {
            let hh = self.hash;
            let s_old = side_key_of(us);
            let s_new = side_key_of(them);
            let h0 = s0.hash;
            assert(s_old ^ s_new == ks) by {
                let z = side_key_spec();
                assert(0u64 ^ z == z && z ^ 0u64 == z) by (bit_vector);
            }
            let c1 = self.castling;
            assert(hh == h0 ^ (bh0 ^ kc0 ^ s_old ^ e0) ^ (bh1 ^ kc1 ^ s_new ^ e1)) by (bit_vector)
                requires
                    h1 == h0 ^ e0,
                    hb ^ bh1 == h1 ^ bh0,
                    h3 == hb ^ e1,
                    hh == h3 ^ kc0 ^ kc1 ^ ks,
                    s_old ^ s_new == ks,
            ;
            assert(self.history@ == s0.history.push(info));
            assert(self.board@ == moved_board(s0.board, us, mv));
            assert(self.state() == make_state(s0, mv));
        }
    }

    pub fn unmake_move(&mut self)
        requires
            old(self).wf(),
            old(self).can_unmake(),
        ensures
            final(self).wf(),
            final(self).state() == unmake_state(old(self).state()),
            final(self).keys == old(self).keys,
    {
        let ghost s0 = self.state();
        let state = match self.history.pop() {
            Some(st) => st,
            None => {
                proof {
                    assert(false);
                }
                return;
            },
        };
        self.repetitions.pop();
        proof {
            assert(state == s0.history.last());
            assert forall|i: int| 0 <= i < self.history@.len() implies (#[trigger] self.history@[i]).castling < 16 && (
                self.history@[i].en_passant matches Some(e) ==> e < 64) by {
                assert(self.history@[i] == s0.history[i]);
            }
        }
        let mv = state.mv;
        let them = self.side_to_move;
        let us = them.flip();
        let from = mv.from();
        let to = mv.to();

        self.side_to_move = us;
        if them == Color::White {
            self.fullmove_number = self.fullmove_number - 1;
        }

        let flags = mv.flags();
        if flags == move_flags::KING_CASTLE {
            self.move_piece(to - 1, to + 1);
        } else if flags == move_flags::QUEEN_CASTLE {
            self.move_piece(to + 1, to - 2);
        }
        let ghost b1 = self.board@;

        if mv.is_promotion() {
            self.remove_piece(to);
            self.add_piece(Piece::new(us, PieceType::Pawn), to);
            proof {
                assert(self.board@ =~= b1.update(to as int, Some(Piece { color: us, piece_type: PieceType::Pawn })));
            }
        }

        self.move_piece(to, from);

        match state.captured {
            Some(captured) => {
                let sq = if mv.is_en_passant() {
                    if us == Color::White {
                        to - 8
                    } else {
                        to + 8
                    }
                } else {
                    to
                };
                self.add_piece(captured, sq);
            },
            None => {},
        }

        self.castling = state.castling;
        self.en_passant = state.en_passant;
        self.halfmove_clock = state.halfmove_clock;
        self.hash = state.hash;
        proof {
            assert(self.board@ == unmoved_board(s0.board, state, us));
            assert(self.state() == unmake_state(s0));
        }
    }

    pub fn piece_at(&self, sq: Square) -> (p: Option<Piece>)
        requires
            sq < 64,
        ensures
            p == self.board@[sq as int],
    {
        self.board[sq as usize]
    }

    pub fn occupied(&self) -> (b: Bitboard)
        requires
            self.wf(),
        ensures
            b == self.occ(),
            forall|s: int| #[trigger] member(b, s) <==> 0 <= s < 64 && self.board@[s] is Some,
    {
        proof {
            lemma_has_or(self.colors[0], self.colors[1]);
            assert forall|s: int| #[trigger] member(self.occ(), s) <==> 0 <= s < 64 && self.board@[s] is Some by {
                assert(member(self.colors[0], s) == (0 <= s < 64 && holds_color(self.board@[s], 0)));
                assert(member(self.colors[1], s) == (0 <= s < 64 && holds_color(self.board@[s], 1)));
            }
        }
        self.colors[0] | self.colors[1]
    }

    pub fn color_bb(&self, color: Color) -> (b: Bitboard)
        requires
            self.wf(),
        ensures
            b == self.colors[color.spec_index() as int],
            forall|s: int| #[trigger] member(b, s) <==> 0 <= s < 64 && self.board@[s] is Some
                && self.board@[s]->0.color == color,
    {
        proof {
            assert forall|s: int| #[trigger] member(self.colors[color.spec_index() as int], s) <==> 0 <= s < 64 && self.board@[s] is Some
                && self.board@[s]->0.color == color by {
                assert(member(self.colors[color.spec_index() as int], s) == (0 <= s < 64 && holds_color(self.board@[s], color.spec_index() as int)));
            }
        }
        self.colors[color.index()]
    }

    pub fn piece_type_bb(&self, pt: PieceType) -> (b: Bitboard)
        requires
            self.wf(),
        ensures
            b == self.pieces[pt.spec_index() as int],
            forall|s: int| #[trigger] member(b, s) <==> 0 <= s < 64 && self.board@[s] is Some
                && self.board@[s]->0.piece_type == pt,
    {
        proof {
            assert forall|s: int| #[trigger] member(self.pieces[pt.spec_index() as int], s) <==> 0 <= s < 64 && self.board@[s] is Some
                && self.board@[s]->0.piece_type == pt by {
                assert(member(self.pieces[pt.spec_index() as int], s) == (0 <= s < 64 && holds_type(self.board@[s], pt.spec_index() as int)));
            }
        }
        self.pieces[pt.index()]
    }

    pub fn pieces(&self, color: Color, pt: PieceType) -> (b: Bitboard)
        requires
            self.wf(),
        ensures
            b == self.pieces[pt.spec_index() as int] & self.colors[color.spec_index() as int],
            forall|s: int| #[trigger] member(b, s) <==> 0 <= s < 64 && self.board@[s] == Some(Piece { color, piece_type: pt }),
    {
        let a = self.piece_type_bb(pt);
        let c = self.color_bb(color);
        proof {
            lemma_has_and(a, c);
        }
        a & c
    }

    /// The lowest square holding a king of `color`, or 64 when it has none.
    pub fn king_square(&self, color: Color) -> (sq: Square)
        requires
            self.wf(),
        ensures
            sq <= 64,
            self.has_king(color) <==> sq < 64,
            sq < 64 ==> self.board@[sq as int] == Some(Piece { color, piece_type: PieceType::King }),
            sq < 64 ==> forall|t: int| 0 <= t < sq ==> self.board@[t] != Some(Piece { color, piece_type: PieceType::King }),
            sq as int == king_on(self.board@, color),
    {
        let kings = self.pieces(color, PieceType::King);
        proof {
            if self.has_king(color) {
                let k = choose|k: int| 0 <= k < 64 && #[trigger] self.board@[k] == Some(Piece { color, piece_type: PieceType::King });
                assert(member(kings, k));
            }
        }
        let sq = lsb(kings);
        proof {
            if sq < 64 {
                assert(member(kings, sq as int));
                assert forall|t: int| 0 <= t < sq implies self.board@[t] != Some(Piece { color, piece_type: PieceType::King }) by {
                    assert(!member(kings, t));
                }
            } else {
                assert forall|t: int| 0 <= t < 64 implies self.board@[t] != Some(Piece { color, piece_type: PieceType::King }) by {
                    assert(!member(kings, t));
                }
            }
            lemma_king_from(self.board@, color, 0, sq as int);
        }
        sq
    }

    /// All pieces of either colour attacking `sq` under the given occupancy.
    pub fn attackers_to(&self, sq: Square, occupancy: Bitboard) -> (b: Bitboard)
        requires
            self.wf(),
            sq < 64,
        ensures
            forall|a: int| #[trigger] member(b, a) <==> attacks_square(self.board@, a, sq as int, occupancy),
    {
        let bb_b = self.piece_type_bb(PieceType::Bishop);
        let bb_q = self.piece_type_bb(PieceType::Queen);
        let bb_r = self.piece_type_bb(PieceType::Rook);
        let bishops = bb_b | bb_q;
        let rooks = bb_r | bb_q;
        let wp = attacks::pawn_attacks(Color::White, sq);
        let bp = self.pieces(Color::Black, PieceType::Pawn);
        let bpa = attacks::pawn_attacks(Color::Black, sq);
        let wpp = self.pieces(Color::White, PieceType::Pawn);
        let kn = attacks::knight_attacks(sq);
        let knights = self.piece_type_bb(PieceType::Knight);
        let ki = attacks::king_attacks(sq);
        let kings = self.piece_type_bb(PieceType::King);
        let ba = attacks::bishop_attacks(sq, occupancy);
        let ra = attacks::rook_attacks(sq, occupancy);
        let x1 = wp & bp;
        let x2 = bpa & wpp;
        let x3 = kn & knights;
        let x4 = ki & kings;
        let x5 = ba & bishops;
        let x6 = ra & rooks;
        let r = x1 | x2 | x3 | x4 | x5 | x6;
        proof {
            lemma_has_or(bb_b, bb_q);
            lemma_has_or(bb_r, bb_q);
            lemma_has_and(wp, bp);
            lemma_has_and(bpa, wpp);
            lemma_has_and(kn, knights);
            lemma_has_and(ki, kings);
            lemma_has_and(ba, bishops);
            lemma_has_and(ra, rooks);
            lemma_has_or(x1, x2);
            lemma_has_or(x1 | x2, x3);
            lemma_has_or(x1 | x2 | x3, x4);
            lemma_has_or(x1 | x2 | x3 | x4, x5);
            lemma_has_or(x1 | x2 | x3 | x4 | x5, x6);
            assert forall|a: int| #[trigger] member(r, a) <==> attacks_square(self.board@, a, sq as int, occupancy) by {
                lemma_rook_sym(a, sq as int, occupancy);
                lemma_bishop_sym(a, sq as int, occupancy);
            }
        }
        r
    }

    /// Whether `color` attacks `sq`. Short-circuits, so cheaper than
    /// `attackers_to` when only a yes/no answer is needed.
    pub fn is_attacked(&self, sq: Square, color: Color) -> (r: bool)
        requires
            self.wf(),
            sq < 64,
        ensures
            r == self.attacked(sq as int, color),
    {
        let occupancy = self.occupied();
        let ghost s = sq as int;
        let ghost b = self.board@;
        let pa = attacks::pawn_attacks(color.flip(), sq);
        let pawns = self.pieces(color, PieceType::Pawn);
        proof {
            lemma_has_and(pa, pawns);
            lemma_zero_iff(pa & pawns);
        }
        if pa & pawns != 0 {
            proof {
                let a = choose|a: int| 0 <= a < 64 && #[trigger] member(pa & pawns, a);
                lemma_attacks_occ_board(b, occupancy, b[a]->0, a, s);
                assert(attacker_on(b, a, s, color));
            }
            return true;
        }
        let na = attacks::knight_attacks(sq);
        let knights = self.pieces(color, PieceType::Knight);
        proof {
            lemma_has_and(na, knights);
            lemma_zero_iff(na & knights);
        }
        if na & knights != 0 {
            proof {
                let a = choose|a: int| 0 <= a < 64 && #[trigger] member(na & knights, a);
                lemma_attacks_occ_board(b, occupancy, b[a]->0, a, s);
                assert(attacker_on(b, a, s, color));
            }
            return true;
        }
        let ka = attacks::king_attacks(sq);
        let kings = self.pieces(color, PieceType::King);
        proof {
            lemma_has_and(ka, kings);
            lemma_zero_iff(ka & kings);
        }
        if ka & kings != 0 {
            proof {
                let a = choose|a: int| 0 <= a < 64 && #[trigger] member(ka & kings, a);
                lemma_attacks_occ_board(b, occupancy, b[a]->0, a, s);
                assert(attacker_on(b, a, s, color));
            }
            return true;
        }
        let queens = self.pieces(color, PieceType::Queen);
        let bishops = self.pieces(color, PieceType::Bishop);
        let ba = attacks::bishop_attacks(sq, occupancy);
        let bq = bishops | queens;
        proof {
            lemma_has_or(bishops, queens);
            lemma_has_and(ba, bq);
            lemma_zero_iff(ba & bq);
        }
        if ba & bq != 0 {
            proof {
                let a = choose|a: int| 0 <= a < 64 && #[trigger] member(ba & bq, a);
                lemma_bishop_sym(a, s, occupancy);
                lemma_attacks_occ_board(b, occupancy, b[a]->0, a, s);
                assert(attacker_on(b, a, s, color));
            }
            return true;
        }
        let rooks = self.pieces(color, PieceType::Rook);
        let ra = attacks::rook_attacks(sq, occupancy);
        let rq = rooks | queens;
        proof {
            lemma_has_or(rooks, queens);
            lemma_has_and(ra, rq);
            lemma_zero_iff(ra & rq);
        }
        let r = ra & rq != 0;
        proof {
            if r {
                let a = choose|a: int| 0 <= a < 64 && #[trigger] member(ra & rq, a);
                lemma_rook_sym(a, s, occupancy);
                lemma_attacks_occ_board(b, occupancy, b[a]->0, a, s);
                assert(attacker_on(b, a, s, color));
            } else {
                assert forall|a: int| !#[trigger] attacker_on(b, a, s, color) by {
                    if 0 <= a < 64 && b[a] is Some {
                        lemma_attacks_occ_board(b, occupancy, b[a]->0, a, s);
                        lemma_rook_sym(a, s, occupancy);
                        lemma_bishop_sym(a, s, occupancy);
                        assert(!member(pa & pawns, a));
                        assert(!member(na & knights, a));
                        assert(!member(ka & kings, a));
                        assert(!member(ba & bq, a));
                        assert(!member(ra & rq, a));
                    }
                }
            }
        }
        r
    }

    pub fn in_check(&self) -> (r: bool)
        requires
            self.wf(),
            self.has_king(self.side_to_move),
        ensures
            r == attacked_on(self.board@, king_on(self.board@, self.side_to_move), self.side_to_move.spec_flip()),
    {
        let k = self.king_square(self.side_to_move);
        self.is_attacked(k, self.side_to_move.flip())
    }

    /// Enemy pieces currently giving check to the side to move.
    pub fn checkers(&self) -> (b: Bitboard)
        requires
            self.wf(),
            self.has_king(self.side_to_move),
        ensures
            forall|a: int| #[trigger] member(b, a) <==> attacker_on(self.board@, a, king_on(self.board@, self.side_to_move), self.side_to_move.spec_flip()),
    {
        let king = self.king_square(self.side_to_move);
        let occupancy = self.occupied();
        let att = self.attackers_to(king, occupancy);
        let them = self.color_bb(self.side_to_move.flip());
        proof {
            lemma_has_and(att, them);
            assert forall|a: int| #[trigger] member(att & them, a) <==> attacker_on(self.board@, a, king as int, self.side_to_move.spec_flip()) by {
                if 0 <= a < 64 && self.board@[a] is Some {
                    lemma_attacks_occ_board(self.board@, occupancy, self.board@[a]->0, a, king as int);
                }
            }
        }
        att & them
    }

    /// True when only kings (plus at most one minor per side) remain, i.e.
    /// no side can force mate. Used to avoid pointless searching.
    pub open spec fn insufficient(&self) -> bool {
        &&& self.pieces[0] == 0
        &&& self.pieces[3] == 0
        &&& self.pieces[4] == 0
        &&& pop((self.pieces[1] | self.pieces[2]) & self.colors[0]) <= 1
        &&& pop((self.pieces[1] | self.pieces[2]) & self.colors[1]) <= 1
    }

    /// A pawn, rook or queen of either colour is always enough to go on
    /// playing for mate, so the material is never insufficient while one
    /// stands on the board; two bare kings always are.
    pub proof fn lemma_insufficient_material(&self)
        requires
            self.wf(),
        ensures
            (exists|s: int| 0 <= s < 64 && #[trigger] self.board@[s] is Some && (self.board@[s]->0.piece_type
                == PieceType::Pawn || self.board@[s]->0.piece_type == PieceType::Rook
                || self.board@[s]->0.piece_type == PieceType::Queen)) ==> !self.insufficient(),
            (forall|s: int| 0 <= s < 64 ==> #[trigger] self.board@[s] is None || self.board@[s]->0.piece_type
                == PieceType::King) ==> self.insufficient(),
    {
        lemma_has_zero();
        if exists|s: int| 0 <= s < 64 && #[trigger] self.board@[s] is Some && (self.board@[s]->0.piece_type
            == PieceType::Pawn || self.board@[s]->0.piece_type == PieceType::Rook
            || self.board@[s]->0.piece_type == PieceType::Queen) {
            let s = choose|s: int| 0 <= s < 64 && #[trigger] self.board@[s] is Some && (self.board@[s]->0.piece_type
                == PieceType::Pawn || self.board@[s]->0.piece_type == PieceType::Rook
                || self.board@[s]->0.piece_type == PieceType::Queen);
            let i = self.board@[s]->0.piece_type.spec_index() as int;
            assert(holds_type(self.board@[s], i));
            assert(member(self.pieces[i], s));
            assert(!member(0u64, s));
            assert(self.pieces[i] != 0);
        }
        if forall|s: int| 0 <= s < 64 ==> #[trigger] self.board@[s] is None || self.board@[s]->0.piece_type
            == PieceType::King {
            assert forall|i: int| 0 <= i < 5 implies self.pieces[i] == 0 by {
                assert forall|t: int| 0 <= t < 64 implies #[trigger] member(self.pieces[i], t) == member(0u64, t) by {
                    assert(member(self.pieces[i], t) == holds_type(self.board@[t], i));
                }
                lemma_bits_ext(self.pieces[i], 0u64);
            }
            assert(self.pieces[1] == 0 && self.pieces[2] == 0);
            lemma_has_or(0u64, 0u64);
            assert forall|t: int| 0 <= t < 64 implies #[trigger] member(0u64 | 0u64, t) == member(0u64, t) by {}
            lemma_bits_ext(0u64 | 0u64, 0u64);
            lemma_has_and(0u64, self.colors[0]);
            lemma_has_and(0u64, self.colors[1]);
            assert forall|t: int| 0 <= t < 64 implies #[trigger] member(0u64 & self.colors[0], t) == member(0u64, t) by {}
            assert forall|t: int| 0 <= t < 64 implies #[trigger] member(0u64 & self.colors[1], t) == member(0u64, t) by {}
            lemma_bits_ext(0u64 & self.colors[0], 0u64);
            lemma_bits_ext(0u64 & self.colors[1], 0u64);
            assert(pop(0u64) == 0);
        }
    }

    /// Square `s` holds a knight or a bishop of colour `c`.
    pub open spec fn minor_on(&self, c: Color, s: int) -> bool {
        0 <= s < 64 && self.board@[s] is Some && self.board@[s]->0.color == c && (self.board@[s]->0.piece_type
            == PieceType::Knight || self.board@[s]->0.piece_type == PieceType::Bishop)
    }

    /// Two knights or bishops of one colour are counted as enough to go on
    /// playing for mate; with no pawns, rooks or queens on the board and at
    /// most one knight or bishop a side, the material is insufficient.
    pub proof fn lemma_insufficient_minors(&self)
        requires
            self.wf(),
        ensures
            (exists|c: Color, s1: int, s2: int| s1 != s2 && #[trigger] self.minor_on(c, s1) && #[trigger] self.minor_on(c, s2))
                ==> !self.insufficient(),
            (forall|s: int| 0 <= s < 64 && #[trigger] self.board@[s] is Some ==> self.board@[s]->0.piece_type
                == PieceType::King || self.board@[s]->0.piece_type == PieceType::Knight || self.board@[s]->0.piece_type
                == PieceType::Bishop) && (forall|c: Color, s1: int, s2: int| #[trigger] self.minor_on(c, s1)
                && #[trigger] self.minor_on(c, s2) ==> s1 == s2) ==> self.insufficient(),
    {
        lemma_has_zero();
        lemma_has_or(self.pieces[1], self.pieces[2]);
        lemma_has_and(self.pieces[1] | self.pieces[2], self.colors[0]);
        lemma_has_and(self.pieces[1] | self.pieces[2], self.colors[1]);
        let b0 = (self.pieces[1] | self.pieces[2]) & self.colors[0];
        let b1 = (self.pieces[1] | self.pieces[2]) & self.colors[1];
        assert forall|t: int| #[trigger] member(b0, t) <==> self.minor_on(Color::White, t) by {
            if 0 <= t < 64 {
                assert(member(self.pieces[1], t) == holds_type(self.board@[t], 1));
                assert(member(self.pieces[2], t) == holds_type(self.board@[t], 2));
                assert(member(self.colors[0], t) == holds_color(self.board@[t], 0));
            }
        }
        assert forall|t: int| #[trigger] member(b1, t) <==> self.minor_on(Color::Black, t) by {
            if 0 <= t < 64 {
                assert(member(self.pieces[1], t) == holds_type(self.board@[t], 1));
                assert(member(self.pieces[2], t) == holds_type(self.board@[t], 2));
                assert(member(self.colors[1], t) == holds_color(self.board@[t], 1));
            }
        }
        crate::symmetry::lemma_pop_sum(b0);
        crate::symmetry::lemma_pop_sum(b1);
        let f0 = crate::symmetry::bit_at(b0);
        let f1 = crate::symmetry::bit_at(b1);
        if exists|c: Color, s1: int, s2: int| s1 != s2 && #[trigger] self.minor_on(c, s1) && #[trigger] self.minor_on(c, s2) {
            let (c, s1, s2) = choose|c: Color, s1: int, s2: int| s1 != s2 && #[trigger] self.minor_on(c, s1)
                && #[trigger] self.minor_on(c, s2);
            if c == Color::White {
                lemma_sum_two(f0, 64, s1, s2);
            } else {
                lemma_sum_two(f1, 64, s1, s2);
            }
        }
        if (forall|s: int| 0 <= s < 64 && #[trigger] self.board@[s] is Some ==> self.board@[s]->0.piece_type
            == PieceType::King || self.board@[s]->0.piece_type == PieceType::Knight || self.board@[s]->0.piece_type
            == PieceType::Bishop) && (forall|c: Color, s1: int, s2: int| #[trigger] self.minor_on(c, s1)
            && #[trigger] self.minor_on(c, s2) ==> s1 == s2) {
            assert forall|i: int| i == 0 || i == 3 || i == 4 implies self.pieces[i] == 0 by {
                assert forall|t: int| 0 <= t < 64 implies #[trigger] member(self.pieces[i], t) == member(0u64, t) by {
                    assert(member(self.pieces[i], t) == holds_type(self.board@[t], i));
                }
                lemma_bits_ext(self.pieces[i], 0u64);
            }
            assert forall|i: int, j: int| 0 <= i < 64 && 0 <= j < 64 && #[trigger] f0(i) == 1 && #[trigger] f0(j) == 1 implies i == j by {
                assert(self.minor_on(Color::White, i) && self.minor_on(Color::White, j));
            }
            assert forall|i: int, j: int| 0 <= i < 64 && 0 <= j < 64 && #[trigger] f1(i) == 1 && #[trigger] f1(j) == 1 implies i == j by {
                assert(self.minor_on(Color::Black, i) && self.minor_on(Color::Black, j));
            }
            lemma_sum_at_most_one(f0, 64);
            lemma_sum_at_most_one(f1, 64);
        }
    }

    pub fn is_insufficient_material(&self) -> (r: bool)
        ensures
            r == self.insufficient(),
    {
        if self.pieces[0] != 0 || self.pieces[3] != 0 || self.pieces[4] != 0 {
            return false;
        }
        let minors = self.pieces[1] | self.pieces[2];
        popcount(minors & self.colors[0]) <= 1 && popcount(minors & self.colors[1]) <= 1
    }

    /// The current hash occurs among the recorded positions since the last
    /// irreversible move, at an even distance of at least two plies.
    pub open spec fn repeated(&self) -> bool {
        let len = self.repetitions@.len() as int;
        let limit = if len >= self.halfmove_clock { len - self.halfmove_clock } else { 0 };
        exists|i: int| limit <= i && i + 2 <= len && (len - 2 - i) % 2 == 0 && #[trigger] self.repetitions@[i] == self.hash
    }

    /// Whether the current position has occurred before in this game or search.
    pub fn is_repetition(&self) -> (r: bool)
        ensures
            r == self.repeated(),
    {
        let len = self.repetitions.len();
        let hm = self.halfmove_clock as usize;
        let limit = if len >= hm { len - hm } else { 0 };
        if len < 2 {
            return false;
        }
        let mut i: usize = len - 2;
        loop
            invariant
                len == self.repetitions@.len(),
                limit <= len,
                limit == (if len >= self.halfmove_clock as usize { len - self.halfmove_clock as usize } else { 0 }),
                i + 2 <= len,
                (len - 2 - i) % 2 == 0,
                forall|j: int| i < j && j + 2 <= len && (len - 2 - j) % 2 == 0 ==> #[trigger] self.repetitions@[j] != self.hash,
            decreases i,
        {
            if i < limit {
                proof {
                    assert forall|j: int| limit <= j && j + 2 <= len && (len - 2 - j) % 2 == 0 implies #[trigger] self.repetitions@[j] != self.hash by {
                        assert(i < j);
                    }
                }
                return false;
            }
            if self.repetitions[i] == self.hash {
                return true;
            }
            if i < 2 {
                proof {
                    assert forall|j: int| limit <= j && j + 2 <= len && (len - 2 - j) % 2 == 0 implies #[trigger] self.repetitions@[j] != self.hash by {
                        if j < i {
                            assert((len - 2 - j) % 2 == 0 && (len - 2 - i) % 2 == 0);
                            assert(j == i - 1 || j == i - 2 || j < i - 2);
                        }
                    }
                }
                return false;
            }
            i = i - 2;
        }
    }

    pub fn is_draw(&self) -> (r: bool)
        ensures
            r == (self.halfmove_clock >= 100 || self.repeated() || self.insufficient()),
    {
        self.halfmove_clock >= 100 || self.is_repetition() || self.is_insufficient_material()
    }

    /// Whether the side to move has any piece besides pawns and its king;
    /// null-move pruning is unsound in zugzwang-prone endings without one.
    pub fn has_non_pawn_material(&self, color: Color) -> (r: bool)
        requires
            self.wf(),
        ensures
            r == exists|s: int| #[trigger] non_pawn_at(self.board@, s, color),
    {
        let pawns = self.piece_type_bb(PieceType::Pawn);
        let kings = self.piece_type_bb(PieceType::King);
        let pawns_and_king = pawns | kings;
        let own = self.color_bb(color);
        let x = own & !pawns_and_king;
        proof {
            lemma_has_or(pawns, kings);
            lemma_has_not(pawns_and_king);
            lemma_has_and(own, !pawns_and_king);
            lemma_zero_iff(x);
            if x != 0 {
                let s = choose|s: int| 0 <= s < 64 && #[trigger] member(x, s);
                assert(non_pawn_at(self.board@, s, color));
            } else {
                assert forall|s: int| !#[trigger] non_pawn_at(self.board@, s, color) by {
                    if 0 <= s < 64 {
                        assert(!member(x, s));
                    }
                }
            }
        }
        x != 0
    }

    /// Makes `mv` only if it leaves the mover's king safe. Returns false and
    /// leaves the position untouched otherwise.
    pub fn try_make_move(&mut self, mv: Move) -> (r: bool)
        requires
            old(self).wf(),
            old(self).applicable(mv),
            old(self).has_king(old(self).side_to_move),
        ensures
            final(self).wf(),
            final(self).keys == old(self).keys,
            r == legal_after(old(self).state(), mv),
            r ==> final(self).state() == make_state(old(self).state(), mv),
            !r ==> final(self).state() == old(self).state(),
    {
        let ghost s0 = self.state();
        let us = self.side_to_move;
        proof {
            lemma_king_survives(s0, mv);
            lemma_unmake_after_make(s0, mv);
        }
        self.make_move(mv);
        let k = self.king_square(us);
        let them = self.side_to_move;
        if self.is_attacked(k, them) {
            self.unmake_move();
            false
        } else {
            true
        }
    }

    /// Passes the turn without moving. Only legal when not in check.
    pub fn make_null_move(&mut self)
        requires
            old(self).wf(),
            old(self).halfmove_clock < 0xffff,
            old(self).fullmove_number < 0xffff,
        ensures
            final(self).wf(),
            final(self).keys == old(self).keys,
            final(self).state() == null_state(old(self).state()),
    {
        let ghost s0 = self.state();
        let info = StateInfo {
            mv: Move::none(),
            captured: None,
            castling: self.castling,
            en_passant: self.en_passant,
            halfmove_clock: self.halfmove_clock,
            hash: self.hash,
        };
        self.history.push(info);
        let h = self.hash;
        self.repetitions.push(h);
        match self.en_passant {
            Some(ep) => {
                let k = zobrist::en_passant(&self.keys, file_of(ep));
                self.hash = self.hash ^ k;
            },
            None => {
                proof {
                    lemma_xor_basics(self.hash, 0);
                }
            },
        }
        self.en_passant = None;
        self.halfmove_clock = self.halfmove_clock + 1;
        self.side_to_move = self.side_to_move.flip();
        let ks = zobrist::side_to_move(&self.keys);
        self.hash = self.hash ^ ks;
        if self.side_to_move == Color::White {
            self.fullmove_number = self.fullmove_number + 1;
        }
        proof {
            assert(self.history@ == s0.history.push(info));
            assert(self.state() == null_state(s0));
        }
    }

    pub fn unmake_null_move(&mut self)
        requires
            old(self).wf(),
            old(self).history@.len() > 0,
            old(self).side_to_move == Color::White ==> old(self).fullmove_number >= 1,
        ensures
            final(self).wf(),
            final(self).keys == old(self).keys,
            final(self).state() == unnull_state(old(self).state()),
    {
        let ghost s0 = self.state();
        let state = match self.history.pop() {
            Some(st) => st,
            None => {
                proof {
                    assert(false);
                }
                return;
            },
        };
        self.repetitions.pop();
        proof {
            assert(state == s0.history.last());
            assert forall|i: int| 0 <= i < self.history@.len() implies (#[trigger] self.history@[i]).castling < 16 && (
                self.history@[i].en_passant matches Some(e) ==> e < 64) by {
                assert(self.history@[i] == s0.history[i]);
            }
        }
        if self.side_to_move == Color::White {
            self.fullmove_number = self.fullmove_number - 1;
        }
        self.side_to_move = self.side_to_move.flip();
        self.castling = state.castling;
        self.en_passant = state.en_passant;
        self.halfmove_clock = state.halfmove_clock;
        self.hash = state.hash;
    }

    pub fn empty() -> (pos: Position)
        ensures
            pos.wf(),
            forall|i: int| 0 <= i < 64 ==> #[trigger] pos.board@[i] is None,
            pos.side_to_move == Color::White,
            pos.castling == 0,
            pos.en_passant is None,
            pos.halfmove_clock == 0,
            pos.fullmove_number == 1,
            pos.hash == 0,
            pos.history@.len() == 0,
            pos.repetitions@.len() == 0,
            board_hash(pos.board@, 64) == 0,
    {
        let pos = Position {
            pieces: [0u64; 6],
            colors: [0u64; 2],
            board: [None; 64],
            side_to_move: Color::White,
            castling: 0,
            en_passant: None,
            halfmove_clock: 0,
            fullmove_number: 1,
            hash: 0,
            history: Vec::new(),
            repetitions: Vec::new(),
            keys: Keys::new(),
        };
        proof {
            lemma_has_zero();
            assert(pos.board@.len() == 64);
            lemma_board_hash_empty(pos.board@, 64);
        }
        pos
    }

    /// The standard starting position.
    pub fn startpos() -> (pos: Position)
        ensures
            pos.wf(),
            pos.hash_ok(),
            forall|i: int| 0 <= i < 64 ==> #[trigger] pos.board@[i] == start_piece(i),
            pos.side_to_move == Color::White,
            pos.castling == 15,
            pos.en_passant is None,
            pos.halfmove_clock == 0,
            pos.fullmove_number == 1,
            pos.history@.len() == 0,
            pos.repetitions@.len() == 0,
    {
        let mut pos = Position::empty();
        let mut sq: u8 = 0;
        proof {
            lemma_xor_basics(0, 0);
        }
        while sq < 64
            invariant
                pos.wf(),
                sq <= 64,
                forall|i: int| 0 <= i < sq ==> #[trigger] pos.board@[i] == start_piece(i),
                forall|i: int| sq <= i < 64 ==> #[trigger] pos.board@[i] is None,
                pos.hash ^ board_hash(pos.board@, 64) == 0,
                pos.side_to_move == Color::White,
                pos.castling == 0,
                pos.en_passant is None,
                pos.halfmove_clock == 0,
                pos.fullmove_number == 1,
                pos.history@.len() == 0,
                pos.repetitions@.len() == 0,
            decreases 64 - sq,
        {
            match start_piece_at(sq) {
                Some(p) => pos.add_piece(p, sq),
                None => {},
            }
            sq = sq + 1;
        }
        let k = zobrist::castling(&pos.keys, 15);
        let ghost hb = pos.hash;
        pos.castling = 15;
        pos.hash = pos.hash ^ k;
        proof {
            let bh = board_hash(pos.board@, 64);
            let hh = pos.hash;
            assert(hh == bh ^ k ^ 0u64 ^ 0u64) by (bit_vector)
                requires
                    hh == hb ^ k,
                    hb ^ bh == 0,
            ;
        }
        pos
    }
}

impl Clone for Position {
    fn clone(&self) -> (r: Self)
        ensures
            r.pieces == self.pieces,
            r.colors == self.colors,
            r.board == self.board,
            r.state() == self.state(),
            r.keys.pieces@ == self.keys.pieces@,
            r.keys.castling@ == self.keys.castling@,
            r.keys.en_passant@ == self.keys.en_passant@,
            r.keys.side_to_move == self.keys.side_to_move,
            self.wf() ==> r.wf(),
            self.hash_ok() ==> r.hash_ok(),
    {
        let r = Position {
            pieces: self.pieces,
            colors: self.colors,
            board: self.board,
            side_to_move: self.side_to_move,
            castling: self.castling,
            en_passant: self.en_passant,
            halfmove_clock: self.halfmove_clock,
            fullmove_number: self.fullmove_number,
            hash: self.hash,
            history: crate::text::copy_vec(&self.history),
            repetitions: crate::text::copy_vec(&self.repetitions),
            keys: self.keys.clone(),
        };
        proof {
            assert(r.history() == self.history());
            assert(r.repetitions() == self.repetitions());
        }
        r
    }
}

} // verus!
