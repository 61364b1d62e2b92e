//! Pseudo-legal move generation.
//!
//! Moves are generated pseudo-legally and filtered by `Position::try_make_move`,
//! which rejects any move leaving the king in check. This keeps generation
//! simple at a small cost in make/unmake work.
use vstd::prelude::*;
use crate::attacks::{self, pawn_attack_rel, knight_rel, king_rel, file, rank};
use crate::bitboard::{
    Bitboard, member, bb, contains, pop_lsb, iter_bits, BitIter, rank_bb, lemma_has_or, lemma_has_and,
    lemma_has_not, lemma_has_zero, spec_lsb,
};
use crate::position::{
    Position, PosState, piece_attacks_on, attacked_on, rook_line, bishop_line, clear_on,
    lemma_attacks_occ_board, make_state, board_has_king, king_on, king_from, moved_board,
    lemma_king_survives,
};
use crate::types::{Color, Move, Piece, PieceType, Square, move_flags};

verus! {

/// No legal chess position exceeds this many pseudo-legal moves.
pub const MAX_MOVES: usize = 256;

/// A move buffer for one position's moves.
pub struct MoveList {
    pub moves: Vec<Move>,
}

impl View for MoveList {
    type V = Seq<Move>;

    open spec fn view(&self) -> Seq<Move> {
        self.moves@
    }
}

impl MoveList {
    pub fn new() -> (l: MoveList)
        ensures
            l@.len() == 0,
    {
        MoveList { moves: Vec::with_capacity(MAX_MOVES) }
    }

    pub fn push(&mut self, mv: Move)
        ensures
            final(self)@ == old(self)@.push(mv),
    {
        self.moves.push(mv);
    }

    pub fn len(&self) -> (n: usize)
        ensures
            n == self@.len(),
    {
        self.moves.len()
    }

    pub fn get(&self, i: usize) -> (mv: Move)
        requires
            i < self@.len(),
        ensures
            mv == self@[i as int],
    {
        self.moves[i]
    }

    /// The moves, in generation order.
    pub fn to_vec(&self) -> (v: Vec<Move>)
        ensures
            v@ == self@,
    {
        self.moves.clone()
    }
}

/// One rank forward for the side to move.
pub open spec fn fwd(us: Color) -> int {
    if us == Color::White {
        8
    } else {
        -8
    }
}

/// The last rank, where pawns promote.
pub open spec fn promo_rank(us: Color, sq: int) -> bool {
    if us == Color::White {
        rank(sq) == 7
    } else {
        rank(sq) == 0
    }
}

/// The rank pawns start on.
pub open spec fn start_rank(us: Color, sq: int) -> bool {
    if us == Color::White {
        rank(sq) == 1
    } else {
        rank(sq) == 6
    }
}

pub open spec fn is_enemy(s: PosState, sq: int) -> bool {
    0 <= sq < 64 && s.board[sq] is Some && s.board[sq]->0.color != s.side
}

pub open spec fn is_quiet_promo(f: u16) -> bool {
    8 <= f <= 11
}

pub open spec fn is_capture_promo(f: u16) -> bool {
    12 <= f <= 15
}

/// A single pawn push, promoting on the last rank.
pub open spec fn pawn_push(s: PosState, from: int, to: int, f: u16) -> bool {
    &&& to == from + fwd(s.side)
    &&& 0 <= to < 64
    &&& s.board[to] is None
    &&& if promo_rank(s.side, to) {
        is_quiet_promo(f)
    } else {
        f == 0
    }
}

/// A double pawn push from the starting rank.
pub open spec fn pawn_double(s: PosState, from: int, to: int, f: u16) -> bool {
    &&& f == 1
    &&& start_rank(s.side, from)
    &&& to == from + 2 * fwd(s.side)
    &&& s.board[from + fwd(s.side)] is None
    &&& s.board[to] is None
}

/// A pawn capture, promoting on the last rank.
pub open spec fn pawn_capture(s: PosState, from: int, to: int, f: u16) -> bool {
    &&& pawn_attack_rel(s.side, from, to)
    &&& is_enemy(s, to)
    &&& if promo_rank(s.side, to) {
        is_capture_promo(f)
    } else {
        f == 4
    }
}

/// An en passant capture onto the recorded square.
pub open spec fn pawn_ep(s: PosState, from: int, to: int, f: u16) -> bool {
    &&& f == 5
    &&& s.en_passant == Some(to as u8)
    &&& pawn_attack_rel(s.side, from, to)
}

/// A non-pawn piece moving along its attack pattern to a square not held by
/// its own side.
pub open spec fn piece_step(s: PosState, p: Piece, from: int, to: int, f: u16) -> bool {
    &&& piece_attacks_on(s.board, p, from, to)
    &&& 0 <= to < 64
    &&& (s.board[to] is Some ==> s.board[to]->0.color != s.side)
    &&& f == (if s.board[to] is Some {
        4u16
    } else {
        0u16
    })
}

/// Castling: rights held, the squares between king and rook empty, and the
/// king neither in check nor crossing an attacked square.
pub open spec fn castle(s: PosState, from: int, to: int, f: u16) -> bool {
    let home: int = if s.side == Color::White {
        0
    } else {
        56
    };
    let them = s.side.spec_flip();
    let king_side: u8 = if s.side == Color::White {
        1
    } else {
        4
    };
    let queen_side: u8 = if s.side == Color::White {
        2
    } else {
        8
    };
    &&& from == home + 4
    &&& !attacked_on(s.board, home + 4, them)
    &&& ((f == 2 && to == home + 6 && s.castling & king_side != 0 && s.board[home + 5] is None
        && s.board[home + 6] is None && !attacked_on(s.board, home + 5, them)) || (f == 3 && to
        == home + 2 && s.castling & queen_side != 0 && s.board[home + 1] is None && s.board[home
        + 2] is None && s.board[home + 3] is None && !attacked_on(s.board, home + 3, them)))
}

/// The moves `generate_moves` produces: the piece on `from` belongs to the side
/// to move and the move follows that piece's rules, ignoring whether the
/// mover's king is left in check.
pub open spec fn pseudo_legal(s: PosState, mv: Move) -> bool {
    let from = mv.spec_from() as int;
    let to = mv.spec_to() as int;
    let f = mv.spec_flags();
    ||| {
        &&& 0 <= from < 64
        &&& s.board[from] is Some
        &&& s.board[from]->0.color == s.side
        &&& if s.board[from]->0.piece_type == PieceType::Pawn {
            pawn_push(s, from, to, f) || pawn_double(s, from, to, f) || pawn_capture(s, from, to, f)
                || pawn_ep(s, from, to, f)
        } else {
            piece_step(s, s.board[from]->0, from, to, f)
        }
    }
    ||| castle(s, from, to, f)
}

/// Every move in `l` is pseudo-legal in `s`, and tactical when only
/// captures were asked for.
pub open spec fn all_pseudo(s: PosState, l: Seq<Move>, captures_only: bool) -> bool {
    forall|i: int| 0 <= i < l.len() ==> pseudo_legal(s, #[trigger] l[i]) && (captures_only ==> tactical(l[i]))
}

/// The quiescence move set: captures and promotions.
pub open spec fn tactical(mv: Move) -> bool {
    mv.spec_is_capture() || mv.spec_is_promotion()
}

/// The flag of the first of the four promotions of a push or a capture.
pub open spec fn promo_base(capture: bool) -> u16 {
    if capture {
        12
    } else {
        8
    }
}

fn push_promotions(list: &mut MoveList, from: Square, to: Square, capture: bool)
    requires
        from < 64,
        to < 64,
    ensures
        final(list)@ == old(list)@.push(Move::spec_new(from, to, (promo_base(capture) + 3) as u16)).push(
            Move::spec_new(from, to, promo_base(capture)),
        ).push(Move::spec_new(from, to, (promo_base(capture) + 1) as u16)).push(
            Move::spec_new(from, to, (promo_base(capture) + 2) as u16),
        ),
{
    let base = if capture {
        move_flags::PROMO_CAPTURE_KNIGHT
    } else {
        move_flags::PROMO_KNIGHT
    };
    // Queen first: it is nearly always best, so it gets searched first.
    list.push(Move::new(from, to, base + 3));
    list.push(Move::new(from, to, base));
    list.push(Move::new(from, to, base + 1));
    list.push(Move::new(from, to, base + 2));
}

/// After the four promotions of `from`-`to` were pushed onto `before`, the
/// list holds all of them, each pseudo-legal when the promotion is.
proof fn lemma_promotions_pushed(st: PosState, before: Seq<Move>, after: Seq<Move>, from: Square, to: Square, capture: bool, captures_only: bool)
    requires
        from < 64,
        to < 64,
        after == before.push(Move::spec_new(from, to, (promo_base(capture) + 3) as u16)).push(
            Move::spec_new(from, to, promo_base(capture)),
        ).push(Move::spec_new(from, to, (promo_base(capture) + 1) as u16)).push(
            Move::spec_new(from, to, (promo_base(capture) + 2) as u16),
        ),
        all_pseudo(st, before, captures_only),
        forall|f: u16| promo_base(capture) <= f < promo_base(capture) + 4 ==> #[trigger] pseudo_legal(st, Move::spec_new(from, to, f)),
    ensures
        all_pseudo(st, after, captures_only),
        extends(before, after),
        forall|mv: Move| mv.spec_from() == from && mv.spec_to() == to && promo_base(capture) <= mv.spec_flags() < promo_base(capture) + 4 ==> #[trigger] after.contains(mv),
{
    let b = promo_base(capture);
    let n = before.len() as int;
    assert(after[n] == Move::spec_new(from, to, (b + 3) as u16));
    assert(after[n + 1] == Move::spec_new(from, to, b));
    assert(after[n + 2] == Move::spec_new(from, to, (b + 1) as u16));
    assert(after[n + 3] == Move::spec_new(from, to, (b + 2) as u16));
    assert forall|i: int| 0 <= i < after.len() implies pseudo_legal(st, #[trigger] after[i]) && (captures_only ==> tactical(after[i])) by {
        if i >= n {
            let f = after[i].spec_flags();
            let k = i - n;
            let fl: u16 = if k == 0 { (b + 3) as u16 } else if k == 1 { b } else if k == 2 { (b + 1) as u16 } else { (b + 2) as u16 };
            assert(after[i] == Move::spec_new(from, to, fl));
            assert(pseudo_legal(st, Move::spec_new(from, to, fl)));
            crate::types::lemma_move_fields(from, to, fl);
            lemma_flags_promo(fl);
        } else {
            assert(after[i] == before[i]);
        }
    }
    assert forall|mv: Move| mv.spec_from() == from && mv.spec_to() == to && b <= mv.spec_flags() < b + 4 implies #[trigger] after.contains(mv) by {
        crate::types::lemma_move_ext(mv);
        let f = mv.spec_flags();
        if f == b + 3 {
            assert(after[n] == mv);
        } else if f == b {
            assert(after[n + 1] == mv);
        } else if f == b + 1 {
            assert(after[n + 2] == mv);
        } else {
            assert(after[n + 3] == mv);
        }
    }
}

/// `b` keeps every move of `a` in place and adds more after them.
pub open spec fn extends(a: Seq<Move>, b: Seq<Move>) -> bool {
    a.len() <= b.len() && forall|i: int| 0 <= i < a.len() ==> b[i] == a[i]
}

proof fn lemma_flags_promo(f: u16)
    requires
        f < 16,
    ensures
        (f >= 8) == (f & 8 != 0),
        (f & 4 != 0) == (f == 4 || f == 5 || f == 6 || f == 7 || f >= 12),
{
    crate::types::lemma_flag_bits(f);
}

/// A pawn of the side to move stands on `sq`.
pub open spec fn pawn_at(s: PosState, sq: int) -> bool {
    0 <= sq < 64 && s.board[sq] == Some(Piece { color: s.side, piece_type: PieceType::Pawn })
}

pub open spec fn promo_push(s: PosState, mv: Move) -> bool {
    let from = mv.spec_from() as int;
    let to = mv.spec_to() as int;
    pawn_at(s, from) && pawn_push(s, from, to, mv.spec_flags()) && promo_rank(s.side, to)
}

pub open spec fn quiet_push(s: PosState, mv: Move) -> bool {
    let from = mv.spec_from() as int;
    let to = mv.spec_to() as int;
    pawn_at(s, from) && pawn_push(s, from, to, mv.spec_flags()) && !promo_rank(s.side, to)
}

pub open spec fn double_push(s: PosState, mv: Move) -> bool {
    pawn_at(s, mv.spec_from() as int) && pawn_double(s, mv.spec_from() as int, mv.spec_to() as int, mv.spec_flags())
}

pub open spec fn pawn_take(s: PosState, mv: Move) -> bool {
    pawn_at(s, mv.spec_from() as int) && pawn_capture(s, mv.spec_from() as int, mv.spec_to() as int, mv.spec_flags())
}

pub open spec fn ep_take(s: PosState, mv: Move) -> bool {
    pawn_at(s, mv.spec_from() as int) && pawn_ep(s, mv.spec_from() as int, mv.spec_to() as int, mv.spec_flags())
}

/// A pawn move of the side to move by the pawn rules.
pub open spec fn pawn_move(s: PosState, mv: Move) -> bool {
    let from = mv.spec_from() as int;
    let to = mv.spec_to() as int;
    let f = mv.spec_flags();
    pawn_at(s, from) && (pawn_push(s, from, to, f) || pawn_double(s, from, to, f) || pawn_capture(s, from, to, f)
        || pawn_ep(s, from, to, f))
}

/// The square a pawn pushed to `to` came from.
pub open spec fn push_origin(s: PosState, to: int) -> int {
    to - fwd(s.side)
}

/// Appending a move the list does not hold keeps its moves distinct.
proof fn lemma_push_fresh(l: Seq<Move>, x: Move)
    requires
        l.no_duplicates(),
        forall|i: int| 0 <= i < l.len() ==> #[trigger] l[i] != x,
    ensures
        l.push(x).no_duplicates(),
{
    let n = l.push(x);
    assert forall|i: int, j: int| 0 <= i < n.len() && 0 <= j < n.len() && i != j implies n[i] != n[j] by {
        if i < l.len() && j < l.len() {
            assert(n[i] == l[i] && n[j] == l[j]);
        } else if i < l.len() {
            assert(n[i] == l[i]);
        } else {
            assert(n[j] == l[j]);
        }
    }
}

/// Appending the four promotions of `from`-`to`, none of them held yet, keeps
/// the moves distinct.
proof fn lemma_promotions_fresh(before: Seq<Move>, after: Seq<Move>, from: Square, to: Square, capture: bool)
    requires
        from < 64,
        to < 64,
        before.no_duplicates(),
        after == before.push(Move::spec_new(from, to, (promo_base(capture) + 3) as u16)).push(
            Move::spec_new(from, to, promo_base(capture)),
        ).push(Move::spec_new(from, to, (promo_base(capture) + 1) as u16)).push(
            Move::spec_new(from, to, (promo_base(capture) + 2) as u16),
        ),
        forall|i: int| 0 <= i < before.len() ==> !((#[trigger] before[i]).spec_from() == from && before[i].spec_to() == to
            && promo_base(capture) <= before[i].spec_flags() < promo_base(capture) + 4),
    ensures
        after.no_duplicates(),
{
    let b = promo_base(capture);
    let m0 = Move::spec_new(from, to, (b + 3) as u16);
    let m1 = Move::spec_new(from, to, b);
    let m2 = Move::spec_new(from, to, (b + 1) as u16);
    let m3 = Move::spec_new(from, to, (b + 2) as u16);
    crate::types::lemma_move_fields(from, to, (b + 3) as u16);
    crate::types::lemma_move_fields(from, to, b);
    crate::types::lemma_move_fields(from, to, (b + 1) as u16);
    crate::types::lemma_move_fields(from, to, (b + 2) as u16);
    let a0 = before.push(m0);
    let a1 = a0.push(m1);
    let a2 = a1.push(m2);
    assert forall|i: int| 0 <= i < before.len() implies #[trigger] before[i] != m0 by {}
    lemma_push_fresh(before, m0);
    assert forall|i: int| 0 <= i < a0.len() implies #[trigger] a0[i] != m1 by {
        if i < before.len() {
            assert(a0[i] == before[i]);
        }
    }
    lemma_push_fresh(a0, m1);
    assert forall|i: int| 0 <= i < a1.len() implies #[trigger] a1[i] != m2 by {
        if i < before.len() {
            assert(a1[i] == before[i]);
        } else if i == before.len() {
            assert(a1[i] == m0);
        }
    }
    lemma_push_fresh(a1, m2);
    assert forall|i: int| 0 <= i < a2.len() implies #[trigger] a2[i] != m3 by {
        if i < before.len() {
            assert(a2[i] == before[i]);
        } else if i == before.len() {
            assert(a2[i] == m0);
        } else if i == before.len() + 1 {
            assert(a2[i] == m1);
        }
    }
    lemma_push_fresh(a2, m3);
}

/// Pushes onto the last rank, each as its four promotions.
fn gen_promo_pushes(pos: &Position, list: &mut MoveList, targets: Bitboard, captures_only: bool)
    requires
        pos.wf(),
        all_pseudo(pos.state(), old(list)@, captures_only),
        forall|t: int| #[trigger] member(targets, t) <==> 0 <= t < 64 && promo_rank(pos.state().side, t)
            && pos.state().board[t] is None && pawn_at(pos.state(), push_origin(pos.state(), t)),
        old(list)@.no_duplicates(),
        forall|i: int| 0 <= i < old(list)@.len() ==> !promo_push(pos.state(), #[trigger] old(list)@[i]),
    ensures
        all_pseudo(pos.state(), final(list)@, captures_only),
        extends(old(list)@, final(list)@),
        forall|mv: Move| #[trigger] promo_push(pos.state(), mv) ==> final(list)@.contains(mv),
        final(list)@.no_duplicates(),
        forall|i: int| old(list)@.len() <= i < final(list)@.len() ==> promo_push(pos.state(), #[trigger] final(list)@[i]),
{
    let ghost st = pos.state();
    let ghost l0 = list@;
    let white = pos.side_to_move == Color::White;
    let mut rem = targets;
    while rem != 0
        invariant
            pos.wf(),
            st == pos.state(),
            white == (st.side == Color::White),
            forall|t: int| #[trigger] member(rem, t) ==> member(targets, t),
            forall|t: int| #[trigger] member(targets, t) <==> 0 <= t < 64 && promo_rank(st.side, t)
                && st.board[t] is None && pawn_at(st, push_origin(st, t)),
            all_pseudo(st, list@, captures_only),
            extends(l0, list@),
            forall|mv: Move| #[trigger] promo_push(st, mv) && !member(rem, mv.spec_to() as int) ==> list@.contains(mv),
            list@.no_duplicates(),
            forall|i: int| 0 <= i < l0.len() ==> !promo_push(st, #[trigger] l0[i]),
            forall|i: int| l0.len() <= i < list@.len() ==> promo_push(st, #[trigger] list@[i]) && !member(rem, list@[i].spec_to() as int),
        decreases rem,
    {
        let ghost rem_before = rem;
        let ghost before = list@;
        let to = pop_lsb(&mut rem);
        assert(member(targets, to as int));
        let from = if white {
            to - 8
        } else {
            to + 8
        };
        proof {
            assert forall|f: u16| 8 <= f < 12 implies #[trigger] pseudo_legal(st, Move::spec_new(from, to, f)) by {
                crate::types::lemma_move_fields(from, to, f);
            }
        }
        proof {
            assert forall|i: int| 0 <= i < before.len() implies !((#[trigger] before[i]).spec_from() == from && before[i].spec_to() == to
                && promo_base(false) <= before[i].spec_flags() < promo_base(false) + 4) by {
                if before[i].spec_from() == from && before[i].spec_to() == to && 8 <= before[i].spec_flags() < 12 {
                    crate::types::lemma_move_ext(before[i]);
                    crate::types::lemma_move_fields(from, to, before[i].spec_flags());
                    assert(promo_push(st, before[i]));
                    if i < l0.len() {
                        assert(l0[i] == before[i]);
                    } else {
                        assert(!member(rem_before, to as int));
                    }
                }
            }
        }
        push_promotions(list, from, to, false);
        proof {
            lemma_promotions_pushed(st, before, list@, from, to, false, captures_only);
            lemma_promotions_fresh(before, list@, from, to, false);
            assert forall|i: int| l0.len() <= i < list@.len() implies promo_push(st, #[trigger] list@[i]) && !member(rem, list@[i].spec_to() as int) by {
                if i < before.len() {
                    assert(list@[i] == before[i]);
                } else {
                    let k = i - before.len();
                    let f: u16 = if k == 0 { 11 } else if k == 1 { 8 } else if k == 2 { 9 } else { 10 };
                    assert(list@[i] == Move::spec_new(from, to, f));
                    crate::types::lemma_move_fields(from, to, f);
                }
            }
            assert forall|i: int| 0 <= i < l0.len() implies !promo_push(st, #[trigger] l0[i]) by {}
            assert forall|mv: Move| #[trigger] promo_push(st, mv) && !member(rem, mv.spec_to() as int) implies list@.contains(mv) by {
                if mv.spec_to() == to {
                    assert(mv.spec_from() == from);
                } else {
                    assert(!member(rem_before, mv.spec_to() as int));
                    lemma_extends_contains(before, list@, mv);
                }
            }
            assert(extends(l0, list@));
        }
    }
    proof {
        lemma_has_zero();
        assert forall|mv: Move| #[trigger] promo_push(st, mv) implies list@.contains(mv) by {
            assert(!member(rem, mv.spec_to() as int));
        }
    }
}

/// Single pushes short of the last rank.
fn gen_quiet_pushes(pos: &Position, list: &mut MoveList, targets: Bitboard)
    requires
        pos.wf(),
        all_pseudo(pos.state(), old(list)@, false),
        forall|t: int| #[trigger] member(targets, t) <==> 0 <= t < 64 && !promo_rank(pos.state().side, t)
            && pos.state().board[t] is None && pawn_at(pos.state(), push_origin(pos.state(), t)),
        old(list)@.no_duplicates(),
        forall|i: int| 0 <= i < old(list)@.len() ==> !quiet_push(pos.state(), #[trigger] old(list)@[i]),
    ensures
        all_pseudo(pos.state(), final(list)@, false),
        extends(old(list)@, final(list)@),
        forall|mv: Move| #[trigger] quiet_push(pos.state(), mv) ==> final(list)@.contains(mv),
        final(list)@.no_duplicates(),
        forall|i: int| old(list)@.len() <= i < final(list)@.len() ==> quiet_push(pos.state(), #[trigger] final(list)@[i]),
{
    let ghost st = pos.state();
    let ghost l0 = list@;
    let white = pos.side_to_move == Color::White;
    let mut rem = targets;
    while rem != 0
        invariant
            pos.wf(),
            st == pos.state(),
            white == (st.side == Color::White),
            forall|t: int| #[trigger] member(rem, t) ==> member(targets, t),
            forall|t: int| #[trigger] member(targets, t) <==> 0 <= t < 64 && !promo_rank(st.side, t)
                && st.board[t] is None && pawn_at(st, push_origin(st, t)),
            all_pseudo(st, list@, false),
            extends(l0, list@),
            forall|mv: Move| #[trigger] quiet_push(st, mv) && !member(rem, mv.spec_to() as int) ==> list@.contains(mv),
            list@.no_duplicates(),
            forall|i: int| 0 <= i < l0.len() ==> !quiet_push(st, #[trigger] l0[i]),
            forall|i: int| l0.len() <= i < list@.len() ==> quiet_push(st, #[trigger] list@[i]) && !member(rem, list@[i].spec_to() as int),
        decreases rem,
    {
        let ghost rem_before = rem;
        let ghost before = list@;
        let to = pop_lsb(&mut rem);
        assert(member(targets, to as int));
        let from = if white {
            to - 8
        } else {
            to + 8
        };
        let mv = Move::new(from, to, move_flags::QUIET);
        proof {
            assert(pawn_push(st, from as int, to as int, 0));
            assert(quiet_push(st, mv));
            assert forall|i: int| 0 <= i < before.len() implies #[trigger] before[i] != mv by {
                if i < l0.len() {
                    assert(l0[i] == before[i]);
                } else {
                    assert(!member(rem_before, before[i].spec_to() as int));
                }
            }
            lemma_push_fresh(before, mv);
        }
        list.push(mv);
        proof {
            assert(list@[before.len() as int] == mv);
            assert forall|i: int| l0.len() <= i < list@.len() implies quiet_push(st, #[trigger] list@[i]) && !member(rem, list@[i].spec_to() as int) by {
                if i < before.len() {
                    assert(list@[i] == before[i]);
                }
            }
            assert forall|i: int| 0 <= i < l0.len() implies !quiet_push(st, #[trigger] l0[i]) by {}
            assert forall|m: Move| #[trigger] quiet_push(st, m) && !member(rem, m.spec_to() as int) implies list@.contains(m) by {
                if m.spec_to() == to {
                    lemma_same_move(m, from, to, 0);
                } else {
                    assert(!member(rem_before, m.spec_to() as int));
                    lemma_extends_contains(before, list@, m);
                }
            }
        }
    }
    proof {
        lemma_has_zero();
        assert forall|mv: Move| #[trigger] quiet_push(st, mv) implies list@.contains(mv) by {
            assert(!member(rem, mv.spec_to() as int));
        }
    }
}

/// Double pushes from the starting rank.
fn gen_double_pushes(pos: &Position, list: &mut MoveList, targets: Bitboard)
    requires
        pos.wf(),
        all_pseudo(pos.state(), old(list)@, false),
        forall|t: int| #[trigger] member(targets, t) <==> 0 <= t < 64 && pos.state().board[t] is None
            && pos.state().board[push_origin(pos.state(), t)] is None
            && pawn_at(pos.state(), push_origin(pos.state(), push_origin(pos.state(), t)))
            && start_rank(pos.state().side, push_origin(pos.state(), push_origin(pos.state(), t))),
        old(list)@.no_duplicates(),
        forall|i: int| 0 <= i < old(list)@.len() ==> !double_push(pos.state(), #[trigger] old(list)@[i]),
    ensures
        all_pseudo(pos.state(), final(list)@, false),
        extends(old(list)@, final(list)@),
        forall|mv: Move| #[trigger] double_push(pos.state(), mv) ==> final(list)@.contains(mv),
        final(list)@.no_duplicates(),
        forall|i: int| old(list)@.len() <= i < final(list)@.len() ==> double_push(pos.state(), #[trigger] final(list)@[i]),
{
    let ghost st = pos.state();
    let ghost l0 = list@;
    let white = pos.side_to_move == Color::White;
    let mut rem = targets;
    while rem != 0
        invariant
            pos.wf(),
            st == pos.state(),
            white == (st.side == Color::White),
            forall|t: int| #[trigger] member(rem, t) ==> member(targets, t),
            forall|t: int| #[trigger] member(targets, t) <==> 0 <= t < 64 && st.board[t] is None
                && st.board[push_origin(st, t)] is None
                && pawn_at(st, push_origin(st, push_origin(st, t)))
                && start_rank(st.side, push_origin(st, push_origin(st, t))),
            all_pseudo(st, list@, false),
            extends(l0, list@),
            forall|mv: Move| #[trigger] double_push(st, mv) && !member(rem, mv.spec_to() as int) ==> list@.contains(mv),
            list@.no_duplicates(),
            forall|i: int| 0 <= i < l0.len() ==> !double_push(st, #[trigger] l0[i]),
            forall|i: int| l0.len() <= i < list@.len() ==> double_push(st, #[trigger] list@[i]) && !member(rem, list@[i].spec_to() as int),
        decreases rem,
    {
        let ghost rem_before = rem;
        let ghost before = list@;
        let to = pop_lsb(&mut rem);
        assert(member(targets, to as int));
        let from = if white {
            to - 16
        } else {
            to + 16
        };
        let mv = Move::new(from, to, move_flags::DOUBLE_PUSH);
        proof {
            assert(pawn_double(st, from as int, to as int, 1));
            assert(double_push(st, mv));
            assert forall|i: int| 0 <= i < before.len() implies #[trigger] before[i] != mv by {
                if i < l0.len() {
                    assert(l0[i] == before[i]);
                } else {
                    assert(!member(rem_before, before[i].spec_to() as int));
                }
            }
            lemma_push_fresh(before, mv);
        }
        list.push(mv);
        proof {
            assert(list@[before.len() as int] == mv);
            assert forall|i: int| l0.len() <= i < list@.len() implies double_push(st, #[trigger] list@[i]) && !member(rem, list@[i].spec_to() as int) by {
                if i < before.len() {
                    assert(list@[i] == before[i]);
                }
            }
            assert forall|i: int| 0 <= i < l0.len() implies !double_push(st, #[trigger] l0[i]) by {}
            assert forall|m: Move| #[trigger] double_push(st, m) && !member(rem, m.spec_to() as int) implies list@.contains(m) by {
                if m.spec_to() == to {
                    lemma_same_move(m, from, to, 1);
                } else {
                    assert(!member(rem_before, m.spec_to() as int));
                    lemma_extends_contains(before, list@, m);
                }
            }
        }
    }
    proof {
        lemma_has_zero();
        assert forall|mv: Move| #[trigger] double_push(st, mv) implies list@.contains(mv) by {
            assert(!member(rem, mv.spec_to() as int));
        }
    }
}

/// Pawn captures, promoting on the last rank.
fn gen_pawn_captures(pos: &Position, list: &mut MoveList, pawns: Bitboard, enemy: Bitboard, promo: Bitboard, captures_only: bool)
    requires
        pos.wf(),
        all_pseudo(pos.state(), old(list)@, captures_only),
        forall|t: int| #[trigger] member(pawns, t) <==> pawn_at(pos.state(), t),
        forall|t: int| #[trigger] member(enemy, t) <==> is_enemy(pos.state(), t),
        forall|t: int| #[trigger] member(promo, t) <==> 0 <= t < 64 && promo_rank(pos.state().side, t),
        old(list)@.no_duplicates(),
        forall|i: int| 0 <= i < old(list)@.len() ==> !pawn_take(pos.state(), #[trigger] old(list)@[i]),
    ensures
        all_pseudo(pos.state(), final(list)@, captures_only),
        extends(old(list)@, final(list)@),
        forall|mv: Move| #[trigger] pawn_take(pos.state(), mv) ==> final(list)@.contains(mv),
        final(list)@.no_duplicates(),
        forall|i: int| old(list)@.len() <= i < final(list)@.len() ==> pawn_take(pos.state(), #[trigger] final(list)@[i]),
{
    let ghost st = pos.state();
    let ghost l0 = list@;
    let us = pos.side_to_move;
    let mut froms = pawns;
    while froms != 0
        invariant
            pos.wf(),
            st == pos.state(),
            us == st.side,
            forall|t: int| #[trigger] member(froms, t) ==> member(pawns, t),
            forall|t: int| #[trigger] member(pawns, t) <==> pawn_at(st, t),
            forall|t: int| #[trigger] member(enemy, t) <==> is_enemy(st, t),
            forall|t: int| #[trigger] member(promo, t) <==> 0 <= t < 64 && promo_rank(st.side, t),
            all_pseudo(st, list@, captures_only),
            extends(l0, list@),
            forall|mv: Move| #[trigger] pawn_take(st, mv) && !member(froms, mv.spec_from() as int) ==> list@.contains(mv),
            list@.no_duplicates(),
            forall|i: int| 0 <= i < l0.len() ==> !pawn_take(st, #[trigger] l0[i]),
            forall|i: int| l0.len() <= i < list@.len() ==> pawn_take(st, #[trigger] list@[i]) && !member(froms, list@[i].spec_from() as int),
        decreases froms,
    {
        let ghost froms_before = froms;
        let ghost list_at_from = list@;
        let from = pop_lsb(&mut froms);
        let pa = attacks::pawn_attacks(us, from);
        let mut caps = pa & enemy;
        proof {
            lemma_has_and(pa, enemy);
        }
        let ghost caps0 = caps;
        while caps != 0
            invariant
                pos.wf(),
                st == pos.state(),
                us == st.side,
                from < 64,
                member(pawns, from as int),
                forall|t: int| #[trigger] member(caps, t) ==> member(caps0, t),
                forall|t: int| #[trigger] member(caps0, t) <==> pawn_attack_rel(us, from as int, t) && member(enemy, t),
                forall|t: int| #[trigger] member(pawns, t) <==> pawn_at(st, t),
                forall|t: int| #[trigger] member(enemy, t) <==> is_enemy(st, t),
                forall|t: int| #[trigger] member(promo, t) <==> 0 <= t < 64 && promo_rank(st.side, t),
                all_pseudo(st, list@, captures_only),
                extends(l0, list@),
                extends(list_at_from, list@),
                forall|t: int| #[trigger] member(froms, t) <==> member(froms_before, t) && t != from,
                forall|mv: Move| #[trigger] pawn_take(st, mv) && !member(froms_before, mv.spec_from() as int) ==> list_at_from.contains(mv),
                forall|mv: Move| #[trigger] pawn_take(st, mv) && mv.spec_from() == from && !member(caps, mv.spec_to() as int) ==> list@.contains(mv),
                list@.no_duplicates(),
                forall|i: int| 0 <= i < l0.len() ==> !pawn_take(st, #[trigger] l0[i]),
                forall|i: int| l0.len() <= i < list@.len() ==> pawn_take(st, #[trigger] list@[i]) && (
                    (!member(froms_before, list@[i].spec_from() as int) && list@[i].spec_from() != from)
                    || (list@[i].spec_from() == from && !member(caps, list@[i].spec_to() as int))),
            decreases caps,
        {
            let ghost caps_before = caps;
            let ghost before = list@;
            let to = pop_lsb(&mut caps);
            proof {
                assert(member(caps0, to as int));
            }
            proof {
                assert forall|i: int| 0 <= i < before.len() implies !((#[trigger] before[i]).spec_from() == from && before[i].spec_to() == to && pawn_take(st, before[i])) by {
                    if i >= l0.len() && before[i].spec_from() == from {
                        assert(!member(caps_before, before[i].spec_to() as int));
                    }
                    if i < l0.len() {
                        assert(l0[i] == before[i]);
                    }
                }
            }
            if contains(promo, to) {
                proof {
                    assert forall|f: u16| 12 <= f < 16 implies #[trigger] pseudo_legal(st, Move::spec_new(from, to, f)) by {
                        crate::types::lemma_move_fields(from, to, f);
                        assert(pawn_capture(st, from as int, to as int, f));
                    }
                    assert forall|i: int| 0 <= i < before.len() implies !((#[trigger] before[i]).spec_from() == from && before[i].spec_to() == to
                        && promo_base(true) <= before[i].spec_flags() < promo_base(true) + 4) by {
                        if before[i].spec_from() == from && before[i].spec_to() == to && 12 <= before[i].spec_flags() < 16 {
                            crate::types::lemma_move_ext(before[i]);
                            crate::types::lemma_move_fields(from, to, before[i].spec_flags());
                            assert(pawn_capture(st, from as int, to as int, before[i].spec_flags()));
                            assert(pawn_take(st, before[i]));
                        }
                    }
                }
                push_promotions(list, from, to, true);
                proof {
                    lemma_promotions_pushed(st, before, list@, from, to, true, captures_only);
                    lemma_promotions_fresh(before, list@, from, to, true);
                    assert forall|i: int| before.len() <= i < list@.len() implies pawn_take(st, #[trigger] list@[i]) && list@[i].spec_from() == from && list@[i].spec_to() == to by {
                        let k = i - before.len();
                        let f: u16 = if k == 0 { 15 } else if k == 1 { 12 } else if k == 2 { 13 } else { 14 };
                        assert(list@[i] == Move::spec_new(from, to, f));
                        crate::types::lemma_move_fields(from, to, f);
                        assert(pawn_capture(st, from as int, to as int, f));
                    }
                }
            } else {
                let mv = Move::new(from, to, move_flags::CAPTURE);
                proof {
                    lemma_flags_promo(4);
                    assert(pawn_capture(st, from as int, to as int, 4));
                    assert(pawn_take(st, mv));
                    assert forall|i: int| 0 <= i < before.len() implies #[trigger] before[i] != mv by {}
                    lemma_push_fresh(before, mv);
                }
                list.push(mv);
                proof {
                    assert(list@[before.len() as int] == mv);
                }
            }
            proof {
                assert forall|i: int| l0.len() <= i < list@.len() implies pawn_take(st, #[trigger] list@[i]) && (
                    (!member(froms_before, list@[i].spec_from() as int) && list@[i].spec_from() != from)
                    || (list@[i].spec_from() == from && !member(caps, list@[i].spec_to() as int))) by {
                    if i < before.len() {
                        assert(list@[i] == before[i]);
                    } else {
                        assert(list@[i].spec_from() == from && list@[i].spec_to() == to);
                    }
                }
                assert forall|i: int| 0 <= i < l0.len() implies !pawn_take(st, #[trigger] l0[i]) by {}
            }
            proof {
                assert forall|m: Move| #[trigger] pawn_take(st, m) && m.spec_from() == from && !member(caps, m.spec_to() as int) implies list@.contains(m) by {
                    if m.spec_to() == to {
                        if !member(promo, to as int) {
                            lemma_same_move(m, from, to, 4);
                            assert(list@[before.len() as int] == m);
                        }
                    } else {
                        assert(!member(caps_before, m.spec_to() as int));
                        lemma_extends_contains(before, list@, m);
                    }
                }
            }
        }
        proof {
            lemma_has_zero();
            assert forall|i: int| l0.len() <= i < list@.len() implies pawn_take(st, #[trigger] list@[i]) && !member(froms, list@[i].spec_from() as int) by {}
            assert forall|m: Move| #[trigger] pawn_take(st, m) && !member(froms, m.spec_from() as int) implies list@.contains(m) by {
                if m.spec_from() == from {
                    assert(member(caps0, m.spec_to() as int));
                    assert(!member(caps, m.spec_to() as int));
                } else {
                    assert(!member(froms_before, m.spec_from() as int));
                    lemma_extends_contains(list_at_from, list@, m);
                }
            }
        }
    }
    proof {
        lemma_has_zero();
    }
}

/// En passant captures onto the recorded square.
fn gen_en_passant(pos: &Position, list: &mut MoveList, pawns: Bitboard, captures_only: bool)
    requires
        pos.wf(),
        all_pseudo(pos.state(), old(list)@, captures_only),
        forall|t: int| #[trigger] member(pawns, t) <==> pawn_at(pos.state(), t),
        old(list)@.no_duplicates(),
        forall|i: int| 0 <= i < old(list)@.len() ==> !ep_take(pos.state(), #[trigger] old(list)@[i]),
    ensures
        all_pseudo(pos.state(), final(list)@, captures_only),
        extends(old(list)@, final(list)@),
        forall|mv: Move| #[trigger] ep_take(pos.state(), mv) ==> final(list)@.contains(mv),
        final(list)@.no_duplicates(),
        forall|i: int| old(list)@.len() <= i < final(list)@.len() ==> ep_take(pos.state(), #[trigger] final(list)@[i]),
{
    let ghost st = pos.state();
    let ghost l0 = list@;
    let us = pos.side_to_move;
    match pos.en_passant {
        Some(ep) => {
            // Pawns that could capture *onto* the ep square are exactly those a
            // pawn of the opposite colour on that square would attack.
            let pa = attacks::pawn_attacks(us.flip(), ep);
            let cands = pa & pawns;
            proof {
                lemma_has_and(pa, pawns);
            }
            let mut rem = cands;
            while rem != 0
                invariant
                    pos.wf(),
                    st == pos.state(),
                    us == st.side,
                    st.en_passant == Some(ep),
                    ep < 64,
                    forall|t: int| #[trigger] member(rem, t) ==> member(cands, t),
                    forall|t: int| #[trigger] member(cands, t) <==> pawn_attack_rel(us.spec_flip(), ep as int, t) && member(pawns, t),
                    forall|t: int| #[trigger] member(pawns, t) <==> pawn_at(st, t),
                    all_pseudo(st, list@, captures_only),
                    extends(l0, list@),
                    forall|mv: Move| #[trigger] ep_take(st, mv) && !member(rem, mv.spec_from() as int) ==> list@.contains(mv),
                    list@.no_duplicates(),
                    forall|i: int| 0 <= i < l0.len() ==> !ep_take(st, #[trigger] l0[i]),
                    forall|i: int| l0.len() <= i < list@.len() ==> ep_take(st, #[trigger] list@[i]) && !member(rem, list@[i].spec_from() as int),
                decreases rem,
            {
                let ghost rem_before = rem;
                let ghost before = list@;
                let from = pop_lsb(&mut rem);
                let mv = Move::new(from, ep, move_flags::EN_PASSANT);
                proof {
                    assert(member(cands, from as int));
                    lemma_flags_promo(5);
                    assert(pawn_ep(st, from as int, ep as int, 5));
                    assert(ep_take(st, mv));
                    assert forall|i: int| 0 <= i < before.len() implies #[trigger] before[i] != mv by {
                        if i < l0.len() {
                            assert(l0[i] == before[i]);
                        } else {
                            assert(!member(rem_before, before[i].spec_from() as int));
                        }
                    }
                    lemma_push_fresh(before, mv);
                }
                list.push(mv);
                proof {
                    assert(list@[before.len() as int] == mv);
                    assert forall|i: int| l0.len() <= i < list@.len() implies ep_take(st, #[trigger] list@[i]) && !member(rem, list@[i].spec_from() as int) by {
                        if i < before.len() {
                            assert(list@[i] == before[i]);
                        }
                    }
                    assert forall|i: int| 0 <= i < l0.len() implies !ep_take(st, #[trigger] l0[i]) by {}
                    assert forall|m: Move| #[trigger] ep_take(st, m) && !member(rem, m.spec_from() as int) implies list@.contains(m) by {
                        if m.spec_from() == from {
                            lemma_same_move(m, from, ep, 5);
                        } else {
                            assert(!member(rem_before, m.spec_from() as int));
                            lemma_extends_contains(before, list@, m);
                        }
                    }
                }
            }
            proof {
                lemma_has_zero();
                assert forall|m: Move| #[trigger] ep_take(st, m) implies list@.contains(m) by {
                    assert(member(cands, m.spec_from() as int));
                    assert(!member(rem, m.spec_from() as int));
                }
            }
        },
        None => {},
    }
}

fn generate_pawn_moves(pos: &Position, list: &mut MoveList, captures_only: bool)
    requires
        pos.wf(),
        all_pseudo(pos.state(), old(list)@, captures_only),
        old(list)@.no_duplicates(),
        forall|i: int| 0 <= i < old(list)@.len() ==> !pawn_move(pos.state(), #[trigger] old(list)@[i]),
    ensures
        all_pseudo(pos.state(), final(list)@, captures_only),
        extends(old(list)@, final(list)@),
        forall|mv: Move| #[trigger] pawn_move(pos.state(), mv) && (captures_only ==> tactical(mv)) ==> final(list)@.contains(mv),
        final(list)@.no_duplicates(),
        forall|i: int| old(list)@.len() <= i < final(list)@.len() ==> pawn_move(pos.state(), #[trigger] final(list)@[i]),
{
    let ghost st = pos.state();
    let ghost l0 = list@;
    let us = pos.side_to_move;
    let pawns = pos.pieces(us, PieceType::Pawn);
    if pawns == 0 {
        proof {
            lemma_has_zero();
            assert forall|mv: Move| #[trigger] pawn_move(st, mv) && (captures_only ==> tactical(mv)) implies list@.contains(mv) by {
                assert(member(pawns, mv.spec_from() as int));
            }
        }
        return;
    }
    let occ = pos.occupied();
    let empty = !occ;
    let enemy = pos.color_bb(us.flip());
    let white = us == Color::White;
    let double_rank = if white {
        rank_bb(2)
    } else {
        rank_bb(5)
    };
    let promo = if white {
        rank_bb(7)
    } else {
        rank_bb(0)
    };
    proof {
        lemma_has_not(occ);
        lemma_has_not(promo);
    }
    let pushed = if white {
        crate::bitboard::north(pawns)
    } else {
        crate::bitboard::south(pawns)
    };
    let single = pushed & empty;
    let promotions = single & promo;
    let quiet_single = single & !promo;
    proof {
        lemma_has_and(pushed, empty);
        lemma_has_and(single, promo);
        lemma_has_and(single, !promo);
        assert forall|t: int| #[trigger] member(pawns, t) <==> pawn_at(st, t) by {}
        assert forall|t: int| #[trigger] member(single, t) <==> 0 <= t < 64 && st.board[t] is None && pawn_at(st, push_origin(st, t)) by {
            if white {
                assert(member(pushed, t) <==> 8 <= t < 64 && member(pawns, t - 8));
            } else {
                assert(member(pushed, t) <==> 0 <= t < 56 && member(pawns, t + 8));
            }
        }
    }
    proof {
        assert forall|i: int| 0 <= i < list@.len() implies !promo_push(st, #[trigger] list@[i]) by {
            assert(!pawn_move(st, l0[i]));
        }
    }
    gen_promo_pushes(pos, list, promotions, captures_only);
    let ghost l_promo = list@;
    proof {
        assert forall|i: int| 0 <= i < list@.len() implies !pawn_move(st, #[trigger] list@[i]) || promo_push(st, list@[i]) by {
            if i < l0.len() {
                assert(list@[i] == l0[i]);
            }
        }
    }
    if !captures_only {
        proof {
            assert forall|i: int| 0 <= i < list@.len() implies !quiet_push(st, #[trigger] list@[i]) by {
                assert(!pawn_move(st, list@[i]) || promo_push(st, list@[i]));
            }
        }
        gen_quiet_pushes(pos, list, quiet_single);
        let ghost l_quiet = list@;
        proof {
            assert forall|i: int| 0 <= i < list@.len() implies !pawn_move(st, #[trigger] list@[i]) || promo_push(st, list@[i]) || quiet_push(st, list@[i]) by {
                if i < l_promo.len() {
                    assert(list@[i] == l_promo[i]);
                    assert(!pawn_move(st, l_promo[i]) || promo_push(st, l_promo[i]));
                }
            }
        }
        let ds = single & double_rank;
        proof {
            lemma_has_and(single, double_rank);
        }
        let pushed2 = if white {
            crate::bitboard::north(ds)
        } else {
            crate::bitboard::south(ds)
        };
        let doubles = pushed2 & empty;
        proof {
            lemma_has_and(pushed2, empty);
            assert forall|t: int| #[trigger] member(doubles, t) <==> 0 <= t < 64 && st.board[t] is None
                && st.board[push_origin(st, t)] is None
                && pawn_at(st, push_origin(st, push_origin(st, t)))
                && start_rank(st.side, push_origin(st, push_origin(st, t))) by {
                if white {
                    assert(member(pushed2, t) <==> 8 <= t < 64 && member(ds, t - 8));
                    if 8 <= t < 64 {
                        assert(member(single, t - 8) <==> 0 <= t - 8 < 64 && st.board[t - 8] is None && pawn_at(st, t - 16));
                    }
                } else {
                    assert(member(pushed2, t) <==> 0 <= t < 56 && member(ds, t + 8));
                    if 0 <= t < 56 {
                        assert(member(single, t + 8) <==> 0 <= t + 8 < 64 && st.board[t + 8] is None && pawn_at(st, t + 16));
                    }
                }
            }
        }
        proof {
            assert forall|i: int| 0 <= i < list@.len() implies !double_push(st, #[trigger] list@[i]) by {
                assert(!pawn_move(st, list@[i]) || promo_push(st, list@[i]) || quiet_push(st, list@[i]));
            }
        }
        let ghost l_before_doubles = list@;
        gen_double_pushes(pos, list, doubles);
        proof {
            assert forall|i: int| 0 <= i < list@.len() implies !pawn_move(st, #[trigger] list@[i]) || promo_push(st, list@[i]) || quiet_push(st, list@[i]) || double_push(st, list@[i]) by {
                if i < l_before_doubles.len() {
                    assert(list@[i] == l_before_doubles[i]);
                    assert(!pawn_move(st, l_before_doubles[i]) || promo_push(st, l_before_doubles[i]) || quiet_push(st, l_before_doubles[i]));
                }
            }
        }
    }
    let ghost l_pushes = list@;
    proof {
        assert forall|i: int| 0 <= i < list@.len() implies !pawn_move(st, #[trigger] list@[i]) || promo_push(st, list@[i]) || quiet_push(st, list@[i]) || double_push(st, list@[i]) by {
            if captures_only {
                assert(!pawn_move(st, list@[i]) || promo_push(st, list@[i]));
            }
        }
        assert forall|i: int| 0 <= i < list@.len() implies !pawn_take(st, #[trigger] list@[i]) by {
            assert(!pawn_move(st, list@[i]) || promo_push(st, list@[i]) || quiet_push(st, list@[i]) || double_push(st, list@[i]));
            crate::position::lemma_move_ranges(list@[i]);
            lemma_flags_promo(list@[i].spec_flags());
        }
    }
    gen_pawn_captures(pos, list, pawns, enemy, promo, captures_only);
    let ghost l_caps = list@;
    proof {
        assert forall|i: int| 0 <= i < list@.len() implies !ep_take(st, #[trigger] list@[i]) by {
            if i < l_pushes.len() {
                assert(list@[i] == l_pushes[i]);
                assert(!pawn_move(st, l_pushes[i]) || promo_push(st, l_pushes[i]) || quiet_push(st, l_pushes[i]) || double_push(st, l_pushes[i]));
            } else {
                assert(pawn_take(st, list@[i]));
            }
            crate::position::lemma_move_ranges(list@[i]);
            lemma_flags_promo(list@[i].spec_flags());
        }
    }
    gen_en_passant(pos, list, pawns, captures_only);
    proof {
        assert forall|i: int| l0.len() <= i < list@.len() implies pawn_move(st, #[trigger] list@[i]) by {
            if i < l_caps.len() {
                assert(list@[i] == l_caps[i]);
                if i < l_pushes.len() {
                    assert(l_caps[i] == l_pushes[i]);
                    assert(!pawn_move(st, l_pushes[i]) || promo_push(st, l_pushes[i]) || quiet_push(st, l_pushes[i]) || double_push(st, l_pushes[i]));
                    assert(pawn_move(st, l_pushes[i])) by {
                        if i < l0.len() {
                        }
                    }
                }
            }
        }
    }
    proof {
        assert forall|mv: Move| #[trigger] pawn_move(st, mv) && (captures_only ==> tactical(mv)) implies list@.contains(mv) by {
            let from = mv.spec_from() as int;
            let to = mv.spec_to() as int;
            let f = mv.spec_flags();
            crate::position::lemma_move_ranges(mv);
            lemma_flags_promo(f);
            if pawn_push(st, from, to, f) {
                if promo_rank(st.side, to) {
                    assert(promo_push(st, mv));
                    lemma_extends_contains(l_promo, list@, mv);
                } else {
                    assert(quiet_push(st, mv));
                    assert(!captures_only);
                    lemma_extends_contains(l_pushes, list@, mv);
                }
            } else if pawn_double(st, from, to, f) {
                assert(double_push(st, mv));
                assert(!captures_only);
                lemma_extends_contains(l_pushes, list@, mv);
            } else if pawn_capture(st, from, to, f) {
                assert(pawn_take(st, mv));
                lemma_extends_contains(l_caps, list@, mv);
            } else {
                assert(ep_take(st, mv));
            }
        }
    }
}

/// The attack set of a non-pawn piece type from `from`.
pub fn piece_attacks(pt: PieceType, from: Square, occupied: Bitboard) -> (b: Bitboard)
    requires
        from < 64,
        pt != PieceType::Pawn,
    ensures
        forall|t: int| #[trigger] member(b, t) <==> crate::position::piece_attacks_occ(Piece { color: Color::White, piece_type: pt }, from as int, t, occupied),
        b == crate::position::attack_set(pt, from as int, occupied),
{
    let b = match pt {
        PieceType::Knight => attacks::knight_attacks(from),
        PieceType::Bishop => attacks::bishop_attacks(from, occupied),
        PieceType::Rook => attacks::rook_attacks(from, occupied),
        PieceType::Queen => attacks::queen_attacks(from, occupied),
        _ => attacks::king_attacks(from),
    };
    proof {
        crate::position::lemma_attack_set(pt, from as int, occupied, b);
    }
    b
}

/// A move of a piece of type `pt` of the side to move onto one of `targets`.
pub open spec fn piece_gen(s: PosState, pt: PieceType, targets: u64, mv: Move) -> bool {
    let from = mv.spec_from() as int;
    let to = mv.spec_to() as int;
    &&& 0 <= from < 64
    &&& s.board[from] == Some(Piece { color: s.side, piece_type: pt })
    &&& piece_step(s, Piece { color: s.side, piece_type: pt }, from, to, mv.spec_flags())
    &&& member(targets, to)
}

/// Everything in `a` is still in `b` when `b` extends `a`.
proof fn lemma_extends_contains(a: Seq<Move>, b: Seq<Move>, mv: Move)
    requires
        extends(a, b),
        a.contains(mv),
    ensures
        b.contains(mv),
{
    let i = choose|i: int| 0 <= i < a.len() && a[i] == mv;
    assert(b[i] == mv);
}

/// A move whose fields match a built move is that move.
proof fn lemma_same_move(mv: Move, from: Square, to: Square, flags: u16)
    requires
        mv.spec_from() == from,
        mv.spec_to() == to,
        mv.spec_flags() == flags,
    ensures
        mv == Move::spec_new(from, to, flags),
{
    crate::types::lemma_move_ext(mv);
}

fn generate_piece_moves(
    pos: &Position,
    list: &mut MoveList,
    pt: PieceType,
    targets: Bitboard,
    enemy: Bitboard,
    occupied: Bitboard,
    captures_only: bool,
)
    requires
        pos.wf(),
        pt != PieceType::Pawn,
        all_pseudo(pos.state(), old(list)@, captures_only),
        forall|t: int| #[trigger] member(occupied, t) <==> 0 <= t < 64 && pos.state().board[t] is Some,
        forall|t: int| #[trigger] member(enemy, t) <==> 0 <= t < 64 && pos.state().board[t] is Some && pos.state().board[t]->0.color == pos.state().side.spec_flip(),
        forall|t: int| #[trigger] member(targets, t) ==> 0 <= t < 64 && !(pos.state().board[t] is Some && pos.state().board[t]->0.color == pos.state().side),
        captures_only ==> forall|t: int| #[trigger] member(targets, t) ==> member(enemy, t),
        old(list)@.no_duplicates(),
        forall|i: int| 0 <= i < old(list)@.len() ==> !piece_gen(pos.state(), pt, targets, #[trigger] old(list)@[i]),
    ensures
        all_pseudo(pos.state(), final(list)@, captures_only),
        extends(old(list)@, final(list)@),
        forall|mv: Move| #[trigger] piece_gen(pos.state(), pt, targets, mv) ==> final(list)@.contains(mv),
        final(list)@.no_duplicates(),
        forall|i: int| old(list)@.len() <= i < final(list)@.len() ==> piece_gen(pos.state(), pt, targets, #[trigger] final(list)@[i]),
{
    let ghost st = pos.state();
    let ghost l0 = list@;
    let us = pos.side_to_move;
    let own = pos.pieces(us, pt);
    let mut froms = own;
    while froms != 0
        invariant
            pos.wf(),
            st == pos.state(),
            us == st.side,
            pt != PieceType::Pawn,
            forall|t: int| #[trigger] member(froms, t) ==> member(own, t),
            forall|t: int| #[trigger] member(own, t) <==> 0 <= t < 64 && st.board[t] == Some(Piece { color: us, piece_type: pt }),
            forall|t: int| #[trigger] member(occupied, t) <==> 0 <= t < 64 && st.board[t] is Some,
            forall|t: int| #[trigger] member(enemy, t) <==> 0 <= t < 64 && st.board[t] is Some && st.board[t]->0.color == st.side.spec_flip(),
            forall|t: int| #[trigger] member(targets, t) ==> 0 <= t < 64 && !(st.board[t] is Some && st.board[t]->0.color == st.side),
            captures_only ==> forall|t: int| #[trigger] member(targets, t) ==> member(enemy, t),
            all_pseudo(st, list@, captures_only),
            extends(l0, list@),
            forall|mv: Move| #[trigger] piece_gen(st, pt, targets, mv) && !member(froms, mv.spec_from() as int) ==> list@.contains(mv),
            list@.no_duplicates(),
            forall|i: int| 0 <= i < l0.len() ==> !piece_gen(st, pt, targets, #[trigger] l0[i]),
            forall|i: int| l0.len() <= i < list@.len() ==> piece_gen(st, pt, targets, #[trigger] list@[i]) && !member(froms, list@[i].spec_from() as int),
        decreases froms,
    {
        let ghost froms_before = froms;
        let from = pop_lsb(&mut froms);
        let att = piece_attacks(pt, from, occupied);
        let mut moves = att & targets;
        proof {
            lemma_has_and(att, targets);
            assert forall|mv: Move| #[trigger] piece_gen(st, pt, targets, mv) && mv.spec_from() == from implies member(att & targets, mv.spec_to() as int) by {
                let p = Piece { color: us, piece_type: pt };
                lemma_attacks_occ_board(st.board, occupied, Piece { color: Color::White, piece_type: pt }, from as int, mv.spec_to() as int);
                lemma_attacks_occ_board(st.board, occupied, p, from as int, mv.spec_to() as int);
            }
        }
        let ghost moves0 = moves;
        let ghost list_at_from = list@;
        while moves != 0
            invariant
                pos.wf(),
                st == pos.state(),
                us == st.side,
                from < 64,
                pt != PieceType::Pawn,
                member(own, from as int),
                forall|t: int| #[trigger] member(own, t) <==> 0 <= t < 64 && st.board[t] == Some(Piece { color: us, piece_type: pt }),
                forall|t: int| #[trigger] member(moves, t) ==> member(moves0, t),
                forall|t: int| #[trigger] member(moves0, t) <==> member(att, t) && member(targets, t),
                forall|t: int| #[trigger] member(att, t) <==> crate::position::piece_attacks_occ(Piece { color: Color::White, piece_type: pt }, from as int, t, occupied),
                forall|t: int| #[trigger] member(occupied, t) <==> 0 <= t < 64 && st.board[t] is Some,
                forall|t: int| #[trigger] member(enemy, t) <==> 0 <= t < 64 && st.board[t] is Some && st.board[t]->0.color == st.side.spec_flip(),
                forall|t: int| #[trigger] member(targets, t) ==> 0 <= t < 64 && !(st.board[t] is Some && st.board[t]->0.color == st.side),
                captures_only ==> forall|t: int| #[trigger] member(targets, t) ==> member(enemy, t),
                all_pseudo(st, list@, captures_only),
                extends(l0, list@),
                extends(list_at_from, list@),
                forall|mv: Move| #[trigger] piece_gen(st, pt, targets, mv) && mv.spec_from() == from ==> member(moves0, mv.spec_to() as int),
                forall|mv: Move| #[trigger] piece_gen(st, pt, targets, mv) && !member(froms_before, mv.spec_from() as int) ==> list_at_from.contains(mv),
                forall|t: int| #[trigger] member(froms, t) <==> member(froms_before, t) && t != from,
                forall|mv: Move| #[trigger] piece_gen(st, pt, targets, mv) && mv.spec_from() == from && !member(moves, mv.spec_to() as int) ==> list@.contains(mv),
                list@.no_duplicates(),
                forall|i: int| 0 <= i < l0.len() ==> !piece_gen(st, pt, targets, #[trigger] l0[i]),
                forall|i: int| l0.len() <= i < list@.len() ==> piece_gen(st, pt, targets, #[trigger] list@[i]) && (
                    (!member(froms_before, list@[i].spec_from() as int) && list@[i].spec_from() != from)
                    || (list@[i].spec_from() == from && !member(moves, list@[i].spec_to() as int))),
            decreases moves,
        {
            let ghost moves_before = moves;
            let ghost list_before = list@;
            let to = pop_lsb(&mut moves);
            let flag = if contains(enemy, to) {
                move_flags::CAPTURE
            } else {
                move_flags::QUIET
            };
            let mv = Move::new(from, to, flag);
            proof {
                assert(member(moves0, to as int));
                let p = Piece { color: us, piece_type: pt };
                lemma_attacks_occ_board(st.board, occupied, Piece { color: Color::White, piece_type: pt }, from as int, to as int);
                lemma_attacks_occ_board(st.board, occupied, p, from as int, to as int);
                assert(piece_step(st, p, from as int, to as int, flag));
                lemma_flags_promo(flag);
                crate::types::lemma_move_fields(from, to, flag);
                assert(piece_gen(st, pt, targets, mv));
                assert forall|i: int| 0 <= i < list_before.len() implies #[trigger] list_before[i] != mv by {
                    if i < l0.len() {
                        assert(l0[i] == list_before[i]);
                    } else if list_before[i].spec_from() == from {
                        assert(!member(moves_before, list_before[i].spec_to() as int));
                    }
                }
                lemma_push_fresh(list_before, mv);
            }
            list.push(mv);
            proof {
                assert(list@[list_before.len() as int] == mv);
                assert forall|i: int| l0.len() <= i < list@.len() implies piece_gen(st, pt, targets, #[trigger] list@[i]) && (
                    (!member(froms_before, list@[i].spec_from() as int) && list@[i].spec_from() != from)
                    || (list@[i].spec_from() == from && !member(moves, list@[i].spec_to() as int))) by {
                    if i < list_before.len() {
                        assert(list@[i] == list_before[i]);
                    }
                }
                assert forall|i: int| 0 <= i < l0.len() implies !piece_gen(st, pt, targets, #[trigger] l0[i]) by {}
                assert(list@.contains(mv));
                assert(extends(list_before, list@));
                assert forall|m: Move| #[trigger] piece_gen(st, pt, targets, m) && m.spec_from() == from && !member(moves, m.spec_to() as int) implies list@.contains(m) by {
                    if m.spec_to() == to {
                        lemma_same_move(m, from, to, flag);
                    } else {
                        assert(!member(moves_before, m.spec_to() as int));
                        lemma_extends_contains(list_before, list@, m);
                    }
                }
            }
        }
        proof {
            lemma_has_zero();
            assert forall|i: int| l0.len() <= i < list@.len() implies piece_gen(st, pt, targets, #[trigger] list@[i]) && !member(froms, list@[i].spec_from() as int) by {}
            assert forall|m: Move| #[trigger] piece_gen(st, pt, targets, m) && !member(froms, m.spec_from() as int) implies list@.contains(m) by {
                if m.spec_from() == from {
                    assert(!member(moves, m.spec_to() as int));
                } else {
                    assert(!member(froms_before, m.spec_from() as int));
                    lemma_extends_contains(list_at_from, list@, m);
                }
            }
        }
    }
    proof {
        lemma_has_zero();
    }
}

/// No right in `a | b` is set once the union is clear.
proof fn lemma_rights_clear(c: u8, a: u8, b: u8)
    by (bit_vector)
    ensures
        c & (a | b) == 0 ==> c & a == 0 && c & b == 0,
{
}

/// A castling move of the side to move.
pub open spec fn castle_move(s: PosState, mv: Move) -> bool {
    castle(s, mv.spec_from() as int, mv.spec_to() as int, mv.spec_flags())
}

fn generate_castles(pos: &Position, list: &mut MoveList)
    requires
        pos.wf(),
        all_pseudo(pos.state(), old(list)@, false),
        old(list)@.no_duplicates(),
        forall|i: int| 0 <= i < old(list)@.len() ==> !castle_move(pos.state(), #[trigger] old(list)@[i]),
    ensures
        all_pseudo(pos.state(), final(list)@, false),
        extends(old(list)@, final(list)@),
        forall|mv: Move| #[trigger] castle(pos.state(), mv.spec_from() as int, mv.spec_to() as int, mv.spec_flags()) ==> final(list)@.contains(mv),
        final(list)@.no_duplicates(),
        forall|i: int| old(list)@.len() <= i < final(list)@.len() ==> castle_move(pos.state(), #[trigger] final(list)@[i]),
{
    let ghost st = pos.state();
    let ghost l0 = list@;
    let us = pos.side_to_move;
    let them = us.flip();
    let occupied = pos.occupied();
    let (king_side, queen_side, home) = match us {
        Color::White => (crate::types::WHITE_KING_SIDE, crate::types::WHITE_QUEEN_SIDE, 0u8),
        Color::Black => (crate::types::BLACK_KING_SIDE, crate::types::BLACK_QUEEN_SIDE, 56u8),
    };
    let king = home + 4;

    // Castling out of check is illegal, and so is crossing an attacked square.
    if pos.castling & (king_side | queen_side) == 0 || pos.is_attacked(king, them) {
        proof {
            lemma_rights_clear(pos.castling, king_side, queen_side);
        }
        return;
    }

    let b5 = bb(home + 5);
    let b6 = bb(home + 6);
    proof {
        lemma_has_or(b5, b6);
        lemma_has_and(occupied, b5 | b6);
        crate::bitboard::lemma_zero_iff(occupied & (b5 | b6));
    }
    let ghost l1 = list@;
    if pos.castling & king_side != 0 && occupied & (b5 | b6) == 0 && !pos.is_attacked(home + 5, them) {
        let mv = Move::new(king, home + 6, move_flags::KING_CASTLE);
        proof {
            assert(!member(occupied & (b5 | b6), home + 5));
            assert(!member(occupied & (b5 | b6), home + 6));
            assert(castle(st, king as int, home + 6, 2));
            lemma_flags_promo(2);
            crate::types::lemma_move_fields(king, (home + 6) as u8, 2);
            assert(castle_move(st, mv));
            assert forall|i: int| 0 <= i < l1.len() implies #[trigger] l1[i] != mv by {}
            lemma_push_fresh(l1, mv);
        }
        list.push(mv);
        proof {
            assert(list@[l1.len() as int] == mv);
        }
    }
    let ghost l2 = list@;
    proof {
        assert forall|i: int| l0.len() <= i < l2.len() implies castle_move(st, #[trigger] l2[i]) && l2[i].spec_flags() == 2 by {
            assert(l2[i] == Move::spec_new(king, (home + 6) as u8, 2));
            crate::types::lemma_move_fields(king, (home + 6) as u8, 2);
        }
        assert forall|m: Move| #[trigger] castle(st, m.spec_from() as int, m.spec_to() as int, m.spec_flags()) && m.spec_flags() == 2 implies l2.contains(m) by {
            assert(!member(occupied, home + 5));
            assert(!member(occupied, home + 6));
            assert(member(occupied & (b5 | b6), home + 5) == (member(occupied, home + 5) && member(b5 | b6, home + 5)));
            if occupied & (b5 | b6) != 0 {
                let t = choose|t: int| 0 <= t < 64 && #[trigger] member(occupied & (b5 | b6), t);
                assert(t == home + 5 || t == home + 6);
            }
            lemma_same_move(m, king, (home + 6) as u8, 2);
            assert(l2[l1.len() as int] == m);
        }
    }
    let b1 = bb(home + 1);
    let b2 = bb(home + 2);
    let b3 = bb(home + 3);
    proof {
        lemma_has_or(b1, b2);
        lemma_has_or(b1 | b2, b3);
        lemma_has_and(occupied, b1 | b2 | b3);
        crate::bitboard::lemma_zero_iff(occupied & (b1 | b2 | b3));
    }
    if pos.castling & queen_side != 0 && occupied & (b1 | b2 | b3) == 0 && !pos.is_attacked(home + 3, them) {
        let mv = Move::new(king, home + 2, move_flags::QUEEN_CASTLE);
        proof {
            assert(!member(occupied & (b1 | b2 | b3), home + 1));
            assert(!member(occupied & (b1 | b2 | b3), home + 2));
            assert(!member(occupied & (b1 | b2 | b3), home + 3));
            assert(castle(st, king as int, home + 2, 3));
            lemma_flags_promo(3);
            crate::types::lemma_move_fields(king, (home + 2) as u8, 3);
            assert(castle_move(st, mv));
            assert forall|i: int| 0 <= i < l2.len() implies #[trigger] l2[i] != mv by {
                if i >= l0.len() {
                    assert(l2[i].spec_flags() == 2);
                }
            }
            lemma_push_fresh(l2, mv);
        }
        list.push(mv);
        proof {
            assert(list@[l2.len() as int] == mv);
        }
    }
    proof {
        assert forall|i: int| l0.len() <= i < list@.len() implies castle_move(st, #[trigger] list@[i]) by {
            if i < l2.len() {
                assert(list@[i] == l2[i]);
            } else {
                assert(list@[i] == Move::spec_new(king, (home + 2) as u8, 3));
                crate::types::lemma_move_fields(king, (home + 2) as u8, 3);
            }
        }
        assert forall|m: Move| #[trigger] castle(st, m.spec_from() as int, m.spec_to() as int, m.spec_flags()) implies list@.contains(m) by {
            if m.spec_flags() == 2 {
                lemma_extends_contains(l2, list@, m);
            } else {
                assert(!member(occupied, home + 1));
                assert(!member(occupied, home + 2));
                assert(!member(occupied, home + 3));
                if occupied & (b1 | b2 | b3) != 0 {
                    let t = choose|t: int| 0 <= t < 64 && #[trigger] member(occupied & (b1 | b2 | b3), t);
                    assert(t == home + 1 || t == home + 2 || t == home + 3);
                }
                lemma_same_move(m, king, (home + 2) as u8, 3);
                assert(list@[l2.len() as int] == m);
            }
        }
    }
}

/// A move of one of the generation phases before `pt` (pawns first, then
/// knights, bishops, rooks, queens, king).
pub open spec fn earlier_phase(s: PosState, targets: u64, pt: PieceType, mv: Move) -> bool {
    ||| pawn_move(s, mv)
    ||| (pt.spec_index() > 1 && piece_gen(s, PieceType::Knight, targets, mv))
    ||| (pt.spec_index() > 2 && piece_gen(s, PieceType::Bishop, targets, mv))
    ||| (pt.spec_index() > 3 && piece_gen(s, PieceType::Rook, targets, mv))
    ||| (pt.spec_index() > 4 && piece_gen(s, PieceType::Queen, targets, mv))
    ||| (pt.spec_index() > 5 && piece_gen(s, PieceType::King, targets, mv))
}

/// The phase that generated every move of `l` from index `from` on was
/// earlier than `pt`.
proof fn lemma_earlier_not_piece(s: PosState, targets: u64, pt: PieceType, l: Seq<Move>)
    requires
        pt != PieceType::Pawn,
        forall|i: int| 0 <= i < l.len() ==> earlier_phase(s, targets, pt, #[trigger] l[i]),
    ensures
        forall|i: int| 0 <= i < l.len() ==> !piece_gen(s, pt, targets, #[trigger] l[i]),
{
}

fn generate(pos: &Position, list: &mut MoveList, captures_only: bool)
    requires
        pos.wf(),
        old(list)@.len() == 0,
    ensures
        all_pseudo(pos.state(), final(list)@, captures_only),
        forall|mv: Move| #[trigger] pseudo_legal(pos.state(), mv) && (captures_only ==> tactical(mv)) ==> final(list)@.contains(mv),
        final(list)@.no_duplicates(),
{
    let ghost st = pos.state();
    let us = pos.side_to_move;
    let occupied = pos.occupied();
    let enemy = pos.color_bb(us.flip());
    let own = pos.color_bb(us);
    let targets = if captures_only {
        enemy
    } else {
        !own
    };
    proof {
        lemma_has_not(own);
    }
    proof {
        assert(list@.no_duplicates());
    }
    generate_pawn_moves(pos, list, captures_only);
    let ghost l_pawn = list@;
    proof {
        lemma_earlier_not_piece(st, targets, PieceType::Knight, list@);
    }
    generate_piece_moves(pos, list, PieceType::Knight, targets, enemy, occupied, captures_only);
    let ghost l_knight = list@;
    proof {
        assert forall|i: int| 0 <= i < list@.len() implies earlier_phase(st, targets, PieceType::Bishop, #[trigger] list@[i]) by {
            if i < l_pawn.len() {
                assert(list@[i] == l_pawn[i]);
            }
        }
        lemma_earlier_not_piece(st, targets, PieceType::Bishop, list@);
    }
    generate_piece_moves(pos, list, PieceType::Bishop, targets, enemy, occupied, captures_only);
    let ghost l_bishop = list@;
    proof {
        assert forall|i: int| 0 <= i < list@.len() implies earlier_phase(st, targets, PieceType::Rook, #[trigger] list@[i]) by {
            if i < l_knight.len() {
                assert(list@[i] == l_knight[i]);
                assert(earlier_phase(st, targets, PieceType::Bishop, l_knight[i]));
            }
        }
        lemma_earlier_not_piece(st, targets, PieceType::Rook, list@);
    }
    generate_piece_moves(pos, list, PieceType::Rook, targets, enemy, occupied, captures_only);
    let ghost l_rook = list@;
    proof {
        assert forall|i: int| 0 <= i < list@.len() implies earlier_phase(st, targets, PieceType::Queen, #[trigger] list@[i]) by {
            if i < l_bishop.len() {
                assert(list@[i] == l_bishop[i]);
                assert(earlier_phase(st, targets, PieceType::Rook, l_bishop[i]));
            }
        }
        lemma_earlier_not_piece(st, targets, PieceType::Queen, list@);
    }
    generate_piece_moves(pos, list, PieceType::Queen, targets, enemy, occupied, captures_only);
    let ghost l_queen = list@;
    proof {
        assert forall|i: int| 0 <= i < list@.len() implies earlier_phase(st, targets, PieceType::King, #[trigger] list@[i]) by {
            if i < l_rook.len() {
                assert(list@[i] == l_rook[i]);
                assert(earlier_phase(st, targets, PieceType::Queen, l_rook[i]));
            }
        }
        lemma_earlier_not_piece(st, targets, PieceType::King, list@);
    }
    generate_piece_moves(pos, list, PieceType::King, targets, enemy, occupied, captures_only);
    let ghost l_king = list@;
    if !captures_only {
        proof {
            assert forall|i: int| 0 <= i < list@.len() implies !castle_move(st, #[trigger] list@[i]) by {
                let e = list@[i];
                crate::position::lemma_move_ranges(e);
                lemma_flags_promo(e.spec_flags());
                if i < l_queen.len() {
                    assert(list@[i] == l_queen[i]);
                    assert(earlier_phase(st, targets, PieceType::King, l_queen[i]));
                } else {
                    assert(piece_gen(st, PieceType::King, targets, e));
                }
            }
        }
        generate_castles(pos, list);
    }
    proof {
        assert forall|mv: Move| #[trigger] pseudo_legal(st, mv) && (captures_only ==> tactical(mv)) implies list@.contains(mv) by {
            let from = mv.spec_from() as int;
            let to = mv.spec_to() as int;
            let f = mv.spec_flags();
            crate::position::lemma_move_ranges(mv);
            lemma_flags_promo(f);
            if castle(st, from, to, f) {
                assert(!captures_only);
            } else {
                let p = st.board[from]->0;
                if p.piece_type == PieceType::Pawn {
                    assert(pawn_move(st, mv));
                    lemma_extends_contains(l_pawn, l_knight, mv);
                    lemma_extends_contains(l_knight, l_bishop, mv);
                    lemma_extends_contains(l_bishop, l_rook, mv);
                    lemma_extends_contains(l_rook, l_queen, mv);
                    lemma_extends_contains(l_queen, l_king, mv);
                    lemma_extends_contains(l_king, list@, mv);
                } else {
                    assert(member(targets, to)) by {
                        if captures_only {
                            assert(member(enemy, to));
                        } else {
                            assert(!member(own, to));
                        }
                    }
                    assert(piece_gen(st, p.piece_type, targets, mv));
                    if p.piece_type == PieceType::Knight {
                        lemma_extends_contains(l_knight, l_bishop, mv);
                        lemma_extends_contains(l_bishop, l_rook, mv);
                        lemma_extends_contains(l_rook, l_queen, mv);
                        lemma_extends_contains(l_queen, l_king, mv);
                        lemma_extends_contains(l_king, list@, mv);
                    } else if p.piece_type == PieceType::Bishop {
                        lemma_extends_contains(l_bishop, l_rook, mv);
                        lemma_extends_contains(l_rook, l_queen, mv);
                        lemma_extends_contains(l_queen, l_king, mv);
                        lemma_extends_contains(l_king, list@, mv);
                    } else if p.piece_type == PieceType::Rook {
                        lemma_extends_contains(l_rook, l_queen, mv);
                        lemma_extends_contains(l_queen, l_king, mv);
                        lemma_extends_contains(l_king, list@, mv);
                    } else if p.piece_type == PieceType::Queen {
                        lemma_extends_contains(l_queen, l_king, mv);
                        lemma_extends_contains(l_king, list@, mv);
                    } else {
                        lemma_extends_contains(l_king, list@, mv);
                    }
                }
            }
        }
    }
}

/// All pseudo-legal moves for the side to move: every move the list holds
/// is pseudo-legal, and every pseudo-legal move is in the list.
pub fn generate_moves(pos: &Position) -> (list: MoveList)
    requires
        pos.wf(),
    ensures
        forall|i: int| 0 <= i < list@.len() ==> pseudo_legal(pos.state(), #[trigger] list@[i]),
        forall|mv: Move| #[trigger] pseudo_legal(pos.state(), mv) ==> list@.contains(mv),
        list@.no_duplicates(),
{
    let mut list = MoveList::new();
    generate(pos, &mut list, false);
    list
}

/// Captures and promotions only — the quiescence search move set: exactly
/// the pseudo-legal moves that capture or promote.
pub fn generate_captures(pos: &Position) -> (list: MoveList)
    requires
        pos.wf(),
    ensures
        forall|i: int| 0 <= i < list@.len() ==> pseudo_legal(pos.state(), #[trigger] list@[i]) && tactical(list@[i]),
        forall|mv: Move| #[trigger] pseudo_legal(pos.state(), mv) && tactical(mv) ==> list@.contains(mv),
        list@.no_duplicates(),
{
    let mut list = MoveList::new();
    generate(pos, &mut list, true);
    list
}

/// Castling rights agree with the board: a right is only held while that
/// side's king and the rook it would castle with are on their home squares.
pub open spec fn rights_consistent(s: PosState) -> bool {
    let b = s.board;
    let wk = Some(Piece { color: Color::White, piece_type: PieceType::King });
    let wr = Some(Piece { color: Color::White, piece_type: PieceType::Rook });
    let bk = Some(Piece { color: Color::Black, piece_type: PieceType::King });
    let br = Some(Piece { color: Color::Black, piece_type: PieceType::Rook });
    &&& (s.castling & 1 != 0 ==> b[4] == wk && b[7] == wr)
    &&& (s.castling & 2 != 0 ==> b[4] == wk && b[0] == wr)
    &&& (s.castling & 4 != 0 ==> b[60] == bk && b[63] == br)
    &&& (s.castling & 8 != 0 ==> b[60] == bk && b[56] == br)
}

/// The en passant square, when there is one, lies behind an enemy pawn that
/// has just advanced two squares.
pub open spec fn ep_consistent(s: PosState) -> bool {
    s.en_passant matches Some(e) ==> {
        let cap = crate::position::ep_capture_square(s.side, e);
        &&& 0 <= cap < 64
        &&& s.board[cap] == Some(Piece { color: s.side.spec_flip(), piece_type: PieceType::Pawn })
        &&& s.board[e as int] is None
    }
}

/// Every pseudo-legal move of this position can be made and taken back.
pub open spec fn playable(s: PosState) -> bool {
    &&& crate::position::state_wf(s)
    &&& crate::position::board_has_king(s.board, s.side)
    &&& s.halfmove < 0xffff
    &&& s.fullmove < 0xffff
    &&& rights_consistent(s)
    &&& ep_consistent(s)
}

/// In a playable position every pseudo-legal move can be made.
pub proof fn lemma_pseudo_applicable(s: PosState, mv: Move)
    requires
        playable(s),
        pseudo_legal(s, mv),
    ensures
        crate::position::move_is_applicable(s, mv),
{
    crate::position::lemma_move_ranges(mv);
    lemma_flags_promo(mv.spec_flags());
    let c = s.castling;
    assert(c & 1 == c & 1u8);
    let from = mv.spec_from() as int;
    let to = mv.spec_to() as int;
    let f = mv.spec_flags();
    if castle(s, from, to, f) {
        if s.side == Color::White {
            assert(c & 1 != 0 ==> s.board[4] == Some(Piece { color: Color::White, piece_type: PieceType::King }));
        }
    }
}

/// Fully legal moves. Clones nothing but does make/unmake per move, so it is
/// meant for move parsing, perft and tests rather than the inner search.
pub fn generate_legal_moves(pos: &mut Position) -> (legal: Vec<Move>)
    requires
        old(pos).wf(),
        playable(old(pos).state()),
    ensures
        final(pos).wf(),
        final(pos).state() == old(pos).state(),
        final(pos).keys == old(pos).keys,
        forall|i: int| 0 <= i < legal@.len() ==> pseudo_legal(old(pos).state(), #[trigger] legal@[i])
            && crate::position::legal_after(old(pos).state(), legal@[i]),
        forall|mv: Move| #[trigger] legal_move(old(pos).state(), mv) ==> legal@.contains(mv),
        legal@.no_duplicates(),
{
    let ghost st = pos.state();
    let list = generate_moves(pos);
    let mut legal: Vec<Move> = Vec::new();
    let mut i: usize = 0;
    while i < list.len()
        invariant
            pos.wf(),
            pos.state() == st,
            pos.keys == old(pos).keys,
            st == old(pos).state(),
            playable(st),
            i <= list@.len(),
            forall|j: int| 0 <= j < list@.len() ==> pseudo_legal(st, #[trigger] list@[j]),
            forall|j: int| 0 <= j < legal@.len() ==> pseudo_legal(st, #[trigger] legal@[j])
                && crate::position::legal_after(st, legal@[j]),
            forall|j: int| 0 <= j < i && #[trigger] crate::position::legal_after(st, list@[j]) ==> legal@.contains(list@[j]),
            list@.no_duplicates(),
            legal@.no_duplicates(),
            forall|k: int| 0 <= k < legal@.len() ==> exists|j: int| 0 <= j < i && list@[j] == #[trigger] legal@[k],
        decreases list@.len() - i,
    {
        let mv = list.get(i);
        let ghost before = legal@;
        proof {
            lemma_pseudo_applicable(st, mv);
        }
        if pos.try_make_move(mv) {
            proof {
                crate::position::lemma_unmake_after_make(st, mv);
            }
            pos.unmake_move();
            proof {
                assert forall|k: int| 0 <= k < before.len() implies #[trigger] before[k] != mv by {
                    let j = choose|j: int| 0 <= j < i && list@[j] == before[k];
                    assert(list@[j] != list@[i as int]);
                }
                lemma_push_fresh(before, mv);
            }
            legal.push(mv);
            proof {
                assert(legal@[before.len() as int] == mv);
                assert forall|k: int| 0 <= k < legal@.len() implies exists|j: int| 0 <= j < i + 1 && list@[j] == #[trigger] legal@[k] by {
                    if k < before.len() {
                        assert(legal@[k] == before[k]);
                        let j = choose|j: int| 0 <= j < i && list@[j] == before[k];
                        assert(list@[j] == legal@[k]);
                    } else {
                        assert(list@[i as int] == legal@[k]);
                    }
                }
            }
        }
        proof {
            assert forall|j: int| 0 <= j < i + 1 && #[trigger] crate::position::legal_after(st, list@[j]) implies legal@.contains(list@[j]) by {
                if j < i {
                    let k = choose|k: int| 0 <= k < before.len() && before[k] == list@[j];
                    assert(legal@[k] == list@[j]);
                }
            }
        }
        i = i + 1;
    }
    proof {
        assert forall|mv: Move| #[trigger] legal_move(st, mv) implies legal@.contains(mv) by {
            assert(list@.contains(mv));
            let j = choose|j: int| 0 <= j < list@.len() && list@[j] == mv;
            assert(crate::position::legal_after(st, list@[j]));
        }
    }
    legal
}

/// A reachable position: every pseudo-legal move can be made, both kings are
/// on the board and the side that just moved is not in check.
pub open spec fn sane(s: PosState) -> bool {
    &&& playable(s)
    &&& crate::position::board_has_king(s.board, s.side.spec_flip())
    &&& !attacked_on(
        s.board,
        crate::position::king_on(s.board, s.side.spec_flip()),
        s.side,
    )
}

pub(crate) proof fn lemma_king_on_is_king(b: Seq<Option<Piece>>, color: Color, i: int)
    requires
        0 <= i <= 64,
        crate::position::king_from(b, color, i) < 64,
    ensures
        b[crate::position::king_from(b, color, i)] == Some(Piece { color, piece_type: PieceType::King }),
        i <= crate::position::king_from(b, color, i),
    decreases 64 - i,
{
    if i < 64 && b[i] != Some(Piece { color, piece_type: PieceType::King }) {
        lemma_king_on_is_king(b, color, i + 1);
    }
}

pub(crate) proof fn lemma_king_on_found(b: Seq<Option<Piece>>, color: Color, i: int, k: int)
    requires
        0 <= i <= k < 64,
        b[k] == Some(Piece { color, piece_type: PieceType::King }),
    ensures
        crate::position::king_from(b, color, i) <= k,
    decreases k - i,
{
    if i < k && b[i] != Some(Piece { color, piece_type: PieceType::King }) {
        lemma_king_on_found(b, color, i + 1, k);
    }
}

proof fn lemma_untouched(s: PosState, mv: Move, q: int)
    requires
        s.board.len() == 64,
        crate::position::move_is_applicable(s, mv),
        0 <= q < 64,
        q != mv.spec_from() as int,
        q != mv.spec_to() as int,
        mv.spec_is_en_passant() ==> q != crate::position::ep_capture_square(s.side, mv.spec_to()),
        mv.spec_flags() == 2 ==> q != mv.spec_to() + 1 && q != mv.spec_to() - 1,
        mv.spec_flags() == 3 ==> q != mv.spec_to() - 2 && q != mv.spec_to() + 1,
    ensures
        moved_board(s.board, s.side, mv)[q] == s.board[q],
{
    crate::position::lemma_move_ranges(mv);
}

pub(crate) proof fn lemma_mask_bits(sq: u8)
    ensures
        (crate::position::spec_castle_mask(sq) & 1 != 0) <==> (sq != 4 && sq != 7),
        (crate::position::spec_castle_mask(sq) & 2 != 0) <==> (sq != 0 && sq != 4),
        (crate::position::spec_castle_mask(sq) & 4 != 0) <==> (sq != 60 && sq != 63),
        (crate::position::spec_castle_mask(sq) & 8 != 0) <==> (sq != 56 && sq != 60),
{
    let m = crate::position::spec_castle_mask(sq);
    lemma_mask_constants();
}

proof fn lemma_mask_constants()
    by (bit_vector)
    ensures
        0xfdu8 & 1 != 0 && 0xfdu8 & 2 == 0 && 0xfdu8 & 4 != 0 && 0xfdu8 & 8 != 0,
        0xfcu8 & 1 == 0 && 0xfcu8 & 2 == 0 && 0xfcu8 & 4 != 0 && 0xfcu8 & 8 != 0,
        0xfeu8 & 1 == 0 && 0xfeu8 & 2 != 0 && 0xfeu8 & 4 != 0 && 0xfeu8 & 8 != 0,
        0xf7u8 & 1 != 0 && 0xf7u8 & 2 != 0 && 0xf7u8 & 4 != 0 && 0xf7u8 & 8 == 0,
        0xf3u8 & 1 != 0 && 0xf3u8 & 2 != 0 && 0xf3u8 & 4 == 0 && 0xf3u8 & 8 == 0,
        0xfbu8 & 1 != 0 && 0xfbu8 & 2 != 0 && 0xfbu8 & 4 == 0 && 0xfbu8 & 8 != 0,
        0xffu8 & 1 != 0 && 0xffu8 & 2 != 0 && 0xffu8 & 4 != 0 && 0xffu8 & 8 != 0,
{
}

pub(crate) proof fn lemma_and3_bit(c: u8, m0: u8, m1: u8, bit: u8)
    by (bit_vector)
    requires
        bit == 1 || bit == 2 || bit == 4 || bit == 8,
    ensures
        (c & m0 & m1) & bit != 0 <==> (c & bit != 0 && m0 & bit != 0 && m1 & bit != 0),
{
}

/// A legal move from a reachable position reaches a reachable position, as
/// long as the clocks have room to count it.
pub proof fn lemma_sane_after(s: PosState, mv: Move)
    requires
        sane(s),
        pseudo_legal(s, mv),
        crate::position::legal_after(s, mv),
        s.halfmove + 1 < 0xffff,
        s.fullmove + 1 < 0xffff,
    ensures
        sane(crate::position::make_state(s, mv)),
{
    lemma_pseudo_applicable(s, mv);
    lemma_king_survives(s, mv);
    crate::position::lemma_move_ranges(mv);
    lemma_flags_promo(mv.spec_flags());
    let m = make_state(s, mv);
    let b = s.board;
    let nb = m.board;
    let us = s.side;
    let them = us.spec_flip();
    let from = mv.spec_from() as int;
    let to = mv.spec_to() as int;
    let c = s.castling;
    let m0 = crate::position::spec_castle_mask(mv.spec_from());
    let m1 = crate::position::spec_castle_mask(mv.spec_to());
    assert(c & m0 & m1 < 16) by (bit_vector)
        requires
            c < 16,
    ;
    // The opponent's king is still on the board.
    let tk = king_on(b, them);
    let tking = Some(Piece { color: them, piece_type: PieceType::King });
    let kk = choose|k: int| 0 <= k < 64 && #[trigger] b[k] == tking;
    lemma_king_on_found(b, them, 0, kk);
    lemma_king_on_is_king(b, them, 0);
    if tk != to || mv.spec_is_en_passant() || castle(s, from, to, mv.spec_flags()) {
        assert(nb[tk] == tking);
    } else {
        // Taking the king would mean it was attacked before the move.
        assert(crate::position::attacker_on(b, from, to, us));
        assert(false);
    }
    assert(board_has_king(nb, them));
    assert(crate::position::state_wf(m));
    assert(board_has_king(nb, us));
    assert(ep_consistent(m));
    lemma_mask_bits(mv.spec_from());
    lemma_mask_bits(mv.spec_to());
    lemma_and3_bit(c, m0, m1, 1);
    lemma_and3_bit(c, m0, m1, 2);
    lemma_and3_bit(c, m0, m1, 4);
    lemma_and3_bit(c, m0, m1, 8);
    let nc = m.castling;
    assert(nc == c & m0 & m1);
    if nc & 1 != 0 {
        lemma_untouched(s, mv, 4);
        lemma_untouched(s, mv, 7);
    }
    if nc & 2 != 0 {
        lemma_untouched(s, mv, 4);
        lemma_untouched(s, mv, 0);
    }
    if nc & 4 != 0 {
        lemma_untouched(s, mv, 60);
        lemma_untouched(s, mv, 63);
    }
    if nc & 8 != 0 {
        lemma_untouched(s, mv, 60);
        lemma_untouched(s, mv, 56);
    }
    assert(rights_consistent(m));
}

} // verus!

verus! {

/// Passing the turn when not in check keeps a position sane.
pub proof fn lemma_sane_after_null(s: PosState)
    requires
        sane(s),
        !attacked_on(s.board, king_on(s.board, s.side), s.side.spec_flip()),
        s.halfmove + 1 < 0xffff,
        s.fullmove + 1 < 0xffff,
    ensures
        sane(crate::position::null_state(s)),
{
    let n = crate::position::null_state(s);
    assert(n.side.spec_flip() == s.side);
}

/// The empty move is never pseudo-legal.
pub proof fn lemma_none_not_pseudo(s: PosState)
    ensures
        !pseudo_legal(s, Move(0)),
{
    let m = Move(0);
    crate::types::lemma_move_bits(0);
    assert(m.spec_from() == 0 && m.spec_to() == 0 && m.spec_flags() == 0);
}

/// A legal move of `s`: pseudo-legal and leaving the mover's king safe.
pub open spec fn legal_move(s: PosState, mv: Move) -> bool {
    pseudo_legal(s, mv) && crate::position::legal_after(s, mv)
}

impl Position {
    /// Parses a UCI move string against this position, resolving the flags
    /// (capture, castle, en passant, promotion) that UCI notation omits.
    pub fn parse_uci_move(&self, text: &str) -> (r: Option<Move>)
        requires
            self.wf(),
            playable(self.state()),
        ensures
            r matches Some(mv) ==> legal_move(self.state(), mv) && crate::types::move_text(mv) == text@,
            r is None ==> forall|mv: Move| #[trigger] legal_move(self.state(), mv) ==> crate::types::move_text(mv) != text@,
    {
        let mut scratch = self.clone();
        let moves = generate_legal_moves(&mut scratch);
        let want = crate::text::chars_of(text);
        let mut i: usize = 0;
        while i < moves.len()
            invariant
                i <= moves@.len(),
                want@ == text@,
                forall|k: int| 0 <= k < moves@.len() ==> #[trigger] legal_move(self.state(), moves@[k]),
                forall|mv: Move| #[trigger] legal_move(self.state(), mv) ==> moves@.contains(mv),
                forall|k: int| 0 <= k < i ==> crate::types::move_text(#[trigger] moves@[k]) != text@,
            decreases moves@.len() - i,
        {
            let mv = moves[i];
            let t = mv.to_string();
            let have = crate::text::chars_of(t.as_str());
            if crate::text::chars_eq(&have, &want) {
                assert(legal_move(self.state(), moves@[i as int]));
                return Some(mv);
            }
            i = i + 1;
        }
        proof {
            assert forall|mv: Move| #[trigger] legal_move(self.state(), mv) implies crate::types::move_text(mv) != text@ by {
                assert(moves@.contains(mv));
                let k = choose|k: int| 0 <= k < moves@.len() && moves@[k] == mv;
                assert(crate::types::move_text(moves@[k]) != text@);
            }
        }
        None
    }
}

/// Whether `pos` is a position play can go on from: the side to move has a
/// king, castling rights and the en passant square agree with the board,
/// both clocks have room, and the side not to move has a king that is not
/// attacked.
pub fn is_sane(pos: &Position) -> (r: bool)
    requires
        pos.wf(),
    ensures
        r == sane(pos.state()),
{
    let us = pos.side_to_move;
    let them = us.flip();
    if pos.halfmove_clock == 0xffff || pos.fullmove_number == 0xffff {
        return false;
    }
    let ours = pos.king_square(us);
    if ours >= 64 {
        return false;
    }
    let theirs = pos.king_square(them);
    if theirs >= 64 {
        return false;
    }
    let wk = Some(Piece { color: Color::White, piece_type: PieceType::King });
    let wr = Some(Piece { color: Color::White, piece_type: PieceType::Rook });
    let bk = Some(Piece { color: Color::Black, piece_type: PieceType::King });
    let br = Some(Piece { color: Color::Black, piece_type: PieceType::Rook });
    let c = pos.castling;
    if c & 1 != 0 && !(pos.board[4] == wk && pos.board[7] == wr) {
        return false;
    }
    if c & 2 != 0 && !(pos.board[4] == wk && pos.board[0] == wr) {
        return false;
    }
    if c & 4 != 0 && !(pos.board[60] == bk && pos.board[63] == br) {
        return false;
    }
    if c & 8 != 0 && !(pos.board[60] == bk && pos.board[56] == br) {
        return false;
    }
    match pos.en_passant {
        Some(e) => {
            let pawn = Some(Piece { color: them, piece_type: PieceType::Pawn });
            let cap: i32 = if us == Color::White { e as i32 - 8 } else { e as i32 + 8 };
            if cap < 0 || cap >= 64 {
                return false;
            }
            if pos.board[cap as usize] != pawn || pos.board[e as usize].is_some() {
                return false;
            }
        },
        None => {},
    }
    !pos.is_attacked(theirs, us)
}

/// The standard starting position is one play can go on from.
pub proof fn lemma_start_sane(s: PosState)
    requires
        s.board.len() == 64,
        forall|i: int| 0 <= i < 64 ==> #[trigger] s.board[i] == crate::position::start_piece(i),
        s.side == Color::White,
        s.castling == 15,
        s.en_passant is None,
        s.halfmove == 0,
        s.fullmove == 1,
        s.history.len() == s.repetitions.len(),
    ensures
        sane(s),
{
    let b = s.board;
    let bk = Piece { color: Color::Black, piece_type: PieceType::King };
    assert(b[4] == Some(Piece { color: Color::White, piece_type: PieceType::King }));
    assert(b[60] == Some(bk));
    assert(b[0] == crate::position::start_piece(0));
    assert(b[7] == crate::position::start_piece(7));
    assert(b[56] == crate::position::start_piece(56));
    assert(b[63] == crate::position::start_piece(63));
    assert forall|t: int| 0 <= t < 60 implies b[t] != Some(bk) by {
        assert(b[t] == crate::position::start_piece(t));
    }
    crate::position::lemma_king_at(b, Color::Black, 60);
    assert forall|a: int| !#[trigger] crate::position::attacker_on(b, a, 60, Color::White) by {
        if 0 <= a < 64 && b[a] is Some && b[a]->0.color == Color::White {
            assert(b[a] == crate::position::start_piece(a));
            assert(a < 16);
        }
    }
}

/// In a sane position a pseudo-legal move is fixed by its origin, its
/// target and the piece it promotes to.
pub proof fn lemma_move_determined(s: PosState, m1: Move, m2: Move)
    requires
        sane(s),
        pseudo_legal(s, m1),
        pseudo_legal(s, m2),
        m1.spec_from() == m2.spec_from(),
        m1.spec_to() == m2.spec_to(),
        m1.spec_promotion_piece() == m2.spec_promotion_piece(),
    ensures
        m1 == m2,
{
    crate::position::lemma_move_ranges(m1);
    crate::position::lemma_move_ranges(m2);
    let f1 = m1.spec_flags();
    let f2 = m2.spec_flags();
    crate::types::lemma_flag_bits(f1);
    crate::types::lemma_flag_bits(f2);
    crate::types::lemma_move_ext(m1);
    crate::types::lemma_move_ext(m2);
    let from = m1.spec_from() as int;
    let to = m1.spec_to() as int;
    let home: int = if s.side == Color::White { 0 } else { 56 };
    // A castling move cannot share its target with an ordinary king step.
    if castle(s, from, to, f1) && !castle(s, from, to, f2) {
        assert(from == home + 4);
        assert(s.board[from] == Some(Piece { color: s.side, piece_type: PieceType::King }));
        assert(!king_rel(from, to));
    }
    if castle(s, from, to, f2) && !castle(s, from, to, f1) {
        assert(from == home + 4);
        assert(s.board[from] == Some(Piece { color: s.side, piece_type: PieceType::King }));
        assert(!king_rel(from, to));
    }
    if pawn_capture(s, from, to, f1) && pawn_ep(s, from, to, f2) {
        assert(s.board[to] is None);
    }
    if pawn_capture(s, from, to, f2) && pawn_ep(s, from, to, f1) {
        assert(s.board[to] is None);
    }
    assert(f1 == f2);
}

} // verus!
