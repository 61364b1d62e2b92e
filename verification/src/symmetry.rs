//! The board seen from the other side.
//!
//! Reflecting a position top to bottom and swapping the colours gives the
//! same game with the roles exchanged. Move generation treats the two sides
//! alike, so the mirrored position has the mirrored moves and the same perft
//! counts.
use vstd::prelude::*;
use crate::attacks::{file, rank, abs, sgn, on_board, pawn_attack_rel, knight_rel, king_rel, aligned, on_ray, between_rel, dist};
use crate::position::{PosState, attacker_on, attacked_on, piece_attacks_on, clear_on, rook_line, bishop_line, make_state, moved_board, bmove, ep_capture_square, ep_after, spec_castle_mask, king_on, legal_after};
use crate::perft::{perft_count, count_from};
use crate::bitboard::{member, pop, FILE_A, spec_north, spec_south, spec_east, spec_west};
use crate::attacks::{rook_attack_rel, bishop_attack_rel, clear_between};
use crate::position::{Position, attack_set, is_attack_set, piece_attacks_occ};
use crate::eval::{pawn_span, own_pawns, is_passed, is_isolated, is_doubled, file_free, safe_squares, shelter, table_square, relative_rank, ahead, pawn_mg, pawn_eg, rook_file, piece_mg, piece_eg, holds, mg_table, eg_table, type_mg, type_eg, kinds_mg, kinds_eg, kinds_phase, bishop_pair, side_mg, side_eg, trunc_div, evaluation};
use crate::types::{Color, Move, Piece, PieceType, spec_move_new};
use crate::movegen::{legal_move, pseudo_legal, pawn_push, pawn_double, pawn_capture, pawn_ep, piece_step, castle, fwd, promo_rank, start_rank, is_enemy};

verus! {

/// The square `q` seen from the other side of the board: the same file, the
/// rank counted from the other end.
pub open spec fn mirror_sq(q: int) -> int {
    file(q) + 8 * (7 - rank(q))
}

/// The piece on a square, with its colour swapped.
pub open spec fn mirror_piece(x: Option<Piece>) -> Option<Piece> {
    match x {
        Some(p) => Some(Piece { color: p.color.spec_flip(), piece_type: p.piece_type }),
        None => None,
    }
}

/// The board reflected top to bottom, colours swapped.
pub open spec fn mirror_board(b: Seq<Option<Piece>>) -> Seq<Option<Piece>> {
    Seq::new(64, |q: int| mirror_piece(b[mirror_sq(q)]))
}

pub proof fn lemma_mirror_sq(q: int)
    requires
        0 <= q < 64,
    ensures
        0 <= mirror_sq(q) < 64,
        mirror_sq(mirror_sq(q)) == q,
        file(mirror_sq(q)) == file(q),
        rank(mirror_sq(q)) == 7 - rank(q),
{
}

/// Two squares have the same mirror only when they are the same square.
pub proof fn lemma_mirror_sq_inj(a: int, b: int)
    requires
        0 <= a < 64,
        0 <= b < 64,
        mirror_sq(a) == mirror_sq(b),
    ensures
        a == b,
{
    lemma_mirror_sq(a);
    lemma_mirror_sq(b);
}

/// The geometry of the board survives the reflection, with "forward"
/// reversed.
pub proof fn lemma_mirror_rels(a: int, t: int, c: Color)
    requires
        0 <= a < 64,
        0 <= t < 64,
    ensures
        pawn_attack_rel(c, a, t) <==> pawn_attack_rel(c.spec_flip(), mirror_sq(a), mirror_sq(t)),
        knight_rel(a, t) <==> knight_rel(mirror_sq(a), mirror_sq(t)),
        king_rel(a, t) <==> king_rel(mirror_sq(a), mirror_sq(t)),
        aligned(a, t) <==> aligned(mirror_sq(a), mirror_sq(t)),
        rook_line(a, t) <==> rook_line(mirror_sq(a), mirror_sq(t)),
        bishop_line(a, t) <==> bishop_line(mirror_sq(a), mirror_sq(t)),
        dist(a, t) == dist(mirror_sq(a), mirror_sq(t)),
{
    lemma_mirror_sq(a);
    lemma_mirror_sq(t);
    assert(mirror_sq(a) != mirror_sq(t) <==> a != t) by {
        if mirror_sq(a) == mirror_sq(t) {
            lemma_mirror_sq_inj(a, t);
        }
    }
}

/// A square lies between two others exactly when its mirror lies between
/// their mirrors.
pub proof fn lemma_mirror_between(a: int, t: int, c: int)
    requires
        0 <= a < 64,
        0 <= t < 64,
        0 <= c < 64,
    ensures
        between_rel(a, t, c) <==> between_rel(mirror_sq(a), mirror_sq(t), mirror_sq(c)),
{
    lemma_mirror_rels(a, t, Color::White);
    lemma_mirror_rels(a, c, Color::White);
    lemma_mirror_sq(c);
    let ma = mirror_sq(a);
    let mt = mirror_sq(t);
    let mc = mirror_sq(c);
    assert(sgn(rank(mt) - rank(ma)) == -sgn(rank(t) - rank(a)));
    assert(sgn(rank(mc) - rank(ma)) == -sgn(rank(c) - rank(a)));
    assert(mc != ma <==> c != a) by {
        if mc == ma {
            lemma_mirror_sq_inj(a, c);
        }
    }
    assert(on_ray(a, c, sgn(file(t) - file(a)), sgn(rank(t) - rank(a))) <==> on_ray(ma, mc, sgn(file(mt) - file(ma)), sgn(rank(mt) - rank(ma))));
}

/// The way between two squares is clear exactly when the way between their
/// mirrors is clear on the mirrored board.
pub proof fn lemma_mirror_clear(b: Seq<Option<Piece>>, a: int, t: int)
    requires
        b.len() == 64,
        0 <= a < 64,
        0 <= t < 64,
    ensures
        clear_on(b, a, t) <==> clear_on(mirror_board(b), mirror_sq(a), mirror_sq(t)),
{
    let mb = mirror_board(b);
    let ma = mirror_sq(a);
    let mt = mirror_sq(t);
    lemma_mirror_sq(a);
    lemma_mirror_sq(t);
    if clear_on(b, a, t) {
        assert forall|c: int| #[trigger] between_rel(ma, mt, c) implies mb[c] is None by {
            lemma_mirror_sq(c);
            lemma_mirror_between(a, t, mirror_sq(c));
            assert(b[mirror_sq(c)] is None);
        }
    }
    if clear_on(mb, ma, mt) {
        assert forall|c: int| #[trigger] between_rel(a, t, c) implies b[c] is None by {
            lemma_mirror_sq(c);
            lemma_mirror_between(a, t, c);
            assert(mb[mirror_sq(c)] is None);
        }
    }
}

/// A piece attacks a square exactly when its mirror attacks the mirrored
/// square on the mirrored board.
pub proof fn lemma_mirror_piece_attacks(b: Seq<Option<Piece>>, p: Piece, a: int, t: int)
    requires
        b.len() == 64,
        0 <= a < 64,
        0 <= t < 64,
    ensures
        piece_attacks_on(b, p, a, t) <==> piece_attacks_on(
            mirror_board(b),
            Piece { color: p.color.spec_flip(), piece_type: p.piece_type },
            mirror_sq(a),
            mirror_sq(t),
        ),
{
    lemma_mirror_rels(a, t, p.color);
    lemma_mirror_clear(b, a, t);
}

/// Attacks on a square and on its mirror agree, colours swapped.
pub proof fn lemma_mirror_attacked(b: Seq<Option<Piece>>, t: int, c: Color)
    requires
        b.len() == 64,
        0 <= t < 64,
    ensures
        attacked_on(b, t, c) <==> attacked_on(mirror_board(b), mirror_sq(t), c.spec_flip()),
{
    let mb = mirror_board(b);
    lemma_mirror_sq(t);
    if attacked_on(b, t, c) {
        let a = choose|a: int| #[trigger] attacker_on(b, a, t, c);
        lemma_mirror_sq(a);
        lemma_mirror_piece_attacks(b, b[a]->0, a, t);
        assert(attacker_on(mb, mirror_sq(a), mirror_sq(t), c.spec_flip()));
    }
    if attacked_on(mb, mirror_sq(t), c.spec_flip()) {
        let ma = choose|a: int| #[trigger] attacker_on(mb, a, mirror_sq(t), c.spec_flip());
        lemma_mirror_sq(ma);
        let a = mirror_sq(ma);
        lemma_mirror_piece_attacks(b, b[a]->0, a, t);
        assert(attacker_on(b, a, t, c));
    }
}

pub proof fn lemma_mirror_at(b: Seq<Option<Piece>>, q: int)
    requires
        b.len() == 64,
        0 <= q < 64,
    ensures
        mirror_board(b).len() == 64,
        mirror_board(b)[mirror_sq(q)] == mirror_piece(b[q]),
{
    lemma_mirror_sq(q);
}

/// A move with both squares mirrored and the same flags.
pub open spec fn mirror_move(m: Move) -> Move {
    spec_move_new(mirror_sq(m.spec_from() as int) as u8, mirror_sq(m.spec_to() as int) as u8, m.spec_flags())
}

pub proof fn lemma_mirror_move(m: Move)
    ensures
        mirror_move(m).spec_from() == mirror_sq(m.spec_from() as int),
        mirror_move(m).spec_to() == mirror_sq(m.spec_to() as int),
        mirror_move(m).spec_flags() == m.spec_flags(),
        mirror_move(m).spec_is_capture() == m.spec_is_capture(),
        mirror_move(m).spec_is_en_passant() == m.spec_is_en_passant(),
        mirror_move(m).spec_promotion_piece() == m.spec_promotion_piece(),
        mirror_move(mirror_move(m)) == m,
{
    crate::position::lemma_move_ranges(m);
    let from = m.spec_from() as int;
    let to = m.spec_to() as int;
    lemma_mirror_sq(from);
    lemma_mirror_sq(to);
    crate::types::lemma_move_fields(mirror_sq(from) as u8, mirror_sq(to) as u8, m.spec_flags());
    crate::types::lemma_move_ext(m);
}

/// The castling rights of one side are those of the other in the mirror.
pub open spec fn mirror_rights(a: u8, b: u8) -> bool {
    &&& (a & 1 != 0 <==> b & 4 != 0)
    &&& (a & 2 != 0 <==> b & 8 != 0)
    &&& (a & 4 != 0 <==> b & 1 != 0)
    &&& (a & 8 != 0 <==> b & 2 != 0)
}

/// `t` is `s` reflected top to bottom with the colours swapped: the same
/// game seen from the other side. Clocks, hash and history are not compared.
pub open spec fn mirrored(s: PosState, t: PosState) -> bool {
    &&& s.board.len() == 64
    &&& t.board == mirror_board(s.board)
    &&& t.side == s.side.spec_flip()
    &&& mirror_rights(s.castling, t.castling)
    &&& match s.en_passant {
        Some(e) => e < 64 && t.en_passant == Some(mirror_sq(e as int) as u8),
        None => t.en_passant is None,
    }
}

/// Mirroring twice gives back the board.
pub proof fn lemma_mirror_board_twice(b: Seq<Option<Piece>>)
    requires
        b.len() == 64,
    ensures
        mirror_board(mirror_board(b)) == b,
{
    assert forall|q: int| 0 <= q < 64 implies #[trigger] mirror_board(mirror_board(b))[q] == b[q] by {
        lemma_mirror_sq(q);
    }
    assert(mirror_board(mirror_board(b)) =~= b);
}

/// The mirror relation goes both ways.
pub proof fn lemma_mirrored_back(s: PosState, t: PosState)
    requires
        mirrored(s, t),
    ensures
        mirrored(t, s),
{
    lemma_mirror_board_twice(s.board);
    if let Some(e) = s.en_passant {
        lemma_mirror_sq(e as int);
    }
}

/// A pseudo-legal move's mirror is pseudo-legal in the mirrored position.
proof fn lemma_mirror_pseudo_one(s: PosState, t: PosState, m: Move)
    requires
        mirrored(s, t),
        pseudo_legal(s, m),
    ensures
        pseudo_legal(t, mirror_move(m)),
{
    crate::position::lemma_move_ranges(m);
    lemma_mirror_move(m);
    let b = s.board;
    let mb = t.board;
    let from = m.spec_from() as int;
    let to = m.spec_to() as int;
    let f = m.spec_flags();
    let mm = mirror_move(m);
    let mfrom = mirror_sq(from);
    let mto = mirror_sq(to);
    lemma_mirror_sq(from);
    lemma_mirror_sq(to);
    lemma_mirror_at(b, from);
    lemma_mirror_at(b, to);
    let us = s.side;
    if castle(s, from, to, f) {
        let home: int = if us == Color::White { 0 } else { 56 };
        let mhome: int = if us == Color::White { 56 } else { 0 };
        lemma_mirror_attacked(b, home + 4, us.spec_flip());
        lemma_mirror_attacked(b, home + 5, us.spec_flip());
        lemma_mirror_attacked(b, home + 3, us.spec_flip());
        lemma_mirror_at(b, home + 1);
        lemma_mirror_at(b, home + 2);
        lemma_mirror_at(b, home + 3);
        lemma_mirror_at(b, home + 5);
        lemma_mirror_at(b, home + 6);
        assert(mirror_sq(home + 4) == mhome + 4);
        assert(castle(t, mfrom, mto, f));
    } else {
        let p = b[from]->0;
        if p.piece_type == PieceType::Pawn {
            if pawn_push(s, from, to, f) {
                assert(pawn_push(t, mfrom, mto, f));
            } else if pawn_double(s, from, to, f) {
                lemma_mirror_at(b, from + fwd(us));
                assert(mirror_sq(from + fwd(us)) == mfrom + fwd(us.spec_flip()));
                assert(pawn_double(t, mfrom, mto, f));
            } else if pawn_capture(s, from, to, f) {
                lemma_mirror_rels(from, to, us);
                assert(pawn_capture(t, mfrom, mto, f));
            } else {
                lemma_mirror_rels(from, to, us);
                assert(pawn_ep(t, mfrom, mto, f));
            }
        } else {
            lemma_mirror_piece_attacks(b, p, from, to);
            assert(piece_step(t, mb[mfrom]->0, mfrom, mto, f));
        }
    }
}

/// A move is pseudo-legal exactly when its mirror is pseudo-legal in the
/// mirrored position.
pub proof fn lemma_mirror_pseudo(s: PosState, t: PosState, m: Move)
    requires
        mirrored(s, t),
    ensures
        pseudo_legal(s, m) <==> pseudo_legal(t, mirror_move(m)),
{
    lemma_mirror_move(m);
    if pseudo_legal(s, m) {
        lemma_mirror_pseudo_one(s, t, m);
    }
    if pseudo_legal(t, mirror_move(m)) {
        lemma_mirrored_back(s, t);
        lemma_mirror_pseudo_one(t, s, mirror_move(m));
    }
}

/// Writing a square and mirroring commute.
pub proof fn lemma_mirror_update(b: Seq<Option<Piece>>, i: int, x: Option<Piece>)
    requires
        b.len() == 64,
        0 <= i < 64,
    ensures
        mirror_board(b.update(i, x)) == mirror_board(b).update(mirror_sq(i), mirror_piece(x)),
{
    lemma_mirror_sq(i);
    assert forall|q: int| 0 <= q < 64 implies #[trigger] mirror_board(b.update(i, x))[q] == mirror_board(b).update(
        mirror_sq(i),
        mirror_piece(x),
    )[q] by {
        lemma_mirror_sq(q);
        if q == mirror_sq(i) {
        } else {
            assert(mirror_sq(q) != i);
        }
    }
    assert(mirror_board(b.update(i, x)) =~= mirror_board(b).update(mirror_sq(i), mirror_piece(x)));
}

/// Moving a piece and mirroring commute.
pub proof fn lemma_mirror_bmove(b: Seq<Option<Piece>>, i: int, j: int)
    requires
        b.len() == 64,
        0 <= i < 64,
        0 <= j < 64,
    ensures
        mirror_board(bmove(b, i, j)) == bmove(mirror_board(b), mirror_sq(i), mirror_sq(j)),
{
    lemma_mirror_at(b, i);
    lemma_mirror_update(b, j, b[i]);
    lemma_mirror_update(b.update(j, b[i]), i, None);
}

/// The placement after a pseudo-legal move, mirrored, is the placement after
/// the mirrored move on the mirrored board.
proof fn lemma_mirror_moved_board(s: PosState, t: PosState, m: Move)
    requires
        mirrored(s, t),
        pseudo_legal(s, m),
    ensures
        mirror_board(moved_board(s.board, s.side, m)) == moved_board(t.board, t.side, mirror_move(m)),
{
    crate::position::lemma_move_ranges(m);
    lemma_mirror_move(m);
    let b = s.board;
    let us = s.side;
    let from = m.spec_from() as int;
    let to = m.spec_to() as int;
    let mm = mirror_move(m);
    lemma_mirror_sq(from);
    lemma_mirror_sq(to);
    let b1 = if m.spec_is_en_passant() {
        b.update(ep_capture_square(us, m.spec_to()), None)
    } else {
        b.update(to, None)
    };
    if m.spec_is_en_passant() {
        let cap = ep_capture_square(us, m.spec_to());
        assert(crate::attacks::pawn_attack_rel(us, from, to));
        assert(0 <= cap < 64);
        assert(mirror_sq(cap) == ep_capture_square(t.side, mm.spec_to()));
        lemma_mirror_update(b, cap, None);
    } else {
        lemma_mirror_update(b, to, None);
    }
    let b2 = bmove(b1, from, to);
    lemma_mirror_bmove(b1, from, to);
    let b3 = match m.spec_promotion_piece() {
        Some(pt) => b2.update(to, Some(Piece { color: us, piece_type: pt })),
        None => b2,
    };
    if let Some(pt) = m.spec_promotion_piece() {
        lemma_mirror_update(b2, to, Some(Piece { color: us, piece_type: pt }));
    }
    if m.spec_flags() == 2 {
        assert(castle(s, from, to, 2));
        lemma_mirror_sq(to + 1);
        lemma_mirror_sq(to - 1);
        lemma_mirror_bmove(b3, to + 1, to - 1);
        assert(mirror_sq(to + 1) == mirror_sq(to) + 1);
        assert(mirror_sq(to - 1) == mirror_sq(to) - 1);
    } else if m.spec_flags() == 3 {
        assert(castle(s, from, to, 3));
        lemma_mirror_sq(to - 2);
        lemma_mirror_sq(to + 1);
        lemma_mirror_bmove(b3, to - 2, to + 1);
        assert(mirror_sq(to - 2) == mirror_sq(to) - 2);
        assert(mirror_sq(to + 1) == mirror_sq(to) + 1);
    }
}

/// Making a pseudo-legal move and its mirror keeps the two positions
/// mirrored.
pub proof fn lemma_mirror_make(s: PosState, t: PosState, m: Move)
    requires
        mirrored(s, t),
        pseudo_legal(s, m),
    ensures
        mirrored(make_state(s, m), make_state(t, mirror_move(m))),
{
    crate::position::lemma_move_ranges(m);
    lemma_mirror_move(m);
    lemma_mirror_moved_board(s, t, m);
    let from = m.spec_from();
    let to = m.spec_to();
    let mfrom = mirror_sq(from as int) as u8;
    let mto = mirror_sq(to as int) as u8;
    lemma_mirror_sq(from as int);
    lemma_mirror_sq(to as int);
    let c = s.castling;
    let d = t.castling;
    crate::movegen::lemma_mask_bits(from);
    crate::movegen::lemma_mask_bits(to);
    crate::movegen::lemma_mask_bits(mfrom);
    crate::movegen::lemma_mask_bits(mto);
    crate::movegen::lemma_and3_bit(c, spec_castle_mask(from), spec_castle_mask(to), 1);
    crate::movegen::lemma_and3_bit(c, spec_castle_mask(from), spec_castle_mask(to), 2);
    crate::movegen::lemma_and3_bit(c, spec_castle_mask(from), spec_castle_mask(to), 4);
    crate::movegen::lemma_and3_bit(c, spec_castle_mask(from), spec_castle_mask(to), 8);
    crate::movegen::lemma_and3_bit(d, spec_castle_mask(mfrom), spec_castle_mask(mto), 1);
    crate::movegen::lemma_and3_bit(d, spec_castle_mask(mfrom), spec_castle_mask(mto), 2);
    crate::movegen::lemma_and3_bit(d, spec_castle_mask(mfrom), spec_castle_mask(mto), 4);
    crate::movegen::lemma_and3_bit(d, spec_castle_mask(mfrom), spec_castle_mask(mto), 8);
    if m.spec_flags() == 1 {
        assert(pawn_double(s, from as int, to as int, 1));
    }
}

/// Each side has at most one king.
pub open spec fn single_kings(b: Seq<Option<Piece>>) -> bool {
    forall|i: int, j: int|
        0 <= i < 64 && 0 <= j < 64 && #[trigger] b[i] == #[trigger] b[j] && (b[i] matches Some(p)
            && p.piece_type == PieceType::King) ==> i == j
}

proof fn lemma_single_update(b: Seq<Option<Piece>>, i: int, x: Option<Piece>)
    requires
        b.len() == 64,
        single_kings(b),
        0 <= i < 64,
        !(x matches Some(p) && p.piece_type == PieceType::King),
    ensures
        single_kings(b.update(i, x)),
{
    let nb = b.update(i, x);
    assert forall|a: int, c: int|
        0 <= a < 64 && 0 <= c < 64 && #[trigger] nb[a] == #[trigger] nb[c] && (nb[a] matches Some(p)
            && p.piece_type == PieceType::King) implies a == c by {
        assert(a != i && c != i);
        assert(b[a] == nb[a] && b[c] == nb[c]);
    }
}

proof fn lemma_single_bmove(b: Seq<Option<Piece>>, i: int, j: int)
    requires
        b.len() == 64,
        single_kings(b),
        0 <= i < 64,
        0 <= j < 64,
    ensures
        single_kings(bmove(b, i, j)),
{
    let nb = bmove(b, i, j);
    assert forall|a: int, c: int|
        0 <= a < 64 && 0 <= c < 64 && #[trigger] nb[a] == #[trigger] nb[c] && (nb[a] matches Some(p)
            && p.piece_type == PieceType::King) implies a == c by {
        assert(a != i && c != i);
        if a == j && c != j {
            assert(b[i] == nb[a] && b[c] == nb[c]);
        } else if c == j && a != j {
            assert(b[i] == nb[c] && b[a] == nb[a]);
        } else if a != j && c != j {
            assert(b[a] == nb[a] && b[c] == nb[c]);
        }
    }
}

/// Moves never add a king.
proof fn lemma_single_after(s: PosState, m: Move)
    requires
        s.board.len() == 64,
        single_kings(s.board),
        pseudo_legal(s, m),
    ensures
        single_kings(moved_board(s.board, s.side, m)),
{
    crate::position::lemma_move_ranges(m);
    let b = s.board;
    let us = s.side;
    let from = m.spec_from() as int;
    let to = m.spec_to() as int;
    let b1 = if m.spec_is_en_passant() {
        b.update(ep_capture_square(us, m.spec_to()), None)
    } else {
        b.update(to, None)
    };
    if m.spec_is_en_passant() {
        assert(crate::attacks::pawn_attack_rel(us, from, to));
        lemma_single_update(b, ep_capture_square(us, m.spec_to()), None);
    } else {
        lemma_single_update(b, to, None);
    }
    let b2 = bmove(b1, from, to);
    lemma_single_bmove(b1, from, to);
    let b3 = match m.spec_promotion_piece() {
        Some(pt) => b2.update(to, Some(Piece { color: us, piece_type: pt })),
        None => b2,
    };
    if let Some(pt) = m.spec_promotion_piece() {
        lemma_single_update(b2, to, Some(Piece { color: us, piece_type: pt }));
    }
    if m.spec_flags() == 2 {
        assert(castle(s, from, to, 2));
        lemma_single_bmove(b3, to + 1, to - 1);
    } else if m.spec_flags() == 3 {
        assert(castle(s, from, to, 3));
        lemma_single_bmove(b3, to - 2, to + 1);
    }
}

/// With at most one king a side, the mirrored board's king of the other
/// colour stands on the mirrored square (or is missing on both).
proof fn lemma_mirror_king(b: Seq<Option<Piece>>, c: Color)
    requires
        b.len() == 64,
        single_kings(b),
    ensures
        king_on(b, c) < 64 ==> king_on(mirror_board(b), c.spec_flip()) == mirror_sq(king_on(b, c)),
        king_on(b, c) >= 64 ==> king_on(mirror_board(b), c.spec_flip()) == 64,
{
    let mb = mirror_board(b);
    let k = king_on(b, c);
    let king = Some(Piece { color: c, piece_type: PieceType::King });
    let mking = Some(Piece { color: c.spec_flip(), piece_type: PieceType::King });
    if k < 64 {
        crate::movegen::lemma_king_on_is_king(b, c, 0);
        lemma_mirror_at(b, k);
        lemma_mirror_sq(k);
        assert forall|q: int| 0 <= q < mirror_sq(k) implies mb[q] != mking by {
            lemma_mirror_sq(q);
            if mb[q] == mking {
                assert(b[mirror_sq(q)] == king);
                assert(b[mirror_sq(q)] == b[k]);
            }
        }
        crate::position::lemma_king_at(mb, c.spec_flip(), mirror_sq(k));
    } else {
        assert forall|q: int| 0 <= q < 64 implies mb[q] != mking by {
            lemma_mirror_sq(q);
            if mb[q] == mking {
                assert(b[mirror_sq(q)] == king);
                crate::movegen::lemma_king_on_found(b, c, 0, mirror_sq(q));
            }
        }
        crate::position::lemma_king_from(mb, c.spec_flip(), 0, 64);
    }
}

/// A move is legal exactly when its mirror is legal in the mirrored
/// position.
pub proof fn lemma_mirror_legal(s: PosState, t: PosState, m: Move)
    requires
        mirrored(s, t),
        single_kings(s.board),
    ensures
        legal_move(s, m) <==> legal_move(t, mirror_move(m)),
        legal_move(s, m) ==> single_kings(make_state(s, m).board),
{
    lemma_mirror_pseudo(s, t, m);
    if pseudo_legal(s, m) {
        lemma_mirror_make(s, t, m);
        lemma_single_after(s, m);
        let nb = make_state(s, m).board;
        let k = king_on(nb, s.side);
        lemma_mirror_king(nb, s.side);
        if k < 64 {
            crate::movegen::lemma_king_on_is_king(nb, s.side, 0);
            lemma_mirror_attacked(nb, k, s.side.spec_flip());
        }
    }
}

/// The sum of `f` over `0..n`.
pub open spec fn sum_to(f: spec_fn(int) -> int, n: int) -> int
    decreases n,
{
    if n <= 0 {
        0
    } else {
        sum_to(f, n - 1) + f(n - 1)
    }
}

proof fn lemma_sum_eq(f: spec_fn(int) -> int, g: spec_fn(int) -> int, n: int)
    requires
        forall|i: int| 0 <= i < n ==> #[trigger] f(i) == g(i),
    ensures
        sum_to(f, n) == sum_to(g, n),
    decreases n,
{
    if n > 0 {
        lemma_sum_eq(f, g, n - 1);
    }
}

/// Changing a function at one point changes its sum by the difference.
proof fn lemma_sum_update(f: spec_fn(int) -> int, g: spec_fn(int) -> int, n: int, j: int)
    requires
        0 <= j < n,
        forall|i: int| 0 <= i < n && i != j ==> #[trigger] f(i) == g(i),
    ensures
        sum_to(g, n) + f(j) == sum_to(f, n) + g(j),
    decreases n,
{
    if n - 1 != j {
        lemma_sum_update(f, g, n - 1, j);
    } else {
        lemma_sum_eq(f, g, n - 1);
    }
}

/// Some point of `0..n` is sent to `y`.
pub open spec fn reaches(p: spec_fn(int) -> int, n: int, y: int) -> bool {
    exists|x: int| 0 <= x < n && #[trigger] p(x) == y
}

/// Summing in another order: along a bijection `p` of `0..n`.
proof fn lemma_sum_perm(f: spec_fn(int) -> int, p: spec_fn(int) -> int, n: int)
    requires
        n >= 0,
        forall|i: int| 0 <= i < n ==> 0 <= #[trigger] p(i) < n,
        forall|i: int, j: int| 0 <= i < n && 0 <= j < n && #[trigger] p(i) == #[trigger] p(j) ==> i == j,
        forall|y: int| 0 <= y < n ==> #[trigger] reaches(p, n, y),
    ensures
        sum_to(|i: int| f(p(i)), n) == sum_to(f, n),
    decreases n,
{
    if n > 0 {
        let last = n - 1;
        assert(reaches(p, n, last));
        let j = choose|x: int| 0 <= x < n && #[trigger] p(x) == last;
        let p2 = |i: int| if i == j { p(last) } else { p(i) };
        assert forall|i: int| 0 <= i < last implies 0 <= #[trigger] p2(i) < last by {
            if i == j {
                assert(p(last) != last);
            } else {
                assert(p(i) != last);
            }
        }
        assert forall|a: int, b: int| 0 <= a < last && 0 <= b < last && #[trigger] p2(a) == #[trigger] p2(b) implies a == b by {
            if a == j && b != j {
                assert(p(last) == p(b));
            } else if b == j && a != j {
                assert(p(last) == p(a));
            } else if a != j && b != j {
                assert(p(a) == p(b));
            }
        }
        assert forall|y: int| 0 <= y < last implies #[trigger] reaches(p2, last, y) by {
            assert(reaches(p, n, y));
            let x = choose|x: int| 0 <= x < n && #[trigger] p(x) == y;
            if x == last {
                assert(j != last);
                assert(p2(j) == y);
            } else {
                assert(x != j);
                assert(p2(x) == y);
            }
        }
        lemma_sum_perm(f, p2, last);
        let fp = |i: int| f(p(i));
        let fp2 = |i: int| f(p2(i));
        assert(sum_to(fp, n) == sum_to(fp, last) + f(p(last)));
        if j == last {
            lemma_sum_eq(fp, fp2, last);
        } else {
            lemma_sum_update(fp, fp2, last, j);
        }
    }
}

/// What each move encoding contributes to `perft_count(s, depth)`.
pub open spec fn child_counts(s: PosState, depth: nat) -> spec_fn(int) -> int {
    |x: int| if legal_move(s, Move(x as u16)) {
        perft_count(make_state(s, Move(x as u16)), (depth - 1) as nat) as int
    } else {
        0
    }
}

proof fn lemma_count_sum(s: PosState, depth: nat, m: int)
    requires
        depth > 0,
        0 <= m <= 65536,
    ensures
        count_from(s, depth, m) + sum_to(child_counts(s, depth), m) == sum_to(child_counts(s, depth), 65536),
    decreases 65536 - m,
{
    if m < 65536 {
        lemma_count_sum(s, depth, m + 1);
    }
}

/// The encoding of a move's mirror.
pub open spec fn mirror_code(x: int) -> int {
    mirror_move(Move(x as u16)).0 as int
}

proof fn lemma_mirror_code(x: int)
    requires
        0 <= x < 65536,
    ensures
        0 <= mirror_code(x) < 65536,
        Move(mirror_code(x) as u16) == mirror_move(Move(x as u16)),
        mirror_code(mirror_code(x)) == x,
{
    lemma_mirror_move(Move(x as u16));
}

/// Perft counts do not change when the board is reflected top to bottom and
/// the colours are swapped, as long as neither side has two kings.
pub proof fn lemma_perft_mirror(s: PosState, t: PosState, depth: nat)
    requires
        mirrored(s, t),
        single_kings(s.board),
    ensures
        perft_count(s, depth) == perft_count(t, depth),
    decreases depth,
{
    if depth > 0 {
        let gs = child_counts(s, depth);
        let gt = child_counts(t, depth);
        lemma_count_sum(s, depth, 0);
        lemma_count_sum(t, depth, 0);
        assert forall|x: int| 0 <= x < 65536 implies #[trigger] gt(mirror_code(x)) == gs(x) by {
            let m = Move(x as u16);
            lemma_mirror_code(x);
            lemma_mirror_legal(s, t, m);
            if legal_move(s, m) {
                lemma_mirror_make(s, t, m);
                lemma_perft_mirror(make_state(s, m), make_state(t, mirror_move(m)), (depth - 1) as nat);
            }
        }
        assert forall|i: int, j: int| 0 <= i < 65536 && 0 <= j < 65536 && #[trigger] mirror_code(i) == #[trigger] mirror_code(j) implies i == j by {
            lemma_mirror_code(i);
            lemma_mirror_code(j);
        }
        let code = |x: int| mirror_code(x);
        assert forall|y: int| 0 <= y < 65536 implies #[trigger] reaches(code, 65536, y) by {
            lemma_mirror_code(y);
            assert(code(mirror_code(y)) == y);
        }
        assert forall|i: int| 0 <= i < 65536 implies 0 <= #[trigger] mirror_code(i) < 65536 by {
            lemma_mirror_code(i);
        }
        lemma_sum_perm(gt, code, 65536);
        let gtc = |i: int| gt(code(i));
        assert forall|i: int| 0 <= i < 65536 implies #[trigger] gtc(i) == gs(i) by {
            assert(gtc(i) == gt(mirror_code(i)));
        }
        lemma_sum_eq(gtc, gs, 65536);
        assert(sum_to(gs, 0) == 0);
        assert(sum_to(gt, 0) == 0);
        assert(perft_count(s, depth) == count_from(s, depth, 0));
        assert(perft_count(t, depth) == count_from(t, depth, 0));
    }
}

/// One membership bit per square.
pub open spec fn bit_at(b: u64) -> spec_fn(int) -> int {
    |t: int| if member(b, t) { 1int } else { 0int }
}

/// The squares of the top and bottom halves trade places under `^ 56`.
proof fn lemma_xor_bits(q: u8)
    by (bit_vector)
    requires
        q < 64,
    ensures
        (q ^ 56u8) / 8u8 + q / 8u8 == 7,
        (q ^ 56u8) % 8u8 == q % 8u8,
{
}

/// `q ^ 56` is the mirror of a square.
pub proof fn lemma_xor_mirror(q: u8)
    requires
        q < 64,
    ensures
        (q ^ 56u8) as int == mirror_sq(q as int),
{
    lemma_xor_bits(q);
}

/// Halving a set moves each member down a square, and the lowest bit is
/// the first square.
proof fn lemma_halve_members(b: u64)
    ensures
        forall|t: int| #[trigger] member(b / 2, t) <==> 0 <= t < 63 && member(b, t + 1),
        member(b, 0) <==> b % 2 == 1,
{
    vstd::arithmetic::power2::lemma2_to64();
    vstd::bits::lemma_u64_shr_is_div(b, 1);
    vstd::bits::lemma_u64_shr_is_div(b, 0);
    crate::attacks::lemma_shifts(b, 1);
    vstd::bits::lemma_low_bits_mask_values();
    vstd::bits::lemma_u64_low_bits_mask_is_mod(b, 1);
    assert(b >> 0u64 == b);
    assert(b & 1u64 == b % 2);
}

proof fn lemma_shift_sum(f: spec_fn(int) -> int, n: int)
    requires
        n >= 0,
    ensures
        sum_to(|t: int| f(t + 1), n) + f(0) == sum_to(f, n + 1),
    decreases n,
{
    let g = |t: int| f(t + 1);
    if n > 0 {
        lemma_shift_sum(f, n - 1);
        assert(sum_to(g, n) == sum_to(g, n - 1) + g(n - 1));
        assert(sum_to(f, n + 1) == sum_to(f, n) + f(n));
    } else {
        assert(sum_to(f, 1) == sum_to(f, 0) + f(0));
    }
}

proof fn lemma_sum_zero(f: spec_fn(int) -> int, n: int)
    requires
        forall|t: int| 0 <= t < n ==> #[trigger] f(t) == 0,
    ensures
        sum_to(f, n) == 0,
    decreases n,
{
    if n > 0 {
        lemma_sum_zero(f, n - 1);
    }
}

/// `pop` counts the members.
pub proof fn lemma_pop_sum(b: u64)
    ensures
        pop(b) == sum_to(bit_at(b), 64),
    decreases b,
{
    if b == 0 {
        crate::bitboard::lemma_has_zero();
        lemma_sum_zero(bit_at(b), 64);
    } else {
        let h = b / 2;
        lemma_pop_sum(h);
        let f = bit_at(b);
        lemma_halve_members(b);
        assert forall|t: int| 0 <= t < 64 implies #[trigger] bit_at(h)(t) == f(t + 1) by {
            assert(member(h, t) <==> member(b, t + 1));
        }
        lemma_sum_eq(bit_at(h), |t: int| f(t + 1), 64);
        lemma_shift_sum(f, 64);
        assert(f(0) == b % 2);
    }
}

/// Two sets whose members are each other's mirrors have the same size.
pub proof fn lemma_pop_mirror(b: u64, c: u64)
    requires
        forall|t: int| 0 <= t < 64 ==> (#[trigger] member(c, mirror_sq(t)) <==> member(b, t)),
    ensures
        pop(b) == pop(c),
{
    lemma_pop_sum(b);
    lemma_pop_sum(c);
    let code = |t: int| mirror_sq(t);
    assert forall|i: int| 0 <= i < 64 implies 0 <= #[trigger] code(i) < 64 by {
        lemma_mirror_sq(i);
    }
    assert forall|i: int, j: int| 0 <= i < 64 && 0 <= j < 64 && #[trigger] code(i) == #[trigger] code(j) implies i == j by {
        lemma_mirror_sq_inj(i, j);
    }
    assert forall|y: int| 0 <= y < 64 implies #[trigger] reaches(code, 64, y) by {
        lemma_mirror_sq(y);
        assert(code(mirror_sq(y)) == y);
    }
    lemma_sum_perm(bit_at(c), code, 64);
    let cc = |i: int| bit_at(c)(code(i));
    assert forall|i: int| 0 <= i < 64 implies #[trigger] cc(i) == bit_at(b)(i) by {
        assert(member(c, mirror_sq(i)) <==> member(b, i));
    }
    lemma_sum_eq(cc, bit_at(b), 64);
}

/// `c` holds the mirrors of the members of `b`.
pub open spec fn mirror_set(b: u64, c: u64) -> bool {
    forall|t: int| 0 <= t < 64 ==> (#[trigger] member(c, mirror_sq(t)) <==> member(b, t))
}

proof fn lemma_mirror_set_and(b1: u64, c1: u64, b2: u64, c2: u64)
    requires
        mirror_set(b1, c1),
        mirror_set(b2, c2),
    ensures
        mirror_set(b1 & b2, c1 & c2),
{
    crate::bitboard::lemma_has_and(b1, b2);
    crate::bitboard::lemma_has_and(c1, c2);
}

proof fn lemma_mirror_set_or(b1: u64, c1: u64, b2: u64, c2: u64)
    requires
        mirror_set(b1, c1),
        mirror_set(b2, c2),
    ensures
        mirror_set(b1 | b2, c1 | c2),
{
    crate::bitboard::lemma_has_or(b1, b2);
    crate::bitboard::lemma_has_or(c1, c2);
}

proof fn lemma_mirror_set_not(b: u64, c: u64)
    requires
        mirror_set(b, c),
    ensures
        mirror_set(!b, !c),
{
    crate::bitboard::lemma_has_not(b);
    crate::bitboard::lemma_has_not(c);
    assert forall|t: int| 0 <= t < 64 implies (#[trigger] member(!c, mirror_sq(t)) <==> member(!b, t)) by {
        lemma_mirror_sq(t);
    }
}

/// A file is its own mirror.
proof fn lemma_mirror_set_file(f: u64)
    requires
        f < 8,
    ensures
        mirror_set(FILE_A << f, FILE_A << f),
{
    crate::bitboard::lemma_file_members(f);
    assert forall|t: int| 0 <= t < 64 implies (#[trigger] member(FILE_A << f, mirror_sq(t)) <==> member(FILE_A << f, t)) by {
        lemma_mirror_sq(t);
    }
}

/// Mirrored sets are the same size.
proof fn lemma_mirror_set_pop(b: u64, c: u64)
    requires
        mirror_set(b, c),
    ensures
        pop(b) == pop(c),
{
    lemma_pop_mirror(b, c);
}

/// Sets built one square at a time: the squares of `0..n` where `keep` holds.
pub open spec fn collect(keep: spec_fn(int) -> bool, n: int) -> u64
    decreases n,
{
    if n <= 0 {
        0
    } else {
        collect(keep, n - 1) | (if keep(n - 1) { 1u64 << ((n - 1) as u64) } else { 0u64 })
    }
}

proof fn lemma_collect(keep: spec_fn(int) -> bool, n: int)
    requires
        n <= 64,
    ensures
        forall|t: int| #[trigger] member(collect(keep, n), t) <==> 0 <= t < n && keep(t),
    decreases n,
{
    crate::bitboard::lemma_has_zero();
    if n > 0 {
        lemma_collect(keep, n - 1);
        let rest = collect(keep, n - 1);
        let top: u64 = if keep(n - 1) { 1u64 << ((n - 1) as u64) } else { 0u64 };
        crate::bitboard::lemma_has_or(rest, top);
        crate::bitboard::lemma_has_bb((n - 1) as u64);
    }
}

/// Every attack set exists as a bitboard.
proof fn lemma_attack_set_members(pt: PieceType, sq: int, occ: u64)
    ensures
        forall|t: int| #[trigger] member(attack_set(pt, sq, occ), t) <==> piece_attacks_occ(
            Piece { color: Color::White, piece_type: pt },
            sq,
            t,
            occ,
        ),
{
    let keep = |t: int| piece_attacks_occ(Piece { color: Color::White, piece_type: pt }, sq, t, occ);
    lemma_collect(keep, 64);
    assert(is_attack_set(collect(keep, 64), pt, sq, occ));
    let b = attack_set(pt, sq, occ);
    assert(is_attack_set(b, pt, sq, occ));
}

proof fn lemma_mirror_clear_occ(occ: u64, mocc: u64, a: int, t: int)
    requires
        mirror_set(occ, mocc),
        0 <= a < 64,
        0 <= t < 64,
    ensures
        clear_between(a, t, occ) <==> clear_between(mirror_sq(a), mirror_sq(t), mocc),
{
    let ma = mirror_sq(a);
    let mt = mirror_sq(t);
    lemma_mirror_sq(a);
    lemma_mirror_sq(t);
    if clear_between(a, t, occ) {
        assert forall|c: int| #[trigger] between_rel(ma, mt, c) implies !member(mocc, c) by {
            lemma_mirror_sq(c);
            lemma_mirror_between(a, t, mirror_sq(c));
            assert(!member(occ, mirror_sq(c)));
        }
    }
    if clear_between(ma, mt, mocc) {
        assert forall|c: int| #[trigger] between_rel(a, t, c) implies !member(occ, c) by {
            lemma_mirror_sq(c);
            lemma_mirror_between(a, t, c);
            assert(!member(mocc, mirror_sq(c)));
        }
    }
}

/// The attack set of a piece other than a pawn, from a square and through a
/// board, mirrors to that from the mirrored square through the mirrored
/// board.
proof fn lemma_mirror_attack_set(pt: PieceType, sq: int, occ: u64, mocc: u64)
    requires
        pt != PieceType::Pawn,
        0 <= sq < 64,
        mirror_set(occ, mocc),
    ensures
        mirror_set(attack_set(pt, sq, occ), attack_set(pt, mirror_sq(sq), mocc)),
{
    lemma_attack_set_members(pt, sq, occ);
    lemma_attack_set_members(pt, mirror_sq(sq), mocc);
    assert forall|t: int| 0 <= t < 64 implies (#[trigger] member(attack_set(pt, mirror_sq(sq), mocc), mirror_sq(t))
        <==> member(attack_set(pt, sq, occ), t)) by {
        lemma_mirror_rels(sq, t, Color::White);
        lemma_mirror_clear_occ(occ, mocc, sq, t);
    }
}

proof fn lemma_span_white(b: u64)
    ensures
        forall|t: int| #[trigger] member(pawn_span(b, Color::White), t) <==> 0 <= t < 64 && ((t % 8 != 0
            && 9 <= t && member(b, t - 9)) || (t % 8 != 7 && 7 <= t && member(b, t - 7))),
{
    crate::attacks::lemma_shifts(b, 8);
    crate::bitboard::lemma_east_members(spec_north(b));
    crate::bitboard::lemma_west_members(spec_north(b));
    crate::bitboard::lemma_has_or(spec_east(spec_north(b)), spec_west(spec_north(b)));
}

proof fn lemma_span_black(b: u64)
    ensures
        forall|t: int| #[trigger] member(pawn_span(b, Color::Black), t) <==> 0 <= t < 64 && ((t % 8 != 0
            && 1 <= t && t <= 56 && member(b, t + 7)) || (t % 8 != 7 && t + 1 < 56 && member(b, t + 9))),
{
    crate::attacks::lemma_shifts(b, 8);
    crate::bitboard::lemma_east_members(spec_south(b));
    crate::bitboard::lemma_west_members(spec_south(b));
    crate::bitboard::lemma_has_or(spec_east(spec_south(b)), spec_west(spec_south(b)));
}

/// White pawns' attacks mirror to those of the mirrored black pawns.
#[verifier::spinoff_prover]
#[verifier::rlimit(40)]
proof fn lemma_mirror_span_white(b: u64, c: u64)
    requires
        mirror_set(b, c),
    ensures
        mirror_set(pawn_span(b, Color::White), pawn_span(c, Color::Black)),
{
    lemma_span_white(b);
    lemma_span_black(c);
    assert forall|t: int| 0 <= t < 64 implies (#[trigger] member(pawn_span(c, Color::Black), mirror_sq(t))
        <==> member(pawn_span(b, Color::White), t)) by {
        lemma_mirror_sq(t);
        if 9 <= t {
            lemma_mirror_sq(t - 9);
            assert(member(c, mirror_sq(t - 9)) <==> member(b, t - 9));
        }
        if 7 <= t {
            lemma_mirror_sq(t - 7);
            assert(member(c, mirror_sq(t - 7)) <==> member(b, t - 7));
        }
    }
}

/// Black pawns' attacks mirror to those of the mirrored white pawns.
#[verifier::spinoff_prover]
#[verifier::rlimit(40)]
proof fn lemma_mirror_span_black(b: u64, c: u64)
    requires
        mirror_set(b, c),
    ensures
        mirror_set(pawn_span(b, Color::Black), pawn_span(c, Color::White)),
{
    lemma_span_black(b);
    lemma_span_white(c);
    assert forall|t: int| 0 <= t < 64 implies (#[trigger] member(pawn_span(c, Color::White), mirror_sq(t))
        <==> member(pawn_span(b, Color::Black), t)) by {
        lemma_mirror_sq(t);
        if t + 7 < 64 {
            lemma_mirror_sq(t + 7);
            assert(member(c, mirror_sq(t + 7)) <==> member(b, t + 7));
        }
        if t + 9 < 64 {
            lemma_mirror_sq(t + 9);
            assert(member(c, mirror_sq(t + 9)) <==> member(b, t + 9));
        }
    }
}

/// The squares pawns attack mirror to those the mirrored pawns attack.
proof fn lemma_mirror_pawn_span(b: u64, c: u64, d: Color)
    requires
        mirror_set(b, c),
    ensures
        mirror_set(pawn_span(b, d), pawn_span(c, d.spec_flip())),
{
    if d == Color::White {
        lemma_mirror_span_white(b, c);
    } else {
        lemma_mirror_span_black(b, c);
    }
}

/// `q` is `p` reflected top to bottom with the colours swapped.
pub open spec fn mirrored_pos(p: &Position, q: &Position) -> bool {
    &&& p.wf()
    &&& q.wf()
    &&& q.board@ == mirror_board(p.board@)
    &&& q.side_to_move == p.side_to_move.spec_flip()
}

/// The bitboards of mirrored positions hold the mirrored squares.
proof fn lemma_mirror_bitboards(p: &Position, q: &Position)
    requires
        mirrored_pos(p, q),
    ensures
        forall|i: int| 0 <= i < 6 ==> #[trigger] mirror_set(p.pieces[i], q.pieces[i]),
        forall|c: Color| #[trigger] mirror_set(p.colors[c.spec_index() as int], q.colors[c.spec_flip().spec_index() as int]),
        mirror_set(p.occ(), q.occ()),
        forall|c: Color| #[trigger] mirror_set(own_pawns(p, c), own_pawns(q, c.spec_flip())),
{
    assert forall|i: int| 0 <= i < 6 implies #[trigger] mirror_set(p.pieces[i], q.pieces[i]) by {
        assert forall|t: int| 0 <= t < 64 implies (#[trigger] member(q.pieces[i], mirror_sq(t)) <==> member(p.pieces[i], t)) by {
            lemma_mirror_at(p.board@, t);
            lemma_mirror_sq(t);
        }
    }
    assert forall|c: Color| #[trigger] mirror_set(p.colors[c.spec_index() as int], q.colors[c.spec_flip().spec_index() as int]) by {
        assert forall|t: int| 0 <= t < 64 implies (#[trigger] member(q.colors[c.spec_flip().spec_index() as int], mirror_sq(t)) <==> member(p.colors[c.spec_index() as int], t)) by {
            lemma_mirror_at(p.board@, t);
            lemma_mirror_sq(t);
        }
    }
    assert(mirror_set(p.colors[0], q.colors[1]) && mirror_set(p.colors[1], q.colors[0])) by {
        assert(mirror_set(p.colors[Color::White.spec_index() as int], q.colors[Color::White.spec_flip().spec_index() as int]));
        assert(mirror_set(p.colors[Color::Black.spec_index() as int], q.colors[Color::Black.spec_flip().spec_index() as int]));
    }
    lemma_mirror_set_or(p.colors[0], q.colors[1], p.colors[1], q.colors[0]);
    crate::bitboard::lemma_has_or(q.colors[1], q.colors[0]);
    crate::bitboard::lemma_has_or(q.colors[0], q.colors[1]);
    assert(mirror_set(p.occ(), q.occ())) by {
        assert forall|t: int| 0 <= t < 64 implies (#[trigger] member(q.occ(), mirror_sq(t)) <==> member(p.occ(), t)) by {
            assert(member(q.colors[1] | q.colors[0], mirror_sq(t)) <==> member(p.colors[0] | p.colors[1], t));
        }
    }
    assert forall|c: Color| #[trigger] mirror_set(own_pawns(p, c), own_pawns(q, c.spec_flip())) by {
        assert(mirror_set(p.pieces[0], q.pieces[0]));
        assert(mirror_set(p.colors[c.spec_index() as int], q.colors[c.spec_flip().spec_index() as int]));
        lemma_mirror_set_and(p.pieces[0], q.pieces[0], p.colors[c.spec_index() as int], q.colors[c.spec_flip().spec_index() as int]);
    }
}

/// The pawn-structure terms of a pawn and of its mirror agree.
proof fn lemma_mirror_pawn_terms(p: &Position, q: &Position, c: Color, sq: int)
    requires
        mirrored_pos(p, q),
        0 <= sq < 64,
    ensures
        is_passed(q, c.spec_flip(), mirror_sq(sq)) <==> is_passed(p, c, sq),
        is_isolated(q, c.spec_flip(), mirror_sq(sq)) <==> is_isolated(p, c, sq),
        is_doubled(q, c.spec_flip(), mirror_sq(sq)) <==> is_doubled(p, c, sq),
        relative_rank(c.spec_flip(), mirror_sq(sq)) == relative_rank(c, sq),
        pawn_mg(q, c.spec_flip(), mirror_sq(sq)) == pawn_mg(p, c, sq),
        pawn_eg(q, c.spec_flip(), mirror_sq(sq)) == pawn_eg(p, c, sq),
{
    lemma_mirror_bitboards(p, q);
    lemma_mirror_sq(sq);
    let fc = c.spec_flip();
    let msq = mirror_sq(sq);
    let theirs = own_pawns(p, fc);
    let mtheirs = own_pawns(q, c);
    let ours = own_pawns(p, c);
    let mours = own_pawns(q, fc);
    assert(mirror_set(theirs, mtheirs)) by {
        assert(mirror_set(own_pawns(p, fc), own_pawns(q, fc.spec_flip())));
    }
    assert(mirror_set(ours, mours));
    // Passed.
    if is_passed(p, c, sq) {
        assert forall|t: int| #[trigger] member(mtheirs, t) implies !(abs(file(t) - file(msq)) <= 1 && ahead(fc, t, msq)) by {
            lemma_mirror_sq(t);
            assert(member(mtheirs, mirror_sq(mirror_sq(t))));
            assert(member(theirs, mirror_sq(t)));
        }
    }
    if is_passed(q, fc, msq) {
        assert forall|t: int| #[trigger] member(theirs, t) implies !(abs(file(t) - file(sq)) <= 1 && ahead(c, t, sq)) by {
            lemma_mirror_sq(t);
            assert(member(mtheirs, mirror_sq(t)));
        }
    }
    // Isolated.
    if is_isolated(p, c, sq) {
        assert forall|t: int| #[trigger] member(mours, t) implies abs(file(t) - file(msq)) != 1 by {
            lemma_mirror_sq(t);
            assert(member(mours, mirror_sq(mirror_sq(t))));
            assert(member(ours, mirror_sq(t)));
        }
    }
    if is_isolated(q, fc, msq) {
        assert forall|t: int| #[trigger] member(ours, t) implies abs(file(t) - file(sq)) != 1 by {
            lemma_mirror_sq(t);
            assert(member(mours, mirror_sq(t)));
        }
    }
    // Doubled.
    let f = (sq % 8) as u64;
    assert((msq % 8) as u64 == f);
    lemma_mirror_set_file(f);
    lemma_mirror_set_and(ours, mours, FILE_A << f, FILE_A << f);
    lemma_mirror_set_pop(ours & (FILE_A << f), mours & (FILE_A << f));
}

/// The piece-square tables are read at mirrored squares for mirrored
/// pieces.
proof fn lemma_mirror_table_square(c: Color, sq: int)
    requires
        0 <= sq < 64,
    ensures
        table_square(c.spec_flip(), mirror_sq(sq)) == table_square(c, sq),
        0 <= table_square(c, sq) < 64,
{
    lemma_mirror_sq(sq);
    lemma_xor_mirror(sq as u8);
    lemma_xor_mirror(mirror_sq(sq) as u8);
}

/// The mobility, shelter and rook-file terms of a piece and of its mirror
/// agree.
proof fn lemma_mirror_piece_extras(p: &Position, q: &Position, c: Color, pt: int, sq: int)
    requires
        mirrored_pos(p, q),
        0 <= sq < 64,
        0 <= pt < 6,
    ensures
        1 <= pt <= 4 ==> safe_squares(q, c.spec_flip(), pt, mirror_sq(sq)) == safe_squares(p, c, pt, sq),
        shelter(q, c.spec_flip(), mirror_sq(sq)) == shelter(p, c, sq),
        forall|o: int, h: int| #[trigger] rook_file(q, c.spec_flip(), mirror_sq(sq), o, h) == rook_file(p, c, sq, o, h),
{
    lemma_mirror_bitboards(p, q);
    lemma_mirror_sq(sq);
    let fc = c.spec_flip();
    let msq = mirror_sq(sq);
    let ours = own_pawns(p, c);
    let mours = own_pawns(q, fc);
    let theirs = own_pawns(p, fc);
    let mtheirs = own_pawns(q, c);
    assert(mirror_set(theirs, mtheirs)) by {
        assert(mirror_set(own_pawns(p, fc), own_pawns(q, fc.spec_flip())));
    }
    assert(mirror_set(ours, mours));
    // Mobility.
    if 1 <= pt <= 4 {
        let ptype = crate::types::piece_type_of_index(pt);
        lemma_mirror_attack_set(ptype, sq, p.occ(), q.occ());
        let own = p.colors[c.spec_index() as int];
        let mown = q.colors[fc.spec_index() as int];
        assert(mirror_set(own, mown));
        lemma_mirror_set_not(own, mown);
        lemma_mirror_pawn_span(theirs, mtheirs, fc);
        assert(pawn_span(mtheirs, fc.spec_flip()) == pawn_span(own_pawns(q, fc.spec_flip()), fc.spec_flip()));
        lemma_mirror_set_not(pawn_span(theirs, fc), pawn_span(mtheirs, c));
        let a = attack_set(ptype, sq, p.occ());
        let ma = attack_set(ptype, msq, q.occ());
        lemma_mirror_set_and(a, ma, !own, !mown);
        lemma_mirror_set_and(a & !own, ma & !mown, !pawn_span(theirs, fc), !pawn_span(mtheirs, c));
        lemma_mirror_set_pop(a & !own & !pawn_span(theirs, fc), ma & !mown & !pawn_span(mtheirs, c));
    }
    // Shelter.
    lemma_mirror_attack_set(PieceType::King, sq, p.occ(), q.occ());
    lemma_mirror_set_and(attack_set(PieceType::King, sq, p.occ()), attack_set(PieceType::King, msq, q.occ()), ours, mours);
    lemma_mirror_set_pop(attack_set(PieceType::King, sq, p.occ()) & ours, attack_set(PieceType::King, msq, q.occ()) & mours);
    // Open files.
    assert(file_free(mours, msq) <==> file_free(ours, sq)) by {
        if file_free(ours, sq) {
            assert forall|t: int| #[trigger] member(mours, t) implies file(t) != file(msq) by {
                lemma_mirror_sq(t);
                assert(member(mours, mirror_sq(mirror_sq(t))));
                assert(member(ours, mirror_sq(t)));
            }
        }
        if file_free(mours, msq) {
            assert forall|t: int| #[trigger] member(ours, t) implies file(t) != file(sq) by {
                lemma_mirror_sq(t);
                assert(member(mours, mirror_sq(t)));
            }
        }
    }
    assert(file_free(mtheirs, msq) <==> file_free(theirs, sq)) by {
        if file_free(theirs, sq) {
            assert forall|t: int| #[trigger] member(mtheirs, t) implies file(t) != file(msq) by {
                lemma_mirror_sq(t);
                assert(member(mtheirs, mirror_sq(mirror_sq(t))));
                assert(member(theirs, mirror_sq(t)));
            }
        }
        if file_free(mtheirs, msq) {
            assert forall|t: int| #[trigger] member(theirs, t) implies file(t) != file(sq) by {
                lemma_mirror_sq(t);
                assert(member(mtheirs, mirror_sq(t)));
            }
        }
    }
}

/// A piece and its mirror score the same.
proof fn lemma_mirror_piece_score(p: &Position, q: &Position, c: Color, pt: int, sq: int)
    requires
        mirrored_pos(p, q),
        0 <= sq < 64,
        0 <= pt < 6,
    ensures
        piece_mg(q, c.spec_flip(), pt, mirror_sq(sq)) == piece_mg(p, c, pt, sq),
        piece_eg(q, c.spec_flip(), pt, mirror_sq(sq)) == piece_eg(p, c, pt, sq),
        holds(q, c.spec_flip(), pt, mirror_sq(sq)) <==> holds(p, c, pt, sq),
{
    lemma_mirror_table_square(c, sq);
    lemma_mirror_pawn_terms(p, q, c, sq);
    lemma_mirror_piece_extras(p, q, c, pt, sq);
    lemma_mirror_at(p.board@, sq);
    lemma_mirror_sq(sq);
}

/// What each square adds to `type_mg` and `type_eg`.
pub open spec fn square_mg(pos: &Position, c: Color, pt: int) -> spec_fn(int) -> int {
    |s: int| if holds(pos, c, pt, s) { piece_mg(pos, c, pt, s) } else { 0 }
}

pub open spec fn square_eg(pos: &Position, c: Color, pt: int) -> spec_fn(int) -> int {
    |s: int| if holds(pos, c, pt, s) { piece_eg(pos, c, pt, s) } else { 0 }
}

proof fn lemma_type_sums(pos: &Position, c: Color, pt: int, n: int)
    requires
        n >= 0,
    ensures
        type_mg(pos, c, pt, n) == sum_to(square_mg(pos, c, pt), n),
        type_eg(pos, c, pt, n) == sum_to(square_eg(pos, c, pt), n),
    decreases n,
{
    if n > 0 {
        lemma_type_sums(pos, c, pt, n - 1);
    }
}

/// A sum over the squares is the same taken in mirror order.
proof fn lemma_sum_mirror(f: spec_fn(int) -> int, g: spec_fn(int) -> int)
    requires
        forall|s: int| 0 <= s < 64 ==> #[trigger] g(mirror_sq(s)) == f(s),
    ensures
        sum_to(g, 64) == sum_to(f, 64),
{
    let code = |t: int| mirror_sq(t);
    assert forall|i: int| 0 <= i < 64 implies 0 <= #[trigger] code(i) < 64 by {
        lemma_mirror_sq(i);
    }
    assert forall|i: int, j: int| 0 <= i < 64 && 0 <= j < 64 && #[trigger] code(i) == #[trigger] code(j) implies i == j by {
        lemma_mirror_sq_inj(i, j);
    }
    assert forall|y: int| 0 <= y < 64 implies #[trigger] reaches(code, 64, y) by {
        lemma_mirror_sq(y);
        assert(code(mirror_sq(y)) == y);
    }
    lemma_sum_perm(g, code, 64);
    let gc = |i: int| g(code(i));
    assert forall|i: int| 0 <= i < 64 implies #[trigger] gc(i) == f(i) by {
        assert(gc(i) == g(mirror_sq(i)));
    }
    lemma_sum_eq(gc, f, 64);
}

/// One kind of piece scores the same for a side and for its mirror.
proof fn lemma_mirror_type(p: &Position, q: &Position, c: Color, pt: int)
    requires
        mirrored_pos(p, q),
        0 <= pt < 6,
    ensures
        type_mg(q, c.spec_flip(), pt, 64) == type_mg(p, c, pt, 64),
        type_eg(q, c.spec_flip(), pt, 64) == type_eg(p, c, pt, 64),
{
    let fc = c.spec_flip();
    lemma_type_sums(p, c, pt, 64);
    lemma_type_sums(q, fc, pt, 64);
    assert forall|s: int| 0 <= s < 64 implies #[trigger] square_mg(q, fc, pt)(mirror_sq(s)) == square_mg(p, c, pt)(s) by {
        lemma_mirror_piece_score(p, q, c, pt, s);
    }
    assert forall|s: int| 0 <= s < 64 implies #[trigger] square_eg(q, fc, pt)(mirror_sq(s)) == square_eg(p, c, pt)(s) by {
        lemma_mirror_piece_score(p, q, c, pt, s);
    }
    lemma_sum_mirror(square_mg(p, c, pt), square_mg(q, fc, pt));
    lemma_sum_mirror(square_eg(p, c, pt), square_eg(q, fc, pt));
}

/// All kinds of pieces together.
proof fn lemma_mirror_kinds(p: &Position, q: &Position, c: Color, k: int)
    requires
        mirrored_pos(p, q),
        0 <= k <= 6,
    ensures
        kinds_mg(q, c.spec_flip(), k) == kinds_mg(p, c, k),
        kinds_eg(q, c.spec_flip(), k) == kinds_eg(p, c, k),
        kinds_phase(q, c.spec_flip(), k) == kinds_phase(p, c, k),
    decreases k,
{
    if k > 0 {
        lemma_mirror_kinds(p, q, c, k - 1);
        lemma_mirror_type(p, q, c, k - 1);
        lemma_mirror_bitboards(p, q);
        assert(mirror_set(p.pieces[k - 1], q.pieces[k - 1]));
        assert(mirror_set(p.colors[c.spec_index() as int], q.colors[c.spec_flip().spec_index() as int]));
        lemma_mirror_set_and(p.pieces[k - 1], q.pieces[k - 1], p.colors[c.spec_index() as int], q.colors[c.spec_flip().spec_index() as int]);
        lemma_mirror_set_pop(p.pieces[k - 1] & p.colors[c.spec_index() as int], q.pieces[k - 1] & q.colors[c.spec_flip().spec_index() as int]);
    }
}

/// A side's totals equal its mirror's.
proof fn lemma_mirror_side(p: &Position, q: &Position, c: Color)
    requires
        mirrored_pos(p, q),
    ensures
        side_mg(q, c.spec_flip()) == side_mg(p, c),
        side_eg(q, c.spec_flip()) == side_eg(p, c),
        kinds_phase(q, c.spec_flip(), 6) == kinds_phase(p, c, 6),
{
    lemma_mirror_kinds(p, q, c, 6);
    lemma_mirror_bitboards(p, q);
    assert(mirror_set(p.pieces[2], q.pieces[2]));
    assert(mirror_set(p.colors[c.spec_index() as int], q.colors[c.spec_flip().spec_index() as int]));
    lemma_mirror_set_and(p.pieces[2], q.pieces[2], p.colors[c.spec_index() as int], q.colors[c.spec_flip().spec_index() as int]);
    lemma_mirror_set_pop(p.pieces[2] & p.colors[c.spec_index() as int], q.pieces[2] & q.colors[c.spec_flip().spec_index() as int]);
}

/// Positions that are each other's mirror image score the same for the
/// side to move.
pub proof fn lemma_eval_mirror(p: &Position, q: &Position)
    requires
        mirrored_pos(p, q),
    ensures
        evaluation(q) == evaluation(p),
{
    lemma_mirror_side(p, q, Color::White);
    lemma_mirror_side(p, q, Color::Black);
    let mg = side_mg(p, Color::White) - side_mg(p, Color::Black);
    let eg = side_eg(p, Color::White) - side_eg(p, Color::Black);
    let raw = kinds_phase(p, Color::White, 6) + kinds_phase(p, Color::Black, 6);
    let phase = if raw < 24 { raw } else { 24 };
    let x = mg * phase + eg * (24 - phase);
    assert((-mg) * phase + (-eg) * (24 - phase) == -x) by (nonlinear_arith)
        requires
            x == mg * phase + eg * (24 - phase),
    ;
    assert(trunc_div(-x, 24) == -trunc_div(x, 24));
}

} // verus!
