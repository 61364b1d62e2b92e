//! Attack sets.
//!
//! Leapers (pawn, knight, king) are built from shifts of the origin square.
//! Sliders walk each of their four directions from the origin to the board
//! edge or the first blocker, inclusive.
use vstd::prelude::*;
use crate::bitboard::{Bitboard, member, bb, north, south, east, west, lemma_has_or, lemma_has_and, lemma_has_not, lemma_has_zero, contains};
use crate::types::{Color, Square, file_of, rank_of};

verus! {

pub open spec fn file(s: int) -> int {
    s % 8
}

pub open spec fn rank(s: int) -> int {
    s / 8
}

pub open spec fn abs(x: int) -> int {
    if x < 0 {
        -x
    } else {
        x
    }
}

pub open spec fn sgn(x: int) -> int {
    if x < 0 {
        -1
    } else if x > 0 {
        1
    } else {
        0
    }
}

pub open spec fn max(x: int, y: int) -> int {
    if x < y {
        y
    } else {
        x
    }
}

pub open spec fn on_board(s: int) -> bool {
    0 <= s < 64
}

/// Squares a pawn of `color` on `from` attacks: one rank forward, one file aside.
pub open spec fn pawn_attack_rel(color: Color, from: int, t: int) -> bool {
    on_board(from) && on_board(t) && abs(file(t) - file(from)) == 1 && rank(t) == rank(from) + (
    if color == Color::White {
        1int
    } else {
        -1int
    })
}

pub open spec fn knight_rel(from: int, t: int) -> bool {
    on_board(from) && on_board(t) && ((abs(file(t) - file(from)) == 1 && abs(rank(t) - rank(from))
        == 2) || (abs(file(t) - file(from)) == 2 && abs(rank(t) - rank(from)) == 1))
}

pub open spec fn king_rel(from: int, t: int) -> bool {
    on_board(from) && on_board(t) && from != t && abs(file(t) - file(from)) <= 1 && abs(rank(t)
        - rank(from)) <= 1
}

/// Distance in king steps between two squares.
pub open spec fn dist(a: int, b: int) -> int {
    max(abs(file(b) - file(a)), abs(rank(b) - rank(a)))
}

/// `c` lies on the ray leaving `a` in direction (`df`, `dr`).
pub open spec fn on_ray(a: int, c: int, df: int, dr: int) -> bool {
    &&& on_board(a)
    &&& on_board(c)
    &&& c != a
    &&& sgn(file(c) - file(a)) == df
    &&& sgn(rank(c) - rank(a)) == dr
    &&& (df == 0 || dr == 0 || abs(file(c) - file(a)) == abs(rank(c) - rank(a)))
}

/// `a` and `b` share a rank, file or diagonal.
pub open spec fn aligned(a: int, b: int) -> bool {
    on_board(a) && on_board(b) && a != b && (file(a) == file(b) || rank(a) == rank(b) || abs(
        file(b) - file(a),
    ) == abs(rank(b) - rank(a)))
}

/// `c` lies strictly between `a` and `b` on the rank, file or diagonal they share.
pub open spec fn between_rel(a: int, b: int, c: int) -> bool {
    aligned(a, b) && on_ray(a, c, sgn(file(b) - file(a)), sgn(rank(b) - rank(a))) && dist(a, c)
        < dist(a, b)
}

/// Nothing in `occ` stands strictly between `a` and `b`.
pub open spec fn clear_between(a: int, b: int, occ: u64) -> bool {
    forall|c: int| #[trigger] between_rel(a, b, c) ==> !member(occ, c)
}

/// A rook on `from` attacks `t` under occupancy `occ`.
pub open spec fn rook_attack_rel(from: int, t: int, occ: u64) -> bool {
    aligned(from, t) && (file(from) == file(t) || rank(from) == rank(t)) && clear_between(
        from,
        t,
        occ,
    )
}

/// A bishop on `from` attacks `t` under occupancy `occ`.
pub open spec fn bishop_attack_rel(from: int, t: int, occ: u64) -> bool {
    aligned(from, t) && file(from) != file(t) && rank(from) != rank(t) && clear_between(
        from,
        t,
        occ,
    )
}

/// A ray from `a` in a direction reaching `t` with nothing in the way.
pub open spec fn ray_attack_rel(a: int, t: int, df: int, dr: int, occ: u64) -> bool {
    on_ray(a, t, df, dr) && clear_between(a, t, occ)
}

pub open spec fn is_dir(df: int, dr: int) -> bool {
    -1 <= df <= 1 && -1 <= dr <= 1 && (df != 0 || dr != 0)
}

pub proof fn lemma_shifts(b: u64, k: u64)
    requires
        k < 64,
    ensures
        forall|t: int| #[trigger] member(b << k, t) <==> k <= t < 64 && member(b, t - k),
        forall|t: int| #[trigger] member(b >> k, t) <==> 0 <= t && t + k < 64 && member(b, t + k),
{
    assert forall|t: int| #[trigger] member(b << k, t) <==> k <= t < 64 && member(b, t - k) by {
        if 0 <= t < 64 {
            let u = t as u64;
            assert((((b << k) >> u) & 1u64 == 1u64) <==> (k <= u && (b >> ((u - k) as u64)) & 1u64
                == 1u64)) by (bit_vector)
                requires
                    k < 64,
                    u < 64,
            ;
        }
    }
    assert forall|t: int| #[trigger] member(b >> k, t) <==> 0 <= t && t + k < 64 && member(
        b,
        t + k,
    ) by {
        if 0 <= t < 64 {
            let u = t as u64;
            assert((((b >> k) >> u) & 1u64 == 1u64) <==> (u + k < 64 && (b >> ((u + k) as u64))
                & 1u64 == 1u64)) by (bit_vector)
                requires
                    k < 64,
                    u < 64,
            ;
        }
    }
}

/// Builds the attack tables up front. Attack sets are computed on demand, so
/// there is nothing to prepare; kept for callers that warm up at startup.
pub fn init() {
}

pub fn pawn_attacks(color: Color, sq: Square) -> (b: Bitboard)
    requires
        sq < 64,
    ensures
        forall|t: int| #[trigger] member(b, t) <==> pawn_attack_rel(color, sq as int, t),
{
    let x = bb(sq);
    match color {
        Color::White => {
            let n = north(x);
            let r = east(n) | west(n);
            proof {
                lemma_has_or(east(n), west(n));
                assert forall|t: int| #[trigger] member(r, t) <==> pawn_attack_rel(
                    color,
                    sq as int,
                    t,
                ) by {
                    assert(member(east(n), t) <==> 0 <= t < 64 && t % 8 != 0 && member(n, t - 1));
                    assert(member(west(n), t) <==> 0 <= t < 64 && t % 8 != 7 && member(n, t + 1));
                    assert(member(n, t - 1) <==> 8 <= t - 1 < 64 && member(x, t - 9));
                    assert(member(n, t + 1) <==> 8 <= t + 1 < 64 && member(x, t - 7));
                }
            }
            r
        },
        Color::Black => {
            let s = south(x);
            let r = east(s) | west(s);
            proof {
                lemma_has_or(east(s), west(s));
                assert forall|t: int| #[trigger] member(r, t) <==> pawn_attack_rel(
                    color,
                    sq as int,
                    t,
                ) by {
                    assert(member(east(s), t) <==> 0 <= t < 64 && t % 8 != 0 && member(s, t - 1));
                    assert(member(west(s), t) <==> 0 <= t < 64 && t % 8 != 7 && member(s, t + 1));
                    assert(member(s, t - 1) <==> 0 <= t - 1 < 56 && member(x, t + 7));
                    assert(member(s, t + 1) <==> 0 <= t + 1 < 56 && member(x, t + 9));
                }
            }
            r
        },
    }
}

pub open spec fn one_aside(s: int, u: int) -> bool {
    0 <= u < 64 && (u == s - 1 && s % 8 != 0 || u == s + 1 && s % 8 != 7)
}

pub open spec fn two_aside(s: int, u: int) -> bool {
    0 <= u < 64 && (u == s - 2 && s % 8 >= 2 || u == s + 2 && s % 8 <= 5)
}

proof fn lemma_knight_arith(s: int, t: int)
    requires
        0 <= s < 64,
    ensures
        knight_rel(s, t) <==> (16 <= t < 64 && one_aside(s, t - 16)) || (0 <= t && t + 16 < 64
            && one_aside(s, t + 16)) || (8 <= t < 64 && two_aside(s, t - 8)) || (0 <= t && t + 8 < 64
            && two_aside(s, t + 8)),
{
}

pub fn knight_attacks(sq: Square) -> (b: Bitboard)
    requires
        sq < 64,
    ensures
        forall|t: int| #[trigger] member(b, t) <==> knight_rel(sq as int, t),
{
    let x = bb(sq);
    let l1 = west(x);
    let l2 = west(west(x));
    let r1 = east(x);
    let r2 = east(east(x));
    let one = l1 | r1;
    let two = l2 | r2;
    let a = one << 16;
    let b = one >> 16;
    let c = two << 8;
    let d = two >> 8;
    let result = a | b | c | d;
    proof {
        let s = sq as int;
        lemma_has_or(l1, r1);
        lemma_has_or(l2, r2);
        lemma_shifts(one, 16);
        lemma_shifts(two, 8);
        lemma_has_or(a, b);
        lemma_has_or(a | b, c);
        lemma_has_or(a | b | c, d);
        assert forall|t: int| #[trigger] member(one, t) <==> one_aside(s, t) by {
            assert(member(west(x), t) <==> 0 <= t < 64 && t % 8 != 7 && member(x, t + 1));
            assert(member(east(x), t) <==> 0 <= t < 64 && t % 8 != 0 && member(x, t - 1));
        }
        assert forall|t: int| #[trigger] member(two, t) <==> two_aside(s, t) by {
            assert(member(west(west(x)), t) <==> 0 <= t < 64 && t % 8 != 7 && member(
                west(x),
                t + 1,
            ));
            assert(member(west(x), t + 1) <==> 0 <= t + 1 < 64 && (t + 1) % 8 != 7 && member(
                x,
                t + 2,
            ));
            assert(member(east(east(x)), t) <==> 0 <= t < 64 && t % 8 != 0 && member(
                east(x),
                t - 1,
            ));
            assert(member(east(x), t - 1) <==> 0 <= t - 1 < 64 && (t - 1) % 8 != 0 && member(
                x,
                t - 2,
            ));
        }
        assert forall|t: int| #[trigger] member(result, t) <==> knight_rel(s, t) by {
            assert(member(a, t) <==> 16 <= t < 64 && member(one, t - 16));
            assert(member(b, t) <==> 0 <= t && t + 16 < 64 && member(one, t + 16));
            assert(member(c, t) <==> 8 <= t < 64 && member(two, t - 8));
            assert(member(d, t) <==> 0 <= t && t + 8 < 64 && member(two, t + 8));
            lemma_knight_arith(s, t);
        }
    }
    result
}

pub open spec fn near(q: int, u: int) -> bool {
    0 <= u < 64 && (u == q || u == q - 1 && q % 8 != 0 || u == q + 1 && q % 8 != 7)
}

proof fn lemma_king_arith(q: int, t: int)
    requires
        0 <= q < 64,
    ensures
        king_rel(q, t) <==> (0 <= t < 64 && t != q && (near(q, t) || (8 <= t && near(q, t - 8)) || (
        t < 56 && near(q, t + 8)))),
{
}

pub fn king_attacks(sq: Square) -> (b: Bitboard)
    requires
        sq < 64,
    ensures
        forall|t: int| #[trigger] member(b, t) <==> king_rel(sq as int, t),
{
    let x = bb(sq);
    let e = east(x);
    let w = west(x);
    let ring = x | e | w;
    let n = north(ring);
    let s = south(ring);
    let all = ring | n | s;
    let result = all & !x;
    proof {
        let q = sq as int;
        lemma_has_or(x, e);
        lemma_has_or(x | e, w);
        lemma_has_or(ring, n);
        lemma_has_or(ring | n, s);
        lemma_has_not(x);
        lemma_has_and(all, !x);
        assert forall|t: int| #[trigger] member(ring, t) <==> 0 <= t < 64 && (t == q || t == q - 1
            && q % 8 != 0 || t == q + 1 && q % 8 != 7) by {
            assert(member(e, t) <==> 0 <= t < 64 && t % 8 != 0 && member(x, t - 1));
            assert(member(w, t) <==> 0 <= t < 64 && t % 8 != 7 && member(x, t + 1));
        }
        assert forall|t: int| #[trigger] member(result, t) <==> king_rel(q, t) by {
            assert(member(n, t) <==> 8 <= t < 64 && member(ring, t - 8));
            assert(member(s, t) <==> 0 <= t < 56 && member(ring, t + 8));
            lemma_king_arith(q, t);
        }
    }
    result
}

proof fn lemma_mul_unit(x: int, d: int)
    ensures
        d == 0 ==> x * d == 0,
        d == 1 ==> x * d == x,
        d == -1 ==> x * d == -x,
        (x + 1) * d == x * d + d,
{
    assert((x + 1) * d == x * d + d) by (nonlinear_arith);
    assert(d == -1 ==> x * d == -x) by (nonlinear_arith);
    assert(d == 1 ==> x * d == x) by (nonlinear_arith);
    assert(d == 0 ==> x * d == 0) by (nonlinear_arith);
}

/// Where a ray that has taken `k` steps stands.
proof fn lemma_ray_coords(a: int, t: int, df: int, dr: int)
    requires
        is_dir(df, dr),
        on_ray(a, t, df, dr),
    ensures
        dist(a, t) >= 1,
        file(t) == file(a) + dist(a, t) * df,
        rank(t) == rank(a) + dist(a, t) * dr,
{
    lemma_mul_unit(dist(a, t), df);
    lemma_mul_unit(dist(a, t), dr);
}

/// The square `k` steps along a ray, when it is on the board, is on the ray at
/// distance `k`, and it is the only such square.
proof fn lemma_ray_point(a: int, k: int, df: int, dr: int, nf: int, nr: int)
    requires
        is_dir(df, dr),
        on_board(a),
        k >= 1,
        nf == file(a) + k * df,
        nr == rank(a) + k * dr,
        0 <= nf < 8,
        0 <= nr < 8,
    ensures
        on_ray(a, nr * 8 + nf, df, dr),
        dist(a, nr * 8 + nf) == k,
        file(nr * 8 + nf) == nf,
        rank(nr * 8 + nf) == nr,
        forall|t: int| on_ray(a, t, df, dr) && #[trigger] dist(a, t) == k ==> t == nr * 8 + nf,
{
    let p = nr * 8 + nf;
    assert(file(p) == nf && rank(p) == nr);
    lemma_mul_unit(k, df);
    lemma_mul_unit(k, dr);
    assert forall|t: int| on_ray(a, t, df, dr) && #[trigger] dist(a, t) == k implies t == p by {
        lemma_ray_coords(a, t, df, dr);
        assert(t == rank(t) * 8 + file(t));
    }
}

/// Once a ray has left the board after `k` steps, no square beyond lies on it.
proof fn lemma_ray_ends(a: int, k: int, df: int, dr: int, t: int)
    requires
        is_dir(df, dr),
        on_board(a),
        k >= 0,
        !(0 <= file(a) + (k + 1) * df < 8 && 0 <= rank(a) + (k + 1) * dr < 8),
        on_ray(a, t, df, dr),
    ensures
        dist(a, t) <= k,
{
    lemma_ray_coords(a, t, df, dr);
    let d = dist(a, t);
    lemma_mul_unit(k + 1, df);
    lemma_mul_unit(k + 1, dr);
    lemma_mul_unit(d, df);
    lemma_mul_unit(d, dr);
}

/// On a ray, the squares strictly between the origin and a target are the
/// ray's squares closer to the origin.
proof fn lemma_between_on_ray(a: int, t: int, c: int, df: int, dr: int)
    requires
        is_dir(df, dr),
        on_ray(a, t, df, dr),
    ensures
        between_rel(a, t, c) <==> on_ray(a, c, df, dr) && dist(a, c) < dist(a, t),
{
}

/// The attack set of a slider along one direction.
fn slide(sq: Square, df: i8, dr: i8, occ: Bitboard) -> (attacks: Bitboard)
    requires
        sq < 64,
        is_dir(df as int, dr as int),
    ensures
        forall|t: int| #[trigger] member(attacks, t) <==> ray_attack_rel(
            sq as int,
            t,
            df as int,
            dr as int,
            occ,
        ),
{
    let ghost a = sq as int;
    let ghost dfi = df as int;
    let ghost dri = dr as int;
    let mut attacks: u64 = 0;
    let f0 = file_of(sq) as i8;
    let r0 = rank_of(sq) as i8;
    let mut f: i8 = f0;
    let mut r: i8 = r0;
    let ghost mut k: int = 0;
    proof {
        lemma_has_zero();
        lemma_mul_unit(k, dfi);
        lemma_mul_unit(k, dri);
    }
    loop
        invariant_except_break
            0 <= f < 8,
            0 <= r < 8,
            0 <= k <= 7,
            f as int == file(a) + k * dfi,
            r as int == rank(a) + k * dri,
            forall|t: int| #[trigger]
                member(attacks, t) <==> on_ray(a, t, dfi, dri) && dist(a, t) <= k,
            forall|t: int| on_ray(a, t, dfi, dri) && #[trigger] dist(a, t) <= k ==> !member(occ, t),
        invariant
            is_dir(dfi, dri),
            dfi == df as int,
            dri == dr as int,
            a == sq as int,
            on_board(a),
            f0 as int == file(a),
            r0 as int == rank(a),
        ensures
            forall|t: int| #[trigger]
                member(attacks, t) <==> ray_attack_rel(a, t, dfi, dri, occ),
        decreases 8 - k,
    {
        let nf = f + df;
        let nr = r + dr;
        if nf < 0 || nf >= 8 || nr < 0 || nr >= 8 {
            proof {
                lemma_mul_unit(k, dfi);
                lemma_mul_unit(k, dri);
                assert forall|t: int| #[trigger] member(attacks, t) <==> ray_attack_rel(a, t, dfi, dri, occ) by {
                    if on_ray(a, t, dfi, dri) {
                        lemma_ray_ends(a, k, dfi, dri, t);
                        assert forall|c: int| #[trigger] between_rel(a, t, c) implies !member(occ, c) by {
                            lemma_between_on_ray(a, t, c, dfi, dri);
                        }
                    }
                }
            }
            break;
        }
        let target = (nr * 8 + nf) as u8;
        proof {
            lemma_mul_unit(k, dfi);
            lemma_mul_unit(k, dri);
            lemma_ray_point(a, k + 1, dfi, dri, nf as int, nr as int);
        }
        let tb = bb(target);
        let old_attacks = attacks;
        attacks = attacks | tb;
        proof {
            lemma_has_or(old_attacks, tb);
            assert forall|t: int| #[trigger] member(attacks, t) <==> on_ray(a, t, dfi, dri) && dist(a, t) <= k + 1 by {
                if on_ray(a, t, dfi, dri) && dist(a, t) == k + 1 {
                    assert(t == target as int);
                }
            }
        }
        if contains(occ, target) {
            proof {
                assert forall|t: int| #[trigger] member(attacks, t) <==> ray_attack_rel(a, t, dfi, dri, occ) by {
                    if on_ray(a, t, dfi, dri) {
                        if dist(a, t) > k + 1 {
                            lemma_between_on_ray(a, t, target as int, dfi, dri);
                            assert(between_rel(a, t, target as int));
                        } else {
                            assert forall|c: int| #[trigger] between_rel(a, t, c) implies !member(occ, c) by {
                                lemma_between_on_ray(a, t, c, dfi, dri);
                            }
                        }
                    }
                }
            }
            break;
        }
        f = nf;
        r = nr;
        proof {
            k = k + 1;
        }
    }
    attacks
}

pub fn rook_attacks(sq: Square, occupancy: Bitboard) -> (b: Bitboard)
    requires
        sq < 64,
    ensures
        forall|t: int| #[trigger] member(b, t) <==> rook_attack_rel(sq as int, t, occupancy),
{
    let n = slide(sq, 0, 1, occupancy);
    let s = slide(sq, 0, -1, occupancy);
    let e = slide(sq, 1, 0, occupancy);
    let w = slide(sq, -1, 0, occupancy);
    let result = n | s | e | w;
    proof {
        lemma_has_or(n, s);
        lemma_has_or(n | s, e);
        lemma_has_or(n | s | e, w);
    }
    result
}

pub fn bishop_attacks(sq: Square, occupancy: Bitboard) -> (b: Bitboard)
    requires
        sq < 64,
    ensures
        forall|t: int| #[trigger] member(b, t) <==> bishop_attack_rel(sq as int, t, occupancy),
{
    let ne = slide(sq, 1, 1, occupancy);
    let nw = slide(sq, -1, 1, occupancy);
    let se = slide(sq, 1, -1, occupancy);
    let sw = slide(sq, -1, -1, occupancy);
    let result = ne | nw | se | sw;
    proof {
        lemma_has_or(ne, nw);
        lemma_has_or(ne | nw, se);
        lemma_has_or(ne | nw | se, sw);
    }
    result
}

pub fn queen_attacks(sq: Square, occupancy: Bitboard) -> (b: Bitboard)
    requires
        sq < 64,
    ensures
        forall|t: int| #[trigger] member(b, t) <==> rook_attack_rel(sq as int, t, occupancy)
            || bishop_attack_rel(sq as int, t, occupancy),
{
    let r = rook_attacks(sq, occupancy);
    let b = bishop_attacks(sq, occupancy);
    proof {
        lemma_has_or(r, b);
    }
    r | b
}

fn sign(x: i8) -> (s: i8)
    ensures
        s as int == sgn(x as int),
{
    if x < 0 {
        -1
    } else if x > 0 {
        1
    } else {
        0
    }
}

fn abs8(x: i8) -> (s: i8)
    requires
        -64 < x < 64,
    ensures
        s as int == abs(x as int),
{
    if x < 0 {
        -x
    } else {
        x
    }
}

/// Squares strictly between `a` and `b`, or empty if they don't share a line.
pub fn between(a: Square, b: Square) -> (r: Bitboard)
    requires
        a < 64,
        b < 64,
    ensures
        forall|c: int| #[trigger] member(r, c) <==> between_rel(a as int, b as int, c),
{
    let ghost ai = a as int;
    let ghost bi = b as int;
    let fa = file_of(a) as i8;
    let ra = rank_of(a) as i8;
    let fb = file_of(b) as i8;
    let rb = rank_of(b) as i8;
    let fd = fb - fa;
    let rd = rb - ra;
    let afd = abs8(fd);
    let ard = abs8(rd);
    proof {
        lemma_has_zero();
    }
    if a == b || !(fd == 0 || rd == 0 || afd == ard) {
        proof {
            assert(!aligned(ai, bi));
        }
        return 0;
    }
    let df = sign(fd);
    let dr = sign(rd);
    let n: i8 = if afd < ard {
        ard
    } else {
        afd
    };
    let ghost dfi = df as int;
    let ghost dri = dr as int;
    proof {
        assert(aligned(ai, bi));
        assert(on_ray(ai, bi, dfi, dri));
        assert(n as int == dist(ai, bi));
        lemma_ray_coords(ai, bi, dfi, dri);
        lemma_mul_unit(n as int, dfi);
        lemma_mul_unit(n as int, dri);
    }
    let mut acc: u64 = 0;
    let mut k: i8 = 1;
    let mut f: i8 = fa + df;
    let mut r: i8 = ra + dr;
    proof {
        lemma_mul_unit(0, dfi);
        lemma_mul_unit(0, dri);
    }
    while k < n
        invariant
            is_dir(dfi, dri),
            dfi == df as int,
            dri == dr as int,
            ai == a as int,
            bi == b as int,
            on_board(ai),
            aligned(ai, bi),
            on_ray(ai, bi, dfi, dri),
            dfi == sgn(file(bi) - file(ai)),
            dri == sgn(rank(bi) - rank(ai)),
            n as int == dist(ai, bi),
            1 <= k <= n,
            fa as int == file(ai),
            ra as int == rank(ai),
            f as int == file(ai) + (k as int) * dfi,
            r as int == rank(ai) + (k as int) * dri,
            forall|c: int| #[trigger]
                member(acc, c) <==> on_ray(ai, c, dfi, dri) && dist(ai, c) < k,
        decreases n - k,
    {
        proof {
            lemma_mul_unit(k as int, dfi);
            lemma_mul_unit(k as int, dri);
            lemma_mul_unit(n as int, dfi);
            lemma_mul_unit(n as int, dri);
            lemma_ray_coords(ai, bi, dfi, dri);
            lemma_ray_point(ai, k as int, dfi, dri, f as int, r as int);
        }
        let sq = (r * 8 + f) as u8;
        let old_acc = acc;
        let sb = bb(sq);
        acc = acc | sb;
        proof {
            lemma_has_or(old_acc, sb);
            assert forall|c: int| #[trigger] member(acc, c) <==> on_ray(ai, c, dfi, dri) && dist(ai, c) < k + 1 by {
                if on_ray(ai, c, dfi, dri) && dist(ai, c) == k {
                    assert(c == sq as int);
                }
            }
        }
        k = k + 1;
        f = f + df;
        r = r + dr;
    }
    proof {
        assert forall|c: int| #[trigger] member(acc, c) <==> between_rel(ai, bi, c) by {
            lemma_between_on_ray(ai, bi, c, dfi, dri);
        }
    }
    acc
}

/// Being strictly between two squares does not depend on which end is named first.
pub proof fn lemma_between_sym(a: int, b: int, c: int)
    ensures
        between_rel(a, b, c) <==> between_rel(b, a, c),
{
    if between_rel(a, b, c) {
        lemma_between_sym_half(a, b, c);
    }
    if between_rel(b, a, c) {
        lemma_between_sym_half(b, a, c);
    }
}

proof fn lemma_between_sym_half(a: int, b: int, c: int)
    requires
        between_rel(a, b, c),
    ensures
        between_rel(b, a, c),
{
    let df = sgn(file(b) - file(a));
    let dr = sgn(rank(b) - rank(a));
    assert(is_dir(df, dr));
    assert(on_ray(a, b, df, dr));
    lemma_ray_coords(a, b, df, dr);
    lemma_ray_coords(a, c, df, dr);
    let n = dist(a, b);
    let k = dist(a, c);
    lemma_mul_unit(n, df);
    lemma_mul_unit(n, dr);
    lemma_mul_unit(k, df);
    lemma_mul_unit(k, dr);
}

pub proof fn lemma_clear_sym(a: int, t: int, occ: u64)
    ensures
        clear_between(a, t, occ) <==> clear_between(t, a, occ),
{
    if clear_between(a, t, occ) {
        assert forall|c: int| #[trigger] between_rel(t, a, c) implies !member(occ, c) by {
            lemma_between_sym(a, t, c);
        }
    }
    if clear_between(t, a, occ) {
        assert forall|c: int| #[trigger] between_rel(a, t, c) implies !member(occ, c) by {
            lemma_between_sym(a, t, c);
        }
    }
}

pub proof fn lemma_rook_sym(a: int, t: int, occ: u64)
    ensures
        rook_attack_rel(a, t, occ) <==> rook_attack_rel(t, a, occ),
{
    lemma_clear_sym(a, t, occ);
}

pub proof fn lemma_bishop_sym(a: int, t: int, occ: u64)
    ensures
        bishop_attack_rel(a, t, occ) <==> bishop_attack_rel(t, a, occ),
{
    lemma_clear_sym(a, t, occ);
}

} // verus!
