//! Bitboard helpers. A `Bitboard` is a u64 where bit `n` is square `n`.
use vstd::prelude::*;
use vstd::std_specs::bits::{u64_trailing_zeros, axiom_u64_trailing_zeros};
use crate::types::Square;
use crate::text::push_char;

verus! {

pub type Bitboard = u64;

pub const EMPTY: Bitboard = 0;
pub const FULL: Bitboard = 0xffff_ffff_ffff_ffff;

pub const FILE_A: Bitboard = 0x0101_0101_0101_0101;
pub const FILE_B: Bitboard = 0x0202_0202_0202_0202;
pub const FILE_G: Bitboard = 0x4040_4040_4040_4040;
pub const FILE_H: Bitboard = 0x8080_8080_8080_8080;

pub const RANK_1: Bitboard = 0xff;
pub const RANK_2: Bitboard = 0xff00;
pub const RANK_4: Bitboard = 0xff00_0000;
pub const RANK_5: Bitboard = 0xff_0000_0000;
pub const RANK_7: Bitboard = 0x00ff_0000_0000_0000;
pub const RANK_8: Bitboard = 0xff00_0000_0000_0000;

/// Whether square `sq` is a member of the set `b`.
pub open spec fn member(b: u64, sq: int) -> bool {
    0 <= sq < 64 && (b >> (sq as u64)) & 1u64 == 1u64
}

/// Number of squares in a set.
pub open spec fn pop(b: u64) -> nat
    decreases b,
{
    if b == 0 {
        0
    } else {
        ((b % 2) + pop(b / 2)) as nat
    }
}

pub open spec fn spec_bb(sq: Square) -> Bitboard {
    1u64 << (sq as u64)
}

pub proof fn lemma_has_bb(s: u64)
    requires
        s < 64,
    ensures
        forall|t: int| #[trigger] member(1u64 << s, t) <==> t == s,
{
    assert forall|t: int| #[trigger] member(1u64 << s, t) <==> t == s by {
        if 0 <= t < 64 {
            let u = t as u64;
            assert((((1u64 << s) >> u) & 1u64 == 1u64) <==> u == s) by (bit_vector)
                requires
                    s < 64,
                    u < 64,
            ;
        }
    }
}

pub proof fn lemma_has_or(a: u64, b: u64)
    ensures
        forall|t: int| #[trigger] member(a | b, t) <==> member(a, t) || member(b, t),
{
    assert forall|t: int| #[trigger] member(a | b, t) <==> member(a, t) || member(b, t) by {
        if 0 <= t < 64 {
            let u = t as u64;
            assert((((a | b) >> u) & 1u64 == 1u64) <==> ((a >> u) & 1u64 == 1u64 || (b >> u) & 1u64
                == 1u64)) by (bit_vector);
        }
    }
}

pub proof fn lemma_has_and(a: u64, b: u64)
    ensures
        forall|t: int| #[trigger] member(a & b, t) <==> member(a, t) && member(b, t),
{
    assert forall|t: int| #[trigger] member(a & b, t) <==> member(a, t) && member(b, t) by {
        if 0 <= t < 64 {
            let u = t as u64;
            assert((((a & b) >> u) & 1u64 == 1u64) <==> ((a >> u) & 1u64 == 1u64 && (b >> u) & 1u64
                == 1u64)) by (bit_vector);
        }
    }
}

pub proof fn lemma_has_xor(a: u64, b: u64)
    ensures
        forall|t: int| #[trigger] member(a ^ b, t) <==> (member(a, t) != member(b, t)),
{
    assert forall|t: int| #[trigger] member(a ^ b, t) <==> (member(a, t) != member(b, t)) by {
        if 0 <= t < 64 {
            let u = t as u64;
            assert((((a ^ b) >> u) & 1u64 == 1u64) <==> (((a >> u) & 1u64 == 1u64) != ((b >> u)
                & 1u64 == 1u64))) by (bit_vector);
        }
    }
}

pub proof fn lemma_has_not(a: u64)
    ensures
        forall|t: int| #[trigger] member(!a, t) <==> 0 <= t < 64 && !member(a, t),
{
    assert forall|t: int| #[trigger] member(!a, t) <==> 0 <= t < 64 && !member(a, t) by {
        if 0 <= t < 64 {
            let u = t as u64;
            assert((((!a) >> u) & 1u64 == 1u64) <==> !((a >> u) & 1u64 == 1u64)) by (bit_vector)
                requires
                    u < 64,
            ;
        }
    }
}

pub proof fn lemma_has_zero()
    ensures
        forall|t: int| !#[trigger] member(0u64, t),
{
    assert forall|t: int| !#[trigger] member(0u64, t) by {
        if 0 <= t < 64 {
            let u = t as u64;
            assert((0u64 >> u) & 1u64 == 0u64) by (bit_vector);
        }
    }
}

/// A set with no member is the empty set, and a set with a member is not.
pub proof fn lemma_zero_iff(a: u64)
    ensures
        a == 0 <==> forall|t: int| 0 <= t < 64 ==> !#[trigger] member(a, t),
{
    lemma_has_zero();
    if a != 0 {
        let z = u64_trailing_zeros(a);
        axiom_u64_trailing_zeros(a);
        assert(member(a, z as int));
    }
}

/// Two bitboards with the same members are equal.
pub proof fn lemma_bits_ext(a: u64, b: u64)
    requires
        forall|t: int| 0 <= t < 64 ==> #[trigger] member(a, t) == member(b, t),
    ensures
        a == b,
{
    assert(member(a, 0) == member(b, 0));
    assert(member(a, 1) == member(b, 1));
    assert(member(a, 2) == member(b, 2));
    assert(member(a, 3) == member(b, 3));
    assert(member(a, 4) == member(b, 4));
    assert(member(a, 5) == member(b, 5));
    assert(member(a, 6) == member(b, 6));
    assert(member(a, 7) == member(b, 7));
    assert(member(a, 8) == member(b, 8));
    assert(member(a, 9) == member(b, 9));
    assert(member(a, 10) == member(b, 10));
    assert(member(a, 11) == member(b, 11));
    assert(member(a, 12) == member(b, 12));
    assert(member(a, 13) == member(b, 13));
    assert(member(a, 14) == member(b, 14));
    assert(member(a, 15) == member(b, 15));
    assert(member(a, 16) == member(b, 16));
    assert(member(a, 17) == member(b, 17));
    assert(member(a, 18) == member(b, 18));
    assert(member(a, 19) == member(b, 19));
    assert(member(a, 20) == member(b, 20));
    assert(member(a, 21) == member(b, 21));
    assert(member(a, 22) == member(b, 22));
    assert(member(a, 23) == member(b, 23));
    assert(member(a, 24) == member(b, 24));
    assert(member(a, 25) == member(b, 25));
    assert(member(a, 26) == member(b, 26));
    assert(member(a, 27) == member(b, 27));
    assert(member(a, 28) == member(b, 28));
    assert(member(a, 29) == member(b, 29));
    assert(member(a, 30) == member(b, 30));
    assert(member(a, 31) == member(b, 31));
    assert(member(a, 32) == member(b, 32));
    assert(member(a, 33) == member(b, 33));
    assert(member(a, 34) == member(b, 34));
    assert(member(a, 35) == member(b, 35));
    assert(member(a, 36) == member(b, 36));
    assert(member(a, 37) == member(b, 37));
    assert(member(a, 38) == member(b, 38));
    assert(member(a, 39) == member(b, 39));
    assert(member(a, 40) == member(b, 40));
    assert(member(a, 41) == member(b, 41));
    assert(member(a, 42) == member(b, 42));
    assert(member(a, 43) == member(b, 43));
    assert(member(a, 44) == member(b, 44));
    assert(member(a, 45) == member(b, 45));
    assert(member(a, 46) == member(b, 46));
    assert(member(a, 47) == member(b, 47));
    assert(member(a, 48) == member(b, 48));
    assert(member(a, 49) == member(b, 49));
    assert(member(a, 50) == member(b, 50));
    assert(member(a, 51) == member(b, 51));
    assert(member(a, 52) == member(b, 52));
    assert(member(a, 53) == member(b, 53));
    assert(member(a, 54) == member(b, 54));
    assert(member(a, 55) == member(b, 55));
    assert(member(a, 56) == member(b, 56));
    assert(member(a, 57) == member(b, 57));
    assert(member(a, 58) == member(b, 58));
    assert(member(a, 59) == member(b, 59));
    assert(member(a, 60) == member(b, 60));
    assert(member(a, 61) == member(b, 61));
    assert(member(a, 62) == member(b, 62));
    assert(member(a, 63) == member(b, 63));
    assert(a == b) by (bit_vector)
        requires
            ((a >> 0u64) & 1u64 == 1u64) == ((b >> 0u64) & 1u64 == 1u64),
            ((a >> 1u64) & 1u64 == 1u64) == ((b >> 1u64) & 1u64 == 1u64),
            ((a >> 2u64) & 1u64 == 1u64) == ((b >> 2u64) & 1u64 == 1u64),
            ((a >> 3u64) & 1u64 == 1u64) == ((b >> 3u64) & 1u64 == 1u64),
            ((a >> 4u64) & 1u64 == 1u64) == ((b >> 4u64) & 1u64 == 1u64),
            ((a >> 5u64) & 1u64 == 1u64) == ((b >> 5u64) & 1u64 == 1u64),
            ((a >> 6u64) & 1u64 == 1u64) == ((b >> 6u64) & 1u64 == 1u64),
            ((a >> 7u64) & 1u64 == 1u64) == ((b >> 7u64) & 1u64 == 1u64),
            ((a >> 8u64) & 1u64 == 1u64) == ((b >> 8u64) & 1u64 == 1u64),
            ((a >> 9u64) & 1u64 == 1u64) == ((b >> 9u64) & 1u64 == 1u64),
            ((a >> 10u64) & 1u64 == 1u64) == ((b >> 10u64) & 1u64 == 1u64),
            ((a >> 11u64) & 1u64 == 1u64) == ((b >> 11u64) & 1u64 == 1u64),
            ((a >> 12u64) & 1u64 == 1u64) == ((b >> 12u64) & 1u64 == 1u64),
            ((a >> 13u64) & 1u64 == 1u64) == ((b >> 13u64) & 1u64 == 1u64),
            ((a >> 14u64) & 1u64 == 1u64) == ((b >> 14u64) & 1u64 == 1u64),
            ((a >> 15u64) & 1u64 == 1u64) == ((b >> 15u64) & 1u64 == 1u64),
            ((a >> 16u64) & 1u64 == 1u64) == ((b >> 16u64) & 1u64 == 1u64),
            ((a >> 17u64) & 1u64 == 1u64) == ((b >> 17u64) & 1u64 == 1u64),
            ((a >> 18u64) & 1u64 == 1u64) == ((b >> 18u64) & 1u64 == 1u64),
            ((a >> 19u64) & 1u64 == 1u64) == ((b >> 19u64) & 1u64 == 1u64),
            ((a >> 20u64) & 1u64 == 1u64) == ((b >> 20u64) & 1u64 == 1u64),
            ((a >> 21u64) & 1u64 == 1u64) == ((b >> 21u64) & 1u64 == 1u64),
            ((a >> 22u64) & 1u64 == 1u64) == ((b >> 22u64) & 1u64 == 1u64),
            ((a >> 23u64) & 1u64 == 1u64) == ((b >> 23u64) & 1u64 == 1u64),
            ((a >> 24u64) & 1u64 == 1u64) == ((b >> 24u64) & 1u64 == 1u64),
            ((a >> 25u64) & 1u64 == 1u64) == ((b >> 25u64) & 1u64 == 1u64),
            ((a >> 26u64) & 1u64 == 1u64) == ((b >> 26u64) & 1u64 == 1u64),
            ((a >> 27u64) & 1u64 == 1u64) == ((b >> 27u64) & 1u64 == 1u64),
            ((a >> 28u64) & 1u64 == 1u64) == ((b >> 28u64) & 1u64 == 1u64),
            ((a >> 29u64) & 1u64 == 1u64) == ((b >> 29u64) & 1u64 == 1u64),
            ((a >> 30u64) & 1u64 == 1u64) == ((b >> 30u64) & 1u64 == 1u64),
            ((a >> 31u64) & 1u64 == 1u64) == ((b >> 31u64) & 1u64 == 1u64),
            ((a >> 32u64) & 1u64 == 1u64) == ((b >> 32u64) & 1u64 == 1u64),
            ((a >> 33u64) & 1u64 == 1u64) == ((b >> 33u64) & 1u64 == 1u64),
            ((a >> 34u64) & 1u64 == 1u64) == ((b >> 34u64) & 1u64 == 1u64),
            ((a >> 35u64) & 1u64 == 1u64) == ((b >> 35u64) & 1u64 == 1u64),
            ((a >> 36u64) & 1u64 == 1u64) == ((b >> 36u64) & 1u64 == 1u64),
            ((a >> 37u64) & 1u64 == 1u64) == ((b >> 37u64) & 1u64 == 1u64),
            ((a >> 38u64) & 1u64 == 1u64) == ((b >> 38u64) & 1u64 == 1u64),
            ((a >> 39u64) & 1u64 == 1u64) == ((b >> 39u64) & 1u64 == 1u64),
            ((a >> 40u64) & 1u64 == 1u64) == ((b >> 40u64) & 1u64 == 1u64),
            ((a >> 41u64) & 1u64 == 1u64) == ((b >> 41u64) & 1u64 == 1u64),
            ((a >> 42u64) & 1u64 == 1u64) == ((b >> 42u64) & 1u64 == 1u64),
            ((a >> 43u64) & 1u64 == 1u64) == ((b >> 43u64) & 1u64 == 1u64),
            ((a >> 44u64) & 1u64 == 1u64) == ((b >> 44u64) & 1u64 == 1u64),
            ((a >> 45u64) & 1u64 == 1u64) == ((b >> 45u64) & 1u64 == 1u64),
            ((a >> 46u64) & 1u64 == 1u64) == ((b >> 46u64) & 1u64 == 1u64),
            ((a >> 47u64) & 1u64 == 1u64) == ((b >> 47u64) & 1u64 == 1u64),
            ((a >> 48u64) & 1u64 == 1u64) == ((b >> 48u64) & 1u64 == 1u64),
            ((a >> 49u64) & 1u64 == 1u64) == ((b >> 49u64) & 1u64 == 1u64),
            ((a >> 50u64) & 1u64 == 1u64) == ((b >> 50u64) & 1u64 == 1u64),
            ((a >> 51u64) & 1u64 == 1u64) == ((b >> 51u64) & 1u64 == 1u64),
            ((a >> 52u64) & 1u64 == 1u64) == ((b >> 52u64) & 1u64 == 1u64),
            ((a >> 53u64) & 1u64 == 1u64) == ((b >> 53u64) & 1u64 == 1u64),
            ((a >> 54u64) & 1u64 == 1u64) == ((b >> 54u64) & 1u64 == 1u64),
            ((a >> 55u64) & 1u64 == 1u64) == ((b >> 55u64) & 1u64 == 1u64),
            ((a >> 56u64) & 1u64 == 1u64) == ((b >> 56u64) & 1u64 == 1u64),
            ((a >> 57u64) & 1u64 == 1u64) == ((b >> 57u64) & 1u64 == 1u64),
            ((a >> 58u64) & 1u64 == 1u64) == ((b >> 58u64) & 1u64 == 1u64),
            ((a >> 59u64) & 1u64 == 1u64) == ((b >> 59u64) & 1u64 == 1u64),
            ((a >> 60u64) & 1u64 == 1u64) == ((b >> 60u64) & 1u64 == 1u64),
            ((a >> 61u64) & 1u64 == 1u64) == ((b >> 61u64) & 1u64 == 1u64),
            ((a >> 62u64) & 1u64 == 1u64) == ((b >> 62u64) & 1u64 == 1u64),
            ((a >> 63u64) & 1u64 == 1u64) == ((b >> 63u64) & 1u64 == 1u64),
    ;
}

#[verifier::when_used_as_spec(spec_bb)]
pub fn bb(sq: Square) -> (b: Bitboard)
    requires
        sq < 64,
    ensures
        b == spec_bb(sq),
        forall|t: int| #[trigger] member(b, t) <==> t == sq,
{
    proof {
        lemma_has_bb(sq as u64);
    }
    1u64 << sq
}

pub fn contains(b: Bitboard, sq: Square) -> (r: bool)
    requires
        sq < 64,
    ensures
        r == member(b, sq as int),
{
    let s = sq as u64;
    assert(((b & (1u64 << s)) != 0) == ((b >> s) & 1u64 == 1u64)) by (bit_vector)
        requires
            s < 64,
    ;
    b & bb(sq) != 0
}

/// The lowest member of a non-empty set.
pub open spec fn spec_lsb(b: Bitboard) -> Square {
    u64_trailing_zeros(b) as u8
}

pub proof fn lemma_lsb(b: Bitboard)
    requires
        b != 0,
    ensures
        spec_lsb(b) < 64,
        member(b, spec_lsb(b) as int),
        forall|t: int| 0 <= t < spec_lsb(b) ==> !#[trigger] member(b, t),
{
    axiom_u64_trailing_zeros(b);
    let z = u64_trailing_zeros(b);
    assert forall|t: int| 0 <= t < spec_lsb(b) implies !#[trigger] member(b, t) by {
        let u = t as u64;
        assert((b >> u) & 1u64 == 0u64);
    }
}

#[verifier::when_used_as_spec(spec_lsb)]
pub fn lsb(b: Bitboard) -> (sq: Square)
    ensures
        sq == spec_lsb(b),
        sq <= 64,
        b == 0 ==> sq == 64,
        b != 0 ==> sq < 64 && member(b, sq as int) && forall|t: int|
            0 <= t < sq ==> !#[trigger] member(b, t),
{
    proof {
        axiom_u64_trailing_zeros(b);
        if b != 0 {
            lemma_lsb(b);
        }
    }
    b.trailing_zeros() as Square
}

/// The number of squares in `b`, counted bit by bit from the low end.
pub fn popcount(b: Bitboard) -> (n: u32)
    ensures
        n == pop(b),
{
    proof {
        lemma_pop_bound(b);
    }
    let mut x = b;
    let mut n: u32 = 0;
    while x != 0
        invariant
            n + pop(x) == pop(b),
            pop(b) <= 64,
        decreases x,
    {
        n = n + (x % 2) as u32;
        x = x / 2;
    }
    n
}

/// Removes and returns the least significant set bit's square.
pub fn pop_lsb(b: &mut Bitboard) -> (sq: Square)
    requires
        *old(b) != 0,
    ensures
        sq == spec_lsb(*old(b)),
        sq < 64,
        member(*old(b), sq as int),
        *final(b) == *old(b) & ((*old(b) - 1) as u64),
        forall|t: int| #[trigger] member(*final(b), t) <==> member(*old(b), t) && t != sq,
        forall|t: int| 0 <= t < sq ==> !#[trigger] member(*old(b), t),
        *final(b) < *old(b),
{
    let sq = lsb(*b);
    let x = *b;
    proof {
        let s = sq as u64;
        assert forall|t: int| #[trigger] member(x & ((x - 1) as u64), t) <==> member(x, t) && t != sq by {
            if 0 <= t < 64 {
                let u = t as u64;
                if u < s {
                    assert(!member(x, t));
                }
                let y = (x - 1) as u64;
                assert(x << ((64 - s) as u64) == 0);
                assert((((x & y) >> u) & 1u64 == 1u64) <==> ((x >> u) & 1u64 == 1u64
                    && u != s)) by (bit_vector)
                    requires
                        y + 1 == x,
                        x << ((64 - s) as u64) == 0,
                        s < 64,
                        u < 64,
                        (x >> s) & 1u64 == 1u64,
                        u < s ==> (x >> u) & 1u64 == 0u64,
                ;
            }
        }
        assert(x != 0 ==> x & ((x - 1) as u64) < x) by (bit_vector);
    }
    *b = x & (x - 1);
    sq
}

pub open spec fn spec_north(b: Bitboard) -> Bitboard {
    b << 8u64
}

pub open spec fn spec_south(b: Bitboard) -> Bitboard {
    b >> 8u64
}

pub open spec fn spec_east(b: Bitboard) -> Bitboard {
    (b & !FILE_H) << 1u64
}

pub open spec fn spec_west(b: Bitboard) -> Bitboard {
    (b & !FILE_A) >> 1u64
}

#[verifier::when_used_as_spec(spec_north)]
pub fn north(b: Bitboard) -> (r: Bitboard)
    ensures
        r == spec_north(b),
        forall|t: int| #[trigger] member(r, t) <==> 8 <= t < 64 && member(b, t - 8),
{
    proof {
        assert forall|t: int| #[trigger] member(b << 8u64, t) <==> 8 <= t < 64 && member(b, t - 8) by {
            if 0 <= t < 64 {
                let u = t as u64;
                assert(u < 64 ==> ((((b << 8u64) >> u) & 1u64 == 1u64) <==> (8 <= u && (b >> ((u - 8) as u64)) & 1u64 == 1u64))) by (bit_vector);
            }
        }
    }
    b << 8
}

#[verifier::when_used_as_spec(spec_south)]
pub fn south(b: Bitboard) -> (r: Bitboard)
    ensures
        r == spec_south(b),
        forall|t: int| #[trigger] member(r, t) <==> 0 <= t < 56 && member(b, t + 8),
{
    proof {
        assert forall|t: int| #[trigger] member(b >> 8u64, t) <==> 0 <= t < 56 && member(b, t + 8) by {
            if 0 <= t < 64 {
                let u = t as u64;
                assert(u < 64 ==> ((((b >> 8u64) >> u) & 1u64 == 1u64) <==> (u < 56 && (b >> ((u + 8) as u64)) & 1u64 == 1u64))) by (bit_vector);
            }
        }
    }
    b >> 8
}

/// The members of a set shifted one file east.
pub proof fn lemma_east_members(b: Bitboard)
    ensures
        forall|t: int| #[trigger] member(spec_east(b), t) <==> 0 <= t < 64 && t % 8 != 0 && member(b, t - 1),
{
    assert forall|t: int| #[trigger] member((b & !FILE_H) << 1u64, t) <==> 0 <= t < 64 && t % 8
        != 0 && member(b, t - 1) by {
        if 0 <= t < 64 {
            let u = t as u64;
            assert(u < 64 ==> (((((b & !0x8080_8080_8080_8080u64) << 1u64) >> u) & 1u64
                == 1u64) <==> (u % 8 != 0 && (b >> ((u - 1) as u64)) & 1u64 == 1u64))) by (bit_vector);
        }
    }
}

#[verifier::when_used_as_spec(spec_east)]
pub fn east(b: Bitboard) -> (r: Bitboard)
    ensures
        r == spec_east(b),
        forall|t: int| #[trigger] member(r, t) <==> 0 <= t < 64 && t % 8 != 0 && member(b, t - 1),
{
    let r = (b & !FILE_H) << 1;
    proof {
        lemma_east_members(b);
        assert(r == spec_east(b));
    }
    r
}

/// The members of a set shifted one file west.
pub proof fn lemma_west_members(b: Bitboard)
    ensures
        forall|t: int| #[trigger] member(spec_west(b), t) <==> 0 <= t < 64 && t % 8 != 7 && member(b, t + 1),
{
    assert forall|t: int| #[trigger] member((b & !FILE_A) >> 1u64, t) <==> 0 <= t < 64 && t % 8
        != 7 && member(b, t + 1) by {
        if 0 <= t < 64 {
            let u = t as u64;
            assert(u < 64 ==> (((((b & !0x0101_0101_0101_0101u64) >> 1u64) >> u) & 1u64
                == 1u64) <==> (u % 8 != 7 && (b >> ((u + 1) as u64)) & 1u64 == 1u64))) by (bit_vector);
        }
    }
}

#[verifier::when_used_as_spec(spec_west)]
pub fn west(b: Bitboard) -> (r: Bitboard)
    ensures
        r == spec_west(b),
        forall|t: int| #[trigger] member(r, t) <==> 0 <= t < 64 && t % 8 != 7 && member(b, t + 1),
{
    let r = (b & !FILE_A) >> 1;
    proof {
        lemma_west_members(b);
        assert(r == spec_west(b));
    }
    r
}

/// Iterates the set squares of a bitboard, low to high.
pub struct BitIter(pub Bitboard);

impl BitIter {
    /// The next square, lowest first, or `None` once the set is exhausted.
    pub fn next(&mut self) -> (r: Option<Square>)
        ensures
            old(self).0 == 0 ==> r is None && final(self).0 == 0,
            old(self).0 != 0 ==> r == Some(spec_lsb(old(self).0)) && r->0 < 64
                && member(old(self).0, r->0 as int)
                && forall|t: int| #[trigger] member(final(self).0, t) <==> member(old(self).0, t) && t != r->0,
            old(self).0 != 0 ==> final(self).0 < old(self).0,
            old(self).0 != 0 ==> forall|t: int| 0 <= t < r->0 ==> !#[trigger] member(old(self).0, t),
    {
        if self.0 == 0 {
            None
        } else {
            Some(pop_lsb(&mut self.0))
        }
    }
}

pub fn iter_bits(b: Bitboard) -> (it: BitIter)
    ensures
        it.0 == b,
{
    BitIter(b)
}

/// One row of the picture `to_string` draws: `X` for a member, `.` otherwise,
/// each followed by a space.
pub open spec fn row_text(b: Bitboard, rank: int, files: int) -> Seq<char>
    decreases files,
{
    if files <= 0 {
        Seq::empty()
    } else {
        row_text(b, rank, files - 1) + seq![
            if member(b, rank * 8 + files - 1) { 'X' } else { '.' },
            ' ',
        ]
    }
}

/// The ranks from `rank` down to the first, each row ending in a newline.
pub open spec fn board_text(b: Bitboard, rank: int) -> Seq<char>
    decreases rank + 1,
{
    if rank < 0 {
        Seq::empty()
    } else {
        (row_text(b, rank, 8) + seq!['\n']) + board_text(b, rank - 1)
    }
}

/// Renders a bitboard as an 8x8 grid, rank 8 at the top. Debugging aid.
pub fn to_string(b: Bitboard) -> (s: String)
    ensures
        s@ == board_text(b, 7),
{
    let mut s = String::new();
    let mut rank: u8 = 8;
    while rank > 0
        invariant
            rank <= 8,
            s@ + board_text(b, rank as int - 1) == board_text(b, 7),
        decreases rank,
    {
        rank = rank - 1;
        let ghost start = s@;
        let mut file: u8 = 0;
        while file < 8
            invariant
                rank < 8,
                file <= 8,
                s@ == start + row_text(b, rank as int, file as int),
            decreases 8 - file,
        {
            let sq = rank * 8 + file;
            let c = if contains(b, sq) {
                'X'
            } else {
                '.'
            };
            push_char(&mut s, c);
            push_char(&mut s, ' ');
            file = file + 1;
            assert(s@ == start + row_text(b, rank as int, file as int));
        }
        push_char(&mut s, '\n');
        assert(board_text(b, rank as int) == (row_text(b, rank as int, 8) + seq!['\n'])
            + board_text(b, rank as int - 1));
        assert(s@ + board_text(b, rank as int - 1) == start + board_text(b, rank as int));
    }
    s
}

/// The squares of rank `r` (0 = first rank).
pub fn rank_bb(r: u8) -> (b: Bitboard)
    requires
        r < 8,
    ensures
        forall|t: int| #[trigger] member(b, t) <==> 0 <= t < 64 && t / 8 == r,
{
    let sh = (r as u64) * 8;
    proof {
        assert forall|t: int| #[trigger] member(0xffu64 << sh, t) <==> 0 <= t < 64 && t / 8 == r by {
            if 0 <= t < 64 {
                let u = t as u64;
                let rr = r as u64;
                assert((((0xffu64 << sh) >> u) & 1u64 == 1u64) <==> (u >> 3u64) == rr) by (bit_vector)
                    requires
                        rr < 8,
                        sh == rr * 8,
                        u < 64,
                ;
                assert(u >> 3u64 == u / 8) by (bit_vector);
            }
        }
    }
    0xffu64 << sh
}

/// The squares of file `f` (0 = a-file).
pub fn file_bb(f: u8) -> (b: Bitboard)
    requires
        f < 8,
    ensures
        forall|t: int| #[trigger] member(b, t) <==> 0 <= t < 64 && t % 8 == f,
        b == FILE_A << (f as u64),
{
    let ff = f as u64;
    proof {
        lemma_file_members(ff);
    }
    FILE_A << ff
}

/// The members of the `ff`-th file.
pub proof fn lemma_file_members(ff: u64)
    requires
        ff < 8,
    ensures
        forall|t: int| #[trigger] member(FILE_A << ff, t) <==> 0 <= t < 64 && t % 8 == ff,
{
    assert forall|t: int| #[trigger] member(FILE_A << ff, t) <==> 0 <= t < 64 && t % 8 == ff by {
        if 0 <= t < 64 {
            let u = t as u64;
            assert((((0x0101_0101_0101_0101u64 << ff) >> u) & 1u64 == 1u64) <==> (u & 7u64) == ff) by (bit_vector)
                requires
                    ff < 8,
                    u < 64,
            ;
            assert(u & 7u64 == u % 8) by (bit_vector);
        }
    }
}

/// The largest number written with `k` bits.
pub open spec fn all_ones(k: nat) -> int
    decreases k,
{
    if k == 0 {
        0
    } else {
        2 * all_ones((k - 1) as nat) + 1
    }
}

proof fn lemma_pop_le_bits(b: u64, k: nat)
    requires
        b <= all_ones(k),
    ensures
        pop(b) <= k,
    decreases k,
{
    if b != 0 {
        assert(k > 0);
        lemma_pop_le_bits(b / 2, (k - 1) as nat);
    }
}

/// A bitboard has at most 64 members.
pub proof fn lemma_pop_bound(b: u64)
    ensures
        pop(b) <= 64,
{
    reveal_with_fuel(all_ones, 65);
    assert(all_ones(64) == 0xffff_ffff_ffff_ffff);
    lemma_pop_le_bits(b, 64);
}

/// Every square is a member of the full set.
pub proof fn lemma_has_full()
    ensures
        forall|t: int| #[trigger] member(FULL, t) <==> 0 <= t < 64,
{
    assert forall|t: int| #[trigger] member(FULL, t) <==> 0 <= t < 64 by {
        if 0 <= t < 64 {
            let u = t as u64;
            assert((0xffff_ffff_ffff_ffffu64 >> u) & 1u64 == 1u64) by (bit_vector)
                requires
                    u < 64,
            ;
        }
    }
}

} // verus!
