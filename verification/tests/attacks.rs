use lib::attacks::{between, bishop_attacks, king_attacks, knight_attacks, pawn_attacks, rook_attacks};
use lib::bitboard::{bb, contains, popcount, EMPTY, FILE_B, FULL, RANK_4};
use lib::types::{parse_square, Color, Square};

fn sq(s: &str) -> Square {
    parse_square(s).unwrap()
}

/// Ray walk used as an independent reference for the slider attack sets.
fn sliding_attacks(sq: Square, occ: u64, dirs: &[(i32, i32)]) -> u64 {
    let mut attacks = 0u64;
    for &(df, dr) in dirs {
        let mut f = (sq % 8) as i32 + df;
        let mut r = (sq / 8) as i32 + dr;
        while (0..8).contains(&f) && (0..8).contains(&r) {
            let s = (r * 8 + f) as u32;
            attacks |= 1u64 << s;
            if occ & (1u64 << s) != 0 {
                break;
            }
            f += df;
            r += dr;
        }
    }
    attacks
}

const ROOK_DIRS: [(i32, i32); 4] = [(1, 0), (-1, 0), (0, 1), (0, -1)];
const BISHOP_DIRS: [(i32, i32); 4] = [(1, 1), (1, -1), (-1, 1), (-1, -1)];

#[test]
fn knight_attacks_are_correct() {
    assert_eq!(popcount(knight_attacks(sq("a1"))), 2);
    assert_eq!(popcount(knight_attacks(sq("d4"))), 8);
    assert_eq!(popcount(knight_attacks(sq("h8"))), 2);
    assert_eq!(
        knight_attacks(sq("b1")),
        bb(sq("a3")) | bb(sq("c3")) | bb(sq("d2"))
    );
}

#[test]
fn king_and_pawn_attacks_are_correct() {
    assert_eq!(popcount(king_attacks(sq("a1"))), 3);
    assert_eq!(popcount(king_attacks(sq("e4"))), 8);
    assert_eq!(pawn_attacks(Color::White, sq("a2")), bb(sq("b3")));
    assert_eq!(pawn_attacks(Color::Black, sq("h7")), bb(sq("g6")));
    assert_eq!(
        pawn_attacks(Color::White, sq("e4")),
        bb(sq("d5")) | bb(sq("f5"))
    );
}

#[test]
fn sliders_stop_at_blockers() {
    // Rook on a1 with a blocker on a4: reaches a2..a4 and b1..h1.
    let occ = bb(sq("a4"));
    let attacks = rook_attacks(sq("a1"), occ);
    assert!(contains(attacks, sq("a4")));
    assert!(!contains(attacks, sq("a5")));
    assert!(contains(attacks, sq("h1")));
    assert_eq!(popcount(attacks), 3 + 7);

    let attacks = bishop_attacks(sq("c1"), bb(sq("e3")));
    assert!(contains(attacks, sq("e3")));
    assert!(!contains(attacks, sq("f4")));
}

#[test]
fn magics_agree_with_reference_generation() {
    for sq in 0..64u8 {
        for occ in [EMPTY, 0x1234_5678_9abc_def0, FULL, RANK_4 | FILE_B] {
            assert_eq!(rook_attacks(sq, occ), sliding_attacks(sq, occ, &ROOK_DIRS));
            assert_eq!(
                bishop_attacks(sq, occ),
                sliding_attacks(sq, occ, &BISHOP_DIRS)
            );
        }
    }
}

#[test]
fn between_covers_only_inner_squares() {
    assert_eq!(between(sq("a1"), sq("a4")), bb(sq("a2")) | bb(sq("a3")));
    assert_eq!(between(sq("c1"), sq("f4")), bb(sq("d2")) | bb(sq("e3")));
    assert_eq!(between(sq("a1"), sq("b1")), EMPTY);
    assert_eq!(between(sq("a1"), sq("b3")), EMPTY);
}
