use lib::movegen::{generate_captures, generate_legal_moves, generate_moves};
use lib::position::{Position, STARTPOS_FEN};
use lib::types::{Color, Move};

fn legal_count(fen: &str) -> usize {
    let mut pos = Position::from_fen(fen).unwrap();
    generate_legal_moves(&mut pos).len()
}

#[test]
fn startpos_has_twenty_moves() {
    assert_eq!(legal_count(STARTPOS_FEN), 20);
}

#[test]
fn pinned_pieces_cannot_move_away() {
    // The knight on e2 is pinned by the rook on e8, so only the four king
    // steps off the e-file are legal.
    let fen = "4rk2/8/8/8/8/8/4N3/4K3 w - - 0 1";
    assert_eq!(legal_count(fen), 4);
    let mut pos = Position::from_fen(fen).unwrap();
    assert!(!generate_legal_moves(&mut pos).iter().any(|m| m.from() == 12));
}

#[test]
fn king_must_escape_check() {
    // Only king moves and the knight interposition/capture are legal.
    let fen = "4k3/8/8/8/7b/8/8/4K3 w - - 0 1";
    let mut pos = Position::from_fen(fen).unwrap();
    for mv in generate_legal_moves(&mut pos) {
        pos.make_move(mv);
        assert!(!pos.is_attacked(pos.king_square(Color::White), Color::Black));
        pos.unmake_move();
    }
}

#[test]
fn castling_is_blocked_and_gated_correctly() {
    // Free to castle both ways.
    let mut pos = Position::from_fen("r3k2r/8/8/8/8/8/8/R3K2R w KQkq - 0 1").unwrap();
    let castles = generate_legal_moves(&mut pos)
        .iter()
        .filter(|m| m.is_castle())
        .count();
    assert_eq!(castles, 2);

    // f1 attacked by the black rook: king side is out.
    let mut pos = Position::from_fen("5rk1/8/8/8/8/8/8/R3K2R w KQ - 0 1").unwrap();
    let castles: Vec<_> = generate_legal_moves(&mut pos)
        .into_iter()
        .filter(|m| m.is_castle())
        .collect();
    assert_eq!(castles.len(), 1);
    assert_eq!(castles[0].to_string(), "e1c1");

    // In check: no castling at all.
    let mut pos = Position::from_fen("4r1k1/8/8/8/8/8/8/R3K2R w KQ - 0 1").unwrap();
    assert!(!generate_legal_moves(&mut pos).iter().any(|m| m.is_castle()));

    // b1 occupied blocks queen side but not king side.
    let mut pos = Position::from_fen("6k1/8/8/8/8/8/8/RN2K2R w KQ - 0 1").unwrap();
    let castles: Vec<_> = generate_legal_moves(&mut pos)
        .into_iter()
        .filter(|m| m.is_castle())
        .collect();
    assert_eq!(castles.len(), 1);
    assert_eq!(castles[0].to_string(), "e1g1");
}

#[test]
fn promotions_generate_all_four_pieces() {
    let mut pos = Position::from_fen("8/4P3/8/8/8/8/8/K6k w - - 0 1").unwrap();
    let promos: Vec<String> = generate_legal_moves(&mut pos)
        .iter()
        .filter(|m| m.is_promotion())
        .map(|m| m.to_string())
        .collect();
    assert_eq!(promos.len(), 4);
    assert!(promos.contains(&"e7e8q".to_string()));
    assert!(promos.contains(&"e7e8n".to_string()));
}

#[test]
fn en_passant_that_exposes_the_king_is_illegal() {
    // Capturing exd6 e.p. would clear the fifth rank for the h5 rook.
    let mut pos = Position::from_fen("8/8/8/K2pP2r/8/8/8/7k w - d6 0 1").unwrap();
    assert!(!generate_legal_moves(&mut pos).iter().any(|m| m.is_en_passant()));
}

#[test]
fn capture_generation_is_a_subset_of_all_moves() {
    for fen in [
        STARTPOS_FEN,
        "r3k2r/p1ppqpb1/bn2pnp1/3PN3/1p2P3/2N2Q1p/PPPBBPPP/R3K2R w KQkq - 0 1",
        "8/2p5/3p4/KP5r/1R3p1k/8/4P1P1/8 b - - 0 1",
    ] {
        let pos = Position::from_fen(fen).unwrap();
        let all: Vec<Move> = generate_moves(&pos).to_vec();
        for mv in generate_captures(&pos).to_vec() {
            assert!(all.contains(&mv), "{mv:?} missing from full generation in {fen}");
            assert!(mv.is_capture() || mv.is_promotion());
        }
    }
}
