use lib::bitboard::popcount;
use lib::movegen::generate_moves;
use lib::position::{Position, STARTPOS_FEN};
use lib::types::{parse_square, Color};

#[test]
fn startpos_roundtrips_through_fen() {
    let pos = Position::startpos();
    assert_eq!(pos.to_fen(), STARTPOS_FEN);
    assert_eq!(popcount(pos.occupied()), 32);
    assert_eq!(pos.king_square(Color::White), parse_square("e1").unwrap());
}

#[test]
fn fen_roundtrips_for_tricky_positions() {
    for fen in [
        "r3k2r/p1ppqpb1/bn2pnp1/3PN3/1p2P3/2N2Q1p/PPPBBPPP/R3K2R w KQkq - 0 1",
        "8/2p5/3p4/KP5r/1R3p1k/8/4P1P1/8 w - - 0 1",
        "rnbq1k1r/pp1Pbppp/2p5/8/2B5/8/PPP1NnPP/RNBQK2R w KQ - 1 8",
        "4k3/8/8/3pP3/8/8/8/4K3 w - d6 0 2",
    ] {
        assert_eq!(Position::from_fen(fen).unwrap().to_fen(), fen);
    }
}

#[test]
fn bad_fen_is_rejected() {
    assert!(Position::from_fen("").is_err());
    assert!(Position::from_fen("8/8/8/8/8/8/8/8 w - - 0 1").is_err()); // no kings
    assert!(Position::from_fen("rnbqkbnr/pppppppp/8/8/8/8/PPPPPPPP w KQkq - 0 1").is_err());
    assert!(Position::from_fen("xnbqkbnr/8/8/8/8/8/8/4K3 w - - 0 1").is_err());
}

#[test]
fn make_unmake_restores_state() {
    let fens = [
        STARTPOS_FEN,
        "r3k2r/p1ppqpb1/bn2pnp1/3PN3/1p2P3/2N2Q1p/PPPBBPPP/R3K2R w KQkq - 0 1",
        "r3k2r/Pppp1ppp/1b3nbN/nP6/BBP1P3/q4N2/Pp1P2PP/R2Q1RK1 w kq - 0 1",
    ];
    for fen in fens {
        let mut pos = Position::from_fen(fen).unwrap();
        let before = pos.clone();
        for mv in generate_moves(&pos).to_vec() {
            if !pos.try_make_move(mv) {
                continue;
            }
            pos.unmake_move();
            assert_eq!(pos.to_fen(), before.to_fen(), "after {mv:?}");
            assert_eq!(pos.hash, before.hash, "hash after {mv:?}");
        }
    }
}

#[test]
fn hash_is_incrementally_consistent() {
    let mut pos = Position::startpos();
    for text in ["e2e4", "c7c5", "e1e2", "d8a5", "e2e1", "a5d8"] {
        let mv = pos.parse_uci_move(text).unwrap();
        pos.make_move(mv);
        let rebuilt = Position::from_fen(&pos.to_fen()).unwrap();
        assert_eq!(pos.hash, rebuilt.hash, "after {text}");
    }
}

#[test]
fn castling_moves_the_rook() {
    let mut pos = Position::from_fen("r3k2r/8/8/8/8/8/8/R3K2R w KQkq - 0 1").unwrap();
    let mv = pos.parse_uci_move("e1g1").unwrap();
    assert!(mv.is_castle());
    pos.make_move(mv);
    assert_eq!(pos.to_fen(), "r3k2r/8/8/8/8/8/8/R4RK1 b kq - 1 1");
    pos.unmake_move();
    assert_eq!(pos.to_fen(), "r3k2r/8/8/8/8/8/8/R3K2R w KQkq - 0 1");

    let mv = pos.parse_uci_move("e1c1").unwrap();
    pos.make_move(mv);
    assert_eq!(pos.to_fen(), "r3k2r/8/8/8/8/8/8/2KR3R b kq - 1 1");
}

#[test]
fn en_passant_removes_the_right_pawn() {
    let mut pos = Position::from_fen("4k3/8/8/3pP3/8/8/8/4K3 w - d6 0 2").unwrap();
    let mv = pos.parse_uci_move("e5d6").unwrap();
    assert!(mv.is_en_passant());
    pos.make_move(mv);
    assert_eq!(pos.to_fen(), "4k3/8/3P4/8/8/8/8/4K3 b - - 0 2");
    pos.unmake_move();
    assert_eq!(pos.to_fen(), "4k3/8/8/3pP3/8/8/8/4K3 w - d6 0 2");
}

#[test]
fn repetition_is_detected() {
    let mut pos = Position::startpos();
    for text in ["g1f3", "g8f6", "f3g1", "f6g8"] {
        pos.make_move(pos.parse_uci_move(text).unwrap());
    }
    assert!(pos.is_repetition());
}

#[test]
fn null_move_is_undone() {
    let mut pos = Position::from_fen("4k3/8/8/3pP3/8/8/8/4K3 w - d6 0 2").unwrap();
    let before = pos.clone();
    pos.make_null_move();
    assert_eq!(pos.side_to_move, Color::Black);
    assert_eq!(pos.en_passant, None);
    assert_ne!(pos.hash, before.hash);
    pos.unmake_null_move();
    assert_eq!(pos.to_fen(), before.to_fen());
    assert_eq!(pos.hash, before.hash);
}

#[test]
fn one_minor_piece_a_side_cannot_mate() {
    let pos = Position::from_fen("4k3/8/8/2b5/8/8/8/3NK3 w - - 0 1").unwrap();
    assert!(pos.is_insufficient_material());
    let pos = Position::from_fen("4k3/8/8/8/8/8/8/2NNK3 w - - 0 1").unwrap();
    assert!(!pos.is_insufficient_material());
    let pos = Position::from_fen("4k3/8/8/8/8/8/4P3/4K3 w - - 0 1").unwrap();
    assert!(!pos.is_insufficient_material());
}
