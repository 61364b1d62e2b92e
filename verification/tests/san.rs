use lib::movegen::generate_legal_moves;
use lib::position::{Position, STARTPOS_FEN};
use lib::san::{line_to_san, parse, to_san};
use lib::types::Move;

fn pos(fen: &str) -> Position {
    lib::init();
    Position::from_fen(fen).unwrap()
}

fn san_of(fen: &str, uci: &str) -> String {
    let mut p = pos(fen);
    let mv = p.parse_uci_move(uci).expect("legal move");
    to_san(&mut p, mv)
}

#[test]
fn renders_basic_moves() {
    assert_eq!(san_of(STARTPOS_FEN, "e2e4"), "e4");
    assert_eq!(san_of(STARTPOS_FEN, "g1f3"), "Nf3");
}

#[test]
fn renders_captures() {
    let fen = "rnbqkbnr/ppp1pppp/8/3p4/4P3/8/PPPP1PPP/RNBQKBNR w KQkq - 0 2";
    assert_eq!(san_of(fen, "e4d5"), "exd5");
    let fen = "rnbqkbnr/ppp1pppp/8/3P4/8/8/PPPP1PPP/RNBQKBNR b KQkq - 0 2";
    assert_eq!(san_of(fen, "d8d5"), "Qxd5");
}

#[test]
fn renders_castling_and_promotion() {
    let fen = "r3k2r/8/8/8/8/8/8/R3K2R w KQkq - 0 1";
    assert_eq!(san_of(fen, "e1g1"), "O-O");
    assert_eq!(san_of(fen, "e1c1"), "O-O-O");
    assert_eq!(san_of("8/4P3/8/8/8/8/8/K6k w - - 0 1", "e7e8q"), "e8=Q");
    assert_eq!(san_of("8/4P3/8/8/8/8/8/K6k w - - 0 1", "e7e8n"), "e8=N");
}

#[test]
fn marks_check_and_mate() {
    assert_eq!(san_of("4k3/8/8/8/8/8/4R3/4K3 w - - 0 1", "e2e7"), "Re7+");
    assert_eq!(san_of("6k1/5ppp/8/8/8/8/8/R5K1 w - - 0 1", "a1a8"), "Ra8#");
}

#[test]
fn disambiguates_only_as_much_as_needed() {
    // Two knights reach d2 from different files.
    assert_eq!(san_of("4k3/8/8/8/8/8/8/1N2KN2 w - - 0 1", "b1d2"), "Nbd2");
    // A lone knight needs no hint at all.
    assert_eq!(san_of("4k3/8/8/8/8/8/8/1N2K3 w - - 0 1", "b1d2"), "Nd2");
    // Two rooks on the same file need the rank.
    assert_eq!(san_of("4k3/8/8/8/R7/8/8/R3K3 w - - 0 1", "a1a3"), "R1a3");
    // Three queens all bear on d4: a1 shares its file with a4 and its rank
    // with d1, so only the full square identifies it.
    let fen = "8/8/7k/8/Q7/8/8/Q2QK3 w - - 0 1";
    assert_eq!(san_of(fen, "a1d4"), "Qa1d4");
    assert_eq!(san_of(fen, "a4d4"), "Q4d4"); // Rank is enough.
    assert_eq!(san_of(fen, "d1d4"), "Qdd4"); // File is enough.
}

#[test]
fn parses_what_it_renders() {
    // Round-trip every legal move in a set of busy positions.
    for fen in [
        STARTPOS_FEN,
        "r3k2r/p1ppqpb1/bn2pnp1/3PN3/1p2P3/2N2Q1p/PPPBBPPP/R3K2R w KQkq - 0 1",
        "r3k2r/Pppp1ppp/1b3nbN/nP6/BBP1P3/q4N2/Pp1P2PP/R2Q1RK1 w kq - 0 1",
        "4k3/8/8/Q7/8/8/8/Q3K2Q w - - 0 1",
    ] {
        let mut p = pos(fen);
        for mv in generate_legal_moves(&mut p) {
            let san = to_san(&mut p, mv);
            assert_eq!(parse(&mut p, &san), Some(mv), "{san} in {fen}");
            assert_eq!(parse(&mut p, &mv.to_string()), Some(mv), "{mv:?} in {fen}");
        }
    }
}

#[test]
fn accepts_sloppy_input() {
    let mut p = pos("r3k2r/8/8/8/8/8/8/R3K2R w KQkq - 0 1");
    let castle = p.parse_uci_move("e1g1").unwrap();
    for text in ["O-O", "0-0", "o-o", "e1g1", "  O-O  "] {
        assert_eq!(parse(&mut p, text), Some(castle), "{text}");
    }

    let mut p = pos(STARTPOS_FEN);
    let knight = p.parse_uci_move("g1f3").unwrap();
    assert_eq!(parse(&mut p, "nf3"), Some(knight));
    assert_eq!(parse(&mut p, "Nf3+"), Some(knight));
}

#[test]
fn rejects_illegal_and_ambiguous_input() {
    let mut p = pos(STARTPOS_FEN);
    assert_eq!(parse(&mut p, "e5"), None); // Not legal yet.
    assert_eq!(parse(&mut p, "hello"), None);
    assert_eq!(parse(&mut p, ""), None);
    // Both bishops reach d3, so bare "Bd3" names neither of them.
    let mut p = pos("4k3/8/8/8/8/8/8/1B2KB2 w - - 0 1");
    assert_eq!(parse(&mut p, "Bd3"), None);
    assert!(parse(&mut p, "Bbd3").is_some());
    assert!(parse(&mut p, "Bfd3").is_some());
}

#[test]
fn renders_a_line_with_move_numbers() {
    let mut p = pos(STARTPOS_FEN);
    let moves: Vec<Move> = ["e2e4", "e7e5", "g1f3"]
        .iter()
        .map(|uci| {
            let mv = p.parse_uci_move(uci).unwrap();
            p.make_move(mv);
            mv
        })
        .collect();
    for _ in 0..moves.len() {
        p.unmake_move();
    }
    assert_eq!(line_to_san(&mut p, &moves), "1. e4 e5 2. Nf3");
    assert_eq!(p.to_fen(), STARTPOS_FEN);
}

#[test]
fn line_from_black_starts_with_ellipsis() {
    let mut p = pos("rnbqkbnr/pppppppp/8/8/4P3/8/PPPP1PPP/RNBQKBNR b KQkq - 0 1");
    let e5 = p.parse_uci_move("e7e5").unwrap();
    p.make_move(e5);
    let nf3 = p.parse_uci_move("g1f3").unwrap();
    p.unmake_move();
    assert_eq!(line_to_san(&mut p, &[e5, nf3]), "1... e5 2. Nf3");
}

#[test]
fn line_stops_at_an_unplayable_move() {
    let mut p = pos(STARTPOS_FEN);
    let e4 = p.parse_uci_move("e2e4").unwrap();
    // The same move again is not legal for Black.
    assert_eq!(line_to_san(&mut p, &[e4, e4]), "1. e4");
    assert_eq!(p.to_fen(), STARTPOS_FEN);
}

#[test]
fn normalises_decoration_and_case() {
    let mut p = pos(STARTPOS_FEN);
    let e4 = p.parse_uci_move("e2e4").unwrap();
    assert_eq!(parse(&mut p, "e4!?"), Some(e4));
    assert_eq!(parse(&mut p, "E2E4"), Some(e4));
    assert_eq!(parse(&mut p, "   "), None);
}
