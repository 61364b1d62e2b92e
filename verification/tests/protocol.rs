use lib::perft::{perft_checked, perft_divide_checked};
use lib::position::{Position, STARTPOS_FEN};
use lib::tt::{Bound, TranspositionTable};
use lib::uci::{go_limits, parse_option, setup_position, OptionRequest};

fn words(text: &str) -> Vec<Vec<char>> {
    text.split_whitespace().map(|w| w.chars().collect()).collect()
}

#[test]
fn position_command_sets_up_the_board() {
    lib::init();
    let pos = setup_position(&words("startpos moves e2e4 e7e5 g1f3")).unwrap();
    assert_eq!(pos.to_fen(), "rnbqkbnr/pppp1ppp/8/4p3/4P3/5N2/PPPP1PPP/RNBQKB1R b KQkq - 1 2");
    let fen = "8/2p5/3p4/KP5r/1R3p1k/8/4P1P1/8 w - - 0 1";
    let pos = setup_position(&words(&format!("fen {fen}"))).unwrap();
    assert_eq!(pos.to_fen(), fen);
    let pos = setup_position(&words("fen 4k3/8/8/8/8/8/8/4K3 w - - 0 1 moves e1e2")).unwrap();
    assert_eq!(pos.to_fen(), "4k3/8/8/8/8/8/4K3/8 b - - 1 1");
    let pos = setup_position(&words("")).unwrap();
    assert_eq!(pos.to_fen(), STARTPOS_FEN);
}

#[test]
fn bad_position_arguments_say_why() {
    lib::init();
    assert_eq!(
        setup_position(&words("startpos moves e2e4 e2e4")).err(),
        Some("illegal move 'e2e4'".to_string())
    );
    let err = setup_position(&words("fen total nonsense")).err().unwrap();
    assert!(err.starts_with("invalid position: "), "{err}");
    assert_eq!(
        setup_position(&words("somewhere")).err(),
        Some("invalid position: unknown position type 'somewhere'".to_string())
    );
}

#[test]
fn illegal_input_leaves_the_position_alone() {
    lib::init();
    // A refused setup hands back no position, so the caller keeps its own.
    assert!(setup_position(&words("startpos moves e2e4 e2e4")).is_err());
    assert!(setup_position(&words("fen total nonsense")).is_err());
}

#[test]
fn setoption_resizes_the_hash() {
    assert!(matches!(parse_option(&words("name Hash value 8")), Some(OptionRequest::Hash(8))));
    assert!(matches!(parse_option(&words("name Hash value 99999")), Some(OptionRequest::Hash(4096))));
}

#[test]
fn go_arguments_become_limits() {
    let limits = go_limits(&words("wtime 60000 btime 50000 winc 1000 movestogo 20 depth 9"));
    assert_eq!(limits.time, [Some(60000), Some(50000)]);
    assert_eq!(limits.increment, [1000, 0]);
    assert_eq!(limits.moves_to_go, Some(20));
    assert_eq!(limits.depth, 9);
    assert!(!limits.infinite);
    let limits = go_limits(&words("infinite nodes 5000 movetime x"));
    assert!(limits.infinite);
    assert_eq!(limits.nodes, Some(5000));
    assert_eq!(limits.movetime, None);
    assert_eq!(go_limits(&words("")).depth, 127);
}

#[test]
fn options_are_read() {
    assert!(matches!(parse_option(&words("name Hash value 8")), Some(OptionRequest::Hash(8))));
    assert!(matches!(parse_option(&words("name hash value 99999")), Some(OptionRequest::Hash(4096))));
    assert!(matches!(parse_option(&words("name Hash value 0")), Some(OptionRequest::Hash(1))));
    assert!(matches!(parse_option(&words("name Hash value lots")), Some(OptionRequest::Ignored)));
    assert!(matches!(parse_option(&words("name Clear Hash")), Some(OptionRequest::ClearHash)));
    match parse_option(&words("name Ponder value true")) {
        Some(OptionRequest::Unknown(name)) => assert_eq!(name, "Ponder"),
        _ => panic!("Ponder is not an option here"),
    }
    assert!(parse_option(&words("value 8 name Hash")).is_none());
}

#[test]
fn checked_perft_matches_and_divides() {
    lib::init();
    let mut pos = Position::startpos();
    assert_eq!(perft_checked(&mut pos, 3), Some(8902));
    let (divide, total) = perft_divide_checked(&mut pos, 2).unwrap();
    assert_eq!(total, 400);
    assert_eq!(divide.len(), 20);
    assert_eq!(divide.iter().map(|(_, n)| n).sum::<u64>(), 400);
    assert_eq!(divide[0].0.to_string(), "a2a3");
    assert_eq!(pos.to_fen(), STARTPOS_FEN);
}

#[test]
fn display_shows_board_fen_and_key() {
    let pos = Position::startpos();
    let text = pos.display();
    let lines: Vec<&str> = text.lines().collect();
    assert_eq!(lines[0], "  +-----------------+");
    assert_eq!(lines[1], "8 | r n b q k b n r |");
    assert_eq!(lines[8], "1 | R N B Q K B N R |");
    assert_eq!(lines[10], "    a b c d e f g h");
    assert_eq!(lines[11], format!("FEN: {STARTPOS_FEN}"));
    assert_eq!(lines[12], format!("Key: {:016x}", pos.hash));
}

#[test]
fn table_line_follows_stored_moves() {
    lib::init();
    let mut pos = Position::startpos();
    let mut table = TranspositionTable::new(1);
    let e4 = pos.parse_uci_move("e2e4").unwrap();
    table.store(pos.hash, e4, 10, 3, Bound::Exact, 0);
    pos.make_move(e4);
    let e5 = pos.parse_uci_move("e7e5").unwrap();
    table.store(pos.hash, e5, 10, 2, Bound::Exact, 0);
    pos.unmake_move();
    let pv = table.extract_pv(&mut pos, 8);
    assert_eq!(pv, vec![e4, e5]);
    assert_eq!(table.extract_pv(&mut pos, 1), vec![e4]);
    assert_eq!(pos.to_fen(), STARTPOS_FEN);
}

#[test]
fn bench_searches_every_position() {
    assert!(lib::search::bench(1) > 8);
}

#[test]
fn bench_at_depth_zero_searches_nothing() {
    assert_eq!(lib::search::bench(0), 0);
}
