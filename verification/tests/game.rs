use lib::play::{Flow, Game, Outcome};
use lib::san;
use lib::types::Color;

fn play(game: &mut Game, text: &str) {
    let mv = san::parse(&mut game.position, text).expect("legal move");
    game.apply(mv);
}

#[test]
fn detects_threefold_repetition_but_not_twofold() {
    // Drives both sides directly: `play_move` deliberately refuses to move
    // for the engine.
    let mut game = Game::new(Color::White);
    for text in ["Nf3", "Nf6", "Ng1", "Ng8"] {
        play(&mut game, text);
    }
    assert_eq!(game.outcome(), None, "twofold is not yet a draw");
    for text in ["Nf3", "Nf6", "Ng1", "Ng8"] {
        play(&mut game, text);
    }
    assert_eq!(game.outcome(), Some(Outcome::ThreefoldRepetition));
}

#[test]
fn board_renders_both_orientations() {
    let game = Game::new(Color::White);
    let white_view = game.render();
    // The rank nearest the reader is white's back rank.
    let lines: Vec<&str> = white_view.lines().filter(|l| l.contains('|')).collect();
    assert!(lines[0].contains('r'), "black pieces on top: {}", lines[0]);
    assert!(lines[7].contains('R'), "white pieces at the bottom: {}", lines[7]);

    let black_view = Game::new(Color::Black).render();
    let lines: Vec<&str> = black_view.lines().filter(|l| l.contains('|')).collect();
    assert!(lines[0].contains('R'), "flipped for black: {}", lines[0]);
}

#[test]
fn play_move_accepts_san_and_uci() {
    let mut game = Game::new(Color::White);
    assert_eq!(game.play_move("e4"), Ok("e4".to_string()));
    assert_eq!(game.fen(), "rnbqkbnr/pppppppp/8/8/4P3/8/PPPP1PPP/RNBQKBNR b KQkq e3 0 1");
    assert_eq!(game.plies, 1);
    assert!(game.is_engines_turn());

    let mut game = Game::new(Color::White);
    assert_eq!(game.play_move("g1f3"), Ok("Nf3".to_string()));
    assert_eq!(game.history_san(), &["Nf3".to_string()]);
}

#[test]
fn play_move_refusals() {
    let mut game = Game::new(Color::White);
    assert_eq!(game.play_move("e5"), Err("'e5' is not a legal move here".to_string()));
    assert_eq!(game.plies, 0);
    let mut game = Game::new(Color::Black);
    assert_eq!(game.play_move("e4"), Err("it is the engine's turn".to_string()));
    let mut game = Game::new(Color::White);
    game.resign();
    assert_eq!(game.play_move("e4"), Err("the game is over".to_string()));
}

#[test]
fn take_back_counts_plies() {
    let mut game = Game::new(Color::White);
    assert_eq!(game.take_back(), 0);
    game.play_move("e4").unwrap();
    // The engine is to move: only the human's move is undone.
    assert_eq!(game.take_back(), 1);
    assert_eq!(game.fen(), lib::position::STARTPOS_FEN);
    play(&mut game, "e4");
    play(&mut game, "e5");
    assert_eq!(game.take_back(), 2);
    assert_eq!(game.plies, 0);
    assert_eq!(game.last_move(), None);
}

#[test]
fn outcomes_are_described() {
    assert_eq!(Outcome::Checkmate { winner: Color::White }.describe(Color::White), "Checkmate — you win!");
    assert_eq!(Outcome::Resignation { winner: Color::Black }.describe(Color::White), "Resignation — the engine wins.");
    assert_eq!(Outcome::Stalemate.describe(Color::White), "Stalemate — draw.");
    assert_eq!(Outcome::FiftyMoveRule.describe(Color::Black), "Draw by the fifty-move rule.");
    assert_eq!(Outcome::ThreefoldRepetition.describe(Color::Black), "Draw by threefold repetition.");
    assert_eq!(Outcome::InsufficientMaterial.describe(Color::Black), "Draw — insufficient material.");
}

#[test]
fn set_position_reads_fen_and_ends_games() {
    let mut game = Game::new(Color::White);
    game.set_position("rnb1kbnr/pppp1ppp/8/4p3/6Pq/5P2/PPPPP2P/RNBQKBNR w KQkq - 1 3").unwrap();
    assert_eq!(game.outcome(), Some(Outcome::Checkmate { winner: Color::Black }));
    game.set_position("7k/5Q2/6K1/8/8/8/8/8 b - - 0 1").unwrap();
    assert_eq!(game.outcome(), Some(Outcome::Stalemate));
    game.set_position("4k3/8/8/8/8/8/8/4K3 w - - 0 1").unwrap();
    assert_eq!(game.outcome(), Some(Outcome::InsufficientMaterial));
    game.set_position("4k3/8/8/8/8/8/4P3/4K3 w - - 99 60").unwrap();
    assert_eq!(game.play_move("Kd1"), Ok("Kd1".to_string()));
    assert_eq!(game.outcome(), Some(Outcome::FiftyMoveRule));
    assert!(game.set_position("not a fen").is_err());
    // The side not to move is in check: no game can go on from here.
    assert_eq!(
        game.set_position("4k3/8/8/8/8/8/8/4KR2 w - - 0 1").map(|_| ()),
        Ok(())
    );
    assert_eq!(
        game.set_position("4k3/4R3/8/8/8/8/8/4K3 w - - 0 1"),
        Err("FEN: position cannot be played".to_string())
    );
}

#[test]
fn material_and_scores_for_humans() {
    let mut game = Game::new(Color::White);
    assert_eq!(game.material_balance(), 0);
    game.set_position("4k3/8/8/8/8/8/8/Q3K3 w - - 0 1").unwrap();
    assert_eq!(game.material_balance(), 9);
    assert!(game.render().contains("(white +9)"));
    game.set_position("4k3/8/8/8/8/8/8/r3K3 w - - 0 1").unwrap();
    assert_eq!(game.material_balance(), -5);
    assert!(game.render().contains("(black +5)"));
}

#[test]
fn engine_reply_plays_a_legal_move() {
    let mut game = Game::new(Color::White);
    game.set_movetime(50);
    game.play_move("e4").unwrap();
    let reply = game.engine_reply().expect("the engine has moves");
    assert_eq!(game.plies, 2);
    assert!(!game.is_engines_turn());
    assert_eq!(game.history_san()[1], reply.san);
    assert_eq!(reply.score_cp.abs() < 1000, true);
}

#[test]
fn engine_finds_mate_and_the_game_ends() {
    let mut game = Game::new(Color::Black);
    game.set_position("6k1/5ppp/8/8/8/8/8/R5K1 w - - 0 1").unwrap();
    let reply = game.engine_reply().unwrap();
    assert_eq!(reply.san, "Ra8#");
    assert_eq!(reply.score, "mate in 1 for white");
    assert_eq!(game.outcome(), Some(Outcome::Checkmate { winner: Color::White }));
    assert!(game.engine_reply().is_none());
}

#[test]
fn suggestion_leaves_the_game_alone() {
    let mut game = Game::new(Color::White);
    game.set_movetime(50);
    let before = game.fen();
    let hint = game.suggestion().expect("a move to suggest");
    assert_eq!(game.fen(), before);
    assert_eq!(game.plies, 0);
    assert_eq!(hint.uci.len(), 4);
}

#[test]
fn movetime_is_clamped() {
    let mut game = Game::new(Color::White);
    game.set_movetime(1);
    assert_eq!(game.movetime(), 10);
    game.set_movetime(1_000_000);
    assert_eq!(game.movetime(), 60_000);
}

#[test]
fn start_reads_colour_and_time() {
    let args = |text: &str| -> Vec<String> { text.split_whitespace().map(str::to_string).collect() };
    let game = lib::play::start(&args("black 3000"));
    assert_eq!(game.human(), Color::Black);
    assert_eq!(game.movetime(), 3000);
    let game = lib::play::start(&args("5 WHITE"));
    assert_eq!(game.human(), Color::White);
    assert_eq!(game.movetime(), 10);
    assert_eq!(lib::play::parse_color("B"), Some(Color::Black));
    assert_eq!(lib::play::parse_color("blue"), None);
}

#[test]
fn legal_moves_listed_in_uci() {
    let game = Game::new(Color::White);
    let legal = game.legal_uci();
    assert_eq!(legal.len(), 20);
    assert!(legal.contains(&"e2e4".to_string()));
    assert!(legal.contains(&"g1f3".to_string()));
}

fn game_at(fen: &str, human: Color) -> Game {
    let mut game = Game::new(human);
    game.execute(&format!("fen {fen}"));
    game
}

#[test]
fn accepts_moves_in_san_and_uci() {
    let mut game = Game::new(Color::White);
    game.execute("e4");
    assert_eq!(
        game.position.to_fen(),
        "rnbqkbnr/pppppppp/8/8/4P3/8/PPPP1PPP/RNBQKBNR b KQkq e3 0 1"
    );
    assert_eq!(game.plies, 1);
    assert!(game.is_engines_turn());

    let mut game = Game::new(Color::White);
    game.execute("g1f3");
    assert_eq!(game.plies, 1);
}

#[test]
fn rejects_illegal_moves_without_changing_the_board() {
    let mut game = Game::new(Color::White);
    for text in ["e5", "Nf6", "xyzzy", "e2e5"] {
        game.execute(text);
    }
    assert_eq!(game.position.to_fen(), lib::position::STARTPOS_FEN);
    assert_eq!(game.plies, 0);
}

#[test]
fn will_not_move_out_of_turn() {
    let mut game = Game::new(Color::Black);
    game.execute("e4"); // White is the engine's; the human plays black.
    assert_eq!(game.position.to_fen(), lib::position::STARTPOS_FEN);
    assert!(game.is_engines_turn());
}

#[test]
fn engine_replies_with_a_legal_move() {
    let mut game = Game::new(Color::White);
    game.execute("e4");
    game.engine_reply();
    assert_eq!(game.plies, 2);
    assert!(!game.is_engines_turn());
    // The position must still be reachable and consistent.
    let rebuilt = lib::position::Position::from_fen(&game.position.to_fen()).unwrap();
    assert_eq!(rebuilt.hash, game.position.hash);
}

#[test]
fn undo_takes_back_a_full_move() {
    let mut game = Game::new(Color::White);
    game.execute("e4");
    game.engine_reply();
    game.execute("undo");
    assert_eq!(game.plies, 0);
    assert_eq!(game.position.to_fen(), lib::position::STARTPOS_FEN);
    assert!(!game.is_engines_turn());
    game.execute("undo"); // Nothing left; must not panic.
    assert_eq!(game.plies, 0);
}

#[test]
fn detects_how_the_game_ended() {
    // Fool's mate, with black to move and mated.
    let game = game_at(
        "rnb1kbnr/pppp1ppp/8/4p3/6Pq/5P2/PPPPP2P/RNBQKBNR w KQkq - 1 3",
        Color::White,
    );
    assert_eq!(game.outcome(), Some(Outcome::Checkmate { winner: Color::Black }));

    let game = game_at("7k/5Q2/6K1/8/8/8/8/8 b - - 0 1", Color::White);
    assert_eq!(game.outcome(), Some(Outcome::Stalemate));

    let game = game_at("4k3/8/8/8/8/8/8/4K3 w - - 0 1", Color::White);
    assert_eq!(game.outcome(), Some(Outcome::InsufficientMaterial));

    let mut game = game_at("4k3/8/8/8/8/8/4P3/4K3 w - - 99 60", Color::White);
    game.execute("Kd1"); // A quiet move takes the clock to 100.
    assert_eq!(game.outcome(), Some(Outcome::FiftyMoveRule));

    let mut game = Game::new(Color::White);
    assert_eq!(game.outcome(), None);
    game.execute("resign");
    assert_eq!(game.outcome(), Some(Outcome::Resignation { winner: Color::Black }));
}

#[test]
fn commands_do_not_disturb_the_position() {
    let mut game = Game::new(Color::White);
    game.execute("e4");
    let fen = game.position.to_fen();
    for command in ["board", "moves", "eval", "fen", "flip", "help", "time 50", "depth 4"] {
        game.execute(command);
    }
    assert_eq!(game.position.to_fen(), fen);
    assert_eq!(game.depth, Some(4));
    assert_eq!(game.movetime, 50);
}

#[test]
fn play_quit_stops_the_loop() {
    let mut game = Game::new(Color::White);
    assert_eq!(game.execute("board"), Flow::Continue);
    assert_eq!(game.execute("quit"), Flow::Quit);
}

#[test]
fn new_game_can_switch_colours() {
    let mut game = Game::new(Color::White);
    game.execute("e4");
    game.execute("new black");
    assert_eq!(game.human, Color::Black);
    assert_eq!(game.plies, 0);
    assert!(game.is_engines_turn());
    assert!(game.flipped);
}

#[test]
fn engine_finds_mate_when_offered_one() {
    let mut game = game_at("6k1/5ppp/8/8/8/8/8/R5K1 w - - 0 1", Color::Black);
    game.engine_reply();
    assert_eq!(game.outcome(), Some(Outcome::Checkmate { winner: Color::White }));
}

#[test]
fn terminal_output_is_collected() {
    let mut game = Game::new(Color::White);
    game.execute("moves");
    assert_eq!(game.output[0], "20 legal moves:");
    assert_eq!(game.output.len(), 4);
    assert!(game.output[1].starts_with("  Na3  Nc3  Nf3  Nh3  a3  a4  b3  b4"));
    game.output.clear();
    game.execute("xyzzy");
    assert_eq!(game.output, vec!["'xyzzy' is not a legal move here — try 'moves' for the list".to_string()]);
    game.output.clear();
    game.execute("e4");
    assert_eq!(game.output, vec!["You play e4".to_string()]);
    game.output.clear();
    game.execute("time 5");
    assert_eq!(game.output, vec!["engine will think for 10 ms per move".to_string()]);
    game.output.clear();
    game.execute("depth 500");
    assert_eq!(game.output, vec!["engine will search to depth 100".to_string()]);
    game.output.clear();
    game.execute("depth x");
    assert_eq!(game.output, vec!["usage: depth <plies>".to_string()]);
    game.output.clear();
    game.execute("fen 8/8/8 w");
    assert!(game.output[0].starts_with("bad FEN: "));
    game.output.clear();
    game.execute("eval");
    assert!(game.output[0].starts_with("static evaluation: "));
}

#[test]
fn a_mate_in_one_is_reported_at_depth_one() {
    let mut game = Game::new(Color::Black);
    game.depth = Some(4);
    game.set_position("6k1/5ppp/8/8/8/8/8/R5K1 w - - 0 1").unwrap();
    let hint = game.suggestion().unwrap();
    assert_eq!(hint.depth, 1);
    assert_eq!(hint.score_cp, lib::eval::MATE - 1);
    assert_eq!(hint.uci, "a1a8");
    let reply = game.engine_reply().unwrap();
    assert_eq!(reply.depth, 1);
    assert_eq!(reply.score_cp, lib::eval::MATE - 1);
    assert_eq!(reply.san, "Ra8#");
}

#[test]
fn a_mate_in_one_for_black_is_reported_from_whites_side() {
    let mut game = Game::new(Color::White);
    game.depth = Some(2);
    game.set_position("r5k1/8/8/8/8/8/5PPP/6K1 b - - 0 1").unwrap();
    let reply = game.engine_reply().unwrap();
    assert_eq!(reply.depth, 1);
    assert_eq!(reply.score_cp, -(lib::eval::MATE - 1));
    assert_eq!(reply.uci, "a8a1");
}
