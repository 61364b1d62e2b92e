use lib::play::Game;
use lib::server::{escape, parse_args, parse_request, run_command, Request};
use lib::types::Color;

fn request_from(raw: &str) -> Option<Request> {
    parse_request(raw.as_bytes()).unwrap()
}

#[test]
fn parses_a_get() {
    let request = request_from("GET /app.js HTTP/1.1\r\nHost: x\r\n\r\n").unwrap();
    assert_eq!(request.method, "GET");
    assert_eq!(request.path, "/app.js");
    assert!(request.body.is_empty());
}

#[test]
fn parses_a_post_body() {
    let raw = "POST /api HTTP/1.1\r\nContent-Length: 7\r\n\r\nmove e4";
    let request = request_from(raw).unwrap();
    assert_eq!(request.method, "POST");
    assert_eq!(request.body, "move e4");
}

#[test]
fn handles_broken_input() {
    assert!(request_from("").is_none());
    assert!(request_from("nonsense\r\n\r\n").is_none());
    // A body shorter than Content-Length claims must not hang forever.
    assert!(parse_request("POST /api HTTP/1.1\r\nContent-Length: 99\r\n\r\nshort".as_bytes()).is_err());
}

#[test]
fn state_command_reports_the_start_position() {
    lib::init();
    let mut game = Game::new(Color::White);
    let json = run_command(&mut game, "state");
    assert!(json.contains(r#""turn":"white""#));
    assert!(json.contains(r#""over":false"#));
    assert!(json.contains(r#""engineToMove":false"#));
    assert!(json.contains(r#""e2e4""#), "legal moves should be listed");
    assert!(json.contains(r#""engine":null"#));
}

#[test]
fn move_then_engine_are_separate_steps() {
    lib::init();
    let mut game = Game::new(Color::White);
    game.set_movetime(50);

    let json = run_command(&mut game, "move e4");
    assert!(json.contains(r#""engineToMove":true"#), "engine's turn now");
    assert!(json.contains(r#""engine":null"#), "engine has not moved yet");
    assert!(json.contains(r#""history":["e4"]"#));

    let json = run_command(&mut game, "engine");
    assert!(json.contains(r#""engineToMove":false"#));
    assert!(!json.contains(r#""engine":null"#), "engine move should be reported");
    assert!(json.contains(r#""depth""#));
}

#[test]
fn illegal_moves_come_back_as_a_message() {
    lib::init();
    let mut game = Game::new(Color::White);
    let json = run_command(&mut game, "move e5");
    assert!(json.contains("is not a legal move"), "{json}");
    assert!(json.contains(r#""history":[]"#));
}

#[test]
fn undo_new_and_time_commands_work() {
    lib::init();
    let mut game = Game::new(Color::White);
    game.set_movetime(50);
    run_command(&mut game, "move e4");
    run_command(&mut game, "engine");

    let json = run_command(&mut game, "undo");
    assert!(json.contains(r#""history":[]"#), "{json}");

    let json = run_command(&mut game, "new black 250");
    assert!(json.contains(r#""human":"black""#));
    assert!(json.contains(r#""engineToMove":true"#));
    assert!(json.contains(r#""movetime":250"#));

    let json = run_command(&mut game, "time 1500");
    assert!(json.contains(r#""movetime":1500"#));
}

#[test]
fn resignation_ends_the_game() {
    lib::init();
    let mut game = Game::new(Color::White);
    let json = run_command(&mut game, "resign");
    assert!(json.contains(r#""over":true"#));
    assert!(json.contains("Resignation"));
}

#[test]
fn command_line_numbers_are_positional() {
    let args = |text: &str| -> Vec<String> { text.split_whitespace().map(str::to_string).collect() };
    assert_eq!(parse_args(&[]), (8080, Color::White, 1000));
    assert_eq!(parse_args(&args("9000")), (9000, Color::White, 1000));
    // The second number is a thinking time, not another port.
    assert_eq!(parse_args(&args("8099 white 300")), (8099, Color::White, 300));
    assert_eq!(parse_args(&args("black")), (8080, Color::Black, 1000));
    assert_eq!(parse_args(&args("8090 b 2500")), (8090, Color::Black, 2500));
    // Junk is ignored rather than fatal.
    assert_eq!(parse_args(&args("nonsense")), (8080, Color::White, 1000));
}

#[test]
fn json_strings_are_escaped() {
    assert_eq!(escape(r#"a"b\c"#), r#"a\"b\\c"#);
    assert_eq!(escape("line\nbreak"), "line\\nbreak");
    // The result messages contain an em dash, which is valid raw JSON.
    assert_eq!(escape("Checkmate — you win!"), "Checkmate — you win!");
}

#[test]
fn control_characters_are_escaped_as_code_points() {
    assert_eq!(escape("a\u{1}b\tc\r"), "a\\u0001b\\tc\\r");
    assert_eq!(escape("\u{1f}"), "\\u001f");
}

#[test]
fn unknown_commands_and_hints() {
    lib::init();
    let mut game = Game::new(Color::White);
    game.set_movetime(50);
    let json = run_command(&mut game, "dance now");
    assert!(json.contains(r#""message":"unknown command 'dance'""#), "{json}");
    let json = run_command(&mut game, "hint");
    assert!(json.contains(r#""message":"Try "#), "{json}");
    let json = run_command(&mut game, "undo");
    assert!(json.contains(r#""message":"nothing to undo""#), "{json}");
}

#[test]
fn headers_are_read_case_blind_and_bodies_capped() {
    let raw = "POST /api HTTP/1.1\r\ncontent-LENGTH:  4 \r\n\r\nundo and more";
    let request = request_from(raw).unwrap();
    assert_eq!(request.body, "undo");
    let raw = "POST /api HTTP/1.1\r\nContent-Length: x\r\n\r\nbody";
    assert_eq!(request_from(raw).unwrap().body, "");
    // A head line that is not text is refused.
    assert!(parse_request(b"GET / HTTP/1.1\r\nX: \xff\r\n\r\n").is_err());
}
