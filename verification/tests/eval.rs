use lib::eval::{evaluate, format_score, MATE, TEMPO};
use lib::position::{Position, STARTPOS_FEN};

#[test]
fn start_position_is_balanced() {
    // Only the tempo bonus separates the sides.
    assert_eq!(evaluate(&Position::startpos()), TEMPO);
}

#[test]
fn evaluation_is_symmetric_under_colour_flip() {
    // Mirrored positions must score identically for the side to move.
    let pairs = [
        (
            "4k3/8/8/8/8/8/4P3/4K3 w - - 0 1",
            "4k3/4p3/8/8/8/8/8/4K3 b - - 0 1",
        ),
        (
            "r1bqkbnr/pppp1ppp/2n5/4p3/2B1P3/5N2/PPPP1PPP/RNBQK2R w KQkq - 0 1",
            "rnbqk2r/pppp1ppp/5n2/2b1p3/4P3/2N5/PPPP1PPP/R1BQKBNR b KQkq - 0 1",
        ),
    ];
    for (white_view, black_view) in pairs {
        let a = evaluate(&Position::from_fen(white_view).unwrap());
        let b = evaluate(&Position::from_fen(black_view).unwrap());
        assert_eq!(a, b, "{white_view} vs {black_view}");
    }
}

#[test]
fn material_advantage_dominates() {
    let up_a_queen = Position::from_fen("4k3/8/8/8/8/8/8/3QK3 w - - 0 1").unwrap();
    assert!(evaluate(&up_a_queen) > 800);
    let down_a_rook = Position::from_fen("3rk3/8/8/8/8/8/8/4K3 w - - 0 1").unwrap();
    assert!(evaluate(&down_a_rook) < -400);
}

#[test]
fn passed_pawns_beat_blocked_ones() {
    let passed = Position::from_fen("4k3/8/8/4P3/8/8/8/4K3 w - - 0 1").unwrap();
    let blocked = Position::from_fen("4k3/3p4/8/4P3/8/8/8/4K3 w - - 0 1").unwrap();
    assert!(evaluate(&passed) > evaluate(&blocked) + 100);
}

#[test]
fn score_formatting_matches_uci() {
    assert_eq!(format_score(35), "cp 35");
    assert_eq!(format_score(-120), "cp -120");
    assert_eq!(format_score(MATE - 5), "mate 3");
    assert_eq!(format_score(-(MATE - 4)), "mate -2");
}

#[test]
fn startpos_evaluation_is_stable_across_a_move_pair() {
    let mut pos = Position::from_fen(STARTPOS_FEN).unwrap();
    let before = evaluate(&pos);
    pos.make_move(pos.parse_uci_move("g1f3").unwrap());
    pos.make_move(pos.parse_uci_move("g8f6").unwrap());
    // Symmetric position again, so the same score should come back.
    assert_eq!(evaluate(&pos), before);
}
