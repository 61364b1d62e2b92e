use std::sync::atomic::AtomicBool;
use std::sync::Arc;
use std::time::{Duration, Instant};

use lib::eval::MATE;
use lib::movegen::generate_legal_moves;
use lib::position::Position;
use lib::search::{Search, SearchLimits, SearchResult};
use lib::types::Move;

fn search_fen(fen: &str, depth: u32) -> SearchResult {
    lib::init();
    let mut pos = Position::from_fen(fen).unwrap();
    let mut search = Search::new(16, Arc::new(AtomicBool::new(false)));
    search.silent = true;
    search.think(&mut pos, &SearchLimits::fixed_depth(depth))
}

#[test]
fn finds_mate_in_one() {
    let result = search_fen("6k1/5ppp/8/8/8/8/8/R5K1 w - - 0 1", 3);
    assert_eq!(result.best_move.to_string(), "a1a8");
    assert_eq!(result.score, MATE - 1);
}

#[test]
fn finds_a_mate_that_removes_the_defender() {
    // Qxd8# — the rook guarding the back rank is the one being captured.
    let result = search_fen("3r2k1/5ppp/8/8/8/8/5PPP/3QR1K1 w - - 0 1", 6);
    assert_eq!(result.best_move.to_string(), "d1d8");
    assert_eq!(result.score, MATE - 1);
}

#[test]
fn finds_mate_in_two() {
    // 1. Ra8+ Rc8 2. Rxc8#
    let result = search_fen("6k1/2r2ppp/8/8/8/8/5PPP/R5K1 w - - 0 1", 5);
    assert_eq!(result.best_move.to_string(), "a1a8");
    assert_eq!(result.score, MATE - 3);
}

#[test]
fn detects_being_mated() {
    // Black is checkmated; white to move has already won.
    let result = search_fen("R5k1/5ppp/8/8/8/8/8/6K1 b - - 0 1", 2);
    assert_eq!(result.best_move, Move::none());
}

#[test]
fn stalemate_scores_zero() {
    let result = search_fen("7k/5Q2/6K1/8/8/8/8/8 b - - 0 1", 2);
    assert_eq!(result.best_move, Move::none());
}

#[test]
fn wins_hanging_material() {
    // The undefended queen on d5 must be taken.
    let result = search_fen("4k3/8/8/3q4/4P3/8/8/4K3 w - - 0 1", 6);
    assert_eq!(result.best_move.to_string(), "e4d5");
}

#[test]
fn avoids_losing_the_queen() {
    // Qd1xd8 loses the queen to the rook; the engine must not play it.
    let result = search_fen("3rk3/8/8/8/8/8/8/3QK3 w - - 0 1", 6);
    assert_ne!(result.best_move.to_string(), "d1d8");
}

#[test]
fn deeper_search_returns_a_legal_move() {
    let result = search_fen(
        "r3k2r/p1ppqpb1/bn2pnp1/3PN3/1p2P3/2N2Q1p/PPPBBPPP/R3K2R w KQkq - 0 1",
        7,
    );
    let mut pos = Position::from_fen(
        "r3k2r/p1ppqpb1/bn2pnp1/3PN3/1p2P3/2N2Q1p/PPPBBPPP/R3K2R w KQkq - 0 1",
    )
    .unwrap();
    assert!(generate_legal_moves(&mut pos).contains(&result.best_move));
    assert!(result.depth >= 7);
}

#[test]
fn respects_a_movetime_limit() {
    lib::init();
    let mut pos = Position::startpos();
    let mut search = Search::new(16, Arc::new(AtomicBool::new(false)));
    search.silent = true;
    let start = Instant::now();
    search.think(&mut pos, &SearchLimits::fixed_time(300));
    assert!(start.elapsed() < Duration::from_millis(1500));
}

#[test]
fn a_mate_in_one_is_found_by_the_first_iteration() {
    // The first iteration already sees the back-rank mate and stops there.
    let result = search_fen("6k1/5ppp/8/8/8/8/8/R5K1 w - - 0 1", 1);
    assert_eq!(result.depth, 1);
    assert_eq!(result.best_move.to_string(), "a1a8");
    assert_eq!(result.score, MATE - 1);
    // Deeper limits stop at the same iteration.
    let deeper = search_fen("6k1/5ppp/8/8/8/8/8/R5K1 w - - 0 1", 9);
    assert_eq!(deeper.depth, 1);
    assert_eq!(deeper.score, MATE - 1);
}

#[test]
fn a_mate_in_one_for_black_is_found() {
    // Mirror image: black mates on the first rank.
    let result = search_fen("r5k1/8/8/8/8/8/5PPP/6K1 b - - 0 1", 1);
    assert_eq!(result.best_move.to_string(), "a8a1");
    assert_eq!(result.score, MATE - 1);
}

#[test]
fn a_depth_zero_search_counts_no_nodes() {
    let result = search_fen("r3k2r/p1ppqpb1/bn2pnp1/3PN3/1p2P3/2N2Q1p/PPPBBPPP/R3K2R w KQkq - 0 1", 0);
    assert_eq!(result.nodes, 0);
    assert_eq!(result.depth, 0);
}

#[test]
fn a_budget_that_overflows_does_not_fit() {
    let mut limits = SearchLimits::fixed_depth(5);
    assert!(limits.budget_fits(lib::types::Color::White));
    limits.time = [Some(60_000), Some(60_000)];
    limits.increment = [1_000, 1_000];
    assert!(limits.budget_fits(lib::types::Color::White));
    limits.time = [Some(u64::MAX), Some(60_000)];
    limits.increment = [u64::MAX, 0];
    limits.moves_to_go = Some(1);
    assert!(!limits.budget_fits(lib::types::Color::White));
    assert!(limits.budget_fits(lib::types::Color::Black));
    limits.infinite = true;
    assert!(limits.budget_fits(lib::types::Color::White));
}

#[test]
fn a_new_searcher_starts_clean_and_reset_forgets_the_game() {
    lib::init();
    let stop = Arc::new(AtomicBool::new(false));
    let mut search = Search::new(1, stop.clone());
    assert!(Arc::ptr_eq(&search.stop, &stop));
    assert_eq!(search.nodes, 0);
    assert!(!search.stopped);
    assert!(search.killers.iter().all(|&m| m == Move::none()));
    assert!(search.history.iter().all(|&h| h == 0));
    assert!(search.soft_limit.is_none() && search.hard_limit.is_none() && search.node_limit.is_none());
    search.silent = true;
    let mut pos = Position::from_fen("r3k2r/p1ppqpb1/bn2pnp1/3PN3/1p2P3/2N2Q1p/PPPBBPPP/R3K2R w KQkq - 0 1").unwrap();
    search.think(&mut pos, &SearchLimits::fixed_depth(4));
    assert!(search.nodes > 0);
    search.reset();
    assert!(search.killers.iter().all(|&m| m == Move::none()));
    assert!(search.history.iter().all(|&h| h == 0));
}
