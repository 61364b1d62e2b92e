use lib::eval::MATE;
use lib::tt::{Bound, TranspositionTable};
use lib::types::{move_flags, Move};

#[test]
fn stores_and_probes() {
    let mut tt = TranspositionTable::new(1);
    let mv = Move::new(12, 28, move_flags::DOUBLE_PUSH);
    tt.store(0xdead_beef, mv, 42, 5, Bound::Exact, 0);
    let hit = tt.probe(0xdead_beef, 0).expect("stored entry");
    assert_eq!(hit.mv, mv);
    assert_eq!(hit.score, 42);
    assert_eq!(hit.depth, 5);
    assert_eq!(hit.bound, Bound::Exact);
    assert!(tt.probe(0x1234, 0).is_none());
}

#[test]
fn mate_scores_are_ply_adjusted() {
    let mut tt = TranspositionTable::new(1);
    // Search scores are distances from the root: mate in 7 plies seen at
    // ply 4 is mate in 3 from that position, so reaching the same position
    // at the root must read back as mate in 3.
    tt.store(1, Move::none(), MATE - 7, 6, Bound::Exact, 4);
    assert_eq!(tt.probe(1, 4).unwrap().score, MATE - 7);
    assert_eq!(tt.probe(1, 0).unwrap().score, MATE - 3);
}

#[test]
fn deeper_entries_survive_shallower_ones() {
    let mut tt = TranspositionTable::new(1);
    let deep = Move::new(1, 2, 0);
    tt.store(7, deep, 100, 10, Bound::Lower, 0);
    tt.store(7, Move::new(3, 4, 0), -100, 2, Bound::Lower, 0);
    assert_eq!(tt.probe(7, 0).unwrap().mv, deep);
}

#[test]
fn clearing_empties_the_table() {
    let mut tt = TranspositionTable::new(1);
    tt.store(9, Move::new(1, 2, 0), 0, 1, Bound::Exact, 0);
    tt.clear();
    assert!(tt.probe(9, 0).is_none());
    assert_eq!(tt.hashfull(), 0);
}

fn expected_len(megabytes: usize) -> usize {
    let size = std::mem::size_of::<lib::tt::Entry>();
    let wanted = megabytes.max(1) * 1024 * 1024 / size;
    let mut p = 1usize;
    while p * 2 <= wanted {
        p *= 2;
    }
    if wanted == 0 { 1024 } else { p.max(1024) }
}

#[test]
fn table_size_follows_the_megabytes() {
    for mb in [0usize, 1, 2, 3, 16, 100] {
        let tt = TranspositionTable::new(mb);
        assert_eq!(tt.entries.len(), expected_len(mb), "{mb} MB");
        assert!(tt.entries.len().is_power_of_two());
    }
    assert!(TranspositionTable::new(16).entries.len() > TranspositionTable::new(1).entries.len());
    let mut tt = TranspositionTable::new(1);
    tt.resize(8);
    assert_eq!(tt.entries.len(), expected_len(8));
}
