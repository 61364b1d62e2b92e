//! Perft: counts the leaf nodes of the move tree. The standard correctness
//! test for move generation and make/unmake.
use vstd::prelude::*;
use crate::movegen::{generate_moves, pseudo_legal, legal_move, sane, lemma_pseudo_applicable, lemma_sane_after};
use crate::position::{Position, PosState, legal_after, make_state};
use crate::types::{Move, move_text};
use crate::text::chars_of;

verus! {

/// A position perft can explore `depth` plies deep: sane, with room on both
/// clocks for every ply.
pub open spec fn perft_ready(s: PosState, depth: int) -> bool {
    &&& sane(s)
    &&& s.halfmove + depth < 0xffff
    &&& s.fullmove + depth < 0xffff
}

proof fn lemma_perft_child(s: PosState, mv: Move, depth: int)
    requires
        perft_ready(s, depth),
        depth >= 1,
        pseudo_legal(s, mv),
        legal_after(s, mv),
    ensures
        crate::position::move_is_applicable(s, mv),
        perft_ready(make_state(s, mv), depth - 1),
        crate::position::can_unmake_state(make_state(s, mv)),
        crate::position::unmake_state(make_state(s, mv)) == s,
{
    lemma_pseudo_applicable(s, mv);
    lemma_sane_after(s, mv);
    crate::position::lemma_unmake_after_make(s, mv);
}

/// The number of legal move sequences of length `depth` from `s`: 1 at depth
/// 0, otherwise the sum over every legal move of the count below it.
pub open spec fn perft_count(s: PosState, depth: nat) -> nat
    decreases depth, 65537int,
{
    if depth == 0 {
        1
    } else {
        count_from(s, depth, 0)
    }
}

/// The part of `perft_count(s, depth)` owed to the moves with encodings from
/// `m` on.
pub open spec fn count_from(s: PosState, depth: nat, m: int) -> nat
    decreases depth, 65536 - m,
{
    if m >= 65536 || m < 0 || depth == 0 {
        0
    } else {
        let mv = Move(m as u16);
        (if legal_move(s, mv) {
            perft_count(make_state(s, mv), (depth - 1) as nat)
        } else {
            0
        }) + count_from(s, depth, m + 1)
    }
}

/// What each move contributes to `perft_count(s, depth)`.
pub open spec fn child_count(s: PosState, depth: nat) -> spec_fn(Move) -> nat {
    |mv: Move| if legal_move(s, mv) {
        perft_count(make_state(s, mv), (depth - 1) as nat)
    } else {
        0
    }
}

/// The sum of `g` over every move encoding from `m` on.
pub open spec fn range_sum(g: spec_fn(Move) -> nat, m: int) -> nat
    decreases 65536 - m,
{
    if m >= 65536 || m < 0 {
        0
    } else {
        g(Move(m as u16)) + range_sum(g, m + 1)
    }
}

/// The sum of `g` over the moves of `l`.
pub open spec fn seq_sum(l: Seq<Move>, g: spec_fn(Move) -> nat) -> nat
    decreases l.len(),
{
    if l.len() == 0 {
        0
    } else {
        seq_sum(l.drop_last(), g) + g(l.last())
    }
}

proof fn lemma_count_from_range(s: PosState, depth: nat, m: int)
    requires
        depth >= 1,
        0 <= m,
    ensures
        count_from(s, depth, m) == range_sum(child_count(s, depth), m),
    decreases 65536 - m,
{
    if m < 65536 {
        lemma_count_from_range(s, depth, m + 1);
    }
}

proof fn lemma_range_zero(g: spec_fn(Move) -> nat, m: int)
    requires
        forall|mv: Move| #[trigger] g(mv) == 0,
    ensures
        range_sum(g, m) == 0,
    decreases 65536 - m,
{
    if 0 <= m < 65536 {
        lemma_range_zero(g, m + 1);
    }
}

/// `g` with the value at `e` taken out.
pub open spec fn without(g: spec_fn(Move) -> nat, e: Move) -> spec_fn(Move) -> nat {
    |mv: Move| if mv == e {
        0
    } else {
        g(mv)
    }
}

proof fn lemma_range_point(g: spec_fn(Move) -> nat, e: Move, m: int)
    requires
        0 <= m,
    ensures
        range_sum(g, m) == range_sum(without(g, e), m) + (if m <= e.0 {
            g(e)
        } else {
            0
        }),
    decreases 65536 - m,
{
    if m < 65536 {
        lemma_range_point(g, e, m + 1);
        if Move(m as u16) == e {
            assert(e.0 == m);
        } else {
            assert(e.0 != m) by {
                if e.0 == m {
                    assert(Move(m as u16) == e);
                }
            }
        }
    }
}

proof fn lemma_seq_sum_agree(l: Seq<Move>, g1: spec_fn(Move) -> nat, g2: spec_fn(Move) -> nat)
    requires
        forall|i: int| 0 <= i < l.len() ==> g1(#[trigger] l[i]) == g2(l[i]),
    ensures
        seq_sum(l, g1) == seq_sum(l, g2),
    decreases l.len(),
{
    if l.len() > 0 {
        lemma_seq_sum_agree(l.drop_last(), g1, g2);
        assert(g1(l[l.len() - 1]) == g2(l[l.len() - 1]));
    }
}

/// Summing over a list without repeats that holds every move `g` counts is
/// summing over all move encodings.
proof fn lemma_seq_sum_range(l: Seq<Move>, g: spec_fn(Move) -> nat)
    requires
        l.no_duplicates(),
        forall|mv: Move| #[trigger] g(mv) > 0 ==> l.contains(mv),
    ensures
        seq_sum(l, g) == range_sum(g, 0),
    decreases l.len(),
{
    if l.len() == 0 {
        assert forall|mv: Move| #[trigger] g(mv) == 0 by {
            if g(mv) > 0 {
                assert(l.contains(mv));
            }
        }
        lemma_range_zero(g, 0);
    } else {
        let e = l.last();
        let rest = l.drop_last();
        let g2 = without(g, e);
        assert(rest.no_duplicates());
        assert forall|i: int| 0 <= i < rest.len() implies #[trigger] rest[i] != e by {
            assert(l[i] == rest[i]);
            assert(l[l.len() - 1] == e);
        }
        assert forall|mv: Move| #[trigger] g2(mv) > 0 implies rest.contains(mv) by {
            assert(mv != e);
            assert(l.contains(mv));
            let i = choose|i: int| 0 <= i < l.len() && l[i] == mv;
            assert(i != l.len() - 1);
            assert(rest[i] == mv);
        }
        lemma_seq_sum_range(rest, g2);
        assert forall|i: int| 0 <= i < rest.len() implies g(#[trigger] rest[i]) == g2(rest[i]) by {}
        lemma_seq_sum_agree(rest, g, g2);
        lemma_range_point(g, e, 0);
    }
}

proof fn lemma_prefix_le(l: Seq<Move>, g: spec_fn(Move) -> nat, i: int)
    requires
        0 <= i <= l.len(),
    ensures
        seq_sum(l.take(i), g) <= seq_sum(l, g),
    decreases l.len() - i,
{
    if i < l.len() {
        lemma_prefix_le(l, g, i + 1);
        assert(l.take(i + 1).drop_last() == l.take(i));
    } else {
        assert(l.take(i) == l);
    }
}

/// Counts the legal move sequences of length `depth` from `pos`: exactly
/// `perft_count`, with the position given back unchanged.
pub fn perft(pos: &mut Position, depth: u32) -> (nodes: u64)
    requires
        old(pos).wf(),
        perft_ready(old(pos).state(), depth as int),
        perft_count(old(pos).state(), depth as nat) <= u64::MAX,
    ensures
        final(pos).wf(),
        final(pos).state() == old(pos).state(),
        final(pos).keys == old(pos).keys,
        nodes == perft_count(old(pos).state(), depth as nat),
    decreases depth,
{
    if depth == 0 {
        return 1;
    }
    let ghost s0 = pos.state();
    let ghost g = child_count(s0, depth as nat);
    let moves = generate_moves(pos);
    proof {
        assert forall|mv: Move| #[trigger] g(mv) > 0 implies moves@.contains(mv) by {}
        lemma_seq_sum_range(moves@, g);
        lemma_count_from_range(s0, depth as nat, 0);
    }
    let mut nodes: u64 = 0;
    let mut i: usize = 0;
    while i < moves.len()
        invariant
            pos.wf(),
            pos.state() == s0,
            s0 == old(pos).state(),
            pos.keys == old(pos).keys,
            perft_ready(s0, depth as int),
            depth >= 1,
            g == child_count(s0, depth as nat),
            i <= moves@.len(),
            forall|k: int| 0 <= k < moves@.len() ==> #[trigger] pseudo_legal(s0, moves@[k]),
            seq_sum(moves@, g) == perft_count(s0, depth as nat),
            perft_count(s0, depth as nat) <= u64::MAX,
            nodes == seq_sum(moves@.take(i as int), g),
        decreases moves@.len() - i,
    {
        let mv = moves.get(i);
        proof {
            lemma_pseudo_applicable(s0, mv);
            lemma_prefix_le(moves@, g, i + 1);
            assert(moves@.take(i + 1).drop_last() == moves@.take(i as int));
            assert(moves@.take(i + 1).last() == mv);
        }
        if pos.try_make_move(mv) {
            proof {
                lemma_perft_child(s0, mv, depth as int);
                assert(g(mv) == perft_count(make_state(s0, mv), (depth - 1) as nat));
            }
            // At depth 1 the legality check above already counted the move.
            let below = if depth == 1 {
                1
            } else {
                perft(pos, depth - 1)
            };
            nodes = nodes + below;
            pos.unmake_move();
        }
        i = i + 1;
    }
    proof {
        assert(moves@.take(i as int) == moves@);
    }
    nodes
}

/// Whether `a` comes before `b` or equals it in character order.
pub open spec fn text_le(a: Seq<char>, b: Seq<char>) -> bool
    decreases a.len(),
{
    if a.len() == 0 {
        true
    } else if b.len() == 0 {
        false
    } else if a[0] != b[0] {
        a[0] < b[0]
    } else {
        text_le(a.drop_first(), b.drop_first())
    }
}

pub fn chars_le(a: &Vec<char>, b: &Vec<char>) -> (r: bool)
    ensures
        r == text_le(a@, b@),
{
    let mut i: usize = 0;
    assert(a@.skip(0) =~= a@);
    assert(b@.skip(0) =~= b@);
    while i < a.len() && i < b.len()
        invariant
            i <= a@.len(),
            i <= b@.len(),
            text_le(a@, b@) == text_le(a@.skip(i as int), b@.skip(i as int)),
        decreases a@.len() - i,
    {
        if a[i] != b[i] {
            proof {
                assert(a@.skip(i as int)[0] == a@[i as int]);
                assert(b@.skip(i as int)[0] == b@[i as int]);
            }
            return a[i] < b[i];
        }
        proof {
            assert(a@.skip(i as int).drop_first() == a@.skip(i + 1));
            assert(b@.skip(i as int).drop_first() == b@.skip(i + 1));
        }
        i = i + 1;
    }
    if i >= a.len() {
        assert(a@.skip(i as int).len() == 0);
        true
    } else {
        assert(b@.skip(i as int).len() == 0);
        false
    }
}

fn move_le(a: Move, b: Move) -> (r: bool)
    ensures
        r == text_le(move_text(a), move_text(b)),
{
    let ta = a.to_string();
    let tb = b.to_string();
    let ca = chars_of(ta.as_str());
    let cb = chars_of(tb.as_str());
    chars_le(&ca, &cb)
}

/// A legal move of `s`, kept opaque so that lists of them stay cheap to reason about.
#[verifier::opaque]
pub open spec fn legal_entry(s: PosState, mv: Move) -> bool {
    pseudo_legal(s, mv) && legal_after(s, mv)
}

/// An entry of the divide table: a legal root move with the exact count
/// below it.
pub open spec fn divide_entry(s: PosState, depth: nat, e: (Move, u64)) -> bool {
    &&& legal_entry(s, e.0)
    &&& e.1 == perft_count(make_state(s, e.0), (depth - 1) as nat)
}

/// Whether some entry of `v` is for `mv`.
pub open spec fn lists_move(v: Seq<(Move, u64)>, mv: Move) -> bool {
    exists|k: int| 0 <= k < v.len() && v[k].0 == mv
}

/// The counts of a divide table added up.
pub open spec fn entry_total(v: Seq<(Move, u64)>) -> int
    decreases v.len(),
{
    if v.len() == 0 {
        0
    } else {
        entry_total(v.drop_last()) + v.last().1
    }
}

/// No move has two entries.
pub open spec fn distinct_moves(v: Seq<(Move, u64)>) -> bool {
    forall|a: int, b: int| 0 <= a < b < v.len() ==> #[trigger] v[a].0 != #[trigger] v[b].0
}

/// The moves of a divide table.
pub open spec fn entry_moves(v: Seq<(Move, u64)>) -> Seq<Move> {
    v.map_values(|e: (Move, u64)| e.0)
}

proof fn lemma_entry_total(s0: PosState, depth: nat, v: Seq<(Move, u64)>)
    requires
        depth >= 1,
        forall|k: int| 0 <= k < v.len() ==> #[trigger] divide_entry(s0, depth, v[k]),
    ensures
        entry_total(v) == seq_sum(entry_moves(v), child_count(s0, depth)),
    decreases v.len(),
{
    if v.len() > 0 {
        let d = v.drop_last();
        assert forall|k: int| 0 <= k < d.len() implies #[trigger] divide_entry(s0, depth, d[k]) by {
            assert(d[k] == v[k]);
        }
        lemma_entry_total(s0, depth, d);
        assert(entry_moves(v).drop_last() =~= entry_moves(d));
        assert(divide_entry(s0, depth, v[v.len() - 1]));
        reveal(legal_entry);
    }
}

/// A sorted table keeps one entry per move, and its counts add up to the
/// total.
proof fn lemma_divide_total(s0: PosState, depth: nat, unsorted: Seq<(Move, u64)>, sorted: Seq<(Move, u64)>)
    requires
        depth >= 1,
        sorted.to_multiset() == unsorted.to_multiset(),
        distinct_moves(unsorted),
        forall|k: int| 0 <= k < sorted.len() ==> #[trigger] divide_entry(s0, depth, sorted[k]),
        forall|mv: Move| legal_move(s0, mv) ==> #[trigger] lists_move(sorted, mv),
    ensures
        distinct_moves(sorted),
        entry_total(sorted) == perft_count(s0, depth),
{
    assert(unsorted.no_duplicates()) by {
        assert forall|a: int, b: int| 0 <= a < unsorted.len() && 0 <= b < unsorted.len() && a != b implies unsorted[a] != unsorted[b] by {
            if a < b {
                assert(unsorted[a].0 != unsorted[b].0);
            } else {
                assert(unsorted[b].0 != unsorted[a].0);
            }
        }
    }
    unsorted.lemma_multiset_has_no_duplicates();
    sorted.lemma_multiset_has_no_duplicates_conv();
    assert(distinct_moves(sorted)) by {
        assert forall|a: int, b: int| 0 <= a < b < sorted.len() implies #[trigger] sorted[a].0 != #[trigger] sorted[b].0 by {
            if sorted[a].0 == sorted[b].0 {
                assert(divide_entry(s0, depth, sorted[a]));
                assert(divide_entry(s0, depth, sorted[b]));
                assert(sorted[a] == sorted[b]);
            }
        }
    }
    let g = child_count(s0, depth);
    let ms = entry_moves(sorted);
    lemma_entry_total(s0, depth, sorted);
    assert(ms.no_duplicates()) by {
        assert forall|a: int, b: int| 0 <= a < ms.len() && 0 <= b < ms.len() && a != b implies ms[a] != ms[b] by {
            if a < b {
                assert(sorted[a].0 != sorted[b].0);
            } else {
                assert(sorted[b].0 != sorted[a].0);
            }
        }
    }
    assert forall|mv: Move| #[trigger] g(mv) > 0 implies ms.contains(mv) by {
        assert(lists_move(sorted, mv));
        let k = choose|k: int| 0 <= k < sorted.len() && sorted[k].0 == mv;
        assert(ms[k] == mv);
    }
    lemma_seq_sum_range(ms, g);
    lemma_count_from_range(s0, depth, 0);
}

/// Per-root-move breakdown, matching the `divide` output of other engines:
/// each legal move once with the perft count below it, ordered by its UCI
/// text, and the total, which is the perft count of the position.
#[verifier::rlimit(60)]
pub fn perft_divide(pos: &mut Position, depth: u32) -> (r: (Vec<(Move, u64)>, u64))
    requires
        old(pos).wf(),
        perft_ready(old(pos).state(), depth as int),
        depth >= 1,
        perft_count(old(pos).state(), depth as nat) <= u64::MAX,
    ensures
        final(pos).wf(),
        final(pos).state() == old(pos).state(),
        final(pos).keys == old(pos).keys,
        r.1 == perft_count(old(pos).state(), depth as nat),
        forall|k: int| 0 <= k < r.0@.len() ==> #[trigger] divide_entry(old(pos).state(), depth as nat, r.0@[k]),
        forall|mv: Move| legal_move(old(pos).state(), mv) ==> #[trigger] lists_move(r.0@, mv),
        sorted_by_text(r.0@),
        distinct_moves(r.0@),
        entry_total(r.0@) == r.1,
{
    let ghost s0 = pos.state();
    let ghost g = child_count(s0, depth as nat);
    let moves = generate_moves(pos);
    proof {
        assert forall|mv: Move| #[trigger] g(mv) > 0 implies moves@.contains(mv) by {}
        lemma_seq_sum_range(moves@, g);
        lemma_count_from_range(s0, depth as nat, 0);
    }
    let mut results: Vec<(Move, u64)> = Vec::new();
    let mut total: u64 = 0;
    let mut i: usize = 0;
    while i < moves.len()
        invariant
            pos.wf(),
            pos.state() == s0,
            s0 == old(pos).state(),
            pos.keys == old(pos).keys,
            perft_ready(s0, depth as int),
            depth >= 1,
            g == child_count(s0, depth as nat),
            i <= moves@.len(),
            forall|k: int| 0 <= k < moves@.len() ==> #[trigger] pseudo_legal(s0, moves@[k]),
            seq_sum(moves@, g) == perft_count(s0, depth as nat),
            perft_count(s0, depth as nat) <= u64::MAX,
            total == seq_sum(moves@.take(i as int), g),
            forall|k: int| 0 <= k < results@.len() ==> #[trigger] divide_entry(s0, depth as nat, results@[k]),
            forall|k: int| 0 <= k < i && legal_after(s0, #[trigger] moves@[k]) ==> exists|j: int| 0 <= j < results@.len() && results@[j].0 == moves@[k],
            moves@.no_duplicates(),
            distinct_moves(results@),
            forall|j: int| 0 <= j < results@.len() ==> exists|k: int| 0 <= k < i && moves@[k] == #[trigger] results@[j].0,
        decreases moves@.len() - i,
    {
        let mv = moves.get(i);
        proof {
            lemma_pseudo_applicable(s0, mv);
            lemma_prefix_le(moves@, g, i + 1);
            assert(moves@.take(i + 1).drop_last() == moves@.take(i as int));
            assert(moves@.take(i + 1).last() == mv);
        }
        let ghost prev = results@;
        if pos.try_make_move(mv) {
            proof {
                lemma_perft_child(s0, mv, depth as int);
                assert(g(mv) == perft_count(make_state(s0, mv), (depth - 1) as nat));
            }
            let nodes = perft(pos, depth - 1);
            pos.unmake_move();
            assert(pseudo_legal(s0, moves@[i as int]));
            assert(legal_entry(s0, mv)) by {
                reveal(legal_entry);
            }
            results.push((mv, nodes));
            proof {
                assert forall|j: int| 0 <= j < results@.len() implies exists|k: int| 0 <= k < i + 1 && moves@[k] == #[trigger] results@[j].0 by {
                    if j < prev.len() {
                        assert(results@[j] == prev[j]);
                        let k = choose|k: int| 0 <= k < i && moves@[k] == prev[j].0;
                    } else {
                        assert(moves@[i as int] == results@[j].0);
                    }
                }
                assert forall|a: int, b: int| 0 <= a < b < results@.len() implies #[trigger] results@[a].0 != #[trigger] results@[b].0 by {
                    assert(results@[a] == prev[a]);
                    if b < prev.len() {
                        assert(results@[b] == prev[b]);
                    } else {
                        let k = choose|k: int| 0 <= k < i && moves@[k] == prev[a].0;
                        assert(moves@[k] != moves@[i as int]);
                    }
                }
                assert forall|k: int| 0 <= k < results@.len() implies #[trigger] divide_entry(s0, depth as nat, results@[k]) by {
                    if k < prev.len() {
                        assert(results@[k] == prev[k]);
                    }
                }
                assert forall|k: int| 0 <= k < i + 1 && legal_after(s0, #[trigger] moves@[k]) implies exists|j: int| 0 <= j < results@.len() && results@[j].0 == moves@[k] by {
                    if k < i {
                        let j = choose|j: int| 0 <= j < prev.len() && prev[j].0 == moves@[k];
                        assert(results@[j] == prev[j]);
                    } else {
                        assert(results@[prev.len() as int].0 == moves@[k]);
                    }
                }
            }
            total = total + nodes;
        } else {
            proof {
                assert(g(mv) == 0);
            }
        }
        i = i + 1;
    }
    proof {
        assert(moves@.take(i as int) == moves@);
    }
    let ghost unsorted = results@;
    sort_by_text(&mut results);
    proof {
        lemma_divide_sorted(s0, depth as nat, moves@, unsorted, results@);
        lemma_divide_total(s0, depth as nat, unsorted, results@);
    }
    (results, total)
}

/// What the divide table keeps through sorting: each entry is still an
/// exact one, and every legal move still has an entry.
proof fn lemma_divide_sorted(s0: PosState, depth: nat, moves: Seq<Move>, unsorted: Seq<(Move, u64)>, sorted: Seq<(Move, u64)>)
    requires
        sorted.to_multiset() == unsorted.to_multiset(),
        forall|mv: Move| legal_move(s0, mv) ==> moves.contains(mv),
        forall|k: int| 0 <= k < unsorted.len() ==> #[trigger] divide_entry(s0, depth, unsorted[k]),
        forall|k: int| 0 <= k < moves.len() && legal_after(s0, #[trigger] moves[k]) ==> exists|j: int| 0 <= j < unsorted.len() && unsorted[j].0 == moves[k],
    ensures
        forall|k: int| 0 <= k < sorted.len() ==> #[trigger] divide_entry(s0, depth, sorted[k]),
        forall|mv: Move| legal_move(s0, mv) ==> #[trigger] lists_move(sorted, mv),
{
    assert forall|k: int| 0 <= k < sorted.len() implies #[trigger] divide_entry(s0, depth, sorted[k]) by {
        let e = sorted[k];
        vstd::seq_lib::to_multiset_contains(sorted, e);
        vstd::seq_lib::to_multiset_contains(unsorted, e);
        assert(sorted.contains(e));
        let j = choose|j: int| 0 <= j < unsorted.len() && unsorted[j] == e;
        assert(divide_entry(s0, depth, unsorted[j]));
    }
    assert forall|mv: Move| legal_move(s0, mv) implies #[trigger] lists_move(sorted, mv) by {
        assert(moves.contains(mv));
        let m = choose|m: int| 0 <= m < moves.len() && moves[m] == mv;
        assert(legal_after(s0, moves[m]));
        let j = choose|j: int| 0 <= j < unsorted.len() && unsorted[j].0 == moves[m];
        let e = unsorted[j];
        assert(unsorted.contains(e));
        vstd::seq_lib::to_multiset_contains(unsorted, e);
        vstd::seq_lib::to_multiset_contains(sorted, e);
        assert(sorted.contains(e));
        let k = choose|k: int| 0 <= k < sorted.len() && sorted[k] == e;
        assert(sorted[k].0 == mv);
    }
}

pub proof fn lemma_text_total(a: Seq<char>, b: Seq<char>)
    ensures
        text_le(a, b) || text_le(b, a),
    decreases a.len(),
{
    if a.len() > 0 && b.len() > 0 && a[0] == b[0] {
        lemma_text_total(a.drop_first(), b.drop_first());
    }
}

pub proof fn lemma_text_trans(a: Seq<char>, b: Seq<char>, c: Seq<char>)
    requires
        text_le(a, b),
        text_le(b, c),
    ensures
        text_le(a, c),
    decreases a.len(),
{
    if a.len() > 0 && b.len() > 0 && c.len() > 0 && a[0] == b[0] && b[0] == c[0] {
        lemma_text_trans(a.drop_first(), b.drop_first(), c.drop_first());
    }
}

pub open spec fn entry_le(a: (Move, u64), b: (Move, u64)) -> bool {
    text_le(move_text(a.0), move_text(b.0))
}

pub open spec fn sorted_by_text(v: Seq<(Move, u64)>) -> bool {
    forall|a: int, b: int| 0 <= a < b < v.len() ==> entry_le(#[trigger] v[a], #[trigger] v[b])
}

/// Sorts the entries by the UCI text of their moves, keeping equal ones in
/// their order (insertion sort).
fn sort_by_text(v: &mut Vec<(Move, u64)>)
    ensures
        final(v)@.to_multiset() == old(v)@.to_multiset(),
        sorted_by_text(final(v)@),
{
    let mut out: Vec<(Move, u64)> = Vec::new();
    let mut i: usize = 0;
    proof {
        assert(old(v)@.take(0) =~= out@);
    }
    while i < v.len()
        invariant
            v@ == old(v)@,
            i <= v@.len(),
            out@.to_multiset() == v@.take(i as int).to_multiset(),
            sorted_by_text(out@),
        decreases v@.len() - i,
    {
        let x = v[i];
        // Find the first entry that must come after `x`.
        let mut p: usize = 0;
        while p < out.len() && move_le(out[p].0, x.0)
            invariant
                p <= out@.len(),
                forall|k: int| 0 <= k < p ==> entry_le(#[trigger] out@[k], x),
            decreases out@.len() - p,
        {
            p = p + 1;
        }
        let ghost before = out@;
        out.insert(p, x);
        proof {
            assert(out@ == before.insert(p as int, x));
            if p < before.len() {
                assert(!entry_le(before[p as int], x));
                lemma_text_total(move_text(before[p as int].0), move_text(x.0));
            }
            assert forall|a: int, b: int| 0 <= a < b < out@.len() implies entry_le(#[trigger] out@[a], #[trigger] out@[b]) by {
                if b < p {
                    assert(out@[a] == before[a] && out@[b] == before[b]);
                } else if b == p {
                    assert(out@[a] == before[a]);
                } else if a < p {
                    assert(out@[a] == before[a] && out@[b] == before[b - 1]);
                    assert(entry_le(before[a], x));
                    if p < before.len() {
                        if b - 1 > p {
                            assert(entry_le(before[p as int], before[b - 1]));
                            lemma_text_trans(move_text(x.0), move_text(before[p as int].0), move_text(before[b - 1].0));
                        }
                        lemma_text_trans(move_text(before[a].0), move_text(x.0), move_text(before[b - 1].0));
                    }
                } else if a == p {
                    assert(out@[b] == before[b - 1]);
                    if b - 1 > p {
                        assert(entry_le(before[p as int], before[b - 1]));
                        lemma_text_trans(move_text(x.0), move_text(before[p as int].0), move_text(before[b - 1].0));
                    }
                } else {
                    assert(out@[a] == before[a - 1] && out@[b] == before[b - 1]);
                }
            }
            assert(v@.take(i + 1) == v@.take(i as int).push(x));
            vstd::seq_lib::to_multiset_insert(before, p as int, x);
            vstd::seq_lib::to_multiset_build(v@.take(i as int), x);
        }
        i = i + 1;
    }
    proof {
        assert(v@.take(i as int) == v@);
    }
    *v = out;
}

/// `perft` for any depth: the count when it fits in 64 bits, `None` when it
/// does not.
pub fn perft_checked(pos: &mut Position, depth: u32) -> (r: Option<u64>)
    requires
        old(pos).wf(),
        perft_ready(old(pos).state(), depth as int),
    ensures
        final(pos).wf(),
        final(pos).state() == old(pos).state(),
        final(pos).keys == old(pos).keys,
        r matches Some(n) ==> n == perft_count(old(pos).state(), depth as nat),
        r is None ==> perft_count(old(pos).state(), depth as nat) > u64::MAX,
    decreases depth,
{
    if depth == 0 {
        return Some(1);
    }
    let ghost s0 = pos.state();
    let ghost g = child_count(s0, depth as nat);
    let moves = generate_moves(pos);
    proof {
        assert forall|mv: Move| #[trigger] g(mv) > 0 implies moves@.contains(mv) by {}
        lemma_seq_sum_range(moves@, g);
        lemma_count_from_range(s0, depth as nat, 0);
    }
    let mut nodes: u64 = 0;
    let mut i: usize = 0;
    while i < moves.len()
        invariant
            pos.wf(),
            pos.state() == s0,
            s0 == old(pos).state(),
            pos.keys == old(pos).keys,
            perft_ready(s0, depth as int),
            depth >= 1,
            g == child_count(s0, depth as nat),
            i <= moves@.len(),
            forall|k: int| 0 <= k < moves@.len() ==> #[trigger] pseudo_legal(s0, moves@[k]),
            seq_sum(moves@, g) == perft_count(s0, depth as nat),
            nodes == seq_sum(moves@.take(i as int), g),
        decreases moves@.len() - i,
    {
        let mv = moves.get(i);
        proof {
            lemma_pseudo_applicable(s0, mv);
            lemma_prefix_le(moves@, g, i + 1);
            assert(moves@.take(i + 1).drop_last() == moves@.take(i as int));
            assert(moves@.take(i + 1).last() == mv);
        }
        if pos.try_make_move(mv) {
            proof {
                lemma_perft_child(s0, mv, depth as int);
                assert(g(mv) == perft_count(make_state(s0, mv), (depth - 1) as nat));
            }
            let below = if depth == 1 {
                Some(1)
            } else {
                perft_checked(pos, depth - 1)
            };
            pos.unmake_move();
            match below {
                Some(b) => {
                    match nodes.checked_add(b) {
                        Some(n) => {
                            nodes = n;
                        },
                        None => {
                            return None;
                        },
                    }
                },
                None => {
                    return None;
                },
            }
        }
        i = i + 1;
    }
    proof {
        assert(moves@.take(i as int) == moves@);
    }
    Some(nodes)
}

/// `perft_divide` for any depth: `None` when the count does not fit in 64
/// bits.
pub fn perft_divide_checked(pos: &mut Position, depth: u32) -> (r: Option<(Vec<(Move, u64)>, u64)>)
    requires
        old(pos).wf(),
        perft_ready(old(pos).state(), depth as int),
        depth >= 1,
    ensures
        final(pos).wf(),
        final(pos).state() == old(pos).state(),
        final(pos).keys == old(pos).keys,
        r is None <==> perft_count(old(pos).state(), depth as nat) > u64::MAX,
        r matches Some(d) ==> {
            &&& d.1 == perft_count(old(pos).state(), depth as nat)
            &&& forall|k: int| 0 <= k < d.0@.len() ==> #[trigger] divide_entry(old(pos).state(), depth as nat, d.0@[k])
            &&& forall|mv: Move| legal_move(old(pos).state(), mv) ==> #[trigger] lists_move(d.0@, mv)
            &&& sorted_by_text(d.0@)
            &&& distinct_moves(d.0@)
            &&& entry_total(d.0@) == d.1
        },
{
    match perft_checked(pos, depth) {
        Some(_) => Some(perft_divide(pos, depth)),
        None => None,
    }
}

/// Whether perft can explore `depth` plies from `pos`.
pub fn can_perft(pos: &Position, depth: u32) -> (r: bool)
    requires
        pos.wf(),
    ensures
        r == perft_ready(pos.state(), depth as int),
{
    crate::movegen::is_sane(pos) && (pos.halfmove_clock as u64) + (depth as u64) < 0xffff
        && (pos.fullmove_number as u64) + (depth as u64) < 0xffff
}

} // verus!
