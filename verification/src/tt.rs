//! A fixed-size transposition table with depth-preferred, aging replacement.
use vstd::prelude::*;
use crate::eval::{MATE, MATE_IN_MAX_PLY};
use crate::types::Move;
use crate::position::{Position, PosState, make_state, can_unmake_state, unmake_state, lemma_unmake_after_make};
use crate::movegen::{generate_legal_moves, legal_move, sane, lemma_pseudo_applicable, lemma_sane_after};

verus! {

#[derive(Clone, Copy, PartialEq, Eq, Debug, Structural)]
pub enum Bound {
    /// Score is exact (a PV node).
    Exact,
    /// Score is a lower bound (fail high / beta cutoff).
    Lower,
    /// Score is an upper bound (fail low).
    Upper,
}

#[derive(Clone, Copy)]
pub struct Entry {
    pub key: u64,
    pub mv: Move,
    pub score: i32,
    pub depth: i16,
    pub bound: Bound,
    pub generation: u8,
}

pub open spec fn empty_entry() -> Entry {
    Entry { key: 0, mv: Move(0), score: 0, depth: -1i16, bound: Bound::Exact, generation: 0 }
}

fn make_empty_entry() -> (e: Entry)
    ensures
        e == empty_entry(),
{
    Entry { key: 0, mv: Move::none(), score: 0, depth: -1, bound: Bound::Exact, generation: 0 }
}

pub struct TableHit {
    pub mv: Move,
    pub score: i32,
    pub depth: i16,
    pub bound: Bound,
}

pub struct TranspositionTable {
    pub entries: Vec<Entry>,
    pub mask: usize,
    pub generation: u8,
    /// Every key the table has stored an entry under since it was made.
    pub held: Ghost<Set<u64>>,
}

/// Mate scores are stored relative to the entry's position, not the root, so
/// they stay valid when the same position is reached at a different ply.
pub open spec fn spec_score_to_tt(score: int, ply: int) -> int {
    if score >= MATE_IN_MAX_PLY {
        score + ply
    } else if score <= -MATE_IN_MAX_PLY {
        score - ply
    } else {
        score
    }
}

pub open spec fn spec_score_from_tt(score: int, ply: int) -> int {
    if score >= MATE_IN_MAX_PLY {
        score - ply
    } else if score <= -MATE_IN_MAX_PLY {
        score + ply
    } else {
        score
    }
}

/// The slot a key lives in.
pub open spec fn slot_of(mask: usize, key: u64) -> int {
    ((key as usize) & mask) as int
}

/// What a probe of `key` at `ply` finds in `entries`.
pub open spec fn probe_at(entries: Seq<Entry>, mask: usize, key: u64, ply: int) -> Option<TableHit> {
    let e = entries[slot_of(mask, key)];
    if e.key != key || e.depth < 0 {
        None
    } else {
        Some(
            TableHit {
                mv: e.mv,
                score: spec_score_from_tt(e.score as int, ply) as i32,
                depth: e.depth,
                bound: e.bound,
            },
        )
    }
}

/// A score that the table can store at `ply` without leaving `i32`.
pub open spec fn storable(score: int, ply: int) -> bool {
    i32::MIN <= spec_score_to_tt(score, ply) <= i32::MAX
}

fn score_to_tt(score: i32, ply: usize) -> (r: i32)
    requires
        ply <= i32::MAX,
        storable(score as int, ply as int),
    ensures
        r as int == spec_score_to_tt(score as int, ply as int),
{
    if score >= MATE_IN_MAX_PLY {
        score + ply as i32
    } else if score <= -MATE_IN_MAX_PLY {
        score - ply as i32
    } else {
        score
    }
}

fn score_from_tt(score: i32, ply: usize) -> (r: i32)
    requires
        ply <= i32::MAX,
    ensures
        r as int == spec_score_from_tt(score as int, ply as int),
{
    if score >= MATE_IN_MAX_PLY {
        score - ply as i32
    } else if score <= -MATE_IN_MAX_PLY {
        score + ply as i32
    } else {
        score
    }
}

/// Reading a stored score back at the ply it was stored from gives the score
/// that was stored.
pub proof fn lemma_score_roundtrip(score: int, ply: int)
    requires
        0 <= ply,
    ensures
        spec_score_from_tt(spec_score_to_tt(score, ply), ply) == score,
{
}

/// `std::mem::size_of::<Entry>()`: the size of one entry in bytes, which is
/// vstd's `size_of::<Entry>()`, and at least the 8 bytes of its key.
#[verifier::external_body]
fn entry_size() -> (n: usize)
    ensures
        n as nat == vstd::layout::size_of::<Entry>(),
        n >= 8,
{
    core::mem::size_of::<Entry>()
}

/// Whether `n` is a power of two.
pub open spec fn is_pow2(n: nat) -> bool
    decreases n,
{
    if n == 1 {
        true
    } else if n == 0 || n % 2 == 1 {
        false
    } else {
        is_pow2(n / 2)
    }
}

/// The largest power of two that is at most `n`, and 0 for 0.
pub open spec fn floor_pow2(n: nat) -> nat
    decreases n,
{
    if n <= 1 {
        n
    } else {
        2 * floor_pow2(n / 2)
    }
}

/// The number of entries a table of `megabytes` (at least 1) holds with
/// entries of `size` bytes: the largest power of two that fits, and never
/// fewer than 1024.
pub open spec fn table_len(megabytes: nat, size: nat) -> nat {
    let wanted = (if megabytes < 1 { 1 } else { megabytes }) * 1048576 / size;
    if floor_pow2(wanted) < 1024 { 1024 } else { floor_pow2(wanted) }
}

/// A power of two `q` with `q <= n < 2q` is the largest one at most `n`.
proof fn lemma_floor_pow2(n: nat, q: nat)
    requires
        is_pow2(q),
        q <= n < 2 * q,
    ensures
        floor_pow2(n) == q,
    decreases q,
{
    if q != 1 {
        assert(q % 2 == 0 && is_pow2(q / 2));
        lemma_floor_pow2(n / 2, q / 2);
    }
}

/// Returns the smallest power of two that is at least `n`.
fn next_power_of_two(n: usize) -> (p: usize)
    requires
        n <= usize::MAX / 4,
    ensures
        is_pow2(p as nat),
        p >= n,
        p >= 1,
        p / 2 < n || p == 1,
{
    let mut p: usize = 1;
    while p < n
        invariant
            is_pow2(p as nat),
            p >= 1,
            p / 2 < n || p == 1,
            n <= usize::MAX / 4,
        decreases 2 * n + 2 - p,
    {
        proof {
            assert(is_pow2((p * 2) as nat)) by {
                assert((p * 2) as nat / 2 == p as nat);
                assert((p * 2) as nat % 2 == 0);
            }
        }
        p = p * 2;
    }
    p
}

impl TranspositionTable {
    pub open spec fn wf(&self) -> bool {
        &&& self.entries@.len() == self.mask + 1
        &&& self.entries@.len() >= 1024
        &&& forall|i: int| 0 <= i < self.entries@.len() ==> (#[trigger] self.entries@[i]).depth < 0
            || self.held@.contains(self.entries@[i].key)
    }

    /// The table has never stored an entry under `key`.
    pub open spec fn never_held(&self, key: u64) -> bool {
        !self.held@.contains(key)
    }

    pub open spec fn spec_slot(&self, key: u64) -> int {
        slot_of(self.mask, key)
    }

    /// Allocates the largest power-of-two table that fits in `megabytes`
    /// (at least 1), and never fewer than 1024 entries.
    pub fn new(megabytes: usize) -> (tt: TranspositionTable)
        requires
            megabytes <= usize::MAX / 1048576,
        ensures
            tt.wf(),
            is_pow2(tt.entries@.len() as nat),
            tt.entries@.len() == table_len(megabytes as nat, vstd::layout::size_of::<Entry>()),
            tt.generation == 0,
            tt.held@ == Set::<u64>::empty(),
            forall|i: int| 0 <= i < tt.entries@.len() ==> #[trigger] tt.entries@[i] == empty_entry(),
    {
        let mb = if megabytes < 1 {
            1
        } else {
            megabytes
        };
        let entry = entry_size();
        let bytes: usize = mb * 1048576;
        let wanted = bytes / entry;
        assert(wanted <= bytes / 8) by (nonlinear_arith)
            requires
                entry >= 8,
                wanted == bytes / entry,
                bytes >= 0,
        ;
        let np = next_power_of_two(wanted);
        let count = if np == wanted {
            np
        } else {
            np / 2
        };
        proof {
            if np == wanted {
                lemma_floor_pow2(wanted as nat, np as nat);
            } else if np == 1 {
                assert(wanted == 0);
            } else {
                assert(np as nat % 2 == 0) by {
                    lemma_pow2_even(np as nat);
                }
                assert(is_pow2((np / 2) as nat));
                lemma_floor_pow2(wanted as nat, (np / 2) as nat);
            }
            assert(count as nat == floor_pow2(wanted as nat));
        }
        let count = if count < 1024 {
            1024
        } else {
            count
        };
        proof {
            if count == 1024 {
                lemma_pow2_1024();
            } else if np != wanted {
                assert(is_pow2((np / 2) as nat));
            }
        }
        let e = make_empty_entry();
        let mut entries: Vec<Entry> = Vec::with_capacity(count);
        let mut i: usize = 0;
        while i < count
            invariant
                i <= count,
                entries@.len() == i,
                forall|j: int| 0 <= j < i ==> #[trigger] entries@[j] == empty_entry(),
                e == empty_entry(),
            decreases count - i,
        {
            entries.push(e);
            i = i + 1;
        }
        TranspositionTable { entries, mask: count - 1, generation: 0, held: Ghost(Set::empty()) }
    }

    /// Replaces the table with a new, empty one of `megabytes`.
    pub fn resize(&mut self, megabytes: usize)
        requires
            megabytes <= usize::MAX / 1048576,
        ensures
            final(self).wf(),
            final(self).entries@.len() == table_len(megabytes as nat, vstd::layout::size_of::<Entry>()),
            final(self).generation == 0,
            forall|i: int| 0 <= i < final(self).entries@.len() ==> #[trigger] final(self).entries@[i] == empty_entry(),
    {
        *self = TranspositionTable::new(megabytes);
    }

    pub fn clear(&mut self)
        requires
            old(self).wf(),
        ensures
            final(self).wf(),
            final(self).entries@.len() == old(self).entries@.len(),
            final(self).mask == old(self).mask,
            final(self).generation == 0,
            forall|i: int| 0 <= i < final(self).entries@.len() ==> #[trigger] final(self).entries@[i] == empty_entry(),
    {
        let e = make_empty_entry();
        let n = self.entries.len();
        let mut i: usize = 0;
        while i < n
            invariant
                i <= n,
                n == self.entries@.len(),
                self.entries@.len() == old(self).entries@.len(),
                self.mask == old(self).mask,
                self.held == old(self).held,
                forall|j: int| 0 <= j < i ==> #[trigger] self.entries@[j] == empty_entry(),
                forall|j: int| i <= j < n ==> #[trigger] self.entries@[j] == old(self).entries@[j],
                e == empty_entry(),
            decreases n - i,
        {
            self.entries.set(i, e);
            i = i + 1;
        }
        self.generation = 0;
    }

    /// Marks the start of a new search so older entries become replaceable.
    pub fn new_generation(&mut self)
        ensures
            final(self).entries@ == old(self).entries@,
            final(self).mask == old(self).mask,
            final(self).held == old(self).held,
            final(self).generation == vstd::wrapping::u8_specs::wrapping_add(old(self).generation, 1),
    {
        self.generation = self.generation.wrapping_add(1);
    }

    fn slot(&self, key: u64) -> (s: usize)
        requires
            self.wf(),
        ensures
            s as int == self.spec_slot(key),
            s < self.entries@.len(),
    {
        let m = self.mask;
        let k = key as usize;
        proof {
            lemma_mask_bits(k, m);
        }
        key as usize & self.mask
    }

    /// What `probe` reports for `key` at `ply`.
    pub open spec fn probe_spec(&self, key: u64, ply: int) -> Option<TableHit> {
        probe_at(self.entries@, self.mask, key, ply)
    }

    pub fn probe(&self, key: u64, ply: usize) -> (hit: Option<TableHit>)
        requires
            self.wf(),
            ply <= i32::MAX,
        ensures
            hit == self.probe_spec(key, ply as int),
    {
        let entry = self.entries[self.slot(key)];
        if entry.key != key || entry.depth < 0 {
            return None;
        }
        Some(TableHit {
            mv: entry.mv,
            score: score_from_tt(entry.score, ply),
            depth: entry.depth,
            bound: entry.bound,
        })
    }

    /// A key the table never stored under finds nothing.
    pub proof fn lemma_never_held_misses(&self, key: u64, ply: int)
        requires
            self.wf(),
            self.never_held(key),
        ensures
            self.probe_spec(key, ply) is None,
    {
        let i = self.spec_slot(key);
        lemma_mask_bits(key as usize, self.mask);
        assert(0 <= i < self.entries@.len());
        let e = self.entries@[i];
        assert(e.depth < 0 || self.held@.contains(e.key));
    }

    /// The entry `store` leaves in `key`'s slot.
    pub open spec fn store_spec(
        &self,
        key: u64,
        mv: Move,
        score: i32,
        depth: i16,
        bound: Bound,
        ply: int,
    ) -> Entry {
        let e = self.entries@[self.spec_slot(key)];
        // Keep the existing entry only if it is from this search, at least as
        // deep, and not a strictly better (exact) bound arriving now.
        let replace = e.key != key || e.generation != self.generation || depth >= e.depth || bound
            == Bound::Exact;
        if !replace {
            e
        } else {
            Entry {
                key,
                // Never lose a stored move to an entry that has none.
                mv: if mv.0 == 0 && e.key == key {
                    e.mv
                } else {
                    mv
                },
                score: spec_score_to_tt(score as int, ply) as i32,
                depth,
                bound,
                generation: self.generation,
            }
        }
    }

    pub fn store(&mut self, key: u64, mv: Move, score: i32, depth: i16, bound: Bound, ply: usize)
        requires
            old(self).wf(),
            ply <= i32::MAX,
            storable(score as int, ply as int),
        ensures
            final(self).wf(),
            final(self).mask == old(self).mask,
            final(self).generation == old(self).generation,
            final(self).entries@ == old(self).entries@.update(
                old(self).spec_slot(key),
                old(self).store_spec(key, mv, score, depth, bound, ply as int),
            ),
            final(self).held@ == old(self).held@.insert(key),
    {
        self.held = Ghost(self.held@.insert(key));
        let generation = self.generation;
        let slot = self.slot(key);
        let entry = self.entries[slot];
        let replace = entry.key != key || entry.generation != generation || depth >= entry.depth
            || bound == Bound::Exact;
        if !replace {
            proof {
                assert(self.entries@ =~= old(self).entries@.update(slot as int, entry));
            }
            return;
        }
        let mv = if mv.is_none() && entry.key == key {
            entry.mv
        } else {
            mv
        };
        let new_entry = Entry {
            key,
            mv,
            score: score_to_tt(score, ply),
            depth,
            bound,
            generation,
        };
        self.entries.set(slot, new_entry);
    }

    /// Entries among the first `n` that belong to generation `g`.
    pub open spec fn used_count(entries: Seq<Entry>, g: u8, n: int) -> nat
        decreases n,
    {
        if n <= 0 {
            0
        } else {
            TranspositionTable::used_count(entries, g, n - 1) + if entries[n - 1].depth >= 0
                && entries[n - 1].generation == g {
                1nat
            } else {
                0nat
            }
        }
    }

    /// Permille of the table in use by the current search, for `info hashfull`.
    pub fn hashfull(&self) -> (r: usize)
        requires
            self.wf(),
        ensures
            r == TranspositionTable::used_count(self.entries@, self.generation, 1000),
    {
        let sample: usize = if self.entries.len() < 1000 {
            self.entries.len()
        } else {
            1000
        };
        let mut used: usize = 0;
        let mut i: usize = 0;
        while i < sample
            invariant
                i <= sample,
                sample == 1000,
                sample <= self.entries@.len(),
                used == TranspositionTable::used_count(self.entries@, self.generation, i as int),
                used <= i,
            decreases sample - i,
        {
            let e = self.entries[i];
            if e.depth >= 0 && e.generation == self.generation {
                used = used + 1;
            }
            i = i + 1;
        }
        used * 1000 / sample
    }
}

/// A store that replaces its slot is read back by a probe of the same key at
/// the same ply: the same move (or the one kept when none was given), score,
/// depth and bound.
pub proof fn lemma_probe_after_store(
    tt: TranspositionTable,
    key: u64,
    mv: Move,
    score: i32,
    depth: i16,
    bound: Bound,
    ply: int,
)
    requires
        tt.wf(),
        0 <= ply <= i32::MAX,
        storable(score as int, ply),
        depth >= 0,
        ({
            let e = tt.entries@[tt.spec_slot(key)];
            e.key != key || e.generation != tt.generation || depth >= e.depth || bound == Bound::Exact
        }),
    ensures
        ({
            let after = tt.entries@.update(tt.spec_slot(key), tt.store_spec(key, mv, score, depth, bound, ply));
            let e = tt.entries@[tt.spec_slot(key)];
            probe_at(after, tt.mask, key, ply) == Some(TableHit {
                mv: if mv.0 == 0 && e.key == key { e.mv } else { mv },
                score,
                depth,
                bound,
            })
        }),
{
    let m = tt.mask;
    let k = key as usize;
    crate::tt::lemma_mask_bits(k, m);
}

/// Mate scores are kept relative to the entry's position: a mate found
/// `d` plies below the root, stored at ply `p1` and read back at ply `p2`,
/// comes back as that mate `d - p1 + p2` plies below the new root (the
/// winning score shrinks by `p2 - p1`, the losing one grows by it); any
/// other score comes back as it was stored.
pub proof fn lemma_mate_distance_kept(
    tt: TranspositionTable,
    key: u64,
    mv: Move,
    score: i32,
    depth: i16,
    bound: Bound,
    p1: int,
    p2: int,
)
    requires
        tt.wf(),
        0 <= p1 < 1000,
        0 <= p2 < 1000,
        -MATE <= score <= MATE,
        depth >= 0,
        ({
            let e = tt.entries@[tt.spec_slot(key)];
            e.key != key || e.generation != tt.generation || depth >= e.depth || bound == Bound::Exact
        }),
    ensures
        ({
            let after = tt.entries@.update(tt.spec_slot(key), tt.store_spec(key, mv, score, depth, bound, p1));
            &&& probe_at(after, tt.mask, key, p2) is Some
            &&& probe_at(after, tt.mask, key, p2)->0.score == (if score >= MATE_IN_MAX_PLY {
                score + p1 - p2
            } else if score <= -MATE_IN_MAX_PLY {
                score - p1 + p2
            } else {
                score as int
            })
        }),
{
    let m = tt.mask;
    let k = key as usize;
    crate::tt::lemma_mask_bits(k, m);
}

proof fn lemma_pow2_even(n: nat)
    requires
        is_pow2(n),
        n >= 2,
    ensures
        n % 2 == 0,
{
}

proof fn lemma_pow2_1024()
    ensures
        is_pow2(1024),
{
    reveal_with_fuel(is_pow2, 12);
}

/// Masking never exceeds the mask.
pub proof fn lemma_mask_bits(k: usize, m: usize)
    ensures
        k & m <= m,
{
    lemma_masks(k, m, 0, 0);
}

/// Masking never exceeds the mask, for indices and for 64-bit words; and
/// four castling rights set one at a time rebuild any set of them.
pub proof fn lemma_masks(k: usize, m: usize, x: u64, c: u8)
    by (bit_vector)
    ensures
        k & m <= m,
        x & 15 < 16,
        c < 16 ==> c == (if c & 8 != 0 {
            (if c & 4 != 0 {
                (if c & 2 != 0 {
                    (if c & 1 != 0 { 0u8 | 1u8 } else { 0u8 }) | 2u8
                } else {
                    (if c & 1 != 0 { 0u8 | 1u8 } else { 0u8 })
                }) | 4u8
            } else {
                (if c & 2 != 0 {
                    (if c & 1 != 0 { 0u8 | 1u8 } else { 0u8 }) | 2u8
                } else {
                    (if c & 1 != 0 { 0u8 | 1u8 } else { 0u8 })
                })
            }) | 8u8
        } else {
            (if c & 4 != 0 {
                (if c & 2 != 0 {
                    (if c & 1 != 0 { 0u8 | 1u8 } else { 0u8 }) | 2u8
                } else {
                    (if c & 1 != 0 { 0u8 | 1u8 } else { 0u8 })
                }) | 4u8
            } else {
                (if c & 2 != 0 {
                    (if c & 1 != 0 { 0u8 | 1u8 } else { 0u8 }) | 2u8
                } else {
                    (if c & 1 != 0 { 0u8 | 1u8 } else { 0u8 })
                })
            })
        }),
        c != 0 && c < 16 ==> (c & 1 != 0 || c & 2 != 0 || c & 4 != 0 || c & 8 != 0),
{
}

/// The line of table moves from `s`, at most `n` long: at each position the
/// move stored for it, for as long as there is one, it is legal, and the
/// clocks have room.
pub open spec fn table_line(t: TranspositionTable, s: PosState, n: nat) -> Seq<Move>
    decreases n,
{
    if n == 0 {
        Seq::empty()
    } else {
        match t.probe_spec(s.hash, 0) {
            Some(hit) => if s.halfmove + 1 < 0xffff && s.fullmove + 1 < 0xffff && legal_move(s, hit.mv) {
                seq![hit.mv] + table_line(t, make_state(s, hit.mv), (n - 1) as nat)
            } else {
                Seq::empty()
            },
            None => Seq::empty(),
        }
    }
}

impl TranspositionTable {
    /// Walks table moves from `pos` to recover a principal variation. Used
    /// only as a fallback when the search's own line is unavailable.
    pub fn extract_pv(&self, pos: &mut Position, max_len: usize) -> (pv: Vec<Move>)
        requires
            self.wf(),
            old(pos).wf(),
            sane(old(pos).state()),
        ensures
            final(pos).wf(),
            final(pos).state() == old(pos).state(),
            final(pos).keys == old(pos).keys,
            pv@ == table_line(*self, old(pos).state(), max_len as nat),
    {
        let ghost s0 = pos.state();
        let ghost mut states: Seq<PosState> = seq![s0];
        let mut pv: Vec<Move> = Vec::new();
        let mut made: usize = 0;
        while pv.len() < max_len
            invariant_except_break
                pv@ + table_line(*self, pos.state(), (max_len - pv@.len()) as nat) == table_line(*self, s0, max_len as nat),
            invariant
                self.wf(),
                pos.wf(),
                pos.keys == old(pos).keys,
                s0 == old(pos).state(),
                pv@.len() <= max_len,
                made == pv@.len(),
                states.len() == made + 1,
                states[0] == s0,
                pos.state() == states[made as int],
                sane(pos.state()),
                forall|k: int| 0 <= k < made ==> can_unmake_state(#[trigger] states[k + 1])
                    && unmake_state(states[k + 1]) == states[k],
            ensures
                pos.wf(),
                pos.keys == old(pos).keys,
                states.len() == made + 1,
                states[0] == s0,
                pos.state() == states[made as int],
                forall|k: int| 0 <= k < made ==> can_unmake_state(#[trigger] states[k + 1])
                    && unmake_state(states[k + 1]) == states[k],
                pv@ == table_line(*self, s0, max_len as nat),
            decreases max_len - pv@.len(),
        {
            let ghost st = pos.state();
            let ghost left = (max_len - pv@.len()) as nat;
            let hit = match self.probe(pos.hash, 0) {
                Some(h) => h,
                None => {
                    break;
                },
            };
            let mv = hit.mv;
            if mv.is_none() || pos.halfmove_clock >= 0xfffe || pos.fullmove_number >= 0xfffe {
                proof {
                    crate::movegen::lemma_none_not_pseudo(st);
                }
                break;
            }
            let legal = generate_legal_moves(pos);
            let mut found = false;
            let mut i: usize = 0;
            while i < legal.len()
                invariant
                    i <= legal@.len(),
                    found <==> exists|k: int| 0 <= k < i && legal@[k] == mv,
                decreases legal@.len() - i,
            {
                if legal[i] == mv {
                    found = true;
                }
                i = i + 1;
            }
            if !found {
                proof {
                    if legal_move(st, mv) {
                        assert(legal@.contains(mv));
                    }
                }
                break;
            }
            proof {
                let k = choose|k: int| 0 <= k < legal@.len() && legal@[k] == mv;
                assert(legal_move(st, legal@[k]));
                lemma_pseudo_applicable(st, mv);
                lemma_sane_after(st, mv);
                lemma_unmake_after_make(st, mv);
                assert(table_line(*self, st, left) == seq![mv] + table_line(*self, make_state(st, mv), (left - 1) as nat));
            }
            pos.make_move(mv);
            pv.push(mv);
            made = made + 1;
            proof {
                states = states.push(pos.state());
            }
        }
        while made > 0
            invariant
                pos.wf(),
                pos.keys == old(pos).keys,
                states.len() >= made + 1,
                states[0] == s0,
                pos.state() == states[made as int],
                forall|k: int| 0 <= k < states.len() - 1 ==> can_unmake_state(#[trigger] states[k + 1])
                    && unmake_state(states[k + 1]) == states[k],
            decreases made,
        {
            proof {
                assert(can_unmake_state(states[(made - 1) + 1]));
            }
            pos.unmake_move();
            made = made - 1;
        }
        pv
    }
}

} // verus!
