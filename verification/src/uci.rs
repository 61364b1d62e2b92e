//! The reading side of the UCI protocol: what a `go`, `position` or
//! `setoption` command asks for. Running the search on its own thread and
//! talking over standard input and output is the application's business.
use vstd::prelude::*;
use crate::fen::{fen_parse, FenState, words};
use crate::movegen::{legal_move, sane, is_sane};
use crate::play::{spaced, lower_text};
use crate::san::{trim_end, trim_start};
use crate::position::{Position, PosState, make_state, STARTPOS_FEN};
use crate::search::{SearchLimits, default_limits, searchable, MAX_PLY};
use crate::text::{chars_of, eq_ignore_ascii_case, lower, push_str, unsigned_value};
use crate::types::{Move, move_text};

verus! {

/// Two sets of limits that ask for the same search.
pub open spec fn same_limits(a: SearchLimits, b: SearchLimits) -> bool {
    &&& a.depth == b.depth
    &&& a.movetime == b.movetime
    &&& a.time@ == b.time@
    &&& a.increment@ == b.increment@
    &&& a.moves_to_go == b.moves_to_go
    &&& a.nodes == b.nodes
    &&& a.infinite == b.infinite
}

/// The number after argument `i`, if there is one.
pub open spec fn number_after(args: Seq<Seq<char>>, i: int) -> Option<u64> {
    if i + 1 < args.len() {
        match unsigned_value(args[i + 1], u64::MAX as nat) {
            Some(v) => Some(v as u64),
            None => None,
        }
    } else {
        None
    }
}

/// The limits after reading `go` argument `i` into `l`.
pub open spec fn go_step(l: SearchLimits, args: Seq<Seq<char>>, i: int) -> SearchLimits {
    let a = args[i];
    let v = number_after(args, i);
    if a == "depth"@ {
        match v {
            Some(d) => SearchLimits { depth: d as u32, ..l },
            None => l,
        }
    } else if a == "movetime"@ {
        SearchLimits { movetime: v, ..l }
    } else if a == "wtime"@ {
        SearchLimits { time: [v, l.time[1]], ..l }
    } else if a == "btime"@ {
        SearchLimits { time: [l.time[0], v], ..l }
    } else if a == "winc"@ {
        SearchLimits { increment: [if v is Some { v->0 } else { 0 }, l.increment[1]], ..l }
    } else if a == "binc"@ {
        SearchLimits { increment: [l.increment[0], if v is Some { v->0 } else { 0 }], ..l }
    } else if a == "movestogo"@ {
        SearchLimits { moves_to_go: if v is Some { Some(v->0 as u32) } else { None }, ..l }
    } else if a == "nodes"@ {
        SearchLimits { nodes: v, ..l }
    } else if a == "infinite"@ {
        SearchLimits { infinite: true, ..l }
    } else {
        l
    }
}

/// The limits the first `n` arguments of `go` ask for.
pub open spec fn go_settings(args: Seq<Seq<char>>, n: int) -> SearchLimits
    decreases n,
{
    if n <= 0 {
        default_limits()
    } else {
        go_step(go_settings(args, n - 1), args, n - 1)
    }
}

fn number_at(args: &Vec<Vec<char>>, i: usize) -> (r: Option<u64>)
    requires
        i < args@.len(),
    ensures
        r == number_after(args@.map_values(|a: Vec<char>| a@), i as int),
{
    let ghost v = args@.map_values(|a: Vec<char>| a@);
    if i < args.len() - 1 {
        assert(v[i + 1] == args@[i + 1]@);
        crate::text::parse_u64_chars(&args[i + 1])
    } else {
        None
    }
}

fn is(a: &Vec<char>, word: &str) -> (r: bool)
    ensures
        r == (a@ == word@),
{
    crate::text::chars_eq(a, &chars_of(word))
}

/// The search limits a `go` command's arguments ask for.
pub fn go_limits(args: &Vec<Vec<char>>) -> (l: SearchLimits)
    ensures
        same_limits(l, go_settings(args@.map_values(|a: Vec<char>| a@), args@.len() as int)),
{
    let ghost v = args@.map_values(|a: Vec<char>| a@);
    let mut limits: SearchLimits = Default::default();
    let mut i: usize = 0;
    while i < args.len()
        invariant
            i <= args@.len(),
            v == args@.map_values(|a: Vec<char>| a@),
            same_limits(limits, go_settings(v, i as int)),
        decreases args@.len() - i,
    {
        let a = &args[i];
        assert(v[i as int] == a@);
        let value = number_at(args, i);
        let ghost before = limits;
        if is(a, "depth") {
            match value {
                Some(d) => limits.depth = #[verifier::truncate] (d as u32),
                None => {},
            }
        } else if is(a, "movetime") {
            limits.movetime = value;
        } else if is(a, "wtime") {
            limits.time = [value, limits.time[1]];
            assert(limits.time@ =~= [value, before.time[1]]@);
        } else if is(a, "btime") {
            limits.time = [limits.time[0], value];
            assert(limits.time@ =~= [before.time[0], value]@);
        } else if is(a, "winc") {
            limits.increment = [
                match value {
                    Some(x) => x,
                    None => 0,
                },
                limits.increment[1],
            ];
            assert(limits.increment@ =~= [if value is Some { value->0 } else { 0 }, before.increment[1]]@);
        } else if is(a, "binc") {
            limits.increment = [
                limits.increment[0],
                match value {
                    Some(x) => x,
                    None => 0,
                },
            ];
            assert(limits.increment@ =~= [before.increment[0], if value is Some { value->0 } else { 0 }]@);
        } else if is(a, "movestogo") {
            limits.moves_to_go = match value {
                Some(x) => Some(#[verifier::truncate] (x as u32)),
                None => None,
            };
        } else if is(a, "nodes") {
            limits.nodes = value;
        } else if is(a, "infinite") {
            limits.infinite = true;
        }
        assert(same_limits(limits, go_step(before, v, i as int)));
        i = i + 1;
    }
    limits
}

/// The decimal text of a number reads back as that number.
proof fn lemma_number_text(v: nat, max: nat)
    requires
        v <= max,
    ensures
        unsigned_value(crate::text::decimal(v), max) == Some(v),
        crate::text::decimal(v).len() > 0,
        '0' <= crate::text::decimal(v)[0] <= '9',
{
    crate::fen::lemma_decimal_digits(v);
    assert(crate::text::decimal(v).len() > 0);
    assert('0' <= crate::text::decimal(v)[0] <= '9');
}

/// The text of a number is no `go` keyword, so `go` reads a keyword and its
/// number as the keyword's step alone.
proof fn lemma_keyword_number(kw: Seq<char>, v: nat)
    requires
        v <= u64::MAX,
        kw.len() > 0,
        'a' <= kw[0] <= 'z',
    ensures
        go_settings(seq![kw, crate::text::decimal(v)], 2) == go_step(default_limits(), seq![kw, crate::text::decimal(v)], 0),
        number_after(seq![kw, crate::text::decimal(v)], 0) == Some(v as u64),
{
    reveal_strlit("depth");
    reveal_strlit("movetime");
    reveal_strlit("wtime");
    reveal_strlit("btime");
    reveal_strlit("winc");
    reveal_strlit("binc");
    reveal_strlit("movestogo");
    reveal_strlit("nodes");
    reveal_strlit("infinite");
    lemma_number_text(v, u64::MAX as nat);
    let t = crate::text::decimal(v);
    let args = seq![kw, t];
    assert(args[1] == t);
    assert(t != "depth"@ && t != "movetime"@ && t != "wtime"@ && t != "btime"@ && t != "winc"@);
    assert(t != "binc"@ && t != "movestogo"@ && t != "nodes"@ && t != "infinite"@);
    let l1 = go_step(default_limits(), args, 0);
    assert(go_settings(args, 0) == default_limits());
    assert(go_settings(args, 1) == l1);
    assert(go_step(l1, args, 1) == l1);
}

proof fn lemma_go_depth(w: u32)
    ensures
        same_limits(go_settings(seq!["depth"@, crate::text::decimal(w as nat)], 2), SearchLimits { depth: w, ..default_limits() }),
{
    reveal_strlit("depth");
    lemma_keyword_number("depth"@, w as nat);
}

proof fn lemma_go_movetime(v: u64)
    ensures
        same_limits(go_settings(seq!["movetime"@, crate::text::decimal(v as nat)], 2), SearchLimits { movetime: Some(v), ..default_limits() }),
{
    reveal_strlit("depth");
    reveal_strlit("movetime");
    assert("movetime"@.len() == 8);
    assert("depth"@.len() == 5);
    assert("movetime"@ != "depth"@);
    lemma_keyword_number("movetime"@, v as nat);
}

proof fn lemma_go_clocks(v: u64)
    ensures
        same_limits(go_settings(seq!["wtime"@, crate::text::decimal(v as nat)], 2), SearchLimits { time: [Some(v), default_limits().time[1]], ..default_limits() }),
        same_limits(go_settings(seq!["btime"@, crate::text::decimal(v as nat)], 2), SearchLimits { time: [default_limits().time[0], Some(v)], ..default_limits() }),
{
    reveal_strlit("depth");
    reveal_strlit("movetime");
    reveal_strlit("wtime");
    reveal_strlit("btime");
    lemma_keyword_number("wtime"@, v as nat);
    lemma_keyword_number("btime"@, v as nat);
    assert("depth"@.len() == 5 && "depth"@[0] == 'd');
    assert("movetime"@.len() == 8 && "movetime"@[0] == 'm');
    assert("wtime"@.len() == 5 && "wtime"@[0] == 'w');
    assert("btime"@.len() == 5 && "btime"@[0] == 'b');
    assert("wtime"@ != "depth"@ && "wtime"@ != "movetime"@);
    assert("btime"@ != "depth"@ && "btime"@ != "movetime"@ && "btime"@ != "wtime"@);
}

proof fn lemma_go_increments(v: u64)
    ensures
        same_limits(go_settings(seq!["winc"@, crate::text::decimal(v as nat)], 2), SearchLimits { increment: [v, default_limits().increment[1]], ..default_limits() }),
        same_limits(go_settings(seq!["binc"@, crate::text::decimal(v as nat)], 2), SearchLimits { increment: [default_limits().increment[0], v], ..default_limits() }),
{
    reveal_strlit("depth");
    reveal_strlit("movetime");
    reveal_strlit("wtime");
    reveal_strlit("btime");
    reveal_strlit("winc");
    reveal_strlit("binc");
    lemma_keyword_number("winc"@, v as nat);
    lemma_keyword_number("binc"@, v as nat);
    assert("depth"@.len() == 5 && "depth"@[0] == 'd');
    assert("movetime"@.len() == 8 && "movetime"@[0] == 'm');
    assert("wtime"@.len() == 5 && "wtime"@[0] == 'w');
    assert("btime"@.len() == 5 && "btime"@[0] == 'b');
    assert("winc"@.len() == 4 && "winc"@[0] == 'w');
    assert("binc"@.len() == 4 && "binc"@[0] == 'b');
    assert("winc"@ != "depth"@ && "winc"@ != "movetime"@ && "winc"@ != "wtime"@ && "winc"@ != "btime"@);
    assert("binc"@ != "depth"@ && "binc"@ != "movetime"@ && "binc"@ != "wtime"@ && "binc"@ != "btime"@
        && "binc"@ != "winc"@);
}

proof fn lemma_go_counts(v: u64, w: u32)
    ensures
        same_limits(go_settings(seq!["movestogo"@, crate::text::decimal(w as nat)], 2), SearchLimits { moves_to_go: Some(w), ..default_limits() }),
        same_limits(go_settings(seq!["nodes"@, crate::text::decimal(v as nat)], 2), SearchLimits { nodes: Some(v), ..default_limits() }),
        same_limits(go_settings(seq!["infinite"@], 1), SearchLimits { infinite: true, ..default_limits() }),
{
    reveal_strlit("depth");
    reveal_strlit("movetime");
    reveal_strlit("wtime");
    reveal_strlit("btime");
    reveal_strlit("winc");
    reveal_strlit("binc");
    reveal_strlit("movestogo");
    reveal_strlit("nodes");
    reveal_strlit("infinite");
    assert("depth"@.len() == 5 && "depth"@[0] == 'd');
    assert("movetime"@.len() == 8 && "movetime"@[0] == 'm');
    assert("wtime"@.len() == 5 && "wtime"@[0] == 'w');
    assert("btime"@.len() == 5 && "btime"@[0] == 'b');
    assert("winc"@.len() == 4 && "winc"@[0] == 'w');
    assert("binc"@.len() == 4 && "binc"@[0] == 'b');
    assert("movestogo"@.len() == 9 && "movestogo"@[0] == 'm');
    assert("nodes"@.len() == 5 && "nodes"@[0] == 'n');
    assert("infinite"@.len() == 8 && "infinite"@[0] == 'i');
    assert("movestogo"@ != "depth"@ && "movestogo"@ != "movetime"@ && "movestogo"@ != "wtime"@
        && "movestogo"@ != "btime"@ && "movestogo"@ != "winc"@ && "movestogo"@ != "binc"@);
    assert("nodes"@ != "depth"@ && "nodes"@ != "movetime"@ && "nodes"@ != "wtime"@ && "nodes"@ != "btime"@
        && "nodes"@ != "winc"@ && "nodes"@ != "binc"@ && "nodes"@ != "movestogo"@);
    lemma_keyword_number("movestogo"@, w as nat);
    lemma_keyword_number("nodes"@, v as nat);
    assert(go_settings(seq!["infinite"@], 0) == default_limits());
    assert(go_settings(seq!["infinite"@], 1) == go_step(default_limits(), seq!["infinite"@], 0));
}

/// `go` reads its arguments in order: the limits after the first `k` of
/// them do not depend on what follows, as long as what follows the last of
/// them is no number.
proof fn lemma_go_prefix(args: Seq<Seq<char>>, ext: Seq<Seq<char>>, k: int)
    requires
        0 <= k <= args.len(),
        args.len() < ext.len(),
        forall|i: int| 0 <= i < args.len() ==> ext[i] == #[trigger] args[i],
        unsigned_value(ext[args.len() as int], u64::MAX as nat) is None,
    ensures
        go_settings(ext, k) == go_settings(args, k),
    decreases k,
{
    if k > 0 {
        lemma_go_prefix(args, ext, k - 1);
        assert(number_after(ext, k - 1) == number_after(args, k - 1));
        assert(ext[k - 1] == args[k - 1]);
    }
}

/// Appending a keyword and a number to `go`'s arguments applies that
/// keyword, with that number, to the limits the earlier arguments ask for.
proof fn lemma_go_appends(args: Seq<Seq<char>>, kw: Seq<char>, v: nat)
    requires
        v <= u64::MAX,
        kw.len() > 0,
        'a' <= kw[0] <= 'z',
    ensures
        go_settings(args + seq![kw, crate::text::decimal(v)], args.len() as int + 2)
            == go_step(go_settings(args, args.len() as int), seq![kw, crate::text::decimal(v)], 0),
{
    reveal_strlit("depth");
    reveal_strlit("movetime");
    reveal_strlit("wtime");
    reveal_strlit("btime");
    reveal_strlit("winc");
    reveal_strlit("binc");
    reveal_strlit("movestogo");
    reveal_strlit("nodes");
    reveal_strlit("infinite");
    lemma_number_text(v, u64::MAX as nat);
    let t = crate::text::decimal(v);
    let n = args.len() as int;
    let ext = args + seq![kw, t];
    assert(ext[n] == kw && ext[n + 1] == t);
    assert(!crate::fen::all_digits(kw)) by {
        assert(!('0' <= kw[0] <= '9'));
    }
    assert(kw[0] != '+');
    assert(unsigned_value(kw, u64::MAX as nat) is None);
    lemma_go_prefix(args, ext, n);
    let l = go_settings(args, n);
    assert(number_after(ext, n) == Some(v as u64));
    assert(number_after(seq![kw, t], 0) == Some(v as u64));
    assert(seq![kw, t][0] == kw);
    assert(go_settings(ext, n + 1) == go_step(l, ext, n));
    assert(go_step(l, ext, n) == go_step(l, seq![kw, t], 0));
    assert(t != "depth"@ && t != "movetime"@ && t != "wtime"@ && t != "btime"@ && t != "winc"@);
    assert(t != "binc"@ && t != "movestogo"@ && t != "nodes"@ && t != "infinite"@);
    assert(go_settings(ext, n + 2) == go_step(go_settings(ext, n + 1), ext, n + 1));
}

/// A keyword and a number at the end of `go`'s arguments set that keyword's
/// limit, whatever came before, and change no other limit: so the last
/// `movetime n` wins, and `wtime a btime b` sets both clocks.
pub proof fn lemma_go_last_word_wins(args: Seq<Seq<char>>, v: u64, w: u32)
    ensures
        ({
            let l = go_settings(args, args.len() as int);
            let dv = crate::text::decimal(v as nat);
            let dw = crate::text::decimal(w as nat);
            let n = args.len() as int + 2;
            &&& same_limits(go_settings(args + seq!["depth"@, dw], n), SearchLimits { depth: w, ..l })
            &&& same_limits(go_settings(args + seq!["movetime"@, dv], n), SearchLimits { movetime: Some(v), ..l })
            &&& same_limits(go_settings(args + seq!["wtime"@, dv], n), SearchLimits { time: [Some(v), l.time[1]], ..l })
            &&& same_limits(go_settings(args + seq!["btime"@, dv], n), SearchLimits { time: [l.time[0], Some(v)], ..l })
            &&& same_limits(go_settings(args + seq!["winc"@, dv], n), SearchLimits { increment: [v, l.increment[1]], ..l })
            &&& same_limits(go_settings(args + seq!["binc"@, dv], n), SearchLimits { increment: [l.increment[0], v], ..l })
            &&& same_limits(go_settings(args + seq!["movestogo"@, dw], n), SearchLimits { moves_to_go: Some(w), ..l })
            &&& same_limits(go_settings(args + seq!["nodes"@, dv], n), SearchLimits { nodes: Some(v), ..l })
        }),
{
    reveal_strlit("depth");
    reveal_strlit("movetime");
    reveal_strlit("wtime");
    reveal_strlit("btime");
    reveal_strlit("winc");
    reveal_strlit("binc");
    reveal_strlit("movestogo");
    reveal_strlit("nodes");
    reveal_strlit("infinite");
    assert("depth"@.len() == 5 && "depth"@[0] == 'd');
    assert("movetime"@.len() == 8 && "movetime"@[0] == 'm');
    assert("wtime"@.len() == 5 && "wtime"@[0] == 'w');
    assert("btime"@.len() == 5 && "btime"@[0] == 'b');
    assert("winc"@.len() == 4 && "winc"@[0] == 'w');
    assert("binc"@.len() == 4 && "binc"@[0] == 'b');
    assert("movestogo"@.len() == 9 && "movestogo"@[0] == 'm');
    assert("nodes"@.len() == 5 && "nodes"@[0] == 'n');
    assert("infinite"@.len() == 8 && "infinite"@[0] == 'i');
    assert("movetime"@ != "depth"@);
    assert("wtime"@ != "depth"@);
    assert("wtime"@ != "movetime"@);
    assert("btime"@ != "depth"@);
    assert("btime"@ != "movetime"@);
    assert("btime"@ != "wtime"@);
    assert("winc"@ != "depth"@);
    assert("winc"@ != "movetime"@);
    assert("winc"@ != "wtime"@);
    assert("winc"@ != "btime"@);
    assert("binc"@ != "depth"@);
    assert("binc"@ != "movetime"@);
    assert("binc"@ != "wtime"@);
    assert("binc"@ != "btime"@);
    assert("binc"@ != "winc"@);
    assert("movestogo"@ != "depth"@);
    assert("movestogo"@ != "movetime"@);
    assert("movestogo"@ != "wtime"@);
    assert("movestogo"@ != "btime"@);
    assert("movestogo"@ != "winc"@);
    assert("movestogo"@ != "binc"@);
    assert("nodes"@ != "depth"@);
    assert("nodes"@ != "movetime"@);
    assert("nodes"@ != "wtime"@);
    assert("nodes"@ != "btime"@);
    assert("nodes"@ != "winc"@);
    assert("nodes"@ != "binc"@);
    assert("nodes"@ != "movestogo"@);
    assert("infinite"@ != "depth"@);
    assert("infinite"@ != "movetime"@);
    assert("infinite"@ != "wtime"@);
    assert("infinite"@ != "btime"@);
    assert("infinite"@ != "winc"@);
    assert("infinite"@ != "binc"@);
    assert("infinite"@ != "movestogo"@);
    assert("infinite"@ != "nodes"@);
    lemma_go_appends(args, "depth"@, w as nat);
    lemma_go_appends(args, "movestogo"@, w as nat);
    lemma_go_appends(args, "movetime"@, v as nat);
    lemma_go_appends(args, "wtime"@, v as nat);
    lemma_go_appends(args, "btime"@, v as nat);
    lemma_go_appends(args, "winc"@, v as nat);
    lemma_go_appends(args, "binc"@, v as nat);
    lemma_go_appends(args, "nodes"@, v as nat);
    lemma_number_text(v as nat, u64::MAX as nat);
    lemma_number_text(w as nat, u64::MAX as nat);
}

/// Each `go` keyword followed by a number sets its own limit to that number
/// and leaves every other limit as it was: `depth n`, `movetime n`,
/// `wtime n`, `btime n`, `winc n`, `binc n`, `movestogo n`, `nodes n`; and
/// `infinite` alone asks for an infinite search. With no arguments the
/// limits are the defaults. (`go_limits` returns these limits.)
pub proof fn lemma_go_reads_each_limit(v: u64, w: u32)
    ensures
        same_limits(go_settings(seq![], 0), default_limits()),
        same_limits(go_settings(seq!["depth"@, crate::text::decimal(w as nat)], 2),
            SearchLimits { depth: w, ..default_limits() }),
        same_limits(go_settings(seq!["movetime"@, crate::text::decimal(v as nat)], 2),
            SearchLimits { movetime: Some(v), ..default_limits() }),
        same_limits(go_settings(seq!["wtime"@, crate::text::decimal(v as nat)], 2),
            SearchLimits { time: [Some(v), default_limits().time[1]], ..default_limits() }),
        same_limits(go_settings(seq!["btime"@, crate::text::decimal(v as nat)], 2),
            SearchLimits { time: [default_limits().time[0], Some(v)], ..default_limits() }),
        same_limits(go_settings(seq!["winc"@, crate::text::decimal(v as nat)], 2),
            SearchLimits { increment: [v, default_limits().increment[1]], ..default_limits() }),
        same_limits(go_settings(seq!["binc"@, crate::text::decimal(v as nat)], 2),
            SearchLimits { increment: [default_limits().increment[0], v], ..default_limits() }),
        same_limits(go_settings(seq!["movestogo"@, crate::text::decimal(w as nat)], 2),
            SearchLimits { moves_to_go: Some(w), ..default_limits() }),
        same_limits(go_settings(seq!["nodes"@, crate::text::decimal(v as nat)], 2),
            SearchLimits { nodes: Some(v), ..default_limits() }),
        same_limits(go_settings(seq!["infinite"@], 1), SearchLimits { infinite: true, ..default_limits() }),
{
    lemma_go_depth(w);
    lemma_go_movetime(v);
    lemma_go_clocks(v);
    lemma_go_increments(v);
    lemma_go_counts(v, w);
}

/// Where the word `w` first stands in `args`, if it does.
pub open spec fn index_of_word(args: Seq<Seq<char>>, w: Seq<char>) -> Option<int> {
    if exists|i: int| 0 <= i < args.len() && args[i] == w {
        Some(choose|i: int| 0 <= i < args.len() && args[i] == w && forall|j: int| 0 <= j < i ==> args[j] != w)
    } else {
        None
    }
}

/// Where `moves` stands in the arguments of `position`, or their end.
pub open spec fn moves_at(args: Seq<Seq<char>>) -> int {
    match index_of_word(args, "moves"@) {
        Some(i) => i,
        None => args.len() as int,
    }
}

/// The FEN the arguments of `position` set up, or why there is none.
pub open spec fn setup_fen(args: Seq<Seq<char>>) -> Result<Seq<char>, Seq<char>> {
    let setup = args.subrange(0, moves_at(args));
    if setup.len() == 0 || setup[0] == "startpos"@ {
        Ok(STARTPOS_FEN@)
    } else if setup[0] == "fen"@ {
        Ok(spaced(setup, 1))
    } else {
        Err("unknown position type '"@ + setup[0] + "'"@)
    }
}

/// The moves the arguments of `position` play, in UCI text.
pub open spec fn setup_moves(args: Seq<Seq<char>>) -> Seq<Seq<char>> {
    if moves_at(args) < args.len() {
        args.subrange(moves_at(args) + 1, args.len() as int)
    } else {
        Seq::empty()
    }
}

/// The FEN fields of a state.
pub open spec fn fen_fields(s: PosState) -> FenState {
    FenState {
        board: s.board,
        side: s.side,
        castling: s.castling,
        en_passant: s.en_passant,
        halfmove: s.halfmove,
        fullmove: s.fullmove,
    }
}

/// The state a FEN describes, with nothing played before it.
pub open spec fn fen_base(f: FenState) -> PosState {
    PosState {
        board: f.board,
        side: f.side,
        castling: f.castling,
        en_passant: f.en_passant,
        halfmove: f.halfmove,
        fullmove: f.fullmove,
        hash: 0,
        history: Seq::empty(),
        repetitions: Seq::empty(),
    }
}

/// Two states that agree on everything the rules of play look at.
pub open spec fn same_play(a: PosState, b: PosState) -> bool {
    &&& fen_fields(a) == fen_fields(b)
    &&& a.history.len() == b.history.len()
    &&& a.repetitions.len() == b.repetitions.len()
}

/// The move written `t` can be played from `s`: the clocks have room and a
/// legal move is written that way.
pub open spec fn text_playable(s: PosState, t: Seq<char>) -> bool {
    &&& s.halfmove < 0xfffe
    &&& s.fullmove < 0xfffe
    &&& exists|mv: Move| #[trigger] legal_move(s, mv) && move_text(mv) == t
}

/// Playing the moves written `texts` from `s` leads to `t`, with room on the
/// clocks before each of them.
pub open spec fn plays_texts(s: PosState, texts: Seq<Seq<char>>, t: PosState) -> bool
    decreases texts.len(),
{
    if texts.len() == 0 {
        t == s
    } else {
        &&& s.halfmove < 0xfffe
        &&& s.fullmove < 0xfffe
        &&& exists|mv: Move| #[trigger] legal_move(s, mv) && move_text(mv) == texts[0] && plays_texts(
            make_state(s, mv),
            texts.drop_first(),
            t,
        )
    }
}

/// Playing the moves written `texts` from `s` stops at move `k`: the moves
/// before it can be played, and it cannot.
pub open spec fn stuck_at(s: PosState, texts: Seq<Seq<char>>, k: int) -> bool
    decreases texts.len(),
{
    if texts.len() == 0 || k < 0 {
        false
    } else if k == 0 {
        !text_playable(s, texts[0])
    } else {
        &&& s.halfmove < 0xfffe
        &&& s.fullmove < 0xfffe
        &&& exists|mv: Move| #[trigger] legal_move(s, mv) && move_text(mv) == texts[0] && stuck_at(
            make_state(s, mv),
            texts.drop_first(),
            k - 1,
        )
    }
}

/// What the rules allow depends only on what `same_play` compares.
proof fn lemma_same_play(a: PosState, b: PosState, mv: Move)
    requires
        same_play(a, b),
    ensures
        sane(a) == sane(b),
        legal_move(a, mv) == legal_move(b, mv),
        same_play(make_state(a, mv), make_state(b, mv)),
{
    assert(a.board == b.board && a.side == b.side && a.castling == b.castling && a.en_passant == b.en_passant
        && a.halfmove == b.halfmove && a.fullmove == b.fullmove);
}

proof fn lemma_same_play_stuck(a: PosState, b: PosState, texts: Seq<Seq<char>>, k: int)
    requires
        same_play(a, b),
    ensures
        stuck_at(a, texts, k) == stuck_at(b, texts, k),
    decreases texts.len(),
{
    assert(a.halfmove == b.halfmove && a.fullmove == b.fullmove);
    if texts.len() > 0 && k >= 0 {
        assert forall|mv: Move| legal_move(a, mv) == legal_move(b, mv) by {
            lemma_same_play(a, b, mv);
        }
        if k == 0 {
            if text_playable(a, texts[0]) {
                let mv = choose|mv: Move| #[trigger] legal_move(a, mv) && move_text(mv) == texts[0];
                assert(legal_move(b, mv));
            }
            if text_playable(b, texts[0]) {
                let mv = choose|mv: Move| #[trigger] legal_move(b, mv) && move_text(mv) == texts[0];
                assert(legal_move(a, mv));
            }
        } else {
            if stuck_at(a, texts, k) {
                let mv = choose|mv: Move| #[trigger] legal_move(a, mv) && move_text(mv) == texts[0] && stuck_at(
                    make_state(a, mv),
                    texts.drop_first(),
                    k - 1,
                );
                lemma_same_play(a, b, mv);
                lemma_same_play_stuck(make_state(a, mv), make_state(b, mv), texts.drop_first(), k - 1);
                assert(legal_move(b, mv));
            }
            if stuck_at(b, texts, k) {
                let mv = choose|mv: Move| #[trigger] legal_move(b, mv) && move_text(mv) == texts[0] && stuck_at(
                    make_state(b, mv),
                    texts.drop_first(),
                    k - 1,
                );
                lemma_same_play(a, b, mv);
                lemma_same_play_stuck(make_state(a, mv), make_state(b, mv), texts.drop_first(), k - 1);
                assert(legal_move(a, mv));
            }
        }
    }
}

/// Once every move is played, none got stuck.
proof fn lemma_no_stuck(s: PosState, texts: Seq<Seq<char>>, t: PosState, k: int)
    requires
        sane(s),
        plays_texts(s, texts, t),
    ensures
        !stuck_at(s, texts, k),
    decreases texts.len(),
{
    if texts.len() > 0 && k >= 0 {
        let mv = choose|mv: Move| #[trigger] legal_move(s, mv) && move_text(mv) == texts[0] && plays_texts(
            make_state(s, mv),
            texts.drop_first(),
            t,
        );
        if k > 0 && stuck_at(s, texts, k) {
            let other = choose|m: Move| #[trigger] legal_move(s, m) && move_text(m) == texts[0] && stuck_at(
                make_state(s, m),
                texts.drop_first(),
                k - 1,
            );
            crate::san::lemma_uci_injective(s, mv, other);
            crate::movegen::lemma_sane_after(s, mv);
            lemma_no_stuck(make_state(s, mv), texts.drop_first(), t, k - 1);
        }
    }
}

/// Playing one more move extends a played prefix.
proof fn lemma_plays_extend(s: PosState, texts: Seq<Seq<char>>, j: int, cur: PosState, mv: Move)
    requires
        0 <= j < texts.len(),
        plays_texts(s, texts.subrange(0, j), cur),
        cur.halfmove < 0xfffe,
        cur.fullmove < 0xfffe,
        legal_move(cur, mv),
        move_text(mv) == texts[j],
    ensures
        plays_texts(s, texts.subrange(0, j + 1), make_state(cur, mv)),
    decreases j,
{
    let next = make_state(cur, mv);
    if j == 0 {
        assert(texts.subrange(0, 1).drop_first() =~= Seq::<Seq<char>>::empty());
        assert(plays_texts(next, Seq::<Seq<char>>::empty(), next));
        assert(texts.subrange(0, 1)[0] == texts[0]);
    } else {
        let pre = texts.subrange(0, j);
        let first = choose|m: Move| #[trigger] legal_move(s, m) && move_text(m) == pre[0] && plays_texts(
            make_state(s, m),
            pre.drop_first(),
            cur,
        );
        let rest = texts.drop_first();
        assert(pre.drop_first() =~= rest.subrange(0, j - 1));
        lemma_plays_extend(make_state(s, first), rest, j - 1, cur, mv);
        assert(rest.subrange(0, j) =~= texts.subrange(0, j + 1).drop_first());
        assert(texts.subrange(0, j + 1)[0] == texts[0]);
    }
}

/// A played prefix followed by a move that cannot be played is where the
/// line gets stuck.
proof fn lemma_stuck_chain(s: PosState, texts: Seq<Seq<char>>, j: int, cur: PosState)
    requires
        0 <= j < texts.len(),
        plays_texts(s, texts.subrange(0, j), cur),
        !text_playable(cur, texts[j]),
    ensures
        stuck_at(s, texts, j),
    decreases j,
{
    if j > 0 {
        let pre = texts.subrange(0, j);
        let first = choose|m: Move| #[trigger] legal_move(s, m) && move_text(m) == pre[0] && plays_texts(
            make_state(s, m),
            pre.drop_first(),
            cur,
        );
        let rest = texts.drop_first();
        assert(pre.drop_first() =~= rest.subrange(0, j - 1));
        lemma_stuck_chain(make_state(s, first), rest, j - 1, cur);
    }
}

fn find_word(args: &Vec<Vec<char>>, w: &str) -> (r: Option<usize>)
    ensures
        r matches Some(i) ==> index_of_word(args@.map_values(|a: Vec<char>| a@), w@) == Some(i as int) && i < args@.len(),
        r is None ==> index_of_word(args@.map_values(|a: Vec<char>| a@), w@) is None,
{
    let ghost v = args@.map_values(|a: Vec<char>| a@);
    let want = chars_of(w);
    let mut i: usize = 0;
    while i < args.len()
        invariant
            i <= args@.len(),
            v == args@.map_values(|a: Vec<char>| a@),
            want@ == w@,
            forall|j: int| 0 <= j < i ==> v[j] != w@,
        decreases args@.len() - i,
    {
        assert(v[i as int] == args@[i as int]@);
        if crate::text::chars_eq(&args[i], &want) {
            proof {
                let k = choose|k: int| 0 <= k < v.len() && v[k] == w@ && forall|j: int| 0 <= j < k ==> v[j] != w@;
                if k < i {
                    assert(v[k] != w@);
                }
                if k > i {
                    assert(v[i as int] != w@);
                }
            }
            return Some(i);
        }
        i = i + 1;
    }
    proof {
        if exists|k: int| 0 <= k < v.len() && v[k] == w@ {
            let k = choose|k: int| 0 <= k < v.len() && v[k] == w@;
            assert(v[k] != w@);
        }
    }
    None
}

/// Plays the moves written in `args` from `start` on, each of which must be
/// legal where it is played; says which one is not.
fn play_moves(position: &mut Position, args: &Vec<Vec<char>>, start: usize) -> (r: Result<(), String>)
    requires
        old(position).wf(),
        sane(old(position).state()),
        start <= args@.len(),
    ensures
        final(position).wf(),
        ({
            let texts = args@.map_values(|a: Vec<char>| a@).subrange(start as int, args@.len() as int);
            match r {
                Ok(_) => {
                    &&& sane(final(position).state())
                    &&& plays_texts(old(position).state(), texts, final(position).state())
                },
                Err(e) => exists|k: int| #[trigger] stuck_at(old(position).state(), texts, k) && e@ == "illegal move '"@
                    + texts[k] + "'"@,
            }
        }),
{
    let ghost v = args@.map_values(|a: Vec<char>| a@);
    let ghost texts = v.subrange(start as int, v.len() as int);
    let ghost base = position.state();
    let mut i = start;
    proof {
        assert(texts.subrange(0, 0) =~= Seq::<Seq<char>>::empty());
        assert(plays_texts(base, Seq::<Seq<char>>::empty(), base));
    }
    while i < args.len()
        invariant
            start <= i <= args@.len(),
            v == args@.map_values(|a: Vec<char>| a@),
            texts == v.subrange(start as int, v.len() as int),
            base == old(position).state(),
            position.wf(),
            sane(base),
            sane(position.state()),
            plays_texts(base, texts.subrange(0, i - start), position.state()),
        decreases args@.len() - i,
    {
        let ghost j = i - start;
        let ghost cur = position.state();
        let text = crate::text::string_of(&args[i]);
        assert(text@ == texts[j]);
        if position.halfmove_clock >= 0xfffe || position.fullmove_number >= 0xfffe {
            proof {
                lemma_stuck_chain(base, texts, j, cur);
            }
            return Err(illegal_move_error(&text));
        }
        match position.parse_uci_move(text.as_str()) {
            Some(mv) => {
                proof {
                    crate::movegen::lemma_pseudo_applicable(cur, mv);
                    crate::movegen::lemma_sane_after(cur, mv);
                    lemma_plays_extend(base, texts, j, cur, mv);
                }
                position.make_move(mv);
            },
            None => {
                proof {
                    lemma_stuck_chain(base, texts, j, cur);
                }
                return Err(illegal_move_error(&text));
            },
        }
        i = i + 1;
    }
    proof {
        assert(texts.subrange(0, texts.len() as int) =~= texts);
    }
    Ok(())
}

/// The message for a move that cannot be played.
fn illegal_move_error(text: &String) -> (e: String)
    ensures
        e@ == "illegal move '"@ + text@ + "'"@,
{
    let mut e = String::new();
    push_str(&mut e, "illegal move '");
    push_str(&mut e, text.as_str());
    push_str(&mut e, "'");
    e
}

/// The arguments of `position` describe a position that can be set up: the
/// FEN reads, play can go on from it, and every move can be played in turn.
pub open spec fn setup_succeeds(v: Seq<Seq<char>>) -> bool {
    &&& setup_fen(v) is Ok
    &&& fen_parse(setup_fen(v)->Ok_0) is Ok
    &&& sane(fen_base(fen_parse(setup_fen(v)->Ok_0)->Ok_0))
    &&& !(exists|k: int| #[trigger] stuck_at(fen_base(fen_parse(setup_fen(v)->Ok_0)->Ok_0), setup_moves(v), k))
}

/// Sets up the position a `position` command's arguments describe:
/// `startpos` or `fen <fields>`, then optionally `moves` and moves in UCI
/// form, each of which must be legal where it is played. Says why not when
/// it cannot.
pub fn setup_position(args: &Vec<Vec<char>>) -> (r: Result<Position, String>)
    ensures
        ({
            let v = args@.map_values(|a: Vec<char>| a@);
            let texts = setup_moves(v);
            &&& r is Ok <==> setup_succeeds(v)
            &&& match r {
                Ok(p) => {
                    &&& p.wf()
                    &&& sane(p.state())
                    &&& exists|base: PosState| {
                        &&& fen_parse(setup_fen(v)->Ok_0) == Ok::<FenState, Seq<char>>(fen_fields(base))
                        &&& #[trigger] plays_texts(base, texts, p.state())
                        &&& base.history.len() == 0
                    }
                },
                Err(e) => match setup_fen(v) {
                    Err(x) => e@ == "invalid position: "@ + x,
                    Ok(f) => match fen_parse(f) {
                        Err(x) => e@ == "invalid position: "@ + x,
                        Ok(fs) => if !sane(fen_base(fs)) {
                            e@ == "invalid position: FEN: position cannot be played"@
                        } else {
                            exists|k: int| #[trigger] stuck_at(fen_base(fs), texts, k)
                                && e@ == "illegal move '"@ + texts[k] + "'"@
                        },
                    },
                },
            }
        }),
{
    let ghost v = args@.map_values(|a: Vec<char>| a@);
    let moves_index = match find_word(args, "moves") {
        Some(i) => i,
        None => args.len(),
    };
    assert(moves_index as int == moves_at(v));
    let fen_text: String = if moves_index == 0 || is(&args[0], "startpos") {
        String::from_str(STARTPOS_FEN)
    } else if is(&args[0], "fen") {
        let setup = crate::text::copy_vec_range(args, 0, moves_index);
        let joined = crate::play::join_words(&setup, 1);
        proof {
            assert(setup@.map_values(|a: Vec<char>| a@) =~= v.subrange(0, moves_index as int));
        }
        crate::text::string_of(&joined)
    } else {
        let mut e = String::new();
        push_str(&mut e, "invalid position: ");
        push_str(&mut e, "unknown position type '");
        push_str(&mut e, crate::text::string_of(&args[0]).as_str());
        push_str(&mut e, "'");
        proof {
            assert(v[0] == args@[0]@);
            assert(v.subrange(0, moves_at(v))[0] == v[0]);
        }
        return Err(e);
    };
    proof {
        if moves_index > 0 {
            assert(v[0] == args@[0]@);
            assert(v.subrange(0, moves_at(v))[0] == v[0]);
        }
    }
    assert(setup_fen(v) == Ok::<Seq<char>, Seq<char>>(fen_text@));
    let mut position = match Position::from_fen(fen_text.as_str()) {
        Ok(p) => p,
        Err(err) => {
            let mut e = String::new();
            push_str(&mut e, "invalid position: ");
            push_str(&mut e, err.as_str());
            return Err(e);
        },
    };
    let ghost base = position.state();
    let ghost fs = crate::fen::fen_state_of(&position);
    let ghost texts = setup_moves(v);
    proof {
        assert(fen_parse(fen_text@) == Ok::<FenState, Seq<char>>(fs));
        assert(same_play(base, fen_base(fs)));
        lemma_same_play(base, fen_base(fs), Move(0));
    }
    if !is_sane(&position) {
        return Err(String::from_str("invalid position: FEN: position cannot be played"));
    }
    let start: usize = if moves_index < args.len() {
        moves_index + 1
    } else {
        args.len()
    };
    proof {
        assert(texts =~= v.subrange(start as int, v.len() as int));
    }
    match play_moves(&mut position, args, start) {
        Ok(()) => {
            proof {
                assert forall|k: int| !#[trigger] stuck_at(fen_base(fs), texts, k) by {
                    lemma_no_stuck(base, texts, position.state(), k);
                    lemma_same_play_stuck(base, fen_base(fs), texts, k);
                }
            }
            Ok(position)
        },
        Err(e) => {
            proof {
                let k = choose|k: int| #[trigger] stuck_at(base, texts, k) && e@ == "illegal move '"@ + texts[k] + "'"@;
                lemma_same_play_stuck(base, fen_base(fs), texts, k);
            }
            Err(e)
        },
    }
}

/// A `setoption` request the engine acts on.
pub enum OptionRequest {
    /// Resize the hash table to this many megabytes (already kept in range).
    Hash(usize),
    /// Empty the hash table.
    ClearHash,
    /// A value for the hash size that is not a number: nothing to do.
    Ignored,
    /// An option the engine does not have.
    Unknown(String),
}

/// Where a word equal to `w` up to ASCII case first stands in `args`.
#[verifier::opaque]
pub open spec fn index_of_keyword(args: Seq<Seq<char>>, w: Seq<char>) -> Option<int> {
    if exists|i: int| 0 <= i < args.len() && eq_ignore_ascii_case(args[i], w) {
        Some(choose|i: int| 0 <= i < args.len() && eq_ignore_ascii_case(args[i], w) && forall|j: int| 0 <= j < i ==> !eq_ignore_ascii_case(args[j], w))
    } else {
        None
    }
}

/// The option name of `setoption` arguments: the words after `name` up to
/// `value` (or the end), joined by spaces.
pub open spec fn option_name(args: Seq<Seq<char>>) -> Seq<char> {
    match index_of_keyword(args, "name"@) {
        Some(i) => {
            let end = match index_of_keyword(args, "value"@) {
                Some(j) => j,
                None => args.len() as int,
            };
            spaced(args.subrange(i + 1, end), 0)
        },
        None => Seq::empty(),
    }
}

/// The option value: the words after `value`, joined by spaces.
pub open spec fn option_value(args: Seq<Seq<char>>) -> Seq<char> {
    match index_of_keyword(args, "value"@) {
        Some(j) => spaced(args.subrange(j + 1, args.len() as int), 0),
        None => Seq::empty(),
    }
}

/// `value` does not come before `name`, which the command's layout needs.
pub open spec fn option_in_order(args: Seq<Seq<char>>) -> bool {
    match (index_of_keyword(args, "name"@), index_of_keyword(args, "value"@)) {
        (Some(i), Some(j)) => j > i,
        _ => true,
    }
}

/// What a `setoption` command with arguments `args` asks for.
pub open spec fn option_request(args: Seq<Seq<char>>) -> OptionRequestView {
    let name = lower_text(option_name(args));
    if name == "hash"@ {
        match unsigned_value(trim_end(trim_start(option_value(args))), usize::MAX as nat) {
            Some(mb) => OptionRequestView::Hash(if mb < 1 {
                1
            } else if mb > 4096 {
                4096
            } else {
                mb
            }),
            None => OptionRequestView::Ignored,
        }
    } else if name == "clear hash"@ {
        OptionRequestView::ClearHash
    } else {
        OptionRequestView::Unknown(option_name(args))
    }
}

/// An `OptionRequest` with its text taken by its view.
pub enum OptionRequestView {
    Hash(nat),
    ClearHash,
    Ignored,
    Unknown(Seq<char>),
}

pub open spec fn request_view(r: OptionRequest) -> OptionRequestView {
    match r {
        OptionRequest::Hash(mb) => OptionRequestView::Hash(mb as nat),
        OptionRequest::ClearHash => OptionRequestView::ClearHash,
        OptionRequest::Ignored => OptionRequestView::Ignored,
        OptionRequest::Unknown(n) => OptionRequestView::Unknown(n@),
    }
}

fn find_keyword(args: &Vec<Vec<char>>, w: &str) -> (r: Option<usize>)
    ensures
        r matches Some(i) ==> index_of_keyword(args@.map_values(|a: Vec<char>| a@), w@) == Some(i as int) && i < args@.len(),
        r is None ==> index_of_keyword(args@.map_values(|a: Vec<char>| a@), w@) is None,
{
    proof {
        reveal(index_of_keyword);
    }
    let ghost v = args@.map_values(|a: Vec<char>| a@);
    let want = chars_of(w);
    let mut i: usize = 0;
    while i < args.len()
        invariant
            i <= args@.len(),
            v == args@.map_values(|a: Vec<char>| a@),
            want@ == w@,
            forall|j: int| 0 <= j < i ==> !eq_ignore_ascii_case(v[j], w@),
        decreases args@.len() - i,
    {
        assert(v[i as int] == args@[i as int]@);
        if crate::text::chars_eq_ignore_case(&args[i], &want) {
            proof {
                reveal(index_of_keyword);
                let k = choose|k: int| 0 <= k < v.len() && eq_ignore_ascii_case(v[k], w@) && forall|j: int| 0 <= j < k ==> !eq_ignore_ascii_case(v[j], w@);
                if k < i {
                    assert(!eq_ignore_ascii_case(v[k], w@));
                }
                if k > i {
                    assert(!eq_ignore_ascii_case(v[i as int], w@));
                }
            }
            return Some(i);
        }
        i = i + 1;
    }
    proof {
        if exists|k: int| 0 <= k < v.len() && eq_ignore_ascii_case(v[k], w@) {
            let k = choose|k: int| 0 <= k < v.len() && eq_ignore_ascii_case(v[k], w@);
            assert(!eq_ignore_ascii_case(v[k], w@));
        }
    }
    None
}

/// The option name and value words of `setoption` arguments, or `None`
/// when `value` comes before `name`.
fn option_words(args: &Vec<Vec<char>>) -> (r: Option<(Vec<char>, Vec<char>)>)
    ensures
        r is None <==> !option_in_order(args@.map_values(|a: Vec<char>| a@)),
        r matches Some(nv) ==> nv.0@ == option_name(args@.map_values(|a: Vec<char>| a@))
            && nv.1@ == option_value(args@.map_values(|a: Vec<char>| a@)),
{
    let ghost v = args@.map_values(|a: Vec<char>| a@);
    let name_at = find_keyword(args, "name");
    let value_at = find_keyword(args, "value");
    let name: Vec<char> = match name_at {
        Some(i) => {
            let end = match value_at {
                Some(j) => j,
                None => args.len(),
            };
            assert(i < args.len());
            if end <= i {
                return None;
            }
            let after: usize = i + 1;
            let words = crate::text::copy_vec_range(args, after, end);
            proof {
                assert(words@.map_values(|a: Vec<char>| a@) =~= v.subrange(i + 1, end as int));
            }
            crate::play::join_words(&words, 0)
        },
        None => Vec::new(),
    };
    let value: Vec<char> = match value_at {
        Some(j) => {
            assert(j < args.len());
            let after: usize = j + 1;
            let words = crate::text::copy_vec_range(args, after, args.len());
            proof {
                assert(words@.map_values(|a: Vec<char>| a@) =~= v.subrange(j + 1, v.len() as int));
            }
            crate::play::join_words(&words, 0)
        },
        None => Vec::new(),
    };
    Some((name, value))
}

/// Reads the arguments of `setoption name <id> [value <x>]`: the hash size
/// (kept between 1 and 4096 MB), clearing the hash, or an unknown option.
/// `None` when `value` comes before `name`, which names no option.
pub fn parse_option(args: &Vec<Vec<char>>) -> (r: Option<OptionRequest>)
    ensures
        r is None <==> !option_in_order(args@.map_values(|a: Vec<char>| a@)),
        r matches Some(req) ==> request_view(req) == option_request(args@.map_values(|a: Vec<char>| a@)),
{
    let (name, value) = match option_words(args) {
        Some(nv) => nv,
        None => {
            return None;
        },
    };
    let lowered = crate::play::lower_chars(&name);
    if crate::text::chars_eq(&lowered, &chars_of("hash")) {
        match crate::text::parse_usize_chars(&crate::san::trim_chars(&value)) {
            Some(mb) => Some(OptionRequest::Hash(if mb < 1 {
                1
            } else if mb > 4096 {
                4096
            } else {
                mb
            })),
            None => Some(OptionRequest::Ignored),
        }
    } else if crate::text::chars_eq(&lowered, &chars_of("clear hash")) {
        Some(OptionRequest::ClearHash)
    } else {
        Some(OptionRequest::Unknown(crate::text::string_of(&name)))
    }
}

} // verus!
