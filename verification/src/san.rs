//! Standard Algebraic Notation: `Nf3`, `exd5`, `O-O`, `e8=Q+`.
//!
//! UCI speaks long algebraic (`g1f3`), which is unambiguous but not how people
//! read or write chess. This module converts in both directions for the
//! interactive play mode.
use vstd::prelude::*;
use crate::movegen::{generate_legal_moves, legal_move, pseudo_legal, sane, lemma_pseudo_applicable, lemma_sane_after};
use crate::position::{Position, PosState, make_state, legal_after, attacked_on, king_on, lemma_unmake_after_make};
use crate::types::{Move, PieceType, Square, Color, file_of, rank_of, square_text, move_text, piece_type_upper};
use crate::types::move_flags;
use crate::text::{push_char, eq_ignore_ascii_case, decimal};
use crate::fen::{is_space, char_is_space};

verus! {

/// A position a move can be rendered in: sane, with room on both clocks for
/// the move being looked at.
pub open spec fn san_ready(s: PosState) -> bool {
    &&& sane(s)
    &&& s.halfmove + 1 < 0xffff
    &&& s.fullmove + 1 < 0xffff
}

pub open spec fn file_char(sq: Square) -> char {
    (97 + sq % 8) as char
}

pub open spec fn rank_char(sq: Square) -> char {
    (49 + sq / 8) as char
}

/// Another legal move of the same kind of piece to the same square.
pub open spec fn is_rival(s: PosState, mv: Move, pt: PieceType, other: Move) -> bool {
    &&& legal_move(s, other)
    &&& other.spec_to() == mv.spec_to()
    &&& other.spec_from() != mv.spec_from()
    &&& s.board[other.spec_from() as int] matches Some(p) && p.piece_type == pt
}

/// The smallest origin hint that tells `mv` apart from its rivals: nothing,
/// the file, the rank, or the whole square.
pub open spec fn disambiguation_text(s: PosState, mv: Move, pt: PieceType) -> Seq<char> {
    if !(exists|o: Move| #[trigger] is_rival(s, mv, pt, o)) {
        Seq::empty()
    } else if !(exists|o: Move| #[trigger] is_rival(s, mv, pt, o) && o.spec_from() % 8 == mv.spec_from() % 8) {
        seq![file_char(mv.spec_from())]
    } else if !(exists|o: Move| #[trigger] is_rival(s, mv, pt, o) && o.spec_from() / 8 == mv.spec_from() / 8) {
        seq![rank_char(mv.spec_from())]
    } else {
        square_text(mv.spec_from())
    }
}

/// The SAN of a move made by a piece of type `pt`, without the check mark.
pub open spec fn san_body(s: PosState, mv: Move, pt: PieceType) -> Seq<char> {
    if mv.spec_flags() == 2 {
        seq!['O', '-', 'O']
    } else if mv.spec_flags() == 3 {
        seq!['O', '-', 'O', '-', 'O']
    } else if pt == PieceType::Pawn {
        (if mv.spec_is_capture() {
            seq![file_char(mv.spec_from()), 'x']
        } else {
            Seq::empty()
        }) + square_text(mv.spec_to()) + match mv.spec_promotion_piece() {
            Some(p) => seq!['=', piece_type_upper(p)],
            None => Seq::empty(),
        }
    } else {
        seq![piece_type_upper(pt)] + disambiguation_text(s, mv, pt) + (if mv.spec_is_capture() {
            seq!['x']
        } else {
            Seq::empty()
        }) + square_text(mv.spec_to())
    }
}

/// `+` when the move gives check, `#` when it also leaves no legal reply.
pub open spec fn check_suffix(s: PosState, mv: Move) -> Seq<char> {
    let t = make_state(s, mv);
    if attacked_on(t.board, king_on(t.board, t.side), t.side.spec_flip()) {
        if exists|m: Move| #[trigger] legal_move(t, m) {
            seq!['+']
        } else {
            seq!['#']
        }
    } else {
        Seq::empty()
    }
}

/// The SAN of `mv` in `s`.
#[verifier::opaque]
pub open spec fn san_text(s: PosState, mv: Move) -> Seq<char> {
    match s.board[mv.spec_from() as int] {
        Some(p) => san_body(s, mv, p.piece_type) + check_suffix(s, mv),
        None => move_text(mv),
    }
}

/// Pushes the name of a square.
fn push_square(out: &mut String, sq: Square)
    requires
        sq < 64,
    ensures
        final(out)@ == old(out)@ + square_text(sq),
{
    push_char(out, (97u8 + file_of(sq)) as char);
    push_char(out, (49u8 + rank_of(sq)) as char);
}

/// The smallest origin hint that separates `mv` from other identical-looking
/// moves: nothing, a file, a rank, or the whole square.
fn disambiguation(pos: &mut Position, mv: Move, piece_type: PieceType) -> (r: String)
    requires
        old(pos).wf(),
        san_ready(old(pos).state()),
        legal_move(old(pos).state(), mv),
    ensures
        final(pos).wf(),
        final(pos).state() == old(pos).state(),
        final(pos).keys == old(pos).keys,
        r@ == disambiguation_text(old(pos).state(), mv, piece_type),
{
    let ghost s = pos.state();
    let legal = generate_legal_moves(pos);
    let mut any = false;
    let mut same_file = false;
    let mut same_rank = false;
    let mut i: usize = 0;
    while i < legal.len()
        invariant
            pos.wf(),
            pos.state() == s,
            i <= legal@.len(),
            forall|k: int| 0 <= k < legal@.len() ==> legal_move(s, #[trigger] legal@[k]),
            any <==> exists|k: int| 0 <= k < i && is_rival(s, mv, piece_type, #[trigger] legal@[k]),
            same_file <==> exists|k: int| 0 <= k < i && is_rival(s, mv, piece_type, #[trigger] legal@[k])
                && legal@[k].spec_from() % 8 == mv.spec_from() % 8,
            same_rank <==> exists|k: int| 0 <= k < i && is_rival(s, mv, piece_type, #[trigger] legal@[k])
                && legal@[k].spec_from() / 8 == mv.spec_from() / 8,
        decreases legal@.len() - i,
    {
        let other = legal[i];
        proof {
            crate::position::lemma_move_ranges(other);
            crate::position::lemma_move_ranges(mv);
        }
        let rival = other.to() == mv.to() && other.from() != mv.from() && match pos.piece_at(other.from()) {
            Some(p) => p.piece_type == piece_type,
            None => false,
        };
        if rival {
            any = true;
            if file_of(other.from()) == file_of(mv.from()) {
                same_file = true;
            }
            if rank_of(other.from()) == rank_of(mv.from()) {
                same_rank = true;
            }
        }
        i = i + 1;
    }
    proof {
        assert((exists|o: Move| #[trigger] is_rival(s, mv, piece_type, o)) == any) by {
            if exists|o: Move| #[trigger] is_rival(s, mv, piece_type, o) {
                let o = choose|o: Move| #[trigger] is_rival(s, mv, piece_type, o);
                assert(legal@.contains(o));
            }
        }
        assert((exists|o: Move| #[trigger] is_rival(s, mv, piece_type, o) && o.spec_from() % 8 == mv.spec_from() % 8) == same_file) by {
            if exists|o: Move| #[trigger] is_rival(s, mv, piece_type, o) && o.spec_from() % 8 == mv.spec_from() % 8 {
                let o = choose|o: Move| #[trigger] is_rival(s, mv, piece_type, o) && o.spec_from() % 8 == mv.spec_from() % 8;
                assert(legal@.contains(o));
            }
        }
        assert((exists|o: Move| #[trigger] is_rival(s, mv, piece_type, o) && o.spec_from() / 8 == mv.spec_from() / 8) == same_rank) by {
            if exists|o: Move| #[trigger] is_rival(s, mv, piece_type, o) && o.spec_from() / 8 == mv.spec_from() / 8 {
                let o = choose|o: Move| #[trigger] is_rival(s, mv, piece_type, o) && o.spec_from() / 8 == mv.spec_from() / 8;
                assert(legal@.contains(o));
            }
        }
        crate::position::lemma_move_ranges(mv);
    }
    let mut out = String::new();
    let from = mv.from();
    if !any {
    } else if !same_file {
        push_char(&mut out, (97u8 + file_of(from)) as char);
    } else if !same_rank {
        push_char(&mut out, (49u8 + rank_of(from)) as char);
    } else {
        push_square(&mut out, from);
    }
    out
}

/// Renders `mv` in SAN. `pos` must be the position *before* the move; it is
/// left unchanged.
#[verifier::rlimit(30)]
pub fn to_san(pos: &mut Position, mv: Move) -> (san: String)
    requires
        old(pos).wf(),
        san_ready(old(pos).state()),
        legal_move(old(pos).state(), mv),
    ensures
        final(pos).wf(),
        final(pos).state() == old(pos).state(),
        final(pos).keys == old(pos).keys,
        san@ == san_text(old(pos).state(), mv),
{
    let ghost s = pos.state();
    proof {
        crate::position::lemma_move_ranges(mv);
    }
    let piece = match pos.piece_at(mv.from()) {
        Some(p) => p,
        None => {
            proof {
                reveal(san_text);
            }
            return mv.to_string();
        },
    };
    let mut san = String::new();
    let flags = mv.flags();
    if flags == move_flags::KING_CASTLE {
        push_char(&mut san, 'O');
        push_char(&mut san, '-');
        push_char(&mut san, 'O');
    } else if flags == move_flags::QUEEN_CASTLE {
        push_char(&mut san, 'O');
        push_char(&mut san, '-');
        push_char(&mut san, 'O');
        push_char(&mut san, '-');
        push_char(&mut san, 'O');
    } else if piece.piece_type == PieceType::Pawn {
        // Pawn captures are named by their origin file: exd5.
        if mv.is_capture() {
            push_char(&mut san, (97u8 + file_of(mv.from())) as char);
            push_char(&mut san, 'x');
        }
        push_square(&mut san, mv.to());
        match mv.promotion_piece() {
            Some(promoted) => {
                push_char(&mut san, '=');
                push_char(&mut san, upper_of(promoted));
            },
            None => {},
        }
    } else {
        push_char(&mut san, upper_of(piece.piece_type));
        let hint = disambiguation(pos, mv, piece.piece_type);
        crate::text::push_str(&mut san, hint.as_str());
        if mv.is_capture() {
            push_char(&mut san, 'x');
        }
        push_square(&mut san, mv.to());
    }
    assert(san@ == san_body(s, mv, piece.piece_type));
    let ghost body = san@;
    // Check and mate suffixes are part of the notation.
    proof {
        lemma_pseudo_applicable(s, mv);
        lemma_sane_after(s, mv);
        lemma_unmake_after_make(s, mv);
    }
    pos.make_move(mv);
    let ghost t = pos.state();
    let replies = generate_legal_moves(pos);
    let opponent_has_moves = replies.len() > 0;
    proof {
        if exists|m: Move| #[trigger] legal_move(t, m) {
            let m = choose|m: Move| #[trigger] legal_move(t, m);
            assert(replies@.contains(m));
        }
        if replies.len() > 0 {
            assert(legal_move(t, replies@[0]));
        }
    }
    if pos.in_check() {
        push_char(&mut san, if opponent_has_moves { '+' } else { '#' });
    }
    pos.unmake_move();
    assert(san@ == body + check_suffix(s, mv));
    proof {
        reveal(san_text);
    }
    san
}

/// The upper-case letter of a piece type, as SAN names pieces.
fn upper_of(pt: PieceType) -> (c: char)
    ensures
        c == piece_type_upper(pt),
{
    match pt {
        PieceType::Pawn => 'P',
        PieceType::Knight => 'N',
        PieceType::Bishop => 'B',
        PieceType::Rook => 'R',
        PieceType::Queen => 'Q',
        PieceType::King => 'K',
    }
}

/// `t` without leading white space.
pub open spec fn trim_start(t: Seq<char>) -> Seq<char>
    decreases t.len(),
{
    if t.len() > 0 && is_space(t[0]) {
        trim_start(t.drop_first())
    } else {
        t
    }
}

/// `t` without trailing white space.
pub open spec fn trim_end(t: Seq<char>) -> Seq<char>
    decreases t.len(),
{
    if t.len() > 0 && is_space(t.last()) {
        trim_end(t.drop_last())
    } else {
        t
    }
}

/// What one character of a move text becomes once decoration is dropped.
pub open spec fn norm_char(c: char) -> Seq<char> {
    if c == '+' || c == '#' || c == '!' || c == '?' || c == '=' || c == ' ' || c == '-' {
        Seq::empty()
    } else if c == '0' || c == 'o' {
        // 0-0 is a common way to write castling.
        seq!['O']
    } else {
        seq![c]
    }
}

pub open spec fn norm_chars(t: Seq<char>) -> Seq<char>
    decreases t.len(),
{
    if t.len() == 0 {
        Seq::empty()
    } else {
        norm_chars(t.drop_last()) + norm_char(t.last())
    }
}

/// A move text with its surrounding white space and its decoration gone.
pub open spec fn normalized(t: Seq<char>) -> Seq<char> {
    norm_chars(trim_end(trim_start(t)))
}

proof fn lemma_trim_start_skip(t: Seq<char>, a: int)
    requires
        0 <= a < t.len(),
        is_space(t[a]),
    ensures
        trim_start(t.subrange(a, t.len() as int)) == trim_start(t.subrange(a + 1, t.len() as int)),
{
    let u = t.subrange(a, t.len() as int);
    assert(u.drop_first() == t.subrange(a + 1, t.len() as int));
}

proof fn lemma_trim_end_skip(t: Seq<char>, b: int)
    requires
        0 < b <= t.len(),
        is_space(t[b - 1]),
    ensures
        trim_end(t.subrange(0, b)) == trim_end(t.subrange(0, b - 1)),
{
    let u = t.subrange(0, b);
    assert(u.drop_last() == t.subrange(0, b - 1));
}

/// `t` without trailing white space, as `str::trim_end` leaves it.
pub fn trim_end_chars(t: &Vec<char>) -> (r: Vec<char>)
    ensures
        r@ == trim_end(t@),
{
    let n = t.len();
    let mut b: usize = n;
    proof {
        assert(t@.subrange(0, n as int) == t@);
    }
    while b > 0 && char_is_space(t[b - 1])
        invariant
            n == t@.len(),
            b <= n,
            trim_end(t@) == trim_end(t@.subrange(0, b as int)),
        decreases b,
    {
        proof {
            lemma_trim_end_skip(t@, b as int);
        }
        b = b - 1;
    }
    let ghost core = t@.subrange(0, b as int);
    assert(trim_end(core) == core);
    crate::text::copy_range(t, 0, b)
}

/// `t` without surrounding white space, as `str::trim` leaves it.
pub fn trim_chars(t: &Vec<char>) -> (r: Vec<char>)
    ensures
        r@ == trim_end(trim_start(t@)),
{
    let n = t.len();
    let mut a: usize = 0;
    proof {
        assert(t@.subrange(0, n as int) == t@);
    }
    while a < n && char_is_space(t[a])
        invariant
            n == t@.len(),
            a <= n,
            trim_start(t@) == trim_start(t@.subrange(a as int, n as int)),
        decreases n - a,
    {
        proof {
            lemma_trim_start_skip(t@, a as int);
        }
        a = a + 1;
    }
    let ghost front = t@.subrange(a as int, n as int);
    assert(trim_start(front) == front);
    let rest = crate::text::copy_range(t, a, n);
    trim_end_chars(&rest)
}

/// Strips decoration that carries no information about which move was meant.
fn normalize(text: &str) -> (out: Vec<char>)
    ensures
        out@ == normalized(text@),
{
    let core = trim_chars(&crate::text::chars_of(text));
    let mut out: Vec<char> = Vec::new();
    let mut j: usize = 0;
    proof {
        assert(core@.subrange(0, 0) == Seq::<char>::empty());
    }
    while j < core.len()
        invariant
            j <= core@.len(),
            out@ == norm_chars(core@.subrange(0, j as int)),
        decreases core@.len() - j,
    {
        let c = core[j];
        proof {
            let u = core@.subrange(0, j + 1);
            assert(u.drop_last() == core@.subrange(0, j as int));
            assert(u.last() == c);
        }
        if c == '+' || c == '#' || c == '!' || c == '?' || c == '=' || c == ' ' || c == '-' {
        } else if c == '0' || c == 'o' {
            out.push('O');
        } else {
            out.push(c);
        }
        j = j + 1;
    }
    proof {
        assert(core@.subrange(0, core@.len() as int) == core@);
    }
    out
}

/// `mv` written exactly as `wanted` asks, once decoration is dropped: its SAN
/// or its UCI text.
pub open spec fn exact_match(s: PosState, wanted: Seq<char>, mv: Move) -> bool {
    normalized(san_text(s, mv)) == wanted || move_text(mv) == wanted
}

/// The same, letting ASCII case differ.
pub open spec fn loose_match(s: PosState, wanted: Seq<char>, mv: Move) -> bool {
    eq_ignore_ascii_case(normalized(san_text(s, mv)), wanted) || eq_ignore_ascii_case(move_text(mv), wanted)
}

/// `mv` is a move the text `w` (normalised) may be read as: legal, and
/// written exactly, or else the only legal move written that way up to case.
pub open spec fn parse_accepts(s: PosState, w: Seq<char>, mv: Move) -> bool {
    &&& w.len() > 0
    &&& legal_move(s, mv)
    &&& (exact_match(s, w, mv) || {
        &&& loose_match(s, w, mv)
        &&& forall|m: Move| legal_move(s, m) ==> !#[trigger] exact_match(s, w, m)
        &&& forall|m: Move| legal_move(s, m) && #[trigger] loose_match(s, w, m) ==> m == mv
    })
}

/// The text `w` (normalised) names no move: it is empty, or no legal move is
/// written exactly that way and not exactly one is up to case.
pub open spec fn parse_rejects(s: PosState, w: Seq<char>) -> bool {
    w.len() == 0 || {
        &&& forall|m: Move| legal_move(s, m) ==> !#[trigger] exact_match(s, w, m)
        &&& (forall|m: Move| legal_move(s, m) ==> !#[trigger] loose_match(s, w, m))
            || exists|m1: Move, m2: Move| m1 != m2 && legal_move(s, m1) && legal_move(s, m2)
                && #[trigger] loose_match(s, w, m1) && #[trigger] loose_match(s, w, m2)
    }
}

/// Parses a move written in SAN or in UCI's long algebraic form.
///
/// Rather than implement a SAN grammar, this renders every legal move and
/// looks for a match, which makes accepting sloppy input (missing check marks,
/// `0-0`, wrong case) a matter of normalising both sides the same way. A move
/// that matches exactly wins; one that matches only when case is ignored is
/// taken when it is the only such move.
pub fn parse(pos: &mut Position, text: &str) -> (r: Option<Move>)
    requires
        old(pos).wf(),
        san_ready(old(pos).state()),
    ensures
        final(pos).wf(),
        final(pos).state() == old(pos).state(),
        final(pos).keys == old(pos).keys,
        r matches Some(mv) ==> parse_accepts(old(pos).state(), normalized(text@), mv),
        r is None <==> parse_rejects(old(pos).state(), normalized(text@)),
{
    let ghost s = pos.state();
    let wanted = normalize(text);
    if wanted.len() == 0 {
        return None;
    }
    let legal = generate_legal_moves(pos);
    let mut case_insensitive: Vec<Move> = Vec::new();
    let mut i: usize = 0;
    while i < legal.len()
        invariant
            pos.wf(),
            pos.state() == s,
            pos.keys == old(pos).keys,
            s == old(pos).state(),
            san_ready(s),
            wanted@ == normalized(text@),
            wanted@.len() > 0,
            i <= legal@.len(),
            legal@.no_duplicates(),
            forall|k: int| 0 <= k < legal@.len() ==> legal_move(s, #[trigger] legal@[k]),
            forall|k: int| 0 <= k < i ==> !exact_match(s, wanted@, #[trigger] legal@[k]),
            forall|k: int| 0 <= k < i && loose_match(s, wanted@, #[trigger] legal@[k]) ==> case_insensitive@.contains(legal@[k]),
            forall|j: int| 0 <= j < case_insensitive@.len() ==> exists|k: int| 0 <= k < i && legal@[k] == #[trigger] case_insensitive@[j],
            forall|j: int| 0 <= j < case_insensitive@.len() ==> loose_match(s, wanted@, #[trigger] case_insensitive@[j]),
            forall|a: int, b: int| 0 <= a < b < case_insensitive@.len() ==> #[trigger] case_insensitive@[a] != #[trigger] case_insensitive@[b],
        decreases legal@.len() - i,
    {
        let mv = legal[i];
        let rendered = to_san(pos, mv);
        let san = normalize(rendered.as_str());
        let uci = crate::text::chars_of(mv.to_string().as_str());
        if crate::text::chars_eq(&san, &wanted) || crate::text::chars_eq(&uci, &wanted) {
            proof {
                assert(legal_move(s, legal@[i as int]));
                assert(exact_match(s, wanted@, mv));
            }
            return Some(mv);
        }
        if crate::text::chars_eq_ignore_case(&san, &wanted) || crate::text::chars_eq_ignore_case(&uci, &wanted) {
            let ghost prev = case_insensitive@;
            proof {
                assert forall|j: int| 0 <= j < prev.len() implies #[trigger] prev[j] != mv by {
                    let k = choose|k: int| 0 <= k < i && legal@[k] == prev[j];
                    assert(legal@[k] != legal@[i as int]);
                }
            }
            case_insensitive.push(mv);
            proof {
                assert forall|j: int| 0 <= j < case_insensitive@.len() implies exists|k: int| 0 <= k < i + 1 && legal@[k] == #[trigger] case_insensitive@[j] by {
                    if j < prev.len() {
                        assert(case_insensitive@[j] == prev[j]);
                    } else {
                        assert(legal@[i as int] == case_insensitive@[j]);
                    }
                }
                assert forall|k: int| 0 <= k < i + 1 && loose_match(s, wanted@, #[trigger] legal@[k]) implies case_insensitive@.contains(legal@[k]) by {
                    if k < i {
                        let j = choose|j: int| 0 <= j < prev.len() && prev[j] == legal@[k];
                        assert(case_insensitive@[j] == prev[j]);
                    } else {
                        assert(case_insensitive@[prev.len() as int] == mv);
                    }
                }
            }
        }
        i = i + 1;
    }
    proof {
        assert forall|m: Move| legal_move(s, m) implies !#[trigger] exact_match(s, wanted@, m) by {
            assert(legal@.contains(m));
        }
        assert forall|m: Move| legal_move(s, m) && #[trigger] loose_match(s, wanted@, m) implies case_insensitive@.contains(m) by {
            assert(legal@.contains(m));
        }
    }
    // "nf3" or "E2E4" are only accepted when they can mean one thing.
    if case_insensitive.len() == 1 {
        let only = case_insensitive[0];
        proof {
            let k = choose|k: int| 0 <= k < i && legal@[k] == case_insensitive@[0];
            assert(legal_move(s, legal@[k]));
        }
        Some(only)
    } else {
        proof {
            if case_insensitive@.len() >= 2 {
                let k0 = choose|k: int| 0 <= k < i && legal@[k] == case_insensitive@[0];
                let k1 = choose|k: int| 0 <= k < i && legal@[k] == case_insensitive@[1];
                assert(legal_move(s, legal@[k0]));
                assert(legal_move(s, legal@[k1]));
                assert(case_insensitive@[0] != case_insensitive@[1]);
                assert(loose_match(s, wanted@, case_insensitive@[0]));
                assert(loose_match(s, wanted@, case_insensitive@[1]));
            }
        }
        None
    }
}

/// Whether `mv` can be the next move of a rendered line from `s`: legal, with
/// room left on the clocks.
pub open spec fn line_step(s: PosState, mv: Move) -> bool {
    &&& s.halfmove + 1 < 0xffff
    &&& s.fullmove + 1 < 0xffff
    &&& legal_move(s, mv)
}

/// A line of moves from `s` in SAN with move numbers, such as
/// `1. e4 e5 2. Nf3`, up to the first move that cannot be played. `first`
/// says whether nothing has been written yet.
pub open spec fn line_text(s: PosState, moves: Seq<Move>, first: bool) -> Seq<char>
    decreases moves.len(),
{
    if moves.len() == 0 || !line_step(s, moves[0]) {
        Seq::empty()
    } else {
        let san = san_text(s, moves[0]);
        let part = if s.side == Color::White {
            decimal(s.fullmove as nat) + seq!['.', ' '] + san
        } else if first {
            decimal(s.fullmove as nat) + seq!['.', '.', '.', ' '] + san
        } else {
            san
        };
        (if first {
            Seq::empty()
        } else {
            seq![' ']
        }) + part + line_text(make_state(s, moves[0]), moves.drop_first(), false)
    }
}

/// Whether `list` holds `mv`.
fn holds_move(list: &Vec<Move>, mv: Move) -> (r: bool)
    ensures
        r == list@.contains(mv),
{
    let mut i: usize = 0;
    while i < list.len()
        invariant
            i <= list@.len(),
            forall|k: int| 0 <= k < i ==> list@[k] != mv,
        decreases list@.len() - i,
    {
        if list[i] == mv {
            return true;
        }
        i = i + 1;
    }
    false
}

/// Renders a whole line, e.g. a principal variation, stopping at the first
/// move that cannot be played (a stale line from the table). `pos` is left
/// unchanged.
#[verifier::rlimit(40)]
pub fn line_to_san(pos: &mut Position, moves: &[Move]) -> (line: String)
    requires
        old(pos).wf(),
        sane(old(pos).state()),
    ensures
        final(pos).wf(),
        final(pos).state() == old(pos).state(),
        final(pos).keys == old(pos).keys,
        line@ == line_text(old(pos).state(), moves@, true),
{
    let ghost s0 = pos.state();
    let ghost mut states: Seq<PosState> = seq![s0];
    let mut out = String::new();
    let mut made: usize = 0;
    let mut number: u16 = pos.fullmove_number;
    let mut white_to_move = pos.side_to_move == Color::White;
    let mut i: usize = 0;
    proof {
        assert(moves@.subrange(0, moves@.len() as int) == moves@);
    }
    while i < moves.len()
        invariant_except_break
            out@ + line_text(pos.state(), moves@.subrange(i as int, moves@.len() as int), i == 0)
                == line_text(s0, moves@, true),
        invariant
            pos.wf(),
            pos.keys == old(pos).keys,
            s0 == old(pos).state(),
            i <= moves@.len(),
            made == i,
            states.len() == made + 1,
            states[0] == s0,
            pos.state() == states[made as int],
            sane(pos.state()),
            number == pos.state().fullmove,
            white_to_move == (pos.state().side == Color::White),
            forall|k: int| 0 <= k < made ==> crate::position::can_unmake_state(#[trigger] states[k + 1])
                && crate::position::unmake_state(states[k + 1]) == states[k],
        ensures
            pos.wf(),
            pos.keys == old(pos).keys,
            states.len() == made + 1,
            states[0] == s0,
            pos.state() == states[made as int],
            forall|k: int| 0 <= k < made ==> crate::position::can_unmake_state(#[trigger] states[k + 1])
                && crate::position::unmake_state(states[k + 1]) == states[k],
            out@ == line_text(s0, moves@, true),
        decreases moves@.len() - i,
    {
        let ghost st = pos.state();
        let ghost rest = moves@.subrange(i as int, moves@.len() as int);
        let mv = moves[i];
        if pos.halfmove_clock >= 0xfffe || pos.fullmove_number >= 0xfffe {
            break;
        }
        let legal = generate_legal_moves(pos);
        if !holds_move(&legal, mv) {
            proof {
                assert(!legal_move(st, mv));
            }
            break;
        }
        assert(rest[0] == mv);
        let san = to_san(pos, mv);
        if i > 0 {
            push_char(&mut out, ' ');
        }
        if white_to_move {
            crate::text::push_decimal(&mut out, number as u64);
            push_char(&mut out, '.');
            push_char(&mut out, ' ');
        } else if i == 0 {
            crate::text::push_decimal(&mut out, number as u64);
            push_char(&mut out, '.');
            push_char(&mut out, '.');
            push_char(&mut out, '.');
            push_char(&mut out, ' ');
        }
        crate::text::push_str(&mut out, san.as_str());
        if !white_to_move {
            number = number + 1;
        }
        white_to_move = !white_to_move;
        proof {
            lemma_pseudo_applicable(st, mv);
            lemma_sane_after(st, mv);
            lemma_unmake_after_make(st, mv);
            assert(rest.drop_first() == moves@.subrange(i + 1, moves@.len() as int));
        }
        pos.make_move(mv);
        proof {
            states = states.push(pos.state());
        }
        made = made + 1;
        i = i + 1;
    }
    while made > 0
        invariant
            pos.wf(),
            pos.keys == old(pos).keys,
            states.len() >= made + 1,
            states[0] == s0,
            pos.state() == states[made as int],
            forall|k: int| 0 <= k < states.len() - 1 ==> crate::position::can_unmake_state(#[trigger] states[k + 1])
                && crate::position::unmake_state(states[k + 1]) == states[k],
        decreases made,
    {
        proof {
            assert(crate::position::can_unmake_state(states[(made - 1) + 1]));
        }
        pos.unmake_move();
        made = made - 1;
    }
    out
}

/// What `normalized` keeps of a legal move's SAN: castling as `OO` or
/// `OOO`, and otherwise the SAN without `=` and without the check mark.
pub open spec fn san_key(s: PosState, mv: Move) -> Seq<char> {
    let from = mv.spec_from();
    let to = mv.spec_to();
    if mv.spec_flags() == 2 {
        seq!['O', 'O']
    } else if mv.spec_flags() == 3 {
        seq!['O', 'O', 'O']
    } else {
        let pt = s.board[from as int]->0.piece_type;
        if pt == PieceType::Pawn {
            (if mv.spec_is_capture() {
                seq![file_char(from), 'x']
            } else {
                Seq::empty()
            }) + square_text(to) + match mv.spec_promotion_piece() {
                Some(p) => seq![piece_type_upper(p)],
                None => Seq::empty(),
            }
        } else {
            seq![piece_type_upper(pt)] + disambiguation_text(s, mv, pt) + (if mv.spec_is_capture() {
                seq!['x']
            } else {
                Seq::empty()
            }) + square_text(to)
        }
    }
}

/// A character `normalized` keeps as it is.
pub open spec fn plain(c: char) -> bool {
    norm_char(c) == seq![c]
}

pub open spec fn all_plain(t: Seq<char>) -> bool {
    forall|i: int| 0 <= i < t.len() ==> plain(#[trigger] t[i])
}

proof fn lemma_norm_concat(x: Seq<char>, y: Seq<char>)
    ensures
        norm_chars(x + y) == norm_chars(x) + norm_chars(y),
    decreases y.len(),
{
    if y.len() == 0 {
        assert(x + y =~= x);
        assert(norm_chars(x) + norm_chars(y) =~= norm_chars(x));
    } else {
        lemma_norm_concat(x, y.drop_last());
        assert((x + y).drop_last() =~= x + y.drop_last());
        assert((x + y).last() == y.last());
        assert(norm_chars(x) + norm_chars(y) =~= norm_chars(x) + norm_chars(y.drop_last()) + norm_char(y.last()));
    }
}

proof fn lemma_norm_plain(t: Seq<char>)
    requires
        all_plain(t),
    ensures
        norm_chars(t) == t,
    decreases t.len(),
{
    if t.len() > 0 {
        let d = t.drop_last();
        assert(all_plain(d)) by {
            assert forall|i: int| 0 <= i < d.len() implies plain(#[trigger] d[i]) by {
                assert(d[i] == t[i]);
            }
        }
        lemma_norm_plain(d);
        assert(plain(t[t.len() - 1]));
        assert(d.push(t.last()) =~= t);
    }
}

proof fn lemma_square_plain(sq: Square)
    requires
        sq < 64,
    ensures
        all_plain(square_text(sq)),
        square_text(sq).len() == 2,
        'a' <= square_text(sq)[0] <= 'h',
        '1' <= square_text(sq)[1] <= '8',
{
}

proof fn lemma_norm_single(c: char)
    ensures
        norm_chars(seq![c]) == norm_char(c),
{
    let one = seq![c];
    assert(one.drop_last() =~= Seq::<char>::empty());
    assert(one.last() == c);
    assert(norm_chars(Seq::<char>::empty()) == Seq::<char>::empty());
    assert(norm_chars(one) == norm_chars(one.drop_last()) + norm_char(one.last()));
    assert(Seq::<char>::empty() + norm_char(c) =~= norm_char(c));
}

/// The check mark leaves nothing behind.
proof fn lemma_norm_suffix(s: PosState, mv: Move)
    ensures
        norm_chars(check_suffix(s, mv)) == Seq::<char>::empty(),
{
    lemma_norm_single('+');
    lemma_norm_single('#');
}

proof fn lemma_norm_castle()
    ensures
        norm_chars(seq!['O', '-', 'O']) == seq!['O', 'O'],
        norm_chars(seq!['O', '-', 'O', '-', 'O']) == seq!['O', 'O', 'O'],
{
    lemma_norm_single('O');
    lemma_norm_single('-');
    let o = seq!['O'];
    let d = seq!['-'];
    lemma_norm_concat(o, d);
    assert(norm_chars(o + d) =~= o);
    lemma_norm_concat(o + d, o);
    assert(norm_chars(o + d + o) =~= seq!['O', 'O']);
    lemma_norm_concat(o + d + o, d);
    assert(norm_chars(o + d + o + d) =~= seq!['O', 'O']);
    lemma_norm_concat(o + d + o + d, o);
    assert(seq!['O', '-', 'O'] =~= o + d + o);
    assert(seq!['O', '-', 'O', '-', 'O'] =~= o + d + o + d + o);
}

/// A non-castling legal move starts from a square holding one of the mover's
/// pieces.
proof fn lemma_mover(s: PosState, mv: Move)
    requires
        legal_move(s, mv),
        mv.spec_flags() != 2,
        mv.spec_flags() != 3,
    ensures
        s.board[mv.spec_from() as int] is Some,
        s.board[mv.spec_from() as int]->0.color == s.side,
        mv.spec_from() < 64,
        mv.spec_to() < 64,
{
    crate::position::lemma_move_ranges(mv);
}

/// The body of a pawn move, normalised, is its key.
proof fn lemma_norm_pawn_body(s: PosState, mv: Move)
    requires
        legal_move(s, mv),
        mv.spec_flags() != 2,
        mv.spec_flags() != 3,
        s.board[mv.spec_from() as int]->0.piece_type == PieceType::Pawn,
    ensures
        norm_chars(san_body(s, mv, PieceType::Pawn)) == san_key(s, mv),
        san_body(s, mv, PieceType::Pawn).len() >= 2,
        !is_space(san_body(s, mv, PieceType::Pawn)[0]),
        !is_space(san_body(s, mv, PieceType::Pawn).last()),
{
    lemma_mover(s, mv);
    let from = mv.spec_from();
    let to = mv.spec_to();
    lemma_square_plain(to);
    let head: Seq<char> = if mv.spec_is_capture() { seq![file_char(from), 'x'] } else { Seq::empty() };
    let promo: Seq<char> = match mv.spec_promotion_piece() {
        Some(p) => seq!['=', piece_type_upper(p)],
        None => Seq::empty(),
    };
    let kept: Seq<char> = match mv.spec_promotion_piece() {
        Some(p) => seq![piece_type_upper(p)],
        None => Seq::empty(),
    };
    let front = head + square_text(to);
    assert(san_body(s, mv, PieceType::Pawn) == front + promo);
    assert(san_key(s, mv) == front + kept);
    assert(all_plain(front)) by {
        assert forall|i: int| 0 <= i < front.len() implies plain(#[trigger] front[i]) by {
            if i < head.len() {
                assert(front[i] == head[i]);
            } else {
                assert(front[i] == square_text(to)[i - head.len()]);
            }
        }
    }
    lemma_norm_plain(front);
    lemma_norm_concat(front, promo);
    match mv.spec_promotion_piece() {
        Some(p) => {
            lemma_norm_single('=');
            lemma_norm_single(piece_type_upper(p));
            lemma_norm_concat(seq!['='], seq![piece_type_upper(p)]);
            assert(promo =~= seq!['='] + seq![piece_type_upper(p)]);
            assert(norm_chars(promo) =~= kept);
            assert((front + promo).last() == piece_type_upper(p));
        },
        None => {
            assert(promo.len() == 0);
            assert(front + promo =~= front);
            assert(front + kept =~= front);
            assert(front.last() == square_text(to)[1]);
        },
    }
    assert((front + promo)[0] == front[0]);
}

/// The body of a piece move, normalised, is its key.
proof fn lemma_norm_piece_body(s: PosState, mv: Move, pt: PieceType)
    requires
        legal_move(s, mv),
        mv.spec_flags() != 2,
        mv.spec_flags() != 3,
        pt == s.board[mv.spec_from() as int]->0.piece_type,
        pt != PieceType::Pawn,
    ensures
        norm_chars(san_body(s, mv, pt)) == san_key(s, mv),
        san_body(s, mv, pt).len() >= 2,
        !is_space(san_body(s, mv, pt)[0]),
        !is_space(san_body(s, mv, pt).last()),
{
    lemma_mover(s, mv);
    let from = mv.spec_from();
    let to = mv.spec_to();
    lemma_square_plain(to);
    lemma_square_plain(from);
    let d = disambiguation_text(s, mv, pt);
    assert(all_plain(d));
    let x: Seq<char> = if mv.spec_is_capture() { seq!['x'] } else { Seq::empty() };
    let body = seq![piece_type_upper(pt)] + d + x + square_text(to);
    assert(san_body(s, mv, pt) == body);
    assert(san_key(s, mv) == body);
    assert(all_plain(body)) by {
        assert forall|i: int| 0 <= i < body.len() implies plain(#[trigger] body[i]) by {
            if i == 0 {
            } else if i < 1 + d.len() {
                assert(body[i] == d[i - 1]);
            } else if i < 1 + d.len() + x.len() {
                assert(body[i] == 'x');
            } else {
                assert(body[i] == square_text(to)[i - 1 - d.len() - x.len()]);
            }
        }
    }
    lemma_norm_plain(body);
    assert(body.last() == square_text(to)[1]);
}

/// The SAN of a legal move, normalised, is its key.
pub proof fn lemma_san_key(s: PosState, mv: Move)
    requires
        san_ready(s),
        legal_move(s, mv),
    ensures
        normalized(san_text(s, mv)) == san_key(s, mv),
{
    reveal(san_text);
    crate::position::lemma_move_ranges(mv);
    let from = mv.spec_from();
    let to = mv.spec_to();
    let suffix = check_suffix(s, mv);
    lemma_norm_suffix(s, mv);
    if mv.spec_flags() == 2 || mv.spec_flags() == 3 {
        let home: int = if s.side == crate::types::Color::White { 0 } else { 56 };
        assert(crate::movegen::castle(s, from as int, to as int, mv.spec_flags()));
        assert(s.board[home + 4] is Some);
    }
    assert(s.board[from as int] is Some);
    let pt = s.board[from as int]->0.piece_type;
    let body = san_body(s, mv, pt);
    let t = body + suffix;
    assert(san_text(s, mv) == t);
    if mv.spec_flags() == 2 || mv.spec_flags() == 3 {
        lemma_norm_castle();
    } else if pt == PieceType::Pawn {
        lemma_norm_pawn_body(s, mv);
    } else {
        lemma_norm_piece_body(s, mv, pt);
    }
    assert(body.len() >= 2);
    assert(!is_space(t[0])) by {
        assert(t[0] == body[0]);
    }
    assert(!is_space(t.last())) by {
        if suffix.len() > 0 {
            assert(t.last() == suffix.last());
        } else {
            assert(t.last() == body.last());
        }
    }
    assert(trim_start(t) == t);
    assert(trim_end(t) == t);
    lemma_norm_concat(body, suffix);
    assert(norm_chars(body) + Seq::<char>::empty() =~= norm_chars(body));
}

proof fn lemma_square_text_inj(a: Square, b: Square)
    requires
        a < 64,
        b < 64,
        square_text(a) == square_text(b),
    ensures
        a == b,
{
    assert(square_text(a)[0] == square_text(b)[0]);
    assert(square_text(a)[1] == square_text(b)[1]);
    assert(a % 8 == b % 8);
    assert(a / 8 == b / 8);
}

/// Two legal pawn moves with the same key are the same move.
proof fn lemma_pawn_keys(s: PosState, m1: Move, m2: Move)
    requires
        sane(s),
        legal_move(s, m1),
        legal_move(s, m2),
        m1.spec_flags() != 2,
        m1.spec_flags() != 3,
        m2.spec_flags() != 2,
        m2.spec_flags() != 3,
        s.board[m1.spec_from() as int]->0.piece_type == PieceType::Pawn,
        s.board[m2.spec_from() as int]->0.piece_type == PieceType::Pawn,
        san_key(s, m1) == san_key(s, m2),
    ensures
        m1 == m2,
{
    lemma_mover(s, m1);
    lemma_mover(s, m2);
    crate::position::lemma_move_ranges(m1);
    crate::position::lemma_move_ranges(m2);
    crate::types::lemma_flag_bits(m1.spec_flags());
    crate::types::lemma_flag_bits(m2.spec_flags());
    let k = san_key(s, m1);
    let f1 = m1.spec_from();
    let t1 = m1.spec_to();
    let f2 = m2.spec_from();
    let t2 = m2.spec_to();
    lemma_square_plain(t1);
    lemma_square_plain(t2);
    let h1: Seq<char> = if m1.spec_is_capture() { seq![file_char(f1), 'x'] } else { Seq::empty() };
    let h2: Seq<char> = if m2.spec_is_capture() { seq![file_char(f2), 'x'] } else { Seq::empty() };
    let p1: Seq<char> = match m1.spec_promotion_piece() {
        Some(p) => seq![piece_type_upper(p)],
        None => Seq::empty(),
    };
    let p2: Seq<char> = match m2.spec_promotion_piece() {
        Some(p) => seq![piece_type_upper(p)],
        None => Seq::empty(),
    };
    assert(k == h1 + square_text(t1) + p1);
    assert(k == h2 + square_text(t2) + p2);
    // The capture mark stands right after the origin file.
    if m1.spec_is_capture() {
        assert(k[1] == 'x');
    } else {
        assert(k[1] == square_text(t1)[1]);
    }
    if m2.spec_is_capture() {
        assert(k[1] == 'x');
    } else {
        assert(k[1] == square_text(t2)[1]);
    }
    assert(m1.spec_is_capture() == m2.spec_is_capture());
    let h = h1.len() as int;
    assert(h2.len() == h);
    assert(p1.len() == p2.len());
    assert(k[h] == square_text(t1)[0] && k[h] == square_text(t2)[0]);
    assert(k[h + 1] == square_text(t1)[1] && k[h + 1] == square_text(t2)[1]);
    assert(square_text(t1) =~= square_text(t2));
    lemma_square_text_inj(t1, t2);
    if p1.len() == 1 {
        assert(k[k.len() - 1] == p1[0] && k[k.len() - 1] == p2[0]);
    }
    assert(m1.spec_promotion_piece() == m2.spec_promotion_piece());
    let up: int = if s.side == Color::White { 8 } else { -8 };
    if m1.spec_is_capture() {
        assert(k[0] == file_char(f1) && k[0] == file_char(f2));
        assert(f1 % 8 == f2 % 8);
        assert(f1 / 8 == f2 / 8);
    } else {
        let a = f1 as int;
        let b = f2 as int;
        let t = t1 as int;
        if crate::movegen::pawn_double(s, a, t, m1.spec_flags()) && !crate::movegen::pawn_double(s, b, t, m2.spec_flags()) {
            assert(b == t - up);
            assert(s.board[a + up] is None);
        }
        if crate::movegen::pawn_double(s, b, t, m2.spec_flags()) && !crate::movegen::pawn_double(s, a, t, m1.spec_flags()) {
            assert(a == t - up);
            assert(s.board[b + up] is None);
        }
    }
    assert(f1 == f2);
    crate::movegen::lemma_move_determined(s, m1, m2);
}

/// Two legal moves of pieces other than pawns with the same key are the
/// same move: the origin hint tells rivals apart.
#[verifier::rlimit(30)]
proof fn lemma_piece_keys(s: PosState, m1: Move, m2: Move)
    requires
        sane(s),
        legal_move(s, m1),
        legal_move(s, m2),
        m1.spec_flags() != 2,
        m1.spec_flags() != 3,
        m2.spec_flags() != 2,
        m2.spec_flags() != 3,
        s.board[m1.spec_from() as int]->0.piece_type != PieceType::Pawn,
        s.board[m2.spec_from() as int]->0.piece_type != PieceType::Pawn,
        san_key(s, m1) == san_key(s, m2),
    ensures
        m1 == m2,
{
    lemma_mover(s, m1);
    lemma_mover(s, m2);
    crate::position::lemma_move_ranges(m1);
    crate::position::lemma_move_ranges(m2);
    crate::types::lemma_flag_bits(m1.spec_flags());
    crate::types::lemma_flag_bits(m2.spec_flags());
    let k = san_key(s, m1);
    let f1 = m1.spec_from();
    let t1 = m1.spec_to();
    let f2 = m2.spec_from();
    let t2 = m2.spec_to();
    lemma_square_plain(t1);
    lemma_square_plain(t2);
    lemma_square_plain(f1);
    lemma_square_plain(f2);
    let pt = s.board[f1 as int]->0.piece_type;
    let pt2 = s.board[f2 as int]->0.piece_type;
    assert(k[0] == piece_type_upper(pt) && k[0] == piece_type_upper(pt2));
    assert(pt == pt2);
    let d1 = disambiguation_text(s, m1, pt);
    let d2 = disambiguation_text(s, m2, pt);
    let x1: Seq<char> = if m1.spec_is_capture() { seq!['x'] } else { Seq::empty() };
    let x2: Seq<char> = if m2.spec_is_capture() { seq!['x'] } else { Seq::empty() };
    assert(k == seq![piece_type_upper(pt)] + d1 + x1 + square_text(t1));
    assert(k == seq![piece_type_upper(pt)] + d2 + x2 + square_text(t2));
    let n = k.len() as int;
    assert(k[n - 2] == square_text(t1)[0] && k[n - 2] == square_text(t2)[0]);
    assert(k[n - 1] == square_text(t1)[1] && k[n - 1] == square_text(t2)[1]);
    assert(square_text(t1) =~= square_text(t2));
    lemma_square_text_inj(t1, t2);
    // Off the pawns, a move captures exactly when its target is occupied.
    assert(m1.spec_flags() == m2.spec_flags());
    assert(x1 == x2);
    assert(d1.len() == d2.len());
    assert(d1 =~= d2) by {
        assert forall|i: int| 0 <= i < d1.len() implies d1[i] == d2[i] by {
            assert(k[1 + i] == d1[i]);
            assert(k[1 + i] == d2[i]);
        }
    }
    if f1 != f2 {
        assert(is_rival(s, m1, pt, m2));
        assert(is_rival(s, m2, pt, m1));
        if f1 % 8 == f2 % 8 {
            assert(is_rival(s, m1, pt, m2) && m2.spec_from() % 8 == m1.spec_from() % 8);
            assert(is_rival(s, m2, pt, m1) && m1.spec_from() % 8 == m2.spec_from() % 8);
        }
        if f1 / 8 == f2 / 8 {
            assert(is_rival(s, m1, pt, m2) && m2.spec_from() / 8 == m1.spec_from() / 8);
            assert(is_rival(s, m2, pt, m1) && m1.spec_from() / 8 == m2.spec_from() / 8);
        }
        let a1 = exists|o: Move| #[trigger] is_rival(s, m1, pt, o) && o.spec_from() % 8 == f1 % 8;
        let b1 = exists|o: Move| #[trigger] is_rival(s, m1, pt, o) && o.spec_from() / 8 == f1 / 8;
        let a2 = exists|o: Move| #[trigger] is_rival(s, m2, pt, o) && o.spec_from() % 8 == f2 % 8;
        let b2 = exists|o: Move| #[trigger] is_rival(s, m2, pt, o) && o.spec_from() / 8 == f2 / 8;
        if !a1 {
            assert(d1 == seq![file_char(f1)]);
        } else if !b1 {
            assert(d1 == seq![rank_char(f1)]);
        } else {
            assert(d1 == square_text(f1));
        }
        if !a2 {
            assert(d2 == seq![file_char(f2)]);
        } else if !b2 {
            assert(d2 == seq![rank_char(f2)]);
        } else {
            assert(d2 == square_text(f2));
        }
        if a1 && b1 && a2 && b2 {
            lemma_square_text_inj(f1, f2);
        } else if !a1 && !a2 {
            assert(d1[0] == file_char(f1) && d2[0] == file_char(f2));
            assert(file_char(f1) == file_char(f2));
            assert(f1 % 8 == f2 % 8);
        } else if a1 && !b1 && a2 && !b2 {
            assert(d1[0] == rank_char(f1) && d2[0] == rank_char(f2));
            assert(rank_char(f1) == rank_char(f2));
            assert(f1 / 8 == f2 / 8);
        } else {
            assert(d1.len() != d2.len() || d1[0] != d2[0]);
        }
    }
    crate::movegen::lemma_move_determined(s, m1, m2);
}

/// The first character of a key says what kind of move it is: `O` for
/// castling, a file letter for a pawn, a piece letter otherwise.
proof fn lemma_key_head(s: PosState, mv: Move)
    requires
        legal_move(s, mv),
    ensures
        san_key(s, mv).len() >= 2,
        mv.spec_flags() == 2 || mv.spec_flags() == 3 ==> san_key(s, mv)[0] == 'O',
        mv.spec_flags() != 2 && mv.spec_flags() != 3 && s.board[mv.spec_from() as int]->0.piece_type
            == PieceType::Pawn ==> 'a' <= san_key(s, mv)[0] <= 'h',
        mv.spec_flags() != 2 && mv.spec_flags() != 3 && s.board[mv.spec_from() as int]->0.piece_type
            != PieceType::Pawn ==> 'A' <= san_key(s, mv)[0] <= 'Z' && san_key(s, mv)[0] != 'O',
{
    crate::position::lemma_move_ranges(mv);
    let k = san_key(s, mv);
    let from = mv.spec_from();
    let to = mv.spec_to();
    lemma_square_plain(to);
    if mv.spec_flags() != 2 && mv.spec_flags() != 3 {
        let pt = s.board[from as int]->0.piece_type;
        if pt == PieceType::Pawn {
            if mv.spec_is_capture() {
                assert(k[0] == file_char(from));
            } else {
                assert(k[0] == square_text(to)[0]);
            }
        } else {
            assert(k[0] == piece_type_upper(pt));
        }
    }
}

/// Two legal moves with the same key are the same move.
proof fn lemma_key_injective(s: PosState, m1: Move, m2: Move)
    requires
        sane(s),
        legal_move(s, m1),
        legal_move(s, m2),
        san_key(s, m1) == san_key(s, m2),
    ensures
        m1 == m2,
{
    lemma_key_head(s, m1);
    lemma_key_head(s, m2);
    let castles1 = m1.spec_flags() == 2 || m1.spec_flags() == 3;
    let castles2 = m2.spec_flags() == 2 || m2.spec_flags() == 3;
    if castles1 && castles2 {
        crate::position::lemma_move_ranges(m1);
        crate::position::lemma_move_ranges(m2);
        crate::types::lemma_flag_bits(m1.spec_flags());
        crate::types::lemma_flag_bits(m2.spec_flags());
        assert(m1.spec_flags() == m2.spec_flags()) by {
            assert(san_key(s, m1).len() == san_key(s, m2).len());
        }
        crate::movegen::lemma_move_determined(s, m1, m2);
    } else if !castles1 && !castles2 {
        lemma_mover(s, m1);
        lemma_mover(s, m2);
        let pawn1 = s.board[m1.spec_from() as int]->0.piece_type == PieceType::Pawn;
        let pawn2 = s.board[m2.spec_from() as int]->0.piece_type == PieceType::Pawn;
        if pawn1 && pawn2 {
            lemma_pawn_keys(s, m1, m2);
        } else if !pawn1 && !pawn2 {
            lemma_piece_keys(s, m1, m2);
        }
    }
}

/// What the UCI text of a move that is not the empty move looks like, and
/// that normalising leaves it as it is.
proof fn lemma_uci_text(m: Move)
    requires
        m.0 != 0,
    ensures
        move_text(m).len() == 4 || move_text(m).len() == 5,
        'a' <= move_text(m)[0] <= 'h',
        '1' <= move_text(m)[1] <= '8',
        normalized(move_text(m)) == move_text(m),
{
    crate::position::lemma_move_ranges(m);
    let t = move_text(m);
    let base = square_text(m.spec_from()) + square_text(m.spec_to());
    lemma_square_plain(m.spec_from());
    lemma_square_plain(m.spec_to());
    assert(t[0] == square_text(m.spec_from())[0]);
    assert(t[1] == square_text(m.spec_from())[1]);
    assert(all_plain(t)) by {
        assert forall|i: int| 0 <= i < t.len() implies plain(#[trigger] t[i]) by {
            if i < 2 {
                assert(t[i] == square_text(m.spec_from())[i]);
            } else if i < 4 {
                assert(t[i] == square_text(m.spec_to())[i - 2]);
            }
        }
    }
    assert(!is_space(t.last())) by {
        if t.len() == 4 {
            assert(t.last() == square_text(m.spec_to())[1]);
        }
    }
    assert(trim_start(t) == t);
    assert(trim_end(t) == t);
    lemma_norm_plain(t);
}

/// No two moves of a reachable position share a UCI text, so reading back
/// the text of a legal move (`parse_uci_move`) finds that move.
pub proof fn lemma_uci_injective(s: PosState, m1: Move, m2: Move)
    requires
        sane(s),
        pseudo_legal(s, m1),
        pseudo_legal(s, m2),
        move_text(m1) == move_text(m2),
    ensures
        m1 == m2,
{
    crate::movegen::lemma_none_not_pseudo(s);
    assert(m1.0 != 0 && m2.0 != 0);
    crate::position::lemma_move_ranges(m1);
    crate::position::lemma_move_ranges(m2);
    let t = move_text(m1);
    lemma_square_plain(m1.spec_from());
    lemma_square_plain(m2.spec_from());
    lemma_square_plain(m1.spec_to());
    lemma_square_plain(m2.spec_to());
    assert(t[0] == square_text(m1.spec_from())[0] && t[0] == square_text(m2.spec_from())[0]);
    assert(t[1] == square_text(m1.spec_from())[1] && t[1] == square_text(m2.spec_from())[1]);
    assert(t[2] == square_text(m1.spec_to())[0] && t[2] == square_text(m2.spec_to())[0]);
    assert(t[3] == square_text(m1.spec_to())[1] && t[3] == square_text(m2.spec_to())[1]);
    assert(square_text(m1.spec_from()) =~= square_text(m2.spec_from()));
    assert(square_text(m1.spec_to()) =~= square_text(m2.spec_to()));
    lemma_square_text_inj(m1.spec_from(), m2.spec_from());
    lemma_square_text_inj(m1.spec_to(), m2.spec_to());
    if t.len() == 5 {
        assert(t[4] == crate::types::piece_type_char(m1.spec_promotion_piece()->0));
        assert(t[4] == crate::types::piece_type_char(m2.spec_promotion_piece()->0));
    }
    assert(m1.spec_promotion_piece() == m2.spec_promotion_piece());
    crate::movegen::lemma_move_determined(s, m1, m2);
}

/// No legal move's UCI text is the key of a legal move.
proof fn lemma_uci_not_key(s: PosState, mv: Move, m: Move)
    requires
        legal_move(s, mv),
        pseudo_legal(s, m),
    ensures
        move_text(m) != san_key(s, mv),
{
    crate::movegen::lemma_none_not_pseudo(s);
    assert(m.0 != 0);
    lemma_uci_text(m);
    lemma_key_head(s, mv);
    let k = san_key(s, mv);
    if mv.spec_flags() != 2 && mv.spec_flags() != 3 && s.board[mv.spec_from() as int]->0.piece_type
        == PieceType::Pawn {
        crate::position::lemma_move_ranges(mv);
        lemma_square_plain(mv.spec_to());
        if mv.spec_is_capture() {
            assert(k[1] == 'x');
        } else {
            assert(k.len() <= 3);
        }
    }
}

/// Parsing the SAN that `to_san` writes for a legal move, or the move's UCI
/// text, reads back that move and no other.
pub proof fn lemma_parse_roundtrip(s: PosState, mv: Move)
    requires
        san_ready(s),
        legal_move(s, mv),
    ensures
        forall|m: Move| #[trigger] parse_accepts(s, normalized(san_text(s, mv)), m) <==> m == mv,
        !parse_rejects(s, normalized(san_text(s, mv))),
        forall|m: Move| #[trigger] parse_accepts(s, normalized(move_text(mv)), m) <==> m == mv,
        !parse_rejects(s, normalized(move_text(mv))),
{
    crate::movegen::lemma_none_not_pseudo(s);
    assert(mv.0 != 0);
    lemma_san_key(s, mv);
    lemma_uci_text(mv);
    lemma_key_head(s, mv);
    let w = san_key(s, mv);
    let u = move_text(mv);
    assert forall|m: Move| legal_move(s, m) && #[trigger] exact_match(s, w, m) implies m == mv by {
        lemma_san_key(s, m);
        lemma_uci_not_key(s, mv, m);
        lemma_key_injective(s, m, mv);
    }
    assert forall|m: Move| legal_move(s, m) && #[trigger] exact_match(s, u, m) implies m == mv by {
        lemma_san_key(s, m);
        lemma_uci_not_key(s, m, mv);
        if move_text(m) == u {
            lemma_uci_injective(s, m, mv);
        }
    }
    assert(exact_match(s, w, mv));
    assert(exact_match(s, u, mv));
    assert forall|m: Move| #[trigger] parse_accepts(s, w, m) <==> m == mv by {
        if parse_accepts(s, w, m) && !exact_match(s, w, m) {
            assert(!exact_match(s, w, mv));
        }
    }
    assert forall|m: Move| #[trigger] parse_accepts(s, u, m) <==> m == mv by {
        if parse_accepts(s, u, m) && !exact_match(s, u, m) {
            assert(!exact_match(s, u, mv));
        }
    }
}

/// At most one legal move is written exactly as a given text, in SAN or in
/// UCI form, so what `parse` returns on an exact match is fixed by the text.
pub proof fn lemma_exact_match_unique(s: PosState, w: Seq<char>, m1: Move, m2: Move)
    requires
        san_ready(s),
        legal_move(s, m1),
        legal_move(s, m2),
        exact_match(s, w, m1),
        exact_match(s, w, m2),
    ensures
        m1 == m2,
{
    lemma_san_key(s, m1);
    lemma_san_key(s, m2);
    lemma_uci_not_key(s, m1, m2);
    lemma_uci_not_key(s, m2, m1);
    if san_key(s, m1) == w && san_key(s, m2) == w {
        lemma_key_injective(s, m1, m2);
    } else if move_text(m1) == w && move_text(m2) == w {
        lemma_uci_injective(s, m1, m2);
    }
}

} // verus!
