//! FEN: reading and writing positions as text.
use vstd::prelude::*;
use crate::position::{Position, board_hash, state_zobrist, zobrist_of, ep_key, lemma_xor_basics};
use crate::types::{
    Color, Piece, PieceType, Square, piece_from_char, piece_char, parse_square_spec, parse_square_chars,
    square_text, square_to_string,
};
use crate::text::{push_char, push_str, push_int, push_decimal, chars_of, decimal, int_text};
use crate::zobrist::{self, castling_key, side_key_of};

verus! {

/// Whitespace as `char::is_whitespace` defines it: the Unicode `White_Space`
/// characters.
pub open spec fn is_space(c: char) -> bool {
    ||| ('\t' <= c && c <= '\r')
    ||| c == ' '
    ||| c == '\u{85}'
    ||| c == '\u{a0}'
    ||| c == '\u{1680}'
    ||| ('\u{2000}' <= c && c <= '\u{200a}')
    ||| c == '\u{2028}'
    ||| c == '\u{2029}'
    ||| c == '\u{202f}'
    ||| c == '\u{205f}'
    ||| c == '\u{3000}'
}

pub(crate) fn char_is_space(c: char) -> (r: bool)
    ensures
        r == is_space(c),
{
    ('\t' <= c && c <= '\r') || c == ' ' || c == '\u{85}' || c == '\u{a0}' || c == '\u{1680}'
        || ('\u{2000}' <= c && c <= '\u{200a}') || c == '\u{2028}' || c == '\u{2029}' || c
        == '\u{202f}' || c == '\u{205f}' || c == '\u{3000}'
}

/// The whitespace-separated words of `s[i..]`, given the word `cur` being read
/// and the words `acc` already finished.
pub open spec fn split_from(s: Seq<char>, i: int, cur: Seq<char>, acc: Seq<Seq<char>>) -> Seq<Seq<char>>
    decreases s.len() - i,
{
    if i >= s.len() {
        if cur.len() > 0 {
            acc.push(cur)
        } else {
            acc
        }
    } else if is_space(s[i]) {
        split_from(s, i + 1, seq![], if cur.len() > 0 { acc.push(cur) } else { acc })
    } else {
        split_from(s, i + 1, cur.push(s[i]), acc)
    }
}

/// The whitespace-separated words of `s`, as `str::split_whitespace` yields them.
pub open spec fn words(s: Seq<char>) -> Seq<Seq<char>> {
    split_from(s, 0, seq![], seq![])
}

/// Splits `s` into its whitespace-separated words.
pub fn split_words(s: &Vec<char>) -> (v: Vec<Vec<char>>)
    ensures
        v@.len() == words(s@).len(),
        forall|i: int| 0 <= i < v@.len() ==> (#[trigger] v@[i])@ == words(s@)[i],
{
    let mut out: Vec<Vec<char>> = Vec::new();
    let mut cur: Vec<char> = Vec::new();
    let ghost mut acc: Seq<Seq<char>> = seq![];
    let mut i: usize = 0;
    while i < s.len()
        invariant
            i <= s@.len(),
            out@.len() == acc.len(),
            forall|k: int| 0 <= k < out@.len() ==> (#[trigger] out@[k])@ == acc[k],
            split_from(s@, i as int, cur@, acc) == words(s@),
        decreases s@.len() - i,
    {
        let c = s[i];
        assert(c == s@[i as int]);
        if char_is_space(c) {
            if cur.len() == 0 {
                assert(cur@ =~= seq![]);
            }
            if cur.len() > 0 {
                let w = cur;
                proof {
                    acc = acc.push(w@);
                }
                out.push(w);
                cur = Vec::new();
                assert(cur@ =~= seq![]);
            }
        } else {
            cur.push(c);
        }
        i = i + 1;
    }
    if cur.len() > 0 {
        proof {
            acc = acc.push(cur@);
        }
        out.push(cur);
    }
    out
}

/// The value of a string of decimal digits.
pub open spec fn digits_value(s: Seq<char>) -> nat
    decreases s.len(),
{
    if s.len() == 0 {
        0
    } else {
        digits_value(s.drop_last()) * 10 + (s.last() as nat - 48) as nat
    }
}

pub open spec fn all_digits(s: Seq<char>) -> bool {
    forall|i: int| 0 <= i < s.len() ==> '0' <= #[trigger] s[i] <= '9'
}

/// What `str::parse::<u16>` accepts: an optional `+`, then at least one
/// decimal digit, with a value that fits in 16 bits.
pub open spec fn parse_u16(s: Seq<char>) -> Option<u16> {
    let d = if s.len() > 0 && s[0] == '+' {
        s.drop_first()
    } else {
        s
    };
    if d.len() > 0 && all_digits(d) && digits_value(d) <= 0xffff {
        Some(digits_value(d) as u16)
    } else {
        None
    }
}

pub proof fn lemma_digits_grow(d: Seq<char>, k: int)
    requires
        0 <= k <= d.len(),
        all_digits(d),
    ensures
        digits_value(d.subrange(0, k)) <= digits_value(d),
    decreases d.len() - k,
{
    if k < d.len() {
        lemma_digits_grow(d, k + 1);
        assert(d.subrange(0, k + 1).drop_last() == d.subrange(0, k));
        assert('0' <= d[k] <= '9');
    } else {
        assert(d.subrange(0, k) == d);
    }
}

/// Parses a 16-bit unsigned decimal number.
pub fn parse_number(s: &Vec<char>) -> (r: Option<u16>)
    ensures
        r == parse_u16(s@),
{
    let start: usize = if s.len() > 0 && s[0] == '+' {
        1
    } else {
        0
    };
    let ghost d = if s@.len() > 0 && s@[0] == '+' {
        s@.drop_first()
    } else {
        s@
    };
    assert(d == s@.subrange(start as int, s@.len() as int));
    if start >= s.len() {
        return None;
    }
    let mut value: u32 = 0;
    let mut i: usize = start;
    while i < s.len()
        invariant
            start <= i <= s@.len(),
            d == s@.subrange(start as int, s@.len() as int),
            d == (if s@.len() > 0 && s@[0] == '+' { s@.drop_first() } else { s@ }),
            all_digits(d.subrange(0, i - start)),
            value as nat == digits_value(d.subrange(0, i - start)),
            value <= 0xffff,
        decreases s@.len() - i,
    {
        let c = s[i];
        if !('0' <= c && c <= '9') {
            proof {
                assert(d[i - start] == c);
                assert(!('0' <= d[i - start] <= '9'));
                assert(!all_digits(d));
                assert(parse_u16(s@) is None);
            }
            return None;
        }
        let next = value * 10 + (c as u32 - 48);
        proof {
            let pre = d.subrange(0, i - start);
            let now = d.subrange(0, i + 1 - start);
            assert(now.drop_last() == pre);
            assert(now.last() == c);
            assert(all_digits(now));
            assert(digits_value(now) == digits_value(pre) * 10 + (c as nat - 48));
            assert(digits_value(now) == next as nat);
        }
        if next > 0xffff {
            proof {
                let now = d.subrange(0, i + 1 - start);
                if all_digits(d) {
                    lemma_digits_grow(d, i + 1 - start);
                    assert(digits_value(d) > 0xffff);
                }
                assert(parse_u16(s@) is None);
            }
            return None;
        }
        value = next;
        i = i + 1;
    }
    proof {
        assert(d.subrange(0, i - start) == d);
    }
    Some(value as u16)
}

} // verus!

verus! {

/// The board of `Position::empty`.
pub open spec fn empty_board() -> Seq<Option<Piece>> {
    Seq::new(64, |i: int| None)
}

pub open spec fn quoted(prefix: Seq<char>, w: Seq<char>) -> Seq<char> {
    prefix + w + seq!['\'']
}

pub open spec fn rank_width_error(rank: int, file: int) -> Seq<char> {
    "FEN: rank "@ + int_text(8 - rank) + " has "@ + int_text(file) + " files"@
}

/// Reads the piece-placement field from `p[i..]`, with the cursor on `rank`
/// and `file` and `board` holding what was placed so far.
pub open spec fn placement_scan(
    p: Seq<char>,
    i: int,
    rank: int,
    file: int,
    board: Seq<Option<Piece>>,
) -> Result<Seq<Option<Piece>>, Seq<char>>
    decreases p.len() - i,
{
    if i >= p.len() {
        if rank != 0 || file != 8 {
            Err("FEN: piece placement is incomplete"@)
        } else {
            Ok(board)
        }
    } else {
        let c = p[i];
        if c == '/' {
            if file != 8 {
                Err(rank_width_error(rank, file))
            } else if rank - 1 < 0 {
                Err("FEN: too many ranks"@)
            } else {
                placement_scan(p, i + 1, rank - 1, 0, board)
            }
        } else if '1' <= c && c <= '8' {
            placement_scan(p, i + 1, rank, file + (c as int - 48), board)
        } else {
            match piece_from_char(c) {
                None => Err(quoted("FEN: bad piece '"@, seq![c])),
                Some(pc) => if file > 7 || rank < 0 {
                    Err("FEN: piece placement out of bounds"@)
                } else {
                    placement_scan(p, i + 1, rank, file + 1, board.update(rank * 8 + file, Some(pc)))
                },
            }
        }
    }
}

/// Reads the castling field from `r[i..]`, with `acc` the rights read so far.
pub open spec fn castling_scan(r: Seq<char>, i: int, acc: u8) -> Result<u8, Seq<char>>
    decreases r.len() - i,
{
    if i >= r.len() {
        Ok(acc)
    } else {
        let c = r[i];
        if c == 'K' {
            castling_scan(r, i + 1, acc | 1)
        } else if c == 'Q' {
            castling_scan(r, i + 1, acc | 2)
        } else if c == 'k' {
            castling_scan(r, i + 1, acc | 4)
        } else if c == 'q' {
            castling_scan(r, i + 1, acc | 8)
        } else {
            Err(quoted("FEN: bad castling right '"@, seq![c]))
        }
    }
}

/// The kings of `color` on the first `n` squares.
pub open spec fn king_count(board: Seq<Option<Piece>>, color: Color, n: int) -> int
    decreases n,
{
    if n <= 0 {
        0
    } else {
        king_count(board, color, n - 1) + if board[n - 1] == Some(Piece { color, piece_type: PieceType::King }) {
            1int
        } else {
            0
        }
    }
}

/// Field `i` of a FEN, or `default` when the FEN stops before it.
pub open spec fn field_or(f: Seq<Seq<char>>, i: int, default: Seq<char>) -> Seq<char> {
    if i < f.len() {
        f[i]
    } else {
        default
    }
}

/// What a FEN describes.
pub struct FenState {
    pub board: Seq<Option<Piece>>,
    pub side: Color,
    pub castling: u8,
    pub en_passant: Option<Square>,
    pub halfmove: u16,
    pub fullmove: u16,
}

/// The outcome of reading a FEN: its six fields, the last four optional
/// (`w`, `-`, `-`, `0`, `1` when missing), unreadable clocks taken as their
/// defaults, and exactly one king per side; or the first problem found.
pub open spec fn fen_parse(s: Seq<char>) -> Result<FenState, Seq<char>> {
    let f = words(s);
    if f.len() == 0 {
        Err("FEN: missing piece placement"@)
    } else {
        match placement_scan(f[0], 0, 7, 0, empty_board()) {
            Err(e) => Err(e),
            Ok(board) => {
                let side_word = field_or(f, 1, seq!['w']);
                if side_word != seq!['w'] && side_word != seq!['b'] {
                    Err(quoted("FEN: bad side to move '"@, side_word))
                } else {
                    let rights = field_or(f, 2, seq!['-']);
                    let cr = if rights == seq!['-'] {
                        Ok(0u8)
                    } else {
                        castling_scan(rights, 0, 0)
                    };
                    match cr {
                        Err(e) => Err(e),
                        Ok(castling) => {
                            let ep_word = field_or(f, 3, seq!['-']);
                            if ep_word != seq!['-'] && parse_square_spec(ep_word) is None {
                                Err(quoted("FEN: bad en passant square '"@, ep_word))
                            } else if king_count(board, Color::White, 64) != 1 {
                                Err("FEN: White must have exactly one king"@)
                            } else if king_count(board, Color::Black, 64) != 1 {
                                Err("FEN: Black must have exactly one king"@)
                            } else {
                                Ok(
                                    FenState {
                                        board,
                                        side: if side_word == seq!['w'] {
                                            Color::White
                                        } else {
                                            Color::Black
                                        },
                                        castling,
                                        en_passant: if ep_word == seq!['-'] {
                                            None
                                        } else {
                                            parse_square_spec(ep_word)
                                        },
                                        halfmove: match parse_u16(field_or(f, 4, seq!['0'])) {
                                            Some(v) => v,
                                            None => 0,
                                        },
                                        fullmove: match parse_u16(field_or(f, 5, seq!['1'])) {
                                            Some(v) => v,
                                            None => 1,
                                        },
                                    },
                                )
                            }
                        },
                    }
                }
            },
        }
    }
}

/// The FEN-level view of a position.
pub open spec fn fen_state_of(pos: &Position) -> FenState {
    FenState {
        board: pos.board@,
        side: pos.side_to_move,
        castling: pos.castling,
        en_passant: pos.en_passant,
        halfmove: pos.halfmove_clock,
        fullmove: pos.fullmove_number,
    }
}

fn text(t: &str) -> (s: String)
    ensures
        s@ == t@,
{
    t.to_owned()
}

/// `prefix`, then `w`, then a closing quote.
fn quote(prefix: &str, w: &Vec<char>) -> (s: String)
    ensures
        s@ == quoted(prefix@, w@),
{
    let mut s = text(prefix);
    crate::text::push_chars(&mut s, w);
    push_char(&mut s, '\'');
    s
}

fn is_word(w: &Vec<char>, c: char) -> (r: bool)
    ensures
        r == (w@ == seq![c]),
{
    if w.len() == 1 && w[0] == c {
        assert(w@ =~= seq![c]);
        true
    } else {
        proof {
            if w@ == seq![c] {
                assert(w@.len() == 1);
            }
        }
        false
    }
}

/// Counts the kings of `color` on the board.
fn count_kings(pos: &Position, color: Color) -> (n: usize)
    requires
        pos.wf(),
    ensures
        n == king_count(pos.board@, color, 64),
{
    let mut n: usize = 0;
    let mut s: usize = 0;
    while s < 64
        invariant
            pos.wf(),
            s <= 64,
            n <= s,
            n == king_count(pos.board@, color, s as int),
        decreases 64 - s,
    {
        if pos.board[s] == Some(Piece { color, piece_type: PieceType::King }) {
            n = n + 1;
        }
        s = s + 1;
    }
    n
}

} // verus!

verus! {

/// Two values whose XOR matches that of a value with itself are equal.
proof fn lemma_xor_cancel(h: u64, a: u64, b: u64)
    by (bit_vector)
    requires
        a ^ b == h ^ h,
    ensures
        a == b,
{
}

/// Places the pieces of the placement field `p` on the empty `pos`.
fn read_placement(p: &Vec<char>, pos: &mut Position) -> (r: Result<(), String>)
    requires
        old(pos).wf(),
        forall|s: int| 0 <= s < 64 ==> #[trigger] old(pos).board@[s] is None,
        old(pos).hash == 0,
    ensures
        final(pos).wf(),
        final(pos).keys == old(pos).keys,
        final(pos).history@ == old(pos).history@,
        final(pos).repetitions@ == old(pos).repetitions@,
        final(pos).side_to_move == old(pos).side_to_move,
        final(pos).castling == old(pos).castling,
        final(pos).en_passant == old(pos).en_passant,
        final(pos).halfmove_clock == old(pos).halfmove_clock,
        final(pos).fullmove_number == old(pos).fullmove_number,
        final(pos).hash == board_hash(final(pos).board@, 64),
        match r {
            Ok(_) => placement_scan(p@, 0, 7, 0, empty_board()) == Ok::<Seq<Option<Piece>>, Seq<char>>(final(pos).board@),
            Err(e) => placement_scan(p@, 0, 7, 0, empty_board()) == Err::<Seq<Option<Piece>>, Seq<char>>(e@),
        },
{
    proof {
        assert(pos.board@ =~= empty_board());
        lemma_xor_basics(0, board_hash(pos.board@, 64));
        crate::position::lemma_board_hash_empty(pos.board@, 64);
    }
    let mut rank: i64 = 7;
    let mut file: u128 = 0;
    let mut i: usize = 0;
    while i < p.len()
        invariant
            pos.wf(),
            pos.keys == old(pos).keys,
            pos.history@ == old(pos).history@,
            pos.repetitions@ == old(pos).repetitions@,
            pos.side_to_move == old(pos).side_to_move,
            pos.castling == old(pos).castling,
            pos.en_passant == old(pos).en_passant,
            pos.halfmove_clock == old(pos).halfmove_clock,
            pos.fullmove_number == old(pos).fullmove_number,
            pos.hash == board_hash(pos.board@, 64),
            i <= p@.len(),
            0 <= rank <= 7,
            file <= 8 * i,
            forall|s: int| 0 <= s < 64 && (s / 8 < rank || (s / 8 == rank && s % 8 >= file)) ==> #[trigger] pos.board@[s] is None,
            placement_scan(p@, i as int, rank as int, file as int, pos.board@) == placement_scan(p@, 0, 7, 0, empty_board()),
        decreases p@.len() - i,
    {
        let c = p[i];
        if c == '/' {
            if file != 8 {
                let mut e = text("FEN: rank ");
                push_int(&mut e, 8 - rank);
                push_str(&mut e, " has ");
                crate::text::push_decimal_wide(&mut e, file);
                push_str(&mut e, " files");
                return Err(e);
            }
            if rank - 1 < 0 {
                return Err(text("FEN: too many ranks"));
            }
            rank = rank - 1;
            file = 0;
        } else if '1' <= c && c <= '8' {
            file = file + (c as u128 - 48);
        } else {
            match Piece::from_char(c) {
                None => {
                    let cs = vec![c];
                    assert(cs@ =~= seq![c]);
                    return Err(quote("FEN: bad piece '", &cs));
                },
                Some(piece) => {
                    if file > 7 || rank < 0 {
                        return Err(text("FEN: piece placement out of bounds"));
                    }
                    let sq = crate::types::square_of(file as u8, rank as u8);
                    assert(pos.board@[sq as int] is None);
                    let ghost h0 = pos.hash;
                    let ghost b0 = pos.board@;
                    pos.add_piece(piece, sq);
                    proof {
                        let h1 = pos.hash;
                        let bh1 = board_hash(pos.board@, 64);
                        assert(h1 ^ bh1 == h0 ^ h0);
                        lemma_xor_cancel(h0, h1, bh1);
                    }
                    file = file + 1;
                },
            }
        }
        i = i + 1;
    }
    if rank != 0 || file != 8 {
        return Err(text("FEN: piece placement is incomplete"));
    }
    Ok(())
}

} // verus!

verus! {

/// Reads the castling field (not `-`): each of `KQkq` adds its right.
fn read_castling(r: &Vec<char>) -> (res: Result<u8, String>)
    ensures
        match res {
            Ok(v) => castling_scan(r@, 0, 0) == Ok::<u8, Seq<char>>(v) && v < 16,
            Err(e) => castling_scan(r@, 0, 0) == Err::<u8, Seq<char>>(e@),
        },
{
    let mut acc: u8 = 0;
    let mut i: usize = 0;
    while i < r.len()
        invariant
            i <= r@.len(),
            acc < 16,
            castling_scan(r@, i as int, acc) == castling_scan(r@, 0, 0),
        decreases r@.len() - i,
    {
        let c = r[i];
        let bit: u8 = if c == 'K' {
            1
        } else if c == 'Q' {
            2
        } else if c == 'k' {
            4
        } else if c == 'q' {
            8
        } else {
            let cs = vec![c];
            assert(cs@ =~= seq![c]);
            return Err(quote("FEN: bad castling right '", &cs));
        };
        assert(acc | bit < 16) by (bit_vector)
            requires
                acc < 16,
                bit == 1 || bit == 2 || bit == 4 || bit == 8,
        ;
        acc = acc | bit;
        i = i + 1;
    }
    Ok(acc)
}

impl Position {
    /// Reads a position from Forsyth–Edwards Notation.
    pub fn from_fen(fen: &str) -> (r: Result<Position, String>)
        ensures
            match r {
                Ok(pos) => {
                    &&& pos.wf()
                    &&& pos.hash_ok()
                    &&& pos.history@.len() == 0
                    &&& pos.repetitions@.len() == 0
                    &&& fen_parse(fen@) == Ok::<FenState, Seq<char>>(fen_state_of(&pos))
                },
                Err(e) => fen_parse(fen@) == Err::<FenState, Seq<char>>(e@),
            },
    {
        let cs = chars_of(fen);
        let fields = split_words(&cs);
        let ghost f = words(fen@);
        if fields.len() == 0 {
            return Err(text("FEN: missing piece placement"));
        }
        assert(fields@[0]@ == f[0]);
        let mut pos = Position::empty();
        match read_placement(&fields[0], &mut pos) {
            Err(e) => return Err(e),
            Ok(_) => {},
        }
        let ghost board = pos.board@;
        let w_default = vec!['w'];
        let side_word = if fields.len() > 1 {
            &fields[1]
        } else {
            &w_default
        };
        proof {
            assert(w_default@ =~= seq!['w']);
            assert(side_word@ == field_or(f, 1, seq!['w']));
        }
        let side = if is_word(side_word, 'w') {
            Color::White
        } else if is_word(side_word, 'b') {
            Color::Black
        } else {
            return Err(quote("FEN: bad side to move '", side_word));
        };
        let dash = vec!['-'];
        proof {
            assert(dash@ =~= seq!['-']);
        }
        let rights = if fields.len() > 2 {
            &fields[2]
        } else {
            &dash
        };
        assert(rights@ == field_or(f, 2, seq!['-']));
        let castling: u8 = if is_word(rights, '-') {
            0
        } else {
            match read_castling(rights) {
                Ok(v) => v,
                Err(e) => return Err(e),
            }
        };
        let ep_word = if fields.len() > 3 {
            &fields[3]
        } else {
            &dash
        };
        assert(ep_word@ == field_or(f, 3, seq!['-']));
        let en_passant = if is_word(ep_word, '-') {
            None
        } else {
            match parse_square_chars(ep_word) {
                Some(sq) => Some(sq),
                None => return Err(quote("FEN: bad en passant square '", ep_word)),
            }
        };
        let zero = vec!['0'];
        let one = vec!['1'];
        proof {
            assert(zero@ =~= seq!['0']);
            assert(one@ =~= seq!['1']);
        }
        let half_word = if fields.len() > 4 {
            &fields[4]
        } else {
            &zero
        };
        let full_word = if fields.len() > 5 {
            &fields[5]
        } else {
            &one
        };
        assert(half_word@ == field_or(f, 4, seq!['0']));
        assert(full_word@ == field_or(f, 5, seq!['1']));
        let halfmove = match parse_number(half_word) {
            Some(v) => v,
            None => 0,
        };
        let fullmove = match parse_number(full_word) {
            Some(v) => v,
            None => 1,
        };
        if count_kings(&pos, Color::White) != 1 {
            return Err(text("FEN: White must have exactly one king"));
        }
        if count_kings(&pos, Color::Black) != 1 {
            return Err(text("FEN: Black must have exactly one king"));
        }
        pos.side_to_move = side;
        pos.castling = castling;
        pos.en_passant = en_passant;
        pos.halfmove_clock = halfmove;
        pos.fullmove_number = fullmove;
        let ghost h0 = pos.hash;
        let ck = zobrist::castling(&pos.keys, castling);
        let sk = zobrist::side_key(&pos.keys, side);
        let ek: u64 = match en_passant {
            Some(sq) => zobrist::en_passant(&pos.keys, crate::types::file_of(sq)),
            None => 0,
        };
        pos.hash = pos.hash ^ ck ^ sk ^ ek;
        proof {
            assert(ek == ep_key(en_passant));
            assert(pos.board@ == board);
        }
        Ok(pos)
    }
}

} // verus!

verus! {

/// The digit for a run of `n` empty squares.
pub open spec fn run_digit(n: int) -> Seq<char> {
    if n > 0 {
        seq![(48 + n) as char]
    } else {
        seq![]
    }
}

/// FEN text of rank `r` from file `f` on, `empty` empty squares being pending.
pub open spec fn rank_text(b: Seq<Option<Piece>>, r: int, f: int, empty: int) -> Seq<char>
    decreases 8 - f,
{
    if f >= 8 {
        run_digit(empty)
    } else {
        match b[r * 8 + f] {
            Some(p) => run_digit(empty) + seq![piece_char(p)] + rank_text(b, r, f + 1, 0),
            None => rank_text(b, r, f + 1, empty + 1),
        }
    }
}

/// FEN text of ranks `r` down to the first, separated by `/`.
pub open spec fn placement_text(b: Seq<Option<Piece>>, r: int) -> Seq<char>
    decreases r + 1,
{
    if r < 0 {
        seq![]
    } else {
        rank_text(b, r, 0, 0) + (if r > 0 {
            seq!['/']
        } else {
            seq![]
        }) + placement_text(b, r - 1)
    }
}

pub open spec fn castling_text(c: u8) -> Seq<char> {
    if c == 0 {
        seq!['-']
    } else {
        (if c & 1 != 0 { seq!['K'] } else { seq![] }) + (if c & 2 != 0 { seq!['Q'] } else { seq![] })
            + (if c & 4 != 0 { seq!['k'] } else { seq![] }) + (if c & 8 != 0 { seq!['q'] } else { seq![] })
    }
}

/// The six FEN fields of a position, separated by single spaces.
pub open spec fn fen_text(s: FenState) -> Seq<char> {
    placement_text(s.board, 7) + seq![' '] + seq![
        if s.side == Color::White {
            'w'
        } else {
            'b'
        },
    ] + seq![' '] + castling_text(s.castling) + seq![' '] + match s.en_passant {
        Some(sq) => square_text(sq),
        None => seq!['-'],
    } + seq![' '] + decimal(s.halfmove as nat) + seq![' '] + decimal(s.fullmove as nat)
}

fn push_run(s: &mut String, empty: u8)
    requires
        empty <= 8,
    ensures
        final(s)@ == old(s)@ + run_digit(empty as int),
{
    if empty > 0 {
        push_char(s, (48u8 + empty) as char);
    } else {
        assert(old(s)@ + run_digit(0) =~= old(s)@);
    }
}

/// Appends the FEN text of one rank.
fn push_rank(fen: &mut String, pos: &Position, rank: u8)
    requires
        pos.wf(),
        rank < 8,
    ensures
        final(fen)@ == old(fen)@ + rank_text(pos.board@, rank as int, 0, 0),
{
    let ghost b = pos.board@;
    let mut empty: u8 = 0;
    let mut file: u8 = 0;
    while file < 8
        invariant
            pos.wf(),
            b == pos.board@,
            rank < 8,
            file <= 8,
            empty <= file,
            fen@ + rank_text(b, rank as int, file as int, empty as int) == old(fen)@ + rank_text(b, rank as int, 0, 0),
        decreases 8 - file,
    {
        let sq = crate::types::square_of(file, rank);
        match pos.board[sq as usize] {
            Some(piece) => {
                let ghost before = fen@;
                let ghost e0 = empty as int;
                assert(b[rank * 8 + file] == Some(piece));
                push_run(fen, empty);
                push_char(fen, piece.to_char());
                empty = 0;
                proof {
                    assert(rank_text(b, rank as int, file as int, e0) == run_digit(e0) + seq![piece_char(piece)] + rank_text(b, rank as int, file + 1, 0));
                    assert(fen@ + rank_text(b, rank as int, file + 1, 0) == before + rank_text(b, rank as int, file as int, e0));
                }
            },
            None => {
                empty = empty + 1;
            },
        }
        file = file + 1;
    }
    push_run(fen, empty);
}

/// Appends the piece-placement field.
fn push_placement(fen: &mut String, pos: &Position)
    requires
        pos.wf(),
    ensures
        final(fen)@ == old(fen)@ + placement_text(pos.board@, 7),
{
    let ghost b = pos.board@;
    let mut i: u8 = 0;
    while i < 8
        invariant
            pos.wf(),
            b == pos.board@,
            i <= 8,
            fen@ + placement_text(b, 7 - i) == old(fen)@ + placement_text(b, 7),
        decreases 8 - i,
    {
        let rank: u8 = 7 - i;
        let ghost start = fen@;
        push_rank(fen, pos, rank);
        if rank > 0 {
            push_char(fen, '/');
        }
        assert(placement_text(b, rank as int) == rank_text(b, rank as int, 0, 0) + (if rank > 0 { seq!['/'] } else { seq![] }) + placement_text(b, rank - 1));
        i = i + 1;
    }
    assert(placement_text(b, -1) =~= seq![]);
}

/// Appends the castling field.
fn push_castling(fen: &mut String, c: u8)
    ensures
        final(fen)@ == old(fen)@ + castling_text(c),
{
    if c == 0 {
        push_char(fen, '-');
    } else {
        if c & 1 != 0 {
            push_char(fen, 'K');
        }
        if c & 2 != 0 {
            push_char(fen, 'Q');
        }
        if c & 4 != 0 {
            push_char(fen, 'k');
        }
        if c & 8 != 0 {
            push_char(fen, 'q');
        }
    }
}

impl Position {
    /// Writes the position in Forsyth–Edwards Notation.
    pub fn to_fen(&self) -> (fen: String)
        requires
            self.wf(),
        ensures
            fen@ == fen_text(fen_state_of(self)),
    {
        let mut fen = String::new();
        push_placement(&mut fen, self);
        push_char(&mut fen, ' ');
        push_char(&mut fen, if self.side_to_move == Color::White {
            'w'
        } else {
            'b'
        });
        push_char(&mut fen, ' ');
        push_castling(&mut fen, self.castling);
        push_char(&mut fen, ' ');
        match self.en_passant {
            Some(sq) => {
                let t = square_to_string(sq);
                push_str(&mut fen, t.as_str());
            },
            None => push_char(&mut fen, '-'),
        }
        push_char(&mut fen, ' ');
        push_decimal(&mut fen, self.halfmove_clock as u64);
        push_char(&mut fen, ' ');
        push_decimal(&mut fen, self.fullmove_number as u64);
        fen
    }
}

/// The `i`-th hexadecimal digit of `x` from the top, in lower case.
pub open spec fn hex_digit_of(x: u64, i: int) -> char {
    let d = (x >> ((60 - 4 * i) as u64)) & 15;
    if d < 10 {
        (48 + d) as char
    } else {
        (87 + d) as char
    }
}

/// `x` as sixteen lower-case hexadecimal digits.
pub open spec fn hex16(x: u64) -> Seq<char> {
    Seq::new(16, |i: int| hex_digit_of(x, i))
}

/// The squares of rank `rank` as the board display draws them.
pub open spec fn display_rank(b: Seq<Option<Piece>>, rank: int, file: int) -> Seq<char>
    decreases file,
{
    if file <= 0 {
        Seq::empty()
    } else {
        display_rank(b, rank, file - 1) + seq![' ', match b[rank * 8 + file - 1] {
            Some(p) => crate::types::piece_char(p),
            None => '.',
        }]
    }
}

/// The ranks from the top down to rank `8 - n`.
pub open spec fn display_ranks(b: Seq<Option<Piece>>, n: int) -> Seq<char>
    decreases n,
{
    if n <= 0 {
        Seq::empty()
    } else {
        display_ranks(b, n - 1) + seq![(49 + (8 - n)) as char, ' ', '|'] + display_rank(b, 8 - n, 8) + " |\n"@
    }
}

/// The board, its FEN and its hash key, as the engine prints them.
pub open spec fn display_text(pos: &Position) -> Seq<char> {
    "  +-----------------+\n"@ + display_ranks(pos.board@, 8) + "  +-----------------+\n"@ + "    a b c d e f g h\n"@
        + "FEN: "@ + fen_text(fen_state_of(pos)) + "\n"@ + "Key: "@ + hex16(pos.hash)
}

fn hex_char(d: u64) -> (c: char)
    requires
        d < 16,
    ensures
        c == (if d < 10 { (48 + d) as char } else { (87 + d) as char }),
{
    if d < 10 {
        (48u8 + d as u8) as char
    } else {
        (87u8 + d as u8) as char
    }
}

impl Position {
    /// The board drawn from white's side, then the FEN and the hash key.
    pub fn display(&self) -> (r: String)
        requires
            self.wf(),
        ensures
            r@ == display_text(self),
    {
        let mut out = String::new();
        push_str(&mut out, "  +-----------------+\n");
        let ghost top = out@;
        let mut n: u8 = 0;
        while n < 8
            invariant
                n <= 8,
                self.board@.len() == 64,
                out@ == top + display_ranks(self.board@, n as int),
            decreases 8 - n,
        {
            let rank: u8 = 7 - n;
            push_char(&mut out, (49u8 + rank) as char);
            push_char(&mut out, ' ');
            push_char(&mut out, '|');
            let ghost row = out@;
            let mut file: u8 = 0;
            while file < 8
                invariant
                    file <= 8,
                    rank < 8,
                    self.board@.len() == 64,
                    out@ == row + display_rank(self.board@, rank as int, file as int),
                decreases 8 - file,
            {
                push_char(&mut out, ' ');
                match self.board[(rank * 8 + file) as usize] {
                    Some(p) => push_char(&mut out, p.to_char()),
                    None => push_char(&mut out, '.'),
                }
                file = file + 1;
            }
            push_str(&mut out, " |\n");
            n = n + 1;
        }
        push_str(&mut out, "  +-----------------+\n");
        push_str(&mut out, "    a b c d e f g h\n");
        push_str(&mut out, "FEN: ");
        let fen = self.to_fen();
        push_str(&mut out, fen.as_str());
        push_str(&mut out, "\n");
        push_str(&mut out, "Key: ");
        let ghost head = out@;
        let mut i: u32 = 0;
        while i < 16
            invariant
                i <= 16,
                out@ == head + hex16(self.hash).subrange(0, i as int),
            decreases 16 - i,
        {
            let shift: u64 = (60 - 4 * i) as u64;
            let d: u64 = (self.hash >> shift) & 15;
            proof {
                crate::tt::lemma_masks(0, 0, self.hash >> shift, 0);
            }
            push_char(&mut out, hex_char(d));
            proof {
                assert(hex16(self.hash).subrange(0, i + 1) =~= hex16(self.hash).subrange(0, i as int).push(hex_digit_of(self.hash, i as int)));
            }
            i = i + 1;
        }
        assert(hex16(self.hash).subrange(0, 16) =~= hex16(self.hash));
        out
    }
}

/// Reading a piece placement does not care what came before the cursor.
proof fn lemma_scan_shift(x: Seq<char>, y: Seq<char>, k: int, r: int, f: int, bd: Seq<Option<Piece>>)
    requires
        0 <= k <= y.len(),
    ensures
        placement_scan(x + y, x.len() + k, r, f, bd) == placement_scan(y, k, r, f, bd),
    decreases y.len() - k,
{
    if k < y.len() {
        let c = y[k];
        assert((x + y)[x.len() + k] == c);
        if c == '/' {
            if f == 8 && r - 1 >= 0 {
                lemma_scan_shift(x, y, k + 1, r - 1, 0, bd);
            }
        } else if '1' <= c && c <= '8' {
            lemma_scan_shift(x, y, k + 1, r, f + (c as int - 48), bd);
        } else {
            match piece_from_char(c) {
                Some(pc) => if !(f > 7 || r < 0) {
                    lemma_scan_shift(x, y, k + 1, r, f + 1, bd.update(r * 8 + f, Some(pc)));
                },
                None => {},
            }
        }
    }
}

/// The letter of a piece reads back as that piece.
proof fn lemma_piece_char(p: Piece)
    ensures
        piece_from_char(piece_char(p)) == Some(p),
        !('1' <= piece_char(p) && piece_char(p) <= '8'),
        piece_char(p) != '/',
        !is_space(piece_char(p)),
{
}

/// `bd` with rank `r` taken from `b` from file `from` on.
pub open spec fn rank_filled(bd: Seq<Option<Piece>>, b: Seq<Option<Piece>>, r: int, from: int) -> Seq<Option<Piece>> {
    Seq::new(64, |i: int| if i / 8 == r && i % 8 >= from { b[i] } else { bd[i] })
}

/// Reading the text of rank `r` from file `f`, with `e` empty squares
/// pending, places exactly that rank's pieces and leaves the cursor at the
/// rank's end.
proof fn lemma_rank_scan(b: Seq<Option<Piece>>, r: int, f: int, e: int, rest: Seq<char>, bd: Seq<Option<Piece>>)
    requires
        b.len() == 64,
        bd.len() == 64,
        0 <= r < 8,
        0 <= e <= f <= 8,
        forall|x: int| f - e <= x < f ==> #[trigger] b[r * 8 + x] is None,
        forall|x: int| f - e <= x < 8 ==> #[trigger] bd[r * 8 + x] is None,
    ensures
        placement_scan(rank_text(b, r, f, e) + rest, 0, r, f - e, bd) == placement_scan(rest, 0, r, 8, rank_filled(bd, b, r, f - e)),
    decreases 8 - f,
{
    if f >= 8 {
        assert(rank_filled(bd, b, r, f - e) =~= bd) by {
            assert forall|i: int| 0 <= i < 64 implies #[trigger] rank_filled(bd, b, r, f - e)[i] == bd[i] by {
                if i / 8 == r && i % 8 >= f - e {
                    let x = i % 8;
                    assert(i == r * 8 + x);
                    assert(b[r * 8 + x] is None);
                    assert(bd[r * 8 + x] is None);
                }
            }
        }
        if e > 0 {
            let d = seq![(48 + e) as char];
            assert(rank_text(b, r, f, e) == d);
            lemma_scan_shift(d, rest, 0, r, 8, bd);
            assert(d + rest == (d + rest));
            assert((d + rest)[0] == (48 + e) as char);
        } else {
            assert(rank_text(b, r, f, e) + rest =~= rest);
        }
    } else {
        match b[r * 8 + f] {
            Some(p) => {
                let t2 = seq![piece_char(p)] + rank_text(b, r, f + 1, 0) + rest;
                let bd2 = bd.update(r * 8 + f, Some(p));
                lemma_piece_char(p);
                // The pending empty squares first.
                if e > 0 {
                    let d = seq![(48 + e) as char];
                    assert(rank_text(b, r, f, e) + rest =~= d + t2);
                    lemma_scan_shift(d, t2, 0, r, f, bd);
                    assert((d + t2)[0] == (48 + e) as char);
                    assert(placement_scan(rank_text(b, r, f, e) + rest, 0, r, f - e, bd) == placement_scan(t2, 0, r, f, bd));
                } else {
                    assert(rank_text(b, r, f, e) + rest =~= t2);
                }
                // Then the piece.
                let one = seq![piece_char(p)];
                let tail = rank_text(b, r, f + 1, 0) + rest;
                assert(t2 =~= one + tail);
                lemma_scan_shift(one, tail, 0, r, f + 1, bd2);
                assert(t2[0] == piece_char(p));
                assert(placement_scan(t2, 0, r, f, bd) == placement_scan(tail, 0, r, f + 1, bd2));
                assert forall|x: int| f + 1 <= x < 8 implies #[trigger] bd2[r * 8 + x] is None by {
                    assert(bd[r * 8 + x] is None);
                }
                lemma_rank_scan(b, r, f + 1, 0, rest, bd2);
                assert(rank_filled(bd2, b, r, f + 1) =~= rank_filled(bd, b, r, f - e)) by {
                    assert forall|i: int| 0 <= i < 64 implies #[trigger] rank_filled(bd2, b, r, f + 1)[i] == rank_filled(bd, b, r, f - e)[i] by {
                        if i / 8 == r {
                            let x = i % 8;
                            assert(i == r * 8 + x);
                            if f - e <= x < f {
                                assert(b[r * 8 + x] is None);
                                assert(bd[r * 8 + x] is None);
                            }
                        }
                    }
                }
            },
            None => {
                assert forall|x: int| f - e <= x < f + 1 implies #[trigger] b[r * 8 + x] is None by {
                    if x < f {
                        assert(b[r * 8 + x] is None);
                    }
                }
                lemma_rank_scan(b, r, f + 1, e + 1, rest, bd);
            },
        }
    }
}

/// Reading the placement text of ranks `r` down to the first fills them in.
proof fn lemma_placement_scan(b: Seq<Option<Piece>>, r: int, bd: Seq<Option<Piece>>)
    requires
        b.len() == 64,
        bd.len() == 64,
        0 <= r <= 7,
        forall|i: int| 0 <= i < 64 && i / 8 > r ==> #[trigger] bd[i] == b[i],
        forall|i: int| 0 <= i < 64 && i / 8 <= r ==> #[trigger] bd[i] is None,
    ensures
        placement_scan(placement_text(b, r), 0, r, 0, bd) == Ok::<Seq<Option<Piece>>, Seq<char>>(b),
    decreases r,
{
    let t = rank_text(b, r, 0, 0);
    let bd2 = rank_filled(bd, b, r, 0);
    assert forall|x: int| 0 <= x < 8 implies #[trigger] bd[r * 8 + x] is None by {
        assert((r * 8 + x) / 8 == r);
    }
    if r > 0 {
        let rest = seq!['/'] + placement_text(b, r - 1);
        assert(placement_text(b, r) =~= t + rest);
        lemma_rank_scan(b, r, 0, 0, rest, bd);
        lemma_scan_shift(seq!['/'], placement_text(b, r - 1), 0, r - 1, 0, bd2);
        assert(rest[0] == '/');
        assert forall|i: int| 0 <= i < 64 && i / 8 > r - 1 implies #[trigger] bd2[i] == b[i] by {}
        assert forall|i: int| 0 <= i < 64 && i / 8 <= r - 1 implies #[trigger] bd2[i] is None by {}
        lemma_placement_scan(b, r - 1, bd2);
    } else {
        assert(placement_text(b, -1) == Seq::<char>::empty());
        assert(placement_text(b, r) =~= t + Seq::<char>::empty());
        lemma_rank_scan(b, r, 0, 0, Seq::empty(), bd);
        assert(bd2 =~= b);
    }
}

/// Splitting into words does not care what came before the cursor.
proof fn lemma_split_shift(x: Seq<char>, y: Seq<char>, k: int, cur: Seq<char>, acc: Seq<Seq<char>>)
    requires
        0 <= k <= y.len(),
    ensures
        split_from(x + y, x.len() + k, cur, acc) == split_from(y, k, cur, acc),
    decreases y.len() - k,
{
    if k < y.len() {
        assert((x + y)[x.len() + k] == y[k]);
        if is_space(y[k]) {
            lemma_split_shift(x, y, k + 1, seq![], if cur.len() > 0 { acc.push(cur) } else { acc });
        } else {
            lemma_split_shift(x, y, k + 1, cur.push(y[k]), acc);
        }
    }
}

pub open spec fn no_space(a: Seq<char>) -> bool {
    forall|i: int| 0 <= i < a.len() ==> !is_space(#[trigger] a[i])
}

/// A run of characters without white space joins the word being read.
proof fn lemma_split_word(a: Seq<char>, y: Seq<char>, k: int, cur: Seq<char>, acc: Seq<Seq<char>>)
    requires
        0 <= k <= a.len(),
        no_space(a),
    ensures
        split_from(a + y, k, cur, acc) == split_from(a + y, a.len() as int, cur + a.subrange(k, a.len() as int), acc),
    decreases a.len() - k,
{
    if k < a.len() {
        assert((a + y)[k] == a[k]);
        assert(!is_space(a[k]));
        lemma_split_word(a, y, k + 1, cur.push(a[k]), acc);
        assert(cur.push(a[k]) + a.subrange(k + 1, a.len() as int) =~= cur + a.subrange(k, a.len() as int));
    } else {
        assert(cur + a.subrange(k, a.len() as int) =~= cur);
    }
}

/// A word followed by a space is read as one word.
proof fn lemma_split_field(a: Seq<char>, y: Seq<char>, acc: Seq<Seq<char>>)
    requires
        a.len() > 0,
        no_space(a),
    ensures
        split_from(a + (seq![' '] + y), 0, seq![], acc) == split_from(y, 0, seq![], acc.push(a)),
{
    let s = a + (seq![' '] + y);
    lemma_split_word(a, seq![' '] + y, 0, seq![], acc);
    assert(Seq::<char>::empty() + a.subrange(0, a.len() as int) =~= a);
    assert(s[a.len() as int] == ' ');
    assert(is_space(' '));
    let x = a + seq![' '];
    assert(s =~= x + y);
    lemma_split_shift(x, y, 0, seq![], acc.push(a));
}

/// A last word is read as one word.
proof fn lemma_split_last(a: Seq<char>, acc: Seq<Seq<char>>)
    requires
        a.len() > 0,
        no_space(a),
    ensures
        split_from(a, 0, seq![], acc) == acc.push(a),
{
    lemma_split_word(a, Seq::empty(), 0, seq![], acc);
    assert(a + Seq::<char>::empty() =~= a);
    assert(Seq::<char>::empty() + a.subrange(0, a.len() as int) =~= a);
}

/// The digits of a number read back as the number.
pub(crate) proof fn lemma_decimal_digits(n: nat)
    ensures
        decimal(n).len() > 0,
        all_digits(decimal(n)),
        digits_value(decimal(n)) == n,
        no_space(decimal(n)),
        decimal(n)[0] != '+',
    decreases n,
{
    if n >= 10 {
        lemma_decimal_digits(n / 10);
        let d = decimal(n / 10);
        assert(decimal(n) == d.push(crate::text::digit_char(n % 10)));
        assert(decimal(n).drop_last() == d);
        assert forall|i: int| 0 <= i < decimal(n).len() implies '0' <= #[trigger] decimal(n)[i] <= '9' by {
            if i < d.len() {
                assert(decimal(n)[i] == d[i]);
            }
        }
        assert forall|i: int| 0 <= i < decimal(n).len() implies !is_space(#[trigger] decimal(n)[i]) by {
            if i < d.len() {
                assert(decimal(n)[i] == d[i]);
            }
        }
        assert(decimal(n)[0] == d[0]);
        assert(n == (n / 10) * 10 + n % 10) by (nonlinear_arith);
        assert(decimal(n).last() == crate::text::digit_char(n % 10));
        assert((crate::text::digit_char(n % 10) as nat) == 48 + n % 10);
        assert(digits_value(decimal(n)) == digits_value(d) * 10 + (decimal(n).last() as nat - 48) as nat);
    } else {
        assert(decimal(n) == seq![crate::text::digit_char(n)]);
        assert(decimal(n).drop_last() == Seq::<char>::empty());
        assert((crate::text::digit_char(n) as nat) == 48 + n);
        assert(decimal(n).last() == crate::text::digit_char(n));
        assert(digits_value(decimal(n)) == digits_value(Seq::<char>::empty()) * 10 + (decimal(n).last() as nat - 48) as nat);
    }
}

proof fn lemma_rank_text_chars(b: Seq<Option<Piece>>, r: int, f: int, e: int)
    requires
        0 <= e <= f <= 8,
    ensures
        no_space(rank_text(b, r, f, e)),
    decreases 8 - f,
{
    if f < 8 {
        match b[r * 8 + f] {
            Some(p) => {
                lemma_rank_text_chars(b, r, f + 1, 0);
                lemma_piece_char(p);
                let t = run_digit(e) + seq![piece_char(p)] + rank_text(b, r, f + 1, 0);
                assert forall|i: int| 0 <= i < t.len() implies !is_space(#[trigger] t[i]) by {
                    if i >= run_digit(e).len() + 1 {
                        assert(t[i] == rank_text(b, r, f + 1, 0)[i - run_digit(e).len() - 1]);
                    }
                }
            },
            None => {
                lemma_rank_text_chars(b, r, f + 1, e + 1);
            },
        }
    }
}

proof fn lemma_placement_chars(b: Seq<Option<Piece>>, r: int)
    requires
        -1 <= r <= 7,
    ensures
        no_space(placement_text(b, r)),
        r > 0 ==> placement_text(b, r).len() > 0,
    decreases r + 1,
{
    if r >= 0 {
        lemma_placement_chars(b, r - 1);
        lemma_rank_text_chars(b, r, 0, 0);
        let t = rank_text(b, r, 0, 0);
        let sep: Seq<char> = if r > 0 { seq!['/'] } else { seq![] };
        let all = t + sep + placement_text(b, r - 1);
        assert forall|i: int| 0 <= i < all.len() implies !is_space(#[trigger] all[i]) by {
            if i < t.len() {
                assert(all[i] == t[i]);
            } else if i < t.len() + sep.len() {
                assert(all[i] == '/');
            } else {
                assert(all[i] == placement_text(b, r - 1)[i - t.len() - sep.len()]);
            }
        }
        if r > 0 {
            assert(all.len() >= 1);
        }
    }
}

proof fn lemma_castling_text(c: u8)
    requires
        c < 16,
    ensures
        castling_text(c).len() > 0,
        no_space(castling_text(c)),
        castling_text(c) == seq!['-'] <==> c == 0,
        c != 0 ==> castling_scan(castling_text(c), 0, 0) == Ok::<u8, Seq<char>>(c),
{
    crate::tt::lemma_masks(0, 0, 0, c);
    reveal_with_fuel(castling_scan, 5);
    if c != 0 {
        let t = castling_text(c);
        assert(t.len() > 0);
        assert(t[0] != '-');
    }
}

/// Writing a FEN and reading it back gives the same position: any board
/// with exactly one king a side, any castling rights, en passant square and
/// clocks come back unchanged.
pub proof fn lemma_fen_roundtrip(f: FenState)
    requires
        f.board.len() == 64,
        f.castling < 16,
        f.en_passant matches Some(e) ==> e < 64,
        king_count(f.board, Color::White, 64) == 1,
        king_count(f.board, Color::Black, 64) == 1,
    ensures
        fen_parse(fen_text(f)) == Ok::<FenState, Seq<char>>(f),
{
    let p = placement_text(f.board, 7);
    let side: Seq<char> = seq![if f.side == Color::White { 'w' } else { 'b' }];
    let c = castling_text(f.castling);
    let e: Seq<char> = match f.en_passant {
        Some(sq) => square_text(sq),
        None => seq!['-'],
    };
    let h = decimal(f.halfmove as nat);
    let m = decimal(f.fullmove as nat);
    let sp: Seq<char> = seq![' '];
    assert(fen_text(f) =~= p + (sp + (side + (sp + (c + (sp + (e + (sp + (h + (sp + m))))))))));
    lemma_placement_chars(f.board, 7);
    lemma_castling_text(f.castling);
    lemma_decimal_digits(f.halfmove as nat);
    lemma_decimal_digits(f.fullmove as nat);
    assert(no_space(side));
    assert(no_space(e)) by {
        if let Some(sq) = f.en_passant {
            assert(square_text(sq)[0] == (97 + sq % 8) as char);
            assert(square_text(sq)[1] == (49 + sq / 8) as char);
        }
    }
    lemma_split_field(p, side + (sp + (c + (sp + (e + (sp + (h + (sp + m))))))), seq![]);
    lemma_split_field(side, c + (sp + (e + (sp + (h + (sp + m))))), seq![p]);
    lemma_split_field(c, e + (sp + (h + (sp + m))), seq![p, side]);
    lemma_split_field(e, h + (sp + m), seq![p, side, c]);
    lemma_split_field(h, m, seq![p, side, c, e]);
    lemma_split_last(m, seq![p, side, c, e, h]);
    assert(Seq::<Seq<char>>::empty().push(p) =~= seq![p]);
    assert(seq![p].push(side) =~= seq![p, side]);
    assert(seq![p, side].push(c) =~= seq![p, side, c]);
    assert(seq![p, side, c].push(e) =~= seq![p, side, c, e]);
    assert(seq![p, side, c, e].push(h) =~= seq![p, side, c, e, h]);
    assert(seq![p, side, c, e, h].push(m) =~= seq![p, side, c, e, h, m]);
    let w = words(fen_text(f));
    assert(w == seq![p, side, c, e, h, m]);
    lemma_placement_scan(f.board, 7, empty_board());
    if let Some(sq) = f.en_passant {
        assert(parse_square_spec(square_text(sq)) == Some(sq));
    }
    assert(field_or(w, 4, seq!['0']) == h);
    assert(parse_u16(h) == Some(f.halfmove));
    assert(parse_u16(m) == Some(f.fullmove));
}

} // verus!
