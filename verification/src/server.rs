//! The request and command side of the browser front-end: reading one HTTP
//! request from the bytes received, and running one command from the page
//! against a game, answering with the game state as JSON.
//!
//! Enough HTTP/1.1 to serve three static files and one JSON endpoint; the
//! sockets themselves are the application's business.
use vstd::prelude::*;
use crate::fen::words;
use crate::san::{trim_end, trim_start, trim_end_chars, trim_chars};
use crate::text::{eq_ignore_ascii_case, unsigned_value, chars_of, push_char, push_str, push_int, int_text, decimal};
use crate::play::{Game, EngineMove, Outcome, describe_text, material, move_played, result_view, engine_replied, suggested, taken_back};
use crate::fen::{fen_text, fen_state_of};
use crate::movegen::legal_move;
use crate::position::{attacked_on, king_on};
use crate::types::{Color, Move, move_text};

verus! {

/// The most body bytes a request may carry; the rest are not read.
pub const MAX_BODY: usize = 8192;

/// The text of some bytes when they are valid UTF-8, as `std::str::from_utf8`
/// decodes them.
pub uninterp spec fn utf8_text(bytes: Seq<u8>) -> Option<Seq<char>>;

/// The text of some bytes with every invalid sequence replaced by U+FFFD, as
/// `String::from_utf8_lossy` decodes them.
pub uninterp spec fn lossy_text(bytes: Seq<u8>) -> Seq<char>;

/// ASCII bytes read as characters.
pub open spec fn ascii_chars(bytes: Seq<u8>) -> Seq<char> {
    Seq::new(bytes.len(), |i: int| bytes[i] as char)
}

pub open spec fn all_ascii(bytes: Seq<u8>) -> bool {
    forall|i: int| 0 <= i < bytes.len() ==> #[trigger] bytes[i] < 128
}

/// `std::str::from_utf8`: the bytes as text when they are valid UTF-8. ASCII
/// is read one character per byte; what other bytes decode to is left to the
/// name `utf8_text`.
#[verifier::external_body]
fn decode_utf8(bytes: &[u8]) -> (r: Option<String>)
    ensures
        r is Some <==> utf8_text(bytes@) is Some,
        r is Some ==> utf8_text(bytes@) == Some(r->0@),
        all_ascii(bytes@) ==> r is Some && r->0@ == ascii_chars(bytes@),
{
    match std::str::from_utf8(bytes) {
        Ok(s) => Some(s.to_string()),
        Err(_) => None,
    }
}

/// `String::from_utf8_lossy`: the bytes as text, with U+FFFD for what is not
/// valid UTF-8. ASCII is read one character per byte; the rest is left to
/// the name `lossy_text`.
#[verifier::external_body]
fn decode_lossy(bytes: &[u8]) -> (r: String)
    ensures
        r@ == lossy_text(bytes@),
        all_ascii(bytes@) ==> r@ == ascii_chars(bytes@),
{
    String::from_utf8_lossy(bytes).into_owned()
}

/// Why a request could not be read.
#[derive(Clone, Copy, PartialEq, Eq, Debug, Structural)]
pub enum RequestError {
    /// The body is shorter than the Content-Length header says.
    Truncated,
    /// A line of the head is not valid UTF-8.
    NotText,
}

#[derive(Debug, PartialEq, Eq)]
pub struct Request {
    pub method: String,
    pub path: String,
    pub body: String,
}

/// Where the line starting at `pos` ends: just past its newline, or at the
/// end of the data.
pub open spec fn line_end(d: Seq<u8>, pos: int) -> int
    decreases d.len() - pos,
{
    if pos >= d.len() || pos < 0 {
        d.len() as int
    } else if d[pos] == 10 {
        pos + 1
    } else {
        line_end(d, pos + 1)
    }
}

/// The first `:` in `h`, if any.
pub open spec fn colon_at(h: Seq<char>) -> Option<int> {
    if exists|k: int| 0 <= k < h.len() && h[k] == ':' {
        Some(choose|k: int| 0 <= k < h.len() && h[k] == ':' && forall|j: int| 0 <= j < k ==> h[j] != ':')
    } else {
        None
    }
}

/// The content length after reading the header line `h` (already trimmed at
/// its end): a `Content-Length` header (in any case) sets it to its value,
/// or to 0 when that is not a number.
pub open spec fn length_after(h: Seq<char>, cl: nat) -> nat {
    match colon_at(h) {
        Some(k) => if eq_ignore_ascii_case(h.subrange(0, k), "content-length"@) {
            match unsigned_value(trim_end(trim_start(h.subrange(k + 1, h.len() as int))), usize::MAX as nat) {
                Some(v) => v,
                None => 0,
            }
        } else {
            cl
        },
        None => cl,
    }
}

/// Reads header lines from `pos` until an empty one or the end of the data:
/// where the body starts and the content length, or why a line could not be
/// read.
pub open spec fn scan_headers(d: Seq<u8>, pos: int, cl: nat) -> Result<(int, nat), RequestError>
    decreases d.len() - pos,
{
    if pos >= d.len() || pos < 0 {
        Ok((pos, cl))
    } else {
        let e = line_end(d, pos);
        match utf8_text(d.subrange(pos, e)) {
            None => Err(RequestError::NotText),
            Some(line) => {
                let h = trim_end(line);
                if h.len() == 0 {
                    Ok((e, cl))
                } else if e <= pos || e > d.len() {
                    Ok((e, cl))
                } else {
                    scan_headers(d, e, length_after(h, cl))
                }
            },
        }
    }
}

/// What one request read from `d` is: nothing when the data is empty or the
/// request line has no method and path; otherwise the method, the path and
/// the body (at most `MAX_BODY` bytes of what Content-Length announces).
pub open spec fn request_of(d: Seq<u8>) -> Result<Option<(Seq<char>, Seq<char>, Seq<char>)>, RequestError> {
    if d.len() == 0 {
        Ok(None)
    } else {
        let e = line_end(d, 0);
        match utf8_text(d.subrange(0, e)) {
            None => Err(RequestError::NotText),
            Some(line) => {
                let w = words(line);
                if w.len() < 2 {
                    Ok(None)
                } else {
                    match scan_headers(d, e, 0) {
                        Err(x) => Err(x),
                        Ok((p, cl)) => {
                            let n = if cl < MAX_BODY {
                                cl as int
                            } else {
                                MAX_BODY as int
                            };
                            if p + n > d.len() {
                                Err(RequestError::Truncated)
                            } else {
                                Ok(Some((w[0], w[1], lossy_text(d.subrange(p, p + n)))))
                            }
                        },
                    }
                }
            },
        }
    }
}

proof fn lemma_line_end(d: Seq<u8>, pos: int)
    requires
        0 <= pos <= d.len(),
    ensures
        pos <= line_end(d, pos) <= d.len(),
        pos < d.len() ==> pos < line_end(d, pos),
    decreases d.len() - pos,
{
    if pos < d.len() && d[pos] != 10 {
        lemma_line_end(d, pos + 1);
    }
}

/// Where the line starting at `pos` ends.
fn find_line_end(data: &[u8], pos: usize) -> (r: usize)
    requires
        pos <= data@.len(),
    ensures
        r == line_end(data@, pos as int),
        pos <= r <= data@.len(),
        pos < data@.len() ==> pos < r,
{
    let mut i = pos;
    proof {
        lemma_line_end(data@, pos as int);
    }
    while i < data.len()
        invariant
            pos <= i <= data@.len(),
            line_end(data@, pos as int) == line_end(data@, i as int),
            forall|j: int| pos <= j < i ==> data@[j] != 10,
        decreases data@.len() - i,
    {
        if data[i] == 10 {
            return i + 1;
        }
        i = i + 1;
    }
    i
}

/// The bytes `data[a..b]`.
fn bytes_between(data: &[u8], a: usize, b: usize) -> (r: Vec<u8>)
    requires
        a <= b <= data@.len(),
    ensures
        r@ == data@.subrange(a as int, b as int),
{
    let mut r: Vec<u8> = Vec::new();
    let mut i: usize = a;
    while i < b
        invariant
            a <= i <= b <= data@.len(),
            r@ == data@.subrange(a as int, i as int),
        decreases b - i,
    {
        r.push(data[i]);
        i = i + 1;
        assert(r@ =~= data@.subrange(a as int, i as int));
    }
    r
}

/// The line `data[a..b]` as characters, if it is text.
fn line_text(data: &[u8], a: usize, b: usize) -> (r: Option<Vec<char>>)
    requires
        a <= b <= data@.len(),
    ensures
        r matches Some(v) ==> utf8_text(data@.subrange(a as int, b as int)) == Some(v@),
        r is None ==> utf8_text(data@.subrange(a as int, b as int)) is None,
{
    let bytes = bytes_between(data, a, b);
    match decode_utf8(bytes.as_slice()) {
        Some(s) => Some(chars_of(s.as_str())),
        None => None,
    }
}

/// The first `:` in `h`.
fn find_colon(h: &Vec<char>) -> (r: Option<usize>)
    ensures
        r matches Some(k) ==> colon_at(h@) == Some(k as int),
        r is None ==> colon_at(h@) is None,
        r matches Some(k) ==> k < h@.len(),
{
    let mut i: usize = 0;
    while i < h.len()
        invariant
            i <= h@.len(),
            forall|j: int| 0 <= j < i ==> h@[j] != ':',
        decreases h@.len() - i,
    {
        if h[i] == ':' {
            proof {
                let k = choose|k: int| 0 <= k < h@.len() && h@[k] == ':' && forall|j: int| 0 <= j < k ==> h@[j] != ':';
                assert(h@[i as int] == ':');
                if k < i {
                    assert(h@[k] != ':');
                }
                if k > i {
                    assert(h@[i as int] != ':');
                }
            }
            return Some(i);
        }
        i = i + 1;
    }
    None
}

/// Reads one HTTP request from the bytes received. Gives `None` if there
/// were none or the request line was malformed, and an error when a line of
/// the head is not text or the body is shorter than announced.
pub fn parse_request(data: &[u8]) -> (r: Result<Option<Request>, RequestError>)
    ensures
        match (r, request_of(data@)) {
            (Ok(None), Ok(None)) => true,
            (Ok(Some(req)), Ok(Some((m, p, b)))) => req.method@ == m && req.path@ == p && req.body@ == b,
            (Err(x), Err(y)) => x == y,
            _ => false,
        },
{
    let ghost d = data@;
    if data.len() == 0 {
        return Ok(None);
    }
    let e = find_line_end(data, 0);
    let line = match line_text(data, 0, e) {
        Some(l) => l,
        None => {
            return Err(RequestError::NotText);
        },
    };
    let parts = crate::fen::split_words(&line);
    if parts.len() < 2 {
        return Ok(None);
    }
    let method = crate::text::string_of(&parts[0]);
    let path = crate::text::string_of(&parts[1]);

    let mut content_length: usize = 0;
    let mut pos: usize = e;
    while pos < data.len()
        invariant_except_break
            e <= pos <= data@.len(),
            scan_headers(d, e as int, 0) == scan_headers(d, pos as int, content_length as nat),
        invariant
            d == data@,
            d.len() > 0,
            e == line_end(d, 0),
            utf8_text(d.subrange(0, e as int)) == Some(line@),
            words(line@).len() >= 2,
        ensures
            e <= pos <= data@.len(),
            scan_headers(d, e as int, 0) == Ok::<(int, nat), RequestError>((pos as int, content_length as nat)),
        decreases data@.len() - pos,
    {
        let end = find_line_end(data, pos);
        let header = match line_text(data, pos, end) {
            Some(l) => l,
            None => {
                proof {
                    assert(scan_headers(d, pos as int, content_length as nat) == Err::<(int, nat), RequestError>(RequestError::NotText));
                }
                return Err(RequestError::NotText);
            },
        };
        let h = trim_end_chars(&header);
        if h.len() == 0 {
            pos = end;
            break;
        }
        match find_colon(&h) {
            Some(k) => {
                let name = crate::text::copy_range(&h, 0, k);
                let value = crate::text::copy_range(&h, k + 1, h.len());
                if crate::text::chars_eq_ignore_case(&name, &crate::text::chars_of("content-length")) {
                    content_length = match crate::text::parse_usize_chars(&trim_chars(&value)) {
                        Some(v) => v,
                        None => 0,
                    };
                }
            },
            None => {},
        }
        pos = end;
    }
    let n = if content_length < MAX_BODY {
        content_length
    } else {
        MAX_BODY
    };
    if n > data.len() - pos {
        return Err(RequestError::Truncated);
    }
    let body_bytes = bytes_between(data, pos, pos + n);
    let body = decode_lossy(body_bytes.as_slice());
    Ok(Some(Request { method, path, body }))
}

/// A lower-case hexadecimal digit.
pub open spec fn hex_digit(d: int) -> char {
    if d < 10 {
        (48 + d) as char
    } else {
        (87 + d) as char
    }
}

/// How one character is written inside a JSON string.
pub open spec fn escape_char(c: char) -> Seq<char> {
    if c == '"' {
        seq!['\\', '"']
    } else if c == '\\' {
        seq!['\\', '\\']
    } else if c == '\n' {
        seq!['\\', 'n']
    } else if c == '\r' {
        seq!['\\', 'r']
    } else if c == '\t' {
        seq!['\\', 't']
    } else if (c as u32) < 0x20 {
        seq!['\\', 'u', '0', '0', hex_digit(((c as u32) / 16) as int), hex_digit(((c as u32) % 16) as int)]
    } else {
        seq![c]
    }
}

/// `t` written as the inside of a JSON string.
pub open spec fn escaped(t: Seq<char>) -> Seq<char>
    decreases t.len(),
{
    if t.len() == 0 {
        Seq::empty()
    } else {
        escaped(t.drop_last()) + escape_char(t.last())
    }
}

/// Escapes the few characters that can appear in our strings and would break
/// the JSON.
pub fn escape(text: &str) -> (out: String)
    ensures
        out@ == escaped(text@),
{
    let t = chars_of(text);
    let mut out = String::new();
    let mut i: usize = 0;
    while i < t.len()
        invariant
            i <= t@.len(),
            t@ == text@,
            out@ == escaped(t@.subrange(0, i as int)),
        decreases t@.len() - i,
    {
        let c = t[i];
        proof {
            let u = t@.subrange(0, i + 1);
            assert(u.drop_last() =~= t@.subrange(0, i as int));
            assert(u.last() == c);
        }
        if c == '"' {
            push_char(&mut out, '\\');
            push_char(&mut out, '"');
        } else if c == '\\' {
            push_char(&mut out, '\\');
            push_char(&mut out, '\\');
        } else if c == '\n' {
            push_char(&mut out, '\\');
            push_char(&mut out, 'n');
        } else if c == '\r' {
            push_char(&mut out, '\\');
            push_char(&mut out, 'r');
        } else if c == '\t' {
            push_char(&mut out, '\\');
            push_char(&mut out, 't');
        } else if (c as u32) < 0x20 {
            let code = c as u32;
            push_char(&mut out, '\\');
            push_char(&mut out, 'u');
            push_char(&mut out, '0');
            push_char(&mut out, '0');
            push_char(&mut out, hex_char(code / 16));
            push_char(&mut out, hex_char(code % 16));
        } else {
            push_char(&mut out, c);
        }
        i = i + 1;
    }
    proof {
        assert(t@.subrange(0, i as int) =~= t@);
    }
    out
}

fn hex_char(d: u32) -> (c: char)
    requires
        d < 16,
    ensures
        c == hex_digit(d as int),
{
    if d < 10 {
        (48u8 + d as u8) as char
    } else {
        (87u8 + d as u8) as char
    }
}

pub open spec fn color_text(c: Color) -> Seq<char> {
    match c {
        Color::White => "white"@,
        Color::Black => "black"@,
    }
}

pub open spec fn bool_text(b: bool) -> Seq<char> {
    if b {
        "true"@
    } else {
        "false"@
    }
}

fn push_color(out: &mut String, c: Color)
    ensures
        final(out)@ == old(out)@ + color_text(c),
{
    match c {
        Color::White => push_str(out, "white"),
        Color::Black => push_str(out, "black"),
    }
}

fn push_bool(out: &mut String, b: bool)
    ensures
        final(out)@ == old(out)@ + bool_text(b),
{
    if b {
        push_str(out, "true");
    } else {
        push_str(out, "false");
    }
}

/// The engine's move as a JSON object, or `null`.
pub open spec fn engine_json(em: Option<EngineMove>) -> Seq<char> {
    match em {
        Some(mv) => "{\"san\":\""@ + escaped(mv.san@) + "\",\"uci\":\""@ + escaped(mv.uci@) + "\",\"score\":\""@
            + escaped(mv.score@) + "\",\"scoreCp\":"@ + int_text(mv.score_cp as int) + ",\"depth\":"@
            + decimal(mv.depth as nat) + ",\"nodes\":"@ + decimal(mv.nodes as nat) + ",\"millis\":"@
            + decimal(mv.millis as nat) + "}"@,
        None => "null"@,
    }
}

/// The first `n` of `items` as a JSON array body: each in quotes, escaped
/// when `esc` says so, separated by commas.
pub open spec fn json_items(items: Seq<Seq<char>>, n: int, esc: bool) -> Seq<char>
    decreases n,
{
    if n <= 0 {
        Seq::empty()
    } else {
        json_items(items, n - 1, esc) + (if n > 1 {
            seq![',']
        } else {
            Seq::empty()
        }) + seq!['"'] + (if esc {
            escaped(items[n - 1])
        } else {
            items[n - 1]
        }) + seq!['"']
    }
}

/// The start of the state object: position, players, check.
pub open spec fn position_json(g: &Game) -> Seq<char> {
    let s = g.position.state();
    "{\"fen\":\""@ + escaped(fen_text(fen_state_of(&g.position))) + "\",\"turn\":\""@ + color_text(s.side)
        + "\",\"human\":\""@ + color_text(g.human) + "\",\"check\":"@ + bool_text(
        attacked_on(s.board, king_on(s.board, s.side), s.side.spec_flip()),
    )
}

/// Whether and how the game has ended, and whose move it is.
pub open spec fn outcome_json(o: Option<Outcome>, human: Color, side: Color) -> Seq<char> {
    ",\"over\":"@ + bool_text(o is Some) + ",\"result\":\""@ + (match o {
        Some(x) => escaped(describe_text(x, human)),
        None => Seq::empty(),
    }) + "\",\"engineToMove\":"@ + bool_text(o is None && side != human)
}

/// The last move, the material count and the thinking time.
pub open spec fn settings_json(g: &Game) -> Seq<char> {
    ",\"lastMove\":\""@ + (match g.last_move {
        Some(mv) => move_text(mv),
        None => Seq::empty(),
    }) + "\",\"materialBalance\":"@ + int_text(material(g.position.board@)) + ",\"movetime\":"@ + decimal(
        g.movetime as nat,
    )
}

/// The middle of the state object: how the game stands and its settings.
pub open spec fn progress_json(g: &Game) -> Seq<char> {
    outcome_json(g.outcome_spec(), g.human, g.position.side_to_move) + settings_json(g)
}

/// The game state the page is sent, given the legal moves in the order they
/// are listed.
pub open spec fn state_text(g: &Game, message: Seq<char>, em: Option<EngineMove>, legal: Seq<Seq<char>>) -> Seq<char> {
    position_json(g) + progress_json(g) + ",\"message\":\""@ + escaped(message) + "\",\"engine\":"@ + engine_json(em)
        + ",\"legal\":["@ + json_items(legal, legal.len() as int, false) + "],\"history\":["@ + json_items(
        g.history_san@.map_values(|h: String| h@),
        g.history_san@.len() as int,
        true,
    ) + "]}"@
}

fn push_position(out: &mut String, game: &Game)
    requires
        game.wf(),
    ensures
        final(out)@ == old(out)@ + position_json(game),
{
    push_str(out, "{\"fen\":\"");
    let fen = escape(game.fen().as_str());
    push_str(out, fen.as_str());
    push_str(out, "\",\"turn\":\"");
    push_color(out, game.side_to_move());
    push_str(out, "\",\"human\":\"");
    push_color(out, game.human());
    push_str(out, "\",\"check\":");
    push_bool(out, game.in_check());
}

fn push_outcome(out: &mut String, outcome: Option<Outcome>, human: Color, side: Color)
    ensures
        final(out)@ == old(out)@ + outcome_json(outcome, human, side),
{
    push_str(out, ",\"over\":");
    push_bool(out, outcome.is_some());
    push_str(out, ",\"result\":\"");
    match outcome {
        Some(o) => {
            let d = escape(o.describe(human).as_str());
            push_str(out, d.as_str());
        },
        None => {},
    }
    push_str(out, "\",\"engineToMove\":");
    push_bool(out, outcome.is_none() && side != human);
}

fn push_settings(out: &mut String, game: &Game)
    requires
        game.wf(),
    ensures
        final(out)@ == old(out)@ + settings_json(game),
{
    push_str(out, ",\"lastMove\":\"");
    match game.last_move() {
        Some(mv) => {
            let t = mv.to_string();
            push_str(out, t.as_str());
        },
        None => {},
    }
    push_str(out, "\",\"materialBalance\":");
    push_int(out, game.material_balance() as i64);
    push_str(out, ",\"movetime\":");
    crate::text::push_decimal(out, game.movetime());
}

fn push_progress(out: &mut String, game: &Game)
    requires
        game.wf(),
    ensures
        final(out)@ == old(out)@ + progress_json(game),
{
    let outcome = game.outcome();
    push_outcome(out, outcome, game.human(), game.side_to_move());
    push_settings(out, game);
}

fn push_engine(out: &mut String, engine_move: &Option<EngineMove>)
    ensures
        final(out)@ == old(out)@ + engine_json(*engine_move),
{
    match engine_move {
        Some(mv) => {
            push_str(out, "{\"san\":\"");
            let e = escape(mv.san.as_str());
            push_str(out, e.as_str());
            push_str(out, "\",\"uci\":\"");
            let e = escape(mv.uci.as_str());
            push_str(out, e.as_str());
            push_str(out, "\",\"score\":\"");
            let e = escape(mv.score.as_str());
            push_str(out, e.as_str());
            push_str(out, "\",\"scoreCp\":");
            push_int(out, mv.score_cp as i64);
            push_str(out, ",\"depth\":");
            crate::text::push_decimal(out, mv.depth as u64);
            push_str(out, ",\"nodes\":");
            crate::text::push_decimal(out, mv.nodes);
            push_str(out, ",\"millis\":");
            crate::text::push_decimal_wide(out, mv.millis);
            push_str(out, "}");
        },
        None => push_str(out, "null"),
    }
}

/// The legal moves of `g`'s position in UCI form, each once, in some order.
pub open spec fn lists_legal(g: &Game, legal: Seq<Seq<char>>) -> bool {
    exists|l: Seq<Move>| {
        &&& l.no_duplicates()
        &&& forall|mv: Move| #[trigger] l.contains(mv) <==> legal_move(g.position.state(), mv)
        &&& l.len() == legal.len()
        &&& forall|i: int| 0 <= i < l.len() ==> #[trigger] legal[i] == move_text(l[i])
    }
}

/// Appends the strings of `items` as a JSON array body.
fn push_items(out: &mut String, items: &[String], esc: bool)
    ensures
        final(out)@ == old(out)@ + json_items(items@.map_values(|h: String| h@), items@.len() as int, esc),
{
    let ghost seqs = items@.map_values(|h: String| h@);
    let ghost start = out@;
    let mut i: usize = 0;
    while i < items.len()
        invariant
            i <= items@.len(),
            seqs == items@.map_values(|h: String| h@),
            out@ == start + json_items(seqs, i as int, esc),
        decreases items@.len() - i,
    {
        if i > 0 {
            push_char(out, ',');
        }
        push_char(out, '"');
        if esc {
            let e = escape(items[i].as_str());
            push_str(out, e.as_str());
        } else {
            push_str(out, items[i].as_str());
        }
        push_char(out, '"');
        proof {
            assert(seqs[i as int] == items@[i as int]@);
        }
        i = i + 1;
    }
}

/// The game state as the JSON the page reads.
fn state_json(game: &Game, message: &str, engine_move: &Option<EngineMove>) -> (r: String)
    requires
        game.wf(),
    ensures
        exists|legal: Seq<Seq<char>>| lists_legal(game, legal) && r@ == #[trigger] state_text(game, message@, *engine_move, legal),
{
    let mut out = String::new();
    push_position(&mut out, game);
    push_progress(&mut out, game);
    push_str(&mut out, ",\"message\":\"");
    let m = escape(message);
    push_str(&mut out, m.as_str());
    push_str(&mut out, "\",\"engine\":");
    push_engine(&mut out, engine_move);
    push_str(&mut out, ",\"legal\":[");
    let legal = game.legal_uci();
    push_items(&mut out, legal.as_slice(), false);
    push_str(&mut out, "],\"history\":[");
    push_items(&mut out, game.history_san(), true);
    push_str(&mut out, "]}");
    let ghost names = legal@.map_values(|h: String| h@);
    proof {
        let l = choose|l: Seq<Move>| {
            &&& l.no_duplicates()
            &&& forall|mv: Move| #[trigger] l.contains(mv) <==> legal_move(game.position.state(), mv)
            &&& l.len() == legal@.len()
            &&& forall|i: int| 0 <= i < l.len() ==> #[trigger] legal@[i]@ == move_text(l[i])
        };
        assert forall|i: int| 0 <= i < l.len() implies #[trigger] names[i] == move_text(l[i]) by {
            assert(names[i] == legal@[i]@);
        }
        assert(lists_legal(game, names));
        assert(out@ =~= state_text(game, message@, *engine_move, names));
    }
    out
}

/// Where `c` first occurs in `h`.
pub open spec fn first_of(h: Seq<char>, c: char) -> Option<int> {
    if exists|k: int| 0 <= k < h.len() && h[k] == c {
        Some(choose|k: int| 0 <= k < h.len() && h[k] == c && forall|j: int| 0 <= j < k ==> h[j] != c)
    } else {
        None
    }
}

/// Where `c` first occurs in `h`.
fn find_char(h: &Vec<char>, c: char) -> (r: Option<usize>)
    ensures
        r matches Some(k) ==> first_of(h@, c) == Some(k as int) && k < h@.len(),
        r is None ==> first_of(h@, c) is None,
{
    let mut i: usize = 0;
    while i < h.len()
        invariant
            i <= h@.len(),
            forall|j: int| 0 <= j < i ==> h@[j] != c,
        decreases h@.len() - i,
    {
        if h[i] == c {
            proof {
                let k = choose|k: int| 0 <= k < h@.len() && h@[k] == c && forall|j: int| 0 <= j < k ==> h@[j] != c;
                if k < i {
                    assert(h@[k] != c);
                }
                if k > i {
                    assert(h@[i as int] != c);
                }
            }
            return Some(i);
        }
        i = i + 1;
    }
    None
}

/// The command word: what comes before the first space.
pub open spec fn verb_of(c: Seq<char>) -> Seq<char> {
    match first_of(c, ' ') {
        Some(k) => c.subrange(0, k),
        None => c,
    }
}

/// What follows the first space, trimmed.
pub open spec fn rest_of(c: Seq<char>) -> Seq<char> {
    match first_of(c, ' ') {
        Some(k) => trim_end(trim_start(c.subrange(k + 1, c.len() as int))),
        None => Seq::empty(),
    }
}

/// The colour and thinking time the first `n` words after `new` ask for,
/// starting from the current ones: `white`/`w` and `black`/`b` choose the
/// colour, a number the time.
pub open spec fn new_settings(ws: Seq<Seq<char>>, n: int, human: Color, movetime: u64) -> (Color, u64)
    decreases n,
{
    if n <= 0 {
        (human, movetime)
    } else {
        let (h, m) = new_settings(ws, n - 1, human, movetime);
        let a = ws[n - 1];
        if a == "white"@ || a == "w"@ {
            (Color::White, m)
        } else if a == "black"@ || a == "b"@ {
            (Color::Black, m)
        } else {
            match unsigned_value(a, u64::MAX as nat) {
                Some(v) => (h, v as u64),
                None => (h, m),
            }
        }
    }
}

pub open spec fn clamp_movetime(ms: int) -> u64 {
    if ms < 10 {
        10
    } else if ms > 60_000 {
        60_000
    } else {
        ms as u64
    }
}

/// The message a move command leaves.
pub open spec fn move_message(r: Result<Seq<char>, Seq<char>>) -> Seq<char> {
    match r {
        Ok(san) => "You played "@ + san,
        Err(why) => why,
    }
}

/// The message a hint command leaves.
pub open spec fn hint_message(r: Option<EngineMove>) -> Seq<char> {
    match r {
        Some(best) => "Try "@ + best.san@ + " ("@ + best.score@ + ")"@,
        None => "no suggestion available"@,
    }
}

/// The message an undo command leaves.
pub open spec fn undo_message(n: usize) -> Seq<char> {
    if n == 0 {
        "nothing to undo"@
    } else {
        "took back "@ + decimal(n as nat) + " half-move(s)"@
    }
}

/// A new game with the human playing `h`, thinking `m` milliseconds.
pub open spec fn fresh_game(new: Game, h: Color, m: u64) -> bool {
    &&& new.human == h
    &&& new.movetime == clamp_movetime(m as int)
    &&& new.depth is None
    &&& new.plies == 0
    &&& new.resigned is None
    &&& new.last_move is None
    &&& new.position.side_to_move == Color::White
    &&& forall|i: int| 0 <= i < 64 ==> #[trigger] new.position.board@[i] == crate::position::start_piece(i)
}

/// What the command word `verb` with its argument text `rest` did to the
/// game, the message it leaves, and the engine move it reports.
#[verifier::opaque]
pub open spec fn command_effect(old: Game, new: Game, verb: Seq<char>, rest: Seq<char>, msg: Seq<char>, em: Option<EngineMove>) -> bool {
    if verb == "state"@ || verb.len() == 0 {
        new == old && msg.len() == 0 && em is None
    } else if verb == "move"@ {
        em is None && exists|r: Result<Seq<char>, Seq<char>>| #[trigger] move_played(old, new, rest, r) && msg == move_message(r)
    } else if verb == "engine"@ {
        &&& msg.len() == 0
        &&& if old.position.side_to_move != old.human {
            engine_replied(old, new, em)
        } else {
            new == old && em is None
        }
    } else if verb == "hint"@ {
        em is None && exists|r: Option<EngineMove>| #[trigger] suggested(old, new, r) && msg == hint_message(r)
    } else if verb == "undo"@ {
        em is None && exists|n: usize| #[trigger] taken_back(old, new, n) && msg == undo_message(n)
    } else if verb == "resign"@ {
        &&& em is None
        &&& msg.len() == 0
        &&& new.resigned == Some(old.human)
        &&& new.human == old.human
        &&& new.position == old.position
        &&& new.plies == old.plies
    } else if verb == "new"@ {
        let ws = words(rest);
        let (h, m) = new_settings(ws, ws.len() as int, old.human, old.movetime);
        em is None && msg.len() == 0 && fresh_game(new, h, m)
    } else if verb == "time"@ {
        &&& em is None
        &&& msg.len() == 0
        &&& match unsigned_value(rest, u64::MAX as nat) {
            Some(ms) => new.movetime == clamp_movetime(ms as int) && new.depth is None && new.position == old.position
                && new.plies == old.plies && new.human == old.human,
            None => new == old,
        }
    } else {
        em is None && new == old && msg == "unknown command '"@ + verb + "'"@
    }
}

fn do_move(game: &mut Game, rest: &Vec<char>) -> (msg: String)
    requires
        old(game).wf(),
    ensures
        final(game).wf(),
        exists|r: Result<Seq<char>, Seq<char>>| #[trigger] move_played(*old(game), *final(game), rest@, r) && msg@ == move_message(r),
{
    let text = crate::text::string_of(rest);
    let r = game.play_move(text.as_str());
    let mut message = String::new();
    match r {
        Ok(san) => {
            push_str(&mut message, "You played ");
            push_str(&mut message, san.as_str());
        },
        Err(why) => {
            message = why;
        },
    }
    assert(move_played(*old(game), *game, rest@, result_view(r)));
    message
}

fn do_hint(game: &mut Game) -> (msg: String)
    requires
        old(game).wf(),
    ensures
        final(game).wf(),
        exists|r: Option<EngineMove>| #[trigger] suggested(*old(game), *final(game), r) && msg@ == hint_message(r),
{
    let best = game.suggestion();
    let mut message = String::new();
    match &best {
        Some(b) => {
            push_str(&mut message, "Try ");
            push_str(&mut message, b.san.as_str());
            push_str(&mut message, " (");
            push_str(&mut message, b.score.as_str());
            push_str(&mut message, ")");
        },
        None => push_str(&mut message, "no suggestion available"),
    }
    assert(suggested(*old(game), *game, best));
    message
}

fn do_undo(game: &mut Game) -> (msg: String)
    requires
        old(game).wf(),
    ensures
        final(game).wf(),
        exists|n: usize| #[trigger] taken_back(*old(game), *final(game), n) && msg@ == undo_message(n),
{
    let n = game.take_back();
    let mut message = String::new();
    if n == 0 {
        push_str(&mut message, "nothing to undo");
    } else {
        push_str(&mut message, "took back ");
        crate::text::push_decimal(&mut message, n as u64);
        push_str(&mut message, " half-move(s)");
    }
    assert(taken_back(*old(game), *game, n));
    message
}

fn do_new(game: &mut Game, rest: &Vec<char>)
    requires
        old(game).wf(),
    ensures
        final(game).wf(),
        ({
            let ws = words(rest@);
            let (h, m) = new_settings(ws, ws.len() as int, old(game).human, old(game).movetime);
            fresh_game(*final(game), h, m)
        }),
{
    let mut human = game.human();
    let mut movetime = game.movetime();
    let ws = crate::fen::split_words(rest);
    let ghost wsv = words(rest@);
    let ghost h0 = game.human;
    let ghost m0 = game.movetime;
    let mut i: usize = 0;
    while i < ws.len()
        invariant
            i <= ws@.len(),
            ws@.len() == wsv.len(),
            forall|j: int| 0 <= j < ws@.len() ==> (#[trigger] ws@[j])@ == wsv[j],
            (human, movetime) == new_settings(wsv, i as int, h0, m0),
        decreases ws@.len() - i,
    {
        let a = &ws[i];
        assert(a@ == wsv[i as int]);
        if crate::text::chars_eq(a, &chars_of("white")) || crate::text::chars_eq(a, &chars_of("w")) {
            human = Color::White;
        } else if crate::text::chars_eq(a, &chars_of("black")) || crate::text::chars_eq(a, &chars_of("b")) {
            human = Color::Black;
        } else {
            match crate::text::parse_u64_chars(a) {
                Some(ms) => {
                    movetime = ms;
                },
                None => {},
            }
        }
        i = i + 1;
    }
    *game = Game::new(human);
    game.set_movetime(movetime);
}

/// Runs the command word `verb` with the argument text `rest`.
#[verifier::rlimit(60)]
fn apply_command(game: &mut Game, verb: &Vec<char>, rest: &Vec<char>) -> (r: (String, Option<EngineMove>))
    requires
        old(game).wf(),
    ensures
        final(game).wf(),
        command_effect(*old(game), *final(game), verb@, rest@, r.0@, r.1),
{
    proof {
        reveal(command_effect);
    }
    let mut message = String::new();
    let mut engine_move: Option<EngineMove> = None;
    if verb.len() == 0 || crate::text::chars_eq(verb, &chars_of("state")) {
    } else if crate::text::chars_eq(verb, &chars_of("move")) {
        message = do_move(game, rest);
    } else if crate::text::chars_eq(verb, &chars_of("engine")) {
        if game.is_engines_turn() {
            engine_move = game.engine_reply();
        }
    } else if crate::text::chars_eq(verb, &chars_of("hint")) {
        message = do_hint(game);
    } else if crate::text::chars_eq(verb, &chars_of("undo")) {
        message = do_undo(game);
    } else if crate::text::chars_eq(verb, &chars_of("resign")) {
        game.resign();
    } else if crate::text::chars_eq(verb, &chars_of("new")) {
        do_new(game, rest);
    } else if crate::text::chars_eq(verb, &chars_of("time")) {
        match crate::text::parse_u64_chars(rest) {
            Some(ms) => game.set_movetime(ms),
            None => {},
        }
    } else {
        push_str(&mut message, "unknown command '");
        push_str(&mut message, crate::text::string_of(verb).as_str());
        push_str(&mut message, "'");
    }
    (message, engine_move)
}

/// Runs one command from the page and returns the new game state as JSON.
///
/// The human's move and the engine's reply are separate commands so the page
/// can paint the human's move immediately and show "thinking" while it waits.
pub fn run_command(game: &mut Game, command: &str) -> (r: String)
    requires
        old(game).wf(),
    ensures
        final(game).wf(),
        exists|msg: Seq<char>, em: Option<EngineMove>, legal: Seq<Seq<char>>| {
            &&& lists_legal(final(game), legal)
            &&& r@ == #[trigger] state_text(final(game), msg, em, legal)
            &&& command_effect(*old(game), *final(game), verb_of(command@), rest_of(command@), msg, em)
        },
{
    let c = chars_of(command);
    let (verb, rest) = match find_char(&c, ' ') {
        Some(k) => {
            let n = c.len();
            assert(k < n);
            let after: usize = k + 1;
            (crate::text::copy_range(&c, 0, k), trim_chars(&crate::text::copy_range(&c, after, n)))
        },
        None => (crate::text::copy_range(&c, 0, c.len()), Vec::new()),
    };
    proof {
        assert(c@.subrange(0, c@.len() as int) =~= c@);
        assert(verb@ == verb_of(command@));
        assert(rest@ =~= rest_of(command@));
    }
    let (message, engine_move) = apply_command(game, &verb, &rest);
    let r = state_json(game, message.as_str(), &engine_move);
    proof {
        let legal = choose|legal: Seq<Seq<char>>| lists_legal(game, legal) && r@ == #[trigger] state_text(game, message@, engine_move, legal);
        assert(lists_legal(game, legal) && r@ == state_text(game, message@, engine_move, legal));
    }
    r
}

/// The port, colour and thinking time the first `n` arguments after `serve`
/// ask for, and how many numbers they held. Numbers are positional: the
/// first is the port and the second the thinking time; further numbers and
/// unknown words are ignored.
pub open spec fn serve_settings(args: Seq<String>, n: int) -> (u16, Color, u64, nat)
    decreases n,
{
    if n <= 0 {
        (8080, Color::White, 1000, 0)
    } else {
        let (port, human, movetime, numbers) = serve_settings(args, n - 1);
        let a = args[n - 1]@;
        if a == "white"@ || a == "w"@ {
            (port, Color::White, movetime, numbers)
        } else if a == "black"@ || a == "b"@ {
            (port, Color::Black, movetime, numbers)
        } else {
            match unsigned_value(a, u64::MAX as nat) {
                Some(v) => if numbers == 0 {
                    ((if v > 65535 {
                        65535
                    } else {
                        v
                    }) as u16, human, movetime, 1)
                } else if numbers == 1 {
                    (port, human, clamp_movetime(v as int), 2)
                } else {
                    (port, human, movetime, numbers + 1)
                },
                None => (port, human, movetime, numbers),
            }
        }
    }
}

/// Parses `serve [port] [white|black] [movetime_ms]`. Numbers are positional,
/// the first the port and the second the thinking time, because the two
/// ranges overlap and guessing from magnitude gets it wrong.
pub fn parse_args(args: &[String]) -> (r: (u16, Color, u64))
    ensures
        ({
            let (port, human, movetime, _) = serve_settings(args@, args@.len() as int);
            r == (port, human, movetime)
        }),
{
    let mut port: u16 = 8080;
    let mut human = Color::White;
    let mut movetime: u64 = 1000;
    let mut numbers: usize = 0;
    let mut i: usize = 0;
    while i < args.len()
        invariant
            i <= args@.len(),
            numbers <= i,
            (port, human, movetime, numbers as nat) == serve_settings(args@, i as int),
        decreases args@.len() - i,
    {
        let a = args[i].as_str();
        let cs = chars_of(a);
        if crate::text::chars_eq(&cs, &chars_of("white")) || crate::text::chars_eq(&cs, &chars_of("w")) {
            human = Color::White;
        } else if crate::text::chars_eq(&cs, &chars_of("black")) || crate::text::chars_eq(&cs, &chars_of("b")) {
            human = Color::Black;
        } else {
            match crate::text::parse_u64_chars(&cs) {
                Some(value) => {
                    numbers = numbers + 1;
                    if numbers == 1 {
                        port = if value > 65535 {
                            65535
                        } else {
                            value as u16
                        };
                    } else if numbers == 2 {
                        movetime = if value < 10 {
                            10
                        } else if value > 60_000 {
                            60_000
                        } else {
                            value
                        };
                    }
                },
                None => {},
            }
        }
        i = i + 1;
    }
    (port, human, movetime)
}

} // verus!
