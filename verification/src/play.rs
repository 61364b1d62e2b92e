//! Interactive play: a human against the engine.
//!
//! Command handling and engine replies are separate entry points so a game
//! can be driven from tests without a terminal and without searching after
//! every command.
use vstd::prelude::*;
use std::sync::Arc;
use std::sync::atomic::AtomicBool;
use crate::movegen::{generate_legal_moves, legal_move, sane, is_sane, lemma_pseudo_applicable, lemma_sane_after};
use crate::position::{Position, PosState, make_state, unmake_state, can_unmake_state, attacked_on, king_on, lemma_unmake_after_make};
use crate::search::{Search, SearchLimits, searchable, mates, mates_or_quiet, mates_unheld, MAX_PLY};
use crate::types::{Color, Move, Piece, PieceType, Square, move_text, piece_char};
use crate::text::{push_char, push_str, push_int, int_text, decimal, digit_char, eq_ignore_ascii_case, unsigned_value};
use crate::fen::{FenState, fen_parse, fen_state_of, fen_text, words};
use crate::eval::{evaluation, MATE};
use crate::perft::{text_le, chars_le, lemma_text_total, lemma_text_trans};
use crate::san::{to_san, parse, san_text, normalized, parse_accepts, parse_rejects, san_ready};

verus! {

pub const DEFAULT_MOVETIME_MS: u64 = 1000;

pub const HASH_MB: usize = 64;

/// How a finished game ended.
#[derive(Clone, Copy, PartialEq, Eq, Debug, Structural)]
pub enum Outcome {
    Checkmate { winner: Color },
    Stalemate,
    FiftyMoveRule,
    ThreefoldRepetition,
    InsufficientMaterial,
    Resignation { winner: Color },
}

/// Who wins, from the human's point of view.
pub open spec fn winner_text(winner: Color, human: Color) -> Seq<char> {
    if winner == human {
        "you win!"@
    } else {
        "the engine wins."@
    }
}

/// The one-line result message for `o`.
pub open spec fn describe_text(o: Outcome, human: Color) -> Seq<char> {
    match o {
        Outcome::Checkmate { winner } => "Checkmate \u{2014} "@ + winner_text(winner, human),
        Outcome::Resignation { winner } => "Resignation \u{2014} "@ + winner_text(winner, human),
        Outcome::Stalemate => "Stalemate \u{2014} draw."@,
        Outcome::FiftyMoveRule => "Draw by the fifty-move rule."@,
        Outcome::ThreefoldRepetition => "Draw by threefold repetition."@,
        Outcome::InsufficientMaterial => "Draw \u{2014} insufficient material."@,
    }
}

fn push_winner(out: &mut String, winner: Color, human: Color)
    ensures
        final(out)@ == old(out)@ + winner_text(winner, human),
{
    if winner == human {
        push_str(out, "you win!");
    } else {
        push_str(out, "the engine wins.");
    }
}

impl Outcome {
    /// A one-line result message written for the human's point of view.
    pub fn describe(self, human: Color) -> (r: String)
        ensures
            r@ == describe_text(self, human),
    {
        let mut out = String::new();
        match self {
            Outcome::Checkmate { winner } => {
                push_str(&mut out, "Checkmate \u{2014} ");
                push_winner(&mut out, winner, human);
            },
            Outcome::Resignation { winner } => {
                push_str(&mut out, "Resignation \u{2014} ");
                push_winner(&mut out, winner, human);
            },
            Outcome::Stalemate => push_str(&mut out, "Stalemate \u{2014} draw."),
            Outcome::FiftyMoveRule => push_str(&mut out, "Draw by the fifty-move rule."),
            Outcome::ThreefoldRepetition => push_str(&mut out, "Draw by threefold repetition."),
            Outcome::InsufficientMaterial => push_str(&mut out, "Draw \u{2014} insufficient material."),
        }
        out
    }
}

/// Whether the input loop should keep going.
#[derive(Clone, Copy, PartialEq, Eq, Debug, Structural)]
pub enum Flow {
    Continue,
    Quit,
}

/// A move the engine chose, with the numbers behind it.
#[derive(Clone, Debug)]
pub struct EngineMove {
    pub san: String,
    pub uci: String,
    /// Score in centipawns from white's point of view.
    pub score_cp: i32,
    /// The same score written for a human: `+0.48` or `mate in 3 for white`.
    pub score: String,
    pub depth: u32,
    pub nodes: u64,
    pub millis: u128,
}

pub struct Game {
    pub position: Position,
    pub search: Search,
    /// The colour the human is playing.
    pub human: Color,
    pub movetime: u64,
    pub depth: Option<u32>,
    /// Board orientation; follows the human's colour unless flipped by hand.
    pub flipped: bool,
    /// Position hashes reached so far, for threefold detection.
    pub seen: Vec<u64>,
    /// Every move played, in SAN, for display.
    pub history_san: Vec<String>,
    /// Plies played from the starting position, i.e. how much can be undone.
    pub plies: usize,
    pub last_move: Option<Move>,
    pub resigned: Option<Color>,
    /// The position before each ply, and the current one last.
    pub states: Ghost<Seq<PosState>>,
    /// What the terminal commands have to say, one entry per message, for
    /// the front-end to print.
    pub output: Vec<String>,
}

/// The value of a piece in pawns, for the material count shown to the player.
pub open spec fn piece_value(pt: PieceType) -> int {
    match pt {
        PieceType::Pawn => 1,
        PieceType::Knight => 3,
        PieceType::Bishop => 3,
        PieceType::Rook => 5,
        PieceType::Queen => 9,
        PieceType::King => 0,
    }
}

/// White's material less black's, over the squares from `i` on.
pub open spec fn balance_from(b: Seq<Option<Piece>>, i: int) -> int
    decreases 64 - i,
{
    if i >= 64 || i < 0 {
        0
    } else {
        (match b[i] {
            Some(p) => if p.color == Color::White {
                piece_value(p.piece_type)
            } else {
                -piece_value(p.piece_type)
            },
            None => 0,
        }) + balance_from(b, i + 1)
    }
}

/// Material difference in pawns, from white's point of view.
pub open spec fn material(b: Seq<Option<Piece>>) -> int {
    balance_from(b, 0)
}

/// How many times `h` occurs in `seen`.
pub open spec fn count_hash(seen: Seq<u64>, h: u64) -> nat
    decreases seen.len(),
{
    if seen.len() == 0 {
        0
    } else {
        count_hash(seen.drop_last(), h) + if seen.last() == h {
            1nat
        } else {
            0nat
        }
    }
}

/// Material difference in pawns, from white's point of view.
fn material_balance(pos: &Position) -> (r: i32)
    requires
        pos.wf(),
    ensures
        r == material(pos.board@),
        -576 <= r <= 576,
{
    let mut balance: i32 = 0;
    let mut sq: u8 = 0;
    while sq < 64
        invariant
            pos.board@.len() == 64,
            sq <= 64,
            -9 * sq <= balance <= 9 * sq,
            balance + balance_from(pos.board@, sq as int) == balance_from(pos.board@, 0),
        decreases 64 - sq,
    {
        match pos.piece_at(sq as Square) {
            Some(piece) => {
                let value: i32 = match piece.piece_type {
                    PieceType::Pawn => 1,
                    PieceType::Knight => 3,
                    PieceType::Bishop => 3,
                    PieceType::Rook => 5,
                    PieceType::Queen => 9,
                    PieceType::King => 0,
                };
                balance = balance + if piece.color == Color::White {
                    value
                } else {
                    -value
                };
            },
            None => {},
        }
        sq = sq + 1;
    }
    balance
}

impl Game {
    /// What every game keeps: a sane position reached from the first one by
    /// `plies` moves that can each be taken back, with one seen hash per
    /// position and one SAN per move.
    pub open spec fn wf(&self) -> bool {
        &&& self.position.wf()
        &&& self.search.wf()
        &&& san_ready(self.position.state())
        &&& self.states@.len() == self.plies + 1
        &&& self.states@[self.plies as int] == self.position.state()
        &&& forall|k: int| 0 <= k < self.plies ==> can_unmake_state(#[trigger] self.states@[k + 1])
            && unmake_state(self.states@[k + 1]) == self.states@[k] && san_ready(self.states@[k])
        &&& self.seen@.len() == self.plies + 1
        &&& self.history_san@.len() == self.plies
    }

    /// The result of the game, or `None` while it is going on.
    pub open spec fn outcome_spec(&self) -> Option<Outcome> {
        let s = self.position.state();
        if self.resigned is Some {
            Some(Outcome::Resignation { winner: self.resigned->0.spec_flip() })
        } else if !(exists|m: Move| #[trigger] legal_move(s, m)) {
            if attacked_on(s.board, king_on(s.board, s.side), s.side.spec_flip()) {
                Some(Outcome::Checkmate { winner: s.side.spec_flip() })
            } else {
                Some(Outcome::Stalemate)
            }
        } else if s.halfmove >= 100 {
            Some(Outcome::FiftyMoveRule)
        } else if count_hash(self.seen@, self.position.hash) >= 3 {
            // The search treats one repetition as a draw; a real game needs three.
            Some(Outcome::ThreefoldRepetition)
        } else if self.position.insufficient() {
            Some(Outcome::InsufficientMaterial)
        } else {
            None
        }
    }

    /// A new game from the starting position, the human playing `human`.
    pub fn new(human: Color) -> (g: Game)
        ensures
            g.wf(),
            g.human == human,
            g.search.silent,
            g.plies == 0,
            g.movetime == DEFAULT_MOVETIME_MS,
            g.depth is None,
            g.flipped == (human == Color::Black),
            g.last_move is None,
            g.resigned is None,
            g.position.side_to_move == Color::White,
            g.position.fullmove_number == 1,
            forall|i: int| 0 <= i < 64 ==> #[trigger] g.position.board@[i] == crate::position::start_piece(i),
    {
        crate::init();
        let mut search = Search::new(HASH_MB, Arc::new(AtomicBool::new(false)));
        // The engine reports its own one-line summary instead of UCI info.
        search.silent = true;
        let position = Position::startpos();
        proof {
            crate::movegen::lemma_start_sane(position.state());
        }
        let mut seen: Vec<u64> = Vec::new();
        seen.push(position.hash);
        let ghost first = seq![position.state()];
        Game {
            states: Ghost(first),
            seen,
            position,
            search,
            human,
            movetime: DEFAULT_MOVETIME_MS,
            depth: None,
            flipped: human == Color::Black,
            history_san: Vec::new(),
            plies: 0,
            last_move: None,
            resigned: None,
            output: Vec::new(),
        }
    }

    pub fn resign(&mut self)
        ensures
            *final(self) == (Game { resigned: Some(old(self).human), ..*old(self) }),
            old(self).wf() ==> final(self).wf(),
    {
        self.resigned = Some(self.human);
    }

    pub fn fen(&self) -> (r: String)
        requires
            self.wf(),
        ensures
            r@ == crate::fen::fen_text(crate::fen::fen_state_of(&self.position)),
    {
        self.position.to_fen()
    }

    pub fn side_to_move(&self) -> (c: Color)
        ensures
            c == self.position.side_to_move,
    {
        self.position.side_to_move
    }

    pub fn human(&self) -> (c: Color)
        ensures
            c == self.human,
    {
        self.human
    }

    pub fn in_check(&self) -> (r: bool)
        requires
            self.wf(),
        ensures
            r == attacked_on(self.position.board@, king_on(self.position.board@, self.position.side_to_move), self.position.side_to_move.spec_flip()),
    {
        self.position.in_check()
    }

    pub fn last_move(&self) -> (r: Option<Move>)
        ensures
            r == self.last_move,
    {
        self.last_move
    }

    pub fn history_san(&self) -> (r: &[String])
        ensures
            r@ == self.history_san@,
    {
        self.history_san.as_slice()
    }

    /// Material difference in pawns, from white's point of view.
    pub fn material_balance(&self) -> (r: i32)
        requires
            self.wf(),
        ensures
            r == material(self.position.board@),
            -576 <= r <= 576,
    {
        material_balance(&self.position)
    }

    pub fn movetime(&self) -> (r: u64)
        ensures
            r == self.movetime,
    {
        self.movetime
    }

    /// Sets the engine's thinking time, kept between 10 ms and a minute, and
    /// goes back to searching by time.
    pub fn set_movetime(&mut self, millis: u64)
        ensures
            final(self).movetime == if millis < 10 {
                10
            } else if millis > 60_000 {
                60_000
            } else {
                millis
            },
            final(self).depth is None,
            final(self).position == old(self).position,
            final(self).human == old(self).human,
            final(self).plies == old(self).plies,
            final(self).resigned == old(self).resigned,
            final(self).last_move == old(self).last_move,
            old(self).wf() ==> final(self).wf(),
    {
        self.movetime = if millis < 10 {
            10
        } else if millis > 60_000 {
            60_000
        } else {
            millis
        };
        self.depth = None;
    }

    pub fn is_engines_turn(&self) -> (r: bool)
        ensures
            r == (self.position.side_to_move != self.human),
    {
        self.position.side_to_move != self.human
    }

    /// The result of the game, or `None` if it is still going.
    pub fn outcome(&self) -> (r: Option<Outcome>)
        requires
            self.wf(),
        ensures
            r == self.outcome_spec(),
    {
        match self.resigned {
            Some(loser) => {
                return Some(Outcome::Resignation { winner: loser.flip() });
            },
            None => {},
        }
        let ghost s = self.position.state();
        let mut probe = self.position.clone();
        let legal = generate_legal_moves(&mut probe);
        proof {
            if exists|m: Move| #[trigger] legal_move(s, m) {
                let m = choose|m: Move| #[trigger] legal_move(s, m);
                assert(legal@.contains(m));
            }
            if legal@.len() > 0 {
                assert(legal_move(s, legal@[0]));
            }
        }
        if legal.len() == 0 {
            return Some(if self.position.in_check() {
                Outcome::Checkmate { winner: self.position.side_to_move.flip() }
            } else {
                Outcome::Stalemate
            });
        }
        if self.position.halfmove_clock >= 100 {
            return Some(Outcome::FiftyMoveRule);
        }
        let mut count: usize = 0;
        let mut i: usize = 0;
        while i < self.seen.len()
            invariant
                i <= self.seen@.len(),
                count == count_hash(self.seen@.take(i as int), self.position.hash),
                count <= i,
            decreases self.seen@.len() - i,
        {
            proof {
                assert(self.seen@.take(i + 1).drop_last() == self.seen@.take(i as int));
            }
            if self.seen[i] == self.position.hash {
                count = count + 1;
            }
            i = i + 1;
        }
        proof {
            assert(self.seen@.take(i as int) == self.seen@);
        }
        if count >= 3 {
            return Some(Outcome::ThreefoldRepetition);
        }
        if self.position.is_insufficient_material() {
            return Some(Outcome::InsufficientMaterial);
        }
        None
    }
}

/// Room to play one more move and still look one further: both clocks can
/// count two more plies and the ply count can grow.
pub open spec fn room_for_move(g: &Game) -> bool {
    &&& g.position.halfmove_clock + 2 < 0xffff
    &&& g.position.fullmove_number + 2 < 0xffff
    &&& g.plies + 1 < usize::MAX
}

/// A `Result` of strings taken by the strings' views.
pub open spec fn result_view(r: Result<String, String>) -> Result<Seq<char>, Seq<char>> {
    match r {
        Ok(x) => Ok(x@),
        Err(e) => Err(e@),
    }
}

/// What `play_move` does with the text `text`: refuses once the game is
/// over, on the engine's turn and without room for another move; otherwise
/// plays the move the text names and answers with its SAN, or leaves the
/// position alone and says the text is not a legal move.
pub open spec fn move_played(old: Game, new: Game, text: Seq<char>, r: Result<Seq<char>, Seq<char>>) -> bool {
    &&& new.human == old.human
    &&& new.movetime == old.movetime
    &&& new.depth == old.depth
    &&& new.resigned == old.resigned
    &&& if old.outcome_spec() is Some {
        r == Err::<Seq<char>, Seq<char>>("the game is over"@) && new == old
    } else if old.position.side_to_move != old.human {
        r == Err::<Seq<char>, Seq<char>>("it is the engine's turn"@) && new == old
    } else if !room_for_move(&old) {
        r == Err::<Seq<char>, Seq<char>>("the game is over"@) && new == old
    } else {
        let s = old.position.state();
        let w = normalized(text);
        match r {
            Ok(san) => exists|mv: Move| {
                &&& #[trigger] parse_accepts(s, w, mv)
                &&& san == san_text(s, mv)
                &&& new.position.state() == make_state(s, mv)
                &&& new.plies == old.plies + 1
                &&& new.last_move == Some(mv)
                &&& new.history_san@.len() == old.history_san@.len() + 1
                &&& new.history_san@.last()@ == san
                &&& new.history_san@.drop_last() == old.history_san@
            },
            Err(e) => {
                &&& parse_rejects(s, w)
                &&& e == seq!['\''] + text + "' is not a legal move here"@
                &&& new.position.state() == old.position.state()
                &&& new.plies == old.plies
                &&& new.history_san@ == old.history_san@
            },
        }
    }
}

impl Game {
    /// Makes a move and records it. Returns the move in SAN.
    pub fn apply(&mut self, mv: Move) -> (san: String)
        requires
            old(self).wf(),
            legal_move(old(self).position.state(), mv),
            room_for_move(old(self)),
        ensures
            final(self).wf(),
            final(self).position.state() == make_state(old(self).position.state(), mv),
            final(self).position.keys == old(self).position.keys,
            san@ == san_text(old(self).position.state(), mv),
            final(self).history_san@.len() == old(self).history_san@.len() + 1,
            final(self).history_san@.last()@ == san@,
            forall|i: int| 0 <= i < old(self).history_san@.len() ==> #[trigger] final(self).history_san@[i] == old(self).history_san@[i],
            final(self).seen@ == old(self).seen@.push(final(self).position.hash),
            final(self).plies == old(self).plies + 1,
            final(self).states@ == old(self).states@.push(final(self).position.state()),
            final(self).last_move == Some(mv),
            final(self).human == old(self).human,
            final(self).movetime == old(self).movetime,
            final(self).depth == old(self).depth,
            final(self).flipped == old(self).flipped,
            final(self).resigned == old(self).resigned,
            final(self).search == old(self).search,
    {
        let ghost s = self.position.state();
        let san = to_san(&mut self.position, mv);
        proof {
            lemma_pseudo_applicable(s, mv);
            lemma_sane_after(s, mv);
            lemma_unmake_after_make(s, mv);
        }
        self.position.make_move(mv);
        self.seen.push(self.position.hash);
        let copy = san.clone();
        self.history_san.push(copy);
        self.plies = self.plies + 1;
        self.last_move = Some(mv);
        proof {
            let old_states = self.states@;
            self.states@ = old_states.push(self.position.state());
            assert forall|k: int| 0 <= k < self.plies implies can_unmake_state(#[trigger] self.states@[k + 1])
                && unmake_state(self.states@[k + 1]) == self.states@[k] && san_ready(self.states@[k]) by {
                if k + 1 < self.plies {
                    assert(self.states@[k + 1] == old_states[k + 1]);
                    assert(self.states@[k] == old_states[k]);
                }
            }
        }
        san
    }

    /// Plays a move written in SAN or UCI. Returns the move in SAN, or why it
    /// was refused.
    #[verifier::rlimit(40)]
    pub fn play_move(&mut self, text: &str) -> (r: Result<String, String>)
        requires
            old(self).wf(),
        ensures
            final(self).wf(),
            move_played(*old(self), *final(self), text@, result_view(r)),
    {
        if self.outcome().is_some() {
            return Err(String::from_str("the game is over"));
        }
        if self.is_engines_turn() {
            return Err(String::from_str("it is the engine's turn"));
        }
        if self.position.halfmove_clock >= 0xfffd || self.position.fullmove_number >= 0xfffd || self.plies >= usize::MAX - 1 {
            return Err(String::from_str("the game is over"));
        }
        match parse(&mut self.position, text) {
            Some(mv) => {
                let ghost s = self.position.state();
                let ghost before = self.history_san@;
                let san = self.apply(mv);
                assert(self.history_san@.drop_last() =~= before);
                assert(parse_accepts(s, normalized(text@), mv));
                assert(san@ == san_text(s, mv));
                Ok(san)
            },
            None => {
                let mut why = String::new();
                push_char(&mut why, '\'');
                push_str(&mut why, text);
                push_str(&mut why, "' is not a legal move here");
                Err(why)
            },
        }
    }
}

/// Whether a FEN position is one play can go on from, with room on its
/// clocks for a move.
pub open spec fn fen_playable(f: FenState) -> bool {
    san_ready(PosState {
        board: f.board,
        side: f.side,
        castling: f.castling,
        en_passant: f.en_passant,
        halfmove: f.halfmove,
        fullmove: f.fullmove,
        hash: 0,
        history: Seq::empty(),
        repetitions: Seq::empty(),
    })
}

/// Room for the engine to search from the current position and play.
pub open spec fn room_for_search(g: &Game) -> bool {
    &&& g.position.halfmove_clock + MAX_PLY < 0xffff
    &&& g.position.fullmove_number + MAX_PLY < 0xffff
    &&& g.plies + 1 < usize::MAX
}

/// Rust's `/ 2` on an integer: the quotient rounded toward zero.
pub open spec fn half_toward_zero(x: int) -> int {
    if x >= 0 {
        x / 2
    } else {
        -((-x) / 2)
    }
}

pub open spec fn abs_int(x: int) -> int {
    if x < 0 {
        -x
    } else {
        x
    }
}

/// A score from the side to move's point of view, turned to white's.
pub open spec fn white_view(score: int, side: Color) -> int {
    if side == Color::White {
        score
    } else {
        -score
    }
}

/// A search score written for a human, from white's point of view: pawns
/// with a sign and two decimals (`+0.48`), or `mate in 3 for white`.
pub open spec fn score_for_human(score: int, side: Color) -> Seq<char> {
    let w = white_view(score, side);
    let a = abs_int(w);
    if a >= 29_000 {
        "mate in "@ + int_text(half_toward_zero(30_000 - a + 1)) + " for "@ + if w > 0 {
            "white"@
        } else {
            "black"@
        }
    } else {
        seq![if w >= 0 {
            '+'
        } else {
            '-'
        }] + decimal((a / 100) as nat) + seq!['.', digit_char(((a % 100) / 10) as nat), digit_char((a % 10) as nat)]
    }
}

/// Formats a search score from white's point of view, in pawns.
fn format_score(score: i32, side_to_move: Color) -> (r: String)
    requires
        score > i32::MIN,
    ensures
        r@ == score_for_human(score as int, side_to_move),
{
    let white_score: i32 = if side_to_move == Color::White {
        score
    } else {
        -score
    };
    let magnitude: i32 = if white_score < 0 {
        -white_score
    } else {
        white_score
    };
    let mut out = String::new();
    if magnitude >= crate::eval::MATE_IN_MAX_PLY {
        let moves: i32 = (crate::eval::MATE - magnitude + 1) / 2;
        push_str(&mut out, "mate in ");
        push_int(&mut out, moves as i64);
        push_str(&mut out, " for ");
        if white_score > 0 {
            push_str(&mut out, "white");
        } else {
            push_str(&mut out, "black");
        }
        return out;
    }
    push_char(&mut out, if white_score >= 0 { '+' } else { '-' });
    crate::text::push_decimal(&mut out, (magnitude / 100) as u64);
    push_char(&mut out, '.');
    push_char(&mut out, (48u8 + ((magnitude % 100) / 10) as u8) as char);
    push_char(&mut out, (48u8 + (magnitude % 10) as u8) as char);
    out
}

impl Game {
    /// Takes back the human's last move and the engine's reply. Returns how
    /// many half-moves were undone.
    pub fn take_back(&mut self) -> (r: usize)
        requires
            old(self).wf(),
        ensures
            final(self).wf(),
            taken_back(*old(self), *final(self), r),
    {
        proof {
            assert(self.states@ =~= self.states@.take(self.plies + 1));
            assert(self.history_san@ =~= self.history_san@.take(self.plies as int));
            assert(self.seen@ =~= self.seen@.take(self.plies + 1));
        }
        if self.plies == 0 {
            return 0;
        }
        let count: usize = if self.plies >= 2 && !self.is_engines_turn() {
            2
        } else {
            1
        };
        let mut done: usize = 0;
        while done < count
            invariant
                self.wf(),
                done <= count <= old(self).plies,
                old(self).states@.len() == old(self).plies + 1,
                old(self).history_san@.len() == old(self).plies,
                old(self).seen@.len() == old(self).plies + 1,
                self.plies == old(self).plies - done,
                self.states@ == old(self).states@.take(self.plies + 1),
                self.history_san@ == old(self).history_san@.take(self.plies as int),
                self.seen@ == old(self).seen@.take(self.plies + 1),
                self.human == old(self).human,
                self.movetime == old(self).movetime,
                self.depth == old(self).depth,
                self.flipped == old(self).flipped,
                self.resigned == old(self).resigned,
                self.last_move == old(self).last_move,
            decreases count - done,
        {
            let ghost st = self.states@;
            proof {
                assert(can_unmake_state(st[(self.plies - 1) + 1]));
            }
            self.position.unmake_move();
            self.seen.pop();
            self.history_san.pop();
            self.plies = self.plies - 1;
            proof {
                self.states@ = st.drop_last();
                assert forall|k: int| 0 <= k < self.plies implies can_unmake_state(#[trigger] self.states@[k + 1])
                    && unmake_state(self.states@[k + 1]) == self.states@[k] && san_ready(self.states@[k]) by {
                    assert(self.states@[k + 1] == st[k + 1]);
                    assert(self.states@[k] == st[k]);
                }
                assert(san_ready(st[self.plies as int]));
                assert(self.states@ =~= old(self).states@.take(self.plies + 1));
                assert(self.history_san@ =~= old(self).history_san@.take(self.plies as int));
                assert(self.seen@ =~= old(self).seen@.take(self.plies + 1));
            }
            done = done + 1;
        }
        self.resigned = None;
        self.last_move = None;
        count
    }

    /// Replaces the board with a FEN position, keeping the current settings.
    /// A position play cannot go on from (a side without its king, castling
    /// rights or an en passant square the board does not bear out, the side
    /// not to move in check, a clock at its limit) is refused.
    pub fn set_position(&mut self, fen: &str) -> (r: Result<(), String>)
        requires
            old(self).wf(),
        ensures
            final(self).wf(),
            position_set(*old(self), *final(self), fen@, unit_view(r)),
    {
        let position = match Position::from_fen(fen) {
            Ok(p) => p,
            Err(e) => {
                return Err(e);
            },
        };
        let ok = is_sane(&position);
        proof {
            let f = fen_state_of(&position);
            let ps = PosState {
                board: f.board,
                side: f.side,
                castling: f.castling,
                en_passant: f.en_passant,
                halfmove: f.halfmove,
                fullmove: f.fullmove,
                hash: 0,
                history: Seq::empty(),
                repetitions: Seq::empty(),
            };
            assert(position.history@ =~= Seq::<crate::position::StateInfo>::empty());
            assert(position.repetitions@ =~= Seq::<u64>::empty());
            assert(sane(position.state()) == sane(ps));
        }
        let ok = ok && position.halfmove_clock < 0xfffe && position.fullmove_number < 0xfffe;
        if !ok {
            return Err(String::from_str("FEN: position cannot be played"));
        }
        self.position = position;
        let mut seen: Vec<u64> = Vec::new();
        seen.push(self.position.hash);
        self.seen = seen;
        self.history_san.clear();
        self.plies = 0;
        self.last_move = None;
        self.resigned = None;
        self.search.reset();
        proof {
            self.states@ = seq![self.position.state()];
        }
        Ok(())
    }
}

/// What an engine report says of a move `mv` found with `score` from the
/// side to move's point of view in `s`.
pub open spec fn reports_move(em: EngineMove, s: PosState, mv: Move, score: int) -> bool {
    &&& em.san@ == san_text(s, mv)
    &&& em.uci@ == move_text(mv)
    &&& em.score_cp == white_view(score, s.side)
    &&& em.score@ == score_for_human(score, s.side)
    &&& em.depth <= 127
}

impl Game {
    /// The search limits the engine plays with: a fixed depth when one was
    /// asked for, otherwise the move time.
    fn limits(&self) -> (l: SearchLimits)
        ensures
            l == (match self.depth {
                Some(d) => SearchLimits { depth: d, ..crate::search::default_limits() },
                None => SearchLimits { movetime: Some(self.movetime), ..crate::search::default_limits() },
            }),
            l.movetime is None ==> l.time[0] is None && l.time[1] is None,
            !l.infinite,
    {
        match self.depth {
            Some(depth) => SearchLimits::fixed_depth(depth),
            None => SearchLimits::fixed_time(self.movetime),
        }
    }

    /// Searches, plays the engine's move, and reports what it found.
    pub fn engine_reply(&mut self) -> (r: Option<EngineMove>)
        requires
            old(self).wf(),
        ensures
            final(self).wf(),
            engine_replied(*old(self), *final(self), r),
    {
        if self.outcome().is_some() {
            return None;
        }
        if self.position.halfmove_clock >= 0xffff - MAX_PLY as u16 || self.position.fullmove_number >= 0xffff - MAX_PLY as u16
            || self.plies >= usize::MAX - 1 {
            return None;
        }
        let ghost s = self.position.state();
        let limits = self.limits();
        let start = crate::search::clock_now();
        let result = self.search.think(&mut self.position, &limits);
        let millis = (crate::search::micros_since(&start) / 1000) as u128;
        if result.best_move.is_none() {
            proof {
                let m = choose|m: Move| #[trigger] legal_move(s, m);
            }
            return None;
        }
        let side = self.position.side_to_move;
        let white_pov: i32 = if side == Color::White {
            result.score
        } else {
            -result.score
        };
        let score = format_score(result.score, side);
        let uci = result.best_move.to_string();
        let ghost before = self.history_san@;
        let san = self.apply(result.best_move);
        assert(self.history_san@.drop_last() =~= before);
        let em = EngineMove {
            san,
            uci,
            score_cp: white_pov,
            score,
            depth: result.depth,
            nodes: result.nodes,
            millis,
        };
        assert(result.best_move != Move(0));
        assert(legal_move(s, result.best_move));
        assert(reports_move(em, s, result.best_move, result.score as int));
        let r = Some(em);
        assert(r is Some);
        assert(r->0 == em);
        assert(exists|mv: Move, score: int| legal_move(s, mv) && #[trigger] reports_move(r->0, s, mv, score));
        r
    }

    /// What the engine would play, without playing it.
    pub fn suggestion(&mut self) -> (r: Option<EngineMove>)
        requires
            old(self).wf(),
        ensures
            final(self).wf(),
            suggested(*old(self), *final(self), r),
    {
        if self.outcome().is_some() {
            return None;
        }
        if self.position.halfmove_clock >= 0xffff - MAX_PLY as u16 || self.position.fullmove_number >= 0xffff - MAX_PLY as u16
            || self.plies >= usize::MAX - 1 {
            return None;
        }
        let ghost s = self.position.state();
        let limits = SearchLimits::fixed_time(if self.movetime < 2000 {
            self.movetime
        } else {
            2000
        });
        let start = crate::search::clock_now();
        let result = self.search.think(&mut self.position, &limits);
        if result.best_move.is_none() {
            proof {
                let m = choose|m: Move| #[trigger] legal_move(s, m);
            }
            return None;
        }
        let side = self.position.side_to_move;
        let white_pov: i32 = if side == Color::White {
            result.score
        } else {
            -result.score
        };
        let san = to_san(&mut self.position, result.best_move);
        let em = EngineMove {
            san,
            uci: result.best_move.to_string(),
            score_cp: white_pov,
            score: format_score(result.score, side),
            depth: result.depth,
            nodes: result.nodes,
            millis: (crate::search::micros_since(&start) / 1000) as u128,
        };
        assert(result.best_move != Move(0));
        assert(legal_move(s, result.best_move));
        assert(reports_move(em, s, result.best_move, result.score as int));
        let r = Some(em);
        assert(r is Some);
        assert(r->0 == em);
        assert(exists|mv: Move, score: int| legal_move(s, mv) && #[trigger] reports_move(r->0, s, mv, score));
        r
    }
}

/// The bracket drawn before a square: `[` where the last move went, `(`
/// where it came from.
pub open spec fn open_mark(last: Option<Move>, sq: int) -> char {
    match last {
        Some(mv) => if mv.spec_to() == sq {
            '['
        } else if mv.spec_from() == sq {
            '('
        } else {
            ' '
        },
        None => ' ',
    }
}

/// The bracket drawn after a square.
pub open spec fn close_mark(last: Option<Move>, sq: int) -> char {
    match last {
        Some(mv) => if mv.spec_to() == sq {
            ']'
        } else if mv.spec_from() == sq {
            ')'
        } else {
            ' '
        },
        None => ' ',
    }
}

/// The letter of the piece on a square, or `.` when it is empty.
pub open spec fn symbol(x: Option<Piece>) -> char {
    match x {
        Some(p) => piece_char(p),
        None => '.',
    }
}

/// The rank shown on row `i` from the top.
pub open spec fn row_rank(flipped: bool, i: int) -> int {
    if flipped {
        i
    } else {
        7 - i
    }
}

/// The file shown in column `j` from the left.
pub open spec fn column_file(flipped: bool, j: int) -> int {
    if flipped {
        7 - j
    } else {
        j
    }
}

/// The first `j` cells of the row showing `rank`.
pub open spec fn cells(b: Seq<Option<Piece>>, last: Option<Move>, flipped: bool, rank: int, j: int) -> Seq<char>
    decreases j,
{
    if j <= 0 {
        Seq::empty()
    } else {
        let sq = rank * 8 + column_file(flipped, j - 1);
        cells(b, last, flipped, rank, j - 1) + seq![open_mark(last, sq), symbol(b[sq]), close_mark(last, sq)]
    }
}

/// The line of the board drawing row `i`.
pub open spec fn row_line(b: Seq<Option<Piece>>, last: Option<Move>, flipped: bool, i: int) -> Seq<char> {
    let rank = row_rank(flipped, i);
    "   "@ + seq![digit_char((rank + 1) as nat)] + " |"@ + cells(b, last, flipped, rank, 8) + "|\n"@
}

/// The first `i` rows of the board.
pub open spec fn rows(b: Seq<Option<Piece>>, last: Option<Move>, flipped: bool, i: int) -> Seq<char>
    decreases i,
{
    if i <= 0 {
        Seq::empty()
    } else {
        rows(b, last, flipped, i - 1) + row_line(b, last, flipped, i - 1)
    }
}

/// The first `j` file letters under the board.
pub open spec fn file_letters(flipped: bool, j: int) -> Seq<char>
    decreases j,
{
    if j <= 0 {
        Seq::empty()
    } else {
        file_letters(flipped, j - 1) + seq![' ', (97 + column_file(flipped, j - 1)) as char, ' ']
    }
}

/// The material note after the status line: nothing when level.
pub open spec fn balance_note(n: int) -> Seq<char> {
    if n == 0 {
        Seq::empty()
    } else if n > 0 {
        "   (white +"@ + decimal(n as nat) + ")"@
    } else {
        "   (black +"@ + decimal((-n) as nat) + ")"@
    }
}

pub const BORDER: &'static str = "     +------------------------+\n";

/// The whole board as `render` draws it.
pub open spec fn board_text(g: &Game) -> Seq<char> {
    let b = g.position.board@;
    let s = g.position.state();
    "\n"@ + BORDER@ + rows(b, g.last_move, g.flipped, 8) + BORDER@ + "      "@ + file_letters(g.flipped, 8) + "\n"@
        + "\n   move "@ + decimal(s.fullmove as nat) + ", "@ + (if s.side == Color::White {
        "white"@
    } else {
        "black"@
    }) + " to play"@ + (if attacked_on(b, king_on(b, s.side), s.side.spec_flip()) {
        " \u{2014} check!"@
    } else {
        Seq::empty()
    }) + balance_note(material(b)) + "\n"@
}

impl Game {
    /// Every legal move in UCI form, for a front-end to highlight.
    pub fn legal_uci(&self) -> (r: Vec<String>)
        requires
            self.wf(),
        ensures
            exists|l: Seq<Move>| {
                &&& l.no_duplicates()
                &&& forall|mv: Move| #[trigger] l.contains(mv) <==> legal_move(self.position.state(), mv)
                &&& l.len() == r@.len()
                &&& forall|i: int| 0 <= i < l.len() ==> #[trigger] r@[i]@ == move_text(l[i])
            },
    {
        let ghost s = self.position.state();
        let mut probe = self.position.clone();
        let legal = generate_legal_moves(&mut probe);
        let mut out: Vec<String> = Vec::new();
        let mut i: usize = 0;
        while i < legal.len()
            invariant
                i <= legal@.len(),
                out@.len() == i,
                forall|k: int| 0 <= k < i ==> #[trigger] out@[k]@ == move_text(legal@[k]),
            decreases legal@.len() - i,
        {
            out.push(legal[i].to_string());
            i = i + 1;
        }
        proof {
            assert forall|mv: Move| #[trigger] legal@.contains(mv) <==> legal_move(s, mv) by {
                if legal@.contains(mv) {
                    let k = choose|k: int| 0 <= k < legal@.len() && legal@[k] == mv;
                    assert(legal_move(s, legal@[k]));
                }
            }
        }
        out
    }

    /// The board, drawn from the side the human is playing, with the last
    /// move bracketed and a status line under it.
    #[verifier::rlimit(40)]
    pub fn render(&self) -> (r: String)
        requires
            self.wf(),
        ensures
            r@ == board_text(self),
    {
        let b = Ghost(self.position.board@);
        let mut out = String::new();
        push_str(&mut out, "\n");
        push_str(&mut out, BORDER);
        let ghost top = out@;
        let mut i: u8 = 0;
        while i < 8
            invariant
                i <= 8,
                b@ == self.position.board@,
                b@.len() == 64,
                out@ == top + rows(b@, self.last_move, self.flipped, i as int),
            decreases 8 - i,
        {
            let rank: u8 = if self.flipped { i } else { 7 - i };
            push_str(&mut out, "   ");
            push_char(&mut out, (49u8 + rank) as char);
            push_str(&mut out, " |");
            let ghost row_start = out@;
            let mut j: u8 = 0;
            while j < 8
                invariant
                    j <= 8,
                    rank < 8,
                    rank == row_rank(self.flipped, i as int),
                    b@ == self.position.board@,
                    b@.len() == 64,
                    out@ == row_start + cells(b@, self.last_move, self.flipped, rank as int, j as int),
                decreases 8 - j,
            {
                let file: u8 = if self.flipped { 7 - j } else { j };
                let sq: Square = rank * 8 + file;
                let marker = match self.last_move {
                    Some(mv) => if mv.to() == sq {
                        '['
                    } else if mv.from() == sq {
                        '('
                    } else {
                        ' '
                    },
                    None => ' ',
                };
                let piece_symbol = match self.position.piece_at(sq) {
                    Some(piece) => piece.to_char(),
                    None => '.',
                };
                let close = match self.last_move {
                    Some(mv) => if mv.to() == sq {
                        ']'
                    } else if mv.from() == sq {
                        ')'
                    } else {
                        ' '
                    },
                    None => ' ',
                };
                push_char(&mut out, marker);
                push_char(&mut out, piece_symbol);
                push_char(&mut out, close);
                j = j + 1;
            }
            push_str(&mut out, "|\n");
            i = i + 1;
        }
        push_str(&mut out, BORDER);
        push_str(&mut out, "      ");
        let ghost under = out@;
        let mut j: u8 = 0;
        while j < 8
            invariant
                j <= 8,
                out@ == under + file_letters(self.flipped, j as int),
            decreases 8 - j,
        {
            let file: u8 = if self.flipped { 7 - j } else { j };
            push_char(&mut out, ' ');
            push_char(&mut out, (97u8 + file) as char);
            push_char(&mut out, ' ');
            j = j + 1;
        }
        push_str(&mut out, "\n");
        let ghost board_part = out@;
        assert(board_part =~= "\n"@ + BORDER@ + rows(b@, self.last_move, self.flipped, 8) + BORDER@ + "      "@ + file_letters(self.flipped, 8) + "\n"@);
        let balance = material_balance(&self.position);
        push_str(&mut out, "\n   move ");
        crate::text::push_decimal(&mut out, self.position.fullmove_number as u64);
        push_str(&mut out, ", ");
        if self.position.side_to_move == Color::White {
            push_str(&mut out, "white");
        } else {
            push_str(&mut out, "black");
        }
        push_str(&mut out, " to play");
        let ghost before_check = out@;
        if self.position.in_check() {
            push_str(&mut out, " \u{2014} check!");
        }
        let ghost before_balance = out@;
        if balance > 0 {
            push_str(&mut out, "   (white +");
            crate::text::push_decimal(&mut out, balance as u64);
            push_str(&mut out, ")");
        } else if balance < 0 {
            push_str(&mut out, "   (black +");
            crate::text::push_decimal(&mut out, (-balance) as u64);
            push_str(&mut out, ")");
        }
        assert(out@ == before_balance + balance_note(material(b@)));
        push_str(&mut out, "\n");
        assert(out@ =~= board_text(self));
        out
    }
}

/// The colour a word names: `w`, `white`, `b` or `black`, in any case.
pub open spec fn color_named(t: Seq<char>) -> Option<Color> {
    if eq_ignore_ascii_case(t, "w"@) || eq_ignore_ascii_case(t, "white"@) {
        Some(Color::White)
    } else if eq_ignore_ascii_case(t, "b"@) || eq_ignore_ascii_case(t, "black"@) {
        Some(Color::Black)
    } else {
        None
    }
}

fn names(text: &str, word: &str) -> (r: bool)
    ensures
        r == eq_ignore_ascii_case(text@, word@),
{
    crate::text::chars_eq_ignore_case(&crate::text::chars_of(text), &crate::text::chars_of(word))
}

pub fn parse_color(text: &str) -> (r: Option<Color>)
    ensures
        r == color_named(text@),
{
    if names(text, "w") || names(text, "white") {
        Some(Color::White)
    } else if names(text, "b") || names(text, "black") {
        Some(Color::Black)
    } else {
        None
    }
}

/// The colour and thinking time the first `n` arguments after `play` ask
/// for: a colour word sets the colour, a number the time (at least 10 ms);
/// later arguments win.
pub open spec fn play_settings(args: Seq<String>, n: int) -> (Color, u64)
    decreases n,
{
    if n <= 0 {
        (Color::White, DEFAULT_MOVETIME_MS)
    } else {
        let (human, movetime) = play_settings(args, n - 1);
        let a = args[n - 1]@;
        match color_named(a) {
            Some(c) => (c, movetime),
            None => match unsigned_value(a, u64::MAX as nat) {
                Some(ms) => (human, if ms < 10 {
                    10u64
                } else {
                    ms as u64
                }),
                None => (human, movetime),
            },
        }
    }
}

/// Sets up a game from the command-line arguments after `play`: an optional
/// colour and an optional per-move thinking time in milliseconds.
pub fn start(args: &[String]) -> (g: Game)
    ensures
        g.wf(),
        g.human == play_settings(args@, args@.len() as int).0,
        g.movetime == play_settings(args@, args@.len() as int).1,
        g.plies == 0,
        g.depth is None,
{
    let mut human = Color::White;
    let mut movetime: u64 = DEFAULT_MOVETIME_MS;
    let mut i: usize = 0;
    while i < args.len()
        invariant
            i <= args@.len(),
            (human, movetime) == play_settings(args@, i as int),
        decreases args@.len() - i,
    {
        let arg = args[i].as_str();
        match parse_color(arg) {
            Some(color) => {
                human = color;
            },
            None => match crate::text::parse_u64(arg) {
                Some(ms) => {
                    movetime = if ms < 10 {
                        10
                    } else {
                        ms
                    };
                },
                None => {},
            },
        }
        i = i + 1;
    }
    let mut game = Game::new(human);
    game.movetime = movetime;
    game
}

/// `s` has more than one legal move and a mate in one whose position the
/// table `t` has never stored an entry under.
pub open spec fn open_mate_in_one(s: PosState, t: crate::tt::TranspositionTable) -> bool {
    &&& !(forall|m1: Move, m2: Move| legal_move(s, m1) && legal_move(s, m2) ==> m1 == m2)
    &&& exists|m: Move| #[trigger] mates(s, m) && t.never_held(make_state(s, m).hash)
}

/// `s` has more than one legal move, a mate in one, no mating position the
/// table `t` has stored an entry under, and every other move gives a quiet
/// reply (see `mates_or_quiet`).
pub open spec fn plain_mate_in_one(s: PosState, t: crate::tt::TranspositionTable) -> bool {
    &&& !(forall|m1: Move, m2: Move| legal_move(s, m1) && legal_move(s, m2) ==> m1 == m2)
    &&& mates_or_quiet(s)
    &&& mates_unheld(s, t)
    &&& exists|m: Move| #[trigger] mates(s, m)
}

/// What `engine_reply` does: nothing once the game is over or without room
/// to search; otherwise plays a legal move and reports it. An open mate in
/// one is reported as a mate found at depth 1, and a plain one is played,
/// unless the depth limit is 0 or the search was stopped.
pub open spec fn engine_replied(old: Game, new: Game, r: Option<EngineMove>) -> bool {
    &&& new.human == old.human
    &&& new.movetime == old.movetime
    &&& new.depth == old.depth
    &&& new.resigned == old.resigned
    &&& (old.outcome_spec() is Some || !room_for_search(&old)) ==> r is None && new.position.state()
        == old.position.state() && new.plies == old.plies
    &&& (old.outcome_spec() is None && room_for_search(&old)) ==> r is Some
    &&& r matches Some(em) ==> exists|mv: Move, score: int| {
        &&& legal_move(old.position.state(), mv)
        &&& #[trigger] reports_move(em, old.position.state(), mv, score)
        &&& new.position.state() == make_state(old.position.state(), mv)
        &&& new.plies == old.plies + 1
        &&& new.last_move == Some(mv)
        &&& new.history_san@.len() == old.history_san@.len() + 1
        &&& new.history_san@.last()@ == em.san@
        &&& new.history_san@.drop_last() == old.history_san@
        &&& old.depth != Some(0u32) && !new.search.stopped && open_mate_in_one(old.position.state(), new.search.tt)
            ==> score >= MATE - 1 && em.depth == 1
        &&& old.depth != Some(0u32) && !new.search.stopped && plain_mate_in_one(old.position.state(), new.search.tt)
            ==> score == MATE - 1 && mates(old.position.state(), mv)
    }
}

/// What `suggestion` does: reports the move the engine would play, with the
/// game itself unchanged. An open mate in one is reported as a mate found
/// at depth 1, and a plain one is the move suggested, unless the search was
/// stopped.
pub open spec fn suggested(old: Game, new: Game, r: Option<EngineMove>) -> bool {
    &&& new.position.state() == old.position.state()
    &&& new.plies == old.plies
    &&& new.states == old.states
    &&& new.history_san == old.history_san
    &&& new.seen == old.seen
    &&& new.last_move == old.last_move
    &&& new.human == old.human
    &&& new.movetime == old.movetime
    &&& new.depth == old.depth
    &&& new.resigned == old.resigned
    &&& new.flipped == old.flipped
    &&& (old.outcome_spec() is Some || !room_for_search(&old)) ==> r is None
    &&& (old.outcome_spec() is None && room_for_search(&old)) ==> r is Some
    &&& r matches Some(em) ==> exists|mv: Move, score: int| {
        &&& legal_move(old.position.state(), mv)
        &&& #[trigger] reports_move(em, old.position.state(), mv, score)
        &&& !new.search.stopped && open_mate_in_one(old.position.state(), new.search.tt) ==> score >= MATE - 1 && em.depth == 1
        &&& !new.search.stopped && plain_mate_in_one(old.position.state(), new.search.tt) ==> score == MATE - 1
            && mates(old.position.state(), mv)
    }
}

/// What `take_back` does: undoes nothing at the start, two plies (the
/// human's move and the engine's reply) when it is the human's turn with two
/// to undo, one otherwise; and clears a resignation and the last move.
pub open spec fn taken_back(old: Game, new: Game, r: usize) -> bool {
    &&& r == if old.plies == 0 {
        0usize
    } else if old.plies >= 2 && old.position.side_to_move == old.human {
        2usize
    } else {
        1usize
    }
    &&& r == 0 ==> new == old
    &&& new.plies == old.plies - r
    &&& new.position.state() == old.states@[new.plies as int]
    &&& new.states@ == old.states@.take(new.plies + 1)
    &&& new.history_san@ == old.history_san@.take(new.plies as int)
    &&& new.seen@ == old.seen@.take(new.plies + 1)
    &&& r > 0 ==> new.resigned is None && new.last_move is None
    &&& new.human == old.human
    &&& new.movetime == old.movetime
    &&& new.depth == old.depth
    &&& new.flipped == old.flipped
}

/// A `Result` with nothing on success, the error taken by its view.
pub open spec fn unit_view(r: Result<(), String>) -> Result<(), Seq<char>> {
    match r {
        Ok(_) => Ok(()),
        Err(e) => Err(e@),
    }
}

/// What `set_position` does with the FEN `fen`: sets up the position it
/// describes, with no history, when it can be read and played from; refuses
/// it otherwise, leaving the game as it was.
pub open spec fn position_set(old: Game, new: Game, fen: Seq<char>, r: Result<(), Seq<char>>) -> bool {
    &&& r is Ok <==> (fen_parse(fen) is Ok && fen_playable(fen_parse(fen)->Ok_0))
    &&& match r {
        Ok(_) => {
            &&& fen_parse(fen) == Ok::<FenState, Seq<char>>(fen_state_of(&new.position))
            &&& new.position.hash_ok()
            &&& new.position.history@.len() == 0
            &&& new.plies == 0
            &&& new.history_san@.len() == 0
            &&& new.seen@ == seq![new.position.hash]
            &&& new.last_move is None
            &&& new.resigned is None
            &&& new.human == old.human
            &&& new.movetime == old.movetime
            &&& new.depth == old.depth
            &&& new.flipped == old.flipped
            &&& new.output == old.output
        },
        Err(e) => {
            &&& new == old
            &&& (fen_parse(fen) == Err::<FenState, Seq<char>>(e) || (fen_parse(fen) is Ok && e == "FEN: position cannot be played"@))
        },
    }
}

pub const HELP: &'static str = "  <move>        play a move: e4, Nf3, exd5, O-O, e8=Q, or e2e4\n  moves         list every legal move\n  hint          ask the engine what it would play\n  undo          take back your last move (and the engine's reply)\n  board / flip  redraw the board / swap the orientation\n  eval          static evaluation of this position, no search\n  fen [<fen>]   show the current FEN, or set up a position\n  time <ms>     engine thinking time per move (default 1000)\n  depth <n>     search a fixed depth instead of a fixed time\n  new [w|b]     start a new game, optionally choosing your colour\n  resign        concede the game\n  quit          leave";

/// The messages said so far, as text.
pub open spec fn said(g: Game) -> Seq<Seq<char>> {
    g.output@.map_values(|m: String| m@)
}

/// `new` is `old` with `lines` said.
pub open spec fn says(old: Game, new: Game, lines: Seq<Seq<char>>) -> bool {
    said(new) == said(old) + lines
}

/// Everything but what was said is as it was.
pub open spec fn unchanged_but_output(old: Game, new: Game) -> bool {
    new == Game { output: new.output, ..old }
}

/// The legal-move listing: a count line, then the names eight to a line.
pub open spec fn listing(names: Seq<Seq<char>>) -> Seq<Seq<char>> {
    seq![decimal(names.len()) + " legal moves:"@] + listing_rows(names, 0)
}

/// The rows of the listing from name `i` on.
pub open spec fn listing_rows(names: Seq<Seq<char>>, i: int) -> Seq<Seq<char>>
    decreases names.len() - i,
{
    if i < 0 || i >= names.len() {
        Seq::empty()
    } else {
        let end = if i + 8 < names.len() {
            i + 8
        } else {
            names.len() as int
        };
        seq!["  "@ + joined(names.subrange(i, end), 0)] + listing_rows(names, end)
    }
}

/// Names from `j` on, two spaces apart.
pub open spec fn joined(names: Seq<Seq<char>>, j: int) -> Seq<char>
    decreases names.len() - j,
{
    if j < 0 || j >= names.len() {
        Seq::empty()
    } else {
        names[j] + (if j + 1 < names.len() {
            "  "@
        } else {
            Seq::empty()
        }) + joined(names, j + 1)
    }
}

impl Game {
    fn say(&mut self, text: String)
        ensures
            unchanged_but_output(*old(self), *final(self)),
            says(*old(self), *final(self), seq![text@]),
    {
        self.output.push(text);
        proof {
            assert(said(*self) =~= said(*old(self)) + seq![text@]);
        }
    }
}

/// Some entry of `idx` is `j`.
pub open spec fn covers(idx: Seq<usize>, j: int) -> bool {
    exists|k: int| 0 <= k < idx.len() && idx[k] == j
}

/// Positions `0..n` ordered so that their keys never decrease, each once.
fn sort_by_keys(keys: &Vec<Vec<char>>) -> (idx: Vec<usize>)
    ensures
        idx@.len() == keys@.len(),
        forall|k: int| 0 <= k < idx@.len() ==> #[trigger] idx@[k] < keys@.len(),
        forall|j: int| 0 <= j < keys@.len() ==> #[trigger] covers(idx@, j),
        forall|a: int, b: int| 0 <= a < b < idx@.len() ==> text_le(keys@[#[trigger] idx@[a] as int]@, keys@[#[trigger] idx@[b] as int]@),
{
    let mut out: Vec<usize> = Vec::new();
    let n = keys.len();
    let mut i: usize = 0;
    while i < n
        invariant
            n == keys@.len(),
            i <= n,
            out@.len() == i,
            forall|k: int| 0 <= k < out@.len() ==> #[trigger] out@[k] < i,
            forall|j: int| 0 <= j < i ==> #[trigger] covers(out@, j),
            forall|a: int, b: int| 0 <= a < b < out@.len() ==> text_le(keys@[#[trigger] out@[a] as int]@, keys@[#[trigger] out@[b] as int]@),
        decreases n - i,
    {
        // Find the first entry that must come after key `i`.
        let mut p: usize = 0;
        while p < out.len() && chars_le(&keys[out[p]], &keys[i])
            invariant
                n == keys@.len(),
                i < n,
                p <= out@.len(),
                forall|k: int| 0 <= k < out@.len() ==> #[trigger] out@[k] < i,
                forall|k: int| 0 <= k < p ==> text_le(keys@[#[trigger] out@[k] as int]@, keys@[i as int]@),
            decreases out@.len() - p,
        {
            p = p + 1;
        }
        let ghost before = out@;
        let ghost x = keys@[i as int]@;
        out.insert(p, i);
        proof {
            assert(out@ == before.insert(p as int, i));
            if p < before.len() {
                assert(!text_le(keys@[before[p as int] as int]@, x));
                lemma_text_total(keys@[before[p as int] as int]@, x);
            }
            assert forall|a: int, b: int| 0 <= a < b < out@.len() implies text_le(keys@[#[trigger] out@[a] as int]@, keys@[#[trigger] out@[b] as int]@) by {
                if b < p {
                    assert(out@[a] == before[a] && out@[b] == before[b]);
                } else if b == p {
                    assert(out@[a] == before[a]);
                } else if a < p {
                    assert(out@[a] == before[a] && out@[b] == before[b - 1]);
                    if p < before.len() {
                        if b - 1 > p {
                            lemma_text_trans(x, keys@[before[p as int] as int]@, keys@[before[b - 1] as int]@);
                        }
                        lemma_text_trans(keys@[before[a] as int]@, x, keys@[before[b - 1] as int]@);
                    }
                } else if a == p {
                    assert(out@[b] == before[b - 1]);
                    if b - 1 > p {
                        lemma_text_trans(x, keys@[before[p as int] as int]@, keys@[before[b - 1] as int]@);
                    }
                } else {
                    assert(out@[a] == before[a - 1] && out@[b] == before[b - 1]);
                }
            }
            assert forall|j: int| 0 <= j < i + 1 implies #[trigger] covers(out@, j) by {
                if j == i {
                    assert(out@[p as int] == j);
                } else {
                    assert(covers(before, j));
                    let k = choose|k: int| 0 <= k < before.len() && before[k] == j;
                    if k < p {
                        assert(out@[k] == j);
                    } else {
                        assert(out@[k + 1] == j);
                    }
                }
            }
            assert forall|k: int| 0 <= k < out@.len() implies #[trigger] out@[k] < i + 1 by {
                if k < p {
                    assert(out@[k] == before[k]);
                } else if k > p {
                    assert(out@[k] == before[k - 1]);
                }
            }
        }
        i = i + 1;
    }
    out
}

/// `names` holds the SAN of each move of `l`, which are the legal moves of
/// `s`, each once: as many names as moves, every move named, every name a
/// move's.
pub open spec fn names_of_moves(s: PosState, l: Seq<Move>, names: Seq<Seq<char>>) -> bool {
    &&& l.no_duplicates()
    &&& forall|mv: Move| #[trigger] l.contains(mv) <==> legal_move(s, mv)
    &&& l.len() == names.len()
    &&& forall|i: int| 0 <= i < l.len() ==> names.contains(san_text(s, #[trigger] l[i]))
    &&& forall|k: int| 0 <= k < names.len() ==> #[trigger] names_a_move(s, l, names[k])
}

/// `x` is the SAN of some move of `l`.
pub open spec fn names_a_move(s: PosState, l: Seq<Move>, x: Seq<char>) -> bool {
    exists|i: int| 0 <= i < l.len() && x == san_text(s, l[i])
}

/// The SAN names of the legal moves of `s`, sorted.
pub open spec fn sorted_names(s: PosState, names: Seq<Seq<char>>) -> bool {
    &&& forall|a: int, b: int| 0 <= a < b < names.len() ==> text_le(#[trigger] names[a], #[trigger] names[b])
    &&& exists|l: Seq<Move>| #[trigger] names_of_moves(s, l, names)
}

proof fn lemma_sorted_names(s: PosState, l: Seq<Move>, keys: Seq<Seq<char>>, idx: Seq<usize>)
    requires
        l.no_duplicates(),
        forall|mv: Move| legal_move(s, mv) ==> #[trigger] l.contains(mv),
        forall|k: int| 0 <= k < l.len() ==> legal_move(s, #[trigger] l[k]),
        keys.len() == l.len(),
        forall|k: int| 0 <= k < l.len() ==> #[trigger] keys[k] == san_text(s, l[k]),
        idx.len() == keys.len(),
        forall|k: int| 0 <= k < idx.len() ==> #[trigger] idx[k] < keys.len(),
        forall|j: int| 0 <= j < keys.len() ==> #[trigger] covers(idx, j),
        forall|a: int, b: int| 0 <= a < b < idx.len() ==> text_le(keys[#[trigger] idx[a] as int], keys[#[trigger] idx[b] as int]),
    ensures
        sorted_names(s, idx.map_values(|k: usize| keys[k as int])),
{
    let names = idx.map_values(|k: usize| keys[k as int]);
    assert forall|a: int, b: int| 0 <= a < b < names.len() implies text_le(#[trigger] names[a], #[trigger] names[b]) by {
        assert(names[a] == keys[idx[a] as int]);
        assert(names[b] == keys[idx[b] as int]);
    }
    assert forall|mv: Move| #[trigger] l.contains(mv) <==> legal_move(s, mv) by {
        if l.contains(mv) {
            let k = choose|k: int| 0 <= k < l.len() && l[k] == mv;
            assert(legal_move(s, l[k]));
        }
    }
    assert forall|j: int| 0 <= j < l.len() implies names.contains(san_text(s, #[trigger] l[j])) by {
        assert(covers(idx, j));
        let k = choose|k: int| 0 <= k < idx.len() && idx[k] == j;
        assert(names[k] == keys[idx[k] as int]);
        assert(keys[j] == san_text(s, l[j]));
    }
    assert forall|k: int| 0 <= k < names.len() implies #[trigger] names_a_move(s, l, names[k]) by {
        let j = idx[k] as int;
        assert(names[k] == keys[j]);
        assert(keys[j] == san_text(s, l[j]));
    }
    assert(names_of_moves(s, l, names));
}

impl Game {
    /// The SAN of every legal move, and the order that sorts them.
    fn legal_names(&self) -> (r: (Vec<Vec<char>>, Vec<usize>))
        requires
            self.wf(),
        ensures
            r.1@.len() == r.0@.len(),
            forall|k: int| 0 <= k < r.1@.len() ==> #[trigger] r.1@[k] < r.0@.len(),
            sorted_names(self.position.state(), r.1@.map_values(|k: usize| r.0@[k as int]@)),
    {
        let ghost s = self.position.state();
        let mut probe = self.position.clone();
        let legal = generate_legal_moves(&mut probe);
        let mut keys: Vec<Vec<char>> = Vec::new();
        let mut i: usize = 0;
        while i < legal.len()
            invariant
                probe.wf(),
                probe.state() == s,
                san_ready(s),
                i <= legal@.len(),
                keys@.len() == i,
                forall|k: int| 0 <= k < legal@.len() ==> legal_move(s, #[trigger] legal@[k]),
                forall|k: int| 0 <= k < i ==> (#[trigger] keys@[k])@ == san_text(s, legal@[k]),
            decreases legal@.len() - i,
        {
            let san = to_san(&mut probe, legal[i]);
            keys.push(crate::text::chars_of(san.as_str()));
            i = i + 1;
        }
        let idx = sort_by_keys(&keys);
        let ghost views = keys@.map_values(|v: Vec<char>| v@);
        proof {
            assert forall|k: int| 0 <= k < legal@.len() implies #[trigger] views[k] == san_text(s, legal@[k]) by {
                assert(views[k] == keys@[k]@);
            }
            assert forall|a: int, b: int| 0 <= a < b < idx@.len() implies text_le(views[#[trigger] idx@[a] as int], views[#[trigger] idx@[b] as int]) by {
                assert(text_le(keys@[idx@[a] as int]@, keys@[idx@[b] as int]@));
            }
            lemma_sorted_names(s, legal@, views, idx@);
            assert(idx@.map_values(|k: usize| views[k as int]) =~= idx@.map_values(|k: usize| keys@[k as int]@));
        }
        (keys, idx)
    }

    /// Lists every legal move in SAN, sorted, eight to a line.
    fn list_moves(&mut self)
        requires
            old(self).wf(),
        ensures
            unchanged_but_output(*old(self), *final(self)),
            exists|names: Seq<Seq<char>>| sorted_names(old(self).position.state(), names)
                && #[trigger] says(*old(self), *final(self), listing(names)),
    {
        let (keys, idx) = self.legal_names();
        let ghost names = idx@.map_values(|k: usize| keys@[k as int]@);
        let mut count = String::new();
        crate::text::push_decimal(&mut count, idx.len() as u64);
        push_str(&mut count, " legal moves:");
        let ghost start = *self;
        self.say(count);
        let ghost target = said(start) + listing(names);
        proof {
            assert(said(*self) + listing_rows(names, 0) =~= target);
        }
        let n = idx.len();
        let mut row: usize = 0;
        while row < n
            invariant
                n == idx@.len(),
                n == names.len(),
                names == idx@.map_values(|k: usize| keys@[k as int]@),
                forall|k: int| 0 <= k < idx@.len() ==> #[trigger] idx@[k] < keys@.len(),
                row <= n,
                unchanged_but_output(start, *self),
                said(*self) + listing_rows(names, row as int) == target,
            decreases n - row,
        {
            let end: usize = if n - row > 8 {
                row + 8
            } else {
                n
            };
            let ghost part = names.subrange(row as int, end as int);
            let mut line = String::new();
            push_str(&mut line, "  ");
            let mut j: usize = row;
            while j < end
                invariant
                    row <= j <= end <= n,
                    n == idx@.len(),
                    part == names.subrange(row as int, end as int),
                    names == idx@.map_values(|k: usize| keys@[k as int]@),
                    forall|k: int| 0 <= k < idx@.len() ==> #[trigger] idx@[k] < keys@.len(),
                    line@ + joined(part, j - row) == "  "@ + joined(part, 0),
                decreases end - j,
            {
                let name = crate::text::string_of(&keys[idx[j]]);
                proof {
                    assert(part[j - row] == names[j as int]);
                    assert(names[j as int] == keys@[idx@[j as int] as int]@);
                }
                push_str(&mut line, name.as_str());
                if j + 1 < end {
                    push_str(&mut line, "  ");
                }
                j = j + 1;
            }
            proof {
                assert(joined(part, j - row) == Seq::<char>::empty());
            }
            self.say(line);
            proof {
                assert(listing_rows(names, row as int) == seq!["  "@ + joined(part, 0)] + listing_rows(names, end as int));
            }
            row = end;
        }
        proof {
            assert(listing_rows(names, row as int) == Seq::<Seq<char>>::empty());
            assert(says(start, *self, listing(names)));
        }
    }
}

/// A text with its ASCII letters in lower case.
pub open spec fn lower_text(t: Seq<char>) -> Seq<char> {
    t.map_values(|c: char| crate::text::lower(c))
}

/// Words `i..` joined by single spaces.
pub open spec fn spaced(ws: Seq<Seq<char>>, i: int) -> Seq<char>
    decreases ws.len() - i,
{
    if i < 0 || i >= ws.len() {
        Seq::empty()
    } else {
        ws[i] + (if i + 1 < ws.len() {
            seq![' ']
        } else {
            Seq::empty()
        }) + spaced(ws, i + 1)
    }
}

/// What is said after a move typed at the terminal.
pub open spec fn try_lines(r: Result<Seq<char>, Seq<char>>) -> Seq<Seq<char>> {
    match r {
        Ok(san) => seq!["You play "@ + san],
        Err(why) => if why.len() > 0 && why[0] == '\'' {
            seq![why + " \u{2014} try 'moves' for the list"@]
        } else {
            seq![why]
        },
    }
}

/// What is said after asking for a hint.
pub open spec fn hint_lines(r: Option<EngineMove>) -> Seq<Seq<char>> {
    match r {
        Some(best) => seq!["suggestion: "@ + best.san@ + "   ["@ + best.score@ + ", depth "@ + decimal(best.depth as nat) + "]"@],
        None => seq!["the game is over"@],
    }
}

/// What is said after an undo: the board is redrawn when something was.
pub open spec fn undo_lines(n: usize, g: &Game) -> Seq<Seq<char>> {
    if n == 0 {
        seq!["nothing to undo"@]
    } else {
        seq!["took back "@ + decimal(n as nat) + " half-move(s)"@, board_text(g)]
    }
}

/// `fen <text>` sets up the position and redraws the board, or says why not.
pub open spec fn fen_set(old: Game, new: Game, fen: Seq<char>) -> bool {
    exists|mid: Game, r: Result<(), Seq<char>>| {
        &&& #[trigger] position_set(old, mid, fen, r)
        &&& unchanged_but_output(mid, new)
        &&& says(mid, new, match r {
            Ok(_) => seq![board_text(&mid)],
            Err(e) => seq!["bad FEN: "@ + e],
        })
    }
}

/// `hint` asks the engine and says what it would play.
pub open spec fn hint_given(old: Game, new: Game) -> bool {
    exists|mid: Game, r: Option<EngineMove>| {
        &&& #[trigger] suggested(old, mid, r)
        &&& unchanged_but_output(mid, new)
        &&& says(mid, new, hint_lines(r))
    }
}

/// `undo` takes back what it can and says how much.
pub open spec fn undone(old: Game, new: Game) -> bool {
    exists|mid: Game, n: usize| {
        &&& #[trigger] taken_back(old, mid, n)
        &&& unchanged_but_output(mid, new)
        &&& says(mid, new, undo_lines(n, &mid))
    }
}

/// A typed move is played, or refused with the reason.
pub open spec fn move_typed(old: Game, new: Game, line: Seq<char>) -> bool {
    exists|mid: Game, r: Result<Seq<char>, Seq<char>>| {
        &&& #[trigger] move_played(old, mid, line, r)
        &&& unchanged_but_output(mid, new)
        &&& says(mid, new, try_lines(r))
    }
}

/// `new [colour]` starts a new game and draws it.
pub open spec fn restarted(old: Game, new: Game, color: Color) -> bool {
    &&& new.wf()
    &&& new.human == color
    &&& new.plies == 0
    &&& new.movetime == DEFAULT_MOVETIME_MS
    &&& new.depth is None
    &&& new.flipped == (color == Color::Black)
    &&& new.last_move is None
    &&& new.resigned is None
    &&& new.position.side_to_move == Color::White
    &&& forall|i: int| 0 <= i < 64 ==> #[trigger] new.position.board@[i] == crate::position::start_piece(i)
    &&& said(new) == said(old) + seq![board_text(&new)]
}

/// What one terminal command did to the game, and whether to go on.
#[verifier::opaque]
pub open spec fn terminal_effect(old: Game, new: Game, line: Seq<char>, flow: Flow) -> bool {
    let ws = words(line);
    if ws.len() == 0 {
        new == old && flow == Flow::Continue
    } else {
        let cmd = lower_text(ws[0]);
        let rest = ws.subrange(1, ws.len() as int);
        if cmd == "quit"@ || cmd == "exit"@ || cmd == "q"@ {
            new == old && flow == Flow::Quit
        } else {
            &&& flow == Flow::Continue
            &&& if cmd == "help"@ || cmd == "?"@ {
                unchanged_but_output(old, new) && says(old, new, seq![HELP@])
            } else if cmd == "board"@ || cmd == "d"@ {
                unchanged_but_output(old, new) && says(old, new, seq![board_text(&old)])
            } else if cmd == "moves"@ {
                &&& unchanged_but_output(old, new)
                &&& exists|names: Seq<Seq<char>>| sorted_names(old.position.state(), names) && #[trigger] says(old, new, listing(names))
            } else if cmd == "fen"@ {
                if rest.len() == 0 {
                    unchanged_but_output(old, new) && says(old, new, seq![fen_text(fen_state_of(&old.position))])
                } else {
                    fen_set(old, new, spaced(rest, 0))
                }
            } else if cmd == "eval"@ {
                &&& unchanged_but_output(old, new)
                &&& says(old, new, seq!["static evaluation: "@ + score_for_human(evaluation(&old.position), old.position.side_to_move)])
            } else if cmd == "hint"@ {
                hint_given(old, new)
            } else if cmd == "undo"@ {
                undone(old, new)
            } else if cmd == "new"@ {
                restarted(old, new, if rest.len() > 0 && color_named(rest[0]) is Some {
                    color_named(rest[0])->0
                } else {
                    old.human
                })
            } else if cmd == "flip"@ {
                new == Game { flipped: !old.flipped, output: new.output, ..old } && says(old, new, seq![board_text(&new)])
            } else if cmd == "time"@ {
                match if rest.len() > 0 { unsigned_value(rest[0], u64::MAX as nat) } else { None } {
                    Some(ms) => {
                        let t: u64 = if ms < 10 { 10 } else { ms as u64 };
                        new == Game { movetime: t, depth: None, output: new.output, ..old }
                            && says(old, new, seq!["engine will think for "@ + decimal(t as nat) + " ms per move"@])
                    },
                    None => unchanged_but_output(old, new) && says(old, new, seq!["usage: time <milliseconds>"@]),
                }
            } else if cmd == "depth"@ {
                match if rest.len() > 0 { unsigned_value(rest[0], u32::MAX as nat) } else { None } {
                    Some(d) => {
                        let v: u32 = if d < 1 { 1 } else if d > 100 { 100 } else { d as u32 };
                        new == Game { depth: Some(v), output: new.output, ..old }
                            && says(old, new, seq!["engine will search to depth "@ + decimal(v as nat)])
                    },
                    None => unchanged_but_output(old, new) && says(old, new, seq!["usage: depth <plies>"@]),
                }
            } else if cmd == "resign"@ {
                new == Game { resigned: Some(old.human), output: new.output, ..old } && says(old, new, seq!["You resign."@])
            } else {
                move_typed(old, new, line)
            }
        }
    }
}

pub fn lower_chars(t: &Vec<char>) -> (r: Vec<char>)
    ensures
        r@ == lower_text(t@),
{
    let mut r: Vec<char> = Vec::new();
    let mut i: usize = 0;
    while i < t.len()
        invariant
            i <= t@.len(),
            r@ == lower_text(t@.subrange(0, i as int)),
        decreases t@.len() - i,
    {
        r.push(crate::text::to_lower(t[i]));
        i = i + 1;
        assert(r@ =~= lower_text(t@.subrange(0, i as int)));
    }
    assert(t@.subrange(0, i as int) =~= t@);
    r
}

fn is_word(cmd: &Vec<char>, word: &str) -> (r: bool)
    ensures
        r == (cmd@ == word@),
{
    crate::text::chars_eq(cmd, &crate::text::chars_of(word))
}

/// Words `i..` of `ws` joined by single spaces.
pub fn join_words(ws: &Vec<Vec<char>>, i: usize) -> (r: Vec<char>)
    requires
        i <= ws@.len(),
    ensures
        r@ == spaced(ws@.map_values(|w: Vec<char>| w@), i as int),
{
    let ghost v = ws@.map_values(|w: Vec<char>| w@);
    let mut out: Vec<char> = Vec::new();
    let mut j: usize = i;
    while j < ws.len()
        invariant
            i <= j <= ws@.len(),
            v == ws@.map_values(|w: Vec<char>| w@),
            out@ + spaced(v, j as int) == spaced(v, i as int),
        decreases ws@.len() - j,
    {
        let w = &ws[j];
        let mut k: usize = 0;
        let ghost before = out@;
        while k < w.len()
            invariant
                k <= w@.len(),
                out@ == before + w@.subrange(0, k as int),
            decreases w@.len() - k,
        {
            out.push(w[k]);
            k = k + 1;
            assert(out@ =~= before + w@.subrange(0, k as int));
        }
        assert(w@.subrange(0, k as int) =~= w@);
        assert(v[j as int] == w@);
        if j + 1 < ws.len() {
            out.push(' ');
        }
        proof {
            assert(spaced(v, j as int) == v[j as int] + (if j + 1 < v.len() { seq![' '] } else { Seq::<char>::empty() }) + spaced(v, j + 1));
            assert(out@ + spaced(v, j + 1) =~= before + spaced(v, j as int));
        }
        j = j + 1;
    }
    assert(spaced(v, j as int) == Seq::<char>::empty());
    assert(out@ =~= spaced(v, i as int));
    out
}

impl Game {
    fn fen_command(&mut self, fen: &str)
        requires
            old(self).wf(),
        ensures
            final(self).wf(),
            fen_set(*old(self), *final(self), fen@),
    {
        let ghost start = *self;
        let r = self.set_position(fen);
        let ghost mid = *self;
        match r {
            Ok(_) => {
                let board = self.render();
                self.say(board);
            },
            Err(e) => {
                let mut m = String::new();
                push_str(&mut m, "bad FEN: ");
                push_str(&mut m, e.as_str());
                self.say(m);
            },
        }
        assert(position_set(start, mid, fen@, unit_view(r)));
    }

    fn hint_command(&mut self)
        requires
            old(self).wf(),
        ensures
            final(self).wf(),
            hint_given(*old(self), *final(self)),
    {
        let ghost start = *self;
        let best = self.suggestion();
        let ghost mid = *self;
        let mut m = String::new();
        match &best {
            Some(b) => {
                push_str(&mut m, "suggestion: ");
                push_str(&mut m, b.san.as_str());
                push_str(&mut m, "   [");
                push_str(&mut m, b.score.as_str());
                push_str(&mut m, ", depth ");
                crate::text::push_decimal(&mut m, b.depth as u64);
                push_str(&mut m, "]");
            },
            None => push_str(&mut m, "the game is over"),
        }
        self.say(m);
        assert(suggested(start, mid, best));
    }

    fn undo_command(&mut self)
        requires
            old(self).wf(),
        ensures
            final(self).wf(),
            undone(*old(self), *final(self)),
    {
        let ghost start = *self;
        let n = self.take_back();
        let ghost mid = *self;
        if n == 0 {
            self.say(String::from_str("nothing to undo"));
        } else {
            let mut m = String::new();
            push_str(&mut m, "took back ");
            crate::text::push_decimal(&mut m, n as u64);
            push_str(&mut m, " half-move(s)");
            let board = self.render();
            self.say(m);
            self.say(board);
            assert(said(*self) =~= said(mid) + undo_lines(n, &mid));
        }
        assert(taken_back(start, mid, n));
    }

    fn move_command(&mut self, line: &str)
        requires
            old(self).wf(),
        ensures
            final(self).wf(),
            move_typed(*old(self), *final(self), line@),
    {
        let ghost start = *self;
        let r = self.play_move(line);
        let ghost mid = *self;
        let mut m = String::new();
        match &r {
            Ok(san) => {
                push_str(&mut m, "You play ");
                push_str(&mut m, san.as_str());
            },
            Err(why) => {
                push_str(&mut m, why.as_str());
                let w = crate::text::chars_of(why.as_str());
                if w.len() > 0 && w[0] == '\'' {
                    push_str(&mut m, " \u{2014} try 'moves' for the list");
                }
            },
        }
        self.say(m);
        assert(move_played(start, mid, line@, result_view(r)));
    }

    fn new_command(&mut self, color: Color)
        requires
            old(self).wf(),
        ensures
            restarted(*old(self), *final(self), color),
    {
        let mut game = Game::new(color);
        std::mem::swap(&mut game.output, &mut self.output);
        *self = game;
        let board = self.render();
        self.say(board);
    }

    /// Runs one terminal command: a move, or one of the helper commands.
    /// What it has to say is added to `output`.
    #[verifier::rlimit(80)]
    pub fn execute(&mut self, line: &str) -> (flow: Flow)
        requires
            old(self).wf(),
        ensures
            final(self).wf(),
            terminal_effect(*old(self), *final(self), line@, flow),
    {
        proof {
            reveal(terminal_effect);
        }
        let cs = crate::text::chars_of(line);
        let ws = crate::fen::split_words(&cs);
        let ghost wsv = words(line@);
        proof {
            assert(ws@.map_values(|w: Vec<char>| w@) =~= wsv);
        }
        if ws.len() == 0 {
            return Flow::Continue;
        }
        let cmd = lower_chars(&ws[0]);
        let ghost rest = wsv.subrange(1, wsv.len() as int);
        if is_word(&cmd, "quit") || is_word(&cmd, "exit") || is_word(&cmd, "q") {
            return Flow::Quit;
        }
        if is_word(&cmd, "help") || is_word(&cmd, "?") {
            self.say(String::from_str(HELP));
        } else if is_word(&cmd, "board") || is_word(&cmd, "d") {
            let board = self.render();
            self.say(board);
        } else if is_word(&cmd, "moves") {
            self.list_moves();
        } else if is_word(&cmd, "fen") {
            if ws.len() == 1 {
                let fen = self.fen();
                self.say(fen);
            } else {
                let joined = join_words(&ws, 1);
                proof {
                    assert(ws@.map_values(|w: Vec<char>| w@) == wsv);
                    lemma_spaced_shift(wsv, 1);
                }
                let text = crate::text::string_of(&joined);
                self.fen_command(text.as_str());
            }
        } else if is_word(&cmd, "eval") {
            let score = crate::eval::evaluate(&self.position);
            let mut m = String::new();
            push_str(&mut m, "static evaluation: ");
            let text = format_score(score, self.position.side_to_move);
            push_str(&mut m, text.as_str());
            self.say(m);
        } else if is_word(&cmd, "hint") {
            self.hint_command();
        } else if is_word(&cmd, "undo") {
            self.undo_command();
        } else if is_word(&cmd, "new") {
            let color = if ws.len() > 1 {
                match parse_color(crate::text::string_of(&ws[1]).as_str()) {
                    Some(c) => c,
                    None => self.human,
                }
            } else {
                self.human
            };
            self.new_command(color);
        } else if is_word(&cmd, "flip") {
            self.flipped = !self.flipped;
            let board = self.render();
            self.say(board);
        } else if is_word(&cmd, "time") {
            let value = if ws.len() > 1 {
                crate::text::parse_u64_chars(&ws[1])
            } else {
                None
            };
            match value {
                Some(ms) => {
                    self.movetime = if ms < 10 {
                        10
                    } else {
                        ms
                    };
                    self.depth = None;
                    let mut m = String::new();
                    push_str(&mut m, "engine will think for ");
                    crate::text::push_decimal(&mut m, self.movetime);
                    push_str(&mut m, " ms per move");
                    self.say(m);
                },
                None => self.say(String::from_str("usage: time <milliseconds>")),
            }
        } else if is_word(&cmd, "depth") {
            let value = if ws.len() > 1 {
                crate::text::parse_u64_chars(&ws[1])
            } else {
                None
            };
            match value {
                Some(d) if d <= u32::MAX as u64 => {
                    let v: u32 = if d < 1 {
                        1
                    } else if d > 100 {
                        100
                    } else {
                        d as u32
                    };
                    self.depth = Some(v);
                    let mut m = String::new();
                    push_str(&mut m, "engine will search to depth ");
                    crate::text::push_decimal(&mut m, v as u64);
                    self.say(m);
                },
                _ => self.say(String::from_str("usage: depth <plies>")),
            }
        } else if is_word(&cmd, "resign") {
            self.resign();
            self.say(String::from_str("You resign."));
        } else {
            self.move_command(line);
        }
        Flow::Continue
    }
}

proof fn lemma_spaced_shift(ws: Seq<Seq<char>>, i: int)
    requires
        0 <= i <= ws.len(),
    ensures
        spaced(ws, i) == spaced(ws.subrange(i, ws.len() as int), 0),
{
    lemma_spaced_from(ws, i, i);
}

proof fn lemma_spaced_from(ws: Seq<Seq<char>>, i: int, j: int)
    requires
        0 <= i <= j <= ws.len(),
    ensures
        spaced(ws, j) == spaced(ws.subrange(i, ws.len() as int), j - i),
    decreases ws.len() - j,
{
    if j < ws.len() {
        lemma_spaced_from(ws, i, j + 1);
        assert(ws.subrange(i, ws.len() as int)[j - i] == ws[j]);
    }
}

} // verus!
