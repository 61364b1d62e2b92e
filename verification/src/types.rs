//! Core value types: colours, pieces, squares and the packed move encoding.
use vstd::prelude::*;
use crate::text::{push_char, chars_of};

pub mod move_flags;

verus! {

#[derive(Clone, Copy, PartialEq, Eq, Debug, Hash, Structural)]
pub enum Color {
    White,
    Black,
}

impl Color {
    pub open spec fn spec_flip(self) -> Color {
        match self {
            Color::White => Color::Black,
            Color::Black => Color::White,
        }
    }

    #[verifier::when_used_as_spec(spec_flip)]
    pub fn flip(self) -> (c: Color)
        ensures
            c == self.spec_flip(),
    {
        match self {
            Color::White => Color::Black,
            Color::Black => Color::White,
        }
    }

    pub open spec fn spec_index(self) -> usize {
        match self {
            Color::White => 0,
            Color::Black => 1,
        }
    }

    #[verifier::when_used_as_spec(spec_index)]
    pub fn index(self) -> (i: usize)
        ensures
            i == self.spec_index(),
    {
        match self {
            Color::White => 0,
            Color::Black => 1,
        }
    }

    pub fn from_index(i: usize) -> (c: Color)
        ensures
            c == (if i == 0 { Color::White } else { Color::Black }),
    {
        if i == 0 {
            Color::White
        } else {
            Color::Black
        }
    }
}

#[derive(Clone, Copy, PartialEq, Eq, Debug, Hash, Structural)]
pub enum PieceType {
    Pawn,
    Knight,
    Bishop,
    Rook,
    Queen,
    King,
}

pub open spec fn piece_type_of_index(i: int) -> PieceType {
    if i == 0 {
        PieceType::Pawn
    } else if i == 1 {
        PieceType::Knight
    } else if i == 2 {
        PieceType::Bishop
    } else if i == 3 {
        PieceType::Rook
    } else if i == 4 {
        PieceType::Queen
    } else {
        PieceType::King
    }
}

/// Lower-case letter of a piece type, as FEN and UCI write black pieces.
pub open spec fn piece_type_char(pt: PieceType) -> char {
    match pt {
        PieceType::Pawn => 'p',
        PieceType::Knight => 'n',
        PieceType::Bishop => 'b',
        PieceType::Rook => 'r',
        PieceType::Queen => 'q',
        PieceType::King => 'k',
    }
}

/// Upper-case letter of a piece type, as FEN writes white pieces.
pub open spec fn piece_type_upper(pt: PieceType) -> char {
    match pt {
        PieceType::Pawn => 'P',
        PieceType::Knight => 'N',
        PieceType::Bishop => 'B',
        PieceType::Rook => 'R',
        PieceType::Queen => 'Q',
        PieceType::King => 'K',
    }
}

/// The piece type a letter names, in either case.
pub open spec fn piece_type_from_char(c: char) -> Option<PieceType> {
    if c == 'p' || c == 'P' {
        Some(PieceType::Pawn)
    } else if c == 'n' || c == 'N' {
        Some(PieceType::Knight)
    } else if c == 'b' || c == 'B' {
        Some(PieceType::Bishop)
    } else if c == 'r' || c == 'R' {
        Some(PieceType::Rook)
    } else if c == 'q' || c == 'Q' {
        Some(PieceType::Queen)
    } else if c == 'k' || c == 'K' {
        Some(PieceType::King)
    } else {
        None
    }
}

impl PieceType {
    pub open spec fn spec_index(self) -> usize {
        match self {
            PieceType::Pawn => 0,
            PieceType::Knight => 1,
            PieceType::Bishop => 2,
            PieceType::Rook => 3,
            PieceType::Queen => 4,
            PieceType::King => 5,
        }
    }

    #[verifier::when_used_as_spec(spec_index)]
    pub fn index(self) -> (i: usize)
        ensures
            i == self.spec_index(),
            i < 6,
    {
        match self {
            PieceType::Pawn => 0,
            PieceType::Knight => 1,
            PieceType::Bishop => 2,
            PieceType::Rook => 3,
            PieceType::Queen => 4,
            PieceType::King => 5,
        }
    }

    pub fn from_index(i: usize) -> (pt: PieceType)
        requires
            i < 6,
        ensures
            pt == piece_type_of_index(i as int),
            pt.index() == i,
    {
        if i == 0 {
            PieceType::Pawn
        } else if i == 1 {
            PieceType::Knight
        } else if i == 2 {
            PieceType::Bishop
        } else if i == 3 {
            PieceType::Rook
        } else if i == 4 {
            PieceType::Queen
        } else {
            PieceType::King
        }
    }

    pub fn to_char(self) -> (c: char)
        ensures
            c == piece_type_char(self),
    {
        match self {
            PieceType::Pawn => 'p',
            PieceType::Knight => 'n',
            PieceType::Bishop => 'b',
            PieceType::Rook => 'r',
            PieceType::Queen => 'q',
            PieceType::King => 'k',
        }
    }

    pub fn from_char(c: char) -> (pt: Option<PieceType>)
        ensures
            pt == piece_type_from_char(c),
    {
        if c == 'p' || c == 'P' {
            Some(PieceType::Pawn)
        } else if c == 'n' || c == 'N' {
            Some(PieceType::Knight)
        } else if c == 'b' || c == 'B' {
            Some(PieceType::Bishop)
        } else if c == 'r' || c == 'R' {
            Some(PieceType::Rook)
        } else if c == 'q' || c == 'Q' {
            Some(PieceType::Queen)
        } else if c == 'k' || c == 'K' {
            Some(PieceType::King)
        } else {
            None
        }
    }
}

#[derive(Clone, Copy, PartialEq, Eq, Debug, Hash, Structural)]
pub struct Piece {
    pub color: Color,
    pub piece_type: PieceType,
}

/// The FEN letter of a piece: upper case for white, lower case for black.
pub open spec fn piece_char(p: Piece) -> char {
    match p.color {
        Color::White => piece_type_upper(p.piece_type),
        Color::Black => piece_type_char(p.piece_type),
    }
}

/// The piece a FEN letter names: the case gives the colour.
pub open spec fn piece_from_char(c: char) -> Option<Piece> {
    match piece_type_from_char(c) {
        Some(pt) => Some(Piece {
            color: if 'A' <= c && c <= 'Z' { Color::White } else { Color::Black },
            piece_type: pt,
        }),
        None => None,
    }
}

impl Piece {
    pub fn new(color: Color, piece_type: PieceType) -> (p: Piece)
        ensures
            p.color == color,
            p.piece_type == piece_type,
    {
        Piece { color, piece_type }
    }

    pub open spec fn spec_index(self) -> usize {
        (self.color.spec_index() * 6 + self.piece_type.spec_index()) as usize
    }

    /// Dense 0..12 index used for zobrist keys and lookup tables.
    #[verifier::when_used_as_spec(spec_index)]
    pub fn index(self) -> (i: usize)
        ensures
            i == self.spec_index(),
            i < 12,
    {
        self.color.index() * 6 + self.piece_type.index()
    }

    pub fn to_char(self) -> (c: char)
        ensures
            c == piece_char(self),
    {
        match self.color {
            Color::White => match self.piece_type {
                PieceType::Pawn => 'P',
                PieceType::Knight => 'N',
                PieceType::Bishop => 'B',
                PieceType::Rook => 'R',
                PieceType::Queen => 'Q',
                PieceType::King => 'K',
            },
            Color::Black => self.piece_type.to_char(),
        }
    }

    pub fn from_char(c: char) -> (p: Option<Piece>)
        ensures
            p == piece_from_char(c),
    {
        let piece_type = match PieceType::from_char(c) {
            Some(pt) => pt,
            None => return None,
        };
        let color = if 'A' <= c && c <= 'Z' {
            Color::White
        } else {
            Color::Black
        };
        Some(Piece::new(color, piece_type))
    }
}

/// A board square, 0 = a1, 7 = h1, 63 = h8.
pub type Square = u8;

pub fn square_of(file: u8, rank: u8) -> (sq: Square)
    requires
        rank * 8 + file < 256,
    ensures
        sq == rank * 8 + file,
{
    rank * 8 + file
}

pub open spec fn spec_file_of(sq: Square) -> u8 {
    sq & 7
}

pub open spec fn spec_rank_of(sq: Square) -> u8 {
    sq >> 3
}

/// The file of a square, 0 = a.
#[verifier::when_used_as_spec(spec_file_of)]
pub fn file_of(sq: Square) -> (f: u8)
    ensures
        f == sq & 7,
        f == sq % 8,
{
    proof {
        lemma_file_rank(sq);
    }
    sq & 7
}

/// The rank of a square, 0 = first rank.
#[verifier::when_used_as_spec(spec_rank_of)]
pub fn rank_of(sq: Square) -> (r: u8)
    ensures
        r == sq >> 3,
        r == sq / 8,
{
    proof {
        lemma_file_rank(sq);
    }
    sq >> 3
}

pub proof fn lemma_file_rank(sq: Square)
    by (bit_vector)
    ensures
        sq & 7 == sq % 8,
        sq >> 3 == sq / 8,
{
}

/// The three fields of an encoded move fit their widths.
pub proof fn lemma_move_bits(x: u16)
    by (bit_vector)
    ensures
        x & 0x3f < 64,
        (x >> 6u16) & 0x3f < 64,
        x >> 12u16 < 16,
        x == 0 ==> x & 0x3f == 0 && (x >> 6u16) & 0x3f == 0 && x >> 12u16 == 0,
{
}

/// How the flag bits read: promotion is the high bit, capture the next.
pub proof fn lemma_flag_bits(f: u16)
    by (bit_vector)
    requires
        f < 16,
    ensures
        (f >= 8) == (f & 8 != 0),
        (f & 4 != 0) == (f == 4 || f == 5 || f == 6 || f == 7 || f >= 12),
        f & 3 == f % 4,
{
}

pub open spec fn spec_flip_square(sq: Square) -> Square {
    sq ^ 56
}

/// Mirrors a square vertically (a1 <-> a8). Used to read white-oriented tables.
#[verifier::when_used_as_spec(spec_flip_square)]
pub fn flip_square(sq: Square) -> (r: Square)
    ensures
        r == sq ^ 56,
        sq < 64 ==> r < 64 && r % 8 == sq % 8 && r / 8 == 7 - sq / 8,
{
    assert(sq < 64 ==> (sq ^ 56) < 64 && (sq ^ 56) % 8 == sq % 8 && (sq ^ 56) / 8 == 7 - sq / 8)
        by (bit_vector);
    sq ^ 56
}

/// The two characters naming a square, such as `e4`.
pub open spec fn square_text(sq: Square) -> Seq<char> {
    seq![(97 + sq % 8) as char, (49 + sq / 8) as char]
}

pub fn square_to_string(sq: Square) -> (s: String)
    ensures
        s@ == square_text(sq),
{
    let mut s = String::new();
    let f = file_of(sq);
    let r = rank_of(sq);
    push_char(&mut s, (97u8 + f) as char);
    push_char(&mut s, (49u8 + r) as char);
    s
}

/// The square a two-character name gives, if it names one.
pub open spec fn parse_square_spec(s: Seq<char>) -> Option<Square> {
    if s.len() == 2 && 'a' <= s[0] <= 'h' && '1' <= s[1] <= '8' {
        Some(((s[1] as int - 49) * 8 + (s[0] as int - 97)) as u8)
    } else {
        None
    }
}

pub fn parse_square_chars(s: &Vec<char>) -> (r: Option<Square>)
    ensures
        r == parse_square_spec(s@),
        r matches Some(sq) ==> sq < 64 && square_text(sq) == s@,
{
    if s.len() != 2 {
        return None;
    }
    let f = s[0];
    let r = s[1];
    if 'a' <= f && f <= 'h' && '1' <= r && r <= '8' {
        let file = (f as u32 - 97) as u8;
        let rank = (r as u32 - 49) as u8;
        let sq = rank * 8 + file;
        assert(square_text(sq) =~= s@);
        Some(sq)
    } else {
        None
    }
}

pub fn parse_square(s: &str) -> (r: Option<Square>)
    ensures
        r == parse_square_spec(s@),
        r matches Some(sq) ==> sq < 64 && square_text(sq) == s@,
{
    let cs = chars_of(s);
    parse_square_chars(&cs)
}

// Castling rights bit flags.
pub const WHITE_KING_SIDE: u8 = 1;
pub const WHITE_QUEEN_SIDE: u8 = 2;
pub const BLACK_KING_SIDE: u8 = 4;
pub const BLACK_QUEEN_SIDE: u8 = 8;

/// A move packed into 16 bits: `from | to << 6 | flags << 12`.
#[derive(Clone, Copy, PartialEq, Eq, Hash, Debug, Default, Structural)]
pub struct Move(pub u16);

pub open spec fn spec_move_new(from: Square, to: Square, flags: u16) -> Move {
    Move((from as u16 | ((to as u16) << 6u16) | (flags << 12u16)) as u16)
}

impl Move {
    /// The empty move, `0000` in UCI.
    pub fn none() -> (m: Move)
        ensures
            m.0 == 0,
    {
        Move(0)
    }

    pub open spec fn spec_new(from: Square, to: Square, flags: u16) -> Move {
        spec_move_new(from, to, flags)
    }

    #[verifier::when_used_as_spec(spec_new)]
    pub fn new(from: Square, to: Square, flags: u16) -> (m: Move)
        ensures
            m == spec_move_new(from, to, flags),
            from < 64 && to < 64 && flags < 16 ==> m.from() == from && m.to() == to && m.flags()
                == flags,
    {
        proof {
            if from < 64 && to < 64 && flags < 16 {
                lemma_move_fields(from, to, flags);
            }
        }
        Move(from as u16 | ((to as u16) << 6) | (flags << 12))
    }

    pub open spec fn spec_from(self) -> Square {
        (self.0 & 0x3f) as u8
    }

    #[verifier::when_used_as_spec(spec_from)]
    pub fn from(self) -> (sq: Square)
        ensures
            sq == self.spec_from(),
            sq < 64,
    {
        proof {
            lemma_move_bits(self.0);
        }
        (self.0 & 0x3f) as Square
    }

    pub open spec fn spec_to(self) -> Square {
        ((self.0 >> 6u16) & 0x3f) as u8
    }

    #[verifier::when_used_as_spec(spec_to)]
    pub fn to(self) -> (sq: Square)
        ensures
            sq == self.spec_to(),
            sq < 64,
    {
        proof {
            lemma_move_bits(self.0);
        }
        ((self.0 >> 6) & 0x3f) as Square
    }

    pub open spec fn spec_flags(self) -> u16 {
        self.0 >> 12u16
    }

    #[verifier::when_used_as_spec(spec_flags)]
    pub fn flags(self) -> (f: u16)
        ensures
            f == self.spec_flags(),
            f < 16,
    {
        proof {
            lemma_move_bits(self.0);
        }
        self.0 >> 12
    }

    pub open spec fn spec_is_capture(self) -> bool {
        self.spec_flags() & 4 != 0
    }

    #[verifier::when_used_as_spec(spec_is_capture)]
    pub fn is_capture(self) -> (b: bool)
        ensures
            b == self.spec_is_capture(),
    {
        self.flags() & move_flags::CAPTURE != 0
    }

    pub open spec fn spec_is_promotion(self) -> bool {
        self.spec_flags() & 8 != 0
    }

    #[verifier::when_used_as_spec(spec_is_promotion)]
    pub fn is_promotion(self) -> (b: bool)
        ensures
            b == self.spec_is_promotion(),
            b == (self.flags() >= 8),
    {
        let f = self.flags();
        proof {
            lemma_flag_bits(f);
        }
        self.flags() & 0b1000 != 0
    }

    pub open spec fn spec_is_en_passant(self) -> bool {
        self.spec_flags() == 5
    }

    #[verifier::when_used_as_spec(spec_is_en_passant)]
    pub fn is_en_passant(self) -> (b: bool)
        ensures
            b == self.spec_is_en_passant(),
    {
        self.flags() == move_flags::EN_PASSANT
    }

    pub open spec fn spec_is_castle(self) -> bool {
        self.spec_flags() == 2 || self.spec_flags() == 3
    }

    #[verifier::when_used_as_spec(spec_is_castle)]
    pub fn is_castle(self) -> (b: bool)
        ensures
            b == self.spec_is_castle(),
    {
        let f = self.flags();
        f == move_flags::KING_CASTLE || f == move_flags::QUEEN_CASTLE
    }

    pub open spec fn spec_is_none(self) -> bool {
        self.0 == 0
    }

    #[verifier::when_used_as_spec(spec_is_none)]
    pub fn is_none(self) -> (b: bool)
        ensures
            b == self.spec_is_none(),
    {
        self.0 == 0
    }

    pub open spec fn spec_promotion_piece(self) -> Option<PieceType> {
        if !self.spec_is_promotion() {
            None
        } else if self.spec_flags() & 3 == 0 {
            Some(PieceType::Knight)
        } else if self.spec_flags() & 3 == 1 {
            Some(PieceType::Bishop)
        } else if self.spec_flags() & 3 == 2 {
            Some(PieceType::Rook)
        } else {
            Some(PieceType::Queen)
        }
    }

    /// The piece a promotion move produces, if any.
    #[verifier::when_used_as_spec(spec_promotion_piece)]
    pub fn promotion_piece(self) -> (p: Option<PieceType>)
        ensures
            p == self.spec_promotion_piece(),
            p matches Some(pt) ==> pt != PieceType::Pawn && pt != PieceType::King,
    {
        if !self.is_promotion() {
            return None;
        }
        let low = self.flags() & 0b11;
        if low == 0 {
            Some(PieceType::Knight)
        } else if low == 1 {
            Some(PieceType::Bishop)
        } else if low == 2 {
            Some(PieceType::Rook)
        } else {
            Some(PieceType::Queen)
        }
    }

    /// Long algebraic notation, as required by UCI (e.g. `e2e4`, `e7e8q`).
    pub fn to_string(self) -> (s: String)
        ensures
            s@ == move_text(self),
    {
        if self.is_none() {
            let mut s = String::new();
            push_char(&mut s, '0');
            push_char(&mut s, '0');
            push_char(&mut s, '0');
            push_char(&mut s, '0');
            return s;
        }
        let mut s = String::new();
        let f = self.from();
        let t = self.to();
        push_char(&mut s, (97u8 + file_of(f)) as char);
        push_char(&mut s, (49u8 + rank_of(f)) as char);
        push_char(&mut s, (97u8 + file_of(t)) as char);
        push_char(&mut s, (49u8 + rank_of(t)) as char);
        match self.promotion_piece() {
            Some(pt) => push_char(&mut s, pt.to_char()),
            None => {},
        }
        s
    }
}

/// The UCI text of a move.
pub open spec fn move_text(m: Move) -> Seq<char> {
    if m.0 == 0 {
        seq!['0', '0', '0', '0']
    } else {
        let base = square_text(m.spec_from()) + square_text(m.spec_to());
        match m.spec_promotion_piece() {
            Some(pt) => base.push(piece_type_char(pt)),
            None => base,
        }
    }
}

pub proof fn lemma_move_fields(from: Square, to: Square, flags: u16)
    requires
        from < 64,
        to < 64,
        flags < 16,
    ensures
        spec_move_new(from, to, flags).spec_from() == from,
        spec_move_new(from, to, flags).spec_to() == to,
        spec_move_new(from, to, flags).spec_flags() == flags,
{
    lemma_pack_bits(from as u16, to as u16, flags);
}

proof fn lemma_pack_bits(f: u16, t: u16, flags: u16)
    by (bit_vector)
    requires
        f < 64,
        t < 64,
        flags < 16,
    ensures
        ((f | (t << 6u16) | (flags << 12u16)) & 0x3f) == f,
        (((f | (t << 6u16) | (flags << 12u16)) >> 6u16) & 0x3f) == t,
        ((f | (t << 6u16) | (flags << 12u16)) >> 12u16) == flags,
{
}

/// A move is determined by its three fields.
pub proof fn lemma_move_ext(m: Move)
    ensures
        m == spec_move_new(m.spec_from(), m.spec_to(), m.spec_flags()),
{
    lemma_unpack_bits(m.0);
}

proof fn lemma_unpack_bits(x: u16)
    by (bit_vector)
    ensures
        ((x & 0x3f) as u8) as u16 == x & 0x3f,
        (((x >> 6u16) & 0x3f) as u8) as u16 == (x >> 6u16) & 0x3f,
        x == ((x & 0x3f) | (((x >> 6u16) & 0x3f) << 6u16) | ((x >> 12u16) << 12u16)),
{
}

} // verus!
