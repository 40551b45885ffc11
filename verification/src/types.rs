//! Core chess types: colors, pieces, squares, moves, castling rights.

use vstd::prelude::*;
use vstd::string::StringSliceAdditionalSpecFns;

verus! {

#[derive(Copy, Clone, PartialEq, Eq, Structural, Debug)]
pub enum Color {
    White,
    Black,
}

/// Numeric index of a color: White = 0, Black = 1.
pub open spec fn color_index(c: Color) -> int {
    match c {
        Color::White => 0,
        Color::Black => 1,
    }
}

/// The opposite color.
pub open spec fn opposite(c: Color) -> Color {
    match c {
        Color::White => Color::Black,
        Color::Black => Color::White,
    }
}

impl Color {
    pub fn flip(self) -> (r: Color)
        ensures
            r == opposite(self),
    {
        match self {
            Color::White => Color::Black,
            Color::Black => Color::White,
        }
    }

    pub fn idx(self) -> (r: usize)
        ensures
            r == color_index(self),
    {
        match self {
            Color::White => 0,
            Color::Black => 1,
        }
    }
}

#[derive(Copy, Clone, PartialEq, Eq, Structural, Debug)]
pub enum PieceType {
    Pawn,
    Knight,
    Bishop,
    Rook,
    Queen,
    King,
}

/// Numeric index of a piece type: Pawn = 0 .. King = 5.
pub open spec fn piece_index(pt: PieceType) -> int {
    match pt {
        PieceType::Pawn => 0,
        PieceType::Knight => 1,
        PieceType::Bishop => 2,
        PieceType::Rook => 3,
        PieceType::Queen => 4,
        PieceType::King => 5,
    }
}

/// The piece type with index `i` (indices of 5 and above give the king).
pub open spec fn piece_of_index(i: int) -> PieceType {
    if i == 0 {
        PieceType::Pawn
    } else if i == 1 {
        PieceType::Knight
    } else if i == 2 {
        PieceType::Bishop
    } else if i == 3 {
        PieceType::Rook
    } else if i == 4 {
        PieceType::Queen
    } else {
        PieceType::King
    }
}

/// Lower-case letter of a piece type.
pub open spec fn piece_letter(pt: PieceType) -> char {
    match pt {
        PieceType::Pawn => 'p',
        PieceType::Knight => 'n',
        PieceType::Bishop => 'b',
        PieceType::Rook => 'r',
        PieceType::Queen => 'q',
        PieceType::King => 'k',
    }
}

pub proof fn lemma_piece_index_roundtrip(pt: PieceType)
    ensures
        piece_of_index(piece_index(pt)) == pt,
        0 <= piece_index(pt) < 6,
{
}

/// The six piece types in index order.
pub const ALL_PIECES: [PieceType; 6] = [
    PieceType::Pawn,
    PieceType::Knight,
    PieceType::Bishop,
    PieceType::Rook,
    PieceType::Queen,
    PieceType::King,
];

impl PieceType {
    pub fn idx(self) -> (r: usize)
        ensures
            r == piece_index(self),
    {
        match self {
            PieceType::Pawn => 0,
            PieceType::Knight => 1,
            PieceType::Bishop => 2,
            PieceType::Rook => 3,
            PieceType::Queen => 4,
            PieceType::King => 5,
        }
    }

    pub fn from_idx(i: usize) -> (r: PieceType)
        ensures
            r == piece_of_index(i as int),
    {
        match i {
            0 => PieceType::Pawn,
            1 => PieceType::Knight,
            2 => PieceType::Bishop,
            3 => PieceType::Rook,
            4 => PieceType::Queen,
            _ => PieceType::King,
        }
    }

    pub fn to_char(self) -> (r: char)
        ensures
            r == piece_letter(self),
    {
        match self {
            PieceType::Pawn => 'p',
            PieceType::Knight => 'n',
            PieceType::Bishop => 'b',
            PieceType::Rook => 'r',
            PieceType::Queen => 'q',
            PieceType::King => 'k',
        }
    }
}

/// Square index 0..64, a1 = 0, h1 = 7, a8 = 56, h8 = 63.
pub type Square = u8;

pub open spec fn file_spec(sq: int) -> int {
    sq % 8
}

pub open spec fn rank_spec(sq: int) -> int {
    sq / 8
}

pub fn square(file: u8, rank: u8) -> (r: Square)
    requires
        file < 8,
        rank < 8,
    ensures
        r == rank * 8 + file,
        r < 64,
        file_spec(r as int) == file,
        rank_spec(r as int) == rank,
{
    rank * 8 + file
}

pub fn file_of(sq: Square) -> (r: u8)
    ensures
        r == file_spec(sq as int),
        r < 8,
{
    proof {
        assert(sq & 7 == sq % 8) by (bit_vector);
    }
    sq & 7
}

pub fn rank_of(sq: Square) -> (r: u8)
    ensures
        r == rank_spec(sq as int),
{
    proof {
        assert(sq >> 3 == sq / 8) by (bit_vector);
    }
    sq >> 3
}

/// The characters of a square's name: file letter then rank digit.
pub open spec fn square_name_spec(sq: int) -> Seq<char> {
    seq![(('a' as int) + file_spec(sq)) as char, (('1' as int) + rank_spec(sq)) as char]
}

/// The file letter 'a'..'h' for a file index.
pub fn file_char(f: u8) -> (r: char)
    requires
        f < 8,
    ensures
        r == (('a' as int) + f) as char,
{
    match f {
        0 => 'a',
        1 => 'b',
        2 => 'c',
        3 => 'd',
        4 => 'e',
        5 => 'f',
        6 => 'g',
        _ => 'h',
    }
}

/// The rank digit '1'..'8' for a rank index.
pub fn rank_char(r: u8) -> (c: char)
    requires
        r < 8,
    ensures
        c == (('1' as int) + r) as char,
{
    match r {
        0 => '1',
        1 => '2',
        2 => '3',
        3 => '4',
        4 => '5',
        5 => '6',
        6 => '7',
        _ => '8',
    }
}

/// A one-character string holding `c`, for the printable characters the
/// library writes (board letters, digits, separators).
pub fn char_str(c: char) -> (r: &'static str)
    ensures
        r@ == seq![c] || (r@ == seq!['?'] && !printable_char(c)),
{
    proof {
        reveal_strlit("a");
        reveal_strlit("b");
        reveal_strlit("c");
        reveal_strlit("d");
        reveal_strlit("e");
        reveal_strlit("f");
        reveal_strlit("g");
        reveal_strlit("h");
        reveal_strlit("1");
        reveal_strlit("2");
        reveal_strlit("3");
        reveal_strlit("4");
        reveal_strlit("5");
        reveal_strlit("6");
        reveal_strlit("7");
        reveal_strlit("8");
        reveal_strlit("p");
        reveal_strlit("n");
        reveal_strlit("r");
        reveal_strlit("q");
        reveal_strlit("k");
        reveal_strlit("P");
        reveal_strlit("N");
        reveal_strlit("B");
        reveal_strlit("R");
        reveal_strlit("Q");
        reveal_strlit("K");
        reveal_strlit("w");
        reveal_strlit("/");
        reveal_strlit(" ");
        reveal_strlit("-");
        reveal_strlit("0");
        reveal_strlit("9");
        reveal_strlit("?");
        reveal_strlit("m");
        reveal_strlit("t");
    }
    match c {
        'a' => "a",
        'b' => "b",
        'c' => "c",
        'd' => "d",
        'e' => "e",
        'f' => "f",
        'g' => "g",
        'h' => "h",
        '0' => "0",
        '1' => "1",
        '2' => "2",
        '3' => "3",
        '4' => "4",
        '5' => "5",
        '6' => "6",
        '7' => "7",
        '8' => "8",
        '9' => "9",
        'p' => "p",
        'n' => "n",
        'r' => "r",
        'q' => "q",
        'k' => "k",
        'P' => "P",
        'N' => "N",
        'B' => "B",
        'R' => "R",
        'Q' => "Q",
        'K' => "K",
        'w' => "w",
        '/' => "/",
        ' ' => " ",
        '-' => "-",
        'm' => "m",
        't' => "t",
        _ => "?",
    }
}

/// The characters `char_str` can write.
pub open spec fn printable_char(c: char) -> bool {
    ('a' <= c && c <= 'h') || ('0' <= c && c <= '9') || c == 'p' || c == 'n' || c == 'r' || c
        == 'q' || c == 'k' || c == 'P' || c == 'N' || c == 'B' || c == 'R' || c == 'Q' || c
        == 'K' || c == 'w' || c == '/' || c == ' ' || c == '-' || c == 'm' || c == 't'
}

/// Append one printable character to a string.
pub fn push_char(s: &mut String, c: char)
    requires
        printable_char(c),
    ensures
        final(s)@ == old(s)@.push(c),
{
    let t = char_str(c);
    s.append(t);
}

pub fn square_name(sq: Square) -> (r: String)
    requires
        sq < 64,
    ensures
        r@ == square_name_spec(sq as int),
{
    let mut s = String::new();
    push_char(&mut s, file_char(file_of(sq)));
    push_char(&mut s, rank_char(rank_of(sq)));
    s
}

/// The square named by two ASCII bytes (file letter, rank digit), if valid.
pub open spec fn parse_square_spec(b: Seq<u8>) -> Option<int> {
    if b.len() == 2 && 97 <= b[0] <= 104 && 49 <= b[1] <= 56 {
        Some((b[1] - 49) * 8 + (b[0] - 97))
    } else {
        None
    }
}

/// Parse a square name such as "e4" from the bytes of a string.
pub fn parse_square_bytes(b: &[u8]) -> (r: Option<Square>)
    ensures
        match parse_square_spec(b@) {
            Some(s) => r == Some(s as u8),
            None => r.is_none(),
        },
{
    if b.len() != 2 || b[0] < 97 || b[0] > 104 || b[1] < 49 || b[1] > 56 {
        return None;
    }
    Some(square(b[0] - 97, b[1] - 49))
}

pub fn parse_square(s: &str) -> (r: Option<Square>)
    ensures
        match parse_square_spec(s.spec_bytes()) {
            Some(q) => r == Some(q as u8),
            None => r.is_none(),
        },
{
    parse_square_bytes(s.as_bytes())
}

/// Move flags (4 bits). Captures have bit 2 set, promotions bit 3.
pub const QUIET: u16 = 0;
pub const DOUBLE_PUSH: u16 = 1;
pub const CASTLE_KING: u16 = 2;
pub const CASTLE_QUEEN: u16 = 3;
pub const CAPTURE: u16 = 4;
pub const EN_PASSANT: u16 = 5;
pub const PROMO_N: u16 = 8;
pub const PROMO_B: u16 = 9;
pub const PROMO_R: u16 = 10;
pub const PROMO_Q: u16 = 11;
pub const PROMO_CAP_N: u16 = 12;
pub const PROMO_CAP_B: u16 = 13;
pub const PROMO_CAP_R: u16 = 14;
pub const PROMO_CAP_Q: u16 = 15;

/// 16-bit move: bits 0-5 from, 6-11 to, 12-15 flags.
#[derive(Copy, Clone, PartialEq, Eq, Structural, Debug)]
pub struct Move(pub u16);

/// The null move (all bits zero), used for "no move".
pub fn move_none() -> (r: Move)
    ensures
        r.0 == 0,
{
    Move(0)
}

pub open spec fn move_from(m: Move) -> int {
    (m.0 % 64) as int
}

pub open spec fn move_to(m: Move) -> int {
    ((m.0 / 64) % 64) as int
}

pub open spec fn move_flags(m: Move) -> int {
    (m.0 / 4096) as int
}

pub open spec fn flags_capture(f: int) -> bool {
    f % 8 >= 4
}

pub open spec fn flags_promo(f: int) -> bool {
    f >= 8
}

/// The piece a promotion flag promotes to (low two flag bits).
pub open spec fn promo_piece_spec(f: int) -> PieceType {
    if f % 4 == 0 {
        PieceType::Knight
    } else if f % 4 == 1 {
        PieceType::Bishop
    } else if f % 4 == 2 {
        PieceType::Rook
    } else {
        PieceType::Queen
    }
}

impl Move {
    pub fn new(from: Square, to: Square, flags: u16) -> (r: Move)
        requires
            from < 64,
            to < 64,
            flags < 16,
        ensures
            move_from(r) == from,
            move_to(r) == to,
            move_flags(r) == flags,
            r.0 == from + to * 64 + flags * 4096,
    {
        let f = from as u16;
        let t = to as u16;
        let v: u16 = f | t << 6 | flags << 12;
        proof {
            assert(f < 64 && t < 64 && flags < 16 ==> (f | t << 6 | flags << 12) == f + t * 64
                + flags * 4096) by (bit_vector);
        }
        Move(v)
    }

    pub fn from(self) -> (r: Square)
        ensures
            r == move_from(self),
            r < 64,
    {
        proof {
            let x = self.0;
            assert(x & 0x3f == x % 64) by (bit_vector);
        }
        (self.0 & 0x3f) as Square
    }

    pub fn to(self) -> (r: Square)
        ensures
            r == move_to(self),
            r < 64,
    {
        proof {
            let x = self.0;
            assert(x >> 6 & 0x3f == (x / 64) % 64) by (bit_vector);
        }
        (self.0 >> 6 & 0x3f) as Square
    }

    pub fn flags(self) -> (r: u16)
        ensures
            r == move_flags(self),
            r < 16,
    {
        proof {
            let x = self.0;
            assert(x >> 12 == x / 4096) by (bit_vector);
        }
        self.0 >> 12
    }

    pub fn is_capture(self) -> (r: bool)
        ensures
            r == flags_capture(move_flags(self)),
    {
        let f = self.flags();
        proof {
            assert(f < 16 ==> ((f & 4 != 0) == (f % 8 >= 4))) by (bit_vector);
        }
        f & CAPTURE != 0
    }

    pub fn is_promo(self) -> (r: bool)
        ensures
            r == flags_promo(move_flags(self)),
    {
        let f = self.flags();
        proof {
            assert(f < 16 ==> ((f & 8 != 0) == (f >= 8))) by (bit_vector);
        }
        f & 8 != 0
    }

    pub fn is_en_passant(self) -> (r: bool)
        ensures
            r == (move_flags(self) == 5),
    {
        self.flags() == EN_PASSANT
    }

    pub fn is_castle(self) -> (r: bool)
        ensures
            r == (move_flags(self) == 2 || move_flags(self) == 3),
    {
        self.flags() == CASTLE_KING || self.flags() == CASTLE_QUEEN
    }

    pub fn promo_piece(self) -> (r: PieceType)
        ensures
            r == promo_piece_spec(move_flags(self)),
    {
        let f = self.flags();
        proof {
            assert(f & 3 == f % 4) by (bit_vector);
        }
        match f & 3 {
            0 => PieceType::Knight,
            1 => PieceType::Bishop,
            2 => PieceType::Rook,
            _ => PieceType::Queen,
        }
    }

    /// UCI notation: from-square, to-square, and the promotion letter if any;
    /// "0000" for the null move.
    pub fn to_uci(self) -> (r: String)
        ensures
            r@ == uci_spec(self),
    {
        let mut s = String::new();
        if self.0 == 0 {
            push_char(&mut s, '0');
            push_char(&mut s, '0');
            push_char(&mut s, '0');
            push_char(&mut s, '0');
            return s;
        }
        let a = square_name(self.from());
        let b = square_name(self.to());
        s.append(a.as_str());
        s.append(b.as_str());
        if self.is_promo() {
            push_char(&mut s, self.promo_piece().to_char());
        }
        s
    }
}

/// UCI text of a move.
pub open spec fn uci_spec(m: Move) -> Seq<char> {
    if m.0 == 0 {
        seq!['0', '0', '0', '0']
    } else {
        square_name_spec(move_from(m)) + square_name_spec(move_to(m)) + if flags_promo(
            move_flags(m),
        ) {
            seq![piece_letter(promo_piece_spec(move_flags(m)))]
        } else {
            Seq::empty()
        }
    }
}

/// Castling rights as 4 bits: 1 = white kingside, 2 = white queenside,
/// 4 = black kingside, 8 = black queenside.
pub const WK: u8 = 1;
pub const WQ: u8 = 2;
pub const BK: u8 = 4;
pub const BQ: u8 = 8;


/// The decimal digit character for `d` (0 to 9).
pub open spec fn digit_char(d: int) -> char {
    (48 + d) as char
}

/// Decimal representation of `n`, most significant digit first.
pub open spec fn dec_spec(n: nat) -> Seq<char>
    decreases n,
{
    if n < 10 {
        seq![digit_char(n as int)]
    } else {
        dec_spec(n / 10).push(digit_char((n % 10) as int))
    }
}

fn digit(d: u64) -> (r: char)
    requires
        d < 10,
    ensures
        r == digit_char(d as int),
        printable_char(r),
{
    match d {
        0 => '0',
        1 => '1',
        2 => '2',
        3 => '3',
        4 => '4',
        5 => '5',
        6 => '6',
        7 => '7',
        8 => '8',
        _ => '9',
    }
}

/// Append the decimal representation of `n`.
pub fn push_dec(s: &mut String, n: u64)
    ensures
        final(s)@ == old(s)@ + dec_spec(n as nat),
    decreases n,
{
    if n >= 10 {
        push_dec(s, n / 10);
    }
    push_char(s, digit(n % 10));
    proof {
        if n >= 10 {
            assert(dec_spec(n as nat) == dec_spec((n / 10) as nat).push(digit_char((n % 10) as int)));
        }
    }
}


/// Decimal representation of a signed number.
pub open spec fn int_dec_spec(v: int) -> Seq<char> {
    if v < 0 {
        seq!['-'] + dec_spec((-v) as nat)
    } else {
        dec_spec(v as nat)
    }
}

/// Append the decimal representation of a signed number.
pub fn push_int(s: &mut String, v: i64)
    ensures
        final(s)@ == old(s)@ + int_dec_spec(v as int),
{
    if v < 0 {
        push_char(s, '-');
        let m: u64 = if v == i64::MIN {
            0x8000_0000_0000_0000
        } else {
            (-v) as u64
        };
        push_dec(s, m);
        proof {
            assert(m == -v);
            assert(final(s)@ =~= old(s)@ + int_dec_spec(v as int));
        }
    } else {
        push_dec(s, v as u64);
    }
}

} // verus!
