use vstd::prelude::*;

verus! {

/// Malformed algebraic notation (square or piece letter).
#[derive(Clone, Copy, PartialEq, Eq, Structural, Debug)]
pub struct ParseError;

/// A board square: an index in [0, 64) encoding (rank, file) as rank*8 + file.
#[derive(Clone, Copy, PartialEq, Eq, Structural, Debug)]
pub struct Square {
    idx: u8,
}

impl View for Square {
    type V = int;

    closed spec fn view(&self) -> int {
        self.idx as int
    }
}

/// File (column) of a square index: the low three bits.
pub open spec fn sq_file(i: int) -> int {
    i % 8
}

/// Rank (row) of a square index: the high three bits.
pub open spec fn sq_rank(i: int) -> int {
    i / 8
}

pub open spec fn abs_i(x: int) -> int {
    if x < 0 {
        -x
    } else {
        x
    }
}

pub open spec fn max_i(a: int, b: int) -> int {
    if a < b {
        b
    } else {
        a
    }
}

/// Chebyshev distance on the 8x8 grid: the number of king moves between
/// two squares.
pub open spec fn chebyshev(a: int, b: int) -> int {
    max_i(abs_i(sq_file(a) - sq_file(b)), abs_i(sq_rank(a) - sq_rank(b)))
}

/// The file value of an algebraic file letter ('a'..='h', either case).
pub open spec fn char_file_val(c: char) -> Option<int> {
    if 'a' <= c && c <= 'h' {
        Some(c as int - 'a' as int)
    } else if 'A' <= c && c <= 'H' {
        Some(c as int - 'A' as int)
    } else {
        None
    }
}

/// The rank value of an algebraic rank digit ('1'..='8').
pub open spec fn char_rank_val(c: char) -> Option<int> {
    if '1' <= c && c <= '8' {
        Some(c as int - '1' as int)
    } else {
        None
    }
}

/// Exactly two characters, a file letter then a rank digit, parse to a
/// square index; everything else is rejected.
pub open spec fn spec_parse_square(s: Seq<char>) -> Option<int> {
    if s.len() != 2 {
        None
    } else {
        match (char_file_val(s[0]), char_rank_val(s[1])) {
            (Some(f), Some(r)) => Some(r * 8 + f),
            _ => None,
        }
    }
}

/// The canonical two-character algebraic notation of a square index.
pub open spec fn spec_square_text(i: int) -> Seq<char> {
    seq![((97 + sq_file(i)) as u8) as char, ((49 + sq_rank(i)) as u8) as char]
}

fn abs_diff(lhs: u8, rhs: u8) -> (r: u8)
    ensures
        r as int == abs_i(lhs as int - rhs as int),
{
    if lhs < rhs {
        rhs - lhs
    } else {
        lhs - rhs
    }
}

impl Square {
    #[verifier::type_invariant]
    pub closed spec fn inv(self) -> bool {
        self.idx < 64
    }

    /// Construct a square from an index, reduced modulo 64.
    pub fn new(index: u8) -> (r: Square)
        ensures
            r@ == index as int % 64,
    {
        Square { idx: index % 64 }
    }

    /// The index of this square, in [0, 64).
    pub fn index(&self) -> (r: u8)
        ensures
            r as int == self@,
            0 <= self@ < 64,
    {
        proof {
            use_type_invariant(self);
        }
        self.idx
    }

    /// Step by a signed delta; `None` if the result leaves [0, 64).
    pub fn offset(&self, delta: i32) -> (r: Option<Square>)
        ensures
            match r {
                Some(sq) => 0 <= self@ + delta < 64 && sq@ == self@ + delta,
                None => !(0 <= self@ + delta < 64),
            },
    {
        proof {
            use_type_invariant(self);
        }
        let value: i64 = self.idx as i64 + delta as i64;
        if 0 <= value && value < 64 {
            Some(Square { idx: value as u8 })
        } else {
            None
        }
    }

    /// Number of king moves to get from one square to another.
    pub fn distance(&self, other: Square) -> (r: u8)
        ensures
            r as int == chebyshev(self@, other@),
    {
        proof {
            use_type_invariant(self);
            use_type_invariant(&other);
            let a = self.idx;
            let b = other.idx;
            assert(a & 7 == a % 8 && a >> 3 == a / 8) by (bit_vector);
            assert(b & 7 == b % 8 && b >> 3 == b / 8) by (bit_vector);
        }
        let df = abs_diff(self.idx & 7, other.idx & 7);
        let dr = abs_diff(self.idx >> 3, other.idx >> 3);
        if df < dr {
            dr
        } else {
            df
        }
    }

    /// Parse two-character algebraic notation, case-insensitively.
    pub fn parse(s: &str) -> (r: Result<Square, ParseError>)
        ensures
            match spec_parse_square(s@) {
                Some(i) => r matches Ok(sq) && sq@ == i,
                None => r matches Err(_),
            },
    {
        if s.unicode_len() != 2 {
            return Err(ParseError);
        }
        let c0 = s.get_char(0);
        let c1 = s.get_char(1);
        let file: u32 = if 'a' <= c0 && c0 <= 'h' {
            c0 as u32 - 97
        } else if 'A' <= c0 && c0 <= 'H' {
            c0 as u32 - 65
        } else {
            return Err(ParseError);
        };
        let rank: u32 = if '1' <= c1 && c1 <= '8' {
            c1 as u32 - 49
        } else {
            return Err(ParseError);
        };
        Ok(Square { idx: (rank * 8 + file) as u8 })
    }

    /// The canonical algebraic notation of this square.
    pub fn to_text(&self) -> (r: String)
        ensures
            r@ == spec_square_text(self@),
    {
        proof {
            use_type_invariant(self);
            let a = self.idx;
            assert(a & 7 == a % 8 && a >> 3 == a / 8 && a & 7 < 8 && a >> 3 < 8) by (bit_vector)
                requires
                    a < 64,
            ;
        }
        let f = (97 + (self.idx & 7)) as char;
        let k = (49 + (self.idx >> 3)) as char;
        let mut out = String::new();
        push_char(&mut out, f);
        push_char(&mut out, k);
        proof {
            assert(out@ =~= spec_square_text(self@));
        }
        out
    }
}

/// Relies on `String::push`: appends exactly the given character.
#[verifier::external_body]
fn push_char(s: &mut String, c: char)
    ensures
        final(s)@ == old(s)@.push(c),
{
    s.push(c)
}

/// Parsing the canonical text of any square yields that square back.
pub proof fn lemma_square_text_roundtrip(i: int)
    requires
        0 <= i < 64,
    ensures
        spec_parse_square(spec_square_text(i)) == Some(i),
{
    let s = spec_square_text(i);
    assert(s.len() == 2);
    let c0 = s[0];
    let c1 = s[1];
    assert(0 <= sq_file(i) < 8 && 0 <= sq_rank(i) < 8);
    assert(c0 == ((97 + sq_file(i)) as u8) as char);
    assert('a' <= c0 && c0 <= 'h');
    assert(char_file_val(c0) == Some(sq_file(i)));
    assert('1' <= c1 && c1 <= '8');
    assert(char_rank_val(c1) == Some(sq_rank(i)));
    assert(sq_rank(i) * 8 + sq_file(i) == i) by {
        vstd::arithmetic::div_mod::lemma_fundamental_div_mod(i, 8);
    }
}

} // verus!
