//! Parser for the textual script form: a line-oriented list of
//! instructions, each an identifier followed by comma-separated
//! arguments (identifiers, integers, or backquoted text).
//!
//! Positions are byte offsets into the input; all the delimiters the
//! grammar knows are ASCII, so scanning the UTF-8 bytes and scanning the
//! characters agree.

use vstd::prelude::*;
use vstd::string::StringSliceAdditionalSpecFns;

verus! {

/// A parse failure: what was expected and at which byte offset, together
/// with the input it was found in.
#[derive(Debug)]
pub struct Error {
    input: String,
    expected: &'static str,
    position: usize,
}

/// Mathematical model of a parse failure.
pub ghost struct SpecErr {
    pub expected: Seq<char>,
    pub position: int,
}

impl View for Error {
    type V = SpecErr;

    closed spec fn view(&self) -> SpecErr {
        SpecErr { expected: self.expected@, position: self.position as int }
    }
}

impl Error {
    /// The spec-level view of the input the failure was found in.
    pub closed spec fn spec_input(&self) -> Seq<char> {
        self.input@
    }

    pub fn new(input: &str, expected: &'static str, position: usize) -> (r: Self)
        ensures
            r.spec_input() == input@,
            r@ == (SpecErr { expected: expected@, position: position as int }),
    {
        Self { input: String::from_str(input), expected, position }
    }
}

/// The byte range of a lexeme in the input.
pub struct Token {
    pub begin: usize,
    pub end: usize,
}

impl Token {
    pub fn new(begin: usize, end: usize) -> (r: Self)
        ensures
            r.begin == begin,
            r.end == end,
    {
        Self { begin, end }
    }
}

/// An identifier argument: its token and its bytes.
pub struct Ident(pub Token, pub Vec<u8>);

/// An integer argument: its token and its value.
pub struct Int(pub Token, pub i32);

/// A text argument: its token and its raw (still escaped) bytes.
pub struct Text(pub Token, pub Vec<u8>);

/// One argument of an instruction.
pub enum Arg {
    Ident(Ident),
    Int(Int),
    Text(Text),
}

impl Arg {
    /// The identifier bytes, when the argument is an identifier.
    pub fn as_ident(&self) -> (r: Option<&Vec<u8>>)
        ensures
            match r {
                Some(v) => self matches Arg::Ident(id) && v == &id.1,
                None => !(self matches Arg::Ident(_)),
            },
    {
        match self {
            Arg::Ident(ident) => Some(&ident.1),
            _ => None,
        }
    }

    /// The integer value, when the argument is an integer.
    pub fn as_int(&self) -> (r: Option<i32>)
        ensures
            match r {
                Some(v) => self matches Arg::Int(iv) && v == iv.1,
                None => !(self matches Arg::Int(_)),
            },
    {
        match self {
            Arg::Int(iv) => Some(iv.1),
            _ => None,
        }
    }

    /// The text bytes, when the argument is text.
    pub fn as_text(&self) -> (r: Option<&Vec<u8>>)
        ensures
            match r {
                Some(v) => self matches Arg::Text(t) && v == &t.1,
                None => !(self matches Arg::Text(_)),
            },
    {
        match self {
            Arg::Text(text) => Some(&text.1),
            _ => None,
        }
    }

    /// The argument's token, whichever kind it is.
    pub fn token(&self) -> (r: &Token)
        ensures
            match self {
                Arg::Ident(id) => r == &id.0,
                Arg::Int(iv) => r == &iv.0,
                Arg::Text(t) => r == &t.0,
            },
    {
        match self {
            Arg::Ident(ident) => &ident.0,
            Arg::Int(iv) => &iv.0,
            Arg::Text(text) => &text.0,
        }
    }
}

/// One parsed instruction: its whole-line token, its operation name and
/// its arguments.
pub struct Instr {
    pub token: Token,
    pub operation: Ident,
    pub args: Vec<Arg>,
}

/// A whole parsed script.
pub struct Script {
    pub instrs: Vec<Instr>,
}

/// A space or horizontal tab.
pub open spec fn is_ws_byte(b: u8) -> bool {
    b == 0x20 || b == 0x09
}

/// An ASCII letter or underscore: what may begin an identifier.
pub open spec fn is_head_byte(b: u8) -> bool {
    b == 0x5f || (0x41 <= b <= 0x5a) || (0x61 <= b <= 0x7a)
}

/// An ASCII letter, digit or underscore: what may continue an identifier.
pub open spec fn is_rest_byte(b: u8) -> bool {
    is_head_byte(b) || (0x30 <= b <= 0x39)
}

/// An ASCII decimal digit.
pub open spec fn is_digit_byte(b: u8) -> bool {
    0x30 <= b <= 0x39
}

/// An ASCII hexadecimal digit.
pub open spec fn is_hex_byte(b: u8) -> bool {
    is_digit_byte(b) || (0x41 <= b <= 0x46) || (0x61 <= b <= 0x66)
}

/// The value of one hexadecimal digit byte.
pub open spec fn hex_digit_val(b: u8) -> int {
    if is_digit_byte(b) {
        b - 0x30
    } else if 0x41 <= b <= 0x46 {
        b - 0x41 + 10
    } else {
        b - 0x61 + 10
    }
}

/// Whether the character may begin an identifier: an underscore or an
/// ASCII letter.
pub fn is_ident_head(c: char) -> (r: bool)
    ensures
        r == is_head_byte(c as u8) && (c as u32) < 128 || (c as u32) >= 128 && !r,
{
    let u = c as u32;
    u == 0x5f || (0x41 <= u && u <= 0x5a) || (0x61 <= u && u <= 0x7a)
}

/// Whether the character may continue an identifier: an underscore, an
/// ASCII letter or an ASCII digit.
pub fn is_ident_rest(c: char) -> (r: bool)
    ensures
        r == is_rest_byte(c as u8) && (c as u32) < 128 || (c as u32) >= 128 && !r,
{
    let u = c as u32;
    u == 0x5f || (0x41 <= u && u <= 0x5a) || (0x61 <= u && u <= 0x7a) || (0x30 <= u && u <= 0x39)
}

/// The first position at or after `pos` that holds no space or tab, or
/// the input length.
pub open spec fn spec_skip_ws(b: Seq<u8>, pos: int) -> int
    decreases b.len() - pos,
{
    if pos < 0 || pos >= b.len() || !is_ws_byte(b[pos]) {
        pos
    } else {
        spec_skip_ws(b, pos + 1)
    }
}

/// `spec_skip_ws` lands on the first non-blank position.
pub proof fn lemma_skip_ws(b: Seq<u8>, pos: int)
    requires
        0 <= pos <= b.len(),
    ensures
        pos <= spec_skip_ws(b, pos) <= b.len(),
        spec_skip_ws(b, pos) < b.len() ==> !is_ws_byte(b[spec_skip_ws(b, pos)]),
        forall|j: int| pos <= j < spec_skip_ws(b, pos) ==> is_ws_byte(b[j]),
    decreases b.len() - pos,
{
    if pos < b.len() && is_ws_byte(b[pos]) {
        lemma_skip_ws(b, pos + 1);
    }
}

/// Skips spaces and tabs: the returned position is the first at or after
/// `pos` holding neither, or the input length.
pub fn skip_whitespace(input: &str, pos: usize) -> (r: usize)
    requires
        pos <= input.spec_bytes().len(),
    ensures
        pos <= r <= input.spec_bytes().len(),
        r == spec_skip_ws(input.spec_bytes(), pos as int),
{
    let b = input.as_bytes();
    let n = b.len();
    let mut i = pos;
    while i < n && (b[i] == 0x20 || b[i] == 0x09)
        invariant
            n == b@.len(),
            b@ == input.spec_bytes(),
            pos <= i <= n,
            spec_skip_ws(b@, pos as int) == spec_skip_ws(b@, i as int),
        decreases n - i,
    {
        i = i + 1;
    }
    i
}

/// The first position at or after `i` that cannot continue an
/// identifier, or the input length.
pub open spec fn spec_ident_end(b: Seq<u8>, i: int) -> int
    decreases b.len() - i,
{
    if i < 0 || i >= b.len() || !is_rest_byte(b[i]) {
        i
    } else {
        spec_ident_end(b, i + 1)
    }
}

pub proof fn lemma_ident_end(b: Seq<u8>, i: int)
    requires
        0 <= i <= b.len(),
    ensures
        i <= spec_ident_end(b, i) <= b.len(),
    decreases b.len() - i,
{
    if i < b.len() && is_rest_byte(b[i]) {
        lemma_ident_end(b, i + 1);
    }
}

/// What parsing an identifier yields: its byte range, or the failure.
/// The first byte must be an identifier head; the lexeme then runs to
/// the first byte that cannot continue an identifier.
pub open spec fn spec_parse_ident(b: Seq<u8>, pos: int) -> Result<(int, int), SpecErr> {
    if pos >= b.len() || !is_head_byte(b[pos]) {
        Err(SpecErr { expected: "identifier"@, position: pos })
    } else {
        Ok((pos, spec_ident_end(b, pos + 1)))
    }
}

/// The first position at or after `i` that is no decimal digit.
pub open spec fn spec_dec_end(b: Seq<u8>, i: int) -> int
    decreases b.len() - i,
{
    if i < 0 || i >= b.len() || !is_digit_byte(b[i]) {
        i
    } else {
        spec_dec_end(b, i + 1)
    }
}

pub proof fn lemma_dec_end(b: Seq<u8>, i: int)
    requires
        0 <= i <= b.len(),
    ensures
        i <= spec_dec_end(b, i) <= b.len(),
    decreases b.len() - i,
{
    if i < b.len() && is_digit_byte(b[i]) {
        lemma_dec_end(b, i + 1);
    }
}

/// The first position at or after `i` that is no hexadecimal digit.
pub open spec fn spec_hex_end(b: Seq<u8>, i: int) -> int
    decreases b.len() - i,
{
    if i < 0 || i >= b.len() || !is_hex_byte(b[i]) {
        i
    } else {
        spec_hex_end(b, i + 1)
    }
}

pub proof fn lemma_hex_end(b: Seq<u8>, i: int)
    requires
        0 <= i <= b.len(),
    ensures
        i <= spec_hex_end(b, i) <= b.len(),
    decreases b.len() - i,
{
    if i < b.len() && is_hex_byte(b[i]) {
        lemma_hex_end(b, i + 1);
    }
}

/// The value of the decimal digit run `b[i..j]`.
pub open spec fn dec_val(b: Seq<u8>, i: int, j: int) -> int
    decreases j - i,
{
    if j <= i {
        0
    } else {
        dec_val(b, i, j - 1) * 10 + (b[j - 1] - 0x30)
    }
}

/// The value of the hexadecimal digit run `b[i..j]`.
pub open spec fn hex_val(b: Seq<u8>, i: int, j: int) -> int
    decreases j - i,
{
    if j <= i {
        0
    } else {
        hex_val(b, i, j - 1) * 16 + hex_digit_val(b[j - 1])
    }
}

/// What parsing an integer yields: its byte range and value, or the
/// failure. An optional minus sign (blanks allowed after it) precedes
/// either `0x` and hexadecimal digits or decimal digits; at least one
/// digit must follow, and the magnitude must fit a 32-bit signed value.
pub open spec fn spec_parse_int(b: Seq<u8>, pos: int) -> Result<(int, int, int), SpecErr> {
    let neg = pos < b.len() && b[pos] == 0x2d;
    let p1 = if neg {
        spec_skip_ws(b, pos + 1)
    } else {
        pos
    };
    if p1 + 2 <= b.len() && b[p1] == 0x30 && b[p1 + 1] == 0x78 {
        let p2 = p1 + 2;
        let e = spec_hex_end(b, p2);
        if e == p2 {
            Err(SpecErr { expected: "hex digit"@, position: e })
        } else if hex_val(b, p2, e) > 0x7fffffff {
            Err(SpecErr { expected: "hex digit"@, position: e })
        } else {
            Ok((pos, e, if neg {
                -hex_val(b, p2, e)
            } else {
                hex_val(b, p2, e)
            }))
        }
    } else {
        let e = spec_dec_end(b, p1);
        if e == p1 {
            Err(SpecErr { expected: "digit"@, position: e })
        } else if dec_val(b, p1, e) > 0x7fffffff {
            Err(SpecErr { expected: "digit"@, position: e })
        } else {
            Ok((pos, e, if neg {
                -dec_val(b, p1, e)
            } else {
                dec_val(b, p1, e)
            }))
        }
    }
}

/// Scans backquoted text from `i`: `Ok` holds the position just past the
/// closing backquote (the input length when the text never closes), and
/// `Err` the position of an unknown escape.
pub open spec fn spec_text_scan(b: Seq<u8>, i: int, escaped: bool) -> Result<int, int>
    decreases b.len() - i,
{
    if i < 0 || i >= b.len() {
        if escaped {
            Err(b.len() as int)
        } else {
            Ok(b.len() as int)
        }
    } else if escaped {
        if b[i] == 0x5c || b[i] == 0x74 || b[i] == 0x60 {
            spec_text_scan(b, i + 1, false)
        } else {
            Err(i)
        }
    } else if b[i] == 0x5c {
        spec_text_scan(b, i + 1, true)
    } else if b[i] == 0x60 {
        Ok(i + 1)
    } else {
        spec_text_scan(b, i + 1, false)
    }
}

pub proof fn lemma_text_scan(b: Seq<u8>, i: int, escaped: bool)
    requires
        0 <= i <= b.len(),
    ensures
        match spec_text_scan(b, i, escaped) {
            Ok(e) => i <= e <= b.len(),
            Err(p) => i <= p <= b.len(),
        },
    decreases b.len() - i,
{
    if i < b.len() {
        lemma_text_scan(b, i + 1, false);
        lemma_text_scan(b, i + 1, true);
    }
}

/// What parsing backquoted text yields: its byte range and its raw
/// (still escaped) bytes, or the failure. The text must begin with a
/// backquote and a newline; it ends at the first unescaped backquote,
/// or at the end of the input when it never closes.
pub open spec fn spec_parse_text(b: Seq<u8>, pos: int) -> Result<(int, int, Seq<u8>), SpecErr> {
    if !(pos + 2 <= b.len() && b[pos] == 0x60 && b[pos + 1] == 0x0a) {
        Err(SpecErr { expected: "backquote+newline"@, position: pos })
    } else {
        match spec_text_scan(b, pos + 2, false) {
            Err(p) => Err(SpecErr { expected: "escape character"@, position: p }),
            Ok(end) => {
                let pe = if end - 1 >= pos + 2 {
                    end - 1
                } else {
                    pos + 2
                };
                Ok((pos, end, b.subrange(pos + 2, pe)))
            },
        }
    }
}

/// Mathematical model of one argument.
pub ghost enum SpecArg {
    Ident { begin: int, end: int, bytes: Seq<u8> },
    Int { begin: int, end: int, value: int },
    Text { begin: int, end: int, bytes: Seq<u8> },
}

pub open spec fn arg_view(a: Arg) -> SpecArg {
    match a {
        Arg::Ident(id) => SpecArg::Ident {
            begin: id.0.begin as int,
            end: id.0.end as int,
            bytes: id.1@,
        },
        Arg::Int(iv) => SpecArg::Int {
            begin: iv.0.begin as int,
            end: iv.0.end as int,
            value: iv.1 as int,
        },
        Arg::Text(t) => SpecArg::Text {
            begin: t.0.begin as int,
            end: t.0.end as int,
            bytes: t.1@,
        },
    }
}

/// What parsing one argument yields: an identifier, else an integer,
/// else text, each tried at the same position; when all three fail the
/// failure names all three kinds.
pub open spec fn spec_parse_arg(b: Seq<u8>, pos: int) -> Result<(SpecArg, int), SpecErr> {
    match spec_parse_ident(b, pos) {
        Ok((ib, ie)) => Ok(
            (SpecArg::Ident { begin: ib, end: ie, bytes: b.subrange(ib, ie) }, ie),
        ),
        Err(_) => match spec_parse_int(b, pos) {
            Ok((nb, ne, v)) => Ok((SpecArg::Int { begin: nb, end: ne, value: v }, ne)),
            Err(_) => match spec_parse_text(b, pos) {
                Ok((tb, te, bytes)) => Ok((SpecArg::Text { begin: tb, end: te, bytes }, te)),
                Err(_) => Err(
                    SpecErr { expected: "identifier, integer or text"@, position: pos },
                ),
            },
        },
    }
}

/// A successfully parsed argument always moves the position forward.
pub proof fn lemma_parse_arg_advances(b: Seq<u8>, pos: int)
    requires
        0 <= pos <= b.len(),
    ensures
        spec_parse_arg(b, pos) matches Ok((_, np)) ==> pos < np <= b.len(),
{
    if pos + 1 <= b.len() {
        lemma_ident_end(b, pos + 1);
    }
    if pos < b.len() && b[pos] == 0x2d {
        lemma_skip_ws(b, pos + 1);
    }
    let p1 = if pos < b.len() && b[pos] == 0x2d {
        spec_skip_ws(b, pos + 1)
    } else {
        pos
    };
    if p1 + 2 <= b.len() {
        lemma_hex_end(b, p1 + 2);
    }
    lemma_dec_end(b, p1);
    if pos + 2 <= b.len() {
        lemma_text_scan(b, pos + 2, false);
    }
}

/// Exec test of `is_rest_byte`.
fn rest_byte(d: u8) -> (r: bool)
    ensures
        r == is_rest_byte(d),
{
    d == 0x5f || (0x41 <= d && d <= 0x5a) || (0x61 <= d && d <= 0x7a) || (0x30 <= d && d <= 0x39)
}

/// Exec test of `is_hex_byte`.
fn hex_byte(d: u8) -> (r: bool)
    ensures
        r == is_hex_byte(d),
{
    (0x30 <= d && d <= 0x39) || (0x41 <= d && d <= 0x46) || (0x61 <= d && d <= 0x66)
}

/// Parses an identifier at `pos`: an underscore or ASCII letter, then
/// any run of underscores, ASCII letters and digits.
pub fn parse_ident(input: &str, pos: usize) -> (r: Result<(Ident, usize), Error>)
    requires
        pos <= input.spec_bytes().len(),
    ensures
        match r {
            Ok((id, np)) => spec_parse_ident(input.spec_bytes(), pos as int) == Ok::<
                (int, int),
                SpecErr,
            >((pos as int, np as int)) && id.0.begin == pos && id.0.end == np && id.1@
                == input.spec_bytes().subrange(pos as int, np as int) && pos < np
                <= input.spec_bytes().len(),
            Err(e) => spec_parse_ident(input.spec_bytes(), pos as int) == Err::<
                (int, int),
                SpecErr,
            >(e@) && e.spec_input() == input@,
        },
{
    let b = input.as_bytes();
    let n = b.len();
    if pos >= n {
        return Err(Error::new(input, "identifier", pos));
    }
    let c = b[pos];
    if !(c == 0x5f || (0x41 <= c && c <= 0x5a) || (0x61 <= c && c <= 0x7a)) {
        return Err(Error::new(input, "identifier", pos));
    }
    let mut i = pos + 1;
    while i < n && rest_byte(b[i])
        invariant
            n == b@.len(),
            b@ == input.spec_bytes(),
            pos + 1 <= i <= n,
            spec_ident_end(b@, (pos + 1) as int) == spec_ident_end(b@, i as int),
        decreases n - i,
    {
        i = i + 1;
    }
    let payload = vstd::slice::slice_to_vec(vstd::slice::slice_subrange(b, pos, i));
    Ok((Ident(Token::new(pos, i), payload), i))
}

/// Parses an integer at `pos`: an optional minus sign (blanks may follow
/// it), then either `0x` and hexadecimal digits or decimal digits. The
/// magnitude must fit a 32-bit signed value.
pub fn parse_int(input: &str, pos: usize) -> (r: Result<(Int, usize), Error>)
    requires
        pos <= input.spec_bytes().len(),
    ensures
        match r {
            Ok((iv, np)) => spec_parse_int(input.spec_bytes(), pos as int) matches Ok(
                (bb, ee, v),
            ) && iv.0.begin == pos && bb == pos && iv.0.end == np && ee == np && iv.1 == v && pos
                < np <= input.spec_bytes().len(),
            Err(e) => spec_parse_int(input.spec_bytes(), pos as int) == Err::<
                (int, int, int),
                SpecErr,
            >(e@) && e.spec_input() == input@,
        },
{
    let b = input.as_bytes();
    let n = b.len();
    let negative = pos < n && b[pos] == 0x2d;
    let p1 = if negative {
        skip_whitespace(input, pos + 1)
    } else {
        pos
    };
    proof {
        if negative {
            lemma_skip_ws(b@, pos as int + 1);
        }
    }
    if p1 < n && n - p1 >= 2 && b[p1] == 0x30 && b[p1 + 1] == 0x78 {
        let p2 = p1 + 2;
        let mut i = p2;
        let mut acc: u64 = 0;
        let mut overflow = false;
        while i < n && hex_byte(b[i])
            invariant
                n == b@.len(),
                b@ == input.spec_bytes(),
                p2 <= i <= n,
                spec_hex_end(b@, p2 as int) == spec_hex_end(b@, i as int),
                !overflow ==> acc == hex_val(b@, p2 as int, i as int) && acc <= 0x7fffffff,
                overflow ==> hex_val(b@, p2 as int, i as int) > 0x7fffffff,
                hex_val(b@, p2 as int, i as int) >= 0,
            decreases n - i,
        {
            let d = b[i];
            let dv: u64 = if 0x30 <= d && d <= 0x39 {
                (d - 0x30) as u64
            } else if 0x41 <= d && d <= 0x46 {
                (d - 0x41) as u64 + 10
            } else {
                (d - 0x61) as u64 + 10
            };
            proof {
                assert(hex_val(b@, p2 as int, i + 1) == hex_val(b@, p2 as int, i as int) * 16
                    + hex_digit_val(b@[i as int]));
                assert(hex_digit_val(b@[i as int]) >= 0);
            }
            if !overflow {
                let next = acc * 16 + dv;
                if next > 0x7fffffff {
                    overflow = true;
                } else {
                    acc = next;
                }
            }
            i = i + 1;
        }
        proof {
            lemma_hex_end(b@, p2 as int);
        }
        if i == p2 {
            return Err(Error::new(input, "hex digit", i));
        }
        if overflow {
            return Err(Error::new(input, "hex digit", i));
        }
        let value: i32 = if negative {
            -(acc as i32)
        } else {
            acc as i32
        };
        Ok((Int(Token::new(pos, i), value), i))
    } else {
        let mut i = p1;
        let mut acc: u64 = 0;
        let mut overflow = false;
        while i < n && 0x30 <= b[i] && b[i] <= 0x39
            invariant
                n == b@.len(),
                b@ == input.spec_bytes(),
                p1 <= i <= n,
                spec_dec_end(b@, p1 as int) == spec_dec_end(b@, i as int),
                !overflow ==> acc == dec_val(b@, p1 as int, i as int) && acc <= 0x7fffffff,
                overflow ==> dec_val(b@, p1 as int, i as int) > 0x7fffffff,
                dec_val(b@, p1 as int, i as int) >= 0,
            decreases n - i,
        {
            let d = b[i];
            let dv: u64 = (d - 0x30) as u64;
            proof {
                assert(dec_val(b@, p1 as int, i + 1) == dec_val(b@, p1 as int, i as int) * 10 + (
                b@[i as int] - 0x30));
            }
            if !overflow {
                let next = acc * 10 + dv;
                if next > 0x7fffffff {
                    overflow = true;
                } else {
                    acc = next;
                }
            }
            i = i + 1;
        }
        proof {
            lemma_dec_end(b@, p1 as int);
        }
        if i == p1 {
            return Err(Error::new(input, "digit", i));
        }
        if overflow {
            return Err(Error::new(input, "digit", i));
        }
        let value: i32 = if negative {
            -(acc as i32)
        } else {
            acc as i32
        };
        Ok((Int(Token::new(pos, i), value), i))
    }
}

/// Parses backquoted text at `pos`: a backquote and a newline, the raw
/// text with `\\`, `\t` and `` \` `` escapes, and a closing backquote
/// (or the end of the input).
pub fn parse_text(input: &str, pos: usize) -> (r: Result<(Text, usize), Error>)
    requires
        pos <= input.spec_bytes().len(),
    ensures
        match r {
            Ok((t, np)) => spec_parse_text(input.spec_bytes(), pos as int) matches Ok(
                (bb, ee, bytes),
            ) && t.0.begin == pos && bb == pos && t.0.end == np && ee == np && t.1@ == bytes && pos
                < np <= input.spec_bytes().len(),
            Err(e) => spec_parse_text(input.spec_bytes(), pos as int) == Err::<
                (int, int, Seq<u8>),
                SpecErr,
            >(e@) && e.spec_input() == input@,
        },
{
    let b = input.as_bytes();
    let n = b.len();
    if !(pos < n && n - pos >= 2 && b[pos] == 0x60 && b[pos + 1] == 0x0a) {
        return Err(Error::new(input, "backquote+newline", pos));
    }
    let mut i = pos + 2;
    let mut escaped = false;
    let mut done = false;
    let mut end: usize = n;
    while i < n && !done
        invariant
            n == b@.len(),
            b@ == input.spec_bytes(),
            pos < n && n - pos >= 2,
            b@[pos as int] == 0x60 && b@[pos as int + 1] == 0x0a,
            pos + 2 <= i <= n,
            !done ==> spec_text_scan(b@, pos + 2, false) == spec_text_scan(b@, i as int, escaped),
            done ==> spec_text_scan(b@, pos + 2, false) == Ok::<int, int>(end as int) && pos + 2
                < end <= n,
        decreases n - i + (if done {
            0int
        } else {
            1int
        }),
    {
        let c = b[i];
        if escaped {
            if c == 0x5c || c == 0x74 || c == 0x60 {
                escaped = false;
                i = i + 1;
            } else {
                return Err(Error::new(input, "escape character", i));
            }
        } else {
            if c == 0x5c {
                escaped = true;
                i = i + 1;
            } else if c == 0x60 {
                end = i + 1;
                done = true;
            } else {
                i = i + 1;
            }
        }
    }
    if !done {
        if escaped {
            return Err(Error::new(input, "escape character", n));
        }
        end = n;
    }
    let pe = if end - (pos + 2) >= 1 {
        end - 1
    } else {
        pos + 2
    };
    let payload = vstd::slice::slice_to_vec(vstd::slice::slice_subrange(b, pos + 2, pe));
    Ok((Text(Token::new(pos, end), payload), end))
}

/// Parses one argument at `pos`: an identifier, else an integer, else
/// backquoted text.
pub fn parse_arg(input: &str, pos: usize) -> (r: Result<(Arg, usize), Error>)
    requires
        pos <= input.spec_bytes().len(),
    ensures
        match r {
            Ok((a, np)) => spec_parse_arg(input.spec_bytes(), pos as int) == Ok::<
                (SpecArg, int),
                SpecErr,
            >((arg_view(a), np as int)) && pos < np <= input.spec_bytes().len(),
            Err(e) => spec_parse_arg(input.spec_bytes(), pos as int) == Err::<
                (SpecArg, int),
                SpecErr,
            >(e@) && e.spec_input() == input@,
        },
{
    match parse_ident(input, pos) {
        Ok((ident, np)) => {
            return Ok((Arg::Ident(ident), np));
        },
        Err(_) => {},
    }
    match parse_int(input, pos) {
        Ok((iv, np)) => {
            return Ok((Arg::Int(iv), np));
        },
        Err(_) => {},
    }
    match parse_text(input, pos) {
        Ok((t, np)) => {
            return Ok((Arg::Text(t), np));
        },
        Err(_) => {},
    }
    Err(Error::new(input, "identifier, integer or text", pos))
}

/// Mathematical model of one instruction: its line's byte range, its
/// operation name's byte range, and its arguments.
pub ghost struct SpecInstr {
    pub begin: int,
    pub end: int,
    pub op_begin: int,
    pub op_end: int,
    pub args: Seq<SpecArg>,
}

pub open spec fn instr_view(i: Instr) -> SpecInstr {
    SpecInstr {
        begin: i.token.begin as int,
        end: i.token.end as int,
        op_begin: i.operation.0.begin as int,
        op_end: i.operation.0.end as int,
        args: i.args@.map_values(|a: Arg| arg_view(a)),
    }
}

/// Parses the comma-led continuation of an argument list: as long as a
/// comma follows, blanks are skipped and one more argument is parsed.
/// Yields the arguments and the position after the trailing blanks.
pub open spec fn spec_parse_more(b: Seq<u8>, pos: int) -> Result<(Seq<SpecArg>, int), SpecErr>
    decreases b.len() - pos,
    via spec_parse_more_dec
{
    if pos < 0 || pos >= b.len() || b[pos] != 0x2c {
        Ok((Seq::empty(), pos))
    } else {
        let p = spec_skip_ws(b, pos + 1);
        match spec_parse_arg(b, p) {
            Err(e) => Err(e),
            Ok((a, np)) => {
                let p2 = spec_skip_ws(b, np);
                match spec_parse_more(b, p2) {
                    Ok((rest, end)) => Ok((seq![a] + rest, end)),
                    Err(e) => Err(e),
                }
            },
        }
    }
}

#[via_fn]
proof fn spec_parse_more_dec(b: Seq<u8>, pos: int) {
    if 0 <= pos < b.len() && b[pos] == 0x2c {
        lemma_skip_ws(b, pos + 1);
        let p = spec_skip_ws(b, pos + 1);
        lemma_parse_arg_advances(b, p);
        match spec_parse_arg(b, p) {
            Ok((a, np)) => {
                lemma_skip_ws(b, np);
            },
            Err(_) => {},
        }
    }
}

/// A parsed argument-list continuation never moves backwards.
pub proof fn lemma_parse_more_bounds(b: Seq<u8>, pos: int)
    requires
        0 <= pos <= b.len(),
    ensures
        spec_parse_more(b, pos) matches Ok((_, end)) ==> pos <= end <= b.len(),
    decreases b.len() - pos,
{
    if 0 <= pos < b.len() && b[pos] == 0x2c {
        lemma_skip_ws(b, pos + 1);
        let p = spec_skip_ws(b, pos + 1);
        lemma_parse_arg_advances(b, p);
        match spec_parse_arg(b, p) {
            Ok((a, np)) => {
                lemma_skip_ws(b, np);
                lemma_parse_more_bounds(b, spec_skip_ws(b, np));
            },
            Err(_) => {},
        }
    }
}

/// What parsing one instruction yields: an operation identifier, an
/// optional argument list, and a terminating newline; the instruction's
/// token covers everything up to and including the newline.
pub open spec fn spec_parse_instr(b: Seq<u8>, pos: int) -> Result<(SpecInstr, int), SpecErr> {
    match spec_parse_ident(b, pos) {
        Err(e) => Err(e),
        Ok((ob, oe)) => {
            let p1 = spec_skip_ws(b, oe);
            match spec_parse_arg(b, p1) {
                Err(_) => {
                    if p1 < b.len() && b[p1] == 0x0a {
                        Ok(
                            (
                                SpecInstr {
                                    begin: pos,
                                    end: p1 + 1,
                                    op_begin: ob,
                                    op_end: oe,
                                    args: Seq::empty(),
                                },
                                p1 + 1,
                            ),
                        )
                    } else {
                        Err(SpecErr { expected: "newline"@, position: p1 })
                    }
                },
                Ok((a0, p2)) => {
                    let p3 = spec_skip_ws(b, p2);
                    match spec_parse_more(b, p3) {
                        Err(e) => Err(e),
                        Ok((rest, end)) => {
                            if end < b.len() && b[end] == 0x0a {
                                Ok(
                                    (
                                        SpecInstr {
                                            begin: pos,
                                            end: end + 1,
                                            op_begin: ob,
                                            op_end: oe,
                                            args: seq![a0] + rest,
                                        },
                                        end + 1,
                                    ),
                                )
                            } else {
                                Err(SpecErr { expected: "newline"@, position: end })
                            }
                        },
                    }
                },
            }
        },
    }
}

/// A parsed instruction always moves the position forward.
pub proof fn lemma_parse_instr_advances(b: Seq<u8>, pos: int)
    requires
        0 <= pos <= b.len(),
    ensures
        spec_parse_instr(b, pos) matches Ok((_, np)) ==> pos < np <= b.len(),
{
    if pos + 1 <= b.len() {
        lemma_ident_end(b, pos + 1);
    }
    match spec_parse_ident(b, pos) {
        Err(_) => {},
        Ok((ob, oe)) => {
            lemma_skip_ws(b, oe);
            let p1 = spec_skip_ws(b, oe);
            lemma_parse_arg_advances(b, p1);
            match spec_parse_arg(b, p1) {
                Err(_) => {},
                Ok((a0, p2)) => {
                    lemma_skip_ws(b, p2);
                    let p3 = spec_skip_ws(b, p2);
                    lemma_parse_more_bounds(b, p3);
                },
            }
        },
    }
}

/// What parsing a whole script yields: instructions parsed back to back
/// until the input is exhausted.
pub open spec fn spec_parse_script(b: Seq<u8>, pos: int) -> Result<Seq<SpecInstr>, SpecErr>
    decreases b.len() - pos,
    via spec_parse_script_dec
{
    if pos < 0 || pos >= b.len() {
        Ok(Seq::empty())
    } else {
        match spec_parse_instr(b, pos) {
            Err(e) => Err(e),
            Ok((i, np)) => match spec_parse_script(b, np) {
                Ok(rest) => Ok(seq![i] + rest),
                Err(e) => Err(e),
            },
        }
    }
}

#[via_fn]
proof fn spec_parse_script_dec(b: Seq<u8>, pos: int) {
    if 0 <= pos < b.len() {
        lemma_parse_instr_advances(b, pos);
    }
}

/// Parses the comma-led continuation of an argument list.
fn parse_more_args(input: &str, pos: usize) -> (r: Result<(Vec<Arg>, usize), Error>)
    requires
        pos <= input.spec_bytes().len(),
    ensures
        match r {
            Ok((args, end)) => spec_parse_more(input.spec_bytes(), pos as int) == Ok::<
                (Seq<SpecArg>, int),
                SpecErr,
            >((args@.map_values(|a: Arg| arg_view(a)), end as int)) && pos <= end
                <= input.spec_bytes().len(),
            Err(e) => spec_parse_more(input.spec_bytes(), pos as int) == Err::<
                (Seq<SpecArg>, int),
                SpecErr,
            >(e@) && e.spec_input() == input@,
        },
    decreases input.spec_bytes().len() - pos,
{
    let b = input.as_bytes();
    let n = b.len();
    if pos >= n || b[pos] != 0x2c {
        let empty: Vec<Arg> = Vec::new();
        proof {
            assert(empty@.map_values(|a: Arg| arg_view(a)) =~= Seq::<SpecArg>::empty());
        }
        return Ok((empty, pos));
    }
    let p = skip_whitespace(input, pos + 1);
    let (a, np) = match parse_arg(input, p) {
        Ok(x) => x,
        Err(e) => {
            return Err(e);
        },
    };
    let p2 = skip_whitespace(input, np);
    let (mut rest, end) = match parse_more_args(input, p2) {
        Ok(x) => x,
        Err(e) => {
            return Err(e);
        },
    };
    let ghost old_rest = rest@.map_values(|x: Arg| arg_view(x));
    rest.insert(0, a);
    proof {
        assert(rest@.map_values(|x: Arg| arg_view(x)) =~= seq![arg_view(a)] + old_rest);
    }
    Ok((rest, end))
}

/// Parses one instruction at `pos`: an operation identifier, optional
/// comma-separated arguments, and a terminating newline.
pub fn parse_instr(input: &str, pos: usize) -> (r: Result<(Instr, usize), Error>)
    requires
        pos <= input.spec_bytes().len(),
    ensures
        match r {
            Ok((instr, np)) => spec_parse_instr(input.spec_bytes(), pos as int) == Ok::<
                (SpecInstr, int),
                SpecErr,
            >((instr_view(instr), np as int)) && instr.token.end == np && pos < np
                <= input.spec_bytes().len(),
            Err(e) => spec_parse_instr(input.spec_bytes(), pos as int) == Err::<
                (SpecInstr, int),
                SpecErr,
            >(e@) && e.spec_input() == input@,
        },
{
    let b = input.as_bytes();
    let n = b.len();
    let (operation, p0) = match parse_ident(input, pos) {
        Ok(x) => x,
        Err(e) => {
            return Err(e);
        },
    };
    let p1 = skip_whitespace(input, p0);
    match parse_arg(input, p1) {
        Err(_) => {
            if p1 < n && b[p1] == 0x0a {
                let instr = Instr { token: Token::new(pos, p1 + 1), operation, args: Vec::new() };
                proof {
                    assert(instr.args@.map_values(|a: Arg| arg_view(a))
                        =~= Seq::<SpecArg>::empty());
                }
                Ok((instr, p1 + 1))
            } else {
                Err(Error::new(input, "newline", p1))
            }
        },
        Ok((a0, p2)) => {
            let p3 = skip_whitespace(input, p2);
            let (mut args, end) = match parse_more_args(input, p3) {
                Ok(x) => x,
                Err(e) => {
                    return Err(e);
                },
            };
            let ghost rest_view = args@.map_values(|x: Arg| arg_view(x));
            args.insert(0, a0);
            proof {
                assert(args@.map_values(|x: Arg| arg_view(x)) =~= seq![arg_view(a0)]
                    + rest_view);
            }
            if end < n && b[end] == 0x0a {
                let instr = Instr { token: Token::new(pos, end + 1), operation, args };
                Ok((instr, end + 1))
            } else {
                Err(Error::new(input, "newline", end))
            }
        },
    }
}

/// Parses instructions back to back from `pos` to the end of the input.
fn parse_script_rest(input: &str, pos: usize) -> (r: Result<Vec<Instr>, Error>)
    requires
        pos <= input.spec_bytes().len(),
    ensures
        match r {
            Ok(instrs) => spec_parse_script(input.spec_bytes(), pos as int) == Ok::<
                Seq<SpecInstr>,
                SpecErr,
            >(instrs@.map_values(|i: Instr| instr_view(i))),
            Err(e) => spec_parse_script(input.spec_bytes(), pos as int) == Err::<
                Seq<SpecInstr>,
                SpecErr,
            >(e@) && e.spec_input() == input@,
        },
    decreases input.spec_bytes().len() - pos,
{
    let b = input.as_bytes();
    let n = b.len();
    if pos >= n {
        let empty: Vec<Instr> = Vec::new();
        proof {
            assert(empty@.map_values(|i: Instr| instr_view(i)) =~= Seq::<SpecInstr>::empty());
        }
        return Ok(empty);
    }
    let (instr, np) = match parse_instr(input, pos) {
        Ok(x) => x,
        Err(e) => {
            return Err(e);
        },
    };
    let mut rest = match parse_script_rest(input, np) {
        Ok(x) => x,
        Err(e) => {
            return Err(e);
        },
    };
    let ghost rest_view = rest@.map_values(|i: Instr| instr_view(i));
    rest.insert(0, instr);
    proof {
        assert(rest@.map_values(|i: Instr| instr_view(i)) =~= seq![instr_view(instr)]
            + rest_view);
    }
    Ok(rest)
}

/// Parses a whole script: instructions back to back until the input is
/// exhausted.
pub fn parse_script(input: &str) -> (r: Result<Script, Error>)
    ensures
        match r {
            Ok(s) => spec_parse_script(input.spec_bytes(), 0) == Ok::<Seq<SpecInstr>, SpecErr>(
                s.instrs@.map_values(|i: Instr| instr_view(i)),
            ),
            Err(e) => spec_parse_script(input.spec_bytes(), 0) == Err::<Seq<SpecInstr>, SpecErr>(
                e@,
            ) && e.spec_input() == input@,
        },
{
    match parse_script_rest(input, 0) {
        Ok(instrs) => Ok(Script { instrs }),
        Err(e) => Err(e),
    }
}

} // verus!
