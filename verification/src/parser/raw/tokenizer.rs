//! The grammar of PDF objects.
//!
//! Each construct is a spec function from the bytes and a position to the construct's value
//! and the position after it; the parser is proved to compute those.

use vstd::prelude::*;
use vstd::string::*;

use super::ascii;
use super::ascii::{ascii_ws, digit, find_from, parse_digits, skip_digits, starts_at};
use super::object;
use super::object::{copy_bytes, dict_get, Obj, PdfDict, PdfObject, PdfStream};
use crate::error::{Error, ErrorSpec};

verus! {

/// How deep arrays and dictionaries may nest.
pub const MAX_DEPTH: usize = 128;

/// PDF white space: the ASCII white space, and the null byte.
pub open spec fn is_white(b: u8) -> bool {
    b == 0 || ascii::is_ascii_ws(b)
}

/// The bytes that end a token and start the next one: `( ) < > [ ] { } / %`.
pub open spec fn is_delimiter(b: u8) -> bool {
    b == '(' as u8 || b == ')' as u8 || b == '<' as u8 || b == '>' as u8 || b == '[' as u8 || b
        == ']' as u8 || b == '{' as u8 || b == '}' as u8 || b == '/' as u8 || b == '%' as u8
}

/// The bytes a name, a number or a keyword is made of.
pub open spec fn is_regular(b: u8) -> bool {
    !is_white(b) && !is_delimiter(b)
}

/// A byte that does not end a line.
pub open spec fn is_line_byte(b: u8) -> bool {
    b != 0x0a && b != 0x0d
}

fn white(b: u8) -> (r: bool)
    ensures
        r == is_white(b),
{
    b == 0 || ascii_ws(b)
}

fn regular(b: u8) -> (r: bool)
    ensures
        r == is_regular(b),
{
    !(white(b) || b == '(' as u8 || b == ')' as u8 || b == '<' as u8 || b == '>' as u8 || b
        == '[' as u8 || b == ']' as u8 || b == '{' as u8 || b == '}' as u8 || b == '/' as u8 || b
        == '%' as u8)
}

/// The end of the line that `pos` is in.
pub open spec fn line_end(d: Seq<u8>, pos: int) -> int {
    ascii::run_end(d, pos, |b: u8| is_line_byte(b))
}

/// The first position from `pos` on that is neither white space nor in a comment.
pub open spec fn space_end(d: Seq<u8>, pos: int) -> int
    decreases d.len() - pos,
{
    if !(0 <= pos < d.len()) {
        pos
    } else if is_white(d[pos]) {
        space_end(d, pos + 1)
    } else if d[pos] == '%' as u8 {
        proof {
            ascii::lemma_run_end(d, pos + 1, |b: u8| is_line_byte(b));
        }
        space_end(d, line_end(d, pos + 1))
    } else {
        pos
    }
}

/// Space ends where it starts or later, within the bytes.
pub proof fn lemma_space_end(d: Seq<u8>, pos: int)
    requires
        0 <= pos,
    ensures
        pos <= space_end(d, pos),
        pos <= d.len() ==> space_end(d, pos) <= d.len(),
    decreases d.len() - pos,
{
    if pos < d.len() {
        if is_white(d[pos]) {
            lemma_space_end(d, pos + 1);
        } else if d[pos] == '%' as u8 {
            ascii::lemma_run_end(d, pos + 1, |b: u8| is_line_byte(b));
            lemma_space_end(d, line_end(d, pos + 1));
        }
    }
}

/// The first position from `pos` on that is neither white space nor in a comment.
pub fn skip_space(data: &[u8], pos: usize) -> (end: usize)
    requires
        pos <= data@.len(),
    ensures
        end == space_end(data@, pos as int),
        pos <= end <= data@.len(),
{
    let mut p: usize = pos;
    while p < data.len()
        invariant
            pos <= p <= data@.len(),
            space_end(data@, pos as int) == space_end(data@, p as int),
        decreases data@.len() - p,
    {
        if white(data[p]) {
            p += 1;
        } else if data[p] == '%' as u8 {
            let ghost start = p + 1;
            p += 1;
            while p < data.len() && data[p] != 0x0a && data[p] != 0x0d
                invariant
                    start <= p <= data@.len(),
                    line_end(data@, start) == line_end(data@, p as int),
                decreases data@.len() - p,
            {
                p += 1;
            }
        } else {
            return p;
        }
    }
    p
}

/// Whether the keyword `word` stands at `pos`, and ends there.
pub open spec fn keyword(d: Seq<u8>, pos: int, word: Seq<u8>) -> bool {
    ascii::at(d, pos, word) && (pos + word.len() == d.len() || !is_regular(d[pos + word.len()]))
}

/// Whether the keyword `word` stands at `pos`, and ends there.
pub fn has_keyword(data: &[u8], pos: usize, word: &[u8]) -> (r: bool)
    ensures
        r == keyword(data@, pos as int, word@),
{
    starts_at(data, pos, word) && (data.len() - pos == word.len() || !regular(
        data[pos + word.len()],
    ))
}

/// Two unsigned integers at `pos`, each followed by space, and where the next token starts.
pub open spec fn int_pair(d: Seq<u8>, pos: int) -> Option<(nat, nat, int)> {
    let end1 = ascii::digits_end(d, pos);
    let start2 = space_end(d, end1);
    let end2 = ascii::digits_end(d, start2);
    let next = space_end(d, end2);
    if pos < end1 < start2 < end2 < next {
        Some(
            (ascii::decimal_value(d.subrange(pos, end1)), ascii::decimal_value(d.subrange(start2, end2)), next),
        )
    } else {
        None
    }
}

/// The number that the digits at `pos` write, and the position after them.
///
/// A number too large for 64 bits is given as `None`.
pub fn parse_unsigned(data: &[u8], pos: usize) -> (r: (Option<u64>, usize))
    requires
        pos <= data@.len(),
    ensures
        r.1 == ascii::digits_end(data@, pos as int),
        pos <= r.1 <= data@.len(),
        ({
            let v = ascii::decimal_value(data@.subrange(pos as int, r.1 as int));
            match r.0 {
                Some(n) => n == v,
                None => v > u64::MAX,
            }
        }),
{
    let end = skip_digits(data, pos);
    proof {
        ascii::lemma_run_end(data@, pos as int, |b: u8| ascii::is_digit(b));
    }
    (parse_digits(data, pos, end), end)
}

/// Two unsigned integers at `pos`, each followed by space, and where the next token starts.
///
/// A number too large for 64 bits is given as `None`.
pub fn parse_int_pair(data: &[u8], pos: usize) -> (r: Option<(Option<u64>, Option<u64>, usize)>)
    requires
        pos <= data@.len(),
    ensures
        match (r, int_pair(data@, pos as int)) {
            (Some((a, b, next)), Some((x, y, n))) => {
                &&& next == n
                &&& next <= data@.len()
                &&& match a {
                    Some(a) => a == x,
                    None => x > u64::MAX,
                }
                &&& match b {
                    Some(b) => b == y,
                    None => y > u64::MAX,
                }
            },
            (None, None) => true,
            _ => false,
        },
{
    let (a, end1) = parse_unsigned(data, pos);
    let start2 = skip_space(data, end1);
    let (b, end2) = parse_unsigned(data, start2);
    let next = skip_space(data, end2);
    if pos < end1 && end1 < start2 && start2 < end2 && end2 < next {
        Some((a, b, next))
    } else {
        None
    }
}

/// The reference at `pos`, and the position after it.
pub open spec fn reference(d: Seq<u8>, pos: int) -> Option<(Obj, int)> {
    match int_pair(d, pos) {
        Some((num, gen, next)) => if keyword(d, next, "R".spec_bytes()) && num <= u32::MAX && gen
            <= u16::MAX {
            Some((Obj::Reference(num as u32, gen as u16), next + "R".spec_bytes().len()))
        } else {
            None
        },
        None => None,
    }
}

/// The position after the sign at `pos`, if there is one.
pub open spec fn sign_end(d: Seq<u8>, pos: int) -> int {
    if 0 <= pos < d.len() && (d[pos] == '+' as u8 || d[pos] == '-' as u8) {
        pos + 1
    } else {
        pos
    }
}

/// The number that the digits in `start..end` write, negated if a minus stands at `pos`.
pub open spec fn signed_value(d: Seq<u8>, pos: int, start: int, end: int) -> int {
    let n = ascii::decimal_value(d.subrange(start, end)) as int;
    if d[pos] == '-' as u8 {
        -n
    } else {
        n
    }
}

/// The number at `pos`, and the position after it.
pub open spec fn number(d: Seq<u8>, pos: int) -> Option<(Obj, int)> {
    let start = sign_end(d, pos);
    let whole = ascii::digits_end(d, start);
    if whole < d.len() && d[whole] == '.' as u8 {
        let end = ascii::digits_end(d, whole + 1);
        if end - start >= 2 {
            Some((Obj::Real(d.subrange(pos, end)), end))
        } else {
            None
        }
    } else if whole > start {
        let n = signed_value(d, pos, start, whole);
        if i64::MIN <= n <= i64::MAX {
            Some((Obj::Integer(n as i64), whole))
        } else {
            Some((Obj::Real(d.subrange(pos, whole)), whole))
        }
    } else {
        None
    }
}

/// What a parser returned, in terms of the grammar.
pub open spec fn parsed(r: Option<(PdfObject, usize)>) -> Option<(Obj, int)> {
    match r {
        Some((o, end)) => Some((o@, end as int)),
        None => None,
    }
}

/// `n`, negated if `negative`, when it fits.
pub fn to_i64(n: Option<u64>, negative: bool) -> (r: Option<i64>)
    ensures
        ({
            match n {
                Some(n) => {
                    let v = if negative {
                        -(n as int)
                    } else {
                        n as int
                    };
                    match r {
                        Some(i) => i == v,
                        None => !(i64::MIN <= v <= i64::MAX),
                    }
                },
                None => r is None,
            }
        }),
{
    match n {
        Some(n) => if n <= i64::MAX as u64 {
            if negative {
                Some(-(n as i64))
            } else {
                Some(n as i64)
            }
        } else if negative && n == 0x8000_0000_0000_0000 {
            Some(i64::MIN)
        } else {
            None
        },
        None => None,
    }
}

fn parse_number(data: &[u8], pos: usize) -> (r: Option<(PdfObject, usize)>)
    requires
        pos < data@.len(),
    ensures
        parsed(r) == number(data@, pos as int),
        r matches Some((_, end)) ==> pos < end <= data@.len(),
{
    let negative = data[pos] == '-' as u8;
    let start = if data[pos] == '+' as u8 || negative {
        pos + 1
    } else {
        pos
    };
    let (value, whole) = parse_unsigned(data, start);
    if whole < data.len() && data[whole] == '.' as u8 {
        let end = skip_digits(data, whole + 1);
        if end - start >= 2 {
            Some(
                (PdfObject::Real(copy_bytes(vstd::slice::slice_subrange(data, pos, end))), end),
            )
        } else {
            None
        }
    } else if whole > start {
        match to_i64(value, negative) {
            Some(n) => Some((PdfObject::Integer(n), whole)),
            None => Some(
                (PdfObject::Real(copy_bytes(vstd::slice::slice_subrange(data, pos, whole))), whole),
            ),
        }
    } else {
        None
    }
}

fn parse_reference(data: &[u8], pos: usize) -> (r: Option<(PdfObject, usize)>)
    requires
        pos < data@.len(),
    ensures
        parsed(r) == reference(data@, pos as int),
        r matches Some((_, end)) ==> pos < end <= data@.len(),
{
    match parse_int_pair(data, pos) {
        Some((num, gen, next)) => {
            let word = "R".as_bytes();
            assert(data@.len() == data.len());
            if !has_keyword(data, next, word) {
                return None;
            }
            match (num, gen) {
                (Some(num), Some(gen)) => if num <= u32::MAX as u64 && gen <= u16::MAX as u64 {
                    Some((PdfObject::Reference(num as u32, gen as u16), next + word.len()))
                } else {
                    None
                },
                _ => None,
            }
        },
        None => None,
    }
}

/// The value of a hexadecimal digit.
pub open spec fn hex_value(b: u8) -> Option<u8> {
    if ascii::is_digit(b) {
        Some((b - '0' as u8) as u8)
    } else if 'a' as u8 <= b <= 'f' as u8 {
        Some((b - 'a' as u8 + 10) as u8)
    } else if 'A' as u8 <= b <= 'F' as u8 {
        Some((b - 'A' as u8 + 10) as u8)
    } else {
        None
    }
}

fn hex(b: u8) -> (r: Option<u8>)
    ensures
        r == hex_value(b),
        r matches Some(v) ==> v < 16,
{
    if digit(b) {
        Some(b - '0' as u8)
    } else if 'a' as u8 <= b && b <= 'f' as u8 {
        Some(b - 'a' as u8 + 10)
    } else if 'A' as u8 <= b && b <= 'F' as u8 {
        Some(b - 'A' as u8 + 10)
    } else {
        None
    }
}

/// The byte that two hexadecimal digits write.
pub open spec fn hex_byte(hi: u8, lo: u8) -> u8 {
    (hi * 16 + lo) as u8
}

/// The byte that `#` and two hexadecimal digits at `pos` write in a name.
pub open spec fn name_escape(d: Seq<u8>, pos: int) -> Option<u8> {
    if pos + 2 < d.len() && d[pos] == '#' as u8 && hex_value(d[pos + 1]) is Some && hex_value(
        d[pos + 2],
    ) is Some {
        Some(hex_byte(hex_value(d[pos + 1])->0, hex_value(d[pos + 2])->0))
    } else {
        None
    }
}

/// The name whose first byte after the slash is at `pos`, and the position after it.
pub open spec fn name_at(d: Seq<u8>, pos: int) -> (Seq<u8>, int)
    decreases d.len() - pos,
{
    if !(0 <= pos < d.len()) || !is_regular(d[pos]) {
        (Seq::empty(), pos)
    } else {
        match name_escape(d, pos) {
            Some(b) => {
                let rest = name_at(d, pos + 3);
                (seq![b] + rest.0, rest.1)
            },
            None => {
                let rest = name_at(d, pos + 1);
                (seq![d[pos]] + rest.0, rest.1)
            },
        }
    }
}

fn parse_name(data: &[u8], pos: usize) -> (r: (Vec<u8>, usize))
    requires
        pos <= data@.len(),
    ensures
        r.0@ == name_at(data@, pos as int).0,
        r.1 == name_at(data@, pos as int).1,
        pos <= r.1 <= data@.len(),
{
    let mut out: Vec<u8> = Vec::new();
    let mut p: usize = pos;
    while p < data.len() && regular(data[p])
        invariant
            pos <= p <= data@.len(),
            name_at(data@, pos as int).0 =~= out@ + name_at(data@, p as int).0,
            name_at(data@, pos as int).1 == name_at(data@, p as int).1,
        decreases data@.len() - p,
    {
        let ghost rest = name_at(data@, p as int);
        if data[p] == '#' as u8 && data.len() - p > 2 {
            match (hex(data[p + 1]), hex(data[p + 2])) {
                (Some(hi), Some(lo)) => {
                    out.push(hi * 16 + lo);
                    p += 3;
                },
                _ => {
                    out.push(data[p]);
                    p += 1;
                },
            }
        } else {
            out.push(data[p]);
            p += 1;
        }
    }
    (out, p)
}

/// The end of line at `pos`, taken as one: the position after it.
pub open spec fn eol_end(d: Seq<u8>, pos: int) -> int {
    if 0 <= pos < d.len() && d[pos] == 0x0d {
        if pos + 1 < d.len() && d[pos + 1] == 0x0a {
            pos + 2
        } else {
            pos + 1
        }
    } else if 0 <= pos < d.len() && d[pos] == 0x0a {
        pos + 1
    } else {
        pos
    }
}

fn skip_eol(data: &[u8], pos: usize) -> (end: usize)
    requires
        pos <= data@.len(),
    ensures
        end == eol_end(data@, pos as int),
        pos <= end <= data@.len(),
{
    if pos < data.len() && data[pos] == 0x0d {
        if data.len() - pos > 1 && data[pos + 1] == 0x0a {
            pos + 2
        } else {
            pos + 1
        }
    } else if pos < data.len() && data[pos] == 0x0a {
        pos + 1
    } else {
        pos
    }
}

/// Whether `b` is an octal digit.
pub open spec fn is_octal(b: u8) -> bool {
    '0' as u8 <= b <= '7' as u8
}

/// The position after the octal digits at `pos`, at most three of them.
pub open spec fn octal_end(d: Seq<u8>, pos: int) -> int {
    if !(0 <= pos < d.len() && is_octal(d[pos])) {
        pos
    } else if !(pos + 1 < d.len() && is_octal(d[pos + 1])) {
        pos + 1
    } else if !(pos + 2 < d.len() && is_octal(d[pos + 2])) {
        pos + 2
    } else {
        pos + 3
    }
}

/// The number that octal digits write.
pub open spec fn octal_value(s: Seq<u8>) -> nat
    decreases s.len(),
{
    if s.len() == 0 {
        0
    } else {
        octal_value(s.drop_last()) * 8 + (s.last() - '0' as u8) as nat
    }
}

/// What the escape after a backslash stands for, and the position after it.
pub open spec fn escape(d: Seq<u8>, pos: int) -> (Seq<u8>, int) {
    let b = d[pos];
    if b == 'n' as u8 {
        (seq![0x0au8], pos + 1)
    } else if b == 'r' as u8 {
        (seq![0x0du8], pos + 1)
    } else if b == 't' as u8 {
        (seq![0x09u8], pos + 1)
    } else if b == 'b' as u8 {
        (seq![0x08u8], pos + 1)
    } else if b == 'f' as u8 {
        (seq![0x0cu8], pos + 1)
    } else if b == 0x0a || b == 0x0d {
        (Seq::empty(), eol_end(d, pos))
    } else if is_octal(b) {
        let end = octal_end(d, pos);
        (seq![(octal_value(d.subrange(pos, end)) % 256) as u8], end)
    } else {
        (seq![b], pos + 1)
    }
}

/// The rest of a literal string from `pos` on, inside `depth` nested parentheses, and the
/// position after its closing parenthesis.
pub open spec fn literal_string(d: Seq<u8>, pos: int, depth: nat) -> Option<(Seq<u8>, int)>
    decreases d.len() - pos,
{
    if !(0 <= pos < d.len()) {
        None
    } else if d[pos] == ')' as u8 && depth == 0 {
        Some((Seq::empty(), pos + 1))
    } else {
        let (out, next, inside) = literal_step(d, pos, depth);
        if next <= pos {
            None
        } else {
            match literal_string(d, next, inside) {
                Some((rest, end)) => Some((out + rest, end)),
                None => None,
            }
        }
    }
}

/// What the byte or escape at `pos` adds to a literal string, the position after it, and how
/// many parentheses are open there.
pub open spec fn literal_step(d: Seq<u8>, pos: int, depth: nat) -> (Seq<u8>, int, nat) {
    let b = d[pos];
    if b == '(' as u8 {
        (seq![b], pos + 1, depth + 1)
    } else if b == ')' as u8 {
        (seq![b], pos + 1, (depth - 1) as nat)
    } else if b == '\\' as u8 {
        if pos + 1 < d.len() {
            (escape(d, pos + 1).0, escape(d, pos + 1).1, depth)
        } else {
            (Seq::empty(), pos, depth)
        }
    } else if b == 0x0d {
        (seq![0x0au8], eol_end(d, pos), depth)
    } else {
        (seq![b], pos + 1, depth)
    }
}

fn octal(b: u8) -> (r: bool)
    ensures
        r == is_octal(b),
{
    '0' as u8 <= b && b <= '7' as u8
}

fn parse_octal(data: &[u8], pos: usize) -> (r: (u8, usize))
    requires
        pos < data@.len(),
        is_octal(data@[pos as int]),
    ensures
        r.1 == octal_end(data@, pos as int),
        pos < r.1 <= data@.len(),
        r.0 == octal_value(data@.subrange(pos as int, r.1 as int)) % 256,
{
    let mut value: u32 = (data[pos] - '0' as u8) as u32;
    let mut p: usize = pos + 1;
    let ghost d = data@;
    proof {
        assert(d.subrange(pos as int, pos + 1).drop_last() =~= Seq::<u8>::empty());
        reveal_with_fuel(octal_value, 2);
        assert(value == octal_value(d.subrange(pos as int, p as int)));
    }
    if p < data.len() && octal(data[p]) {
        value = value * 8 + (data[p] - '0' as u8) as u32;
        p += 1;
        proof {
            assert(d.subrange(pos as int, pos + 2).drop_last() =~= d.subrange(pos as int, pos + 1));
            assert(value == octal_value(d.subrange(pos as int, p as int)));
        }
        if p < data.len() && octal(data[p]) {
            value = value * 8 + (data[p] - '0' as u8) as u32;
            p += 1;
            proof {
                assert(d.subrange(pos as int, pos + 3).drop_last() =~= d.subrange(
                    pos as int,
                    pos + 2,
                ));
                assert(value == octal_value(d.subrange(pos as int, p as int)));
            }
        }
    }
    ((value % 256) as u8, p)
}

/// Appends what the escape at `pos` stands for, and gives the position after it.
fn parse_escape(data: &[u8], pos: usize, out: &mut Vec<u8>) -> (end: usize)
    requires
        pos < data@.len(),
    ensures
        final(out)@ == old(out)@ + escape(data@, pos as int).0,
        end == escape(data@, pos as int).1,
        pos < end <= data@.len(),
{
    let b = data[pos];
    let end: usize;
    if b == 'n' as u8 {
        out.push(0x0a);
        end = pos + 1;
    } else if b == 'r' as u8 {
        out.push(0x0d);
        end = pos + 1;
    } else if b == 't' as u8 {
        out.push(0x09);
        end = pos + 1;
    } else if b == 'b' as u8 {
        out.push(0x08);
        end = pos + 1;
    } else if b == 'f' as u8 {
        out.push(0x0c);
        end = pos + 1;
    } else if b == 0x0a || b == 0x0d {
        end = skip_eol(data, pos);
    } else if octal(b) {
        let (value, next) = parse_octal(data, pos);
        out.push(value);
        end = next;
    } else {
        out.push(b);
        end = pos + 1;
    }
    assert(out@ =~= old(out)@ + escape(data@, pos as int).0);
    end
}

/// What a parser of byte strings returned, in terms of the grammar.
pub open spec fn parsed_bytes(r: Option<(Vec<u8>, usize)>) -> Option<(Seq<u8>, int)> {
    match r {
        Some((s, end)) => Some((s@, end as int)),
        None => None,
    }
}

fn parse_literal_string(data: &[u8], pos: usize) -> (r: Option<(Vec<u8>, usize)>)
    requires
        pos <= data@.len(),
    ensures
        parsed_bytes(r) == literal_string(data@, pos as int, 0),
        r matches Some((_, end)) ==> pos < end <= data@.len(),
{
    let mut out: Vec<u8> = Vec::new();
    let mut depth: usize = 0;
    let mut p: usize = pos;
    while p < data.len()
        invariant
            pos <= p <= data@.len(),
            depth <= p,
            match literal_string(data@, p as int, depth as nat) {
                Some((rest, end)) => literal_string(data@, pos as int, 0) == Some(
                    (out@ + rest, end),
                ),
                None => literal_string(data@, pos as int, 0) is None,
            },
        decreases data@.len() - p,
    {
        let b = data[p];
        if b == ')' as u8 && depth == 0 {
            assert(out@ + Seq::<u8>::empty() =~= out@);
            return Some((out, p + 1));
        }
        let ghost before = out@;
        let ghost step = literal_step(data@, p as int, depth as nat);
        let ghost here = literal_string(data@, p as int, depth as nat);
        if b == '(' as u8 {
            out.push(b);
            p += 1;
            depth += 1;
        } else if b == ')' as u8 {
            out.push(b);
            p += 1;
            depth -= 1;
        } else if b == '\\' as u8 {
            if p + 1 >= data.len() {
                return None;
            }
            p = parse_escape(data, p + 1, &mut out);
        } else if b == 0x0d {
            out.push(0x0a);
            p = skip_eol(data, p);
        } else {
            out.push(b);
            p += 1;
        }
        proof {
            assert(out@ =~= before + step.0);
            assert(p == step.1 && depth == step.2);
            if let Some((rest, end)) = literal_string(data@, p as int, depth as nat) {
                assert(here == Some((step.0 + rest, end)));
                assert(before + (step.0 + rest) =~= out@ + rest);
            }
        }
    }
    None
}

/// The hexadecimal digits from `pos` on, up to the closing bracket, and the position after it.
pub open spec fn hex_digits(d: Seq<u8>, pos: int) -> Option<(Seq<u8>, int)>
    decreases d.len() - pos,
{
    if !(0 <= pos < d.len()) {
        None
    } else if d[pos] == '>' as u8 {
        Some((Seq::empty(), pos + 1))
    } else if is_white(d[pos]) {
        hex_digits(d, pos + 1)
    } else {
        match (hex_value(d[pos]), hex_digits(d, pos + 1)) {
            (Some(v), Some((rest, end))) => Some((seq![v] + rest, end)),
            _ => None,
        }
    }
}

/// The bytes that hexadecimal digits write, a missing last digit read as zero.
pub open spec fn hex_bytes(s: Seq<u8>) -> Seq<u8>
    decreases s.len(),
{
    if s.len() == 0 {
        Seq::empty()
    } else if s.len() == 1 {
        seq![hex_byte(s[0], 0)]
    } else {
        seq![hex_byte(s[0], s[1])] + hex_bytes(s.skip(2))
    }
}

/// The hexadecimal string from `pos` on, and the position after it.
pub open spec fn hex_string(d: Seq<u8>, pos: int) -> Option<(Seq<u8>, int)> {
    match hex_digits(d, pos) {
        Some((digits, end)) => Some((hex_bytes(digits), end)),
        None => None,
    }
}

fn parse_hex_digits(data: &[u8], pos: usize) -> (r: Option<(Vec<u8>, usize)>)
    requires
        pos <= data@.len(),
    ensures
        parsed_bytes(r) == hex_digits(data@, pos as int),
        r matches Some((s, end)) ==> pos < end <= data@.len() && forall|i: int|
            0 <= i < s@.len() ==> #[trigger] s@[i] < 16,
{
    let mut out: Vec<u8> = Vec::new();
    let mut p: usize = pos;
    while p < data.len()
        invariant
            pos <= p <= data@.len(),
            forall|i: int| 0 <= i < out@.len() ==> #[trigger] out@[i] < 16,
            match hex_digits(data@, p as int) {
                Some((rest, end)) => hex_digits(data@, pos as int) == Some((out@ + rest, end)),
                None => hex_digits(data@, pos as int) is None,
            },
        decreases data@.len() - p,
    {
        let b = data[p];
        if b == '>' as u8 {
            assert(out@ + Seq::<u8>::empty() =~= out@);
            return Some((out, p + 1));
        }
        if !white(b) {
            match hex(b) {
                Some(v) => {
                    let ghost before = out@;
                    out.push(v);
                    proof {
                        if let Some((rest, end)) = hex_digits(data@, p + 1) {
                            assert(before + (seq![v] + rest) =~= out@ + rest);
                        }
                    }
                },
                None => {
                    return None;
                },
            }
        }
        p += 1;
    }
    None
}

fn pack_hex(digits: &Vec<u8>) -> (out: Vec<u8>)
    requires
        forall|i: int| 0 <= i < digits@.len() ==> #[trigger] digits@[i] < 16,
    ensures
        out@ == hex_bytes(digits@),
{
    let mut out: Vec<u8> = Vec::new();
    let mut i: usize = 0;
    assert(digits@.skip(0) =~= digits@);
    while digits.len() - i >= 2
        invariant
            i <= digits@.len(),
            forall|i: int| 0 <= i < digits@.len() ==> #[trigger] digits@[i] < 16,
            hex_bytes(digits@) =~= out@ + hex_bytes(digits@.skip(i as int)),
        decreases digits@.len() - i,
    {
        out.push(digits[i] * 16 + digits[i + 1]);
        assert(digits@.skip(i as int).skip(2) =~= digits@.skip(i + 2));
        i += 2;
    }
    if i < digits.len() {
        out.push(digits[i] * 16);
    }
    out
}

fn parse_hex_string(data: &[u8], pos: usize) -> (r: Option<(Vec<u8>, usize)>)
    requires
        pos <= data@.len(),
    ensures
        parsed_bytes(r) == hex_string(data@, pos as int),
        r matches Some((_, end)) ==> pos < end <= data@.len(),
{
    match parse_hex_digits(data, pos) {
        Some((digits, end)) => Some((pack_hex(&digits), end)),
        None => None,
    }
}

/// The value at `pos`, space before it skipped, and the position after it. Arrays and
/// dictionaries may nest `depth` deep.
pub open spec fn value_at(d: Seq<u8>, pos: int, depth: nat) -> Option<(Obj, int)>
    decreases depth, 0int, 0int,
{
    let p = space_end(d, pos);
    if !(0 <= p < d.len()) {
        None
    } else if d[p] == '/' as u8 {
        Some((Obj::Name(name_at(d, p + 1).0), name_at(d, p + 1).1))
    } else if d[p] == '(' as u8 {
        match literal_string(d, p + 1, 0) {
            Some((s, end)) => Some((Obj::Str(s), end)),
            None => None,
        }
    } else if d[p] == '<' as u8 && p + 1 < d.len() && d[p + 1] == '<' as u8 {
        if depth == 0 {
            None
        } else {
            match entries_at(d, p + 2, (depth - 1) as nat) {
                Some((m, end)) => Some((Obj::Dict(m), end)),
                None => None,
            }
        }
    } else if d[p] == '<' as u8 {
        match hex_string(d, p + 1) {
            Some((s, end)) => Some((Obj::Str(s), end)),
            None => None,
        }
    } else if d[p] == '[' as u8 {
        if depth == 0 {
            None
        } else {
            match items_at(d, p + 1, (depth - 1) as nat) {
                Some((s, end)) => Some((Obj::Array(s), end)),
                None => None,
            }
        }
    } else {
        atom_at(d, p)
    }
}

/// The keyword, reference or number at `p`, and the position after it.
pub open spec fn atom_at(d: Seq<u8>, p: int) -> Option<(Obj, int)> {
    if keyword(d, p, "true".spec_bytes()) {
        Some((Obj::Bool(true), p + "true".spec_bytes().len()))
    } else if keyword(d, p, "false".spec_bytes()) {
        Some((Obj::Bool(false), p + "false".spec_bytes().len()))
    } else if keyword(d, p, "null".spec_bytes()) {
        Some((Obj::Null, p + "null".spec_bytes().len()))
    } else {
        match reference(d, p) {
            Some(r) => Some(r),
            None => number(d, p),
        }
    }
}

/// The elements of an array from `pos` on, and the position after its closing bracket.
pub open spec fn items_at(d: Seq<u8>, pos: int, depth: nat) -> Option<(Seq<Obj>, int)>
    decreases depth, 1int, d.len() - pos,
{
    let p = space_end(d, pos);
    if !(0 <= pos <= p < d.len()) {
        None
    } else if d[p] == ']' as u8 {
        Some((Seq::empty(), p + 1))
    } else {
        match value_at(d, p, depth) {
            Some((o, next)) => if !(p < next <= d.len()) {
                None
            } else {
                match items_at(d, next, depth) {
                    Some((rest, end)) => Some((seq![o] + rest, end)),
                    None => None,
                }
            },
            None => None,
        }
    }
}

/// The entries of a dictionary from `pos` on, a later one replacing an earlier one of the same
/// key, and the position after its closing brackets.
pub open spec fn entries_at(d: Seq<u8>, pos: int, depth: nat) -> Option<(Map<Seq<u8>, Obj>, int)>
    decreases depth, 1int, d.len() - pos,
{
    let p = space_end(d, pos);
    if !(0 <= pos <= p < d.len()) {
        None
    } else if d[p] == '>' as u8 && p + 1 < d.len() && d[p + 1] == '>' as u8 {
        Some((Map::empty(), p + 2))
    } else if d[p] == '/' as u8 {
        let (key, after_key) = name_at(d, p + 1);
        match value_at(d, after_key, depth) {
            Some((o, next)) => if !(p < next <= d.len()) {
                None
            } else {
                match entries_at(d, next, depth) {
                    Some((rest, end)) => Some(
                        (Map::<Seq<u8>, Obj>::empty().insert(key, o).union_prefer_right(rest), end),
                    ),
                    None => None,
                }
            },
            None => None,
        }
    } else {
        None
    }
}

fn parse_atom(data: &[u8], p: usize) -> (r: Option<(PdfObject, usize)>)
    requires
        p < data@.len(),
    ensures
        parsed(r) == atom_at(data@, p as int),
        r matches Some((_, end)) ==> p <= end <= data@.len(),
{
    assert(data@.len() == data.len());
    let word_true = "true".as_bytes();
    let word_false = "false".as_bytes();
    let word_null = "null".as_bytes();
    if has_keyword(data, p, word_true) {
        Some((PdfObject::Bool(true), p + word_true.len()))
    } else if has_keyword(data, p, word_false) {
        Some((PdfObject::Bool(false), p + word_false.len()))
    } else if has_keyword(data, p, word_null) {
        Some((PdfObject::Null, p + word_null.len()))
    } else {
        match parse_reference(data, p) {
            Some(r) => Some(r),
            None => parse_number(data, p),
        }
    }
}

fn parse_value(data: &[u8], pos: usize, depth: usize) -> (r: Option<(PdfObject, usize)>)
    requires
        pos <= data@.len(),
    ensures
        parsed(r) == value_at(data@, pos as int, depth as nat),
        r matches Some((_, end)) ==> pos <= end <= data@.len(),
    decreases depth, 0int, 0int,
{
    let p = skip_space(data, pos);
    if p >= data.len() {
        return None;
    }
    let b = data[p];
    if b == '/' as u8 {
        let (name, end) = parse_name(data, p + 1);
        Some((PdfObject::Name(name), end))
    } else if b == '(' as u8 {
        match parse_literal_string(data, p + 1) {
            Some((s, end)) => Some((PdfObject::Str(s), end)),
            None => None,
        }
    } else if b == '<' as u8 && data.len() - p > 1 && data[p + 1] == '<' as u8 {
        if depth == 0 {
            return None;
        }
        match parse_entries(data, p + 2, depth - 1) {
            Some((d, end)) => Some((PdfObject::Dict(d), end)),
            None => None,
        }
    } else if b == '<' as u8 {
        match parse_hex_string(data, p + 1) {
            Some((s, end)) => Some((PdfObject::Str(s), end)),
            None => None,
        }
    } else if b == '[' as u8 {
        if depth == 0 {
            return None;
        }
        match parse_items(data, p + 1, depth - 1) {
            Some((items, end)) => {
                proof {
                    object::lemma_array_view(items);
                }
                Some((PdfObject::Array(items), end))
            },
            None => None,
        }
    } else {
        parse_atom(data, p)
    }
}

fn parse_items(data: &[u8], pos: usize, depth: usize) -> (r: Option<(Vec<PdfObject>, usize)>)
    requires
        pos <= data@.len(),
    ensures
        match r {
            Some((items, end)) => items_at(data@, pos as int, depth as nat) == Some(
                (object::objects_view(items@), end as int),
            ) && pos <= end <= data@.len(),
            None => items_at(data@, pos as int, depth as nat) is None,
        },
    decreases depth, 1int, data@.len() - pos,
{
    let mut items: Vec<PdfObject> = Vec::new();
    let mut at: usize = pos;
    proof {
        if let Some((rest, end)) = items_at(data@, pos as int, depth as nat) {
            assert(object::objects_view(items@) + rest =~= rest);
        }
    }
    loop
        invariant
            pos <= at <= data@.len(),
            match items_at(data@, at as int, depth as nat) {
                Some((rest, end)) => items_at(data@, pos as int, depth as nat) == Some(
                    (object::objects_view(items@) + rest, end),
                ),
                None => items_at(data@, pos as int, depth as nat) is None,
            },
        decreases data@.len() - at,
    {
        let p = skip_space(data, at);
        if p >= data.len() {
            return None;
        }
        if data[p] == ']' as u8 {
            assert(object::objects_view(items@) + Seq::<Obj>::empty() =~= object::objects_view(
                items@,
            ));
            return Some((items, p + 1));
        }
        match parse_value(data, p, depth) {
            Some((o, next)) => {
                if next <= p {
                    return None;
                }
                let ghost before = object::objects_view(items@);
                let ghost item = o@;
                items.push(o);
                proof {
                    assert(object::objects_view(items@) =~= before.push(item));
                    if let Some((rest, end)) = items_at(data@, next as int, depth as nat) {
                        assert(before + (seq![item] + rest) =~= object::objects_view(items@)
                            + rest);
                    }
                }
                at = next;
            },
            None => {
                return None;
            },
        }
    }
}

fn parse_entries(data: &[u8], pos: usize, depth: usize) -> (r: Option<(PdfDict, usize)>)
    requires
        pos <= data@.len(),
    ensures
        match r {
            Some((d, end)) => entries_at(data@, pos as int, depth as nat) == Some((d@, end as int))
                && pos <= end <= data@.len(),
            None => entries_at(data@, pos as int, depth as nat) is None,
        },
    decreases depth, 1int, data@.len() - pos,
{
    let mut dict = PdfDict::new();
    let mut at: usize = pos;
    proof {
        if let Some((rest, end)) = entries_at(data@, pos as int, depth as nat) {
            assert(dict@.union_prefer_right(rest) =~= rest);
        }
    }
    loop
        invariant
            pos <= at <= data@.len(),
            match entries_at(data@, at as int, depth as nat) {
                Some((rest, end)) => entries_at(data@, pos as int, depth as nat) == Some(
                    (dict@.union_prefer_right(rest), end),
                ),
                None => entries_at(data@, pos as int, depth as nat) is None,
            },
        decreases data@.len() - at,
    {
        let p = skip_space(data, at);
        if p >= data.len() {
            return None;
        }
        if data[p] == '>' as u8 && data.len() - p > 1 && data[p + 1] == '>' as u8 {
            assert(dict@.union_prefer_right(Map::empty()) =~= dict@);
            return Some((dict, p + 2));
        }
        if data[p] != '/' as u8 {
            return None;
        }
        let (key, after_key) = parse_name(data, p + 1);
        match parse_value(data, after_key, depth) {
            Some((o, next)) => {
                if next <= p {
                    return None;
                }
                let ghost before = dict@;
                let ghost k = key@;
                let ghost v = o@;
                dict.insert(key, o);
                proof {
                    if let Some((rest, end)) = entries_at(data@, next as int, depth as nat) {
                        let one = Map::<Seq<u8>, Obj>::empty().insert(k, v);
                        assert(before.union_prefer_right(one.union_prefer_right(rest))
                            =~= dict@.union_prefer_right(rest));
                    }
                }
                at = next;
            },
            None => {
                return None;
            },
        }
    }
}

/// Where the bytes of a stream start: after the end of line behind its keyword.
pub open spec fn stream_start(d: Seq<u8>, keyword_end: int) -> int {
    eol_end(d, keyword_end)
}

/// The first position from `pos` on that is not white space.
pub open spec fn white_end(d: Seq<u8>, pos: int) -> int {
    ascii::run_end(d, pos, |b: u8| is_white(b))
}

/// `end` without the end of line before it, but not before `start`.
pub open spec fn before_eol(d: Seq<u8>, start: int, end: int) -> int {
    if end - 1 >= start && d[end - 1] == 0x0a {
        if end - 2 >= start && d[end - 2] == 0x0d {
            end - 2
        } else {
            end - 1
        }
    } else if end - 1 >= start && d[end - 1] == 0x0d {
        end - 1
    } else {
        end
    }
}

/// The start and end of a stream's bytes and the position after its closing keyword, for a
/// stream whose bytes start at `start` and whose dictionary is `m`.
///
/// The length that the dictionary states counts when the closing keyword follows there;
/// otherwise the bytes reach up to the first closing keyword.
pub open spec fn stream_extent(d: Seq<u8>, start: int, m: Map<Seq<u8>, Obj>) -> Option<
    (int, int),
> {
    let word = "endstream".spec_bytes();
    match object::int_entry(m, "Length".spec_bytes()) {
        Some(n) => if n >= 0 && start + n <= d.len() && ascii::at(
            d,
            white_end(d, start + n),
            word,
        ) {
            Some((start + n, white_end(d, start + n) + word.len()))
        } else {
            scanned_extent(d, start)
        },
        None => scanned_extent(d, start),
    }
}

/// The end of a stream's bytes and the position after its closing keyword, by that keyword
/// alone.
pub open spec fn scanned_extent(d: Seq<u8>, start: int) -> Option<(int, int)> {
    let word = "endstream".spec_bytes();
    match ascii::find(d, start, word) {
        Some(i) => Some((before_eol(d, start, i), i + word.len())),
        None => None,
    }
}

/// The object whose `obj` keyword ends at `pos`, and the position after it.
pub open spec fn indirect_at(d: Seq<u8>, pos: int) -> Option<(Obj, int)> {
    match value_at(d, pos, MAX_DEPTH as nat) {
        Some((Obj::Dict(m), end)) => {
            let word = "stream".spec_bytes();
            let p = space_end(d, end);
            if ascii::at(d, p, word) {
                let start = stream_start(d, p + word.len());
                match stream_extent(d, start, m) {
                    Some((data_end, after)) => Some(
                        (Obj::Stream(m, d.subrange(start, data_end)), after),
                    ),
                    None => None,
                }
            } else {
                Some((Obj::Dict(m), end))
            }
        },
        r => r,
    }
}

/// The object at `pos`, with or without an object number in front, and the position after it.
/// Only an object with a number can be a stream.
#[verifier::opaque]
pub open spec fn object_at(d: Seq<u8>, pos: int) -> Option<(Obj, int)> {
    let p = space_end(d, pos);
    match int_pair(d, p) {
        Some((_, _, next)) => if keyword(d, next, "obj".spec_bytes()) {
            indirect_at(d, next + "obj".spec_bytes().len())
        } else {
            value_at(d, p, MAX_DEPTH as nat)
        },
        None => value_at(d, p, MAX_DEPTH as nat),
    }
}

fn skip_white(data: &[u8], pos: usize) -> (end: usize)
    requires
        pos <= data@.len(),
    ensures
        end == white_end(data@, pos as int),
        pos <= end <= data@.len(),
{
    let mut p: usize = pos;
    while p < data.len() && white(data[p])
        invariant
            pos <= p <= data@.len(),
            white_end(data@, pos as int) == white_end(data@, p as int),
        decreases data@.len() - p,
    {
        p += 1;
    }
    p
}

fn scan_extent(data: &[u8], start: usize) -> (r: Option<(usize, usize)>)
    requires
        start <= data@.len(),
    ensures
        match r {
            Some((end, after)) => scanned_extent(data@, start as int) == Some(
                (end as int, after as int),
            ) && start <= end <= data@.len() && after <= data@.len(),
            None => scanned_extent(data@, start as int) is None,
        },
{
    assert(data@.len() == data.len());
    let word = "endstream".as_bytes();
    match find_from(data, start, word) {
        Some(i) => {
            let mut end: usize = i;
            if i > start && data[i - 1] == 0x0a {
                end = i - 1;
                if i - start > 1 && data[i - 2] == 0x0d {
                    end = i - 2;
                }
            } else if i > start && data[i - 1] == 0x0d {
                end = i - 1;
            }
            Some((end, i + word.len()))
        },
        None => None,
    }
}

fn find_extent(data: &[u8], start: usize, dict: &PdfDict) -> (r: Option<(usize, usize)>)
    requires
        start <= data@.len(),
    ensures
        match r {
            Some((end, after)) => stream_extent(data@, start as int, dict@) == Some(
                (end as int, after as int),
            ) && start <= end <= data@.len() && after <= data@.len(),
            None => stream_extent(data@, start as int, dict@) is None,
        },
{
    assert(data@.len() == data.len());
    let word = "endstream".as_bytes();
    let length = match dict_get(dict, "Length".as_bytes()) {
        Some(o) => o.as_i64(),
        None => None,
    };
    match length {
        Some(n) => {
            if n >= 0 && n as u64 <= (data.len() - start) as u64 {
                let end: usize = start + n as usize;
                let p = skip_white(data, end);
                if starts_at(data, p, word) {
                    return Some((end, p + word.len()));
                }
            }
            scan_extent(data, start)
        },
        None => scan_extent(data, start),
    }
}

fn parse_indirect(data: &[u8], pos: usize) -> (r: Option<(PdfObject, usize)>)
    requires
        pos <= data@.len(),
    ensures
        parsed(r) == indirect_at(data@, pos as int),
        r matches Some((_, end)) ==> end <= data@.len(),
{
    assert(data@.len() == data.len());
    match parse_value(data, pos, MAX_DEPTH) {
        Some((PdfObject::Dict(dict), end)) => {
            let word = "stream".as_bytes();
            let p = skip_space(data, end);
            if !starts_at(data, p, word) {
                return Some((PdfObject::Dict(dict), end));
            }
            let start = skip_eol(data, p + word.len());
            match find_extent(data, start, &dict) {
                Some((data_end, after)) => {
                    let raw_data = copy_bytes(vstd::slice::slice_subrange(data, start, data_end));
                    Some((PdfObject::Stream(PdfStream { dict, raw_data }), after))
                },
                None => None,
            }
        },
        r => r,
    }
}

/// The object at `pos`, with or without an object number in front, and the position after it.
pub fn parse_object(data: &[u8], pos: usize) -> (r: Result<(PdfObject, usize), Error>)
    ensures
        match r {
            Ok((o, end)) => object_at(data@, pos as int) == Some((o@, end as int)) && end
                <= data@.len(),
            Err(e) => object_at(data@, pos as int) is None && e@ == ErrorSpec::PdfParse(
                "malformed object"@,
            ),
        },
{
    reveal(object_at);
    assert(data@.len() == data.len());
    if pos > data.len() {
        return Err(Error::pdf_parse("malformed object"));
    }
    let p = skip_space(data, pos);
    let word = "obj".as_bytes();
    let object = match parse_int_pair(data, p) {
        Some((_, _, next)) => if has_keyword(data, next, word) {
            parse_indirect(data, next + word.len())
        } else {
            parse_value(data, p, MAX_DEPTH)
        },
        None => parse_value(data, p, MAX_DEPTH),
    };
    match object {
        Some(r) => Ok(r),
        None => Err(Error::pdf_parse("malformed object")),
    }
}

/// The dictionary at `pos`, space before it skipped.
pub fn parse_dict(data: &[u8], pos: usize) -> (r: Option<PdfDict>)
    requires
        pos <= data@.len(),
    ensures
        match r {
            Some(dict) => value_at(data@, pos as int, MAX_DEPTH as nat) matches Some((o, _)) && o
                == Obj::Dict(dict@),
            None => !(value_at(data@, pos as int, MAX_DEPTH as nat) matches Some((Obj::Dict(_), _))),
        },
{
    match parse_value(data, pos, MAX_DEPTH) {
        Some((PdfObject::Dict(dict), _)) => Some(dict),
        _ => None,
    }
}

} // verus!
