//! Character classes, decimal numbers and keywords in the bytes of a PDF file.

use vstd::prelude::*;
use vstd::string::*;

verus! {

/// The digit that `b` stands for, when it is one of `0`..`9`.
pub open spec fn is_digit(b: u8) -> bool {
    '0' as u8 <= b <= '9' as u8
}

/// Whitespace of ASCII text: space, tab, line feed, form feed, carriage return.
pub open spec fn is_ascii_ws(b: u8) -> bool {
    b == 0x20 || b == 0x09 || b == 0x0a || b == 0x0c || b == 0x0d
}

/// The first position from `pos` on, up to `end`, whose byte is not in the class `f`.
pub open spec fn run_end(d: Seq<u8>, pos: int, f: spec_fn(u8) -> bool) -> int
    decreases d.len() - pos,
{
    if 0 <= pos < d.len() && f(d[pos]) {
        run_end(d, pos + 1, f)
    } else {
        pos
    }
}

/// Where a run ends, and that everything in it is of the class.
pub proof fn lemma_run_end(d: Seq<u8>, pos: int, f: spec_fn(u8) -> bool)
    requires
        0 <= pos,
    ensures
        run_end(d, pos, f) >= pos,
        pos <= d.len() ==> run_end(d, pos, f) <= d.len(),
        forall|i: int| pos <= i < run_end(d, pos, f) ==> f(#[trigger] d[i]),
        pos <= d.len() && run_end(d, pos, f) < d.len() ==> !f(d[run_end(d, pos, f)]),
    decreases d.len() - pos,
{
    if 0 <= pos < d.len() && f(d[pos]) {
        lemma_run_end(d, pos + 1, f);
    }
}

/// Whether `b` is an ASCII digit.
pub fn digit(b: u8) -> (r: bool)
    ensures
        r == is_digit(b),
{
    '0' as u8 <= b && b <= '9' as u8
}

/// Whether `b` is ASCII whitespace.
pub fn ascii_ws(b: u8) -> (r: bool)
    ensures
        r == is_ascii_ws(b),
{
    b == 0x20 || b == 0x09 || b == 0x0a || b == 0x0c || b == 0x0d
}

/// The position after the digits that start at `pos`.
pub open spec fn digits_end(d: Seq<u8>, pos: int) -> int {
    run_end(d, pos, |b: u8| is_digit(b))
}

/// The first position from `pos` on that does not hold ASCII whitespace.
pub open spec fn ascii_ws_end(d: Seq<u8>, pos: int) -> int {
    run_end(d, pos, |b: u8| is_ascii_ws(b))
}

/// The position after the digits that start at `pos`.
pub fn skip_digits(data: &[u8], pos: usize) -> (end: usize)
    requires
        pos <= data@.len(),
    ensures
        end == digits_end(data@, pos as int),
        pos <= end <= data@.len(),
{
    let mut p: usize = pos;
    while p < data.len() && digit(data[p])
        invariant
            pos <= p <= data@.len(),
            digits_end(data@, pos as int) == digits_end(data@, p as int),
        decreases data@.len() - p,
    {
        p += 1;
    }
    p
}

/// The number written by the decimal digits `s`.
pub open spec fn decimal_value(s: Seq<u8>) -> nat
    decreases s.len(),
{
    if s.len() == 0 {
        0
    } else {
        decimal_value(s.drop_last()) * 10 + (s.last() - '0' as u8) as nat
    }
}

/// A prefix of a number is not larger than the number.
pub proof fn lemma_decimal_prefix(s: Seq<u8>, n: int)
    requires
        0 <= n <= s.len(),
    ensures
        decimal_value(s.take(n)) <= decimal_value(s),
    decreases s.len(),
{
    if n < s.len() {
        lemma_decimal_prefix(s.drop_last(), n);
        assert(s.drop_last().take(n) =~= s.take(n));
    } else {
        assert(s.take(n) =~= s);
    }
}

/// The number that the digits in `start..end` write, when it fits in 64 bits.
pub fn parse_digits(data: &[u8], start: usize, end: usize) -> (r: Option<u64>)
    requires
        start <= end <= data@.len(),
        forall|i: int| start <= i < end ==> is_digit(#[trigger] data@[i]),
    ensures
        ({
            let v = decimal_value(data@.subrange(start as int, end as int));
            match r {
                Some(n) => n == v,
                None => v > u64::MAX,
            }
        }),
{
    let ghost all = data@.subrange(start as int, end as int);
    let mut acc: u64 = 0;
    let mut p: usize = start;
    assert(all.take(0) =~= Seq::<u8>::empty());
    while p < end
        invariant
            start <= p <= end <= data@.len(),
            all == data@.subrange(start as int, end as int),
            forall|i: int| start <= i < end ==> is_digit(#[trigger] data@[i]),
            acc == decimal_value(all.take(p - start)),
        decreases end - p,
    {
        let value: u64 = (data[p] - '0' as u8) as u64;
        proof {
            assert(all.take(p + 1 - start).drop_last() =~= all.take(p - start));
            assert(all.take(p + 1 - start).last() == data@[p as int]);
            lemma_decimal_prefix(all, p + 1 - start);
        }
        if acc > (u64::MAX - value) / 10 {
            return None;
        }
        acc = acc * 10 + value;
        p += 1;
    }
    assert(all.take(end - start) =~= all);
    Some(acc)
}

/// Whether `pat` stands in `d` at `pos`.
pub open spec fn at(d: Seq<u8>, pos: int, pat: Seq<u8>) -> bool {
    0 <= pos && pos + pat.len() <= d.len() && d.subrange(pos, pos + pat.len()) == pat
}

/// Whether two byte strings are equal.
pub fn same_bytes(a: &[u8], b: &[u8]) -> (r: bool)
    ensures
        r == (a@ == b@),
{
    if a.len() != b.len() {
        return false;
    }
    let mut i: usize = 0;
    while i < a.len()
        invariant
            a@.len() == b@.len(),
            i <= a@.len(),
            forall|j: int| 0 <= j < i ==> a@[j] == b@[j],
        decreases a@.len() - i,
    {
        if a[i] != b[i] {
            return false;
        }
        i += 1;
    }
    assert(a@ =~= b@);
    true
}

/// Whether `pat` stands in `data` at `pos`.
pub fn starts_at(data: &[u8], pos: usize, pat: &[u8]) -> (r: bool)
    ensures
        r == at(data@, pos as int, pat@),
{
    if pos > data.len() || data.len() - pos < pat.len() {
        return false;
    }
    same_bytes(vstd::slice::slice_subrange(data, pos, pos + pat.len()), pat)
}

/// The first place from `from` on where `pat` stands.
pub open spec fn find(d: Seq<u8>, from: int, pat: Seq<u8>) -> Option<int>
    decreases d.len() + 1 - from,
{
    if from < 0 || from + pat.len() > d.len() {
        None
    } else if at(d, from, pat) {
        Some(from)
    } else {
        find(d, from + 1, pat)
    }
}

/// The last place before or at `from` where `pat` stands.
pub open spec fn rfind(d: Seq<u8>, from: int, pat: Seq<u8>) -> Option<int>
    decreases from + 1,
{
    if from < 0 {
        None
    } else if at(d, from, pat) {
        Some(from)
    } else {
        rfind(d, from - 1, pat)
    }
}

/// The first place from `from` on where `pat` stands.
pub fn find_from(data: &[u8], from: usize, pat: &[u8]) -> (r: Option<usize>)
    ensures
        match r {
            Some(i) => find(data@, from as int, pat@) == Some(i as int) && from <= i && at(
                data@,
                i as int,
                pat@,
            ),
            None => find(data@, from as int, pat@) is None,
        },
{
    let mut i: usize = from;
    while i <= data.len() && pat.len() <= data.len() - i
        invariant
            from <= i,
            i <= data@.len() + 1 || i == from,
            find(data@, from as int, pat@) == find(data@, i as int, pat@),
        decreases data@.len() + 1 - i,
    {
        if starts_at(data, i, pat) {
            return Some(i);
        }
        if i == data.len() {
            assert(find(data@, i + 1, pat@) is None);
            return None;
        }
        i += 1;
    }
    None
}

/// The last place where `pat` stands.
pub fn find_last(data: &[u8], pat: &[u8]) -> (r: Option<usize>)
    ensures
        match r {
            Some(i) => rfind(data@, data@.len() as int, pat@) == Some(i as int) && at(
                data@,
                i as int,
                pat@,
            ),
            None => rfind(data@, data@.len() as int, pat@) is None,
        },
{
    let mut i: usize = data.len();
    loop
        invariant
            i <= data@.len(),
            rfind(data@, data@.len() as int, pat@) == rfind(data@, i as int, pat@),
        decreases i,
    {
        if starts_at(data, i, pat) {
            return Some(i);
        }
        if i == 0 {
            assert(rfind(data@, -1, pat@) is None);
            return None;
        }
        i -= 1;
    }
}

/// The decimal digit for `d`.
pub open spec fn digit_char(d: nat) -> char {
    if d == 0 {
        '0'
    } else if d == 1 {
        '1'
    } else if d == 2 {
        '2'
    } else if d == 3 {
        '3'
    } else if d == 4 {
        '4'
    } else if d == 5 {
        '5'
    } else if d == 6 {
        '6'
    } else if d == 7 {
        '7'
    } else if d == 8 {
        '8'
    } else {
        '9'
    }
}

/// `n` written in decimal digits.
pub open spec fn decimal(n: nat) -> Seq<char>
    decreases n,
{
    if n < 10 {
        seq![digit_char(n)]
    } else {
        decimal(n / 10).push(digit_char(n % 10))
    }
}

/// The decimal digit for `d`, as text.
fn digit_text(d: u64) -> (s: &'static str)
    requires
        d < 10,
    ensures
        s@ == seq![digit_char(d as nat)],
{
    proof {
        reveal_strlit("0");
        reveal_strlit("1");
        reveal_strlit("2");
        reveal_strlit("3");
        reveal_strlit("4");
        reveal_strlit("5");
        reveal_strlit("6");
        reveal_strlit("7");
        reveal_strlit("8");
        reveal_strlit("9");
    }
    let s = if d == 0 {
        "0"
    } else if d == 1 {
        "1"
    } else if d == 2 {
        "2"
    } else if d == 3 {
        "3"
    } else if d == 4 {
        "4"
    } else if d == 5 {
        "5"
    } else if d == 6 {
        "6"
    } else if d == 7 {
        "7"
    } else if d == 8 {
        "8"
    } else {
        "9"
    };
    assert(s@ =~= seq![digit_char(d as nat)]);
    s
}

/// Appends `n` in decimal digits.
pub fn push_decimal(out: &mut String, n: u64)
    ensures
        final(out)@ == old(out)@ + decimal(n as nat),
    decreases n,
{
    if n >= 10 {
        push_decimal(out, n / 10);
    }
    out.append(digit_text(n % 10));
    assert(out@ =~= old(out)@ + decimal(n as nat));
}

} // verus!
