//! What is written as an object is read back.

use vstd::prelude::*;
use vstd::string::*;

use super::raw::ascii;
use super::raw::object;
use super::raw::object::Obj;
use super::raw::tokenizer;
use super::test_pdf;
use super::test_pdf_laws;

verus! {

/// A string as it is written between parentheses: a backslash stands in front of each parenthesis
/// and each backslash, and a carriage return is a backslash and an `r`.
pub open spec fn quoted(s: Seq<u8>) -> Seq<u8>
    decreases s.len(),
{
    if s.len() == 0 {
        Seq::empty()
    } else {
        let b = s[0];
        (if b == 0x28 || b == 0x29 || b == 0x5c {
            seq![0x5cu8, b]
        } else if b == 0x0d {
            seq![0x5cu8, 0x72]
        } else {
            seq![b]
        }) + quoted(s.skip(1))
    }
}

/// The digit for `v` in hexadecimal.
pub open spec fn hex_digit(v: int) -> u8 {
    if v < 10 {
        (0x30 + v) as u8
    } else {
        (0x61 + v - 10) as u8
    }
}

/// A string in hexadecimal, two digits to a byte.
pub open spec fn in_hex(s: Seq<u8>) -> Seq<u8>
    decreases s.len(),
{
    if s.len() == 0 {
        Seq::empty()
    } else {
        seq![hex_digit(s[0] as int / 16), hex_digit(s[0] as int % 16)] + in_hex(s.skip(1))
    }
}

/// A name with each byte in hexadecimal behind a `#`.
pub open spec fn escaped(s: Seq<u8>) -> Seq<u8>
    decreases s.len(),
{
    if s.len() == 0 {
        Seq::empty()
    } else {
        seq![0x23u8, hex_digit(s[0] as int / 16), hex_digit(s[0] as int % 16)] + escaped(s.skip(1))
    }
}

/// A string that is written between parentheses is read back, whatever bytes it holds.
pub proof fn a_quoted_string_is_read_back(d: Seq<u8>, p: int, s: Seq<u8>)
    requires
        ascii::at(d, p, quoted(s) + seq![0x29u8]),
    ensures
        tokenizer::literal_string(d, p, 0) == Some((s, (p + quoted(s).len() + 1) as int)),
    decreases s.len(),
{
    let all = quoted(s) + seq![0x29u8];
    test_pdf_laws::lemma_at_bytes(d, p, all);
    if s.len() == 0 {
        assert(d[p + 0] == all[0]);
        assert(s =~= Seq::<u8>::empty());
    } else {
        let rest = s.skip(1);
        let tail = quoted(rest) + seq![0x29u8];
        let b = s[0];
        let head = if b == 0x28 || b == 0x29 || b == 0x5c {
            seq![0x5cu8, b]
        } else if b == 0x0d {
            seq![0x5cu8, 0x72]
        } else {
            seq![b]
        };
        assert(all =~= head + tail);
        test_pdf_laws::lemma_at_concat(d, p, head, tail);
        assert(d[p + 0] == head[0]);
        if head.len() == 2 {
            assert(d[p + 1] == head[1]);
        }
        a_quoted_string_is_read_back(d, (p + head.len()) as int, rest);
        assert(s =~= seq![b] + rest);
    }
}

/// The value of a hexadecimal digit.
proof fn lemma_hex_digit(v: int)
    requires
        0 <= v < 16,
    ensures
        tokenizer::hex_value(hex_digit(v)) == Some(v as u8),
        !tokenizer::is_white(hex_digit(v)),
        !tokenizer::is_delimiter(hex_digit(v)),
{
}

/// A string that is written in hexadecimal is read back, whatever bytes it holds.
pub proof fn a_string_in_hexadecimal_is_read_back(d: Seq<u8>, p: int, s: Seq<u8>)
    requires
        ascii::at(d, p, in_hex(s) + seq![0x3eu8]),
    ensures
        tokenizer::hex_string(d, p) == Some((s, (p + 2 * s.len() + 1) as int)),
{
    lemma_in_hex(d, p, s);
    lemma_nibbles(s);
}

/// The halves of each byte.
spec fn nibbles(s: Seq<u8>) -> Seq<u8>
    decreases s.len(),
{
    if s.len() == 0 {
        Seq::empty()
    } else {
        seq![(s[0] as int / 16) as u8, (s[0] as int % 16) as u8] + nibbles(s.skip(1))
    }
}

proof fn lemma_nibbles(s: Seq<u8>)
    ensures
        tokenizer::hex_bytes(nibbles(s)) == s,
    decreases s.len(),
{
    if s.len() == 0 {
        assert(s =~= Seq::<u8>::empty());
    } else {
        lemma_nibbles(s.skip(1));
        assert(nibbles(s).skip(2) =~= nibbles(s.skip(1)));
        assert(s =~= seq![s[0]] + s.skip(1));
    }
}

proof fn lemma_in_hex(d: Seq<u8>, p: int, s: Seq<u8>)
    requires
        ascii::at(d, p, in_hex(s) + seq![0x3eu8]),
    ensures
        tokenizer::hex_digits(d, p) == Some((nibbles(s), (p + 2 * s.len() + 1) as int)),
    decreases s.len(),
{
    let all = in_hex(s) + seq![0x3eu8];
    test_pdf_laws::lemma_at_bytes(d, p, all);
    if s.len() == 0 {
        assert(d[p + 0] == all[0]);
    } else {
        let rest = s.skip(1);
        let head = seq![hex_digit(s[0] as int / 16), hex_digit(s[0] as int % 16)];
        let tail = in_hex(rest) + seq![0x3eu8];
        assert(all =~= head + tail);
        test_pdf_laws::lemma_at_concat(d, p, head, tail);
        lemma_hex_digit(s[0] as int / 16);
        lemma_hex_digit(s[0] as int % 16);
        assert(d[p + 0] == head[0]);
        assert(d[p + 1] == head[1]);
        lemma_in_hex(d, p + 2, rest);
        reveal_with_fuel(tokenizer::hex_digits, 3);
        let a = (s[0] as int / 16) as u8;
        let b = (s[0] as int % 16) as u8;
        assert(seq![a] + (seq![b] + nibbles(rest)) =~= seq![a, b] + nibbles(rest));
    }
}

/// A name is read up to the first byte that no name holds, byte for byte.
pub proof fn a_plain_name_is_read_back(d: Seq<u8>, p: int, s: Seq<u8>)
    requires
        ascii::at(d, p, s),
        forall|i: int|
            0 <= i < s.len() ==> tokenizer::is_regular(#[trigger] s[i]) && s[i] != 0x23,
        p + s.len() == d.len() || !tokenizer::is_regular(d[(p + s.len()) as int]),
    ensures
        tokenizer::name_at(d, p) == (s, (p + s.len()) as int),
    decreases s.len(),
{
    test_pdf_laws::lemma_at_bytes(d, p, s);
    if s.len() == 0 {
        assert(s =~= Seq::<u8>::empty());
    } else {
        let rest = s.skip(1);
        assert(s =~= seq![s[0]] + rest);
        test_pdf_laws::lemma_at_concat(d, p, seq![s[0]], rest);
        assert(d[p + 0] == s[0]);
        assert forall|i: int| 0 <= i < rest.len() implies tokenizer::is_regular(
            #[trigger] rest[i],
        ) && rest[i] != 0x23 by {
            assert(rest[i] == s[i + 1]);
        }
        a_plain_name_is_read_back(d, p + 1, rest);
    }
}

/// A name whose bytes are written in hexadecimal is read back, whatever bytes it holds.
pub proof fn an_escaped_name_is_read_back(d: Seq<u8>, p: int, s: Seq<u8>)
    requires
        ascii::at(d, p, escaped(s)),
        p + escaped(s).len() == d.len() || !tokenizer::is_regular(
            d[(p + escaped(s).len()) as int],
        ),
    ensures
        tokenizer::name_at(d, p) == (s, (p + escaped(s).len()) as int),
    decreases s.len(),
{
    test_pdf_laws::lemma_at_bytes(d, p, escaped(s));
    if s.len() == 0 {
        assert(s =~= Seq::<u8>::empty());
    } else {
        let rest = s.skip(1);
        let head = seq![0x23u8, hex_digit(s[0] as int / 16), hex_digit(s[0] as int % 16)];
        assert(escaped(s) =~= head + escaped(rest));
        test_pdf_laws::lemma_at_concat(d, p, head, escaped(rest));
        lemma_hex_digit(s[0] as int / 16);
        lemma_hex_digit(s[0] as int % 16);
        assert(d[p + 0] == head[0]);
        assert(d[p + 1] == head[1]);
        assert(d[p + 2] == head[2]);
        an_escaped_name_is_read_back(d, p + 3, rest);
        assert(s =~= seq![s[0]] + rest);
    }
}

/// Whether `o` stands behind the white space at `from`, up to `to`, and does not end an array.
pub open spec fn stands(d: Seq<u8>, from: int, o: Obj, to: int, depth: nat) -> bool {
    let p = tokenizer::space_end(d, from);
    &&& 0 <= from
    &&& p < d.len()
    &&& p < to <= d.len()
    &&& d[p] != 0x5d
    &&& tokenizer::value_at(d, p, depth) == Some((o, to))
}

/// Whether `objects` stand at the places `at` one after another, each from where the one before
/// it ends.
pub open spec fn follow(d: Seq<u8>, at: Seq<int>, objects: Seq<Obj>, depth: nat) -> bool {
    &&& at.len() == objects.len() + 1
    &&& forall|i: int|
        #![trigger objects[i]]
        0 <= i < objects.len() ==> stands(d, at[i], objects[i], at[i + 1], depth)
}

/// An array holds the objects that stand in it, all of them and in their order.
pub proof fn an_array_holds_what_stands_in_it(
    d: Seq<u8>,
    at: Seq<int>,
    objects: Seq<Obj>,
    depth: nat,
)
    requires
        follow(d, at, objects, depth),
        0 <= at.last() <= tokenizer::space_end(d, at.last()) < d.len(),
        d[tokenizer::space_end(d, at.last())] == 0x5d,
    ensures
        tokenizer::items_at(d, at[0], depth) == Some(
            (objects, (tokenizer::space_end(d, at.last()) + 1) as int),
        ),
    decreases objects.len(),
{
    if objects.len() == 0 {
        assert(at.last() == at[0]);
        assert(objects =~= Seq::<Obj>::empty());
    } else {
        let rest = objects.skip(1);
        let next = at.skip(1);
        assert(stands(d, at[0], objects[0], at[1], depth));
        tokenizer::lemma_space_end(d, at[0]);
        assert forall|i: int| #![trigger rest[i]] 0 <= i < rest.len() implies stands(
            d,
            next[i],
            rest[i],
            next[i + 1],
            depth,
        ) by {
            assert(rest[i] == objects[i + 1]);
            assert(stands(d, at[i + 1], objects[i + 1], at[i + 1 + 1], depth));
        }
        assert(follow(d, next, rest, depth));
        assert(next.last() == at.last());
        an_array_holds_what_stands_in_it(d, next, rest, depth);
        assert(objects =~= seq![objects[0]] + rest);
    }
}

/// An entry of a dictionary is a key and its value; the entries behind it stand with it, and
/// where they have the key again it is theirs.
pub proof fn an_entry_stands_with_those_behind_it(
    d: Seq<u8>,
    p: int,
    depth: nat,
    value: Obj,
    next: int,
    rest: Map<Seq<u8>, Obj>,
    end: int,
)
    requires
        0 <= p < d.len(),
        d[p] == 0x2f,
        tokenizer::value_at(d, tokenizer::name_at(d, p + 1).1, depth) == Some((value, next)),
        p < next <= d.len(),
        tokenizer::entries_at(d, next, depth) == Some((rest, end)),
    ensures
        ({
            let key = tokenizer::name_at(d, p + 1).0;
            tokenizer::entries_at(d, p, depth) matches Some((m, stop)) && stop == end
                && m.contains_key(key) && (!rest.contains_key(key) ==> m[key] == value) && (
            forall|k: Seq<u8>| #[trigger] rest.contains_key(k) ==> m.contains_key(k) && m[k]
                == rest[k]) && (forall|k: Seq<u8>| #[trigger]
                m.contains_key(k) ==> k == key || rest.contains_key(k))
        }),
{
}

/// A stream has as many bytes as its dictionary states, from the line behind `stream` on, where
/// `endstream` follows them.
pub proof fn a_stream_has_the_bytes_that_it_states(
    d: Seq<u8>,
    pos: int,
    m: Map<Seq<u8>, Obj>,
    end: int,
    n: i64,
)
    requires
        tokenizer::value_at(d, pos, tokenizer::MAX_DEPTH as nat) == Some((Obj::Dict(m), end)),
        object::int_entry(m, "Length".spec_bytes()) == Some(n),
        n >= 0,
        0 <= tokenizer::space_end(d, end),
        ascii::at(d, tokenizer::space_end(d, end), "stream".spec_bytes()),
        tokenizer::space_end(d, end) + 7 + n <= d.len(),
        d[(tokenizer::space_end(d, end) + 6) as int] == 0x0a,
        ascii::at(
            d,
            tokenizer::white_end(d, tokenizer::space_end(d, end) + 7 + n),
            "endstream".spec_bytes(),
        ),
    ensures
        tokenizer::indirect_at(d, pos) matches Some((Obj::Stream(dict, data), _)) && dict == m
            && data == d.subrange(
            tokenizer::space_end(d, end) + 7,
            tokenizer::space_end(d, end) + 7 + n,
        ),
{
    reveal_strlit("stream");
    assert("stream".is_ascii());
    is_ascii_spec_bytes("stream");
}

/// A minus sign in front of a number makes it negative, and a point makes it a real number, which
/// is kept as it is written.
pub proof fn signs_and_points_are_minded(d: Seq<u8>, p: int, whole: Seq<u8>, part: Seq<u8>)
    requires
        whole.len() >= 1,
        test_pdf_laws::all_digits(whole),
        test_pdf_laws::all_digits(part),
    ensures
        ascii::at(d, p, seq![0x2du8] + whole) && (p + 1 + whole.len() == d.len() || !ascii::is_digit(
            d[(p + 1 + whole.len()) as int],
        ) && d[(p + 1 + whole.len()) as int] != 0x2e) && ascii::decimal_value(whole) <= i64::MAX
            ==> tokenizer::number(d, p) == Some(
            (
                Obj::Integer((0 - ascii::decimal_value(whole)) as i64),
                (p + 1 + whole.len()) as int,
            ),
        ),
        ascii::at(d, p, whole + seq![0x2eu8] + part) && (p + whole.len() + 1 + part.len() == d.len()
            || !ascii::is_digit(d[(p + whole.len() + 1 + part.len()) as int]))
            ==> tokenizer::number(d, p) == Some(
            (
                Obj::Real(whole + seq![0x2eu8] + part),
                (p + whole.len() + 1 + part.len()) as int,
            ),
        ),
{
    let a = seq![0x2du8] + whole;
    if ascii::at(d, p, a) && (p + a.len() == d.len() || !ascii::is_digit(
        d[(p + a.len()) as int],
    )) {
        test_pdf_laws::lemma_at_bytes(d, p, a);
        test_pdf_laws::lemma_at_concat(d, p, seq![0x2du8], whole);
        assert(d[p + 0] == a[0]);
        test_pdf_laws::lemma_digits_at(d, p + 1, whole);
    }
    let r = whole + seq![0x2eu8] + part;
    if ascii::at(d, p, r) && (p + r.len() == d.len() || !ascii::is_digit(
        d[(p + r.len()) as int],
    )) {
        test_pdf_laws::lemma_at_bytes(d, p, r);
        assert(r =~= whole + (seq![0x2eu8] + part));
        test_pdf_laws::lemma_at_concat(d, p, whole, seq![0x2eu8] + part);
        test_pdf_laws::lemma_at_concat(d, (p + whole.len()) as int, seq![0x2eu8], part);
        assert(d[p + 0] == whole[0]);
        assert(d[p + whole.len()] == r[whole.len() as int]);
        assert(ascii::is_digit(whole[0]));
        test_pdf_laws::lemma_digits_at(d, p, whole);
        test_pdf_laws::lemma_digits_at(d, p + whole.len() + 1, part);
        assert(d.subrange(p, p + r.len()) =~= r);
    }
}

/// Strings in parentheses and in hexadecimal, and names, are values.
pub proof fn strings_and_names_are_values(d: Seq<u8>, p: int, s: Seq<u8>, depth: nat)
    ensures
        ascii::at(d, p, seq![0x28u8] + (quoted(s) + seq![0x29u8])) ==> tokenizer::value_at(
            d,
            p,
            depth,
        ) == Some((Obj::Str(s), (p + quoted(s).len() + 2) as int)),
        ascii::at(d, p, seq![0x3cu8] + (in_hex(s) + seq![0x3eu8])) ==> tokenizer::value_at(
            d,
            p,
            depth,
        ) == Some((Obj::Str(s), (p + 2 * s.len() + 2) as int)),
        ascii::at(d, p, seq![0x2fu8] + escaped(s)) && (p + 1 + escaped(s).len() == d.len()
            || !tokenizer::is_regular(d[(p + 1 + escaped(s).len()) as int]))
            ==> tokenizer::value_at(d, p, depth) == Some(
            (Obj::Name(s), (p + 1 + escaped(s).len()) as int),
        ),
{
    let a = quoted(s) + seq![0x29u8];
    let b = in_hex(s) + seq![0x3eu8];
    if ascii::at(d, p, seq![0x28u8] + a) {
        let all = seq![0x28u8] + a;
        test_pdf_laws::lemma_at_bytes(d, p, all);
        test_pdf_laws::lemma_at_concat(d, p, seq![0x28u8], a);
        assert(d[p + 0] == all[0]);
        a_quoted_string_is_read_back(d, p + 1, s);
    }
    if ascii::at(d, p, seq![0x3cu8] + b) {
        let all = seq![0x3cu8] + b;
        test_pdf_laws::lemma_at_bytes(d, p, all);
        test_pdf_laws::lemma_at_concat(d, p, seq![0x3cu8], b);
        assert(d[p + 0] == all[0]);
        assert(d[p + 1] == all[1]);
        if s.len() > 0 {
            lemma_hex_digit(s[0] as int / 16);
            assert(all[1] == hex_digit(s[0] as int / 16));
        }
        a_string_in_hexadecimal_is_read_back(d, p + 1, s);
    }
    if ascii::at(d, p, seq![0x2fu8] + escaped(s)) {
        let all = seq![0x2fu8] + escaped(s);
        test_pdf_laws::lemma_at_bytes(d, p, all);
        test_pdf_laws::lemma_at_concat(d, p, seq![0x2fu8], escaped(s));
        assert(d[p + 0] == all[0]);
        if p + 1 + escaped(s).len() == d.len() || !tokenizer::is_regular(
            d[(p + 1 + escaped(s).len()) as int],
        ) {
            an_escaped_name_is_read_back(d, p + 1, s);
        }
    }
}

/// A reference is two numbers and an `R`, and refers to the object that they number.
pub proof fn a_reference_is_read_back(d: Seq<u8>, p: int, n: u32, g: u16)
    requires
        ascii::at(
            d,
            p,
            test_pdf::digits(n as nat) + (seq![0x20u8] + (test_pdf::digits(g as nat) + seq![
                0x20u8,
                0x52,
            ])),
        ),
        ({
            let end = p + test_pdf::digits(n as nat).len() + test_pdf::digits(g as nat).len() + 3;
            end == d.len() || !tokenizer::is_regular(d[end])
        }),
    ensures
        tokenizer::reference(d, p) == Some(
            (
                Obj::Reference(n, g),
                p + test_pdf::digits(n as nat).len() + test_pdf::digits(g as nat).len() + 3,
            ),
        ),
{
    let a = test_pdf::digits(n as nat);
    let b = test_pdf::digits(g as nat);
    let p1 = p + a.len();
    let p2 = p1 + 1;
    let p3 = p2 + b.len();
    let end = seq![0x20u8, 0x52];
    test_pdf_laws::lemma_digits(n as nat);
    test_pdf_laws::lemma_digits(g as nat);
    test_pdf_laws::lemma_at_concat(d, p, a, seq![0x20u8] + (b + end));
    test_pdf_laws::lemma_at_concat(d, p1, seq![0x20u8], b + end);
    test_pdf_laws::lemma_at_concat(d, p2, b, end);
    test_pdf_laws::lemma_at_bytes(d, p1, seq![0x20u8]);
    test_pdf_laws::lemma_at_bytes(d, p2, b);
    test_pdf_laws::lemma_at_bytes(d, p3, end);
    assert(d[p1 + 0] == seq![0x20u8][0]);
    assert(d[p2 + 0] == b[0]);
    assert(d[p3 + 0] == end[0]);
    assert(d[p3 + 1] == end[1]);
    test_pdf_laws::lemma_digits_at(d, p, a);
    test_pdf_laws::lemma_digits_at(d, p2, b);
    reveal_with_fuel(tokenizer::space_end, 3);
    reveal_strlit("R");
    assert("R".is_ascii());
    is_ascii_spec_bytes("R");
    assert("R".spec_bytes() =~= seq![0x52u8]);
    assert(d.subrange(p3 + 1, p3 + 2) =~= seq![0x52u8]);
}

} // verus!
