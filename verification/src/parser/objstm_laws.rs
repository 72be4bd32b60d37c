//! Object streams that are written are read back.

use vstd::prelude::*;
use vstd::string::*;

use super::raw::ascii;
use super::raw::object::Obj;
use super::raw::objstm;
use super::raw::stream;
use super::raw::tokenizer;
use super::test_pdf;
use super::test_pdf_laws;
use crate::error::ErrorSpec;

verus! {

/// Whether `s` is nothing but white space.
pub open spec fn is_blank(s: Seq<u8>) -> bool {
    forall|i: int|
        0 <= i < s.len() ==> (#[trigger] s[i]) == 0x20 || s[i] == 0x09 || s[i] == 0x0a || s[i]
            == 0x0c || s[i] == 0x0d
}

/// A pair of the header of an object stream, as it is written: the number of an object, its
/// offset, and white space after each.
pub struct Pair {
    pub num: nat,
    pub gap: Seq<u8>,
    pub offset: nat,
    pub end: Seq<u8>,
}

/// Whether a pair can be written: its numbers fit, and there is white space after each.
pub open spec fn is_writable(p: Pair) -> bool {
    &&& p.num <= i64::MAX
    &&& p.offset <= i64::MAX
    &&& p.offset <= usize::MAX
    &&& p.gap.len() > 0
    &&& p.end.len() > 0
    &&& is_blank(p.gap)
    &&& is_blank(p.end)
}

/// The header with these pairs.
pub open spec fn written(pairs: Seq<Pair>) -> Seq<u8>
    decreases pairs.len(),
{
    if pairs.len() == 0 {
        Seq::empty()
    } else {
        test_pdf::digits(pairs[0].num) + pairs[0].gap + test_pdf::digits(pairs[0].offset)
            + pairs[0].end + written(pairs.skip(1))
    }
}

/// White space ends where something else follows.
proof fn lemma_blank_end(d: Seq<u8>, p: int, s: Seq<u8>)
    requires
        ascii::at(d, p, s),
        is_blank(s),
        p + s.len() < d.len(),
        ascii::is_digit(d[p + s.len()]),
    ensures
        ascii::ascii_ws_end(d, p) == p + s.len(),
    decreases s.len(),
{
    if s.len() > 0 {
        test_pdf_laws::lemma_at_bytes(d, p, s);
        assert(d[p + 0] == s[0]);
        let rest = s.skip(1);
        assert(s =~= seq![s[0]] + rest);
        test_pdf_laws::lemma_at_concat(d, p, seq![s[0]], rest);
        assert(is_blank(rest)) by {
            assert forall|i: int| 0 <= i < rest.len() implies (#[trigger] rest[i]) == 0x20
                || rest[i] == 0x09 || rest[i] == 0x0a || rest[i] == 0x0c || rest[i] == 0x0d by {
                assert(rest[i] == s[i + 1]);
            }
        }
        lemma_blank_end(d, p + 1, rest);
    }
}

/// An integer that is written in digits, with or without a sign, is read as what it is where
/// something other than a digit follows.
pub proof fn a_written_integer_is_read_back(d: Seq<u8>, p: int, sign: Seq<u8>, n: nat)
    requires
        sign.len() == 0 || sign == seq![0x2bu8] || sign == seq![0x2du8],
        ascii::at(d, p, sign + test_pdf::digits(n)),
        p + (sign + test_pdf::digits(n)).len() < d.len(),
        !ascii::is_digit(d[p + (sign + test_pdf::digits(n)).len()]),
        n <= i64::MAX || n == i64::MAX + 1 && sign == seq![0x2du8],
    ensures
        objstm::int_at(d, p) == Ok::<(i64, int), ErrorSpec>(
            (
                if sign == seq![0x2du8] {
                    (-n) as i64
                } else {
                    n as i64
                },
                (p + (sign + test_pdf::digits(n)).len()) as int,
            ),
        ),
{
    let s = test_pdf::digits(n);
    test_pdf_laws::lemma_digits(n);
    test_pdf_laws::lemma_at_concat(d, p, sign, s);
    let q = p + sign.len();
    test_pdf_laws::lemma_at_bytes(d, q, s);
    assert(d[q + 0] == s[0]);
    if sign.len() > 0 {
        test_pdf_laws::lemma_at_bytes(d, p, sign);
        assert(d[p + 0] == sign[0]);
    }
    assert(seq![0x2du8][0] == 0x2d && seq![0x2bu8][0] == 0x2b);
    test_pdf_laws::lemma_digits_at(d, q, s);
}

proof fn lemma_offsets(d: Seq<u8>, pos: int, lead: Seq<u8>, pairs: Seq<Pair>)
    requires
        ascii::at(d, pos, lead + written(pairs)),
        is_blank(lead),
        forall|i: int| 0 <= i < pairs.len() ==> is_writable(#[trigger] pairs[i]),
    ensures
        objstm::offsets_at(d, pos, pairs.len()) == Ok::<Seq<usize>, ErrorSpec>(
            Seq::new(pairs.len(), |i: int| pairs[i].offset as usize),
        ),
    decreases pairs.len(),
{
    let all = Seq::new(pairs.len(), |i: int| pairs[i].offset as usize);
    if pairs.len() == 0 {
        assert(all =~= Seq::<usize>::empty());
    } else {
        let p = pairs[0];
        let a = test_pdf::digits(p.num);
        let b = test_pdf::digits(p.offset);
        let tail = written(pairs.skip(1));
        assert(is_writable(p));
        test_pdf_laws::lemma_digits(p.num);
        test_pdf_laws::lemma_digits(p.offset);
        let none = Seq::<u8>::empty();
        let p1 = (pos + lead.len()) as int;
        let p2 = (p1 + a.len()) as int;
        let p3 = (p2 + p.gap.len()) as int;
        let p4 = (p3 + b.len()) as int;
        test_pdf_laws::lemma_at_concat(d, pos, lead, written(pairs));
        assert(written(pairs) =~= a + (p.gap + (b + (p.end + tail))));
        test_pdf_laws::lemma_at_concat(d, p1, a, p.gap + (b + (p.end + tail)));
        test_pdf_laws::lemma_at_concat(d, p2, p.gap, b + (p.end + tail));
        test_pdf_laws::lemma_at_concat(d, p3, b, p.end + tail);
        test_pdf_laws::lemma_at_concat(d, p4, p.end, tail);
        test_pdf_laws::lemma_at_bytes(d, p1, a);
        test_pdf_laws::lemma_at_bytes(d, p2, p.gap);
        test_pdf_laws::lemma_at_bytes(d, p3, b);
        test_pdf_laws::lemma_at_bytes(d, p4, p.end);
        assert(d[p1 + 0] == a[0]);
        assert(d[p2 + 0] == p.gap[0]);
        assert(d[p3 + 0] == b[0]);
        assert(d[p4 + 0] == p.end[0]);
        lemma_blank_end(d, pos, lead);
        assert(none + a =~= a);
        a_written_integer_is_read_back(d, p1, none, p.num);
        lemma_blank_end(d, p2, p.gap);
        assert(none + b =~= b);
        a_written_integer_is_read_back(d, p3, none, p.offset);
        let rest = pairs.skip(1);
        assert forall|i: int| 0 <= i < rest.len() implies is_writable(#[trigger] rest[i]) by {
            assert(rest[i] == pairs[i + 1]);
        }
        lemma_offsets(d, p4, p.end, rest);
        let others = Seq::new(rest.len(), |i: int| rest[i].offset as usize);
        assert(all =~= seq![p.offset as usize] + others);
    }
}

/// Whether `slots` hold what stands in `d` at the offsets of `pairs` from `first`: in each slot
/// the object that is parsed there, and nothing where none can be parsed or the place is past
/// the end.
pub open spec fn hold(
    slots: Seq<Option<Obj>>,
    d: Seq<u8>,
    first: nat,
    pairs: Seq<Pair>,
) -> bool {
    &&& slots.len() == pairs.len()
    &&& forall|i: int|
        0 <= i < pairs.len() ==> #[trigger] slots[i] == (if first + pairs[i].offset < d.len() {
            match tokenizer::object_at(d, (first + pairs[i].offset) as int) {
                Some((o, _)) => Some(o),
                None => None,
            }
        } else {
            None
        })
}

/// An object stream is read as it was written: after a header of pairs with white space between
/// the numbers, each slot holds the object at the full offset that was written for it, counted
/// from where the first object starts.
pub proof fn a_written_object_stream_is_read_back(
    lead: Seq<u8>,
    pairs: Seq<Pair>,
    rest: Seq<u8>,
    first: nat,
)
    requires
        is_blank(lead),
        pairs.len() <= i64::MAX,
        pairs.len() <= usize::MAX,
        first <= i64::MAX,
        first <= usize::MAX,
        forall|i: int|
            0 <= i < pairs.len() ==> is_writable(#[trigger] pairs[i]) && first + pairs[i].offset
                <= usize::MAX,
    ensures
        objstm::carried(
            pairs.len() as i64,
            first as i64,
            lead + written(pairs) + rest,
        ) matches Ok(slots) && hold(slots, lead + written(pairs) + rest, first, pairs),
{
    let d = lead + written(pairs) + rest;
    let head = lead + written(pairs);
    assert(d.subrange(0, head.len() as int) =~= head);
    lemma_offsets(d, 0, lead, pairs);
    let n = pairs.len() as i64;
    assert((n as usize) as nat == pairs.len());
    assert((first as i64) as usize == first);
    let slots = objstm::carried(n, first as i64, d)->Ok_0;
    assert forall|i: int| 0 <= i < pairs.len() implies #[trigger] slots[i] == (if first
        + pairs[i].offset < d.len() {
        match tokenizer::object_at(d, (first + pairs[i].offset) as int) {
            Some((o, _)) => Some(o),
            None => None,
        }
    } else {
        None
    }) by {
        assert(is_writable(pairs[i]));
    }
}

/// The same of a stream object that is not encoded: `/N` says how many objects there are and
/// `/First` where the first one starts.
pub proof fn a_written_stream_object_is_read_back(
    m: Map<Seq<u8>, Obj>,
    lead: Seq<u8>,
    pairs: Seq<Pair>,
    rest: Seq<u8>,
    first: nat,
)
    requires
        is_blank(lead),
        pairs.len() <= i64::MAX,
        pairs.len() <= usize::MAX,
        first <= i64::MAX,
        first <= usize::MAX,
        forall|i: int|
            0 <= i < pairs.len() ==> is_writable(#[trigger] pairs[i]) && first + pairs[i].offset
                <= usize::MAX,
        m.contains_key("N".spec_bytes()),
        m["N".spec_bytes()] == Obj::Integer(pairs.len() as i64),
        m.contains_key("First".spec_bytes()),
        m["First".spec_bytes()] == Obj::Integer(first as i64),
        !m.contains_key("Filter".spec_bytes()),
    ensures
        objstm::objstm_objects(m, lead + written(pairs) + rest) matches Ok(slots) && hold(
            slots,
            lead + written(pairs) + rest,
            first,
            pairs,
        ),
{
    reveal(objstm::objstm_objects);
    a_written_object_stream_is_read_back(lead, pairs, rest, first);
    assert(stream::decompressed(m, lead + written(pairs) + rest) == Ok::<Seq<u8>, ErrorSpec>(
        lead + written(pairs) + rest,
    ));
}

/// An object stream whose dictionary does not say how many objects there are, or where the
/// first one starts, cannot be read.
pub proof fn an_object_stream_needs_its_entries(m: Map<Seq<u8>, Obj>, raw: Seq<u8>)
    requires
        !(m.contains_key("N".spec_bytes()) && m["N".spec_bytes()] is Integer) || !(m.contains_key(
            "First".spec_bytes(),
        ) && m["First".spec_bytes()] is Integer),
    ensures
        objstm::objstm_objects(m, raw) is Err,
{
    reveal(objstm::objstm_objects);
}

/// Where no integer starts there is none, and a sign alone is none either.
pub proof fn what_is_no_integer_is_refused(d: Seq<u8>, p: int)
    requires
        0 <= p <= d.len(),
        p < d.len() ==> !ascii::is_digit(d[p]),
        p < d.len() && (d[p] == 0x2b || d[p] == 0x2d) ==> (p + 1 < d.len() ==> !ascii::is_digit(
            d[p + 1],
        )),
    ensures
        objstm::int_at(d, p) is Err,
{
}

/// An integer that does not fit in 64 bits is refused.
pub proof fn an_integer_that_is_too_large_is_refused(d: Seq<u8>, p: int, n: nat)
    requires
        ascii::at(d, p, test_pdf::digits(n)),
        p + test_pdf::digits(n).len() < d.len(),
        !ascii::is_digit(d[p + test_pdf::digits(n).len()]),
        n > i64::MAX,
    ensures
        objstm::int_at(d, p) is Err,
{
    let s = test_pdf::digits(n);
    test_pdf_laws::lemma_digits(n);
    test_pdf_laws::lemma_at_bytes(d, p, s);
    assert(d[p + 0] == s[0]);
    test_pdf_laws::lemma_digits_at(d, p, s);
}

/// An object stream with fewer pairs than it states cannot be read at all: not even the objects
/// whose pairs are there.
pub proof fn a_header_that_ends_early_is_refused(lead: Seq<u8>, pairs: Seq<Pair>, more: nat)
    requires
        is_blank(lead),
        more > 0,
        pairs.len() + more <= i64::MAX,
        pairs.len() + more <= usize::MAX,
        forall|i: int| 0 <= i < pairs.len() ==> is_writable(#[trigger] pairs[i]),
    ensures
        forall|first: i64| #[trigger]
            objstm::carried((pairs.len() + more) as i64, first, lead + written(pairs)) is Err,
{
    let d = lead + written(pairs);
    assert(d.subrange(0, d.len() as int) =~= d);
    lemma_short_header(d, 0, lead, pairs, more);
    let n = (pairs.len() + more) as i64;
    assert((n as usize) as nat == pairs.len() + more);
}

proof fn lemma_short_header(d: Seq<u8>, pos: int, lead: Seq<u8>, pairs: Seq<Pair>, more: nat)
    requires
        ascii::at(d, pos, lead + written(pairs)),
        pos + (lead + written(pairs)).len() == d.len(),
        is_blank(lead),
        more > 0,
        forall|i: int| 0 <= i < pairs.len() ==> is_writable(#[trigger] pairs[i]),
    ensures
        objstm::offsets_at(d, pos, pairs.len() + more) is Err,
    decreases pairs.len(),
{
    if pairs.len() == 0 {
        assert(lead + written(pairs) =~= lead);
        lemma_blank_to_the_end(d, pos, lead);
        what_is_no_integer_is_refused(d, d.len() as int);
    } else {
        let p = pairs[0];
        let a = test_pdf::digits(p.num);
        let b = test_pdf::digits(p.offset);
        let tail = written(pairs.skip(1));
        assert(is_writable(p));
        test_pdf_laws::lemma_digits(p.num);
        test_pdf_laws::lemma_digits(p.offset);
        let none = Seq::<u8>::empty();
        let p1 = (pos + lead.len()) as int;
        let p2 = (p1 + a.len()) as int;
        let p3 = (p2 + p.gap.len()) as int;
        let p4 = (p3 + b.len()) as int;
        test_pdf_laws::lemma_at_concat(d, pos, lead, written(pairs));
        assert(written(pairs) =~= a + (p.gap + (b + (p.end + tail))));
        test_pdf_laws::lemma_at_concat(d, p1, a, p.gap + (b + (p.end + tail)));
        test_pdf_laws::lemma_at_concat(d, p2, p.gap, b + (p.end + tail));
        test_pdf_laws::lemma_at_concat(d, p3, b, p.end + tail);
        test_pdf_laws::lemma_at_concat(d, p4, p.end, tail);
        test_pdf_laws::lemma_at_bytes(d, p1, a);
        test_pdf_laws::lemma_at_bytes(d, p2, p.gap);
        test_pdf_laws::lemma_at_bytes(d, p3, b);
        test_pdf_laws::lemma_at_bytes(d, p4, p.end);
        assert(d[p1 + 0] == a[0]);
        assert(d[p2 + 0] == p.gap[0]);
        assert(d[p3 + 0] == b[0]);
        assert(d[p4 + 0] == p.end[0]);
        lemma_blank_end(d, pos, lead);
        assert(none + a =~= a);
        a_written_integer_is_read_back(d, p1, none, p.num);
        lemma_blank_end(d, p2, p.gap);
        assert(none + b =~= b);
        a_written_integer_is_read_back(d, p3, none, p.offset);
        let rest = pairs.skip(1);
        assert forall|i: int| 0 <= i < rest.len() implies is_writable(#[trigger] rest[i]) by {
            assert(rest[i] == pairs[i + 1]);
        }
        lemma_short_header(d, p4, p.end, rest, more);
    }
}

/// White space at the end of the data ends there.
proof fn lemma_blank_to_the_end(d: Seq<u8>, p: int, s: Seq<u8>)
    requires
        ascii::at(d, p, s),
        is_blank(s),
        p + s.len() == d.len(),
    ensures
        ascii::ascii_ws_end(d, p) == d.len(),
    decreases s.len(),
{
    if s.len() > 0 {
        test_pdf_laws::lemma_at_bytes(d, p, s);
        assert(d[p + 0] == s[0]);
        let rest = s.skip(1);
        assert(s =~= seq![s[0]] + rest);
        test_pdf_laws::lemma_at_concat(d, p, seq![s[0]], rest);
        assert(is_blank(rest)) by {
            assert forall|i: int| 0 <= i < rest.len() implies (#[trigger] rest[i]) == 0x20
                || rest[i] == 0x09 || rest[i] == 0x0a || rest[i] == 0x0c || rest[i] == 0x0d by {
                assert(rest[i] == s[i + 1]);
            }
        }
        lemma_blank_to_the_end(d, p + 1, rest);
    }
}

} // verus!
