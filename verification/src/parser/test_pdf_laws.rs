//! What is assembled is read back.

use vstd::prelude::*;
use vstd::string::*;
use vstd::utf8::*;

use super::raw::ascii;
use super::raw::document;
use super::raw::document::DocSpec;
use super::raw::document_laws;
use super::raw::object::Obj;
use super::raw::tokenizer;
use super::raw::xref;
use super::raw::xref::{Section, XrefEntry};
use super::test_pdf;
use crate::error::ErrorSpec;

verus! {

/// Whether `s` is made of digits.
pub open spec fn all_digits(s: Seq<u8>) -> bool {
    forall|i: int| 0 <= i < s.len() ==> ascii::is_digit(#[trigger] s[i])
}

/// A number in digits is made of digits, and they write the number.
pub proof fn lemma_digits(n: nat)
    ensures
        test_pdf::digits(n).len() >= 1,
        all_digits(test_pdf::digits(n)),
        ascii::decimal_value(test_pdf::digits(n)) == n,
    decreases n,
{
    let s = test_pdf::digits(n);
    if n >= 10 {
        lemma_digits(n / 10);
        assert(s.drop_last() =~= test_pdf::digits(n / 10));
    } else {
        assert(s.drop_last() =~= Seq::<u8>::empty());
        reveal_with_fuel(ascii::decimal_value, 2);
    }
}

proof fn lemma_leading_zero(s: Seq<u8>)
    ensures
        ascii::decimal_value(seq!['0' as u8] + s) == ascii::decimal_value(s),
    decreases s.len(),
{
    let t = seq!['0' as u8] + s;
    if s.len() > 0 {
        lemma_leading_zero(s.drop_last());
        assert(t.drop_last() =~= seq!['0' as u8] + s.drop_last());
    } else {
        assert(t.drop_last() =~= Seq::<u8>::empty());
        reveal_with_fuel(ascii::decimal_value, 2);
    }
}

proof fn lemma_padded(s: Seq<u8>)
    requires
        all_digits(s),
    ensures
        test_pdf::zero_padded(s).len() >= 10,
        all_digits(test_pdf::zero_padded(s)),
        ascii::decimal_value(test_pdf::zero_padded(s)) == ascii::decimal_value(s),
    decreases 10 - s.len(),
{
    if s.len() < 10 {
        lemma_leading_zero(s);
        lemma_padded(seq!['0' as u8] + s);
    }
}

/// What stands at a place stands there piece by piece.
pub proof fn lemma_at_concat(d: Seq<u8>, p: int, a: Seq<u8>, b: Seq<u8>)
    requires
        ascii::at(d, p, a + b),
    ensures
        ascii::at(d, p, a),
        ascii::at(d, p + a.len(), b),
{
    let whole = d.subrange(p, p + (a + b).len());
    assert(d.subrange(p, p + a.len()) =~= whole.take(a.len() as int));
    assert(d.subrange(p + a.len(), p + a.len() + b.len()) =~= whole.skip(a.len() as int));
    assert((a + b).take(a.len() as int) =~= a);
    assert((a + b).skip(a.len() as int) =~= b);
}

/// The bytes of what stands at a place.
pub proof fn lemma_at_bytes(d: Seq<u8>, p: int, s: Seq<u8>)
    requires
        ascii::at(d, p, s),
    ensures
        forall|i: int| 0 <= i < s.len() ==> d[p + i] == #[trigger] s[i],
{
    assert forall|i: int| 0 <= i < s.len() implies d[p + i] == #[trigger] s[i] by {
        assert(d.subrange(p, p + s.len())[i] == d[p + i]);
    }
}

proof fn lemma_at_byte(d: Seq<u8>, p: int, b: u8)
    requires
        ascii::at(d, p, seq![b]),
    ensures
        d[p] == b,
{
    assert(d.subrange(p, p + 1)[0] == d[p]);
}

/// Where digits end, and what they write.
pub proof fn lemma_digits_at(d: Seq<u8>, p: int, s: Seq<u8>)
    requires
        ascii::at(d, p, s),
        all_digits(s),
        p + s.len() == d.len() || !ascii::is_digit(d[p + s.len()]),
    ensures
        ascii::digits_end(d, p) == p + s.len(),
        d.subrange(p, p + s.len()) == s,
    decreases s.len(),
{
    if s.len() > 0 {
        lemma_at_bytes(d, p, s);
        assert(d[p + 0] == s[0]);
        let rest = s.skip(1);
        assert(s =~= seq![s[0]] + rest);
        lemma_at_concat(d, p, seq![s[0]], rest);
        assert(all_digits(rest)) by {
            assert forall|i: int| 0 <= i < rest.len() implies ascii::is_digit(
                #[trigger] rest[i],
            ) by {
                assert(rest[i] == s[i + 1]);
            }
        }
        lemma_digits_at(d, p + 1, rest);
    }
}

/// A byte that is neither white space nor the start of a comment.
spec fn is_solid(b: u8) -> bool {
    !tokenizer::is_white(b) && b != '%' as u8
}

/// Space of one byte.
proof fn lemma_one_space(d: Seq<u8>, p: int)
    requires
        0 <= p,
        p + 1 < d.len(),
        tokenizer::is_white(d[p]),
        is_solid(d[p + 1]),
    ensures
        tokenizer::space_end(d, p) == p + 1,
{
    reveal_with_fuel(tokenizer::space_end, 2);
}

/// No space.
proof fn lemma_no_space(d: Seq<u8>, p: int)
    requires
        0 <= p < d.len(),
        is_solid(d[p]),
    ensures
        tokenizer::space_end(d, p) == p,
{
}

/// Two numbers, a byte of white space after each, and something solid after that.
proof fn lemma_pair_at(d: Seq<u8>, p: int, a: Seq<u8>, w: u8, b: Seq<u8>, v: u8)
    requires
        ascii::at(d, p, a + seq![w] + b + seq![v]),
        all_digits(a),
        all_digits(b),
        a.len() > 0,
        b.len() > 0,
        tokenizer::is_white(w),
        tokenizer::is_white(v),
        p + a.len() + b.len() + 2 < d.len(),
        is_solid(d[p + a.len() + b.len() + 2]),
    ensures
        tokenizer::int_pair(d, p) == Some(
            (
                ascii::decimal_value(a),
                ascii::decimal_value(b),
                (p + a.len() + b.len() + 2) as int,
            ),
        ),
{
    lemma_at_concat(d, p, a + seq![w] + b, seq![v]);
    lemma_at_concat(d, p, a + seq![w], b);
    lemma_at_concat(d, p, a, seq![w]);
    lemma_at_byte(d, p + a.len(), w);
    lemma_digits_at(d, p, a);
    let start2 = p + a.len() + 1;
    assert((a + seq![w]).len() == a.len() + 1);
    lemma_at_bytes(d, start2, b);
    assert(d[start2 + 0] == b[0]);
    lemma_one_space(d, p + a.len());
    assert((a + seq![w] + b).len() == a.len() + 1 + b.len());
    lemma_at_byte(d, start2 + b.len(), v);
    lemma_digits_at(d, start2, b);
    lemma_one_space(d, start2 + b.len());
}

/// The bytes of the words that a file is put together from.
#[verifier::spinoff_prover]
#[verifier::rlimit(50)]
proof fn lemma_words()
    ensures
        "xref".spec_bytes() == seq![0x78u8, 0x72, 0x65, 0x66],
        "trailer".spec_bytes() == seq![0x74u8, 0x72, 0x61, 0x69, 0x6c, 0x65, 0x72],
        "startxref".spec_bytes() == seq![
            0x73u8,
            0x74,
            0x61,
            0x72,
            0x74,
            0x78,
            0x72,
            0x65,
            0x66,
        ],
        "n".spec_bytes() == seq![0x6eu8],
        "f".spec_bytes() == seq![0x66u8],
        "R".spec_bytes() == seq![0x52u8],
        "obj".spec_bytes() == seq![0x6fu8, 0x62, 0x6a],
        "true".spec_bytes() == seq![0x74u8, 0x72, 0x75, 0x65],
        "false".spec_bytes() == seq![0x66u8, 0x61, 0x6c, 0x73, 0x65],
        "null".spec_bytes() == seq![0x6eu8, 0x75, 0x6c, 0x6c],
        "Size".spec_bytes() == seq![0x53u8, 0x69, 0x7a, 0x65],
        "Root".spec_bytes() == seq![0x52u8, 0x6f, 0x6f, 0x74],
        "Prev".spec_bytes() == seq![0x50u8, 0x72, 0x65, 0x76],
        "%PDF-".spec_bytes() == seq![0x25u8, 0x50, 0x44, 0x46, 0x2d],
        "Encrypt".spec_bytes() == seq![0x45u8, 0x6e, 0x63, 0x72, 0x79, 0x70, 0x74],
{
    broadcast use vstd::string::group_string_axioms;

    reveal_strlit("xref");
    reveal_strlit("trailer");
    reveal_strlit("startxref");
    reveal_strlit("n");
    reveal_strlit("f");
    reveal_strlit("R");
    reveal_strlit("obj");
    reveal_strlit("true");
    reveal_strlit("false");
    reveal_strlit("null");
    reveal_strlit("Size");
    reveal_strlit("Root");
    reveal_strlit("Prev");
    reveal_strlit("%PDF-");
    reveal_strlit("Encrypt");
    assert("xref".is_ascii());
    assert("trailer".is_ascii());
    assert("startxref".is_ascii());
    assert("n".is_ascii());
    assert("f".is_ascii());
    assert("R".is_ascii());
    assert("obj".is_ascii());
    assert("true".is_ascii());
    assert("false".is_ascii());
    assert("null".is_ascii());
    assert("Size".is_ascii());
    assert("Root".is_ascii());
    assert("Prev".is_ascii());
    assert("%PDF-".is_ascii());
    assert("Encrypt".is_ascii());
    assert("xref".spec_bytes() =~= seq![0x78u8, 0x72, 0x65, 0x66]);
    assert("trailer".spec_bytes() =~= seq![0x74u8, 0x72, 0x61, 0x69, 0x6c, 0x65, 0x72]);
    assert("startxref".spec_bytes() =~= seq![
        0x73u8,
        0x74,
        0x61,
        0x72,
        0x74,
        0x78,
        0x72,
        0x65,
        0x66,
    ]);
    assert("n".spec_bytes() =~= seq![0x6eu8]);
    assert("f".spec_bytes() =~= seq![0x66u8]);
    assert("R".spec_bytes() =~= seq![0x52u8]);
    assert("obj".spec_bytes() =~= seq![0x6fu8, 0x62, 0x6a]);
    assert("true".spec_bytes() =~= seq![0x74u8, 0x72, 0x75, 0x65]);
    assert("false".spec_bytes() =~= seq![0x66u8, 0x61, 0x6c, 0x73, 0x65]);
    assert("null".spec_bytes() =~= seq![0x6eu8, 0x75, 0x6c, 0x6c]);
    assert("Size".spec_bytes() =~= seq![0x53u8, 0x69, 0x7a, 0x65]);
    assert("Root".spec_bytes() =~= seq![0x52u8, 0x6f, 0x6f, 0x74]);
    assert("Prev".spec_bytes() =~= seq![0x50u8, 0x72, 0x65, 0x76]);
    assert("%PDF-".spec_bytes() =~= seq![0x25u8, 0x50, 0x44, 0x46, 0x2d]);
    assert("Encrypt".spec_bytes() =~= seq![0x45u8, 0x6e, 0x63, 0x72, 0x79, 0x70, 0x74]);
}

proof fn lemma_table_head()
    ensures
        "xref\n0 ".spec_bytes() == "xref".spec_bytes() + seq![0x0au8, 0x30, 0x20],
{
    lemma_words();
    reveal_strlit("xref\n0 ");
    assert("xref\n0 ".is_ascii());
    is_ascii_spec_bytes("xref\n0 ");
    assert("xref\n0 ".spec_bytes() =~= "xref".spec_bytes() + seq![0x0au8, 0x30, 0x20]);
}

#[verifier::spinoff_prover]
#[verifier::rlimit(50)]
proof fn lemma_free_row()
    ensures
        "\n0000000000 65535 f \n".spec_bytes() == seq![0x0au8] + zeros(10) + seq![0x20u8]
            + seq![0x36u8, 0x35, 0x35, 0x33, 0x35] + seq![0x20u8] + "f".spec_bytes()
            + seq![0x20u8, 0x0a],
{
    lemma_words();
    reveal_strlit("\n0000000000 65535 f \n");
    assert("\n0000000000 65535 f \n".is_ascii());
    is_ascii_spec_bytes("\n0000000000 65535 f \n");
    assert("\n0000000000 65535 f \n".spec_bytes() =~= seq![0x0au8] + zeros(10) + seq![0x20u8]
        + seq![0x36u8, 0x35, 0x35, 0x33, 0x35] + seq![0x20u8] + "f".spec_bytes()
        + seq![0x20u8, 0x0a]);
}

proof fn lemma_row_end()
    ensures
        " 00000 n \n".spec_bytes() == seq![0x20u8] + zeros(5) + seq![0x20u8]
            + "n".spec_bytes() + seq![0x20u8, 0x0a],
{
    lemma_words();
    reveal_strlit(" 00000 n \n");
    assert(" 00000 n \n".is_ascii());
    is_ascii_spec_bytes(" 00000 n \n");
    assert(" 00000 n \n".spec_bytes() =~= seq![0x20u8] + zeros(5) + seq![0x20u8]
        + "n".spec_bytes() + seq![0x20u8, 0x0a]);
}

proof fn lemma_trailer_head()
    ensures
        "trailer\n<</Size ".spec_bytes() == "trailer".spec_bytes()
            + seq![0x0au8, 0x3c, 0x3c, 0x2f] + "Size".spec_bytes() + seq![0x20u8],
{
    lemma_words();
    reveal_strlit("trailer\n<</Size ");
    assert("trailer\n<</Size ".is_ascii());
    is_ascii_spec_bytes("trailer\n<</Size ");
    assert("trailer\n<</Size ".spec_bytes() =~= "trailer".spec_bytes()
        + seq![0x0au8, 0x3c, 0x3c, 0x2f] + "Size".spec_bytes() + seq![0x20u8]);
}

proof fn lemma_root_key()
    ensures
        "/Root ".spec_bytes() == seq![0x2fu8] + "Root".spec_bytes() + seq![0x20u8],
{
    lemma_words();
    reveal_strlit("/Root ");
    assert("/Root ".is_ascii());
    is_ascii_spec_bytes("/Root ");
    assert("/Root ".spec_bytes() =~= seq![0x2fu8] + "Root".spec_bytes() + seq![0x20u8]);
}

proof fn lemma_root_end()
    ensures
        " 0 R".spec_bytes() == seq![0x20u8, 0x30, 0x20] + "R".spec_bytes(),
{
    lemma_words();
    reveal_strlit(" 0 R");
    assert(" 0 R".is_ascii());
    is_ascii_spec_bytes(" 0 R");
    assert(" 0 R".spec_bytes() =~= seq![0x20u8, 0x30, 0x20] + "R".spec_bytes());
}

proof fn lemma_start_line()
    ensures
        ">>\nstartxref\n".spec_bytes() == seq![0x3eu8, 0x3e, 0x0a] + "startxref".spec_bytes()
            + seq![0x0au8],
{
    lemma_words();
    reveal_strlit(">>\nstartxref\n");
    assert(">>\nstartxref\n".is_ascii());
    is_ascii_spec_bytes(">>\nstartxref\n");
    assert(">>\nstartxref\n".spec_bytes() =~= seq![0x3eu8, 0x3e, 0x0a] + "startxref".spec_bytes()
        + seq![0x0au8]);
}

proof fn lemma_last_line()
    ensures
        "\n%%EOF\n".spec_bytes() == seq![0x0au8, 0x25, 0x25, 0x45, 0x4f, 0x46, 0x0a],
{
    lemma_words();
    reveal_strlit("\n%%EOF\n");
    assert("\n%%EOF\n".is_ascii());
    is_ascii_spec_bytes("\n%%EOF\n");
    assert("\n%%EOF\n".spec_bytes() =~= seq![0x0au8, 0x25, 0x25, 0x45, 0x4f, 0x46, 0x0a]);
}

proof fn lemma_object_line()
    ensures
        " 0 obj\n".spec_bytes() == seq![0x20u8, 0x30, 0x20] + "obj".spec_bytes()
            + seq![0x0au8],
{
    lemma_words();
    reveal_strlit(" 0 obj\n");
    assert(" 0 obj\n".is_ascii());
    is_ascii_spec_bytes(" 0 obj\n");
    assert(" 0 obj\n".spec_bytes() =~= seq![0x20u8, 0x30, 0x20] + "obj".spec_bytes()
        + seq![0x0au8]);
}

proof fn lemma_header()
    ensures
        "%PDF-1.4\n".spec_bytes() == "%PDF-".spec_bytes() + seq![0x31u8, 0x2e, 0x34, 0x0a],
{
    lemma_words();
    reveal_strlit("%PDF-1.4\n");
    assert("%PDF-1.4\n".is_ascii());
    is_ascii_spec_bytes("%PDF-1.4\n");
    assert("%PDF-1.4\n".spec_bytes() =~= "%PDF-".spec_bytes() + seq![0x31u8, 0x2e, 0x34, 0x0a]);
}

/// `n` zeros.
spec fn zeros(n: nat) -> Seq<u8> {
    Seq::new(n, |i: int| 0x30u8)
}

proof fn lemma_zeros(n: nat)
    ensures
        all_digits(zeros(n)),
        ascii::decimal_value(zeros(n)) == 0,
    decreases n,
{
    if n > 0 {
        lemma_zeros((n - 1) as nat);
        assert(zeros(n).drop_last() =~= zeros((n - 1) as nat));
    }
}

/// Space of two bytes.
proof fn lemma_two_spaces(d: Seq<u8>, p: int)
    requires
        0 <= p,
        p + 2 < d.len(),
        tokenizer::is_white(d[p]),
        tokenizer::is_white(d[p + 1]),
        is_solid(d[p + 2]),
    ensures
        tokenizer::space_end(d, p) == p + 2,
{
    lemma_one_space(d, p + 1);
    assert(tokenizer::space_end(d, p) == tokenizer::space_end(d, p + 1));
}

/// A row of a table: a number, a generation number and a one-letter keyword.
proof fn lemma_row_at(d: Seq<u8>, p: int, a: Seq<u8>, b: Seq<u8>, letter: u8, num: nat)
    requires
        ascii::at(
            d,
            p,
            a + seq![0x20u8] + b + seq![0x20u8] + seq![letter] + seq![0x20u8, 0x0au8],
        ),
        all_digits(a),
        all_digits(b),
        a.len() > 0,
        b.len() > 0,
        letter == 0x6e || letter == 0x66,
        p + a.len() + b.len() + 5 < d.len(),
        is_solid(d[p + a.len() + b.len() + 5]),
        num <= u32::MAX,
        ascii::decimal_value(a) <= usize::MAX,
        ascii::decimal_value(b) <= u16::MAX,
    ensures
        xref::row_at(d, p, num) == Some(
            (
                (
                    (num as u32, ascii::decimal_value(b) as u16),
                    if letter == 0x6e {
                        XrefEntry::Uncompressed(ascii::decimal_value(a) as usize)
                    } else {
                        XrefEntry::Free
                    },
                ),
                (p + a.len() + b.len() + 5) as int,
            ),
        ),
{
    lemma_words();
    let pair = a + seq![0x20u8] + b + seq![0x20u8];
    let next = p + a.len() + b.len() + 2;
    lemma_at_concat(d, p, pair + seq![letter], seq![0x20u8, 0x0au8]);
    lemma_at_concat(d, p, pair, seq![letter]);
    assert(pair.len() == a.len() + b.len() + 2);
    lemma_at_byte(d, next, letter);
    let tail = seq![0x20u8, 0x0au8];
    lemma_at_bytes(d, next + 1, tail);
    assert(d[next + 1 + 0] == tail[0]);
    assert(d[next + 1 + 1] == tail[1]);
    lemma_pair_at(d, p, a, 0x20, b, 0x20);
    lemma_two_spaces(d, next + 1);
    assert(ascii::at(d, next, seq![letter]));
    if letter == 0x66 {
        assert(!ascii::at(d, next, "n".spec_bytes())) by {
            if ascii::at(d, next, seq![0x6eu8]) {
                lemma_at_byte(d, next, 0x6e);
            }
        }
    }
}

/// The entry for the object at place `i`.
pub open spec fn entry_of(objects: Seq<Seq<u8>>, i: int) -> ((u32, u16), XrefEntry) {
    (
        ((i + 1) as u32, 0u16),
        XrefEntry::Uncompressed(test_pdf::offset_of(objects, i as nat) as usize),
    )
}

/// The row for the object at place `i`.
spec fn row_of(objects: Seq<Seq<u8>>, i: nat) -> Seq<u8> {
    test_pdf::zero_padded(test_pdf::digits(test_pdf::offset_of(objects, i)))
        + " 00000 n \n".spec_bytes()
}

proof fn lemma_rows_prefix(objects: Seq<Seq<u8>>, m: nat, n: nat)
    requires
        m < n,
    ensures
        test_pdf::rows(objects, m).len() + row_of(objects, m).len() <= test_pdf::rows(
            objects,
            n,
        ).len(),
        ascii::at(
            test_pdf::rows(objects, n),
            test_pdf::rows(objects, m).len() as int,
            row_of(objects, m),
        ),
    decreases n,
{
    let all = test_pdf::rows(objects, n);
    let shorter = test_pdf::rows(objects, (n - 1) as nat);
    let start = test_pdf::rows(objects, m).len() as int;
    let row = row_of(objects, m);
    assert(all =~= shorter + row_of(objects, (n - 1) as nat));
    if m < n - 1 {
        lemma_rows_prefix(objects, m, (n - 1) as nat);
        assert(all.subrange(start, start + row.len()) =~= shorter.subrange(
            start,
            start + row.len(),
        ));
    } else {
        assert(all.subrange(start, start + row.len()) =~= row);
    }
}

/// What stands at a place within something that stands at a place.
proof fn lemma_at_within(d: Seq<u8>, p: int, whole: Seq<u8>, q: int, part: Seq<u8>)
    requires
        ascii::at(d, p, whole),
        ascii::at(whole, q, part),
    ensures
        ascii::at(d, p + q, part),
{
    assert(d.subrange(p + q, p + q + part.len()) =~= d.subrange(p, p + whole.len()).subrange(
        q,
        q + part.len(),
    ));
}

/// A row states where its object is.
proof fn lemma_object_row(d: Seq<u8>, p: int, objects: Seq<Seq<u8>>, i: nat)
    requires
        ascii::at(d, p, row_of(objects, i)),
        p + row_of(objects, i).len() < d.len(),
        is_solid(d[p + row_of(objects, i).len()]),
        i < u32::MAX,
        test_pdf::offset_of(objects, i) <= usize::MAX,
    ensures
        xref::row_at(d, p, i + 1) == Some(
            (entry_of(objects, i as int), (p + row_of(objects, i).len()) as int),
        ),
{
    lemma_words();
    lemma_row_end();
    let offset = test_pdf::digits(test_pdf::offset_of(objects, i));
    lemma_digits(test_pdf::offset_of(objects, i));
    lemma_padded(offset);
    lemma_zeros(5);
    let a = test_pdf::zero_padded(offset);
    assert(row_of(objects, i) =~= a + seq![0x20u8] + zeros(5) + seq![0x20u8] + seq![0x6eu8]
        + seq![0x20u8, 0x0a]);
    lemma_row_at(d, p, a, zeros(5), 0x6e, i + 1);
}

/// The rows of a table state where the objects are.
#[verifier::spinoff_prover]
#[verifier::rlimit(50)]
proof fn lemma_object_rows(d: Seq<u8>, base: int, objects: Seq<Seq<u8>>, i: nat)
    requires
        i <= objects.len(),
        ascii::at(d, base, test_pdf::rows(objects, objects.len())),
        base + test_pdf::rows(objects, objects.len()).len() < d.len(),
        is_solid(d[base + test_pdf::rows(objects, objects.len()).len()]),
        objects.len() < u32::MAX,
        d.len() <= usize::MAX,
        test_pdf::offset_of(objects, objects.len()) <= d.len(),
    ensures
        xref::rows_at(
            d,
            base + test_pdf::rows(objects, i).len(),
            i + 1,
            (objects.len() - i) as nat,
        ) == Some(
            (
                Seq::new((objects.len() - i) as nat, |k: int| entry_of(objects, i + k)),
                (base + test_pdf::rows(objects, objects.len()).len()) as int,
            ),
        ),
    decreases objects.len() - i,
{
    let n = objects.len();
    let p = base + test_pdf::rows(objects, i).len();
    let left = Seq::new((n - i) as nat, |k: int| entry_of(objects, i + k));
    if i < n {
        let rows = test_pdf::rows(objects, n);
        let row = row_of(objects, i);
        lemma_rows_prefix(objects, i, n);
        lemma_at_within(d, base, rows, test_pdf::rows(objects, i).len() as int, row);
        let next = p + row.len();
        assert(test_pdf::rows(objects, i + 1) =~= test_pdf::rows(objects, i) + row);
        if i + 1 < n {
            // The next row starts with a digit.
            let after = row_of(objects, i + 1);
            lemma_rows_prefix(objects, i + 1, n);
            lemma_at_within(d, base, rows, test_pdf::rows(objects, i + 1).len() as int, after);
            lemma_digits(test_pdf::offset_of(objects, i + 1));
            lemma_padded(test_pdf::digits(test_pdf::offset_of(objects, i + 1)));
            lemma_at_bytes(d, next as int, after);
            assert(d[next + 0] == after[0]);
            assert(after[0] == test_pdf::zero_padded(
                test_pdf::digits(test_pdf::offset_of(objects, i + 1)),
            )[0]);
        }
        test_pdf::lemma_bodies_prefix(objects, i, n);
        lemma_object_row(d, p as int, objects, i);
        lemma_object_rows(d, base, objects, i + 1);
        let rest = Seq::new((n - (i + 1)) as nat, |k: int| entry_of(objects, i + 1 + k));
        assert(seq![entry_of(objects, i as int)] + rest =~= left);
    } else {
        assert(left =~= Seq::<((u32, u16), XrefEntry)>::empty());
    }
}

/// All entries of a table: the free one, and one for each object.
pub open spec fn entries_of(objects: Seq<Seq<u8>>) -> Seq<((u32, u16), XrefEntry)> {
    seq![((0u32, 65535u16), XrefEntry::Free)] + Seq::new(
        objects.len(),
        |k: int| entry_of(objects, k),
    )
}

proof fn lemma_largest_generation()
    ensures
        ascii::decimal_value(seq![0x36u8, 0x35, 0x35, 0x33, 0x35]) == 65535,
        all_digits(seq![0x36u8, 0x35, 0x35, 0x33, 0x35]),
        ascii::decimal_value(seq![0x30u8]) == 0,
{
    let s = seq![0x36u8, 0x35, 0x35, 0x33, 0x35];
    assert(s.drop_last() =~= seq![0x36u8, 0x35, 0x35, 0x33]);
    assert(seq![0x36u8, 0x35, 0x35, 0x33].drop_last() =~= seq![0x36u8, 0x35, 0x35]);
    assert(seq![0x36u8, 0x35, 0x35].drop_last() =~= seq![0x36u8, 0x35]);
    assert(seq![0x36u8, 0x35].drop_last() =~= seq![0x36u8]);
    assert(seq![0x36u8].drop_last() =~= Seq::<u8>::empty());
    assert(seq![0x30u8].drop_last() =~= Seq::<u8>::empty());
    reveal_with_fuel(ascii::decimal_value, 6);
}

/// The table is read as its entries, and what follows starts after it.
#[verifier::spinoff_prover]
#[verifier::rlimit(50)]
proof fn lemma_table(d: Seq<u8>, start: int, objects: Seq<Seq<u8>>)
    requires
        ascii::at(d, start, test_pdf::table(objects)),
        start + test_pdf::table(objects).len() < d.len(),
        is_solid(d[start + test_pdf::table(objects).len()]),
        objects.len() < u32::MAX,
        d.len() <= usize::MAX,
        test_pdf::offset_of(objects, objects.len()) <= d.len(),
    ensures
        tokenizer::keyword(d, start, "xref".spec_bytes()),
        tokenizer::space_end(d, start) == start,
        tokenizer::space_end(d, start + 4) == start + 5,
        d[start + 5] == 0x30,
        tokenizer::int_pair(d, start + 5) matches Some((num, count, next)) && num == 0 && count
            == objects.len() + 1 && xref::rows_at(d, next, num, count) == Some(
            (entries_of(objects), (start + test_pdf::table(objects).len()) as int),
        ),
{
    reveal(test_pdf::table);
    lemma_words();
    lemma_table_head();
    lemma_free_row();
    lemma_largest_generation();
    lemma_zeros(10);
    let n = objects.len();
    let size = test_pdf::digits(n + 1);
    lemma_digits(n + 1);
    let head = "xref\n0 ".spec_bytes();
    let free = "\n0000000000 65535 f \n".spec_bytes();
    let rows = test_pdf::rows(objects, n);
    lemma_at_concat(d, start, head + size + free, rows);
    lemma_at_concat(d, start, head + size, free);
    lemma_at_concat(d, start, head, size);
    let r0 = start + 7 + size.len() + 1;
    let base = r0 + 20;
    assert(head.len() == 7);
    assert(free.len() == 21);
    lemma_at_bytes(d, start, head);
    assert(d[start + 0] == head[0] && d[start + 4] == head[4] && d[start + 5] == head[5]);
    assert(head =~= "xref".spec_bytes() + seq![0x0au8, 0x30, 0x20]);
    lemma_at_concat(d, start, "xref".spec_bytes(), seq![0x0au8, 0x30, 0x20]);
    lemma_no_space(d, start);
    lemma_one_space(d, start + 4);
    // The number of the first object and how many there are.
    let row0 = zeros(10) + seq![0x20u8] + seq![0x36u8, 0x35, 0x35, 0x33, 0x35] + seq![0x20u8]
        + seq![0x66u8] + seq![0x20u8, 0x0a];
    assert(free =~= seq![0x0au8] + row0);
    lemma_at_concat(d, start + 7 + size.len(), seq![0x0au8], row0);
    lemma_at_bytes(d, r0, row0);
    assert(d[r0 + 0] == row0[0]);
    let pair = seq![0x30u8] + seq![0x20u8] + size + seq![0x0au8];
    assert(ascii::at(d, start + 5, pair)) by {
        assert(ascii::at(head + size + free, 5, pair)) by {
            assert((head + size + free).subrange(5, (5 + pair.len()) as int) =~= pair);
        }
        lemma_at_within(d, start, head + size + free, 5, pair);
    }
    lemma_pair_at(d, start + 5, seq![0x30u8], 0x20, size, 0x0a);
    // The free entry, and what follows it.
    if n > 0 {
        let row = row_of(objects, 0);
        lemma_rows_prefix(objects, 0, n);
        lemma_at_within(d, base, rows, 0, row);
        lemma_digits(test_pdf::offset_of(objects, 0));
        lemma_padded(test_pdf::digits(test_pdf::offset_of(objects, 0)));
        lemma_at_bytes(d, base, row);
        assert(d[base + 0] == row[0]);
        assert(row[0] == test_pdf::zero_padded(
            test_pdf::digits(test_pdf::offset_of(objects, 0)),
        )[0]);
    } else {
        assert(rows.len() == 0);
    }
    lemma_row_at(d, r0, zeros(10), seq![0x36u8, 0x35, 0x35, 0x33, 0x35], 0x66, 0);
    lemma_object_rows(d, base, objects, 0);
    assert(test_pdf::rows(objects, 0).len() == 0);
    let rest = Seq::new(n, |k: int| entry_of(objects, 0 + k));
    assert(rest =~= Seq::new(n, |k: int| entry_of(objects, k)));
    assert(xref::rows_at(d, r0, 0, n + 1) == Some(
        (seq![((0u32, 65535u16), XrefEntry::Free)] + rest, base + rows.len()),
    ));
}

/// The trailer of a file with `size` numbers in use, whose catalog is object `root`.
pub open spec fn trailer_of(size: nat, root: nat, more: Map<Seq<u8>, Obj>) -> Map<Seq<u8>, Obj> {
    map![
        "Size".spec_bytes() => Obj::Integer(size as i64),
        "Root".spec_bytes() => Obj::Reference(root as u32, 0),
    ].union_prefer_right(more)
}

/// The entries of a dictionary that are read from `pos` on.
#[verifier::opaque]
spec fn entries_read(d: Seq<u8>, pos: int, m: Map<Seq<u8>, Obj>, end: int) -> bool {
    tokenizer::entries_at(d, pos, (tokenizer::MAX_DEPTH - 1) as nat) == Some((m, end))
}

/// Whether `s` can stand in a name as it is.
spec fn is_plain_name(s: Seq<u8>) -> bool {
    forall|i: int|
        0 <= i < s.len() ==> tokenizer::is_regular(#[trigger] s[i]) && s[i] != '#' as u8
}

/// A name without escapes, up to white space.
proof fn lemma_name_at(d: Seq<u8>, p: int, s: Seq<u8>)
    requires
        ascii::at(d, p, s),
        is_plain_name(s),
        p + s.len() < d.len(),
        tokenizer::is_white(d[p + s.len()]),
    ensures
        tokenizer::name_at(d, p) == (s, (p + s.len()) as int),
    decreases s.len(),
{
    if s.len() > 0 {
        lemma_at_bytes(d, p, s);
        assert(d[p + 0] == s[0]);
        let rest = s.skip(1);
        assert(s =~= seq![s[0]] + rest);
        lemma_at_concat(d, p, seq![s[0]], rest);
        assert(is_plain_name(rest)) by {
            assert forall|i: int| 0 <= i < rest.len() implies tokenizer::is_regular(
                #[trigger] rest[i],
            ) && rest[i] != '#' as u8 by {
                assert(rest[i] == s[i + 1]);
            }
        }
        lemma_name_at(d, p + 1, rest);
    } else {
        assert(s =~= Seq::<u8>::empty());
    }
}

/// A keyword does not start with a digit.
proof fn lemma_no_keyword(d: Seq<u8>, p: int)
    requires
        0 <= p < d.len(),
        ascii::is_digit(d[p]),
    ensures
        !tokenizer::keyword(d, p, "true".spec_bytes()),
        !tokenizer::keyword(d, p, "false".spec_bytes()),
        !tokenizer::keyword(d, p, "null".spec_bytes()),
        !tokenizer::keyword(d, p, "trailer".spec_bytes()),
{
    lemma_words();
    if ascii::at(d, p, "true".spec_bytes()) {
        lemma_at_bytes(d, p, "true".spec_bytes());
        assert(d[p + 0] == "true".spec_bytes()[0]);
    }
    if ascii::at(d, p, "false".spec_bytes()) {
        lemma_at_bytes(d, p, "false".spec_bytes());
        assert(d[p + 0] == "false".spec_bytes()[0]);
    }
    if ascii::at(d, p, "null".spec_bytes()) {
        lemma_at_bytes(d, p, "null".spec_bytes());
        assert(d[p + 0] == "null".spec_bytes()[0]);
    }
    if ascii::at(d, p, "trailer".spec_bytes()) {
        lemma_at_bytes(d, p, "trailer".spec_bytes());
        assert(d[p + 0] == "trailer".spec_bytes()[0]);
    }
}

/// An integer that a slash follows, after one byte of space.
proof fn lemma_integer_value(d: Seq<u8>, p: int, s: Seq<u8>, depth: nat)
    requires
        ascii::at(d, p, seq![0x20u8] + s + seq![0x2fu8]),
        all_digits(s),
        s.len() > 0,
        ascii::decimal_value(s) <= i64::MAX,
    ensures
        tokenizer::value_at(d, p, depth) == Some(
            (Obj::Integer(ascii::decimal_value(s) as i64), (p + 1 + s.len()) as int),
        ),
{
    lemma_at_concat(d, p, seq![0x20u8] + s, seq![0x2fu8]);
    lemma_at_concat(d, p, seq![0x20u8], s);
    lemma_at_byte(d, p, 0x20);
    let q = p + 1;
    let end = q + s.len();
    lemma_at_byte(d, end, 0x2f);
    lemma_at_bytes(d, q, s);
    assert(d[q + 0] == s[0]);
    lemma_one_space(d, p);
    lemma_digits_at(d, q, s);
    lemma_no_space(d, end);
    lemma_no_keyword(d, q);
    assert(tokenizer::int_pair(d, q) is None);
}

/// A reference to generation zero, after one byte of space. The byte `b` after it ends it.
#[verifier::spinoff_prover]
#[verifier::rlimit(50)]
proof fn lemma_reference_value(d: Seq<u8>, p: int, s: Seq<u8>, b: u8, depth: nat)
    requires
        ascii::at(d, p, seq![0x20u8] + s + seq![0x20u8, 0x30, 0x20, 0x52, b]),
        !tokenizer::is_regular(b),
        all_digits(s),
        s.len() > 0,
        ascii::decimal_value(s) <= u32::MAX,
    ensures
        tokenizer::value_at(d, p, depth) == Some(
            (Obj::Reference(ascii::decimal_value(s) as u32, 0), (p + 1 + s.len() + 4) as int),
        ),
{
    lemma_words();
    lemma_largest_generation();
    let tail = seq![0x20u8, 0x30, 0x20, 0x52, b];
    lemma_at_concat(d, p, seq![0x20u8] + s, tail);
    lemma_at_concat(d, p, seq![0x20u8], s);
    lemma_at_byte(d, p, 0x20);
    let q = p + 1;
    let end = q + s.len();
    lemma_at_bytes(d, q, s);
    assert(d[q + 0] == s[0]);
    lemma_at_bytes(d, end, tail);
    assert(d[end + 3] == tail[3] && d[end + 4] == tail[4]);
    lemma_one_space(d, p);
    lemma_no_keyword(d, q);
    let pair = s + seq![0x20u8] + seq![0x30u8] + seq![0x20u8];
    let whole = seq![0x20u8] + s + tail;
    assert(ascii::at(d, q, pair)) by {
        assert(whole.subrange(1, (1 + pair.len()) as int) =~= pair);
        lemma_at_within(d, p, whole, 1, pair);
    }
    assert(all_digits(seq![0x30u8]));
    lemma_pair_at(d, q, s, 0x20, seq![0x30u8], 0x20);
    assert(ascii::at(d, end + 3, "R".spec_bytes())) by {
        assert(d.subrange(end + 3, end + 4) =~= seq![0x52u8]);
    }
}

/// The dictionary of the trailer, as bytes.
#[verifier::opaque]
spec fn trailer_dict(size: Seq<u8>, root: Seq<u8>, extra: Seq<u8>) -> Seq<u8> {
    seq![0x0au8, 0x3c, 0x3c, 0x2f] + "Size".spec_bytes() + seq![0x20u8] + size + seq![0x2fu8]
        + "Root".spec_bytes() + seq![0x20u8] + root + seq![0x20u8, 0x30, 0x20, 0x52] + (extra
        + seq![0x3eu8, 0x3e])
}

/// The parts of the trailer's dictionary stand where they belong.
#[verifier::spinoff_prover]
#[verifier::rlimit(50)]
proof fn lemma_trailer_parts(d: Seq<u8>, p: int, s: Seq<u8>, r: Seq<u8>, extra: Seq<u8>)
    requires
        ascii::at(d, p, trailer_dict(s, r, extra)),
    ensures
        p + 21 + s.len() + r.len() + extra.len() <= d.len(),
        d[p] == 0x0a && d[p + 1] == 0x3c && d[p + 2] == 0x3c && d[p + 3] == 0x2f,
        ascii::at(d, p + 4, "Size".spec_bytes()),
        ascii::at(d, p + 8, seq![0x20u8] + s + seq![0x2fu8]),
        d[p + 8] == 0x20,
        d[p + 9 + s.len()] == 0x2f,
        ascii::at(d, p + 9 + s.len() + 1, "Root".spec_bytes()),
        d[p + 9 + s.len() + 5] == 0x20,
        ascii::at(
            d,
            p + 9 + s.len() + 5,
            seq![0x20u8] + r + seq![
                0x20u8,
                0x30,
                0x20,
                0x52,
                d[p + 9 + s.len() + 6 + r.len() + 4],
            ],
        ),
        ascii::at(d, p + 9 + s.len() + 6 + r.len() + 4, extra + seq![0x3eu8, 0x3e]),
{
    reveal(trailer_dict);
    lemma_words();
    let size_key = "Size".spec_bytes();
    let root_key = "Root".spec_bytes();
    let open = seq![0x0au8, 0x3c, 0x3c, 0x2f];
    let part = seq![0x20u8, 0x30, 0x20, 0x52];
    let rest = extra + seq![0x3eu8, 0x3e];
    let front = open + size_key + seq![0x20u8] + s + seq![0x2fu8] + root_key + seq![0x20u8] + r;
    lemma_at_concat(d, p, front + part, rest);
    lemma_at_concat(d, p, front, part);
    let w7 = open + size_key + seq![0x20u8] + s + seq![0x2fu8] + root_key + seq![0x20u8];
    lemma_at_concat(d, p, w7, r);
    let w6 = open + size_key + seq![0x20u8] + s + seq![0x2fu8] + root_key;
    lemma_at_concat(d, p, w6, seq![0x20u8]);
    let w5 = open + size_key + seq![0x20u8] + s + seq![0x2fu8];
    lemma_at_concat(d, p, w5, root_key);
    let w4 = open + size_key + seq![0x20u8] + s;
    lemma_at_concat(d, p, w4, seq![0x2fu8]);
    let w3 = open + size_key + seq![0x20u8];
    lemma_at_concat(d, p, w3, s);
    lemma_at_concat(d, p, open + size_key, seq![0x20u8]);
    lemma_at_concat(d, p, open, size_key);
    lemma_at_bytes(d, p, open);
    assert(d[p + 0] == open[0] && d[p + 1] == open[1] && d[p + 2] == open[2] && d[p + 3]
        == open[3]);
    let q = p + 9 + s.len();
    lemma_at_byte(d, p + 8, 0x20);
    lemma_at_byte(d, q, 0x2f);
    lemma_at_byte(d, q + 5, 0x20);
    let e = q + 6 + r.len();
    lemma_at_join(d, p + 8, seq![0x20u8], s);
    lemma_at_join(d, p + 8, seq![0x20u8] + s, seq![0x2fu8]);
    lemma_at_join(d, q + 5, seq![0x20u8], r);
    let b = d[e + 4];
    assert(d.subrange(e + 4, e + 5) =~= seq![b]);
    lemma_at_join(d, e, part, seq![b]);
    lemma_at_join(d, q + 5, seq![0x20u8] + r, part + seq![b]);
    assert(part + seq![b] =~= seq![0x20u8, 0x30, 0x20, 0x52, b]);
}

/// What stands at a place piece by piece stands there as a whole.
proof fn lemma_at_join(d: Seq<u8>, p: int, a: Seq<u8>, b: Seq<u8>)
    requires
        ascii::at(d, p, a),
        ascii::at(d, p + a.len(), b),
    ensures
        ascii::at(d, p, a + b),
{
    assert(d.subrange(p, p + (a + b).len()) =~= d.subrange(p, p + a.len()) + d.subrange(
        p + a.len(),
        p + a.len() + b.len(),
    ));
}

/// One entry of a dictionary, and the entries after it.
proof fn lemma_entry(
    d: Seq<u8>,
    p: int,
    key: Seq<u8>,
    q: int,
    o: Obj,
    next: int,
    rest: Map<Seq<u8>, Obj>,
    end: int,
    depth: nat,
)
    requires
        0 <= p < next <= d.len(),
        d[p] == 0x2f,
        tokenizer::name_at(d, p + 1) == (key, q),
        tokenizer::value_at(d, q, depth) == Some((o, next)),
        tokenizer::entries_at(d, next, depth) == Some((rest, end)),
    ensures
        tokenizer::entries_at(d, p, depth) == Some(
            (Map::<Seq<u8>, Obj>::empty().insert(key, o).union_prefer_right(rest), end),
        ),
{
    lemma_no_space(d, p);
}

/// The brackets that close a dictionary.
proof fn lemma_close(d: Seq<u8>, p: int, depth: nat)
    requires
        0 <= p,
        p + 1 < d.len(),
        d[p] == 0x3e,
        d[p + 1] == 0x3e,
    ensures
        tokenizer::entries_at(d, p, depth) == Some((Map::<Seq<u8>, Obj>::empty(), p + 2)),
{
    lemma_no_space(d, p);
}

/// The brackets that open a dictionary, after one byte of space.
proof fn lemma_open(d: Seq<u8>, p: int, m: Map<Seq<u8>, Obj>, end: int, depth: nat)
    requires
        0 <= p,
        p + 2 < d.len(),
        tokenizer::is_white(d[p]),
        d[p + 1] == 0x3c,
        d[p + 2] == 0x3c,
        depth > 0,
        tokenizer::entries_at(d, p + 3, (depth - 1) as nat) == Some((m, end)),
    ensures
        tokenizer::value_at(d, p, depth) == Some((Obj::Dict(m), end)),
{
    lemma_one_space(d, p);
}

/// Where the entries after `/Root` are, in the dictionary of a trailer at `p`.
spec fn after_root(p: int, size: nat, root: nat) -> int {
    (p + 19 + test_pdf::digits(size).len() + test_pdf::digits(root).len()) as int
}

/// The dictionary of the trailer is read as what it states.
#[verifier::spinoff_prover]
#[verifier::rlimit(50)]
proof fn lemma_trailer_dict(
    d: Seq<u8>,
    p: int,
    size: nat,
    root: nat,
    extra: Seq<u8>,
    more: Map<Seq<u8>, Obj>,
    end: int,
)
    requires
        ascii::at(d, p, trailer_dict(test_pdf::digits(size), test_pdf::digits(root), extra)),
        size <= i64::MAX,
        root <= u32::MAX,
        entries_read(d, after_root(p, size, root), more, end),
        !tokenizer::is_regular(d[after_root(p, size, root)]),
    ensures
        tokenizer::value_at(d, p, tokenizer::MAX_DEPTH as nat) matches Some((o, _)) && o
            == Obj::Dict(trailer_of(size, root, more)),
{
    lemma_words();
    let s = test_pdf::digits(size);
    let r = test_pdf::digits(root);
    lemma_digits(size);
    lemma_digits(root);
    lemma_trailer_parts(d, p, s, r, extra);
    reveal(entries_read);
    let size_key = "Size".spec_bytes();
    let root_key = "Root".spec_bytes();
    let depth = (tokenizer::MAX_DEPTH - 1) as nat;
    let q = (p + 9 + s.len()) as int;
    let e = (q + 6 + r.len() + 4) as int;
    let none = Map::<Seq<u8>, Obj>::empty();
    lemma_name_at(d, q + 1, root_key);
    lemma_reference_value(d, q + 5, r, d[e], depth);
    let reference = Obj::Reference(root as u32, 0);
    lemma_entry(d, q, root_key, q + 5, reference, e, more, end, depth);
    let second = none.insert(root_key, reference).union_prefer_right(more);
    lemma_name_at(d, p + 4, size_key);
    lemma_integer_value(d, p + 8, s, depth);
    let integer = Obj::Integer(size as i64);
    lemma_entry(d, p + 3, size_key, p + 8, integer, q, second, end, depth);
    let first = none.insert(size_key, integer).union_prefer_right(second);
    assert(first =~= trailer_of(size, root, more));
    lemma_open(d, p, first, end, tokenizer::MAX_DEPTH as nat);
}

/// The last place where a pattern stands is where the search from the end finds it.
proof fn lemma_rfind(d: Seq<u8>, from: int, pat: Seq<u8>, u: int)
    requires
        0 <= u <= from,
        ascii::at(d, u, pat),
        forall|i: int| u < i <= from ==> !#[trigger] ascii::at(d, i, pat),
    ensures
        ascii::rfind(d, from, pat) == Some(u),
    decreases from,
{
    if from > u {
        assert(!ascii::at(d, from, pat));
        lemma_rfind(d, from - 1, pat, u);
    }
}

/// The end of a file says where its table starts.
#[verifier::spinoff_prover]
#[verifier::rlimit(50)]
proof fn lemma_start(d: Seq<u8>, u: int, start: nat)
    requires
        ascii::at(d, u, start_lines(start)),
        d.len() == u + 17 + test_pdf::digits(start).len(),
    ensures
        xref::start_offset(d) == Some(start),
{
    reveal(start_lines);
    lemma_words();
    lemma_digits(start);
    let word = "startxref".spec_bytes();
    let s = test_pdf::digits(start);
    let tail = seq![0x0au8, 0x25, 0x25, 0x45, 0x4f, 0x46, 0x0a];
    let whole = word + seq![0x0au8] + s + tail;
    lemma_at_bytes(d, u, whole);
    lemma_at_concat(d, u, word + seq![0x0au8] + s, tail);
    lemma_at_concat(d, u, word + seq![0x0au8], s);
    lemma_at_concat(d, u, word, seq![0x0au8]);
    assert forall|i: int| u < i <= d.len() implies !#[trigger] ascii::at(d, i, word) by {
        if ascii::at(d, i, word) {
            lemma_at_bytes(d, i, word);
            assert(d[i + 0] == word[0]);
            let k = i - u;
            assert(d[u + k] == whole[k]);
            if k < 9 {
                assert(whole[k] == word[k]);
            } else if k == 9 {
                assert(whole[k] == 0x0a);
            } else if k < 10 + s.len() {
                assert(whole[k] == s[k - 10]);
            } else {
                assert(whole[k] == tail[k - 10 - s.len()]);
            }
        }
    }
    lemma_rfind(d, d.len() as int, word, u);
    assert(d[u + 9] == whole[9]);
    assert(d[u + 10] == whole[10]);
    assert(whole[9] == 0x0a && whole[10] == s[0]);
    lemma_one_space(d, u + 9);
    let e = (10 + s.len()) as int;
    assert(whole[e] == 0x0a);
    assert(d[u + e] == whole[e]);
    lemma_digits_at(d, u + 10, s);
}

/// The line that says where the table starts, and the line after it.
#[verifier::opaque]
spec fn start_lines(start: nat) -> Seq<u8> {
    "startxref".spec_bytes() + seq![0x0au8] + test_pdf::digits(start) + seq![
        0x0au8,
        0x25,
        0x25,
        0x45,
        0x4f,
        0x46,
        0x0a,
    ]
}

/// The trailer and its dictionary, up to the brackets that close it.
#[verifier::spinoff_prover]
#[verifier::rlimit(50)]
proof fn lemma_trailer_text(s: Seq<u8>, r: Seq<u8>, extra: Seq<u8>)
    ensures
        "trailer\n<</Size ".spec_bytes() + s + "/Root ".spec_bytes() + r + " 0 R".spec_bytes()
            + extra + seq![0x3eu8, 0x3e] == "trailer".spec_bytes() + trailer_dict(s, r, extra),
{
    reveal(trailer_dict);
    lemma_words();
    lemma_trailer_head();
    lemma_root_key();
    lemma_root_end();
    let left = "trailer\n<</Size ".spec_bytes() + s + "/Root ".spec_bytes() + r
        + " 0 R".spec_bytes() + extra + seq![0x3eu8, 0x3e];
    let right = "trailer".spec_bytes() + trailer_dict(s, r, extra);
    assert(left.len() == right.len());
    assert(left =~= right);
}

/// Pieces put together in another order of brackets.
proof fn lemma_regrouped(
    head: Seq<u8>,
    a: Seq<u8>,
    b: Seq<u8>,
    c: Seq<u8>,
    n: Seq<u8>,
    tail: Seq<u8>,
)
    ensures
        head + (a + b + c) + n + tail == (head + a) + b + (c + n + tail),
{
    assert(head + (a + b + c) + n + tail =~= (head + a) + b + (c + n + tail));
}

/// The end of a file, part by part.
proof fn lemma_ending(size: nat, root: nat, extra: Seq<u8>, start: nat)
    ensures
        test_pdf::ending(size, root, extra, start) == "trailer".spec_bytes() + trailer_dict(
            test_pdf::digits(size),
            test_pdf::digits(root),
            extra,
        ) + seq![0x0au8] + start_lines(start),
{
    let s = test_pdf::digits(size);
    let r = test_pdf::digits(root);
    let n = test_pdf::digits(start);
    let head = "trailer\n<</Size ".spec_bytes() + s + "/Root ".spec_bytes() + r
        + " 0 R".spec_bytes() + extra;
    let line = ">>\nstartxref\n".spec_bytes();
    let word = "startxref".spec_bytes() + seq![0x0au8];
    let last = "\n%%EOF\n".spec_bytes();
    assert(line == seq![0x3eu8, 0x3e] + seq![0x0au8] + word) by {
        lemma_words();
        lemma_start_line();
        assert(line =~= seq![0x3eu8, 0x3e] + seq![0x0au8] + word);
    }
    assert(test_pdf::ending(size, root, extra, start) == head + line + n + last) by {
        reveal(test_pdf::ending);
    }
    assert(start_lines(start) == word + n + last) by {
        reveal(start_lines);
        lemma_last_line();
    }
    lemma_regrouped(head, seq![0x3eu8, 0x3e], seq![0x0au8], word, n, last);
    lemma_trailer_text(s, r, extra);
}

/// Entries that are all different are all added.
proof fn lemma_added_all(s: Seq<((u32, u16), XrefEntry)>)
    requires
        xref::distinct(s),
    ensures
        xref::added(Seq::empty(), s) == s,
    decreases s.len(),
{
    if s.len() > 0 {
        let rest = s.drop_last();
        lemma_added_all(rest);
        if xref::listed(rest, s.last().0) {
            let i = choose|i: int| 0 <= i < rest.len() && (#[trigger] rest[i]).0 == s.last().0;
            assert(s[i].0 == s[s.len() - 1].0);
        }
        assert(rest.push(s.last()) =~= s);
    } else {
        assert(s =~= Seq::<((u32, u16), XrefEntry)>::empty());
    }
}

proof fn lemma_entries_distinct(objects: Seq<Seq<u8>>)
    requires
        objects.len() < u32::MAX,
    ensures
        xref::distinct(entries_of(objects)),
{
    let s = entries_of(objects);
    assert forall|i: int, j: int| 0 <= i < j < s.len() implies (#[trigger] s[i]).0 != (
    #[trigger] s[j]).0 by {
        assert(s[j] == entry_of(objects, j - 1));
        if i > 0 {
            assert(s[i] == entry_of(objects, i - 1));
        }
    }
}

/// A table, or what is left of one, is read as a section.
#[verifier::opaque]
spec fn table_read(d: Seq<u8>, p: int, section: Section) -> bool {
    xref::table_at(d, p) == Some(section)
}

/// The word that opens a table stands at a position.
#[verifier::opaque]
spec fn table_opened(d: Seq<u8>, p: int) -> bool {
    tokenizer::space_end(d, p) == p && tokenizer::keyword(d, p, "xref".spec_bytes())
}

/// The rows of a subsection are read, and end at a position.
#[verifier::opaque]
spec fn subsection_read(
    d: Seq<u8>,
    p: int,
    rows: Seq<((u32, u16), XrefEntry)>,
    end: int,
) -> bool {
    let q = tokenizer::space_end(d, p);
    &&& p < end <= d.len()
    &&& !tokenizer::keyword(d, q, "trailer".spec_bytes())
    &&& tokenizer::int_pair(d, q) matches Some((num, count, next)) && xref::rows_at(
        d,
        next,
        num,
        count,
    ) == Some((rows, end))
}

/// A subsection of a table, and what follows it.
proof fn lemma_subsection(
    d: Seq<u8>,
    p: int,
    rows: Seq<((u32, u16), XrefEntry)>,
    end: int,
    rest: Section,
)
    requires
        subsection_read(d, p, rows, end),
        table_read(d, end, rest),
    ensures
        table_read(d, p, Section { entries: rows + rest.entries, trailer: rest.trailer }),
{
    reveal(subsection_read);
    reveal(table_read);
}

/// The trailer of a table.
proof fn lemma_table_end(d: Seq<u8>, p: int, m: Map<Seq<u8>, Obj>)
    requires
        tokenizer::space_end(d, p) == p,
        tokenizer::keyword(d, p, "trailer".spec_bytes()),
        "trailer".spec_bytes().len() == 7,
        tokenizer::value_at(d, p + 7, tokenizer::MAX_DEPTH as nat) matches Some((o, _)) && o
            == Obj::Dict(m),
    ensures
        table_read(d, p, Section { entries: Seq::empty(), trailer: m }),
{
    reveal(table_read);
}

/// A section that is a table.
#[verifier::spinoff_prover]
#[verifier::rlimit(50)]
proof fn lemma_section_table(d: Seq<u8>, p: int, section: Section)
    requires
        table_opened(d, p),
        table_read(d, p + 4, section),
    ensures
        xref::section_at(d, p) == Some(section),
{
    assert("xref".spec_bytes().len() == 4) by {
        lemma_words();
    }
    reveal(table_opened);
    reveal(table_read);
    reveal(xref::section_at);
}

/// The trailer of an assembled file is read after its table.
proof fn lemma_trailer(
    d: Seq<u8>,
    t: int,
    size: nat,
    root: nat,
    extra: Seq<u8>,
    more: Map<Seq<u8>, Obj>,
    end: int,
)
    requires
        ascii::at(d, t, "trailer".spec_bytes()),
        ascii::at(d, t + 7, trailer_dict(test_pdf::digits(size), test_pdf::digits(root), extra)),
        size <= i64::MAX,
        root <= u32::MAX,
        entries_read(d, after_root(t + 7, size, root), more, end),
        !tokenizer::is_regular(d[after_root(t + 7, size, root)]),
    ensures
        table_read(d, t, Section { entries: Seq::empty(), trailer: trailer_of(size, root, more) }),
        is_solid(d[t]),
        t + 7 < d.len(),
{
    lemma_words();
    let word = "trailer".spec_bytes();
    lemma_at_bytes(d, t, word);
    assert(d[t + 0] == word[0]);
    lemma_trailer_parts(d, t + 7, test_pdf::digits(size), test_pdf::digits(root), extra);
    lemma_trailer_dict(d, t + 7, size, root, extra, more, end);
    lemma_no_space(d, t);
    lemma_table_end(d, t, trailer_of(size, root, more));
}

/// The rows of an assembled file's table are read as its entries.
proof fn lemma_table_rows(d: Seq<u8>, start: int, objects: Seq<Seq<u8>>)
    requires
        ascii::at(d, start, test_pdf::table(objects)),
        start + test_pdf::table(objects).len() < d.len(),
        is_solid(d[start + test_pdf::table(objects).len()]),
        objects.len() < u32::MAX,
        d.len() <= usize::MAX,
        test_pdf::offset_of(objects, objects.len()) <= d.len(),
    ensures
        table_opened(d, start),
        subsection_read(
            d,
            start + 4,
            entries_of(objects),
            start + test_pdf::table(objects).len(),
        ),
{
    reveal(table_opened);
    reveal(subsection_read);
    lemma_table(d, start, objects);
    assert(test_pdf::table(objects).len() > 4) by {
        reveal(test_pdf::table);
        lemma_words();
        lemma_table_head();
    }
    lemma_no_keyword(d, start + 5);
}

/// The section of an assembled file, once its parts are in place.
#[verifier::spinoff_prover]
#[verifier::rlimit(50)]
proof fn lemma_section(
    d: Seq<u8>,
    start: int,
    objects: Seq<Seq<u8>>,
    root: nat,
    extra: Seq<u8>,
    more: Map<Seq<u8>, Obj>,
    end: int,
)
    requires
        0 <= start,
        ascii::at(d, start, test_pdf::table(objects)),
        ascii::at(d, start + test_pdf::table(objects).len(), "trailer".spec_bytes()),
        ascii::at(
            d,
            start + test_pdf::table(objects).len() + 7,
            trailer_dict(test_pdf::digits(objects.len() + 1), test_pdf::digits(root), extra),
        ),
        entries_read(
            d,
            after_root(
                start + test_pdf::table(objects).len() + 7,
                objects.len() + 1,
                root,
            ),
            more,
            end,
        ),
        !tokenizer::is_regular(
            d[after_root(
                start + test_pdf::table(objects).len() + 7,
                objects.len() + 1,
                root,
            )],
        ),
        objects.len() < u32::MAX,
        root <= u32::MAX,
        d.len() <= usize::MAX,
        test_pdf::offset_of(objects, objects.len()) <= d.len(),
    ensures
        xref::section_at(d, start) == Some(
            Section {
                entries: entries_of(objects),
                trailer: trailer_of(objects.len() + 1, root, more),
            },
        ),
{
    let t = (start + test_pdf::table(objects).len()) as int;
    let m = trailer_of(objects.len() + 1, root, more);
    let none = Seq::<((u32, u16), XrefEntry)>::empty();
    lemma_trailer(d, t, objects.len() + 1, root, extra, more, end);
    lemma_table_rows(d, start, objects);
    lemma_subsection(
        d,
        start + 4,
        entries_of(objects),
        t,
        Section { entries: none, trailer: m },
    );
    assert(entries_of(objects) + none =~= entries_of(objects));
    lemma_section_table(d, start, Section { entries: entries_of(objects), trailer: m });
}

/// A chain of one section.
proof fn lemma_chain_of_one(d: Seq<u8>, start: nat, section: Section)
    requires
        start < d.len(),
        xref::start_offset(d) == Some(start),
        xref::section_at(d, start as int) == Some(section),
        !section.trailer.contains_key("Prev".spec_bytes()),
        xref::distinct(section.entries),
    ensures
        xref::xref_chain(d) == Some((section.entries, section.trailer)),
{
    lemma_added_all(section.entries);
}

/// The parts of an assembled file stand where they belong.
#[verifier::opaque]
spec fn parts_placed(d: Seq<u8>, objects: Seq<Seq<u8>>, root: nat, extra: Seq<u8>) -> bool {
    let start = test_pdf::offset_of(objects, objects.len());
    let dict = trailer_dict(test_pdf::digits(objects.len() + 1), test_pdf::digits(root), extra);
    let t = start + test_pdf::table(objects).len();
    let u = t + 7 + dict.len() + 1;
    &&& ascii::at(d, 0, test_pdf::bodies(objects, objects.len()))
    &&& ascii::at(d, start as int, test_pdf::table(objects))
    &&& ascii::at(d, t as int, "trailer".spec_bytes())
    &&& ascii::at(d, (t + 7) as int, dict)
    &&& ascii::at(d, u as int, start_lines(start))
    &&& d.len() == u + start_lines(start).len()
}

/// Pieces that follow one another stand one after the other.
proof fn lemma_placed(
    bodies: Seq<u8>,
    table: Seq<u8>,
    word: Seq<u8>,
    dict: Seq<u8>,
    line: Seq<u8>,
    end: Seq<u8>,
)
    ensures
        ({
            let d = bodies + table + (word + dict + line + end);
            let t = (bodies.len() + table.len()) as int;
            &&& ascii::at(d, 0, bodies)
            &&& ascii::at(d, bodies.len() as int, table)
            &&& ascii::at(d, t, word)
            &&& ascii::at(d, (t + word.len()) as int, dict)
            &&& ascii::at(d, (t + word.len() + dict.len() + line.len()) as int, end)
            &&& d.len() == t + word.len() + dict.len() + line.len() + end.len()
        }),
{
    let d = bodies + table + (word + dict + line + end);
    let t = (bodies.len() + table.len()) as int;
    assert(d.subrange(0, d.len() as int) =~= d);
    lemma_at_concat(d, 0, bodies + table, word + dict + line + end);
    lemma_at_concat(d, 0, bodies, table);
    lemma_at_concat(d, t, word + dict + line, end);
    lemma_at_concat(d, t, word + dict, line);
    lemma_at_concat(d, t, word, dict);
}

#[verifier::spinoff_prover]
#[verifier::rlimit(50)]
proof fn lemma_assembled_parts(objects: Seq<Seq<u8>>, root: nat, extra: Seq<u8>)
    ensures
        parts_placed(test_pdf::assembled(objects, root, extra), objects, root, extra),
{
    reveal(parts_placed);
    reveal(test_pdf::assembled);
    let n = objects.len();
    let bodies = test_pdf::bodies(objects, n);
    let table = test_pdf::table(objects);
    let start = bodies.len();
    let word = "trailer".spec_bytes();
    let dict = trailer_dict(test_pdf::digits(n + 1), test_pdf::digits(root), extra);
    lemma_ending(n + 1, root, extra, start);
    assert(word.len() == 7) by {
        lemma_words();
    }
    lemma_placed(bodies, table, word, dict, seq![0x0au8], start_lines(start));
}

proof fn lemma_start_read(d: Seq<u8>, objects: Seq<Seq<u8>>, root: nat, extra: Seq<u8>)
    requires
        parts_placed(d, objects, root, extra),
    ensures
        xref::start_offset(d) == Some(test_pdf::offset_of(objects, objects.len())),
        test_pdf::offset_of(objects, objects.len()) < d.len(),
{
    reveal(parts_placed);
    let start = test_pdf::offset_of(objects, objects.len());
    assert(start_lines(start).len() == 17 + test_pdf::digits(start).len()) by {
        reveal(start_lines);
        lemma_words();
    }
    let u = d.len() - start_lines(start).len();
    lemma_start(d, u, start);
}

proof fn lemma_section_read(
    d: Seq<u8>,
    objects: Seq<Seq<u8>>,
    root: nat,
    extra: Seq<u8>,
    more: Map<Seq<u8>, Obj>,
    end: int,
)
    requires
        parts_placed(d, objects, root, extra),
        entries_read(d, extra_start(objects, root), more, end),
        !tokenizer::is_regular(d[extra_start(objects, root)]),
        objects.len() < u32::MAX,
        root <= u32::MAX,
        d.len() <= usize::MAX,
    ensures
        xref::section_at(d, test_pdf::offset_of(objects, objects.len()) as int) == Some(
            Section {
                entries: entries_of(objects),
                trailer: trailer_of(objects.len() + 1, root, more),
            },
        ),
{
    reveal(parts_placed);
    lemma_section(
        d,
        test_pdf::offset_of(objects, objects.len()) as int,
        objects,
        root,
        extra,
        more,
        end,
    );
}

/// Where what is appended inside the trailer's dictionary starts in an assembled file.
pub open spec fn extra_start(objects: Seq<Seq<u8>>, root: nat) -> int {
    (test_pdf::offset_of(objects, objects.len()) + test_pdf::table(objects).len() + 26
        + test_pdf::digits(objects.len() + 1).len() + test_pdf::digits(root).len()) as int
}

/// Whether `extra`, where it stands in the trailer of an assembled file, is the entries `more`:
/// nothing, or something that starts with a byte which ends the reference before it, and that
/// is read as those entries.
pub open spec fn states(
    objects: Seq<Seq<u8>>,
    root: nat,
    extra: Seq<u8>,
    more: Map<Seq<u8>, Obj>,
) -> bool {
    if extra.len() == 0 {
        more == Map::<Seq<u8>, Obj>::empty()
    } else {
        &&& !tokenizer::is_regular(extra[0])
        &&& tokenizer::entries_at(
            test_pdf::assembled(objects, root, extra),
            extra_start(objects, root),
            (tokenizer::MAX_DEPTH - 1) as nat,
        ) matches Some((m, _)) && m == more
    }
}

/// The brackets that close the trailer's dictionary, or what comes before them.
proof fn lemma_extra_bytes(objects: Seq<Seq<u8>>, root: nat, extra: Seq<u8>)
    ensures
        ascii::at(
            test_pdf::assembled(objects, root, extra),
            extra_start(objects, root),
            extra + seq![0x3eu8, 0x3e],
        ),
{
    let d = test_pdf::assembled(objects, root, extra);
    let n = objects.len();
    let s = test_pdf::digits(n + 1);
    let r = test_pdf::digits(root);
    let p = (test_pdf::offset_of(objects, n) + test_pdf::table(objects).len() + 7) as int;
    assert(ascii::at(d, p, trailer_dict(s, r, extra))) by {
        lemma_assembled_parts(objects, root, extra);
        reveal(parts_placed);
    }
    lemma_trailer_parts(d, p, s, r, extra);
}

/// What is appended inside the trailer's dictionary is read as what it states.
proof fn lemma_extra_read(
    objects: Seq<Seq<u8>>,
    root: nat,
    extra: Seq<u8>,
    more: Map<Seq<u8>, Obj>,
) -> (end: int)
    requires
        states(objects, root, extra, more),
    ensures
        entries_read(
            test_pdf::assembled(objects, root, extra),
            extra_start(objects, root),
            more,
            end,
        ),
        !tokenizer::is_regular(
            test_pdf::assembled(objects, root, extra)[extra_start(objects, root)],
        ),
{
    let d = test_pdf::assembled(objects, root, extra);
    let e = extra_start(objects, root);
    let close = seq![0x3eu8, 0x3e];
    lemma_extra_bytes(objects, root, extra);
    lemma_at_bytes(d, e, extra + close);
    assert(d[e + 0] == (extra + close)[0]);
    reveal(entries_read);
    if extra.len() == 0 {
        assert(extra + close =~= close);
        assert(d[e + 1] == close[1]);
        lemma_close(d, e, (tokenizer::MAX_DEPTH - 1) as nat);
        e + 2
    } else {
        let (_, end) = tokenizer::entries_at(d, e, (tokenizer::MAX_DEPTH - 1) as nat)->0;
        end
    }
}

/// The trailer of an assembled file names no older table unless something was appended that
/// does.
proof fn lemma_no_older_table(size: nat, root: nat, more: Map<Seq<u8>, Obj>)
    requires
        !more.contains_key("Prev".spec_bytes()),
    ensures
        !trailer_of(size, root, more).contains_key("Prev".spec_bytes()),
{
    lemma_words();
    assert("Prev".spec_bytes()[0] != "Size".spec_bytes()[0]);
    assert("Prev".spec_bytes()[0] != "Root".spec_bytes()[0]);
}

/// The table and the trailer of an assembled file are read back: each object is where it was
/// put, the catalog is the one that was named, and the trailer has the entries that were
/// appended, which name no older table.
pub proof fn an_assembled_table_is_read_back(
    objects: Seq<Seq<u8>>,
    root: nat,
    extra: Seq<u8>,
    more: Map<Seq<u8>, Obj>,
)
    requires
        objects.len() < u32::MAX,
        root <= u32::MAX,
        test_pdf::assembled(objects, root, extra).len() <= usize::MAX,
        states(objects, root, extra, more),
        !more.contains_key("Prev".spec_bytes()),
    ensures
        xref::xref_chain(test_pdf::assembled(objects, root, extra)) == Some(
            (entries_of(objects), trailer_of(objects.len() + 1, root, more)),
        ),
{
    let d = test_pdf::assembled(objects, root, extra);
    let n = objects.len();
    lemma_assembled_parts(objects, root, extra);
    lemma_start_read(d, objects, root, extra);
    let end = lemma_extra_read(objects, root, extra, more);
    lemma_section_read(d, objects, root, extra, more, end);
    lemma_entries_distinct(objects);
    lemma_no_older_table(n + 1, root, more);
    lemma_chain_of_one(
        d,
        test_pdf::offset_of(objects, n),
        Section { entries: entries_of(objects), trailer: trailer_of(n + 1, root, more) },
    );
}

/// The bytes of the header.
proof fn lemma_header_at(d: Seq<u8>)
    requires
        ascii::at(d, 0, "%PDF-1.4\n".spec_bytes()),
    ensures
        ascii::at(d, 0, "%PDF-".spec_bytes()),
        d.len() >= 9,
        d[5] == 0x31,
        d[6] == 0x2e,
        d[7] == 0x34,
        d[8] == 0x0a,
{
    lemma_header();
    let rest = seq![0x31u8, 0x2e, 0x34, 0x0a];
    assert("%PDF-".spec_bytes().len() == 5) by {
        lemma_words();
    }
    lemma_at_concat(d, 0, "%PDF-".spec_bytes(), rest);
    lemma_at_bytes(d, 5, rest);
    assert(d[5] == rest[0] && d[6] == rest[1] && d[7] == rest[2] && d[8] == rest[3]);
}

/// The version that a header states.
#[verifier::spinoff_prover]
#[verifier::rlimit(50)]
proof fn lemma_version_of(d: Seq<u8>)
    requires
        ascii::at(d, 0, "%PDF-1.4\n".spec_bytes()),
    ensures
        document::version_of(d) == Ok::<Seq<char>, ErrorSpec>("1.4"@),
{
    lemma_header_at(d);
    assert(document::version_end(d) == 8) by {
        reveal_with_fuel(ascii::run_end, 4);
    }
    assert(d.subrange(5, 8) == "1.4".spec_bytes()) by {
        reveal_strlit("1.4");
        assert("1.4".is_ascii());
        is_ascii_spec_bytes("1.4");
        assert(d.subrange(5, 8) =~= "1.4".spec_bytes());
    }
    encode_utf8_valid_utf8("1.4"@);
    encode_utf8_decode_utf8("1.4"@);
}

/// An assembled file starts with the header.
proof fn lemma_header_first(objects: Seq<Seq<u8>>, root: nat, extra: Seq<u8>)
    ensures
        ascii::at(
            test_pdf::assembled(objects, root, extra),
            0,
            "%PDF-1.4\n".spec_bytes(),
        ),
{
    let d = test_pdf::assembled(objects, root, extra);
    let head = "%PDF-1.4\n".spec_bytes();
    let whole = test_pdf::bodies(objects, objects.len());
    assert(ascii::at(d, 0, whole)) by {
        lemma_assembled_parts(objects, root, extra);
        reveal(parts_placed);
    }
    test_pdf::lemma_bodies_prefix(objects, 0, objects.len());
    assert(d.subrange(0, whole.len() as int).take(head.len() as int) =~= d.subrange(
        0,
        head.len() as int,
    ));
}

/// Where no entry places an object in an object stream, there is nothing to extract.
proof fn lemma_nothing_packed(
    objects: Map<(u32, u16), Obj>,
    entries: Seq<((u32, u16), XrefEntry)>,
)
    requires
        forall|i: int| 0 <= i < entries.len() ==> !((#[trigger] entries[i]).1 is Compressed),
    ensures
        document::unpacked_objects(objects, entries) == objects,
        document::packed_skipped(objects, entries) == 0,
    decreases entries.len(),
{
    if entries.len() > 0 {
        assert(entries[entries.len() - 1] == entries.last());
        assert forall|i: int| 0 <= i < entries.drop_last().len() implies !((
        #[trigger] entries.drop_last()[i]).1 is Compressed) by {
            assert(entries.drop_last()[i] == entries[i]);
        }
        lemma_nothing_packed(objects, entries.drop_last());
    }
}

/// An assembled file is opened: with the version of its header, the trailer that was written,
/// and each object that can be parsed where it was put.
pub proof fn an_assembled_file_opens(
    objects: Seq<Seq<u8>>,
    root: nat,
    extra: Seq<u8>,
    more: Map<Seq<u8>, Obj>,
)
    requires
        objects.len() < u32::MAX,
        root <= u32::MAX,
        test_pdf::assembled(objects, root, extra).len() <= usize::MAX,
        states(objects, root, extra, more),
        !more.contains_key("Prev".spec_bytes()),
    ensures
        ({
            let d = test_pdf::assembled(objects, root, extra);
            document::opened(d) == Ok::<(DocSpec, Seq<((u32, u16), XrefEntry)>), ErrorSpec>(
                (
                    DocSpec {
                        objects: document::direct_objects(d, entries_of(objects)),
                        trailer: trailer_of(objects.len() + 1, root, more),
                        version: "1.4"@,
                        skipped: document::direct_skipped(d, entries_of(objects)),
                    },
                    entries_of(objects),
                ),
            )
        }),
{
    an_assembled_table_is_read_back(objects, root, extra, more);
    lemma_header_first(objects, root, extra);
    lemma_version_of(test_pdf::assembled(objects, root, extra));
    reveal(document::opened);
}

/// An assembled file to which no encryption dictionary was appended loads as it was opened,
/// whatever password is offered.
pub proof fn an_assembled_file_loads(
    objects: Seq<Seq<u8>>,
    root: nat,
    extra: Seq<u8>,
    more: Map<Seq<u8>, Obj>,
    password: Option<Seq<u8>>,
)
    requires
        objects.len() < u32::MAX,
        root <= u32::MAX,
        test_pdf::assembled(objects, root, extra).len() <= usize::MAX,
        states(objects, root, extra, more),
        !more.contains_key("Prev".spec_bytes()),
        !more.contains_key("Encrypt".spec_bytes()),
    ensures
        ({
            let d = test_pdf::assembled(objects, root, extra);
            document::loaded(d, password) == Ok::<DocSpec, ErrorSpec>(
                DocSpec {
                    objects: document::direct_objects(d, entries_of(objects)),
                    trailer: trailer_of(objects.len() + 1, root, more),
                    version: "1.4"@,
                    skipped: document::direct_skipped(d, entries_of(objects)),
                },
            )
        }),
{
    let d = test_pdf::assembled(objects, root, extra);
    let entries = entries_of(objects);
    an_assembled_file_opens(objects, root, extra, more);
    assert(!trailer_of(objects.len() + 1, root, more).contains_key("Encrypt".spec_bytes())) by {
        lemma_words();
        assert("Encrypt".spec_bytes()[0] != "Size".spec_bytes()[0]);
        assert("Encrypt".spec_bytes()[0] != "Root".spec_bytes()[0]);
    }
    assert forall|i: int| 0 <= i < entries.len() implies !((#[trigger] entries[i]).1 is
        Compressed) by {
        if i > 0 {
            assert(entries[i] == entry_of(objects, i - 1));
        }
    }
    lemma_nothing_packed(document::direct_objects(d, entries), entries);
}

/// Where the text of the object at place `i` starts, after its number and the word for it.
pub open spec fn text_start(objects: Seq<Seq<u8>>, i: nat) -> int {
    (test_pdf::offset_of(objects, i) + test_pdf::digits(i + 1).len() + 6) as int
}

/// An object that has a number in front.
#[verifier::spinoff_prover]
#[verifier::rlimit(50)]
proof fn lemma_numbered_object(d: Seq<u8>, p: int, s: Seq<u8>)
    requires
        ascii::at(d, p, s + " 0 obj\n".spec_bytes()),
        s.len() > 0,
        all_digits(s),
    ensures
        tokenizer::object_at(d, p) == tokenizer::indirect_at(d, p + s.len() + 6),
{
    let word = "obj".spec_bytes();
    assert(word.len() == 3 && word[0] == 0x6f) by {
        lemma_words();
    }
    let pair = s + seq![0x20u8] + seq![0x30u8] + seq![0x20u8];
    assert(s + " 0 obj\n".spec_bytes() =~= pair + (word + seq![0x0au8])) by {
        lemma_object_line();
    }
    lemma_at_concat(d, p, pair, word + seq![0x0au8]);
    let q = (p + s.len() + 3) as int;
    assert(pair.len() == s.len() + 3);
    lemma_at_concat(d, q, word, seq![0x0au8]);
    lemma_at_byte(d, q + 3, 0x0a);
    lemma_at_bytes(d, q, word);
    assert(d[q + 0] == word[0]);
    lemma_pair_at(d, p, s, 0x20, seq![0x30u8], 0x20);
    assert(is_solid(d[p])) by {
        lemma_at_concat(d, p, s + seq![0x20u8] + seq![0x30u8], seq![0x20u8]);
        lemma_at_concat(d, p, s + seq![0x20u8], seq![0x30u8]);
        lemma_at_concat(d, p, s, seq![0x20u8]);
        lemma_at_bytes(d, p, s);
        assert(d[p + 0] == s[0]);
    }
    lemma_no_space(d, p);
    reveal(tokenizer::object_at);
}

/// What is read where an object was put is what follows its number.
proof fn lemma_object_in_place(objects: Seq<Seq<u8>>, root: nat, extra: Seq<u8>, i: nat)
    requires
        i < objects.len(),
    ensures
        ({
            let d = test_pdf::assembled(objects, root, extra);
            tokenizer::object_at(d, test_pdf::offset_of(objects, i) as int)
                == tokenizer::indirect_at(d, text_start(objects, i))
        }),
{
    let d = test_pdf::assembled(objects, root, extra);
    let p = test_pdf::offset_of(objects, i) as int;
    let s = test_pdf::digits(i + 1);
    test_pdf::offsets_are_right(objects, root, extra, i);
    lemma_at_concat(d, p, s + " 0 obj\n".spec_bytes(), objects[i as int]);
    lemma_digits(i + 1);
    lemma_numbered_object(d, p, s);
}

/// An object of an assembled file is what its text states: once the file is opened, its number
/// gives what parsing gives right after the word that opens it.
pub proof fn an_assembled_object_is_read_back(
    objects: Seq<Seq<u8>>,
    root: nat,
    extra: Seq<u8>,
    more: Map<Seq<u8>, Obj>,
    i: nat,
)
    requires
        i < objects.len() < u32::MAX,
        root <= u32::MAX,
        test_pdf::assembled(objects, root, extra).len() <= usize::MAX,
        states(objects, root, extra, more),
        !more.contains_key("Prev".spec_bytes()),
    ensures
        ({
            let d = test_pdf::assembled(objects, root, extra);
            document::opened(d) matches Ok((doc, _)) && document::object_of(
                doc.objects,
                ((i + 1) as u32, 0),
            ) == (match tokenizer::indirect_at(d, text_start(objects, i)) {
                Some((o, _)) => Some(o),
                None => None,
            })
        }),
{
    let d = test_pdf::assembled(objects, root, extra);
    let entries = entries_of(objects);
    an_assembled_file_opens(objects, root, extra, more);
    lemma_entries_distinct(objects);
    let k = i as int + 1;
    assert(entries[k] == entry_of(objects, i as int));
    document_laws::lemma_direct_object(d, entries, k);
    lemma_object_in_place(objects, root, extra, i);
    test_pdf::offsets_are_right(objects, root, extra, i);
}

/// A stream object is its dictionary, a line that says `stream`, its data to the last byte, and a
/// line that says `endstream`.
pub proof fn a_stream_stands_between_its_lines(dict: Seq<u8>, data: Seq<u8>)
    ensures
        test_pdf::stream_body(dict, data) == dict + seq![0x0au8, 0x73, 0x74, 0x72, 0x65, 0x61, 0x6d, 0x0a] + data + seq![0x0au8, 0x65, 0x6e, 0x64, 0x73, 0x74, 0x72, 0x65, 0x61, 0x6d],
{
    reveal_strlit("\nstream\n");
    assert("\nstream\n".is_ascii());
    is_ascii_spec_bytes("\nstream\n");
    assert("\nstream\n".spec_bytes() =~= seq![0x0au8, 0x73, 0x74, 0x72, 0x65, 0x61, 0x6d, 0x0a]);
    reveal_strlit("\nendstream");
    assert("\nendstream".is_ascii());
    is_ascii_spec_bytes("\nendstream");
    assert("\nendstream".spec_bytes() =~= seq![0x0au8, 0x65, 0x6e, 0x64, 0x73, 0x74, 0x72, 0x65, 0x61, 0x6d]);
}

/// The file starts with its header, and each object stands on lines of its own behind those
/// before it: its number and `0 obj`, its body, and `endobj`.
pub proof fn objects_stand_on_lines_of_their_own(objects: Seq<Seq<u8>>, n: nat)
    requires
        n < objects.len(),
    ensures
        test_pdf::bodies(objects, 0) == seq![0x25u8, 0x50, 0x44, 0x46, 0x2d, 0x31, 0x2e, 0x34, 0x0a],
        test_pdf::bodies(objects, n + 1) == test_pdf::bodies(objects, n) + test_pdf::digits(n + 1)
            + seq![0x20u8, 0x30, 0x20, 0x6f, 0x62, 0x6a, 0x0a] + objects[n as int] + seq![0x0au8, 0x65, 0x6e, 0x64, 0x6f, 0x62, 0x6a, 0x0a],
{
    reveal_strlit("%PDF-1.4\n");
    assert("%PDF-1.4\n".is_ascii());
    is_ascii_spec_bytes("%PDF-1.4\n");
    assert("%PDF-1.4\n".spec_bytes() =~= seq![0x25u8, 0x50, 0x44, 0x46, 0x2d, 0x31, 0x2e, 0x34, 0x0a]);
    reveal_strlit(" 0 obj\n");
    assert(" 0 obj\n".is_ascii());
    is_ascii_spec_bytes(" 0 obj\n");
    assert(" 0 obj\n".spec_bytes() =~= seq![0x20u8, 0x30, 0x20, 0x6f, 0x62, 0x6a, 0x0a]);
    reveal_strlit("\nendobj\n");
    assert("\nendobj\n".is_ascii());
    is_ascii_spec_bytes("\nendobj\n");
    assert("\nendobj\n".spec_bytes() =~= seq![0x0au8, 0x65, 0x6e, 0x64, 0x6f, 0x62, 0x6a, 0x0a]);
}

/// A row of the table has twenty bytes: the offset of its object in ten digits, and then
/// ` 00000 n ` and the end of the line.
pub proof fn each_row_states_where_its_object_starts(objects: Seq<Seq<u8>>, n: nat)
    requires
        n < objects.len(),
        test_pdf::bodies(objects, n).len() < 10000000000,
    ensures
        ({
            let before = test_pdf::rows(objects, n);
            let row = test_pdf::rows(objects, n + 1).skip(before.len() as int);
            &&& test_pdf::rows(objects, n + 1).take(before.len() as int) == before
            &&& row.len() == 20
            &&& all_digits(row.take(10))
            &&& ascii::decimal_value(row.take(10)) == test_pdf::bodies(objects, n).len()
            &&& row.skip(10) == seq![0x20u8, 0x30, 0x30, 0x30, 0x30, 0x30, 0x20, 0x6e, 0x20, 0x0a]
        }),
{
    reveal_strlit(" 00000 n \n");
    assert(" 00000 n \n".is_ascii());
    is_ascii_spec_bytes(" 00000 n \n");
    assert(" 00000 n \n".spec_bytes() =~= seq![0x20u8, 0x30, 0x30, 0x30, 0x30, 0x30, 0x20, 0x6e, 0x20, 0x0a]);
    let before = test_pdf::rows(objects, n);
    let all = test_pdf::rows(objects, n + 1);
    let s = test_pdf::digits(test_pdf::bodies(objects, n).len());
    lemma_digits(test_pdf::bodies(objects, n).len());
    lemma_ten_digits(test_pdf::bodies(objects, n).len());
    lemma_padded_to_ten(s);
    let p = test_pdf::zero_padded(s);
    assert(all == before + p + " 00000 n \n".spec_bytes());
    let row = all.skip(before.len() as int);
    assert(row.take(10) =~= p);
    assert(row.skip(10) =~= " 00000 n \n".spec_bytes());
}

/// A number of at most ten digits has at most ten digits in writing.
proof fn lemma_ten_digits(n: nat)
    requires
        n < 10000000000,
    ensures
        test_pdf::digits(n).len() <= 10,
{
    reveal_with_fuel(test_pdf::digits, 11);
}

/// Zeros in front fill a number up to ten digits and leave its value.
proof fn lemma_padded_to_ten(s: Seq<u8>)
    requires
        s.len() <= 10,
        all_digits(s),
    ensures
        test_pdf::zero_padded(s).len() == 10,
        all_digits(test_pdf::zero_padded(s)),
        ascii::decimal_value(test_pdf::zero_padded(s)) == ascii::decimal_value(s),
    decreases 10 - s.len(),
{
    if s.len() < 10 {
        let t = seq!['0' as u8] + s;
        assert forall|i: int| 0 <= i < t.len() implies ascii::is_digit(#[trigger] t[i]) by {
            if i > 0 {
                assert(t[i] == s[i - 1]);
            }
        }
        lemma_leading_zero(s);
        lemma_padded_to_ten(t);
    }
}

/// A number in words has the digits of the number.
pub proof fn a_number_in_words_has_its_digits(n: nat)
    ensures
        ascii::decimal(n).len() == test_pdf::digits(n).len(),
        forall|i: int|
            0 <= i < ascii::decimal(n).len() ==> (#[trigger] ascii::decimal(n)[i]) as int
                == test_pdf::digits(n)[i],
    decreases n,
{
    if n >= 10 {
        a_number_in_words_has_its_digits(n / 10);
    }
}

} // verus!
