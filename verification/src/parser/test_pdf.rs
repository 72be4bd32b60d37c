//! Small PDF files, assembled byte by byte.
//!
//! A file that is assembled cannot go missing, and whoever assembles it says exactly which
//! bytes matter.

use vstd::prelude::*;
use vstd::string::*;

use super::raw::ascii;
use super::raw::ascii::push_decimal;
use super::raw::crypt::append_bytes;
use super::raw::object::copy_bytes;

verus! {

/// `n` in decimal digits.
pub open spec fn digits(n: nat) -> Seq<u8>
    decreases n,
{
    if n < 10 {
        seq![('0' as u8 + n) as u8]
    } else {
        digits(n / 10).push(('0' as u8 + n % 10) as u8)
    }
}

/// `s` with zeros in front, ten bytes long or longer.
pub open spec fn zero_padded(s: Seq<u8>) -> Seq<u8>
    decreases 10 - s.len(),
{
    if s.len() >= 10 {
        s
    } else {
        zero_padded(seq!['0' as u8] + s)
    }
}

/// What a list of byte strings is.
pub open spec fn byte_strings(s: Seq<Vec<u8>>) -> Seq<Seq<u8>> {
    Seq::new(s.len(), |i: int| s[i]@)
}

/// The header and the first `n` of `objects`, numbered from 1.
pub open spec fn bodies(objects: Seq<Seq<u8>>, n: nat) -> Seq<u8>
    decreases n,
{
    if n == 0 {
        "%PDF-1.4\n".spec_bytes()
    } else {
        bodies(objects, (n - 1) as nat) + digits(n) + " 0 obj\n".spec_bytes() + objects[n - 1]
            + "\nendobj\n".spec_bytes()
    }
}

/// Where the object with the number `i + 1` starts.
pub open spec fn offset_of(objects: Seq<Seq<u8>>, i: nat) -> nat {
    bodies(objects, i).len()
}

/// The rows of the cross-reference table for the first `n` of `objects`.
pub open spec fn rows(objects: Seq<Seq<u8>>, n: nat) -> Seq<u8>
    decreases n,
{
    if n == 0 {
        Seq::empty()
    } else {
        rows(objects, (n - 1) as nat) + zero_padded(digits(offset_of(objects, (n - 1) as nat)))
            + " 00000 n \n".spec_bytes()
    }
}

/// The cross-reference table of a file of `objects`.
#[verifier::opaque]
pub open spec fn table(objects: Seq<Seq<u8>>) -> Seq<u8> {
    "xref\n0 ".spec_bytes() + digits(objects.len() + 1) + "\n0000000000 65535 f \n".spec_bytes()
        + rows(objects, objects.len())
}

/// The end of a file: its trailer, and where its cross-reference table starts.
#[verifier::opaque]
pub open spec fn ending(size: nat, root: nat, extra: Seq<u8>, start: nat) -> Seq<u8> {
    "trailer\n<</Size ".spec_bytes() + digits(size) + "/Root ".spec_bytes() + digits(root)
        + " 0 R".spec_bytes() + extra + ">>\nstartxref\n".spec_bytes() + digits(start)
        + "\n%%EOF\n".spec_bytes()
}

/// A file of `objects`.
#[verifier::opaque]
pub open spec fn assembled(objects: Seq<Seq<u8>>, root: nat, extra: Seq<u8>) -> Seq<u8> {
    bodies(objects, objects.len()) + table(objects) + ending(
        objects.len() + 1,
        root,
        extra,
        offset_of(objects, objects.len()),
    )
}

/// Appends the bytes of `s`.
fn push_str(out: &mut Vec<u8>, s: &str)
    ensures
        final(out)@ == old(out)@ + s.spec_bytes(),
{
    append_bytes(out, s.as_bytes());
}

/// Appends `n` in decimal digits.
fn push_digits(out: &mut Vec<u8>, n: u128)
    ensures
        final(out)@ == old(out)@ + digits(n as nat),
    decreases n,
{
    if n >= 10 {
        push_digits(out, n / 10);
    }
    out.push('0' as u8 + (n % 10) as u8);
    assert(out@ =~= old(out)@ + digits(n as nat));
}

/// Appends `n` in at least ten decimal digits.
fn push_padded(out: &mut Vec<u8>, n: usize)
    ensures
        final(out)@ == old(out)@ + zero_padded(digits(n as nat)),
{
    let mut number: Vec<u8> = Vec::new();
    push_digits(&mut number, n as u128);
    assert(number@ =~= digits(n as nat));
    while number.len() < 10
        invariant
            zero_padded(number@) == zero_padded(digits(n as nat)),
        decreases 10 - number@.len(),
    {
        let ghost before = number@;
        number.insert(0, '0' as u8);
        assert(number@ =~= seq!['0' as u8] + before);
    }
    append_bytes(out, number.as_slice());
}

/// Wraps `objects`, numbered from 1 in the order given, in a header, a cross-reference table
/// and a trailer whose `/Root` is object `root`.
pub fn pdf(objects: Vec<Vec<u8>>, root: usize) -> (out: Vec<u8>)
    ensures
        out@ == assembled(byte_strings(objects@), root as nat, Seq::empty()),
{
    let out = pdf_with_trailer(objects, root, "");
    proof {
        reveal_strlit("");
        assert("".spec_bytes() =~= Seq::<u8>::empty());
    }
    out
}

/// As [`pdf`], with `extra` appended inside the trailer dictionary (`/Encrypt`, `/ID`, ...).
pub fn pdf_with_trailer(objects: Vec<Vec<u8>>, root: usize, extra: &str) -> (out: Vec<u8>)
    ensures
        out@ == assembled(byte_strings(objects@), root as nat, extra.spec_bytes()),
{
    reveal(table);
    reveal(ending);
    reveal(assembled);
    let ghost all = byte_strings(objects@);
    let mut out: Vec<u8> = Vec::new();
    push_str(&mut out, "%PDF-1.4\n");
    assert(out@ =~= bodies(all, 0));
    let mut offsets: Vec<usize> = Vec::new();
    let mut i: usize = 0;
    while i < objects.len()
        invariant
            i <= objects@.len(),
            all == byte_strings(objects@),
            out@ == bodies(all, i as nat),
            offsets@.len() == i,
            forall|j: int| 0 <= j < i ==> #[trigger] offsets@[j] == offset_of(all, j as nat),
        decreases objects@.len() - i,
    {
        offsets.push(out.len());
        push_digits(&mut out, i as u128 + 1);
        push_str(&mut out, " 0 obj\n");
        append_bytes(&mut out, objects[i].as_slice());
        push_str(&mut out, "\nendobj\n");
        assert(out@ =~= bodies(all, (i + 1) as nat));
        i += 1;
    }
    let xref_start: usize = out.len();
    let mut table_bytes: Vec<u8> = Vec::new();
    push_str(&mut table_bytes, "xref\n0 ");
    push_digits(&mut table_bytes, objects.len() as u128 + 1);
    push_str(&mut table_bytes, "\n0000000000 65535 f \n");
    let ghost before = table_bytes@;
    i = 0;
    assert(before + rows(all, 0) =~= before);
    while i < offsets.len()
        invariant
            i <= offsets@.len(),
            offsets@.len() == all.len(),
            table_bytes@ == before + rows(all, i as nat),
            forall|j: int|
                0 <= j < offsets@.len() ==> #[trigger] offsets@[j] == offset_of(all, j as nat),
        decreases offsets@.len() - i,
    {
        push_padded(&mut table_bytes, offsets[i]);
        push_str(&mut table_bytes, " 00000 n \n");
        assert(table_bytes@ =~= before + rows(all, (i + 1) as nat));
        i += 1;
    }
    assert(table_bytes@ =~= table(all));
    append_bytes(&mut out, table_bytes.as_slice());
    let mut end_bytes: Vec<u8> = Vec::new();
    push_str(&mut end_bytes, "trailer\n<</Size ");
    push_digits(&mut end_bytes, objects.len() as u128 + 1);
    push_str(&mut end_bytes, "/Root ");
    push_digits(&mut end_bytes, root as u128);
    push_str(&mut end_bytes, " 0 R");
    push_str(&mut end_bytes, extra);
    push_str(&mut end_bytes, ">>\nstartxref\n");
    push_digits(&mut end_bytes, xref_start as u128);
    push_str(&mut end_bytes, "\n%%EOF\n");
    assert(end_bytes@ =~= ending(
        all.len() + 1,
        root as nat,
        extra.spec_bytes(),
        xref_start as nat,
    ));
    append_bytes(&mut out, end_bytes.as_slice());
    out
}

/// The body of a stream object.
pub open spec fn stream_body(dict: Seq<u8>, data: Seq<u8>) -> Seq<u8> {
    dict + "\nstream\n".spec_bytes() + data + "\nendstream".spec_bytes()
}

/// A stream object's body: `dict`, then `data` between `stream` and `endstream`.
pub fn stream(dict: &str, data: &[u8]) -> (out: Vec<u8>)
    ensures
        out@ == stream_body(dict.spec_bytes(), data@),
{
    let mut out: Vec<u8> = copy_bytes(dict.as_bytes());
    push_str(&mut out, "\nstream\n");
    append_bytes(&mut out, data);
    push_str(&mut out, "\nendstream");
    assert(out@ =~= stream_body(dict.spec_bytes(), data@));
    out
}

/// The objects of [`undecryptable_pdf`].
pub open spec fn undecryptable_objects() -> Seq<Seq<u8>> {
    seq![
        "<</Type/Catalog/Pages 2 0 R>>".spec_bytes(),
        "<</Type/Pages/Kids[3 0 R]/Count 1>>".spec_bytes(),
        "<</Type/Page/Parent 2 0 R/MediaBox[0 0 595 842]>>".spec_bytes(),
        "<</Filter/Standard/V 1/R 2/Length 40/P -1/O (01234567890123456789012345678901)/U (01234567890123456789012345678901)>>".spec_bytes(),
    ]
}

/// A document the standard security handler cannot open with any password: the `/U` hash is
/// fixed bytes that no key derivation produces.
///
/// Authentication failing either way isolates the question of *which* failure is reported from
/// whether a key can be derived.
pub fn undecryptable_pdf() -> (out: Vec<u8>)
    ensures
        out@ == assembled(
            undecryptable_objects(),
            1,
            "/Encrypt 4 0 R/ID[(0123456789abcdef)(0123456789abcdef)]".spec_bytes(),
        ),
{
    let mut objects: Vec<Vec<u8>> = Vec::new();
    objects.push(copy_bytes("<</Type/Catalog/Pages 2 0 R>>".as_bytes()));
    objects.push(copy_bytes("<</Type/Pages/Kids[3 0 R]/Count 1>>".as_bytes()));
    objects.push(copy_bytes("<</Type/Page/Parent 2 0 R/MediaBox[0 0 595 842]>>".as_bytes()));
    objects.push(
        copy_bytes(
            "<</Filter/Standard/V 1/R 2/Length 40/P -1/O (01234567890123456789012345678901)/U (01234567890123456789012345678901)>>".as_bytes(),
        ),
    );
    assert(byte_strings(objects@) =~= undecryptable_objects());
    pdf_with_trailer(objects, 1, "/Encrypt 4 0 R/ID[(0123456789abcdef)(0123456789abcdef)]")
}

/// The text drawn by [`one_page_pdf`]'s content stream.
pub fn one_page_content() -> (content: &'static [u8])
    ensures
        content@ == "BT /F1 12 Tf 72 720 Td (Hi) Tj ET".spec_bytes(),
{
    "BT /F1 12 Tf 72 720 Td (Hi) Tj ET".as_bytes()
}

/// The objects of [`one_page_pdf`].
pub open spec fn one_page_objects() -> Seq<Seq<u8>> {
    let content = "BT /F1 12 Tf 72 720 Td (Hi) Tj ET".spec_bytes();
    seq![
        "<</Type/Catalog/Pages 2 0 R>>".spec_bytes(),
        "<</Type/Pages/Kids[3 0 R]/Count 1>>".spec_bytes(),
        "<</Type/Page/Parent 2 0 R/MediaBox[0 0 595 842]/Contents 4 0 R>>".spec_bytes(),
        stream_body(
            vstd::utf8::encode_utf8("<</Length "@ + ascii::decimal(content.len()) + ">>"@),
            content,
        ),
    ]
}

/// Catalog, page tree, one 595 x 842 page, one content stream ([`one_page_content`]).
pub fn one_page_pdf() -> (out: Vec<u8>)
    ensures
        out@ == assembled(one_page_objects(), 1, Seq::empty()),
{
    let content = one_page_content();
    let mut dict = "<</Length ".to_owned();
    push_decimal(&mut dict, content.len() as u64);
    dict.append(">>");
    let mut objects: Vec<Vec<u8>> = Vec::new();
    objects.push(copy_bytes("<</Type/Catalog/Pages 2 0 R>>".as_bytes()));
    objects.push(copy_bytes("<</Type/Pages/Kids[3 0 R]/Count 1>>".as_bytes()));
    objects.push(
        copy_bytes("<</Type/Page/Parent 2 0 R/MediaBox[0 0 595 842]/Contents 4 0 R>>".as_bytes()),
    );
    objects.push(stream(dict.as_str(), content));
    assert(byte_strings(objects@) =~= one_page_objects());
    pdf(objects, 1)
}

/// The offset that the cross-reference table states for an object is where its number stands in
/// the file.
pub proof fn offsets_are_right(objects: Seq<Seq<u8>>, root: nat, extra: Seq<u8>, i: nat)
    requires
        i < objects.len(),
    ensures
        ascii::at(
            assembled(objects, root, extra),
            offset_of(objects, i) as int,
            digits(i + 1) + " 0 obj\n".spec_bytes() + objects[i as int],
        ),
{
    reveal(assembled);
    let piece = digits(i + 1) + " 0 obj\n".spec_bytes() + objects[i as int];
    lemma_bodies_prefix(objects, (i + 1) as nat, objects.len());
    let all = assembled(objects, root, extra);
    let whole = bodies(objects, objects.len());
    let part = bodies(objects, (i + 1) as nat);
    let start = offset_of(objects, i) as int;
    let end = start + piece.len();
    assert(part =~= bodies(objects, i) + piece + "\nendobj\n".spec_bytes());
    assert(all.subrange(start, end) =~= whole.subrange(start, end));
    assert(whole.subrange(start, end) =~= whole.take(part.len() as int).subrange(start, end));
    assert(part.subrange(start, end) =~= piece);
}

/// More objects come after fewer.
pub proof fn lemma_bodies_prefix(objects: Seq<Seq<u8>>, m: nat, n: nat)
    requires
        m <= n,
    ensures
        bodies(objects, m).len() <= bodies(objects, n).len(),
        bodies(objects, n).take(bodies(objects, m).len() as int) == bodies(objects, m),
    decreases n,
{
    if m < n {
        lemma_bodies_prefix(objects, m, (n - 1) as nat);
        let shorter = bodies(objects, (n - 1) as nat);
        let len = bodies(objects, m).len() as int;
        assert(bodies(objects, n).take(len) =~= shorter.take(len));
    } else {
        assert(bodies(objects, n).take(bodies(objects, m).len() as int) =~= bodies(objects, m));
    }
}

} // verus!
