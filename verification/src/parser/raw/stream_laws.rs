//! What undoing a filter gives back.

use vstd::prelude::*;
use vstd::string::*;

use super::object;
use super::object::Obj;
use super::stream;

verus! {

/// The byte at `i`, where there is one.
pub open spec fn near(s: Seq<u8>, i: int) -> int {
    if 0 <= i < s.len() {
        s[i] as int
    } else {
        0
    }
}

/// How far `a` is from `b`.
pub open spec fn apart(a: int, b: int) -> int {
    if a < b {
        b - a
    } else {
        a - b
    }
}

/// Whether `out` is a row that was written as `raw` under the filter `tag`, below the row `above`
/// and with `bpp` bytes to a pixel: a byte is written as what it exceeds its neighbour to the left
/// by, or that above, or the mean of the two, or the one of three that is nearest to what the
/// three suggest.
pub open spec fn restores(
    tag: u8,
    raw: Seq<u8>,
    above: Seq<u8>,
    bpp: int,
    out: Seq<u8>,
    i: int,
) -> bool {
    let left = near(out.take(i), i - bpp);
    let up = near(above, i);
    let corner = near(above, i - bpp);
    let guess = left + up - corner;
    &&& tag == 0 ==> out[i] == raw[i]
    &&& tag == 1 ==> out[i] == (raw[i] + left) % 256
    &&& tag == 2 ==> out[i] == (raw[i] + up) % 256
    &&& tag == 3 ==> out[i] == (raw[i] + (left + up) / 2) % 256
    &&& tag == 4 && apart(guess, left) <= apart(guess, up) && apart(guess, left) <= apart(
        guess,
        corner,
    ) ==> out[i] == (raw[i] + left) % 256
    &&& tag == 4 && apart(guess, up) < apart(guess, left) && apart(guess, up) <= apart(
        guess,
        corner,
    ) ==> out[i] == (raw[i] + up) % 256
    &&& tag == 4 && apart(guess, corner) < apart(guess, left) && apart(guess, corner) < apart(
        guess,
        up,
    ) ==> out[i] == (raw[i] + corner) % 256
}

/// A filtered row is restored byte by byte.
pub proof fn a_filtered_row_is_restored(tag: u8, raw: Seq<u8>, above: Seq<u8>, bpp: int)
    ensures
        stream::unfiltered(tag, raw, above, bpp, raw.len()).len() == raw.len(),
        forall|i: int|
            0 <= i < raw.len() ==> #[trigger] restores(
                tag,
                raw,
                above,
                bpp,
                stream::unfiltered(tag, raw, above, bpp, raw.len()),
                i,
            ),
{
    lemma_restored(tag, raw, above, bpp, raw.len());
}

proof fn lemma_restored(tag: u8, raw: Seq<u8>, above: Seq<u8>, bpp: int, n: nat)
    requires
        n <= raw.len(),
    ensures
        stream::unfiltered(tag, raw, above, bpp, n).len() == n,
        forall|i: int|
            0 <= i < n ==> #[trigger] restores(
                tag,
                raw,
                above,
                bpp,
                stream::unfiltered(tag, raw, above, bpp, n),
                i,
            ),
    decreases n,
{
    if n > 0 {
        let m = (n - 1) as nat;
        let row = stream::unfiltered(tag, raw, above, bpp, m);
        let out = stream::unfiltered(tag, raw, above, bpp, n);
        lemma_restored(tag, raw, above, bpp, m);
        assert(out.take(m as int) =~= row);
        assert forall|i: int| 0 <= i < n implies #[trigger] restores(
            tag,
            raw,
            above,
            bpp,
            out,
            i,
        ) by {
            if i < m {
                assert(restores(tag, raw, above, bpp, row, i));
                assert(out.take(i) =~= row.take(i));
            }
        }
    }
}

/// Rows are restored one by one, each below the one before it; a tag that no filter has is
/// refused.
pub proof fn rows_are_restored_one_by_one(
    tag: u8,
    raw: Seq<u8>,
    rest: Seq<u8>,
    width: nat,
    bpp: int,
    above: Seq<u8>,
)
    requires
        raw.len() == width,
    ensures
        ({
            let row = stream::unfiltered(tag, raw, above, bpp, width);
            let out = stream::png_rows(seq![tag] + raw + rest, width, bpp, above);
            if tag > 4 {
                out is None
            } else {
                match stream::png_rows(rest, width, bpp, row) {
                    Some(more) => out == Some(row + more),
                    None => out is None,
                }
            }
        }),
        stream::png_rows(Seq::empty(), width, bpp, above) == Some(Seq::<u8>::empty()),
{
    let d = seq![tag] + raw + rest;
    assert(d.subrange(1, (1 + width) as int) =~= raw);
    assert(d.skip((1 + width) as int) =~= rest);
}

/// Data without a filter is what is stored, and data under one filter is what `flate2` expands
/// it to.
pub proof fn data_is_what_its_filters_give(m: Map<Seq<u8>, Obj>, raw: Seq<u8>)
    ensures
        !m.contains_key("Filter".spec_bytes()) ==> stream::decompressed(m, raw) == Ok::<
            Seq<u8>,
            crate::error::ErrorSpec,
        >(raw),
        m.contains_key("Filter".spec_bytes()) && m["Filter".spec_bytes()] == Obj::Name(
            "FlateDecode".spec_bytes(),
        ) && !m.contains_key("DecodeParms".spec_bytes()) ==> match stream::zlib_expanded(raw) {
            Some(out) => stream::decompressed(m, raw) == Ok::<Seq<u8>, crate::error::ErrorSpec>(
                out,
            ),
            None => stream::decompressed(m, raw) is Err,
        },
        m.contains_key("Filter".spec_bytes()) && (m["Filter".spec_bytes()] matches Obj::Name(name)
            && name != "FlateDecode".spec_bytes() && name != "Fl".spec_bytes())
            ==> stream::decompressed(m, raw) is Err,
{
    reveal_with_fuel(stream::undone, 2);
}

/// Predicted data is rows of pixels: a row has as many bytes as its bits need, and a pixel has at
/// least one.
pub proof fn predicted_data_is_rows_of_pixels(
    params: Map<Seq<u8>, Obj>,
    data: Seq<u8>,
    colors: i64,
    bits: i64,
    columns: i64,
    width: nat,
    bpp: int,
)
    requires
        object::int_entry(params, "Predictor".spec_bytes()) matches Some(p) && p >= 10,
        object::int_entry(params, "Colors".spec_bytes()) == Some(colors),
        object::int_entry(params, "BitsPerComponent".spec_bytes()) == Some(bits),
        object::int_entry(params, "Columns".spec_bytes()) == Some(columns),
        1 <= colors <= 256,
        1 <= bits <= 32,
        1 <= columns <= 0xFFFF_FFFF,
        8 * (width - 1) < colors * bits * columns <= 8 * width,
        8 * (bpp - 1) < colors * bits <= 8 * bpp,
    ensures
        match stream::png_rows(data, width, bpp, Seq::empty()) {
            Some(rows) => stream::unpredicted(params, data) == Ok::<
                Seq<u8>,
                crate::error::ErrorSpec,
            >(rows),
            None => stream::unpredicted(params, data) is Err,
        },
{
    assert((colors * bits * columns + 7) / 8 == width);
    assert((colors * bits + 7) / 8 == bpp);
}

/// Without a predictor, or with the first, data is left as it is.
pub proof fn data_without_a_predictor_is_left(params: Map<Seq<u8>, Obj>, data: Seq<u8>)
    requires
        match object::int_entry(params, "Predictor".spec_bytes()) {
            Some(p) => p == 1,
            None => true,
        },
    ensures
        stream::unpredicted(params, data) == Ok::<Seq<u8>, crate::error::ErrorSpec>(data),
{
}

} // verus!
