//! Decoding the bytes of a stream.

use std::io::Read;

use vstd::prelude::*;
use vstd::string::*;

use super::ascii::same_bytes;
use super::object;
use super::object::{copy_bytes, dict_get, get_int_or, Obj, PdfDict, PdfObject, PdfStream};
use crate::error::{Error, ErrorSpec};

verus! {

/// What zlib data expands to, when it is whole and valid.
pub uninterp spec fn zlib_expanded(data: Seq<u8>) -> Option<Seq<u8>>;

/// `flate2::read::ZlibDecoder` read to its end: whether it fails, and what it expands to, are
/// a function of the data.
#[verifier::external_body]
fn inflate(data: &[u8]) -> (out: Option<Vec<u8>>)
    ensures
        match out {
            Some(out) => zlib_expanded(data@) == Some(out@),
            None => zlib_expanded(data@) is None,
        },
{
    let mut out = Vec::new();
    flate2::read::ZlibDecoder::new(data).read_to_end(&mut out).ok()?;
    Some(out)
}

/// What a decoder returned.
pub open spec fn bytes_result(r: Result<Vec<u8>, Error>) -> Result<Seq<u8>, ErrorSpec> {
    match r {
        Ok(s) => Ok(s@),
        Err(e) => Err(e@),
    }
}

/// The names in `s`, when it holds nothing else.
pub open spec fn names(s: Seq<Obj>) -> Option<Seq<Seq<u8>>>
    decreases s.len(),
{
    if s.len() == 0 {
        Some(Seq::empty())
    } else {
        match (names(s.drop_last()), s.last().as_name()) {
            (Some(rest), Some(name)) => Some(rest.push(name)),
            _ => None,
        }
    }
}

/// The filters that a stream's dictionary lists, in the order in which they are undone.
pub open spec fn filters(m: Map<Seq<u8>, Obj>) -> Option<Seq<Seq<u8>>> {
    match object::entry(m, "Filter".spec_bytes()) {
        None => Some(Seq::empty()),
        Some(Obj::Null) => Some(Seq::empty()),
        Some(Obj::Name(n)) => Some(seq![n]),
        Some(Obj::Array(s)) => names(s),
        Some(_) => None,
    }
}

/// The parameters of the `i`-th filter: one dictionary for the first filter, or an array with
/// one for each. Parameters that are not there are an empty dictionary.
pub open spec fn filter_params(m: Map<Seq<u8>, Obj>, i: int) -> Map<Seq<u8>, Obj> {
    match object::entry(m, "DecodeParms".spec_bytes()) {
        Some(Obj::Dict(p)) => if i == 0 {
            p
        } else {
            Map::empty()
        },
        Some(Obj::Array(s)) => if 0 <= i < s.len() && s[i] is Dict {
            s[i]->Dict_0
        } else {
            Map::empty()
        },
        _ => Map::empty(),
    }
}

/// The Paeth predictor: whichever of the left, upper and upper left byte is closest to
/// left + upper - upper left, in that order where two are as close.
pub open spec fn paeth(left: u8, up: u8, up_left: u8) -> u8 {
    let p = left + up - up_left;
    let a = distance(p, left as int);
    let b = distance(p, up as int);
    let c = distance(p, up_left as int);
    if a <= b && a <= c {
        left
    } else if b <= c {
        up
    } else {
        up_left
    }
}

/// How far apart two numbers are.
pub open spec fn distance(a: int, b: int) -> int {
    if a >= b {
        a - b
    } else {
        b - a
    }
}

/// The prediction of a PNG filter for a byte with these neighbours.
pub open spec fn predicted(tag: u8, left: u8, up: u8, up_left: u8) -> int {
    if tag == 1 {
        left as int
    } else if tag == 2 {
        up as int
    } else if tag == 3 {
        (left + up) / 2
    } else if tag == 4 {
        paeth(left, up, up_left) as int
    } else {
        0
    }
}

/// The byte at `i`, or zero where there is none.
pub open spec fn byte_or_zero(s: Seq<u8>, i: int) -> u8 {
    if 0 <= i < s.len() {
        s[i]
    } else {
        0
    }
}

/// The first `n` bytes of the row `raw`, its PNG filter undone. `prev` is the row above, and
/// `bpp` the distance to the pixel to the left.
pub open spec fn unfiltered(tag: u8, raw: Seq<u8>, prev: Seq<u8>, bpp: int, n: nat) -> Seq<u8>
    decreases n,
{
    if n == 0 {
        Seq::empty()
    } else {
        let i = n - 1;
        let row = unfiltered(tag, raw, prev, bpp, i as nat);
        let p = predicted(
            tag,
            byte_or_zero(row, i - bpp),
            byte_or_zero(prev, i),
            byte_or_zero(prev, i - bpp),
        );
        row.push(((raw[i] + p) % 256) as u8)
    }
}

/// The rows of `data`, each a filter tag and then up to `width` bytes, their PNG filters
/// undone. Fails on a tag that is no PNG filter.
pub open spec fn png_rows(data: Seq<u8>, width: nat, bpp: int, prev: Seq<u8>) -> Option<Seq<u8>>
    decreases data.len(),
{
    if data.len() == 0 {
        Some(Seq::empty())
    } else if data[0] > 4 {
        None
    } else {
        let n = row_len(data.len(), width);
        let row = unfiltered(data[0], data.subrange(1, (1 + n) as int), prev, bpp, n);
        match png_rows(data.skip((1 + n) as int), width, bpp, row) {
            Some(rest) => Some(row + rest),
            None => None,
        }
    }
}

/// How many bytes the next row has, behind its tag.
pub open spec fn row_len(remaining: nat, width: nat) -> nat {
    if width < remaining {
        width
    } else {
        (remaining - 1) as nat
    }
}

/// `data` with the predictor that `params` name undone: none, or a PNG predictor.
pub open spec fn unpredicted(params: Map<Seq<u8>, Obj>, data: Seq<u8>) -> Result<
    Seq<u8>,
    ErrorSpec,
> {
    let predictor = object::int_or(params, "Predictor".spec_bytes(), 1);
    let colors = object::int_or(params, "Colors".spec_bytes(), 1);
    let bits = object::int_or(params, "BitsPerComponent".spec_bytes(), 8);
    let columns = object::int_or(params, "Columns".spec_bytes(), 1);
    if predictor == 1 {
        Ok(data)
    } else if predictor < 10 || !(1 <= colors <= 256 && 1 <= bits <= 32 && 1 <= columns
        <= 0xFFFF_FFFF) {
        Err(ErrorSpec::PdfParse("unsupported predictor"@))
    } else {
        let width = ((colors * bits * columns + 7) / 8) as nat;
        let bpp = (colors * bits + 7) / 8;
        match png_rows(data, width, bpp, Seq::empty()) {
            Some(rows) => Ok(rows),
            None => Err(ErrorSpec::PdfParse("undecodable stream"@)),
        }
    }
}

/// What `expanded`, the result of expanding a stream's data, is with its predictor undone.
pub open spec fn flate_result(expanded: Option<Seq<u8>>, params: Map<Seq<u8>, Obj>) -> Result<
    Seq<u8>,
    ErrorSpec,
> {
    match expanded {
        Some(out) => unpredicted(params, out),
        None => Err(ErrorSpec::PdfParse("undecodable stream"@)),
    }
}

/// `raw` with the first `n` filters undone.
pub open spec fn undone(
    m: Map<Seq<u8>, Obj>,
    list: Seq<Seq<u8>>,
    raw: Seq<u8>,
    n: nat,
) -> Result<Seq<u8>, ErrorSpec>
    decreases n,
{
    if n == 0 {
        Ok(raw)
    } else {
        let i = n - 1;
        match undone(m, list, raw, i as nat) {
            Ok(data) => if list[i] == "FlateDecode".spec_bytes() || list[i] == "Fl".spec_bytes() {
                flate_result(zlib_expanded(data), filter_params(m, i))
            } else {
                Err(ErrorSpec::PdfParse("unsupported filter"@))
            },
            Err(e) => Err(e),
        }
    }
}

/// The bytes of a stream with its filters undone.
pub open spec fn decompressed(m: Map<Seq<u8>, Obj>, raw: Seq<u8>) -> Result<Seq<u8>, ErrorSpec> {
    match filters(m) {
        Some(list) => undone(m, list, raw, list.len()),
        None => Err(ErrorSpec::PdfParse("malformed filter"@)),
    }
}

fn get_byte(s: &[u8], i: usize, back: usize) -> (b: u8)
    ensures
        b == byte_or_zero(s@, i - back),
{
    if back <= i && i - back < s.len() {
        s[i - back]
    } else {
        0
    }
}

fn predict(tag: u8, left: u8, up: u8, up_left: u8) -> (p: u16)
    ensures
        p == predicted(tag, left, up, up_left),
        p <= 255,
{
    if tag == 1 {
        left as u16
    } else if tag == 2 {
        up as u16
    } else if tag == 3 {
        (left as u16 + up as u16) / 2
    } else if tag == 4 {
        let p: i32 = left as i32 + up as i32 - up_left as i32;
        let a: i32 = if p >= left as i32 {
            p - left as i32
        } else {
            left as i32 - p
        };
        let b: i32 = if p >= up as i32 {
            p - up as i32
        } else {
            up as i32 - p
        };
        let c: i32 = if p >= up_left as i32 {
            p - up_left as i32
        } else {
            up_left as i32 - p
        };
        if a <= b && a <= c {
            left as u16
        } else if b <= c {
            up as u16
        } else {
            up_left as u16
        }
    } else {
        0
    }
}

fn unfilter(tag: u8, raw: &[u8], prev: &[u8], bpp: usize) -> (row: Vec<u8>)
    requires
        bpp >= 1,
    ensures
        row@ == unfiltered(tag, raw@, prev@, bpp as int, raw@.len()),
{
    let mut row: Vec<u8> = Vec::new();
    let mut i: usize = 0;
    while i < raw.len()
        invariant
            i <= raw@.len(),
            bpp >= 1,
            row@.len() == i,
            row@ == unfiltered(tag, raw@, prev@, bpp as int, i as nat),
        decreases raw@.len() - i,
    {
        let p = predict(
            tag,
            get_byte(row.as_slice(), i, bpp),
            get_byte(prev, i, 0),
            get_byte(prev, i, bpp),
        );
        row.push(((raw[i] as u16 + p) % 256) as u8);
        i += 1;
    }
    row
}

fn undo_png(data: &[u8], width: u64, bpp: usize) -> (out: Option<Vec<u8>>)
    requires
        bpp >= 1,
    ensures
        match out {
            Some(out) => png_rows(data@, width as nat, bpp as int, Seq::empty()) == Some(out@),
            None => png_rows(data@, width as nat, bpp as int, Seq::empty()) is None,
        },
{
    let mut out: Vec<u8> = Vec::new();
    let mut prev: Vec<u8> = Vec::new();
    let mut pos: usize = 0;
    assert(data@.skip(0) =~= data@);
    proof {
        if let Some(rest) = png_rows(data@, width as nat, bpp as int, prev@) {
            assert(out@ + rest =~= rest);
        }
    }
    while pos < data.len()
        invariant
            pos <= data@.len(),
            bpp >= 1,
            match png_rows(data@.skip(pos as int), width as nat, bpp as int, prev@) {
                Some(rest) => png_rows(data@, width as nat, bpp as int, Seq::empty()) == Some(
                    out@ + rest,
                ),
                None => png_rows(data@, width as nat, bpp as int, Seq::empty()) is None,
            },
        decreases data@.len() - pos,
    {
        let ghost here = data@.skip(pos as int);
        let tag = data[pos];
        if tag > 4 {
            return None;
        }
        let remaining: usize = data.len() - pos;
        let n: usize = if width < remaining as u64 {
            width as usize
        } else {
            remaining - 1
        };
        let raw = vstd::slice::slice_subrange(data, pos + 1, pos + 1 + n);
        assert(raw@ =~= here.subrange(1, 1 + n));
        let mut row = unfilter(tag, raw, prev.as_slice(), bpp);
        prev = copy_bytes(row.as_slice());
        let ghost before = out@;
        out.append(&mut row);
        assert(here.skip(1 + n) =~= data@.skip(pos + 1 + n));
        pos = pos + 1 + n;
        proof {
            if let Some(rest) = png_rows(
                data@.skip(pos as int),
                width as nat,
                bpp as int,
                prev@,
            ) {
                assert(before + (prev@ + rest) =~= out@ + rest);
            }
        }
    }
    proof {
        assert(data@.skip(pos as int) =~= Seq::<u8>::empty());
        assert(out@ + Seq::<u8>::empty() =~= out@);
    }
    Some(out)
}

/// `data` with the predictor that `params` name undone: none, or a PNG predictor.
pub fn undo_predictor(params: &PdfDict, data: Vec<u8>) -> (r: Result<Vec<u8>, Error>)
    ensures
        bytes_result(r) == unpredicted(params@, data@),
{
    let predictor = get_int_or(params, "Predictor", 1);
    let colors = get_int_or(params, "Colors", 1);
    let bits = get_int_or(params, "BitsPerComponent", 8);
    let columns = get_int_or(params, "Columns", 1);
    if predictor == 1 {
        return Ok(data);
    }
    if predictor < 10 || !(1 <= colors && colors <= 256 && 1 <= bits && bits <= 32 && 1 <= columns
        && columns <= 0xFFFF_FFFF) {
        return Err(Error::pdf_parse("unsupported predictor"));
    }
    assert(1 <= colors * bits <= 8192) by (nonlinear_arith)
        requires
            1 <= colors <= 256,
            1 <= bits <= 32,
    ;
    let pixel: u64 = colors as u64 * bits as u64;
    proof {
        assert(1 <= pixel * columns <= 8192 * 0xFFFF_FFFF) by (nonlinear_arith)
            requires
                1 <= pixel <= 8192,
                1 <= columns <= 0xFFFF_FFFF,
        ;
    }
    let width: u64 = (pixel * columns as u64 + 7) / 8;
    let bpp: usize = ((pixel + 7) / 8) as usize;
    match undo_png(data.as_slice(), width, bpp) {
        Some(rows) => Ok(rows),
        None => Err(Error::pdf_parse("undecodable stream")),
    }
}

/// What `expanded`, the result of expanding a stream's data, is with its predictor undone.
pub fn finish_flate(expanded: Option<Vec<u8>>, params: &PdfDict) -> (r: Result<Vec<u8>, Error>)
    ensures
        bytes_result(r) == flate_result(
            match expanded {
                Some(out) => Some(out@),
                None => None,
            },
            params@,
        ),
{
    match expanded {
        Some(out) => undo_predictor(params, out),
        None => Err(Error::pdf_parse("undecodable stream")),
    }
}

/// What a list of names is.
pub open spec fn names_view(s: Seq<Vec<u8>>) -> Seq<Seq<u8>> {
    Seq::new(s.len(), |i: int| s[i]@)
}

/// The filters that a stream's dictionary lists, in the order in which they are undone.
pub fn list_filters(dict: &PdfDict) -> (r: Option<Vec<Vec<u8>>>)
    ensures
        match r {
            Some(list) => filters(dict@) == Some(names_view(list@)),
            None => filters(dict@) is None,
        },
{
    let mut list: Vec<Vec<u8>> = Vec::new();
    match dict_get(dict, "Filter".as_bytes()) {
        None => {
            assert(names_view(list@) =~= Seq::<Seq<u8>>::empty());
            Some(list)
        },
        Some(PdfObject::Null) => {
            assert(names_view(list@) =~= Seq::<Seq<u8>>::empty());
            Some(list)
        },
        Some(PdfObject::Name(n)) => {
            list.push(copy_bytes(n.as_slice()));
            assert(names_view(list@) =~= seq![n@]);
            Some(list)
        },
        Some(PdfObject::Array(items)) => {
            proof {
                object::lemma_array_view(*items);
            }
            let ghost all = object::objects_view(items@);
            let mut i: usize = 0;
            assert(all.take(0) =~= Seq::<Obj>::empty());
            assert(names_view(list@) =~= Seq::<Seq<u8>>::empty());
            while i < items.len()
                invariant
                    i <= items@.len(),
                    all == object::objects_view(items@),
                    filters(dict@) == names(all),
                    names(all.take(i as int)) == Some(names_view(list@)),
                decreases items@.len() - i,
            {
                assert(all.take(i + 1).drop_last() =~= all.take(i as int));
                assert(all.take(i + 1).last() == items@[i as int]@);
                match items[i].as_name() {
                    Some(n) => {
                        let ghost before = names_view(list@);
                        list.push(copy_bytes(n));
                        assert(names_view(list@) =~= before.push(n@));
                    },
                    None => {
                        proof {
                            lemma_names_prefix(all, i + 1);
                        }
                        return None;
                    },
                }
                i += 1;
            }
            assert(all.take(i as int) =~= all);
            Some(list)
        },
        Some(_) => None,
    }
}

/// A list that starts with something other than names holds something other than names.
proof fn lemma_names_prefix(s: Seq<Obj>, n: int)
    requires
        0 <= n <= s.len(),
        names(s.take(n)) is None,
    ensures
        names(s) is None,
    decreases s.len(),
{
    if n < s.len() {
        assert(s.drop_last().take(n) =~= s.take(n));
        lemma_names_prefix(s.drop_last(), n);
    } else {
        assert(s.take(n) =~= s);
    }
}

fn params_of(dict: &PdfDict, i: usize) -> (p: PdfDict)
    ensures
        p@ == filter_params(dict@, i as int),
{
    match dict_get(dict, "DecodeParms".as_bytes()) {
        Some(PdfObject::Dict(p)) => if i == 0 {
            p.clone()
        } else {
            PdfDict::new()
        },
        Some(PdfObject::Array(items)) => {
            proof {
                object::lemma_array_view(*items);
            }
            if i < items.len() {
                match &items[i] {
                    PdfObject::Dict(p) => p.clone(),
                    _ => PdfDict::new(),
                }
            } else {
                PdfDict::new()
            }
        },
        _ => PdfDict::new(),
    }
}

/// The bytes of a stream with its filters undone.
pub fn decompress(stream: &PdfStream) -> (r: Result<Vec<u8>, Error>)
    ensures
        bytes_result(r) == decompressed(stream.dict@, stream.raw_data@),
{
    let list = match list_filters(&stream.dict) {
        Some(list) => list,
        None => {
            return Err(Error::pdf_parse("malformed filter"));
        },
    };
    let ghost m = stream.dict@;
    let ghost all = names_view(list@);
    let mut data = copy_bytes(stream.raw_data.as_slice());
    let mut i: usize = 0;
    while i < list.len()
        invariant
            i <= list@.len(),
            m == stream.dict@,
            all == names_view(list@),
            filters(m) == Some(all),
            undone(m, all, stream.raw_data@, i as nat) == Ok::<Seq<u8>, ErrorSpec>(data@),
        decreases list@.len() - i,
    {
        if !(same_bytes(list[i].as_slice(), "FlateDecode".as_bytes()) || same_bytes(
            list[i].as_slice(),
            "Fl".as_bytes(),
        )) {
            proof {
                lemma_undone_error(m, all, stream.raw_data@, (i + 1) as nat);
            }
            return Err(Error::pdf_parse("unsupported filter"));
        }
        let params = params_of(&stream.dict, i);
        match finish_flate(inflate(data.as_slice()), &params) {
            Ok(out) => {
                data = out;
            },
            Err(e) => {
                proof {
                    lemma_undone_error(m, all, stream.raw_data@, (i + 1) as nat);
                }
                return Err(e);
            },
        }
        i += 1;
    }
    Ok(data)
}

/// A failure to undo one filter is the failure of the whole.
proof fn lemma_undone_error(m: Map<Seq<u8>, Obj>, list: Seq<Seq<u8>>, raw: Seq<u8>, n: nat)
    requires
        n <= list.len(),
        undone(m, list, raw, n) is Err,
    ensures
        undone(m, list, raw, list.len()) == undone(m, list, raw, n),
    decreases list.len() - n,
{
    if n < list.len() {
        lemma_undone_error(m, list, raw, n + 1);
    }
}

} // verus!
