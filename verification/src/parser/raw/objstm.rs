//! Object streams: streams that carry objects.
//!
//! The dictionary states how many objects there are (`/N`) and where the first one starts
//! (`/First`). The decoded bytes begin with a pair of integers for each object, its number and
//! its offset from the first one.

use vstd::prelude::*;
use vstd::string::*;

use super::ascii;
use super::ascii::{ascii_ws, push_decimal};
use super::object;
use super::object::{dict_get, Obj, PdfDict, PdfObject, PdfStream};
use super::stream;
use super::stream::decompress;
use super::tokenizer;
use super::tokenizer::{parse_object, parse_unsigned, to_i64};
use crate::error::{Error, ErrorSpec};

verus! {

/// The integer at `pos`, with or without a sign, and the position after it.
pub open spec fn int_at(d: Seq<u8>, pos: int) -> Result<(i64, int), ErrorSpec> {
    let start = tokenizer::sign_end(d, pos);
    let end = ascii::digits_end(d, start);
    if end == pos {
        Err(ErrorSpec::PdfParse("expected integer at offset "@ + ascii::decimal(pos as nat)))
    } else if end == start {
        Err(ErrorSpec::PdfParse("invalid integer"@))
    } else {
        let n = tokenizer::signed_value(d, pos, start, end);
        if i64::MIN <= n <= i64::MAX {
            Ok((n as i64, end))
        } else {
            Err(ErrorSpec::PdfParse("invalid integer"@))
        }
    }
}

/// The offsets in `n` pairs of integers from `pos` on.
pub open spec fn offsets_at(d: Seq<u8>, pos: int, n: nat) -> Result<Seq<usize>, ErrorSpec>
    decreases n,
{
    if n == 0 {
        Ok(Seq::empty())
    } else {
        match int_at(d, ascii::ascii_ws_end(d, pos)) {
            Ok((_, after)) => match int_at(d, ascii::ascii_ws_end(d, after)) {
                Ok((offset, end)) => match offsets_at(d, end, (n - 1) as nat) {
                    Ok(rest) => Ok(seq![offset as usize] + rest),
                    Err(e) => Err(e),
                },
                Err(e) => Err(e),
            },
            Err(e) => Err(e),
        }
    }
}

/// The object at the offset `offset` from `first`, if there is one. The sum wraps around.
pub open spec fn carried_at(d: Seq<u8>, first: usize, offset: usize) -> Option<Obj> {
    let pos = if first + offset <= usize::MAX {
        first + offset
    } else {
        first + offset - usize::MAX - 1
    };
    if pos < d.len() {
        match tokenizer::object_at(d, pos) {
            Some((o, _)) => Some(o),
            None => None,
        }
    } else {
        None
    }
}

/// How many objects an object stream with the dictionary `m` carries, and where the first one
/// starts.
pub open spec fn header(m: Map<Seq<u8>, Obj>) -> Result<(i64, i64), ErrorSpec> {
    match object::int_entry(m, "N".spec_bytes()) {
        None => Err(ErrorSpec::PdfParse("ObjStm missing /N"@)),
        Some(n) => match object::int_entry(m, "First".spec_bytes()) {
            None => Err(ErrorSpec::PdfParse("ObjStm missing /First"@)),
            Some(first) => Ok((n, first)),
        },
    }
}

/// The objects that an object stream with the decoded bytes `d` carries, by index. One that
/// cannot be parsed is missing.
pub open spec fn carried(n: i64, first: i64, d: Seq<u8>) -> Result<Seq<Option<Obj>>, ErrorSpec> {
    match offsets_at(d, 0, (n as usize) as nat) {
        Ok(offsets) => Ok(
            Seq::new(offsets.len(), |i: int| carried_at(d, first as usize, offsets[i])),
        ),
        Err(e) => Err(e),
    }
}

/// The objects that an object stream carries, by index.
#[verifier::opaque]
pub open spec fn objstm_objects(m: Map<Seq<u8>, Obj>, raw: Seq<u8>) -> Result<
    Seq<Option<Obj>>,
    ErrorSpec,
> {
    match header(m) {
        Ok((n, first)) => match stream::decompressed(m, raw) {
            Ok(d) => carried(n, first, d),
            Err(e) => Err(e),
        },
        Err(e) => Err(e),
    }
}

/// What a list of objects is, some of them missing.
pub open spec fn slots_view(s: Seq<Option<PdfObject>>) -> Seq<Option<Obj>> {
    Seq::new(
        s.len(),
        |i: int|
            match s[i] {
                Some(o) => Some(o@),
                None => None,
            },
    )
}

/// What was read from an object stream.
pub open spec fn slots_result(r: Result<Vec<Option<PdfObject>>, Error>) -> Result<
    Seq<Option<Obj>>,
    ErrorSpec,
> {
    match r {
        Ok(s) => Ok(slots_view(s@)),
        Err(e) => Err(e@),
    }
}

/// The first position from `pos` on that does not hold ASCII whitespace.
pub fn skip_ws(data: &[u8], pos: usize) -> (end: usize)
    ensures
        end == ascii::ascii_ws_end(data@, pos as int),
        pos <= end,
        pos <= data@.len() ==> end <= data@.len(),
{
    let mut p: usize = pos;
    while p < data.len() && ascii_ws(data[p])
        invariant
            pos <= p,
            p <= data@.len() || p == pos,
            ascii::ascii_ws_end(data@, pos as int) == ascii::ascii_ws_end(data@, p as int),
        decreases data@.len() - p,
    {
        p += 1;
    }
    p
}

fn no_integer_at(pos: usize) -> (e: Error)
    ensures
        e@ == ErrorSpec::PdfParse("expected integer at offset "@ + ascii::decimal(pos as nat)),
{
    let mut message = "expected integer at offset ".to_owned();
    push_decimal(&mut message, pos as u64);
    Error::PdfParse(message)
}

/// The integer at `pos`, with or without a sign, and the position after it.
pub fn parse_int(data: &[u8], pos: usize) -> (r: Result<(i64, usize), Error>)
    ensures
        match r {
            Ok((n, end)) => int_at(data@, pos as int) == Ok::<(i64, int), ErrorSpec>(
                (n, end as int),
            ) && pos < end <= data@.len(),
            Err(e) => int_at(data@, pos as int) == Err::<(i64, int), ErrorSpec>(e@),
        },
{
    let mut start: usize = pos;
    let mut negative = false;
    if pos >= data.len() {
        return Err(no_integer_at(pos));
    }
    if data[pos] == '+' as u8 || data[pos] == '-' as u8 {
        negative = data[pos] == '-' as u8;
        start = pos + 1;
    }
    let (value, end) = parse_unsigned(data, start);
    if end == pos {
        return Err(no_integer_at(pos));
    }
    if end == start {
        return Err(Error::pdf_parse("invalid integer"));
    }
    match to_i64(value, negative) {
        Some(n) => Ok((n, end)),
        None => Err(Error::pdf_parse("invalid integer")),
    }
}

fn parse_offsets(data: &[u8], n: usize) -> (r: Result<Vec<usize>, Error>)
    ensures
        match r {
            Ok(offsets) => offsets_at(data@, 0, n as nat) == Ok::<Seq<usize>, ErrorSpec>(offsets@),
            Err(e) => offsets_at(data@, 0, n as nat) == Err::<Seq<usize>, ErrorSpec>(e@),
        },
{
    let ghost whole = offsets_at(data@, 0, n as nat);
    let mut out: Vec<usize> = Vec::new();
    let mut pos: usize = 0;
    let mut left: usize = n;
    proof {
        if let Ok(rest) = whole {
            assert(out@ + rest =~= rest);
        }
    }
    while left > 0
        invariant
            pos <= data@.len(),
            whole == offsets_at(data@, 0, n as nat),
            match offsets_at(data@, pos as int, left as nat) {
                Ok(rest) => whole == Ok::<Seq<usize>, ErrorSpec>(out@ + rest),
                Err(e) => whole == Err::<Seq<usize>, ErrorSpec>(e),
            },
        decreases left,
    {
        let (_, after) = match parse_int(data, skip_ws(data, pos)) {
            Ok(r) => r,
            Err(e) => {
                return Err(e);
            },
        };
        let (offset, end) = match parse_int(data, skip_ws(data, after)) {
            Ok(r) => r,
            Err(e) => {
                return Err(e);
            },
        };
        let ghost before = out@;
        out.push(offset as usize);
        proof {
            if let Ok(rest) = offsets_at(data@, end as int, (left - 1) as nat) {
                assert(before + (seq![offset as usize] + rest) =~= out@ + rest);
            }
        }
        pos = end;
        left -= 1;
    }
    assert(out@ + Seq::<usize>::empty() =~= out@);
    Ok(out)
}

/// The objects that an object stream with the decoded bytes `data` carries, by index. One that
/// cannot be parsed is missing.
pub fn read_objstm(n: i64, first: i64, data: &[u8]) -> (r: Result<Vec<Option<PdfObject>>, Error>)
    ensures
        slots_result(r) == carried(n, first, data@),
{
    let offsets = match parse_offsets(data, n as usize) {
        Ok(offsets) => offsets,
        Err(e) => {
            return Err(e);
        },
    };
    let ghost all = Seq::new(
        offsets@.len(),
        |i: int| carried_at(data@, first as usize, offsets@[i]),
    );
    let mut out: Vec<Option<PdfObject>> = Vec::new();
    let mut i: usize = 0;
    while i < offsets.len()
        invariant
            i <= offsets@.len(),
            all == Seq::new(
                offsets@.len(),
                |i: int| carried_at(data@, first as usize, offsets@[i]),
            ),
            slots_view(out@) == all.take(i as int),
        decreases offsets@.len() - i,
    {
        let pos = (first as usize).wrapping_add(offsets[i]);
        let ghost before = out@;
        let slot = if pos < data.len() {
            match parse_object(data, pos) {
                Ok((o, _)) => Some(o),
                Err(_) => None,
            }
        } else {
            None
        };
        out.push(slot);
        assert(slots_view(out@) =~= slots_view(before).push(all[i as int]));
        assert(all.take(i + 1) =~= all.take(i as int).push(all[i as int]));
        i += 1;
    }
    assert(all.take(i as int) =~= all);
    Ok(out)
}

/// How many objects an object stream with the dictionary `dict` carries, and where the first
/// one starts.
pub fn read_header(dict: &PdfDict) -> (r: Result<(i64, i64), Error>)
    ensures
        match r {
            Ok(h) => header(dict@) == Ok::<(i64, i64), ErrorSpec>(h),
            Err(e) => header(dict@) == Err::<(i64, i64), ErrorSpec>(e@),
        },
{
    let n: i64 = match dict_get(dict, "N".as_bytes()) {
        Some(PdfObject::Integer(n)) => *n,
        _ => {
            return Err(Error::pdf_parse("ObjStm missing /N"));
        },
    };
    match dict_get(dict, "First".as_bytes()) {
        Some(PdfObject::Integer(first)) => Ok((n, *first)),
        _ => Err(Error::pdf_parse("ObjStm missing /First")),
    }
}

/// Extract objects from an object stream, by index.
pub fn extract_objstm_objects(pdf_stream: &PdfStream) -> (r: Result<Vec<Option<PdfObject>>, Error>)
    ensures
        slots_result(r) == objstm_objects(pdf_stream.dict@, pdf_stream.raw_data@),
{
    reveal(objstm_objects);
    match read_header(&pdf_stream.dict) {
        Ok((n, first)) => match decompress(pdf_stream) {
            Ok(data) => read_objstm(n, first, data.as_slice()),
            Err(e) => Err(e),
        },
        Err(e) => Err(e),
    }
}

} // verus!
