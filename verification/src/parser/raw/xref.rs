//! Cross-reference tables: where in a file each object is.

use std::collections::HashSet;

use vstd::prelude::*;
use vstd::set_lib::*;
use vstd::string::*;

use super::ascii;
use super::ascii::find_last;
use super::numbers;
use super::numbers::be_number;
use super::object;
use super::object::{dict_get, Obj, PdfDict, PdfObject};
use super::stream;
use super::stream::decompress;
use super::tokenizer;
use super::tokenizer::{
    has_keyword, parse_int_pair, parse_object, parse_unsigned, parse_dict, skip_space, MAX_DEPTH,
};
use crate::error::{Error, ErrorSpec};

verus! {

/// Where an object is.
#[derive(Debug, Clone, Copy, PartialEq, Eq, Structural)]
pub enum XrefEntry {
    /// Nowhere: its number is free.
    Free,
    /// At an offset in the file.
    Uncompressed(usize),
    /// In the object stream with a number, at an index.
    Compressed(u32, u32),
}

/// Where each object is. No object and generation number occurs twice.
#[derive(Debug)]
pub struct XrefTable {
    pub entries: Vec<((u32, u16), XrefEntry)>,
}

/// An object and generation number as one number.
pub open spec fn id_key(id: (u32, u16)) -> u64 {
    (id.0 * 0x1_0000 + id.1) as u64
}

/// An object and generation number as one number.
pub fn key_of(id: (u32, u16)) -> (key: u64)
    ensures
        key == id_key(id),
        key == id.0 * 0x1_0000 + id.1,
{
    id.0 as u64 * 0x1_0000 + id.1 as u64
}

/// The object and generation number behind `key`.
pub open spec fn key_id(key: u64) -> (u32, u16) {
    ((key / 0x1_0000) as u32, (key % 0x1_0000) as u16)
}

/// Different object and generation numbers are different as one number.
pub proof fn lemma_id_key(id: (u32, u16))
    ensures
        key_id(id_key(id)) == id,
        id_key(id) < 0x1_0000_0000_0000,
{
}

/// Whether `id` occurs in `s`.
pub open spec fn listed(s: Seq<((u32, u16), XrefEntry)>, id: (u32, u16)) -> bool {
    exists|i: int| 0 <= i < s.len() && (#[trigger] s[i]).0 == id
}

/// Whether no object and generation number occurs twice.
pub open spec fn distinct(s: Seq<((u32, u16), XrefEntry)>) -> bool {
    forall|i: int, j: int| 0 <= i < j < s.len() ==> (#[trigger] s[i]).0 != (#[trigger] s[j]).0
}

/// `acc`, and then those of `s` that are not listed yet.
pub open spec fn added(
    acc: Seq<((u32, u16), XrefEntry)>,
    s: Seq<((u32, u16), XrefEntry)>,
) -> Seq<((u32, u16), XrefEntry)>
    decreases s.len(),
{
    if s.len() == 0 {
        acc
    } else {
        let before = added(acc, s.drop_last());
        if listed(before, s.last().0) {
            before
        } else {
            before.push(s.last())
        }
    }
}

/// Adding keeps a table free of repetitions.
pub proof fn lemma_added_distinct(
    acc: Seq<((u32, u16), XrefEntry)>,
    s: Seq<((u32, u16), XrefEntry)>,
)
    requires
        distinct(acc),
    ensures
        distinct(added(acc, s)),
    decreases s.len(),
{
    if s.len() > 0 {
        lemma_added_distinct(acc, s.drop_last());
    }
}

/// One cross-reference section: its entries, and its trailer dictionary.
pub struct Section {
    pub entries: Seq<((u32, u16), XrefEntry)>,
    pub trailer: Map<Seq<u8>, Obj>,
}

/// The entry for the object `num` that the row at `pos` of a table states, and where the next
/// row starts.
pub open spec fn row_at(d: Seq<u8>, pos: int, num: nat) -> Option<(((u32, u16), XrefEntry), int)> {
    match tokenizer::int_pair(d, pos) {
        Some((offset, gen, next)) => if num > u32::MAX || gen > u16::MAX || offset > usize::MAX {
            None
        } else if tokenizer::keyword(d, next, "n".spec_bytes()) {
            Some(
                (
                    ((num as u32, gen as u16), XrefEntry::Uncompressed(offset as usize)),
                    tokenizer::space_end(d, next + "n".spec_bytes().len()),
                ),
            )
        } else if tokenizer::keyword(d, next, "f".spec_bytes()) {
            Some(
                (
                    ((num as u32, gen as u16), XrefEntry::Free),
                    tokenizer::space_end(d, next + "f".spec_bytes().len()),
                ),
            )
        } else {
            None
        },
        None => None,
    }
}

/// The entries of `count` rows from `pos` on, for the objects `num`, `num + 1`, ..., and where
/// what follows them starts.
pub open spec fn rows_at(d: Seq<u8>, pos: int, num: nat, count: nat) -> Option<
    (Seq<((u32, u16), XrefEntry)>, int),
>
    decreases count,
{
    if count == 0 {
        Some((Seq::empty(), pos))
    } else {
        match row_at(d, pos, num) {
            Some((e, next)) => match rows_at(d, next, num + 1, (count - 1) as nat) {
                Some((rest, end)) => Some((seq![e] + rest, end)),
                None => None,
            },
            None => None,
        }
    }
}

/// The rest of a table from `pos` on: subsections, and then the trailer.
pub open spec fn table_at(d: Seq<u8>, pos: int) -> Option<Section>
    decreases d.len() - pos,
{
    let p = tokenizer::space_end(d, pos);
    if tokenizer::keyword(d, p, "trailer".spec_bytes()) {
        match tokenizer::value_at(d, p + "trailer".spec_bytes().len(), MAX_DEPTH as nat) {
            Some((Obj::Dict(m), _)) => Some(Section { entries: Seq::empty(), trailer: m }),
            _ => None,
        }
    } else {
        match tokenizer::int_pair(d, p) {
            Some((num, count, next)) => match rows_at(d, next, num, count) {
                Some((rows, end)) => if !(pos < end <= d.len()) {
                    None
                } else {
                    match table_at(d, end) {
                        Some(rest) => Some(
                            Section { entries: rows + rest.entries, trailer: rest.trailer },
                        ),
                        None => None,
                    }
                },
                None => None,
            },
            None => None,
        }
    }
}

/// The widths of the three fields of a cross-reference stream's rows: at most eight bytes
/// each, and not all empty.
pub open spec fn widths(m: Map<Seq<u8>, Obj>) -> Option<(nat, nat, nat)> {
    match object::array_entry(m, "W".spec_bytes()) {
        Some(s) => if s.len() == 3 {
            match (s[0].as_i64(), s[1].as_i64(), s[2].as_i64()) {
                (Some(a), Some(b), Some(c)) => if 0 <= a <= 8 && 0 <= b <= 8 && 0 <= c <= 8 && a + b
                    + c > 0 {
                    Some((a as nat, b as nat, c as nat))
                } else {
                    None
                },
                _ => None,
            }
        } else {
            None
        },
        None => None,
    }
}

/// The entry for the object `num` that the row at `pos` of a cross-reference stream states. A
/// row without a first field is that of an uncompressed object.
pub open spec fn stream_row(d: Seq<u8>, pos: int, w: (nat, nat, nat), num: nat) -> Option<
    ((u32, u16), XrefEntry),
> {
    let kind = if w.0 == 0 {
        1
    } else {
        numbers::be_value(d.subrange(pos, pos + w.0))
    };
    let a = numbers::be_value(d.subrange(pos + w.0, pos + w.0 + w.1));
    let b = numbers::be_value(d.subrange(pos + w.0 + w.1, pos + w.0 + w.1 + w.2));
    if num > u32::MAX {
        None
    } else if kind == 1 {
        if a <= usize::MAX && b <= u16::MAX {
            Some(((num as u32, b as u16), XrefEntry::Uncompressed(a as usize)))
        } else {
            None
        }
    } else if kind == 2 {
        if a <= u32::MAX && b <= u32::MAX {
            Some(((num as u32, 0), XrefEntry::Compressed(a as u32, b as u32)))
        } else {
            None
        }
    } else {
        Some(((num as u32, 0), XrefEntry::Free))
    }
}

/// The entries of `count` rows of a cross-reference stream from `pos` on.
pub open spec fn stream_rows(
    d: Seq<u8>,
    pos: int,
    w: (nat, nat, nat),
    num: nat,
    count: nat,
) -> Option<Seq<((u32, u16), XrefEntry)>>
    decreases count,
{
    let next = pos + w.0 + w.1 + w.2;
    if count == 0 {
        Some(Seq::empty())
    } else if next > d.len() {
        None
    } else {
        match (stream_row(d, pos, w, num), stream_rows(d, next, w, num + 1, (count - 1) as nat)) {
            (Some(e), Some(rest)) => Some(seq![e] + rest),
            _ => None,
        }
    }
}

/// The entries of the rows from `pos` on, for the subsections that `index` lists from its
/// `i`-th number on: a first object number and a count each.
pub open spec fn stream_entries(
    d: Seq<u8>,
    pos: int,
    w: (nat, nat, nat),
    index: Seq<Obj>,
    i: int,
) -> Option<Seq<((u32, u16), XrefEntry)>>
    decreases index.len() - i,
{
    if i < 0 || i >= index.len() {
        Some(Seq::empty())
    } else if i + 1 >= index.len() {
        None
    } else {
        match (index[i].as_i64(), index[i + 1].as_i64()) {
            (Some(num), Some(count)) => if num < 0 || count < 0 {
                None
            } else {
                match (
                    stream_rows(d, pos, w, num as nat, count as nat),
                    stream_entries(d, pos + count * (w.0 + w.1 + w.2), w, index, i + 2),
                ) {
                    (Some(rows), Some(rest)) => Some(rows + rest),
                    _ => None,
                }
            },
            _ => None,
        }
    }
}

/// The subsections of a cross-reference stream: those that its dictionary lists, or one that
/// reaches from zero to the size of the table.
pub open spec fn stream_index(m: Map<Seq<u8>, Obj>) -> Option<Seq<Obj>> {
    match object::array_entry(m, "Index".spec_bytes()) {
        Some(s) => Some(s),
        None => match object::int_entry(m, "Size".spec_bytes()) {
            Some(n) => Some(seq![Obj::Integer(0), Obj::Integer(n)]),
            None => None,
        },
    }
}

/// The section that a cross-reference stream with the dictionary `m` and the decoded bytes `d`
/// states. The dictionary is its trailer.
pub open spec fn stream_section(m: Map<Seq<u8>, Obj>, d: Seq<u8>) -> Option<Section> {
    match (widths(m), stream_index(m)) {
        (Some(w), Some(index)) => match stream_entries(d, 0, w, index, 0) {
            Some(entries) => Some(Section { entries, trailer: m }),
            None => None,
        },
        _ => None,
    }
}

/// The section at `pos`: a table, or a cross-reference stream.
#[verifier::opaque]
pub open spec fn section_at(d: Seq<u8>, pos: int) -> Option<Section> {
    let p = tokenizer::space_end(d, pos);
    if tokenizer::keyword(d, p, "xref".spec_bytes()) {
        table_at(d, p + "xref".spec_bytes().len())
    } else {
        match tokenizer::object_at(d, pos) {
            Some((Obj::Stream(m, raw), _)) => match stream::decompressed(m, raw) {
                Ok(out) => stream_section(m, out),
                Err(_) => None,
            },
            _ => None,
        }
    }
}

/// `acc`, and then what the section at `pos` and the sections before it add. A section that
/// was seen already ends the chain.
pub open spec fn chain(
    d: Seq<u8>,
    pos: int,
    acc: Seq<((u32, u16), XrefEntry)>,
    seen: Set<int>,
) -> Option<Seq<((u32, u16), XrefEntry)>>
    decreases set_int_range(0, d.len() as int).difference(seen).len(),
{
    if seen.contains(pos) {
        Some(acc)
    } else if !(0 <= pos < d.len()) {
        None
    } else {
        proof {
            lemma_seen_fewer(d.len() as int, pos, seen);
        }
        match section_at(d, pos) {
            Some(s) => match object::int_entry(s.trailer, "Prev".spec_bytes()) {
                Some(prev) => chain(d, prev as int, added(acc, s.entries), seen.insert(pos)),
                None => Some(added(acc, s.entries)),
            },
            None => None,
        }
    }
}

/// Seeing one more position leaves fewer to see.
pub proof fn lemma_seen_fewer(len: int, pos: int, seen: Set<int>)
    requires
        0 <= pos < len,
        !seen.contains(pos),
    ensures
        set_int_range(0, len).difference(seen.insert(pos)).len() < set_int_range(
            0,
            len,
        ).difference(seen).len(),
{
    let all = set_int_range(0, len);
    lemma_int_range(0, len);
    assert(all.difference(seen.insert(pos)) =~= all.difference(seen).remove(pos));
}

/// Where the newest section is, as the end of the file states it.
pub open spec fn start_offset(d: Seq<u8>) -> Option<nat> {
    match ascii::rfind(d, d.len() as int, "startxref".spec_bytes()) {
        Some(i) => {
            let p = tokenizer::space_end(d, i + "startxref".spec_bytes().len());
            let end = ascii::digits_end(d, p);
            if end > p {
                Some(ascii::decimal_value(d.subrange(p, end)))
            } else {
                None
            }
        },
        None => None,
    }
}

/// The entries of all sections, where a newer section's entry counts before an older one's,
/// and the trailer of the newest section.
pub open spec fn xref_chain(d: Seq<u8>) -> Option<
    (Seq<((u32, u16), XrefEntry)>, Map<Seq<u8>, Obj>),
> {
    match start_offset(d) {
        Some(pos) => match (
            section_at(d, pos as int),
            chain(d, pos as int, Seq::empty(), Set::empty()),
        ) {
            (Some(s), Some(entries)) => Some((entries, s.trailer)),
            _ => None,
        },
        None => None,
    }
}

/// No object and generation number occurs twice in a chain.
pub proof fn lemma_chain_distinct(
    d: Seq<u8>,
    pos: int,
    acc: Seq<((u32, u16), XrefEntry)>,
    seen: Set<int>,
)
    requires
        distinct(acc),
    ensures
        chain(d, pos, acc, seen) matches Some(s) ==> distinct(s),
    decreases set_int_range(0, d.len() as int).difference(seen).len(),
{
    if !seen.contains(pos) && 0 <= pos < d.len() {
        lemma_seen_fewer(d.len() as int, pos, seen);
        if let Some(s) = section_at(d, pos) {
            lemma_added_distinct(acc, s.entries);
            if let Some(prev) = object::int_entry(s.trailer, "Prev".spec_bytes()) {
                lemma_chain_distinct(d, prev as int, added(acc, s.entries), seen.insert(pos));
            }
        }
    }
}

/// A row takes up room.
proof fn lemma_row_progress(d: Seq<u8>, pos: int, num: nat)
    requires
        0 <= pos <= d.len(),
    ensures
        row_at(d, pos, num) matches Some((_, next)) ==> pos < next <= d.len(),
{
    if let Some((_, _, next)) = tokenizer::int_pair(d, pos) {
        if tokenizer::keyword(d, next, "n".spec_bytes()) {
            tokenizer::lemma_space_end(d, next + "n".spec_bytes().len());
        }
        if tokenizer::keyword(d, next, "f".spec_bytes()) {
            tokenizer::lemma_space_end(d, next + "f".spec_bytes().len());
        }
    }
}

/// Rows take up room, so there are no more of them than bytes.
proof fn lemma_rows_progress(d: Seq<u8>, pos: int, num: nat, count: nat)
    requires
        0 <= pos <= d.len(),
    ensures
        rows_at(d, pos, num, count) matches Some((_, end)) ==> pos + count <= end <= d.len(),
    decreases count,
{
    if count > 0 {
        lemma_row_progress(d, pos, num);
        if let Some((_, next)) = row_at(d, pos, num) {
            lemma_rows_progress(d, next, num + 1, (count - 1) as nat);
        }
    }
}

fn parse_row(data: &[u8], pos: usize, num: u64) -> (r: Option<(((u32, u16), XrefEntry), usize)>)
    requires
        pos <= data@.len(),
    ensures
        match r {
            Some((e, next)) => row_at(data@, pos as int, num as nat) == Some((e, next as int))
                && pos < next <= data@.len(),
            None => row_at(data@, pos as int, num as nat) is None,
        },
{
    proof {
        lemma_row_progress(data@, pos as int, num as nat);
    }
    assert(data@.len() == data.len());
    let word_used = "n".as_bytes();
    let word_free = "f".as_bytes();
    match parse_int_pair(data, pos) {
        Some((Some(offset), Some(gen), next)) => {
            if num > u32::MAX as u64 || gen > u16::MAX as u64 || offset > usize::MAX as u64 {
                None
            } else if has_keyword(data, next, word_used) {
                Some(
                    (
                        ((num as u32, gen as u16), XrefEntry::Uncompressed(offset as usize)),
                        skip_space(data, next + word_used.len()),
                    ),
                )
            } else if has_keyword(data, next, word_free) {
                Some(
                    (
                        ((num as u32, gen as u16), XrefEntry::Free),
                        skip_space(data, next + word_free.len()),
                    ),
                )
            } else {
                None
            }
        },
        _ => None,
    }
}

/// Appends the entries of `count` rows, and gives where what follows them starts.
fn parse_rows(
    data: &[u8],
    pos: usize,
    num: u64,
    count: u64,
    out: &mut Vec<((u32, u16), XrefEntry)>,
) -> (r: Option<usize>)
    requires
        pos <= data@.len(),
    ensures
        match r {
            Some(end) => rows_at(data@, pos as int, num as nat, count as nat) matches Some((rows, e))
                && e == end && final(out)@ == old(out)@ + rows && pos + count <= end <= data@.len(),
            None => rows_at(data@, pos as int, num as nat, count as nat) is None,
        },
    decreases count,
{
    proof {
        lemma_rows_progress(data@, pos as int, num as nat, count as nat);
    }
    if count == 0 {
        assert(out@ =~= old(out)@ + Seq::empty());
        return Some(pos);
    }
    let ghost start = out@;
    let ghost whole = rows_at(data@, pos as int, num as nat, count as nat);
    let mut p: usize = pos;
    let mut n: u64 = num;
    let mut left: u64 = count;
    proof {
        if let Some((rest, _)) = whole {
            assert(start + rest =~= out@ + rest);
        }
    }
    while left > 0
        invariant
            p <= data@.len(),
            start == old(out)@,
            whole == rows_at(data@, pos as int, num as nat, count as nat),
            match rows_at(data@, p as int, n as nat, left as nat) {
                Some((rest, end)) => whole matches Some((rows, e)) && e == end && start + rows
                    == out@ + rest,
                None => whole is None,
            },
        decreases left,
    {
        match parse_row(data, p, n) {
            Some((e, next)) => {
                let ghost before = out@;
                out.push(e);
                proof {
                    if let Some((rest, _)) = rows_at(data@, next as int, n as nat + 1, (left - 1) as nat) {
                        assert(before + (seq![e] + rest) =~= out@ + rest);
                    }
                }
                p = next;
                n += 1;
                left -= 1;
            },
            None => {
                return None;
            },
        }
    }
    assert(out@ + Seq::<((u32, u16), XrefEntry)>::empty() =~= out@);
    Some(p)
}

fn parse_table(data: &[u8], pos: usize) -> (r: Option<(Vec<((u32, u16), XrefEntry)>, PdfDict)>)
    requires
        pos <= data@.len(),
    ensures
        match r {
            Some((entries, trailer)) => table_at(data@, pos as int) == Some(
                Section { entries: entries@, trailer: trailer@ },
            ),
            None => table_at(data@, pos as int) is None,
        },
{
    assert(data@.len() == data.len());
    let word = "trailer".as_bytes();
    let mut out: Vec<((u32, u16), XrefEntry)> = Vec::new();
    let mut at: usize = pos;
    proof {
        if let Some(rest) = table_at(data@, pos as int) {
            assert(out@ + rest.entries =~= rest.entries);
        }
    }
    loop
        invariant
            at <= data@.len(),
            data@.len() == data.len(),
            word@ == "trailer".spec_bytes(),
            match table_at(data@, at as int) {
                Some(rest) => table_at(data@, pos as int) == Some(
                    Section { entries: out@ + rest.entries, trailer: rest.trailer },
                ),
                None => table_at(data@, pos as int) is None,
            },
        decreases data@.len() - at,
    {
        let p = skip_space(data, at);
        if has_keyword(data, p, word) {
            return match parse_dict(data, p + word.len()) {
                Some(trailer) => {
                    assert(out@ + Seq::<((u32, u16), XrefEntry)>::empty() =~= out@);
                    Some((out, trailer))
                },
                None => None,
            };
        }
        match parse_int_pair(data, p) {
            Some((num, count, next)) => {
                proof {
                    let (x, y, n) = tokenizer::int_pair(data@, p as int)->0;
                    lemma_rows_progress(data@, n, x, y);
                }
                let count: u64 = match count {
                    Some(count) => count,
                    None => {
                        return None;
                    },
                };
                // A number too large for any row matters only where there is one.
                let num: u64 = match num {
                    Some(num) => num,
                    None => {
                        if count > 0 {
                            return None;
                        }
                        0
                    },
                };
                let ghost before = out@;
                match parse_rows(data, next, num, count, &mut out) {
                    Some(end) => {
                        proof {
                            if let Some(rest) = table_at(data@, end as int) {
                                let (rows, _) = rows_at(
                                    data@,
                                    next as int,
                                    num as nat,
                                    count as nat,
                                )->0;
                                assert(before + (rows + rest.entries) =~= out@ + rest.entries);
                            }
                        }
                        at = end;
                    },
                    None => {
                        return None;
                    },
                }
            },
            None => {
                return None;
            },
        }
    }
}

fn get_widths(dict: &PdfDict) -> (r: Option<(usize, usize, usize)>)
    ensures
        match r {
            Some((a, b, c)) => widths(dict@) == Some((a as nat, b as nat, c as nat)) && a <= 8 && b
                <= 8 && c <= 8 && a + b + c > 0,
            None => widths(dict@) is None,
        },
{
    match dict_get(dict, "W".as_bytes()) {
        Some(PdfObject::Array(items)) => {
            proof {
                object::lemma_array_view(*items);
            }
            if items.len() != 3 {
                return None;
            }
            match (items[0].as_i64(), items[1].as_i64(), items[2].as_i64()) {
                (Some(a), Some(b), Some(c)) => if 0 <= a && a <= 8 && 0 <= b && b <= 8 && 0 <= c
                    && c <= 8 && a + b + c > 0 {
                    Some((a as usize, b as usize, c as usize))
                } else {
                    None
                },
                _ => None,
            }
        },
        _ => None,
    }
}

fn parse_stream_row(data: &[u8], pos: usize, w: (usize, usize, usize), num: u64) -> (r: Option<
    ((u32, u16), XrefEntry),
>)
    requires
        pos + w.0 + w.1 + w.2 <= data@.len(),
        w.0 <= 8 && w.1 <= 8 && w.2 <= 8,
    ensures
        r == stream_row(data@, pos as int, (w.0 as nat, w.1 as nat, w.2 as nat), num as nat),
{
    assert(data@.len() == data.len());
    let p1: usize = pos + w.0;
    let p2: usize = p1 + w.1;
    let p3: usize = p2 + w.2;
    let kind: u64 = if w.0 == 0 {
        1
    } else {
        be_number(data, pos, p1)
    };
    let a = be_number(data, p1, p2);
    let b = be_number(data, p2, p3);
    if num > u32::MAX as u64 {
        None
    } else if kind == 1 {
        if a <= usize::MAX as u64 && b <= u16::MAX as u64 {
            Some(((num as u32, b as u16), XrefEntry::Uncompressed(a as usize)))
        } else {
            None
        }
    } else if kind == 2 {
        if a <= u32::MAX as u64 && b <= u32::MAX as u64 {
            Some(((num as u32, 0), XrefEntry::Compressed(a as u32, b as u32)))
        } else {
            None
        }
    } else {
        Some(((num as u32, 0), XrefEntry::Free))
    }
}

/// Appends the entries of `count` rows of a cross-reference stream, and gives where they end.
fn parse_stream_rows(
    data: &[u8],
    pos: usize,
    w: (usize, usize, usize),
    num: u64,
    count: u64,
    out: &mut Vec<((u32, u16), XrefEntry)>,
) -> (r: Option<usize>)
    requires
        pos <= data@.len(),
        w.0 <= 8 && w.1 <= 8 && w.2 <= 8 && w.0 + w.1 + w.2 > 0,
    ensures
        ({
            let sw = (w.0 as nat, w.1 as nat, w.2 as nat);
            match r {
                Some(end) => {
                    &&& stream_rows(data@, pos as int, sw, num as nat, count as nat) matches Some(
                        rows,
                    )
                    &&& final(out)@ == old(out)@ + rows
                    &&& end == pos + count * (w.0 + w.1 + w.2)
                    &&& end <= data@.len()
                },
                None => stream_rows(data@, pos as int, sw, num as nat, count as nat) is None,
            }
        }),
{
    let ghost sw = (w.0 as nat, w.1 as nat, w.2 as nat);
    let ghost start = out@;
    let ghost whole = stream_rows(data@, pos as int, sw, num as nat, count as nat);
    let len: usize = w.0 + w.1 + w.2;
    let mut p: usize = pos;
    let mut n: u64 = num;
    let mut left: u64 = count;
    proof {
        assert(0 * len == 0);
        if let Some(rest) = whole {
            assert(start + rest =~= out@ + rest);
        }
    }
    while left > 0
        invariant
            p <= data@.len(),
            left <= count,
            p == pos + (count - left) * len,
            w.0 <= 8 && w.1 <= 8 && w.2 <= 8 && len > 0,
            len == w.0 + w.1 + w.2,
            sw == (w.0 as nat, w.1 as nat, w.2 as nat),
            start == old(out)@,
            whole == stream_rows(data@, pos as int, sw, num as nat, count as nat),
            match stream_rows(data@, p as int, sw, n as nat, left as nat) {
                Some(rest) => whole matches Some(rows) && start + rows == out@ + rest,
                None => whole is None,
            },
        decreases left,
    {
        if data.len() - p < len {
            return None;
        }
        match parse_stream_row(data, p, w, n) {
            Some(e) => {
                let ghost before = out@;
                out.push(e);
                proof {
                    if let Some(rest) = stream_rows(
                        data@,
                        p + len,
                        sw,
                        n as nat + 1,
                        (left - 1) as nat,
                    ) {
                        assert(before + (seq![e] + rest) =~= out@ + rest);
                    }
                    assert((count - left) * len + len == (count - (left - 1)) * len)
                        by (nonlinear_arith);
                }
                p += len;
                n += 1;
                left -= 1;
            },
            None => {
                return None;
            },
        }
    }
    assert(out@ + Seq::<((u32, u16), XrefEntry)>::empty() =~= out@);
    Some(p)
}

/// The entries of a cross-reference stream with the decoded bytes `data`, for the subsections
/// that `index` lists.
fn parse_stream_entries(data: &[u8], w: (usize, usize, usize), index: &[PdfObject]) -> (r: Option<
    Vec<((u32, u16), XrefEntry)>,
>)
    requires
        w.0 <= 8 && w.1 <= 8 && w.2 <= 8 && w.0 + w.1 + w.2 > 0,
    ensures
        ({
            let sw = (w.0 as nat, w.1 as nat, w.2 as nat);
            let all = stream_entries(data@, 0, sw, object::objects_view(index@), 0);
            match r {
                Some(entries) => all == Some(entries@),
                None => all is None,
            }
        }),
{
    let ghost sw = (w.0 as nat, w.1 as nat, w.2 as nat);
    let ghost list = object::objects_view(index@);
    let ghost whole = stream_entries(data@, 0, sw, list, 0);
    let mut out: Vec<((u32, u16), XrefEntry)> = Vec::new();
    let mut p: usize = 0;
    let mut i: usize = 0;
    proof {
        if let Some(rest) = whole {
            assert(out@ + rest =~= rest);
        }
    }
    while i < index.len()
        invariant
            p <= data@.len(),
            i <= index@.len(),
            w.0 <= 8 && w.1 <= 8 && w.2 <= 8 && w.0 + w.1 + w.2 > 0,
            sw == (w.0 as nat, w.1 as nat, w.2 as nat),
            list == object::objects_view(index@),
            whole == stream_entries(data@, 0, sw, list, 0),
            match stream_entries(data@, p as int, sw, list, i as int) {
                Some(rest) => whole == Some(out@ + rest),
                None => whole is None,
            },
        decreases index@.len() - i,
    {
        if index.len() - i < 2 {
            return None;
        }
        match (index[i].as_i64(), index[i + 1].as_i64()) {
            (Some(num), Some(count)) => {
                if num < 0 || count < 0 {
                    return None;
                }
                let ghost before = out@;
                match parse_stream_rows(data, p, w, num as u64, count as u64, &mut out) {
                    Some(end) => {
                        proof {
                            let rows = stream_rows(
                                data@,
                                p as int,
                                sw,
                                num as nat,
                                count as nat,
                            )->0;
                            if let Some(rest) = stream_entries(
                                data@,
                                end as int,
                                sw,
                                list,
                                i + 2,
                            ) {
                                assert(before + (rows + rest) =~= out@ + rest);
                            }
                        }
                        p = end;
                        i += 2;
                    },
                    None => {
                        return None;
                    },
                }
            },
            _ => {
                return None;
            },
        }
    }
    assert(out@ + Seq::<((u32, u16), XrefEntry)>::empty() =~= out@);
    Some(out)
}

/// The entries that a cross-reference stream with the dictionary `dict` and the decoded bytes
/// `data` states.
pub fn read_stream_section(dict: &PdfDict, data: &[u8]) -> (r: Option<
    Vec<((u32, u16), XrefEntry)>,
>)
    ensures
        match r {
            Some(entries) => stream_section(dict@, data@) == Some(
                Section { entries: entries@, trailer: dict@ },
            ),
            None => stream_section(dict@, data@) is None,
        },
{
    let w = match get_widths(dict) {
        Some(w) => w,
        None => {
            return None;
        },
    };
    match dict_get(dict, "Index".as_bytes()) {
        Some(PdfObject::Array(items)) => {
            proof {
                object::lemma_array_view(*items);
            }
            return parse_stream_entries(data, w, items.as_slice());
        },
        _ => {},
    }
    match dict_get(dict, "Size".as_bytes()) {
        Some(PdfObject::Integer(n)) => {
            let mut index: Vec<PdfObject> = Vec::new();
            index.push(PdfObject::Integer(0));
            index.push(PdfObject::Integer(*n));
            assert(object::objects_view(index@) =~= seq![Obj::Integer(0), Obj::Integer(*n)]);
            parse_stream_entries(data, w, index.as_slice())
        },
        _ => None,
    }
}

fn parse_section(data: &[u8], pos: usize) -> (r: Option<
    (Vec<((u32, u16), XrefEntry)>, PdfDict),
>)
    requires
        pos <= data@.len(),
    ensures
        match r {
            Some((entries, trailer)) => section_at(data@, pos as int) == Some(
                Section { entries: entries@, trailer: trailer@ },
            ),
            None => section_at(data@, pos as int) is None,
        },
{
    reveal(section_at);
    assert(data@.len() == data.len());
    let word = "xref".as_bytes();
    let p = skip_space(data, pos);
    if has_keyword(data, p, word) {
        return parse_table(data, p + word.len());
    }
    match parse_object(data, pos) {
        Ok((PdfObject::Stream(s), _)) => match decompress(&s) {
            Ok(out) => match read_stream_section(&s.dict, out.as_slice()) {
                Some(entries) => Some((entries, s.dict)),
                None => None,
            },
            Err(_) => None,
        },
        _ => None,
    }
}

/// Whether `keys` holds what `acc` lists.
#[verifier::opaque]
spec fn indexes(keys: Set<u64>, acc: Seq<((u32, u16), XrefEntry)>) -> bool {
    forall|id: (u32, u16)| keys.contains(#[trigger] id_key(id)) == listed(acc, id)
}

/// Appends those of `s` that are not listed yet. `keys` holds what is listed.
fn append_new(
    acc: &mut Vec<((u32, u16), XrefEntry)>,
    keys: &mut HashSet<u64>,
    s: &Vec<((u32, u16), XrefEntry)>,
)
    requires
        indexes(old(keys)@, old(acc)@),
    ensures
        final(acc)@ == added(old(acc)@, s@),
        indexes(final(keys)@, final(acc)@),
{
    broadcast use vstd::std_specs::hash::group_hash_axioms;

    let mut i: usize = 0;
    assert(s@.take(0) =~= Seq::<((u32, u16), XrefEntry)>::empty());
    while i < s.len()
        invariant
            i <= s@.len(),
            acc@ == added(old(acc)@, s@.take(i as int)),
            indexes(keys@, acc@),
        decreases s@.len() - i,
    {
        let e = s[i];
        assert(s@.take(i + 1).drop_last() =~= s@.take(i as int));
        let ghost before = acc@;
        proof {
            reveal(indexes);
        }
        if keys.insert(key_of(e.0)) {
            acc.push(e);
            assert forall|id: (u32, u16)|
                keys@.contains(#[trigger] id_key(id)) == listed(acc@, id) by {
                lemma_id_key(id);
                lemma_id_key(e.0);
                if listed(before, id) {
                    let j = choose|j: int| 0 <= j < before.len() && (#[trigger] before[j]).0 == id;
                    assert(acc@[j].0 == id);
                }
                if id == e.0 {
                    assert(acc@[before.len() as int].0 == id);
                }
            }
        }
        i += 1;
    }
    assert(s@.take(i as int) =~= s@);
}

fn get_prev(trailer: &PdfDict) -> (r: Option<i64>)
    ensures
        r == object::int_entry(trailer@, "Prev".spec_bytes()),
{
    match dict_get(trailer, "Prev".as_bytes()) {
        Some(o) => o.as_i64(),
        None => None,
    }
}

/// The entries of all sections, where a newer section's entry counts before an older one's,
/// and the trailer of the newest section.
pub fn parse_xref_chain(data: &[u8]) -> (r: Result<(XrefTable, PdfDict), Error>)
    ensures
        match r {
            Ok((table, trailer)) => xref_chain(data@) == Some((table.entries@, trailer@))
                && distinct(table.entries@),
            Err(e) => xref_chain(data@) is None && e@ == ErrorSpec::PdfParse("malformed xref"@),
        },
{
    broadcast use vstd::std_specs::hash::group_hash_axioms;

    assert(data@.len() == data.len());
    let word = "startxref".as_bytes();
    let start = match find_last(data, word) {
        Some(i) => {
            let p = skip_space(data, i + word.len());
            let (n, end) = parse_unsigned(data, p);
            match n {
                Some(n) => if end > p && n < data.len() as u64 {
                    n as usize
                } else {
                    return Err(Error::pdf_parse("malformed xref"));
                },
                None => {
                    return Err(Error::pdf_parse("malformed xref"));
                },
            }
        },
        None => {
            return Err(Error::pdf_parse("malformed xref"));
        },
    };
    let ghost d = data@;
    proof {
        lemma_chain_distinct(d, start as int, Seq::empty(), Set::empty());
    }
    let ghost whole = chain(d, start as int, Seq::empty(), Set::empty());
    let mut acc: Vec<((u32, u16), XrefEntry)> = Vec::new();
    let mut keys: HashSet<u64> = HashSet::new();
    let mut seen: HashSet<usize> = HashSet::new();
    assert(indexes(keys@, acc@)) by {
        reveal(indexes);
    }
    let (first, trailer) = match parse_section(data, start) {
        Some(section) => section,
        None => {
            return Err(Error::pdf_parse("malformed xref"));
        },
    };
    let mut prev = get_prev(&trailer);
    seen.insert(start);
    append_new(&mut acc, &mut keys, &first);
    let ghost mut visited = Set::<int>::empty().insert(start as int);
    while prev.is_some()
        invariant
            d == data@,
            data@.len() == data.len(),
            whole is None ==> xref_chain(d) is None,
            whole == match prev {
                Some(n) => chain(d, n as int, acc@, visited),
                None => Some(acc@),
            },
            forall|p: usize| seen@.contains(p) == visited.contains(p as int),
            forall|p: int| visited.contains(p) ==> 0 <= p < d.len(),
            indexes(keys@, acc@),
        decreases
            set_int_range(0, d.len() as int).difference(visited).len(),
            (if prev is Some { 1int } else { 0int }),
    {
        let n: i64 = prev.unwrap();
        if n < 0 || n as u64 >= data.len() as u64 {
            return Err(Error::pdf_parse("malformed xref"));
        }
        let pos: usize = n as usize;
        if !seen.insert(pos) {
            prev = None;
        } else {
            match parse_section(data, pos) {
                Some((entries, older)) => {
                    proof {
                        lemma_seen_fewer(d.len() as int, pos as int, visited);
                        visited = visited.insert(pos as int);
                    }
                    append_new(&mut acc, &mut keys, &entries);
                    prev = get_prev(&older);
                },
                None => {
                    return Err(Error::pdf_parse("malformed xref"));
                },
            }
        }
    }
    Ok((XrefTable { entries: acc }, trailer))
}

} // verus!
