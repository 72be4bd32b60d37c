//! What cross-reference sections say together.

use vstd::prelude::*;
use vstd::set_lib::*;
use vstd::string::*;

use super::numbers;
use super::object;
use super::object::Obj;
use super::xref;
use super::xref::{Section, XrefEntry};

verus! {

/// Whether the entry at `i` is the first of its object.
pub open spec fn leads(s: Seq<((u32, u16), XrefEntry)>, i: int) -> bool {
    0 <= i < s.len() && forall|j: int| 0 <= j < i ==> (#[trigger] s[j]).0 != s[i].0
}

/// What was there stays, in its place; the first entry of an object that was not there is added;
/// and nothing else is.
pub proof fn the_first_entry_of_an_object_counts(
    acc: Seq<((u32, u16), XrefEntry)>,
    s: Seq<((u32, u16), XrefEntry)>,
)
    ensures
        xref::added(acc, s).len() >= acc.len(),
        xref::added(acc, s).take(acc.len() as int) == acc,
        forall|i: int|
            #![trigger s[i]]
            leads(s, i) && !xref::listed(acc, s[i].0) ==> xref::added(acc, s).contains(s[i]),
        forall|k: int|
            acc.len() <= k < xref::added(acc, s).len() ==> s.contains(
                #[trigger] xref::added(acc, s)[k],
            ),
    decreases s.len(),
{
    let out = xref::added(acc, s);
    if s.len() == 0 {
        assert(out.take(acc.len() as int) =~= acc);
    } else {
        let rest = s.drop_last();
        let before = xref::added(acc, rest);
        the_first_entry_of_an_object_counts(acc, rest);
        assert(out.take(acc.len() as int) =~= before.take(acc.len() as int));
        assert forall|k: int| acc.len() <= k < out.len() implies s.contains(#[trigger] out[k]) by {
            if k < before.len() {
                assert(out[k] == before[k]);
                let j = choose|j: int| 0 <= j < rest.len() && rest[j] == before[k];
                assert(s[j] == before[k]);
            } else {
                assert(s[s.len() - 1] == out[k]);
            }
        }
        assert forall|i: int|
            #![trigger s[i]]
            leads(s, i) && !xref::listed(acc, s[i].0) implies out.contains(s[i]) by {
            if i < rest.len() {
                assert(rest[i] == s[i]);
                assert(leads(rest, i)) by {
                    assert forall|j: int| 0 <= j < i implies (#[trigger] rest[j]).0
                        != rest[i].0 by {
                        assert(s[j].0 != s[i].0);
                    }
                }
                assert(before.contains(s[i]));
                let k = choose|k: int| 0 <= k < before.len() && before[k] == s[i];
                assert(out[k] == s[i]);
            } else {
                if xref::listed(before, s[i].0) {
                    let k = choose|k: int|
                        0 <= k < before.len() && (#[trigger] before[k]).0 == s[i].0;
                    if k < acc.len() {
                        assert(before.take(acc.len() as int)[k] == acc[k]);
                        assert(xref::listed(acc, s[i].0));
                    } else {
                        let j = choose|j: int| 0 <= j < rest.len() && rest[j] == before[k];
                        assert(s[j] == before[k]);
                        assert(s[j].0 != s[i].0);
                    }
                }
                assert(out[out.len() - 1] == s[i]);
            }
        }
    }
}

/// What was read stays where it is when older sections are read.
proof fn lemma_chain_keeps(
    d: Seq<u8>,
    pos: int,
    acc: Seq<((u32, u16), XrefEntry)>,
    seen: Set<int>,
)
    ensures
        xref::chain(d, pos, acc, seen) matches Some(out) ==> out.len() >= acc.len() && out.take(
            acc.len() as int,
        ) == acc,
    decreases set_int_range(0, d.len() as int).difference(seen).len(),
{
    if seen.contains(pos) || !(0 <= pos < d.len()) {
        assert(acc.take(acc.len() as int) =~= acc);
    } else {
        xref::lemma_seen_fewer(d.len() as int, pos, seen);
        if let Some(s) = xref::section_at(d, pos) {
            let now = xref::added(acc, s.entries);
            the_first_entry_of_an_object_counts(acc, s.entries);
            if let Some(prev) = object::int_entry(s.trailer, "Prev".spec_bytes()) {
                lemma_chain_keeps(d, prev as int, now, seen.insert(pos));
                if let Some(out) = xref::chain(d, prev as int, now, seen.insert(pos)) {
                    assert(out.take(acc.len() as int) =~= out.take(now.len() as int).take(
                        acc.len() as int,
                    ));
                }
            }
        }
    }
}

/// The newest section counts: the trailer is its trailer, and its entries stand as they are,
/// whatever older sections say.
pub proof fn the_newest_section_counts(
    d: Seq<u8>,
    pos: nat,
    s: Section,
    entries: Seq<((u32, u16), XrefEntry)>,
    trailer: Map<Seq<u8>, Obj>,
    i: int,
)
    requires
        xref::start_offset(d) == Some(pos),
        xref::xref_chain(d) == Some((entries, trailer)),
        xref::section_at(d, pos as int) == Some(s),
        leads(s.entries, i),
    ensures
        trailer == s.trailer,
        entries.contains(s.entries[i]),
{
    let none = Seq::<((u32, u16), XrefEntry)>::empty();
    let now = xref::added(none, s.entries);
    the_first_entry_of_an_object_counts(none, s.entries);
    assert(now.contains(s.entries[i])) by {
        assert(!xref::listed(none, s.entries[i].0));
    }
    if let Some(prev) = object::int_entry(s.trailer, "Prev".spec_bytes()) {
        lemma_chain_keeps(d, prev as int, now, Set::empty().insert(pos as int));
    }
    let k = choose|k: int| 0 <= k < now.len() && now[k] == s.entries[i];
    assert(entries.take(now.len() as int) =~= now);
    assert(entries.take(now.len() as int)[k] == entries[k]);
}

/// The section before it fills in the objects that the newest one does not list.
pub proof fn an_older_section_fills_in(
    d: Seq<u8>,
    pos: nat,
    s: Section,
    prev: i64,
    t: Section,
    entries: Seq<((u32, u16), XrefEntry)>,
    i: int,
)
    requires
        xref::start_offset(d) == Some(pos),
        xref::xref_chain(d) == Some((entries, s.trailer)),
        xref::section_at(d, pos as int) == Some(s),
        object::int_entry(s.trailer, "Prev".spec_bytes()) == Some(prev),
        prev != pos,
        xref::section_at(d, prev as int) == Some(t),
        leads(t.entries, i),
        !xref::listed(s.entries, t.entries[i].0),
    ensures
        entries.contains(t.entries[i]),
{
    let none = Seq::<((u32, u16), XrefEntry)>::empty();
    let now = xref::added(none, s.entries);
    let both = xref::added(now, t.entries);
    let seen = Set::empty().insert(pos as int);
    the_first_entry_of_an_object_counts(none, s.entries);
    the_first_entry_of_an_object_counts(now, t.entries);
    if xref::listed(now, t.entries[i].0) {
        let k = choose|k: int| 0 <= k < now.len() && (#[trigger] now[k]).0 == t.entries[i].0;
        let j = choose|j: int| 0 <= j < s.entries.len() && s.entries[j] == now[k];
        assert(xref::listed(s.entries, t.entries[i].0));
    }
    reveal_with_fuel(xref::chain, 3);
    assert(xref::chain(d, prev as int, now, seen) == Some(entries));
    if let Some(more) = object::int_entry(t.trailer, "Prev".spec_bytes()) {
        lemma_chain_keeps(d, more as int, both, seen.insert(prev as int));
    }
    let k = choose|k: int| 0 <= k < both.len() && both[k] == t.entries[i];
    assert(entries.take(both.len() as int) =~= both);
    assert(entries.take(both.len() as int)[k] == entries[k]);
}

/// Without an older section, nothing but the newest one's entries is there.
pub proof fn one_section_alone_is_all_there_is(
    d: Seq<u8>,
    pos: nat,
    s: Section,
    entries: Seq<((u32, u16), XrefEntry)>,
    trailer: Map<Seq<u8>, Obj>,
    k: int,
)
    requires
        xref::start_offset(d) == Some(pos),
        xref::xref_chain(d) == Some((entries, trailer)),
        xref::section_at(d, pos as int) == Some(s),
        object::int_entry(s.trailer, "Prev".spec_bytes()) is None,
        0 <= k < entries.len(),
    ensures
        s.entries.contains(entries[k]),
{
    the_first_entry_of_an_object_counts(Seq::empty(), s.entries);
}

/// A row of a cross-reference stream is three numbers, each written with its highest byte first:
/// what kind of row it is, and two more. Without the first, a row is of the first kind, and
/// states where an object starts and its generation; a row of the second kind states the object
/// stream that holds an object, and its place there; any other is of an object that is free.
pub proof fn a_row_of_a_stream_is_three_numbers(
    before: Seq<u8>,
    kind: Seq<u8>,
    a: Seq<u8>,
    b: Seq<u8>,
    after: Seq<u8>,
    num: u32,
)
    ensures
        ({
            let row = xref::stream_row(
                before + kind + a + b + after,
                before.len() as int,
                (kind.len(), a.len(), b.len()),
                num as nat,
            );
            let k = numbers::be_value(kind);
            let m = numbers::be_value(a);
            let n = numbers::be_value(b);
            if kind.len() == 0 || k == 1 {
                if m <= usize::MAX && n <= u16::MAX {
                    row matches Some((id, e)) && id.0 == num && id.1 == n && e is Uncompressed
                        && e->Uncompressed_0 == m
                } else {
                    row is None
                }
            } else if k == 2 {
                if m <= u32::MAX && n <= u32::MAX {
                    row matches Some((id, e)) && id.0 == num && id.1 == 0 && e is Compressed
                        && e->Compressed_0 == m && e->Compressed_1 == n
                } else {
                    row is None
                }
            } else {
                row matches Some((id, e)) && id.0 == num && id.1 == 0 && e is Free
            }
        }),
{
    let d = before + kind + a + b + after;
    let p = before.len() as int;
    assert(d.subrange(p, p + kind.len()) =~= kind);
    assert(d.subrange(p + kind.len(), p + kind.len() + a.len()) =~= a);
    assert(d.subrange(p + kind.len() + a.len(), p + kind.len() + a.len() + b.len()) =~= b);
}

/// Rows of a stream follow one another, and so do the objects they are of.
pub proof fn rows_of_a_stream_follow_one_another(
    d: Seq<u8>,
    w: (nat, nat, nat),
    num: nat,
    count: nat,
    i: nat,
)
    requires
        i < count,
        xref::stream_rows(d, 0, w, num, count) is Some,
    ensures
        xref::stream_rows(d, 0, w, num, count)->0.len() == count,
        xref::stream_row(d, (i * (w.0 + w.1 + w.2)) as int, w, num + i) == Some(
            xref::stream_rows(d, 0, w, num, count)->0[i as int],
        ),
{
    assert(0 * (w.0 + w.1 + w.2) == 0) by (nonlinear_arith);
    lemma_row(d, 0, w, num, count, i);
}

proof fn lemma_row(d: Seq<u8>, pos: int, w: (nat, nat, nat), num: nat, count: nat, i: nat)
    requires
        i < count,
        xref::stream_rows(d, pos, w, num, count) is Some,
    ensures
        xref::stream_rows(d, pos, w, num, count)->0.len() == count,
        xref::stream_row(d, pos + i * (w.0 + w.1 + w.2), w, num + i) == Some(
            xref::stream_rows(d, pos, w, num, count)->0[i as int],
        ),
    decreases count,
{
    let size = (w.0 + w.1 + w.2) as int;
    let next = pos + size;
    let rest = xref::stream_rows(d, next, w, num + 1, (count - 1) as nat);
    if count > 1 {
        lemma_row(d, next, w, num + 1, (count - 1) as nat, 0);
    }
    if i > 0 {
        lemma_row(d, next, w, num + 1, (count - 1) as nat, (i - 1) as nat);
        assert(next + (i - 1) * size == pos + i * size) by (nonlinear_arith)
            requires
                next == pos + size,
        ;
        assert(num + 1 + (i - 1) as nat == num + i);
    } else {
        assert(i * size == 0) by (nonlinear_arith)
            requires
                i == 0,
        ;
    }
}

} // verus!
