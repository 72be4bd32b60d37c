//! What holds of every document that is loaded.

use vstd::prelude::*;
use vstd::string::*;

use super::ascii;
use super::crypt;
use super::crypt::ParamsSpec;
use super::decrypt;
use super::document;
use super::document::DocSpec;
use super::object;
use super::object::Obj;
use super::objstm;
use super::tokenizer;
use super::xref;
use super::xref::XrefEntry;
use crate::error::ErrorSpec;

verus! {

/// An empty string is not a password: offering it is offering none.
pub proof fn an_empty_password_is_none(d: Seq<u8>)
    ensures
        document::loaded(d, Some(Seq::empty())) == document::loaded(d, None),
{
    reveal(document::unlocked);
}

/// A document that opens without a password opens exactly the same whatever is offered.
pub proof fn a_password_that_is_not_needed_changes_nothing(d: Seq<u8>, password: Option<Seq<u8>>)
    requires
        document::loaded(d, None) is Ok,
    ensures
        document::loaded(d, password) == document::loaded(d, None),
{
    reveal(document::unlocked);
}

/// A failure that is not for want of a password stays the same whatever is offered.
pub proof fn a_password_does_not_mend_other_failures(d: Seq<u8>, password: Option<Seq<u8>>)
    requires
        document::loaded(d, None) matches Err(e) && e != ErrorSpec::Encrypted,
    ensures
        document::loaded(d, password) == document::loaded(d, None),
{
    reveal(document::unlocked);
    reveal(document::opened);
}

/// The two refusals are told apart: a document is refused as encrypted only when no password
/// was offered, and a password is refused only when one was offered to a document that does
/// not open without.
pub proof fn refusals_are_told_apart(d: Seq<u8>, password: Option<Seq<u8>>)
    ensures
        document::loaded(d, password) == Err::<DocSpec, ErrorSpec>(ErrorSpec::Encrypted) ==> (
        password matches Some(p) ==> p.len() == 0),
        document::loaded(d, password) == Err::<DocSpec, ErrorSpec>(ErrorSpec::InvalidPassword)
            ==> (password matches Some(p) && p.len() > 0 && document::loaded(d, None) == Err::<
            DocSpec,
            ErrorSpec,
        >(ErrorSpec::Encrypted)),
{
    reveal(document::unlocked);
    reveal(document::opened);
}

/// A password that is offered to a document that needs one either opens it or is refused as
/// wrong.
pub proof fn an_offered_password_opens_or_is_refused(d: Seq<u8>, password: Seq<u8>)
    requires
        document::loaded(d, None) == Err::<DocSpec, ErrorSpec>(ErrorSpec::Encrypted),
        password.len() > 0,
    ensures
        document::loaded(d, Some(password)) is Ok || document::loaded(d, Some(password)) == Err::<
            DocSpec,
            ErrorSpec,
        >(ErrorSpec::InvalidPassword),
{
    reveal(document::unlocked);
    reveal(document::opened);
}

/// A revision that is not implemented is refused as such, whatever password is offered.
pub proof fn an_unknown_revision_is_unsupported(
    doc: DocSpec,
    params: ParamsSpec,
    password: Option<Seq<u8>>,
)
    requires
        doc.trailer.contains_key("Encrypt".spec_bytes()),
        document::params_of(doc) == Some(params),
        params.revision < 2 || params.revision > 4,
    ensures
        document::readable(doc, password) matches Err(e) && e is UnsupportedVersion,
{
    reveal(document::unlocked);
}

/// Decryption keeps the numbers of all objects, and leaves the encryption dictionary itself
/// alone.
pub proof fn decryption_spares_the_encryption_dictionary(
    doc: DocSpec,
    password: Option<Seq<u8>>,
    id: (u32, u16),
)
    requires
        document::readable(doc, password) is Ok,
        object::reference_entry(doc.trailer, "Encrypt".spec_bytes()) == Some(id),
        doc.objects.contains_key(id),
    ensures
        document::readable(doc, password) matches Ok(objects) && objects.dom() == doc.objects.dom()
            && objects[id] == doc.objects[id],
{
    reveal(document::unlocked);
    let objects = document::readable(doc, password)->Ok_0;
    assert(objects.dom() =~= doc.objects.dom());
}

/// Only the first 32 bytes of a password count.
pub proof fn only_the_first_bytes_of_a_password_count(params: ParamsSpec, password: Seq<u8>)
    requires
        password.len() >= 32,
    ensures
        crypt::authenticated(params, password) == crypt::authenticated(params, password.take(32)),
{
    assert(password.take(32).take(32) =~= password.take(32));
}

/// How many of `entries` are of the kind that says where an object is.
pub open spec fn in_use(entries: Seq<((u32, u16), XrefEntry)>) -> nat
    decreases entries.len(),
{
    if entries.len() == 0 {
        0
    } else if entries.last().1 is Free {
        in_use(entries.drop_last())
    } else {
        in_use(entries.drop_last()) + 1
    }
}

/// How many of `entries` place an object in the file itself.
spec fn direct_count(entries: Seq<((u32, u16), XrefEntry)>) -> nat
    decreases entries.len(),
{
    if entries.len() == 0 {
        0
    } else if entries.last().1 is Uncompressed {
        direct_count(entries.drop_last()) + 1
    } else {
        direct_count(entries.drop_last())
    }
}

/// How many of `entries` place an object in an object stream.
spec fn packed_count(entries: Seq<((u32, u16), XrefEntry)>) -> nat
    decreases entries.len(),
{
    if entries.len() == 0 {
        0
    } else if entries.last().1 is Compressed {
        packed_count(entries.drop_last()) + 1
    } else {
        packed_count(entries.drop_last())
    }
}

proof fn lemma_counts(entries: Seq<((u32, u16), XrefEntry)>)
    ensures
        in_use(entries) == direct_count(entries) + packed_count(entries),
    decreases entries.len(),
{
    if entries.len() > 0 {
        lemma_counts(entries.drop_last());
    }
}

/// Whether `id` is placed in the file itself.
spec fn is_direct(entries: Seq<((u32, u16), XrefEntry)>, id: (u32, u16)) -> bool {
    exists|i: int| 0 <= i < entries.len() && (#[trigger] entries[i]).0 == id && entries[i].1 is
        Uncompressed
}

/// Whether `id` is placed in an object stream.
spec fn is_packed(entries: Seq<((u32, u16), XrefEntry)>, id: (u32, u16)) -> bool {
    exists|i: int| 0 <= i < entries.len() && (#[trigger] entries[i]).0 == id && entries[i].1 is
        Compressed
}

proof fn lemma_direct(d: Seq<u8>, entries: Seq<((u32, u16), XrefEntry)>)
    requires
        xref::distinct(entries),
    ensures
        document::direct_objects(d, entries).dom().finite(),
        document::direct_objects(d, entries).len() + document::direct_skipped(d, entries)
            == direct_count(entries),
        forall|id: (u32, u16)| #[trigger]
            document::direct_objects(d, entries).contains_key(id) ==> is_direct(entries, id),
    decreases entries.len(),
{
    if entries.len() > 0 {
        let rest = entries.drop_last();
        lemma_direct(d, rest);
        let before = document::direct_objects(d, rest);
        let id = entries.last().0;
        if before.contains_key(id) {
            let i = choose|i: int|
                0 <= i < rest.len() && (#[trigger] rest[i]).0 == id && rest[i].1 is Uncompressed;
            assert(entries[i].0 == entries[entries.len() - 1].0);
        }
        let after = document::direct_objects(d, entries);
        assert forall|x: (u32, u16)| #[trigger] after.contains_key(x) implies is_direct(
            entries,
            x,
        ) by {
            if before.contains_key(x) {
                let i = choose|i: int|
                    0 <= i < rest.len() && (#[trigger] rest[i]).0 == x && rest[i].1 is Uncompressed;
                assert(entries[i].0 == x && entries[i].1 is Uncompressed);
            } else {
                let n = entries.len() - 1;
                assert(entries[n].0 == x && entries[n].1 is Uncompressed);
            }
        }
        if let Some(o) = document::direct_object(d, entries.last().1) {
            assert(after.dom() =~= before.dom().insert(id));
        }
    }
}

proof fn lemma_packed(
    objects: Map<(u32, u16), Obj>,
    entries: Seq<((u32, u16), XrefEntry)>,
    n: int,
)
    requires
        0 <= n <= entries.len(),
        xref::distinct(entries),
        objects.dom().finite(),
        forall|id: (u32, u16)| #[trigger] objects.contains_key(id) ==> is_direct(entries, id),
    ensures
        document::unpacked_objects(objects, entries.take(n)).dom().finite(),
        document::unpacked_objects(objects, entries.take(n)).len() + document::packed_skipped(
            objects,
            entries.take(n),
        ) == objects.len() + packed_count(entries.take(n)),
        forall|id: (u32, u16)| #[trigger]
            document::unpacked_objects(objects, entries.take(n)).contains_key(id)
                ==> objects.contains_key(id) || is_packed(entries.take(n), id),
    decreases n,
{
    let now = entries.take(n);
    if n > 0 {
        let rest = entries.take(n - 1);
        assert(now.drop_last() =~= rest);
        lemma_packed(objects, entries, n - 1);
        let before = document::unpacked_objects(objects, rest);
        let after = document::unpacked_objects(objects, now);
        let id = now.last().0;
        assert(now.last() == entries[n - 1]);
        if now.last().1 is Compressed {
            if before.contains_key(id) {
                if objects.contains_key(id) {
                    let i = choose|i: int|
                        0 <= i < entries.len() && (#[trigger] entries[i]).0 == id && entries[i].1 is
                            Uncompressed;
                    assert(entries[i].0 == entries[n - 1].0);
                } else {
                    let i = choose|i: int|
                        0 <= i < rest.len() && (#[trigger] rest[i]).0 == id && rest[i].1 is
                            Compressed;
                    assert(entries[i].0 == entries[n - 1].0);
                }
                assert(false);
            }
        }
        assert forall|x: (u32, u16)| #[trigger] after.contains_key(x) implies objects.contains_key(
            x,
        ) || is_packed(now, x) by {
            if before.contains_key(x) {
                if !objects.contains_key(x) {
                    let i = choose|i: int|
                        0 <= i < rest.len() && (#[trigger] rest[i]).0 == x && rest[i].1 is
                            Compressed;
                    assert(now[i].0 == x && now[i].1 is Compressed);
                }
            } else {
                assert(now[n - 1].0 == x && now[n - 1].1 is Compressed);
            }
        }
        if let Some(o) = document::packed_object(objects, now.last().1) {
            assert(after.dom() =~= before.dom().insert(id));
        }
    } else {
        assert(now =~= Seq::<((u32, u16), XrefEntry)>::empty());
    }
}

/// Nothing is lost in silence: each object that the cross-reference table places somewhere is
/// either among the loaded objects or counted as skipped.
pub proof fn every_object_is_loaded_or_counted(
    d: Seq<u8>,
    password: Option<Seq<u8>>,
    doc: DocSpec,
)
    requires
        document::loaded(d, password) == Ok::<DocSpec, ErrorSpec>(doc),
    ensures
        doc.objects.dom().finite(),
        xref::xref_chain(d) matches Some((entries, _)) && doc.objects.len() + doc.skipped == in_use(
            entries,
        ),
{
    reveal(document::opened);
    reveal(document::unlocked);
    let (entries, trailer) = xref::xref_chain(d)->0;
    xref::lemma_chain_distinct(
        d,
        xref::start_offset(d)->0 as int,
        Seq::empty(),
        Set::empty(),
    );
    lemma_counts(entries);
    lemma_direct(d, entries);
    let (first, _) = document::opened(d)->Ok_0;
    let objects = document::readable(first, password)->Ok_0;
    assert(objects.dom() =~= first.objects.dom());
    lemma_packed(objects, entries, entries.len() as int);
    assert(entries.take(entries.len() as int) =~= entries);
}

/// The entries that place an object in the object stream with the number `num`.
pub open spec fn group_of(entries: Seq<((u32, u16), XrefEntry)>, num: u32) -> Seq<
    ((u32, u16), XrefEntry),
> {
    entries.filter(|e: ((u32, u16), XrefEntry)| is_in_stream(e.1, num))
}

/// The entries that do not.
pub open spec fn others_than(entries: Seq<((u32, u16), XrefEntry)>, num: u32) -> Seq<
    ((u32, u16), XrefEntry),
> {
    entries.filter(|e: ((u32, u16), XrefEntry)| !is_in_stream(e.1, num))
}

/// Whether an entry places an object in the object stream with the number `num`.
pub open spec fn is_in_stream(e: XrefEntry, num: u32) -> bool {
    e matches XrefEntry::Compressed(n, _) && n == num
}

/// An object stream that cannot be used loses every object that it carried, and the whole
/// group is counted; the other objects are not touched by it.
pub proof fn an_unusable_stream_loses_its_whole_group(
    objects: Map<(u32, u16), Obj>,
    entries: Seq<((u32, u16), XrefEntry)>,
    num: u32,
)
    requires
        document::stream_objects(objects, num) is None,
    ensures
        document::packed_skipped(objects, entries) == group_of(entries, num).len()
            + document::packed_skipped(objects, others_than(entries, num)),
        document::unpacked_objects(objects, entries) == document::unpacked_objects(
            objects,
            others_than(entries, num),
        ),
    decreases entries.len(),
{
    reveal(Seq::filter);
    if entries.len() > 0 {
        let rest = entries.drop_last();
        an_unusable_stream_loses_its_whole_group(objects, rest, num);
        let last = entries.last();
        if is_in_stream(last.1, num) {
            assert(group_of(entries, num) =~= group_of(rest, num).push(last));
        } else {
            let others = others_than(rest, num);
            assert(others_than(entries, num) =~= others.push(last));
            assert(others.push(last).drop_last() =~= others);
        }
    }
}

/// Where no number occurs twice, an object is what its own entry places in the file.
pub proof fn lemma_direct_object(d: Seq<u8>, entries: Seq<((u32, u16), XrefEntry)>, k: int)
    requires
        xref::distinct(entries),
        0 <= k < entries.len(),
    ensures
        document::object_of(document::direct_objects(d, entries), entries[k].0)
            == document::direct_object(d, entries[k].1),
    decreases entries.len(),
{
    let rest = entries.drop_last();
    let n = entries.len() - 1;
    if k < n {
        lemma_direct_object(d, rest, k);
        assert(rest[k] == entries[k]);
        assert(entries[k].0 != entries[n].0);
    } else {
        lemma_direct_absent(d, rest, entries[k].0);
    }
}

/// What no entry numbers is no object.
pub proof fn lemma_direct_absent(
    d: Seq<u8>,
    entries: Seq<((u32, u16), XrefEntry)>,
    id: (u32, u16),
)
    requires
        forall|i: int| 0 <= i < entries.len() ==> (#[trigger] entries[i]).0 != id,
    ensures
        !document::direct_objects(d, entries).contains_key(id),
    decreases entries.len(),
{
    if entries.len() > 0 {
        assert(entries[entries.len() - 1].0 != id);
        assert forall|i: int| 0 <= i < entries.drop_last().len() implies (
        #[trigger] entries.drop_last()[i]).0 != id by {
            assert(entries.drop_last()[i] == entries[i]);
        }
        lemma_direct_absent(d, entries.drop_last(), id);
    }
}

/// What entries place in object streams is added to the objects and changes nothing else.
proof fn lemma_unpacked(
    objects: Map<(u32, u16), Obj>,
    entries: Seq<((u32, u16), XrefEntry)>,
    id: (u32, u16),
)
    requires
        xref::distinct(entries),
    ensures
        (forall|k: int| 0 <= k < entries.len() ==> (#[trigger] entries[k]).0 != id) ==>
            document::object_of(document::unpacked_objects(objects, entries), id)
            == document::object_of(objects, id),
        forall|k: int|
            0 <= k < entries.len() && (#[trigger] entries[k]).0 == id ==> document::object_of(
                document::unpacked_objects(objects, entries),
                id,
            ) == (match document::packed_object(objects, entries[k].1) {
                Some(o) => Some(o),
                None => document::object_of(objects, id),
            }),
    decreases entries.len(),
{
    if entries.len() > 0 {
        let rest = entries.drop_last();
        let n = entries.len() - 1;
        assert forall|i: int, j: int| 0 <= i < j < rest.len() implies (#[trigger] rest[i]).0 != (
        #[trigger] rest[j]).0 by {
            assert(entries[i].0 != entries[j].0);
        }
        lemma_unpacked(objects, rest, id);
        if entries[n].0 == id {
            assert forall|k: int| 0 <= k < rest.len() implies (#[trigger] rest[k]).0 != id by {
                assert(entries[k].0 != entries[n].0);
            }
        }
        assert forall|k: int|
            0 <= k < entries.len() && (#[trigger] entries[k]).0 == id implies document::object_of(
            document::unpacked_objects(objects, entries),
            id,
        ) == (match document::packed_object(objects, entries[k].1) {
            Some(o) => Some(o),
            None => document::object_of(objects, id),
        }) by {
            if k < n {
                assert(rest[k] == entries[k]);
                assert(entries[k].0 != entries[n].0);
            }
        }
        if forall|k: int| 0 <= k < entries.len() ==> (#[trigger] entries[k]).0 != id {
            assert(entries[n].0 != id);
            assert forall|k: int| 0 <= k < rest.len() implies (#[trigger] rest[k]).0 != id by {
                assert(rest[k] == entries[k]);
            }
        }
    }
}

/// Each object of a document that is not encrypted is what its own entry places: an entry for a
/// place in the file gives what is parsed there, an entry for a place in an object stream gives
/// what the stream carries at that index, and a free entry gives nothing. A number without an
/// entry has no object.
pub proof fn each_object_is_what_its_entry_places(
    d: Seq<u8>,
    password: Option<Seq<u8>>,
    doc: DocSpec,
    entries: Seq<((u32, u16), XrefEntry)>,
    id: (u32, u16),
)
    requires
        document::loaded(d, password) == Ok::<DocSpec, ErrorSpec>(doc),
        xref::xref_chain(d) matches Some((e, trailer)) && e == entries && !trailer.contains_key(
            "Encrypt".spec_bytes(),
        ),
    ensures
        (forall|k: int| 0 <= k < entries.len() ==> (#[trigger] entries[k]).0 != id)
            ==> !doc.objects.contains_key(id),
        forall|k: int|
            0 <= k < entries.len() && (#[trigger] entries[k]).0 == id ==> document::object_of(
                doc.objects,
                id,
            ) == (match entries[k].1 {
                XrefEntry::Uncompressed(offset) => match tokenizer::object_at(d, offset as int) {
                    Some((o, _)) => Some(o),
                    None => None,
                },
                XrefEntry::Compressed(num, index) => match document::object_of(
                    document::direct_objects(d, entries),
                    (num, 0),
                ) {
                    Some(Obj::Stream(m, raw)) => match objstm::objstm_objects(m, raw) {
                        Ok(slots) => if index < slots.len() {
                            slots[index as int]
                        } else {
                            None
                        },
                        Err(_) => None,
                    },
                    _ => None,
                },
                XrefEntry::Free => None,
            }),
{
    reveal(document::opened);
    xref::lemma_chain_distinct(
        d,
        xref::start_offset(d)->0 as int,
        Seq::empty(),
        Set::empty(),
    );
    let base = document::direct_objects(d, entries);
    lemma_unpacked(base, entries, id);
    if forall|k: int| 0 <= k < entries.len() ==> (#[trigger] entries[k]).0 != id {
        lemma_direct_absent(d, entries, id);
    }
    assert forall|k: int| 0 <= k < entries.len() && (#[trigger] entries[k]).0 == id implies
        document::object_of(base, id) == document::direct_object(d, entries[k].1) by {
        lemma_direct_object(d, entries, k);
    }
}

/// In an encrypted document each object that the file holds itself, but for the encryption
/// dictionary, is decrypted with the key that its own number gives it, and the objects in object
/// streams are taken from the streams once those are decrypted.
pub proof fn each_object_is_decrypted_with_its_own_key(
    doc: DocSpec,
    params: ParamsSpec,
    key: Seq<u8>,
    password: Option<Seq<u8>>,
    id: (u32, u16),
)
    requires
        doc.trailer.contains_key("Encrypt".spec_bytes()),
        document::params_of(doc) == Some(params),
        2 <= params.revision <= 4,
        document::file_key_of(params, password) == Ok::<Seq<u8>, ErrorSpec>(key),
        doc.objects.contains_key(id),
        doc.trailer["Encrypt".spec_bytes()] != Obj::Reference(id.0, id.1),
    ensures
        document::readable(doc, password) matches Ok(objects) && objects.contains_key(id)
            && objects[id] == decrypt::decrypted(
            doc.objects[id],
            crypt::object_key_spec(key, id.0, id.1, params.use_aes),
            params.use_aes,
        ),
{
    reveal(document::unlocked);
}

/// The file key is the one that verifying the empty password gives. Where it gives none, it is
/// the one that verifying the offered password gives, if that is not empty.
pub proof fn the_empty_password_is_tried_first(
    params: ParamsSpec,
    password: Option<Seq<u8>>,
    key: Seq<u8>,
)
    ensures
        document::file_key_of(params, password) == Ok::<Seq<u8>, ErrorSpec>(key) <==> (
        crypt::authenticated(params, Seq::empty()) == Some(key) || crypt::authenticated(
            params,
            Seq::empty(),
        ) is None && (password matches Some(p) && p.len() > 0 && crypt::authenticated(params, p)
            == Some(key))),
        document::file_key_of(params, password) == Err::<Seq<u8>, ErrorSpec>(
            ErrorSpec::InvalidPassword,
        ) <==> crypt::authenticated(params, Seq::empty()) is None && (password matches Some(p)
            && p.len() > 0 && crypt::authenticated(params, p) is None),
        document::file_key_of(params, password) == Err::<Seq<u8>, ErrorSpec>(ErrorSpec::Encrypted)
            <==> crypt::authenticated(params, Seq::empty()) is None && (password matches Some(p)
            ==> p.len() == 0),
{
}

/// The integer under a key, or a default where there is none.
pub open spec fn integer_under(m: Map<Seq<u8>, Obj>, key: Seq<u8>, default: i64) -> i64 {
    if m.contains_key(key) && m[key] is Integer {
        m[key]->Integer_0
    } else {
        default
    }
}

/// Whether the filter that is named under a key is one for AES.
pub open spec fn names_aesv2(m: Map<Seq<u8>, Obj>, key: Seq<u8>) -> bool {
    &&& m.contains_key(key)
    &&& m[key] is Name
    &&& m.contains_key("CF".spec_bytes())
    &&& m["CF".spec_bytes()] matches Obj::Dict(filters) && filters.contains_key(m[key]->Name_0)
        && (filters[m[key]->Name_0] matches Obj::Dict(f) && f.contains_key("CFM".spec_bytes())
        && f["CFM".spec_bytes()] == Obj::Name("AESV2".spec_bytes()))
}

/// The encryption parameters of a document are what its encryption dictionary states: /O and /U
/// are strings that have to be there, /V and /R and /P are 0 where they are not there and
/// /Length is 40, metadata is encrypted unless /EncryptMetadata is false, AES is used from
/// revision 4 on where the filter for streams or the one for strings is AESV2, and the file id
/// is the first string of the trailer's /ID.
pub proof fn encryption_parameters_are_what_the_dictionary_states(
    doc: DocSpec,
    id: (u32, u16),
    m: Map<Seq<u8>, Obj>,
    o: Seq<u8>,
    u: Seq<u8>,
)
    requires
        doc.trailer.contains_key("Encrypt".spec_bytes()),
        doc.trailer["Encrypt".spec_bytes()] == Obj::Reference(id.0, id.1),
        doc.objects.contains_key(id),
        doc.objects[id] == Obj::Dict(m),
        m.contains_key("O".spec_bytes()),
        m["O".spec_bytes()] == Obj::Str(o),
        m.contains_key("U".spec_bytes()),
        m["U".spec_bytes()] == Obj::Str(u),
    ensures
        document::params_of(doc) matches Some(p) && p.owner_hash == o && p.user_hash == u
            && p.version == integer_under(m, "V".spec_bytes(), 0) as u32 && p.revision
            == integer_under(m, "R".spec_bytes(), 0) as u32 && p.key_length == integer_under(
            m,
            "Length".spec_bytes(),
            40,
        ) as u32 && p.permissions == integer_under(m, "P".spec_bytes(), 0) as i32
            && p.encrypt_metadata == !(m.contains_key("EncryptMetadata".spec_bytes())
            && m["EncryptMetadata".spec_bytes()] == Obj::Bool(false)) && p.use_aes == (p.revision
            >= 4 && (names_aesv2(m, "StmF".spec_bytes()) || names_aesv2(m, "StrF".spec_bytes())))
            && p.file_id == (if doc.trailer.contains_key("ID".spec_bytes()) && (
        doc.trailer["ID".spec_bytes()] matches Obj::Array(s) && s.len() > 0 && s[0] is Str) {
            doc.trailer["ID".spec_bytes()]->Array_0[0]->Str_0
        } else {
            Seq::empty()
        }),
{
    reveal_with_fuel(document::resolved, 2);
}

/// Without a reference to a dictionary with /O and /U there are no encryption parameters.
pub proof fn encryption_parameters_need_their_dictionary(doc: DocSpec)
    requires
        !doc.trailer.contains_key("Encrypt".spec_bytes()) || !(
        doc.trailer["Encrypt".spec_bytes()] is Reference) || (doc.trailer["Encrypt".spec_bytes()]
            matches Obj::Reference(n, g) && (!doc.objects.contains_key((n, g)) || (doc.objects[(
            n,
            g,
        )] matches Obj::Dict(m) && (!(m.contains_key("O".spec_bytes()) && m["O".spec_bytes()] is
            Str) || !(m.contains_key("U".spec_bytes()) && m["U".spec_bytes()] is Str))))),
    ensures
        document::params_of(doc) is None,
{
    reveal_with_fuel(document::resolved, 2);
}

/// Whether `a` is a reference to `b`.
pub open spec fn refers_to(objects: Map<(u32, u16), Obj>, a: Obj, b: Obj) -> bool {
    a matches Obj::Reference(n, g) && objects.contains_key((n, g)) && objects[(n, g)] == b
}

/// A reference is followed to what it refers to: along a chain of at most ten references to what
/// is no reference or refers to nothing, and along a longer one to where ten references lead.
///
/// `path` is the chain: each of its objects but the last refers to the one after it.
pub proof fn references_are_followed(objects: Map<(u32, u16), Obj>, path: Seq<Obj>)
    requires
        1 <= path.len() <= 11,
        forall|i: int, j: int|
            0 <= i < path.len() - 1 && j == i + 1 ==> refers_to(
                objects,
                #[trigger] path[i],
                #[trigger] path[j],
            ),
        path.len() == 11 || !(path.last() matches Obj::Reference(n, g) && objects.contains_key(
            (n, g),
        )),
    ensures
        document::resolved(objects, path[0], document::MAX_HOPS as nat) == path.last(),
{
    lemma_followed(objects, path, 10);
}

proof fn lemma_followed(objects: Map<(u32, u16), Obj>, path: Seq<Obj>, hops: nat)
    requires
        1 <= path.len() <= hops + 1,
        forall|i: int, j: int|
            0 <= i < path.len() - 1 && j == i + 1 ==> refers_to(
                objects,
                #[trigger] path[i],
                #[trigger] path[j],
            ),
        path.len() == hops + 1 || !(path.last() matches Obj::Reference(n, g)
            && objects.contains_key((n, g))),
    ensures
        document::resolved(objects, path[0], hops) == path.last(),
    decreases hops,
{
    if path.len() > 1 {
        let rest = path.skip(1);
        assert(refers_to(objects, path[0], path[1]));
        assert forall|i: int, j: int| 0 <= i < rest.len() - 1 && j == i + 1 implies refers_to(
            objects,
            #[trigger] rest[i],
            #[trigger] rest[j],
        ) by {
            assert(refers_to(objects, path[i + 1], path[j + 1]));
        }
        assert(rest[0] == path[1] && rest.last() == path.last());
        lemma_followed(objects, rest, (hops - 1) as nat);
    }
}

/// The dictionary of an object is that of a dictionary or of a stream, once references are
/// followed; another object has none, and neither has a number without an object. The two
/// failures are told apart.
pub proof fn dictionaries_are_those_of_dictionaries_and_streams(
    objects: Map<(u32, u16), Obj>,
    id: (u32, u16),
)
    ensures
        !objects.contains_key(id) ==> (document::dict_of(objects, id) matches Err(e) && e is
            MissingObject),
        objects.contains_key(id) ==> (match document::resolved(
            objects,
            objects[id],
            document::MAX_HOPS as nat,
        ) {
            Obj::Dict(m) => document::dict_of(objects, id) == Ok::<Map<Seq<u8>, Obj>, ErrorSpec>(m),
            Obj::Stream(m, _) => document::dict_of(objects, id) == Ok::<
                Map<Seq<u8>, Obj>,
                ErrorSpec,
            >(m),
            _ => document::dict_of(objects, id) matches Err(e) && e is PdfParse,
        }),
{
}

/// The catalog is the dictionary that the trailer's /Root leads to, and what it states as the
/// number of pages is the /Count of the dictionary that its /Pages leads to, where that is a
/// number of pages.
pub proof fn the_catalog_leads_to_the_declared_count(
    doc: DocSpec,
    catalog: (u32, u16),
    entries: Map<Seq<u8>, Obj>,
    root: (u32, u16),
    tree: Map<Seq<u8>, Obj>,
)
    requires
        doc.trailer.contains_key("Root".spec_bytes()),
        doc.trailer["Root".spec_bytes()] == Obj::Reference(catalog.0, catalog.1),
        doc.objects.contains_key(catalog),
        doc.objects[catalog] == Obj::Dict(entries),
        entries.contains_key("Pages".spec_bytes()),
        entries["Pages".spec_bytes()] == Obj::Reference(root.0, root.1),
        doc.objects.contains_key(root),
        doc.objects[root] == Obj::Dict(tree),
    ensures
        document::catalog_of(doc) == Ok::<Map<Seq<u8>, Obj>, ErrorSpec>(entries),
        document::page_root(doc) == Some(root),
        document::declared_count(doc) == (if tree.contains_key("Count".spec_bytes()) && (
        tree["Count".spec_bytes()] matches Obj::Integer(n) && 0 <= n <= u32::MAX) {
            Some(tree["Count".spec_bytes()]->Integer_0 as u32)
        } else {
            None
        }),
{
    reveal_with_fuel(document::resolved, 3);
}

/// A trailer without a /Root has no catalog for another reason than one whose /Root leads to
/// something other than a dictionary.
pub proof fn a_missing_root_is_told_from_a_wrong_one(doc: DocSpec)
    ensures
        !doc.trailer.contains_key("Root".spec_bytes()) ==> (document::catalog_of(doc) matches Err(e)
            && e is MissingObject),
        doc.trailer.contains_key("Root".spec_bytes()) && !(document::resolved(
            doc.objects,
            doc.trailer["Root".spec_bytes()],
            document::MAX_HOPS as nat,
        ) is Dict) ==> (document::catalog_of(doc) matches Err(e) && e is PdfParse),
{
}

/// The version is all that stands between `%PDF-` and the first white space, or the end of the
/// file where there is none.
pub proof fn the_version_is_what_follows_the_mark(version: Seq<u8>, rest: Seq<u8>)
    requires
        vstd::utf8::valid_utf8(version),
        version.len() + rest.len() >= 3,
        forall|i: int|
            0 <= i < version.len() ==> (#[trigger] version[i]) != 0x20 && version[i] != 0x09
                && version[i] != 0x0a && version[i] != 0x0c && version[i] != 0x0d,
        rest.len() > 0 ==> rest[0] == 0x20 || rest[0] == 0x09 || rest[0] == 0x0a || rest[0] == 0x0c
            || rest[0] == 0x0d,
    ensures
        document::version_of(seq![0x25u8, 0x50, 0x44, 0x46, 0x2d] + version + rest) == Ok::<
            Seq<char>,
            ErrorSpec,
        >(vstd::utf8::decode_utf8(version)),
{
    let mark = seq![0x25u8, 0x50, 0x44, 0x46, 0x2d];
    let d = mark + version + rest;
    reveal_strlit("%PDF-");
    assert("%PDF-".is_ascii());
    is_ascii_spec_bytes("%PDF-");
    assert("%PDF-".spec_bytes() =~= mark);
    assert(d.subrange(0, 5) =~= mark);
    lemma_version_end(d, 5, 5 + version.len() as int);
    assert(d.subrange(5, 5 + version.len() as int) =~= version);
}

proof fn lemma_version_end(d: Seq<u8>, pos: int, end: int)
    requires
        0 <= pos <= end <= d.len(),
        forall|i: int|
            pos <= i < end ==> (#[trigger] d[i]) != 0x20 && d[i] != 0x09 && d[i] != 0x0a && d[i]
                != 0x0c && d[i] != 0x0d,
        end < d.len() ==> d[end] == 0x20 || d[end] == 0x09 || d[end] == 0x0a || d[end] == 0x0c
            || d[end] == 0x0d,
    ensures
        ascii::run_end(d, pos, |b: u8| !ascii::is_ascii_ws(b)) == end,
    decreases end - pos,
{
    if pos < end {
        assert(d[pos] != 0x20);
        lemma_version_end(d, pos + 1, end);
    }
}

/// A file that does not start with `%PDF-`, or that has fewer than eight bytes, is of another
/// format, whatever password is offered.
pub proof fn another_format_is_refused_as_such(d: Seq<u8>, password: Option<Seq<u8>>)
    requires
        d.len() < 8 || d[0] != 0x25 || d[1] != 0x50 || d[2] != 0x44 || d[3] != 0x46 || d[4] != 0x2d,
    ensures
        document::loaded(d, password) == Err::<DocSpec, ErrorSpec>(ErrorSpec::UnknownFormat),
{
    reveal(document::opened);
    reveal_strlit("%PDF-");
    assert("%PDF-".is_ascii());
    is_ascii_spec_bytes("%PDF-");
    let mark = seq![0x25u8, 0x50, 0x44, 0x46, 0x2d];
    assert("%PDF-".spec_bytes() =~= mark);
    if d.len() >= 8 && ascii::at(d, 0, mark) {
        let s = d.subrange(0, 5);
        assert(s[0] == d[0] && s[1] == d[1] && s[2] == d[2] && s[3] == d[3] && s[4] == d[4]);
        assert(mark[0] == 0x25 && mark[1] == 0x50 && mark[2] == 0x44 && mark[3] == 0x46 && mark[4]
            == 0x2d);
    }
}

/// Which files can be loaded: all but those whose encryption parameters, of revision 2 to 4, ask
/// for a key of less than one byte or, from revision 3 on, of more than sixteen.
pub proof fn which_files_can_be_loaded(d: Seq<u8>)
    ensures
        document::loadable(d) <==> !(document::opened(d) matches Ok((doc, _))
            && doc.trailer.contains_key("Encrypt".spec_bytes()) && (document::params_of(
            doc,
        ) matches Some(p) && 2 <= p.revision <= 4 && (p.key_length < 8 || p.revision >= 3
            && p.key_length >= 136))),
{
}

/// A document without an encryption dictionary is read as it is.
pub proof fn what_is_not_encrypted_is_not_decrypted(doc: DocSpec, password: Option<Seq<u8>>)
    requires
        !doc.trailer.contains_key("Encrypt".spec_bytes()),
    ensures
        document::readable(doc, password) == Ok::<Map<(u32, u16), Obj>, ErrorSpec>(doc.objects),
{
}

} // verus!
