//! Decrypting the strings and streams within an object.

use vstd::prelude::*;

use super::cipher;
use super::crypt;
use super::crypt::{decrypt_aes128, decrypt_rc4};
use super::object;
use super::object::{Obj, PdfDict, PdfObject};

verus! {

/// What an encrypted string or stream holds. Data that AES does not decrypt stays as it is.
pub open spec fn plain(data: Seq<u8>, key: Seq<u8>, use_aes: bool) -> Seq<u8> {
    if use_aes {
        match crypt::aes128_decrypted(key, data) {
            Some(out) => out,
            None => data,
        }
    } else {
        cipher::rc4(key, data)
    }
}

/// `o` with its strings and streams decrypted, at any depth, those in the dictionary of a
/// stream too.
pub open spec fn decrypted(o: Obj, key: Seq<u8>, use_aes: bool) -> Obj
    decreases o,
{
    match o {
        Obj::Str(s) => Obj::Str(plain(s, key, use_aes)),
        Obj::Stream(m, s) => Obj::Stream(
            Map::new(
                |k: Seq<u8>| m.contains_key(k),
                |k: Seq<u8>|
                    if m.contains_key(k) {
                        decrypted(m[k], key, use_aes)
                    } else {
                        Obj::Null
                    },
            ),
            plain(s, key, use_aes),
        ),
        Obj::Array(s) => Obj::Array(
            Seq::new(
                s.len(),
                |i: int|
                    if 0 <= i < s.len() {
                        decrypted(s[i], key, use_aes)
                    } else {
                        Obj::Null
                    },
            ),
        ),
        Obj::Dict(m) => Obj::Dict(
            Map::new(
                |k: Seq<u8>| m.contains_key(k),
                |k: Seq<u8>|
                    if m.contains_key(k) {
                        decrypted(m[k], key, use_aes)
                    } else {
                        Obj::Null
                    },
            ),
        ),
        _ => o,
    }
}

/// A dictionary with its values decrypted.
pub open spec fn decrypted_dict(m: Map<Seq<u8>, Obj>, key: Seq<u8>, use_aes: bool) -> Map<
    Seq<u8>,
    Obj,
> {
    Map::new(|k: Seq<u8>| m.contains_key(k), |k: Seq<u8>| decrypted(m[k], key, use_aes))
}

/// An array with its elements decrypted.
pub open spec fn decrypted_items(s: Seq<Obj>, key: Seq<u8>, use_aes: bool) -> Seq<Obj> {
    Seq::new(s.len(), |i: int| decrypted(s[i], key, use_aes))
}

/// Arrays and dictionaries are decrypted element by element, and so are the dictionaries of
/// streams.
pub proof fn lemma_decrypted(o: Obj, key: Seq<u8>, use_aes: bool)
    ensures
        match o {
            Obj::Array(s) => decrypted(o, key, use_aes) == Obj::Array(
                decrypted_items(s, key, use_aes),
            ),
            Obj::Dict(m) => decrypted(o, key, use_aes) == Obj::Dict(
                decrypted_dict(m, key, use_aes),
            ),
            Obj::Stream(m, s) => decrypted(o, key, use_aes) == Obj::Stream(
                decrypted_dict(m, key, use_aes),
                plain(s, key, use_aes),
            ),
            _ => true,
        },
{
    match o {
        Obj::Array(s) => {
            assert(decrypted(o, key, use_aes)->Array_0 =~= decrypted_items(s, key, use_aes));
        },
        Obj::Dict(m) => {
            assert(decrypted(o, key, use_aes)->Dict_0 =~= decrypted_dict(m, key, use_aes));
        },
        Obj::Stream(m, _) => {
            assert(decrypted(o, key, use_aes)->Stream_0 =~= decrypted_dict(m, key, use_aes));
        },
        _ => {},
    }
}

/// Decrypting each value of a list of entries decrypts what the list maps.
proof fn lemma_decrypted_entries(
    before: Seq<(Vec<u8>, PdfObject)>,
    after: Seq<(Vec<u8>, PdfObject)>,
    key: Seq<u8>,
    use_aes: bool,
)
    requires
        before.len() == after.len(),
        forall|i: int|
            0 <= i < before.len() ==> (#[trigger] after[i]).0@ == before[i].0@ && after[i].1@
                == decrypted(before[i].1@, key, use_aes),
    ensures
        object::entries_view(after) == decrypted_dict(object::entries_view(before), key, use_aes),
    decreases before.len(),
{
    if before.len() > 0 {
        let n = before.len() - 1;
        assert forall|i: int| 0 <= i < n implies (#[trigger] after.drop_last()[i]).0@
            == before.drop_last()[i].0@ && after.drop_last()[i].1@ == decrypted(
            before.drop_last()[i].1@,
            key,
            use_aes,
        ) by {
            assert(after[i].0@ == before[i].0@);
        }
        lemma_decrypted_entries(before.drop_last(), after.drop_last(), key, use_aes);
        assert(after[n].0@ == before[n].0@);
    }
    assert(object::entries_view(after) =~= decrypted_dict(
        object::entries_view(before),
        key,
        use_aes,
    ));
}

fn decrypt_bytes(data: &mut Vec<u8>, key: &[u8], use_aes: bool)
    requires
        !use_aes ==> 1 <= key@.len() <= 256,
    ensures
        final(data)@ == plain(old(data)@, key@, use_aes),
{
    if use_aes {
        match decrypt_aes128(key, data.as_slice()) {
            Some(out) => {
                *data = out;
            },
            None => {},
        }
    } else {
        *data = decrypt_rc4(key, data.as_slice());
    }
}

fn decrypt_items(items: &mut Vec<PdfObject>, key: &[u8], use_aes: bool)
    requires
        !use_aes ==> 1 <= key@.len() <= 256,
    ensures
        object::objects_view(final(items)@) == decrypted_items(
            object::objects_view(old(items)@),
            key@,
            use_aes,
        ),
    decreases *old(items),
{
    let ghost before = *items;
    let mut i: usize = 0;
    while i < items.len()
        invariant
            i <= items@.len(),
            !use_aes ==> 1 <= key@.len() <= 256,
            before == *old(items),
            items@.len() == before@.len(),
            forall|j: int|
                0 <= j < i ==> (#[trigger] items@[j])@ == decrypted(before@[j]@, key@, use_aes),
            forall|j: int| i <= j < items@.len() ==> #[trigger] items@[j] == before@[j],
        decreases items@.len() - i,
    {
        assert(decreases_to!(before => before@[i as int]));
        decrypt_object(&mut items[i], key, use_aes);
        i += 1;
    }
    assert(object::objects_view(items@) =~= decrypted_items(
        object::objects_view(before@),
        key@,
        use_aes,
    ));
}

fn decrypt_values(dict: &mut PdfDict, key: &[u8], use_aes: bool)
    requires
        !use_aes ==> 1 <= key@.len() <= 256,
    ensures
        final(dict)@ == decrypted_dict(old(dict)@, key@, use_aes),
    decreases *old(dict),
{
    let ghost before = *dict;
    let mut i: usize = 0;
    while i < dict.entries.len()
        invariant
            i <= dict.entries@.len(),
            !use_aes ==> 1 <= key@.len() <= 256,
            before == *old(dict),
            dict.entries@.len() == before.entries@.len(),
            forall|j: int|
                0 <= j < i ==> (#[trigger] dict.entries@[j]).0@ == before.entries@[j].0@
                    && dict.entries@[j].1@ == decrypted(before.entries@[j].1@, key@, use_aes),
            forall|j: int|
                i <= j < dict.entries@.len() ==> #[trigger] dict.entries@[j] == before.entries@[j],
        decreases dict.entries@.len() - i,
    {
        assert(decreases_to!(before => before.entries));
        assert(decreases_to!(before.entries => before.entries@[i as int]));
        assert(decreases_to!(before.entries@[i as int] => before.entries@[i as int].1));
        decrypt_object(&mut dict.entries[i].1, key, use_aes);
        i += 1;
    }
    proof {
        lemma_decrypted_entries(before.entries@, dict.entries@, key@, use_aes);
    }
}

/// Recursively decrypt strings and streams within a PDF object.
pub fn decrypt_object(obj: &mut PdfObject, key: &[u8], use_aes: bool)
    requires
        !use_aes ==> 1 <= key@.len() <= 256,
    ensures
        final(obj)@ == decrypted(old(obj)@, key@, use_aes),
    decreases *old(obj),
{
    proof {
        lemma_decrypted(obj@, key@, use_aes);
        if *obj is Array {
            object::lemma_array_view(obj->Array_0);
        }
    }
    match obj {
        PdfObject::Str(data) => {
            decrypt_bytes(data, key, use_aes);
        },
        PdfObject::Stream(stream) => {
            decrypt_values(&mut stream.dict, key, use_aes);
            decrypt_bytes(&mut stream.raw_data, key, use_aes);
        },
        PdfObject::Array(items) => {
            decrypt_items(items, key, use_aes);
            proof {
                object::lemma_array_view(*items);
            }
        },
        PdfObject::Dict(dict) => {
            decrypt_values(dict, key, use_aes);
        },
        _ => {},
    }
}

/// Decrypting leaves numbers, names and references alone, keeps strings strings and streams
/// streams, and keeps the keys of dictionaries and the length of arrays.
pub proof fn decryption_keeps_structure(o: Obj, key: Seq<u8>, use_aes: bool)
    ensures
        ({
            let r = decrypted(o, key, use_aes);
            match o {
                Obj::Str(_) => r is Str,
                Obj::Stream(m, _) => r matches Obj::Stream(n, _) && n.dom() == m.dom(),
                Obj::Array(s) => r matches Obj::Array(t) && t.len() == s.len(),
                Obj::Dict(m) => r matches Obj::Dict(n) && n.dom() == m.dom(),
                _ => r == o,
            }
        }),
{
    lemma_decrypted(o, key, use_aes);
    match o {
        Obj::Dict(m) => {
            assert(decrypted_dict(m, key, use_aes).dom() =~= m.dom());
        },
        Obj::Stream(m, _) => {
            assert(decrypted_dict(m, key, use_aes).dom() =~= m.dom());
        },
        _ => {},
    }
}

/// RC4 is symmetric: decrypting an object twice with one key gives back the object.
pub proof fn rc4_decryption_undoes_itself(o: Obj, key: Seq<u8>)
    ensures
        decrypted(decrypted(o, key, false), key, false) == o,
    decreases o,
{
    let r = decrypted(o, key, false);
    lemma_decrypted(o, key, false);
    lemma_decrypted(r, key, false);
    match o {
        Obj::Str(s) => {
            cipher::rc4_undoes_itself(key, s);
        },
        Obj::Stream(m, s) => {
            cipher::rc4_undoes_itself(key, s);
            let twice = decrypted_dict(decrypted_dict(m, key, false), key, false);
            assert forall|k: Seq<u8>| m.contains_key(k) implies #[trigger] twice[k] == m[k] by {
                rc4_decryption_undoes_itself(m[k], key);
            }
            assert(twice =~= m);
        },
        Obj::Array(s) => {
            let twice = decrypted_items(decrypted_items(s, key, false), key, false);
            assert forall|i: int| 0 <= i < s.len() implies #[trigger] twice[i] == s[i] by {
                rc4_decryption_undoes_itself(s[i], key);
            }
            assert(twice =~= s);
        },
        Obj::Dict(m) => {
            let twice = decrypted_dict(decrypted_dict(m, key, false), key, false);
            assert forall|k: Seq<u8>| m.contains_key(k) implies #[trigger] twice[k] == m[k] by {
                rc4_decryption_undoes_itself(m[k], key);
            }
            assert(twice =~= m);
        },
        _ => {},
    }
}

/// What decryption does to each kind of object: RC4 combines each byte of a string or of a
/// stream's data with the keystream; AES gives what the data decrypts to, and leaves data that
/// does not decrypt; the elements of arrays, the values of dictionaries and the values of the
/// dictionaries of streams are decrypted with the same key, each where it is; and everything
/// else stays.
pub proof fn every_string_and_stream_is_decrypted(o: Obj, key: Seq<u8>, use_aes: bool)
    ensures
        ({
            let r = decrypted(o, key, use_aes);
            match o {
                Obj::Str(s) => r matches Obj::Str(t) && is_plaintext(s, t, key, use_aes),
                Obj::Stream(m, s) => r matches Obj::Stream(n, t) && is_plaintext(
                    s,
                    t,
                    key,
                    use_aes,
                ) && n.dom() == m.dom() && forall|k: Seq<u8>| #[trigger]
                    m.contains_key(k) ==> n[k] == decrypted(m[k], key, use_aes),
                Obj::Array(s) => r matches Obj::Array(t) && t.len() == s.len() && forall|i: int|
                    0 <= i < s.len() ==> #[trigger] t[i] == decrypted(s[i], key, use_aes),
                Obj::Dict(m) => r matches Obj::Dict(n) && n.dom() == m.dom() && forall|k: Seq<u8>|
                    #[trigger] m.contains_key(k) ==> n[k] == decrypted(m[k], key, use_aes),
                _ => r == o,
            }
        }),
{
    lemma_decrypted(o, key, use_aes);
    match o {
        Obj::Dict(m) => {
            assert(decrypted_dict(m, key, use_aes).dom() =~= m.dom());
        },
        Obj::Stream(m, _) => {
            assert(decrypted_dict(m, key, use_aes).dom() =~= m.dom());
        },
        _ => {},
    }
}

/// Whether `t` is what `s` was before it was encrypted.
pub open spec fn is_plaintext(s: Seq<u8>, t: Seq<u8>, key: Seq<u8>, use_aes: bool) -> bool {
    if use_aes {
        match crypt::aes128_decrypted(key, s) {
            Some(out) => t == out,
            None => t == s,
        }
    } else {
        t.len() == s.len() && forall|i: int|
            0 <= i < s.len() ==> #[trigger] t[i] == s[i] ^ cipher::rc4_keystream(key, i)
    }
}

} // verus!
