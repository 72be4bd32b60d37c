//! PDF document structure.

use std::collections::HashMap;

use vstd::prelude::*;
use vstd::string::*;
use vstd::utf8::*;

use super::ascii;
use super::ascii::{ascii_ws, push_decimal, same_bytes, starts_at};
use super::crypt;
use super::crypt::{authenticate_user_password, object_key, EncryptionParams, ParamsSpec};
use super::decrypt;
use super::decrypt::decrypt_object;
use super::object;
use super::object::{copy_bytes, dict_get, get_int_or, Obj, PdfDict, PdfObject};
use super::objstm;
use super::objstm::extract_objstm_objects;
use super::tokenizer;
use super::tokenizer::parse_object;
use super::xref;
use super::xref::{key_of, parse_xref_chain, XrefEntry};
use crate::error::{Error, ErrorSpec};

verus! {

/// A parsed PDF document.
pub struct RawDocument {
    /// All loaded objects, keyed by object and generation number.
    objects: HashMap<u64, PdfObject>,
    /// The trailer dictionary (from the newest xref section).
    trailer: PdfDict,
    /// PDF version string (e.g., "1.4", "1.7").
    pub version: String,
    /// Objects the xref table pointed at that could not be loaded.
    skipped_objects: usize,
}

/// What a [`RawDocument`] holds.
pub struct DocSpec {
    pub objects: Map<(u32, u16), Obj>,
    pub trailer: Map<Seq<u8>, Obj>,
    pub version: Seq<char>,
    pub skipped: nat,
}

/// The objects in a map that is keyed by object and generation number as one number.
spec fn objects_of(m: Map<u64, PdfObject>) -> Map<(u32, u16), Obj> {
    Map::new(
        |id: (u32, u16)| m.contains_key(xref::id_key(id)),
        |id: (u32, u16)| m[xref::id_key(id)]@,
    )
}

impl View for RawDocument {
    type V = DocSpec;

    closed spec fn view(&self) -> DocSpec {
        DocSpec {
            objects: objects_of(self.objects@),
            trailer: self.trailer@,
            version: self.version@,
            skipped: self.skipped_objects as nat,
        }
    }
}

/// The object with the number `id`.
pub open spec fn object_of(objects: Map<(u32, u16), Obj>, id: (u32, u16)) -> Option<Obj> {
    if objects.contains_key(id) {
        Some(objects[id])
    } else {
        None
    }
}

/// What `o` refers to, following at most `hops` references. A reference to a missing object
/// stays.
pub open spec fn resolved(objects: Map<(u32, u16), Obj>, o: Obj, hops: nat) -> Obj
    decreases hops,
{
    if hops == 0 {
        o
    } else {
        match o {
            Obj::Reference(n, g) => if objects.contains_key((n, g)) {
                resolved(objects, objects[(n, g)], (hops - 1) as nat)
            } else {
                o
            },
            _ => o,
        }
    }
}

/// How many references are followed from one object to another.
pub const MAX_HOPS: usize = 10;

/// The words for the object with the number `id` in messages.
pub open spec fn object_words(id: (u32, u16)) -> Seq<char> {
    "object ("@ + ascii::decimal(id.0 as nat) + ", "@ + ascii::decimal(id.1 as nat) + ")"@
}

/// The dictionary that the object with the number `id` is, or that it has as a stream.
pub open spec fn dict_of(objects: Map<(u32, u16), Obj>, id: (u32, u16)) -> Result<
    Map<Seq<u8>, Obj>,
    ErrorSpec,
> {
    if !objects.contains_key(id) {
        Err(ErrorSpec::MissingObject(object_words(id)))
    } else {
        match resolved(objects, objects[id], MAX_HOPS as nat) {
            Obj::Dict(m) => Ok(m),
            Obj::Stream(m, _) => Ok(m),
            _ => Err(ErrorSpec::PdfParse(object_words(id) + " is not a dictionary"@)),
        }
    }
}

/// The catalog dictionary.
pub open spec fn catalog_of(doc: DocSpec) -> Result<Map<Seq<u8>, Obj>, ErrorSpec> {
    match object::entry(doc.trailer, "Root".spec_bytes()) {
        None => Err(ErrorSpec::MissingObject("trailer /Root"@)),
        Some(root) => match resolved(doc.objects, root, MAX_HOPS as nat) {
            Obj::Dict(m) => Ok(m),
            _ => Err(ErrorSpec::PdfParse("catalog is not a dictionary"@)),
        },
    }
}

/// The number of the root of the page tree.
pub open spec fn page_root(doc: DocSpec) -> Option<(u32, u16)> {
    match catalog_of(doc) {
        Ok(m) => object::reference_entry(m, "Pages".spec_bytes()),
        Err(_) => None,
    }
}

/// What the root of the page tree states as the number of pages.
pub open spec fn declared_count(doc: DocSpec) -> Option<u32> {
    match page_root(doc) {
        Some(root) => match dict_of(doc.objects, root) {
            Ok(m) => match object::int_entry(m, "Count".spec_bytes()) {
                Some(n) => if 0 <= n <= u32::MAX {
                    Some(n as u32)
                } else {
                    None
                },
                None => None,
            },
            Err(_) => None,
        },
        None => None,
    }
}

/// The first element of the trailer's /ID array, or nothing.
pub open spec fn file_id_of(trailer: Map<Seq<u8>, Obj>) -> Seq<u8> {
    match object::array_entry(trailer, "ID".spec_bytes()) {
        Some(s) => if s.len() > 0 && s[0] is Str {
            s[0]->Str_0
        } else {
            Seq::empty()
        },
        None => Seq::empty(),
    }
}

/// Whether the crypt filter that `m` names for streams or the one that it names for strings is
/// AES.
pub open spec fn names_aes(m: Map<Seq<u8>, Obj>) -> bool {
    is_aes_filter(m, "StmF".spec_bytes()) || is_aes_filter(m, "StrF".spec_bytes())
}

/// Whether the crypt filter that `m` names under `key` is AES.
pub open spec fn is_aes_filter(m: Map<Seq<u8>, Obj>, key: Seq<u8>) -> bool {
    match (object::dict_entry(m, "CF".spec_bytes()), object::name_entry(m, key)) {
        (Some(cf), Some(name)) => match object::dict_entry(cf, name) {
            Some(f) => object::name_entry(f, "CFM".spec_bytes()) == Some("AESV2".spec_bytes()),
            None => false,
        },
        _ => false,
    }
}

/// The encryption parameters that the dictionary `m` states. AES is a matter of revision 4.
pub open spec fn params_in(m: Map<Seq<u8>, Obj>, trailer: Map<Seq<u8>, Obj>) -> Option<
    ParamsSpec,
> {
    match (object::str_entry(m, "O".spec_bytes()), object::str_entry(m, "U".spec_bytes())) {
        (Some(o), Some(u)) => {
            let revision = object::int_or(m, "R".spec_bytes(), 0) as u32;
            Some(
                ParamsSpec {
                    version: object::int_or(m, "V".spec_bytes(), 0) as u32,
                    revision,
                    key_length: object::int_or(m, "Length".spec_bytes(), 40) as u32,
                    owner_hash: o,
                    user_hash: u,
                    permissions: object::int_or(m, "P".spec_bytes(), 0) as i32,
                    file_id: file_id_of(trailer),
                    use_aes: revision >= 4 && names_aes(m),
                    encrypt_metadata: object::entry(m, "EncryptMetadata".spec_bytes()) != Some(
                        Obj::Bool(false),
                    ),
                },
            )
        },
        _ => None,
    }
}

/// The encryption parameters of a document.
pub open spec fn params_of(doc: DocSpec) -> Option<ParamsSpec> {
    match object::reference_entry(doc.trailer, "Encrypt".spec_bytes()) {
        Some(id) => match dict_of(doc.objects, id) {
            Ok(m) => params_in(m, doc.trailer),
            Err(_) => None,
        },
        None => None,
    }
}

/// Whether the password of a document can be verified: where it has encryption parameters of a
/// revision that this library knows, they ask for a key of a usable length.
pub open spec fn unlockable(doc: DocSpec) -> bool {
    params_of(doc) matches Some(params) ==> (2 <= params.revision <= 4 ==> crypt::verifiable(
        params,
    ))
}

/// The file key, from what verifying the empty password gave and what verifying the offered
/// one gave, if one was offered.
pub open spec fn key_or_error(empty: Option<Seq<u8>>, offered: Option<Option<Seq<u8>>>) -> Result<
    Seq<u8>,
    ErrorSpec,
> {
    match empty {
        Some(key) => Ok(key),
        None => match offered {
            Some(Some(key)) => Ok(key),
            Some(None) => Err(ErrorSpec::InvalidPassword),
            None => Err(ErrorSpec::Encrypted),
        },
    }
}

/// The file key of a document with the parameters `params`, when `password` is offered. The
/// empty password is tried first, and is not an offer.
pub open spec fn file_key_of(params: ParamsSpec, password: Option<Seq<u8>>) -> Result<
    Seq<u8>,
    ErrorSpec,
> {
    key_or_error(
        crypt::authenticated(params, Seq::empty()),
        match password {
            Some(p) => if p.len() > 0 {
                Some(crypt::authenticated(params, p))
            } else {
                None
            },
            None => None,
        },
    )
}

/// The object with the number `id`, decrypted with its own key unless it is the one that is
/// left alone.
pub open spec fn decrypted_one(
    o: Obj,
    id: (u32, u16),
    file_key: Seq<u8>,
    use_aes: bool,
    except: Option<(u32, u16)>,
) -> Obj {
    if except == Some(id) {
        o
    } else {
        decrypt::decrypted(o, crypt::object_key_spec(file_key, id.0, id.1, use_aes), use_aes)
    }
}

/// `objects` decrypted, but for the one with the number `except`.
pub open spec fn decrypted_objects(
    objects: Map<(u32, u16), Obj>,
    file_key: Seq<u8>,
    use_aes: bool,
    except: Option<(u32, u16)>,
) -> Map<(u32, u16), Obj> {
    Map::new(
        |id: (u32, u16)| objects.contains_key(id),
        |id: (u32, u16)| decrypted_one(objects[id], id, file_key, use_aes, except),
    )
}

/// The objects of an encrypted document, decrypted with `password`.
#[verifier::opaque]
pub open spec fn unlocked(doc: DocSpec, password: Option<Seq<u8>>) -> Result<
    Map<(u32, u16), Obj>,
    ErrorSpec,
> {
    match params_of(doc) {
        None => Err(
            ErrorSpec::PdfParse("Encrypt dictionary present but could not be parsed"@),
        ),
        Some(params) => if params.revision > 4 || params.revision < 2 {
            Err(
                ErrorSpec::UnsupportedVersion(
                    "encryption revision "@ + ascii::decimal(params.revision as nat),
                ),
            )
        } else {
            match file_key_of(params, password) {
                Ok(key) => Ok(
                    decrypted_objects(
                        doc.objects,
                        key,
                        params.use_aes,
                        object::reference_entry(doc.trailer, "Encrypt".spec_bytes()),
                    ),
                ),
                Err(e) => Err(e),
            }
        },
    }
}

/// The version that the header of a file states: what follows `%PDF-` up to white space.
pub open spec fn version_of(d: Seq<u8>) -> Result<Seq<char>, ErrorSpec> {
    if d.len() < 8 || !ascii::at(d, 0, "%PDF-".spec_bytes()) {
        Err(ErrorSpec::UnknownFormat)
    } else {
        let version = d.subrange(5, version_end(d));
        if valid_utf8(version) {
            Ok(decode_utf8(version))
        } else {
            Err(ErrorSpec::PdfParse("invalid version string"@))
        }
    }
}

/// The position after the version in the header of a file.
pub open spec fn version_end(d: Seq<u8>) -> int {
    ascii::run_end(d, 5, |b: u8| !ascii::is_ascii_ws(b))
}

/// The objects that `entries` place in the file itself and that can be parsed there.
pub open spec fn direct_objects(d: Seq<u8>, entries: Seq<((u32, u16), XrefEntry)>) -> Map<
    (u32, u16),
    Obj,
>
    decreases entries.len(),
{
    if entries.len() == 0 {
        Map::empty()
    } else {
        let rest = direct_objects(d, entries.drop_last());
        match direct_object(d, entries.last().1) {
            Some(o) => rest.insert(entries.last().0, o),
            None => rest,
        }
    }
}

/// The object that an entry places in the file itself, if it can be parsed there.
pub open spec fn direct_object(d: Seq<u8>, e: XrefEntry) -> Option<Obj> {
    match e {
        XrefEntry::Uncompressed(offset) => match tokenizer::object_at(d, offset as int) {
            Some((o, _)) => Some(o),
            None => None,
        },
        _ => None,
    }
}

/// How many of `entries` place an object in the file itself that cannot be parsed there.
pub open spec fn direct_skipped(d: Seq<u8>, entries: Seq<((u32, u16), XrefEntry)>) -> nat
    decreases entries.len(),
{
    if entries.len() == 0 {
        0
    } else {
        let rest = direct_skipped(d, entries.drop_last());
        if entries.last().1 is Uncompressed && direct_object(d, entries.last().1) is None {
            rest + 1
        } else {
            rest
        }
    }
}

/// The objects that the object stream with the number `num` carries, if there is such a
/// stream and it can be read.
pub open spec fn stream_objects(objects: Map<(u32, u16), Obj>, num: u32) -> Option<
    Seq<Option<Obj>>,
> {
    match object_of(objects, (num, 0)) {
        Some(Obj::Stream(m, raw)) => match objstm::objstm_objects(m, raw) {
            Ok(s) => Some(s),
            Err(_) => None,
        },
        _ => None,
    }
}

/// The object that an entry places in an object stream, if it can be extracted.
pub open spec fn packed_object(objects: Map<(u32, u16), Obj>, e: XrefEntry) -> Option<Obj> {
    match e {
        XrefEntry::Compressed(num, index) => match stream_objects(objects, num) {
            Some(s) => if index < s.len() {
                s[index as int]
            } else {
                None
            },
            None => None,
        },
        _ => None,
    }
}

/// `objects`, and those that `entries` place in one of the object streams among them.
pub open spec fn unpacked_objects(
    objects: Map<(u32, u16), Obj>,
    entries: Seq<((u32, u16), XrefEntry)>,
) -> Map<(u32, u16), Obj>
    decreases entries.len(),
{
    if entries.len() == 0 {
        objects
    } else {
        let rest = unpacked_objects(objects, entries.drop_last());
        match packed_object(objects, entries.last().1) {
            Some(o) => rest.insert(entries.last().0, o),
            None => rest,
        }
    }
}

/// How many of `entries` place an object in an object stream from which it cannot be
/// extracted.
pub open spec fn packed_skipped(
    objects: Map<(u32, u16), Obj>,
    entries: Seq<((u32, u16), XrefEntry)>,
) -> nat
    decreases entries.len(),
{
    if entries.len() == 0 {
        0
    } else {
        let rest = packed_skipped(objects, entries.drop_last());
        if entries.last().1 is Compressed && packed_object(objects, entries.last().1) is None {
            rest + 1
        } else {
            rest
        }
    }
}

/// A file with the objects that it holds directly, before anything is decrypted, and where its
/// objects are.
#[verifier::opaque]
pub open spec fn opened(d: Seq<u8>) -> Result<
    (DocSpec, Seq<((u32, u16), XrefEntry)>),
    ErrorSpec,
> {
    match version_of(d) {
        Err(e) => Err(e),
        Ok(version) => match xref::xref_chain(d) {
            None => Err(ErrorSpec::PdfParse("malformed xref"@)),
            Some((entries, trailer)) => Ok(
                (
                    DocSpec {
                        objects: direct_objects(d, entries),
                        trailer,
                        version,
                        skipped: direct_skipped(d, entries),
                    },
                    entries,
                ),
            ),
        },
    }
}

/// The objects of a document after decryption, if it is encrypted.
pub open spec fn readable(doc: DocSpec, password: Option<Seq<u8>>) -> Result<
    Map<(u32, u16), Obj>,
    ErrorSpec,
> {
    if doc.trailer.contains_key("Encrypt".spec_bytes()) {
        unlocked(doc, password)
    } else {
        Ok(doc.objects)
    }
}

/// A document with the objects `objects` once decrypted, and those that its object streams
/// carry: they are extracted last, since the streams are encrypted themselves.
pub open spec fn completed(
    doc: DocSpec,
    entries: Seq<((u32, u16), XrefEntry)>,
    objects: Map<(u32, u16), Obj>,
) -> DocSpec {
    DocSpec {
        objects: unpacked_objects(objects, entries),
        trailer: doc.trailer,
        version: doc.version,
        skipped: doc.skipped + packed_skipped(objects, entries),
    }
}

/// The document in a file, when `password` is offered.
pub open spec fn loaded(d: Seq<u8>, password: Option<Seq<u8>>) -> Result<DocSpec, ErrorSpec> {
    match opened(d) {
        Err(e) => Err(e),
        Ok((doc, entries)) => match readable(doc, password) {
            Err(e) => Err(e),
            Ok(objects) => Ok(completed(doc, entries, objects)),
        },
    }
}

/// Whether loading a file asks for no key of an unusable length.
pub open spec fn loadable(d: Seq<u8>) -> bool {
    match opened(d) {
        Ok((doc, _)) => doc.trailer.contains_key("Encrypt".spec_bytes()) ==> unlockable(doc),
        Err(_) => true,
    }
}

/// What a lookup of a dictionary returned.
pub open spec fn dict_result(r: Result<&PdfDict, Error>) -> Result<Map<Seq<u8>, Obj>, ErrorSpec> {
    match r {
        Ok(d) => Ok(d@),
        Err(e) => Err(e@),
    }
}

/// Appends `object (n, g)`.
fn push_object_words(out: &mut String, id: (u32, u16))
    ensures
        final(out)@ == old(out)@ + object_words(id),
{
    out.append("object (");
    push_decimal(out, id.0 as u64);
    out.append(", ");
    push_decimal(out, id.1 as u64);
    out.append(")");
    assert(out@ =~= old(out)@ + object_words(id));
}

impl RawDocument {
    /// Get an object by its ID (object_number, generation_number).
    pub fn get_object(&self, id: (u32, u16)) -> (r: Option<&PdfObject>)
        ensures
            object::obj_opt(r) == object_of(self@.objects, id),
    {
        broadcast use vstd::std_specs::hash::group_hash_axioms;

        self.objects.get(&key_of(id))
    }

    /// Resolve a PdfObject: if it's a Reference, follow it to the actual object.
    /// If not a reference, return the object itself.
    pub fn resolve<'a>(&'a self, obj: &'a PdfObject) -> (r: &'a PdfObject)
        ensures
            r@ == resolved(self@.objects, obj@, MAX_HOPS as nat),
    {
        let mut current = obj;
        let mut hops: usize = MAX_HOPS;
        while hops > 0
            invariant
                resolved(self@.objects, current@, hops as nat) == resolved(
                    self@.objects,
                    obj@,
                    MAX_HOPS as nat,
                ),
            decreases hops,
        {
            match current {
                PdfObject::Reference(n, g) => match self.get_object((*n, *g)) {
                    Some(next) => {
                        current = next;
                    },
                    None => {
                        return current;
                    },
                },
                _ => {
                    return current;
                },
            }
            hops -= 1;
        }
        current
    }

    /// Get the version that the header states.
    pub fn version(&self) -> (r: &str)
        ensures
            r@ == self@.version,
    {
        self.version.as_str()
    }

    /// Get the trailer dictionary.
    pub fn trailer(&self) -> (r: &PdfDict)
        ensures
            r@ == self@.trailer,
    {
        &self.trailer
    }

    /// Get the catalog dictionary (via trailer /Root reference).
    pub fn catalog(&self) -> (r: Result<&PdfDict, Error>)
        ensures
            dict_result(r) == catalog_of(self@),
    {
        match dict_get(&self.trailer, "Root".as_bytes()) {
            None => Err(Error::MissingObject("trailer /Root".to_owned())),
            Some(root) => match self.resolve(root).as_dict() {
                Some(d) => Ok(d),
                None => Err(Error::pdf_parse("catalog is not a dictionary")),
            },
        }
    }

    /// Get a dictionary by object ID, resolving references.
    pub fn get_dict(&self, id: (u32, u16)) -> (r: Result<&PdfDict, Error>)
        ensures
            dict_result(r) == dict_of(self@.objects, id),
    {
        match self.get_object(id) {
            None => {
                let mut message = String::new();
                push_object_words(&mut message, id);
                assert(message@ =~= object_words(id));
                Err(Error::MissingObject(message))
            },
            Some(o) => match self.resolve(o) {
                PdfObject::Dict(d) => Ok(d),
                PdfObject::Stream(s) => Ok(&s.dict),
                _ => {
                    let mut message = String::new();
                    push_object_words(&mut message, id);
                    message.append(" is not a dictionary");
                    assert(message@ =~= object_words(id) + " is not a dictionary"@);
                    Err(Error::PdfParse(message))
                },
            },
        }
    }

    /// The number of the root of the page tree.
    pub(crate) fn page_tree_root(&self) -> (r: Option<(u32, u16)>)
        ensures
            r == page_root(self@),
    {
        match self.catalog() {
            Ok(c) => match dict_get(c, "Pages".as_bytes()) {
                Some(o) => o.as_reference(),
                None => None,
            },
            Err(_) => None,
        }
    }

    /// Page count as declared by the root `Pages` node (`/Count`), when it is readable.
    ///
    /// Independent of [`Self::pages`], which reports what the walk could actually reach.
    /// The two disagreeing means the file is damaged.
    pub fn declared_page_count(&self) -> (r: Option<u32>)
        ensures
            r == declared_count(self@),
    {
        match self.page_tree_root() {
            Some(root) => match self.get_dict(root) {
                Ok(d) => match dict_get(d, "Count".as_bytes()) {
                    Some(PdfObject::Integer(n)) => if 0 <= *n && *n <= u32::MAX as i64 {
                        Some(*n as u32)
                    } else {
                        None
                    },
                    _ => None,
                },
                Err(_) => None,
            },
            None => None,
        }
    }

    /// Number of objects the xref table pointed at that could not be loaded.
    pub fn skipped_object_count(&self) -> (n: usize)
        ensures
            n == self@.skipped,
    {
        self.skipped_objects
    }

    /// Check if the document is encrypted.
    pub fn is_encrypted(&self) -> (r: bool)
        ensures
            r == self@.trailer.contains_key("Encrypt".spec_bytes()),
    {
        match dict_get(&self.trailer, "Encrypt".as_bytes()) {
            Some(_) => true,
            None => false,
        }
    }
}

/// What is behind a byte string, when there is one.
pub open spec fn vec_opt(s: Option<Vec<u8>>) -> Option<Seq<u8>> {
    match s {
        Some(s) => Some(s@),
        None => None,
    }
}

/// The file key, from what verifying the empty password gave and what verifying the offered
/// one gave, if one was offered.
///
/// A password that was offered and did not work is [`Error::InvalidPassword`]: saying
/// [`Error::Encrypted`] would send the caller after a password they already gave.
pub fn choose_key(empty: Option<Vec<u8>>, offered: Option<Option<Vec<u8>>>) -> (r: Result<
    Vec<u8>,
    Error,
>)
    ensures
        ({
            let key = key_or_error(
                vec_opt(empty),
                match offered {
                    Some(k) => Some(vec_opt(k)),
                    None => None,
                },
            );
            match r {
                Ok(k) => key == Ok::<Seq<u8>, ErrorSpec>(k@),
                Err(e) => key == Err::<Seq<u8>, ErrorSpec>(e@),
            }
        }),
{
    match empty {
        Some(key) => Ok(key),
        None => match offered {
            Some(Some(key)) => Ok(key),
            Some(None) => Err(Error::InvalidPassword),
            None => Err(Error::Encrypted),
        },
    }
}

/// What a password is, as bytes.
pub open spec fn password_bytes(password: Option<&str>) -> Option<Seq<u8>> {
    match password {
        Some(p) => Some(p.spec_bytes()),
        None => None,
    }
}

fn get_str<'a>(dict: &'a PdfDict, key: &str) -> (r: Option<&'a [u8]>)
    ensures
        object::bytes_opt(r) == object::str_entry(dict@, key.spec_bytes()),
{
    match dict_get(dict, key.as_bytes()) {
        Some(o) => o.as_str_bytes(),
        None => None,
    }
}

fn get_name<'a>(dict: &'a PdfDict, key: &str) -> (r: Option<&'a [u8]>)
    ensures
        object::bytes_opt(r) == object::name_entry(dict@, key.spec_bytes()),
{
    match dict_get(dict, key.as_bytes()) {
        Some(o) => o.as_name(),
        None => None,
    }
}

fn get_subdict<'a>(dict: &'a PdfDict, key: &[u8]) -> (r: Option<&'a PdfDict>)
    ensures
        object::dict_opt(r) == object::dict_entry(dict@, key@),
{
    match dict_get(dict, key) {
        Some(o) => o.as_dict(),
        None => None,
    }
}

fn get_file_id(trailer: &PdfDict) -> (id: Vec<u8>)
    ensures
        id@ == file_id_of(trailer@),
{
    match dict_get(trailer, "ID".as_bytes()) {
        Some(o) => match o.as_array() {
            Some(items) => if items.len() > 0 {
                match items[0].as_str_bytes() {
                    Some(s) => copy_bytes(s),
                    None => Vec::new(),
                }
            } else {
                Vec::new()
            },
            None => Vec::new(),
        },
        None => Vec::new(),
    }
}

/// Whether the crypt filter named for streams or the one named for strings is AES.
fn uses_aes(dict: &PdfDict) -> (r: bool)
    ensures
        r == names_aes(dict@),
{
    names_aes_filter(dict, "StmF") || names_aes_filter(dict, "StrF")
}

/// Whether the crypt filter named under `key` is AES.
fn names_aes_filter(dict: &PdfDict, key: &str) -> (r: bool)
    ensures
        r == is_aes_filter(dict@, key.spec_bytes()),
{
    match (get_subdict(dict, "CF".as_bytes()), get_name(dict, key)) {
        (Some(cf), Some(name)) => match get_subdict(cf, name) {
            Some(f) => match get_name(f, "CFM") {
                Some(method) => same_bytes(method, "AESV2".as_bytes()),
                None => false,
            },
            None => false,
        },
        _ => false,
    }
}

impl RawDocument {
    /// Parse encryption parameters from the trailer /Encrypt dictionary.
    pub fn encryption_params(&self) -> (r: Option<EncryptionParams>)
        ensures
            match r {
                Some(params) => params_of(self@) == Some(params@),
                None => params_of(self@) is None,
            },
    {
        let id = match dict_get(&self.trailer, "Encrypt".as_bytes()) {
            Some(PdfObject::Reference(n, g)) => (*n, *g),
            _ => {
                return None;
            },
        };
        let dict = match self.get_dict(id) {
            Ok(dict) => dict,
            Err(_) => {
                return None;
            },
        };
        let revision: u32 = get_int_or(dict, "R", 0) as u32;
        // /EncryptMetadata defaults to true when absent.
        let encrypt_metadata = match dict_get(dict, "EncryptMetadata".as_bytes()) {
            Some(PdfObject::Bool(false)) => false,
            _ => true,
        };
        match (get_str(dict, "O"), get_str(dict, "U")) {
            (Some(o), Some(u)) => Some(
                EncryptionParams {
                    version: get_int_or(dict, "V", 0) as u32,
                    revision,
                    key_length: get_int_or(dict, "Length", 40) as u32,
                    owner_hash: copy_bytes(o),
                    user_hash: copy_bytes(u),
                    permissions: get_int_or(dict, "P", 0) as i32,
                    file_id: get_file_id(&self.trailer),
                    use_aes: revision >= 4 && uses_aes(dict),
                    encrypt_metadata,
                },
            ),
            _ => None,
        }
    }
}

/// Adding an object adds it to the objects.
proof fn lemma_objects_insert(m: Map<u64, PdfObject>, id: (u32, u16), o: PdfObject)
    ensures
        objects_of(m.insert(xref::id_key(id), o)) == objects_of(m).insert(id, o@),
{
    assert forall|other: (u32, u16)| other != id implies xref::id_key(other) != xref::id_key(id) by {
        xref::lemma_id_key(other);
        xref::lemma_id_key(id);
    }
    assert(objects_of(m.insert(xref::id_key(id), o)) =~= objects_of(m).insert(id, o@));
}

/// The keys of `m`, each once.
fn keys_of(m: &HashMap<u64, PdfObject>) -> (keys: Vec<u64>)
    ensures
        keys@.to_set() == m@.dom(),
        keys@.no_duplicates(),
{
    broadcast use vstd::std_specs::hash::group_hash_axioms;

    let mut keys: Vec<u64> = Vec::new();
    for key in iter: m.keys()
        invariant
            iter.seq().unref().to_set() == m@.dom(),
            iter.seq().no_duplicates(),
            keys@ == iter.seq().unref().take(iter.index()),
            iter.index() == iter.seq().len() ==> keys@ == iter.seq().unref(),
    {
        keys.push(*key);
        assert(keys@ =~= iter.seq().unref().take(iter.index() + 1));
    }
    keys
}

impl RawDocument {
    /// Decrypt all string and stream objects in the document.
    fn decrypt_objects(
        &mut self,
        file_key: &[u8],
        use_aes: bool,
        encrypt_obj_id: Option<(u32, u16)>,
    )
        requires
            1 <= file_key@.len() <= 16,
        ensures
            final(self)@ == (DocSpec {
                objects: decrypted_objects(old(self)@.objects, file_key@, use_aes, encrypt_obj_id),
                ..old(self)@
            }),
    {
        broadcast use vstd::std_specs::hash::group_hash_axioms;

        let ghost before = self.objects@;
        let keys = keys_of(&self.objects);
        let mut i: usize = 0;
        while i < keys.len()
            invariant
                i <= keys@.len(),
                1 <= file_key@.len() <= 16,
                keys@.no_duplicates(),
                keys@.to_set() == before.dom(),
                before == old(self).objects@,
                self.trailer == old(self).trailer,
                self.version == old(self).version,
                self.skipped_objects == old(self).skipped_objects,
                self.objects@.dom() == before.dom(),
                forall|j: int|
                    i <= j < keys@.len() ==> self.objects@[#[trigger] keys@[j]] == before[keys@[j]],
                forall|j: int|
                    0 <= j < i ==> self.objects@[#[trigger] keys@[j]]@ == decrypted_one(
                        before[keys@[j]]@,
                        xref::key_id(keys@[j]),
                        file_key@,
                        use_aes,
                        encrypt_obj_id,
                    ),
            decreases keys@.len() - i,
        {
            let key: u64 = keys[i];
            let id: (u32, u16) = ((key / 0x1_0000) as u32, (key % 0x1_0000) as u16);
            let skip = match encrypt_obj_id {
                Some(e) => e.0 == id.0 && e.1 == id.1,
                None => false,
            };
            if !skip {
                let obj_key = object_key(file_key, id.0, id.1, use_aes);
                match self.objects.remove(&key) {
                    Some(obj) => {
                        let mut obj = obj;
                        decrypt_object(&mut obj, obj_key.as_slice(), use_aes);
                        self.objects.insert(key, obj);
                    },
                    None => {},
                }
            }
            i += 1;
        }
        proof {
            let after = decrypted_objects(old(self)@.objects, file_key@, use_aes, encrypt_obj_id);
            assert forall|id: (u32, u16)| before.contains_key(xref::id_key(id)) implies self@.objects[id]
                == after[id] by {
                let key = xref::id_key(id);
                xref::lemma_id_key(id);
                assert(keys@.to_set().contains(key));
                let j = keys@.index_of(key);
                assert(keys@[j] == key);
            }
            assert(self@.objects =~= after);
        }
    }
}

/// `std::str::from_utf8`: the text that the bytes encode, failing exactly where they are not
/// valid UTF-8.
#[verifier::external_body]
fn utf8_text(bytes: &[u8]) -> (r: Option<String>)
    ensures
        match r {
            Some(s) => valid_utf8(bytes@) && s@ == decode_utf8(bytes@),
            None => !valid_utf8(bytes@),
        },
{
    std::str::from_utf8(bytes).ok().map(str::to_string)
}

/// Parse the PDF version from the file header (`%PDF-X.Y`).
fn parse_version(data: &[u8]) -> (r: Result<String, Error>)
    ensures
        match r {
            Ok(v) => version_of(data@) == Ok::<Seq<char>, ErrorSpec>(v@),
            Err(e) => version_of(data@) == Err::<Seq<char>, ErrorSpec>(e@),
        },
{
    if data.len() < 8 || !starts_at(data, 0, "%PDF-".as_bytes()) {
        return Err(Error::UnknownFormat);
    }
    let mut end: usize = 5;
    while end < data.len() && !ascii_ws(data[end])
        invariant
            5 <= end <= data@.len(),
            version_end(data@) == ascii::run_end(
                data@,
                end as int,
                |b: u8| !ascii::is_ascii_ws(b),
            ),
        decreases data@.len() - end,
    {
        end += 1;
    }
    match utf8_text(vstd::slice::slice_subrange(data, 5, end)) {
        Some(v) => Ok(v),
        None => Err(Error::pdf_parse("invalid version string")),
    }
}

/// The objects that `entries` place in the file itself, and how many of them cannot be parsed.
fn load_direct(data: &[u8], entries: &Vec<((u32, u16), XrefEntry)>) -> (r: (
    HashMap<u64, PdfObject>,
    usize,
))
    ensures
        objects_of(r.0@) == direct_objects(data@, entries@),
        r.1 == direct_skipped(data@, entries@),
        r.1 <= entries@.len(),
{
    broadcast use vstd::std_specs::hash::group_hash_axioms;

    let mut objects: HashMap<u64, PdfObject> = HashMap::new();
    let mut skipped: usize = 0;
    let mut i: usize = 0;
    assert(entries@.take(0) =~= Seq::<((u32, u16), XrefEntry)>::empty());
    assert(objects_of(objects@) =~= Map::<(u32, u16), Obj>::empty());
    while i < entries.len()
        invariant
            i <= entries@.len(),
            skipped <= i,
            objects_of(objects@) == direct_objects(data@, entries@.take(i as int)),
            skipped == direct_skipped(data@, entries@.take(i as int)),
        decreases entries@.len() - i,
    {
        assert(entries@.take(i + 1).drop_last() =~= entries@.take(i as int));
        let (id, entry) = entries[i];
        match entry {
            XrefEntry::Uncompressed(offset) => match parse_object(data, offset) {
                Ok((o, _)) => {
                    proof {
                        lemma_objects_insert(objects@, id, o);
                    }
                    objects.insert(key_of(id), o);
                },
                Err(_) => {
                    skipped += 1;
                },
            },
            _ => {},
        }
        i += 1;
    }
    assert(entries@.take(i as int) =~= entries@);
    (objects, skipped)
}

impl RawDocument {
    /// Attempt decryption with the empty user password, then with `password` if given.
    fn try_decrypt(&mut self, password: Option<&str>) -> (r: Result<(), Error>)
        requires
            unlockable(old(self)@),
        ensures
            match r {
                Ok(_) => unlocked(old(self)@, password_bytes(password)) == Ok::<
                    Map<(u32, u16), Obj>,
                    ErrorSpec,
                >(final(self)@.objects) && final(self)@ == (DocSpec {
                    objects: final(self)@.objects,
                    ..old(self)@
                }),
                Err(e) => unlocked(old(self)@, password_bytes(password)) == Err::<
                    Map<(u32, u16), Obj>,
                    ErrorSpec,
                >(e@) && *final(self) == *old(self),
            },
    {
        reveal(unlocked);
        let params = match self.encryption_params() {
            Some(params) => params,
            None => {
                return Err(
                    Error::pdf_parse("Encrypt dictionary present but could not be parsed"),
                );
            },
        };
        // RC4 and AES-128 only: AES-256 (revisions 5 and 6) is not implemented.
        if params.revision > 4 || params.revision < 2 {
            let mut message = "encryption revision ".to_owned();
            push_decimal(&mut message, params.revision as u64);
            return Err(Error::UnsupportedVersion(message));
        }
        let no_password: Vec<u8> = Vec::new();
        assert(no_password@ =~= Seq::<u8>::empty());
        let empty = authenticate_user_password(&params, no_password.as_slice());
        let offered = if empty.is_some() {
            None
        } else {
            match password {
                Some(p) => if p.as_bytes().len() > 0 {
                    Some(authenticate_user_password(&params, p.as_bytes()))
                } else {
                    None
                },
                None => None,
            }
        };
        let key = match choose_key(empty, offered) {
            Ok(key) => key,
            Err(e) => {
                return Err(e);
            },
        };
        let encrypt_obj_id = match dict_get(&self.trailer, "Encrypt".as_bytes()) {
            Some(o) => o.as_reference(),
            None => None,
        };
        self.decrypt_objects(key.as_slice(), params.use_aes, encrypt_obj_id);
        Ok(())
    }

    /// A file with the objects that it holds directly, and where its objects are.
    fn open(data: &[u8]) -> (r: Result<(RawDocument, Vec<((u32, u16), XrefEntry)>), Error>)
        ensures
            match r {
                Ok((doc, entries)) => opened(data@) == Ok::<
                    (DocSpec, Seq<((u32, u16), XrefEntry)>),
                    ErrorSpec,
                >((doc@, entries@)) && doc@.skipped == direct_skipped(data@, entries@),
                Err(e) => opened(data@) == Err::<
                    (DocSpec, Seq<((u32, u16), XrefEntry)>),
                    ErrorSpec,
                >(e@),
            },
    {
        reveal(opened);
        let version = match parse_version(data) {
            Ok(version) => version,
            Err(e) => {
                return Err(e);
            },
        };
        let (table, trailer) = match parse_xref_chain(data) {
            Ok(r) => r,
            Err(e) => {
                return Err(e);
            },
        };
        let (objects, skipped_objects) = load_direct(data, &table.entries);
        Ok((RawDocument { objects, trailer, version, skipped_objects }, table.entries))
    }
}

/// No entry is skipped twice.
proof fn lemma_skipped_bound(
    d: Seq<u8>,
    objects: Map<(u32, u16), Obj>,
    entries: Seq<((u32, u16), XrefEntry)>,
)
    ensures
        direct_skipped(d, entries) + packed_skipped(objects, entries) <= entries.len(),
    decreases entries.len(),
{
    if entries.len() > 0 {
        lemma_skipped_bound(d, objects, entries.drop_last());
    }
}

/// More entries are not fewer skipped.
proof fn lemma_packed_prefix(
    objects: Map<(u32, u16), Obj>,
    entries: Seq<((u32, u16), XrefEntry)>,
    n: int,
)
    requires
        0 <= n <= entries.len(),
    ensures
        packed_skipped(objects, entries.take(n)) <= packed_skipped(objects, entries),
    decreases entries.len(),
{
    if n < entries.len() {
        lemma_packed_prefix(objects, entries.drop_last(), n);
        assert(entries.drop_last().take(n) =~= entries.take(n));
    } else {
        assert(entries.take(n) =~= entries);
    }
}

/// What an object stream was read to carry.
spec fn slots_opt(s: Option<Vec<Option<PdfObject>>>) -> Option<Seq<Option<Obj>>> {
    match s {
        Some(s) => Some(objstm::slots_view(s@)),
        None => None,
    }
}

/// Whether `read` holds what the object streams among `objects` carry.
spec fn holds_streams(
    read: Map<u32, Option<Vec<Option<PdfObject>>>>,
    objects: Map<(u32, u16), Obj>,
) -> bool {
    forall|num: u32| #[trigger]
        read.contains_key(num) ==> slots_opt(read[num]) == stream_objects(objects, num)
}

impl RawDocument {
    /// The objects that the object stream with the number `num` carries.
    fn read_stream(&self, num: u32) -> (r: Option<Vec<Option<PdfObject>>>)
        ensures
            slots_opt(r) == stream_objects(self@.objects, num),
    {
        match self.get_object((num, 0)) {
            Some(PdfObject::Stream(s)) => match extract_objstm_objects(s) {
                Ok(slots) => Some(slots),
                Err(_) => None,
            },
            _ => None,
        }
    }

    /// Extract compressed objects from object streams.
    ///
    /// An unusable stream loses every object it carried, and each of them counts.
    fn unpack(&mut self, entries: &Vec<((u32, u16), XrefEntry)>)
        requires
            old(self)@.skipped + packed_skipped(old(self)@.objects, entries@) <= usize::MAX,
        ensures
            final(self)@ == completed(old(self)@, entries@, old(self)@.objects),
    {
        broadcast use vstd::std_specs::hash::group_hash_axioms;

        let ghost base = self@.objects;
        let mut read: HashMap<u32, Option<Vec<Option<PdfObject>>>> = HashMap::new();
        let mut i: usize = 0;
        while i < entries.len()
            invariant
                i <= entries@.len(),
                base == self@.objects,
                *self == *old(self),
                holds_streams(read@, base),
                forall|j: int|
                    0 <= j < i ==> ((#[trigger] entries@[j]).1 matches XrefEntry::Compressed(num, _)
                        ==> read@.contains_key(num)),
            decreases entries@.len() - i,
        {
            match entries[i].1 {
                XrefEntry::Compressed(num, _) => {
                    if !read.contains_key(&num) {
                        read.insert(num, self.read_stream(num));
                    }
                },
                _ => {},
            }
            i += 1;
        }
        i = 0;
        assert(entries@.take(0) =~= Seq::<((u32, u16), XrefEntry)>::empty());
        while i < entries.len()
            invariant
                i <= entries@.len(),
                base == old(self)@.objects,
                old(self)@.skipped + packed_skipped(base, entries@) <= usize::MAX,
                holds_streams(read@, base),
                forall|j: int|
                    0 <= j < entries@.len() ==> ((#[trigger] entries@[j]).1 matches XrefEntry::Compressed(
                        num,
                        _,
                    ) ==> read@.contains_key(num)),
                self.trailer == old(self).trailer,
                self.version == old(self).version,
                objects_of(self.objects@) == unpacked_objects(base, entries@.take(i as int)),
                self.skipped_objects == old(self).skipped_objects + packed_skipped(
                    base,
                    entries@.take(i as int),
                ),
            decreases entries@.len() - i,
        {
            assert(entries@.take(i + 1).drop_last() =~= entries@.take(i as int));
            proof {
                lemma_packed_prefix(base, entries@, i + 1);
            }
            let (id, entry) = entries[i];
            match entry {
                XrefEntry::Compressed(num, index) => {
                    assert(read@.contains_key(entries@[i as int].1->Compressed_0));
                    let slot: Option<PdfObject> = match read.get(&num) {
                        Some(Some(slots)) => if (index as u64) < slots.len() as u64 {
                            match &slots[index as usize] {
                                Some(o) => Some(o.clone()),
                                None => None,
                            }
                        } else {
                            None
                        },
                        _ => None,
                    };
                    match slot {
                        Some(o) => {
                            proof {
                                lemma_objects_insert(self.objects@, id, o);
                            }
                            self.objects.insert(key_of(id), o);
                        },
                        None => {
                            self.skipped_objects += 1;
                        },
                    }
                },
                _ => {},
            }
            i += 1;
        }
        assert(entries@.take(i as int) =~= entries@);
    }

    /// Load a PDF document from bytes, decrypting with the empty user password only.
    pub fn load(data: &[u8]) -> (r: Result<RawDocument, Error>)
        requires
            loadable(data@),
        ensures
            match r {
                Ok(doc) => loaded(data@, None) == Ok::<DocSpec, ErrorSpec>(doc@),
                Err(e) => loaded(data@, None) == Err::<DocSpec, ErrorSpec>(e@),
            },
    {
        Self::load_with_password(data, None)
    }

    /// Load a PDF document from bytes, offering `password` to an encrypted one.
    ///
    /// The empty password is always tried first: a document encrypted with an owner password
    /// only opens with it, and that is the common case. A caller-supplied password is tried
    /// when the empty one does not authenticate, and its failure is reported as
    /// [`Error::InvalidPassword`], distinct from [`Error::Encrypted`], which means no
    /// password was offered at all. The two send the caller in different directions: correct
    /// the password, or go and get one.
    pub fn load_with_password(data: &[u8], password: Option<&str>) -> (r: Result<
        RawDocument,
        Error,
    >)
        requires
            loadable(data@),
        ensures
            match r {
                Ok(doc) => loaded(data@, password_bytes(password)) == Ok::<DocSpec, ErrorSpec>(
                    doc@,
                ),
                Err(e) => loaded(data@, password_bytes(password)) == Err::<DocSpec, ErrorSpec>(e@),
            },
    {
        let (mut doc, entries) = match RawDocument::open(data) {
            Ok(r) => r,
            Err(e) => {
                return Err(e);
            },
        };
        // Object streams are encrypted, so they are read after decryption.
        if doc.is_encrypted() {
            match doc.try_decrypt(password) {
                Ok(_) => {},
                Err(e) => {
                    return Err(e);
                },
            }
        }
        proof {
            lemma_skipped_bound(data@, doc@.objects, entries@);
            assert(entries@.len() == entries.len());
        }
        doc.unpack(&entries);
        Ok(doc)
    }

    /// Whether loading asks for no key of an unusable length.
    pub fn can_load(data: &[u8]) -> (r: bool)
        ensures
            r == loadable(data@),
    {
        match RawDocument::open(data) {
            Ok((doc, _)) => if doc.is_encrypted() {
                match doc.encryption_params() {
                    Some(params) => params.revision < 2 || params.revision > 4 || (
                    params.key_length >= 8 && (params.revision == 2 || params.key_length / 8
                        <= 16)),
                    None => true,
                }
            } else {
                true
            },
            Err(_) => true,
        }
    }

    /// [`RawDocument::load`], or `None` where the file asks for a key of an unusable length.
    pub fn try_load(data: &[u8]) -> (r: Option<Result<RawDocument, Error>>)
        ensures
            match r {
                Some(Ok(doc)) => loadable(data@) && loaded(data@, None) == Ok::<DocSpec, ErrorSpec>(
                    doc@,
                ),
                Some(Err(e)) => loadable(data@) && loaded(data@, None) == Err::<DocSpec, ErrorSpec>(
                    e@,
                ),
                None => !loadable(data@),
            },
    {
        if RawDocument::can_load(data) {
            Some(RawDocument::load(data))
        } else {
            None
        }
    }

    /// [`RawDocument::load_with_password`], or `None` where the file asks for a key of an
    /// unusable length.
    pub fn try_load_with_password(data: &[u8], password: Option<&str>) -> (r: Option<
        Result<RawDocument, Error>,
    >)
        ensures
            match r {
                Some(Ok(doc)) => loadable(data@) && loaded(data@, password_bytes(password)) == Ok::<
                    DocSpec,
                    ErrorSpec,
                >(doc@),
                Some(Err(e)) => loadable(data@) && loaded(data@, password_bytes(password)) == Err::<
                    DocSpec,
                    ErrorSpec,
                >(e@),
                None => !loadable(data@),
            },
    {
        if RawDocument::can_load(data) {
            Some(RawDocument::load_with_password(data, password))
        } else {
            None
        }
    }
}

/// A document holds finitely many objects.
pub proof fn lemma_finite(doc: RawDocument)
    ensures
        doc@.objects.dom().finite(),
{
    broadcast use vstd::std_specs::hash::group_hash_axioms;

    let keys = doc.objects@.dom();
    let ids = keys.map(|k: u64| xref::key_id(k));
    keys.lemma_map_finite(|k: u64| xref::key_id(k));
    assert forall|id: (u32, u16)| doc@.objects.dom().contains(id) implies ids.contains(id) by {
        xref::lemma_id_key(id);
        assert(keys.contains(xref::id_key(id)));
    }
    vstd::set_lib::lemma_set_subset_finite(ids, doc@.objects.dom());
}

} // verus!
