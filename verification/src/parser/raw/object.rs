//! The objects a PDF file is made of.

use vstd::prelude::*;
use vstd::string::*;

use super::ascii::same_bytes;

verus! {

/// One PDF object.
#[derive(Debug)]
pub enum PdfObject {
    Null,
    Bool(bool),
    Integer(i64),
    /// A number with a fractional part, or one too large for [`PdfObject::Integer`], as the
    /// file writes it.
    Real(Vec<u8>),
    Name(Vec<u8>),
    Str(Vec<u8>),
    Array(Vec<PdfObject>),
    Dict(PdfDict),
    Stream(PdfStream),
    /// An object number and a generation number.
    Reference(u32, u16),
}

/// A dictionary. Where a key occurs more than once, its last value counts.
#[derive(Debug)]
pub struct PdfDict {
    pub entries: Vec<(Vec<u8>, PdfObject)>,
}

/// A stream: its dictionary, and its bytes as the file stores them.
#[derive(Debug)]
pub struct PdfStream {
    pub dict: PdfDict,
    pub raw_data: Vec<u8>,
}

/// What a [`PdfObject`] is.
pub enum Obj {
    Null,
    Bool(bool),
    Integer(i64),
    Real(Seq<u8>),
    Name(Seq<u8>),
    Str(Seq<u8>),
    Array(Seq<Obj>),
    Dict(Map<Seq<u8>, Obj>),
    Stream(Map<Seq<u8>, Obj>, Seq<u8>),
    Reference(u32, u16),
}

/// What `o` is.
pub open spec fn object_view(o: PdfObject) -> Obj
    decreases o,
{
    match o {
        PdfObject::Null => Obj::Null,
        PdfObject::Bool(b) => Obj::Bool(b),
        PdfObject::Integer(n) => Obj::Integer(n),
        PdfObject::Real(s) => Obj::Real(s@),
        PdfObject::Name(s) => Obj::Name(s@),
        PdfObject::Str(s) => Obj::Str(s@),
        PdfObject::Array(v) => Obj::Array(
            Seq::new(
                v@.len(),
                |i: int|
                    if 0 <= i < v@.len() {
                        object_view(v@[i])
                    } else {
                        Obj::Null
                    },
            ),
        ),
        PdfObject::Dict(d) => Obj::Dict(dict_view(d)),
        PdfObject::Stream(s) => Obj::Stream(dict_view(s.dict), s.raw_data@),
        PdfObject::Reference(n, g) => Obj::Reference(n, g),
    }
}

/// What `d` maps its keys to.
pub open spec fn dict_view(d: PdfDict) -> Map<Seq<u8>, Obj>
    decreases d,
{
    entries_view(d.entries@)
}

/// The mapping that `e` lists, a later entry replacing an earlier one.
pub open spec fn entries_view(e: Seq<(Vec<u8>, PdfObject)>) -> Map<Seq<u8>, Obj>
    decreases e,
{
    if e.len() == 0 {
        Map::empty()
    } else {
        entries_view(e.drop_last()).insert(e.last().0@, object_view(e.last().1))
    }
}

/// What each element of `s` is.
pub open spec fn objects_view(s: Seq<PdfObject>) -> Seq<Obj> {
    Seq::new(s.len(), |i: int| object_view(s[i]))
}

/// An array is the sequence of what its elements are.
pub proof fn lemma_array_view(v: Vec<PdfObject>)
    ensures
        object_view(PdfObject::Array(v)) == Obj::Array(objects_view(v@)),
{
    let o = object_view(PdfObject::Array(v));
    assert(o->Array_0 =~= objects_view(v@));
}

impl View for PdfObject {
    type V = Obj;

    open spec fn view(&self) -> Obj {
        object_view(*self)
    }
}

impl View for PdfDict {
    type V = Map<Seq<u8>, Obj>;

    open spec fn view(&self) -> Map<Seq<u8>, Obj> {
        dict_view(*self)
    }
}

impl Obj {
    /// The integer that this is.
    pub open spec fn as_i64(self) -> Option<i64> {
        match self {
            Obj::Integer(n) => Some(n),
            _ => None,
        }
    }

    /// The name that this is.
    pub open spec fn as_name(self) -> Option<Seq<u8>> {
        match self {
            Obj::Name(s) => Some(s),
            _ => None,
        }
    }

    /// The string that this is.
    pub open spec fn as_str_bytes(self) -> Option<Seq<u8>> {
        match self {
            Obj::Str(s) => Some(s),
            _ => None,
        }
    }

    /// The array that this is.
    pub open spec fn as_array(self) -> Option<Seq<Obj>> {
        match self {
            Obj::Array(s) => Some(s),
            _ => None,
        }
    }

    /// The dictionary that this is. A stream is not one.
    pub open spec fn as_dict(self) -> Option<Map<Seq<u8>, Obj>> {
        match self {
            Obj::Dict(m) => Some(m),
            _ => None,
        }
    }

    /// The object and generation number that this refers to.
    pub open spec fn as_reference(self) -> Option<(u32, u16)> {
        match self {
            Obj::Reference(n, g) => Some((n, g)),
            _ => None,
        }
    }
}

/// What `m` maps `key` to.
pub open spec fn entry(m: Map<Seq<u8>, Obj>, key: Seq<u8>) -> Option<Obj> {
    if m.contains_key(key) {
        Some(m[key])
    } else {
        None
    }
}

/// The integer that `m` maps `key` to.
pub open spec fn int_entry(m: Map<Seq<u8>, Obj>, key: Seq<u8>) -> Option<i64> {
    match entry(m, key) {
        Some(o) => o.as_i64(),
        None => None,
    }
}

/// The integer that `m` maps `key` to, or `default`.
pub open spec fn int_or(m: Map<Seq<u8>, Obj>, key: Seq<u8>, default: i64) -> i64 {
    match int_entry(m, key) {
        Some(n) => n,
        None => default,
    }
}

/// The name that `m` maps `key` to.
pub open spec fn name_entry(m: Map<Seq<u8>, Obj>, key: Seq<u8>) -> Option<Seq<u8>> {
    match entry(m, key) {
        Some(o) => o.as_name(),
        None => None,
    }
}

/// The string that `m` maps `key` to.
pub open spec fn str_entry(m: Map<Seq<u8>, Obj>, key: Seq<u8>) -> Option<Seq<u8>> {
    match entry(m, key) {
        Some(o) => o.as_str_bytes(),
        None => None,
    }
}

/// The array that `m` maps `key` to.
pub open spec fn array_entry(m: Map<Seq<u8>, Obj>, key: Seq<u8>) -> Option<Seq<Obj>> {
    match entry(m, key) {
        Some(o) => o.as_array(),
        None => None,
    }
}

/// The dictionary that `m` maps `key` to.
pub open spec fn dict_entry(m: Map<Seq<u8>, Obj>, key: Seq<u8>) -> Option<Map<Seq<u8>, Obj>> {
    match entry(m, key) {
        Some(o) => o.as_dict(),
        None => None,
    }
}

/// The reference that `m` maps `key` to.
pub open spec fn reference_entry(m: Map<Seq<u8>, Obj>, key: Seq<u8>) -> Option<(u32, u16)> {
    match entry(m, key) {
        Some(o) => o.as_reference(),
        None => None,
    }
}

/// What is behind a borrowed byte string, when there is one.
pub open spec fn bytes_opt(s: Option<&[u8]>) -> Option<Seq<u8>> {
    match s {
        Some(s) => Some(s@),
        None => None,
    }
}

/// What is behind a borrowed object, when there is one.
pub open spec fn obj_opt(o: Option<&PdfObject>) -> Option<Obj> {
    match o {
        Some(o) => Some(o@),
        None => None,
    }
}

/// What is behind a borrowed dictionary, when there is one.
pub open spec fn dict_opt(o: Option<&PdfDict>) -> Option<Map<Seq<u8>, Obj>> {
    match o {
        Some(o) => Some(o@),
        None => None,
    }
}

/// What is behind borrowed objects, when there are any.
pub open spec fn objects_opt(o: Option<&[PdfObject]>) -> Option<Seq<Obj>> {
    match o {
        Some(o) => Some(objects_view(o@)),
        None => None,
    }
}

impl PdfObject {
    /// The integer that this is.
    pub fn as_i64(&self) -> (r: Option<i64>)
        ensures
            r == self@.as_i64(),
    {
        match self {
            PdfObject::Integer(n) => Some(*n),
            _ => None,
        }
    }

    /// The name that this is.
    pub fn as_name(&self) -> (r: Option<&[u8]>)
        ensures
            bytes_opt(r) == self@.as_name(),
    {
        match self {
            PdfObject::Name(s) => Some(s.as_slice()),
            _ => None,
        }
    }

    /// The string that this is.
    pub fn as_str_bytes(&self) -> (r: Option<&[u8]>)
        ensures
            bytes_opt(r) == self@.as_str_bytes(),
    {
        match self {
            PdfObject::Str(s) => Some(s.as_slice()),
            _ => None,
        }
    }

    /// The array that this is.
    pub fn as_array(&self) -> (r: Option<&[PdfObject]>)
        ensures
            objects_opt(r) == self@.as_array(),
    {
        match self {
            PdfObject::Array(v) => {
                proof {
                    lemma_array_view(*v);
                }
                Some(v.as_slice())
            },
            _ => None,
        }
    }

    /// The dictionary that this is. A stream is not one.
    pub fn as_dict(&self) -> (r: Option<&PdfDict>)
        ensures
            dict_opt(r) == self@.as_dict(),
    {
        match self {
            PdfObject::Dict(d) => Some(d),
            _ => None,
        }
    }

    /// The stream that this is.
    pub fn as_stream(&self) -> (r: Option<&PdfStream>)
        ensures
            match r {
                Some(s) => self@ == Obj::Stream(s.dict@, s.raw_data@),
                None => !(self@ is Stream),
            },
    {
        match self {
            PdfObject::Stream(s) => Some(s),
            _ => None,
        }
    }

    /// The object and generation number that this refers to.
    pub fn as_reference(&self) -> (r: Option<(u32, u16)>)
        ensures
            r == self@.as_reference(),
    {
        match self {
            PdfObject::Reference(n, g) => Some((*n, *g)),
            _ => None,
        }
    }
}

/// A copy of `s`.
pub fn copy_bytes(s: &[u8]) -> (r: Vec<u8>)
    ensures
        r@ == s@,
{
    vstd::slice::slice_to_vec(s)
}

impl Clone for PdfObject {
    fn clone(&self) -> (r: PdfObject)
        ensures
            r@ == self@,
        decreases self,
    {
        match self {
            PdfObject::Null => PdfObject::Null,
            PdfObject::Bool(b) => PdfObject::Bool(*b),
            PdfObject::Integer(n) => PdfObject::Integer(*n),
            PdfObject::Real(s) => PdfObject::Real(copy_bytes(s.as_slice())),
            PdfObject::Name(s) => PdfObject::Name(copy_bytes(s.as_slice())),
            PdfObject::Str(s) => PdfObject::Str(copy_bytes(s.as_slice())),
            PdfObject::Array(v) => {
                let mut out: Vec<PdfObject> = Vec::new();
                let mut i: usize = 0;
                while i < v.len()
                    invariant
                        i <= v@.len(),
                        *self == PdfObject::Array(*v),
                        out@.len() == i,
                        forall|j: int| 0 <= j < i ==> object_view(#[trigger] out@[j]) == object_view(v@[j]),
                    decreases v@.len() - i,
                {
                    assert(decreases_to!(*self => self->Array_0));
                    assert(decreases_to!(*v => v@[i as int]));
                    out.push(v[i].clone());
                    i += 1;
                }
                assert(objects_view(out@) =~= objects_view(v@));
                proof {
                    lemma_array_view(*v);
                    lemma_array_view(out);
                }
                PdfObject::Array(out)
            },
            PdfObject::Dict(d) => PdfObject::Dict(d.clone()),
            PdfObject::Stream(s) => PdfObject::Stream(
                PdfStream { dict: s.dict.clone(), raw_data: copy_bytes(s.raw_data.as_slice()) },
            ),
            PdfObject::Reference(n, g) => PdfObject::Reference(*n, *g),
        }
    }
}

impl Clone for PdfDict {
    fn clone(&self) -> (r: PdfDict)
        ensures
            r@ == self@,
        decreases self,
    {
        let mut out: Vec<(Vec<u8>, PdfObject)> = Vec::new();
        let mut i: usize = 0;
        assert(self.entries@.take(0) =~= Seq::<(Vec<u8>, PdfObject)>::empty());
        while i < self.entries.len()
            invariant
                i <= self.entries@.len(),
                out@.len() == i,
                entries_view(out@) == entries_view(self.entries@.take(i as int)),
            decreases self.entries@.len() - i,
        {
            let ghost before = out@;
            let key = copy_bytes(self.entries[i].0.as_slice());
            let value = self.entries[i].1.clone();
            out.push((key, value));
            proof {
                assert(out@.drop_last() =~= before);
                assert(self.entries@.take(i + 1).drop_last() =~= self.entries@.take(i as int));
            }
            i += 1;
        }
        assert(self.entries@.take(i as int) =~= self.entries@);
        PdfDict { entries: out }
    }
}

impl PdfDict {
    /// A dictionary with no entries.
    pub fn new() -> (d: PdfDict)
        ensures
            d@ == Map::<Seq<u8>, Obj>::empty(),
    {
        PdfDict { entries: Vec::new() }
    }

    /// Maps `key` to `value`, in place of what it was mapped to.
    pub fn insert(&mut self, key: Vec<u8>, value: PdfObject)
        ensures
            final(self)@ == old(self)@.insert(key@, value@),
    {
        let ghost before = self.entries@;
        self.entries.push((key, value));
        assert(self.entries@.drop_last() =~= before);
    }
}

/// What `dict` maps `key` to.
pub fn dict_get<'a>(dict: &'a PdfDict, key: &[u8]) -> (r: Option<&'a PdfObject>)
    ensures
        obj_opt(r) == entry(dict@, key@),
{
    let mut i: usize = dict.entries.len();
    assert(dict.entries@.take(i as int) =~= dict.entries@);
    while i > 0
        invariant
            i <= dict.entries@.len(),
            entry(entries_view(dict.entries@.take(i as int)), key@) == entry(dict@, key@),
        decreases i,
    {
        i -= 1;
        assert(dict.entries@.take(i + 1).drop_last() =~= dict.entries@.take(i as int));
        if same_bytes(dict.entries[i].0.as_slice(), key) {
            return Some(&dict.entries[i].1);
        }
    }
    None
}

/// The integer that `dict` maps `key` to, or `default`.
pub fn get_int_or(dict: &PdfDict, key: &str, default: i64) -> (n: i64)
    ensures
        n == int_or(dict@, key.spec_bytes(), default),
{
    match dict_get(dict, key.as_bytes()) {
        Some(o) => match o.as_i64() {
            Some(n) => n,
            None => default,
        },
        None => default,
    }
}

/// An object is seen as what it is, with all its bytes and elements.
pub proof fn an_object_is_seen_as_what_it_is(o: PdfObject)
    ensures
        match o {
            PdfObject::Null => o@ is Null,
            PdfObject::Bool(b) => o@ == Obj::Bool(b),
            PdfObject::Integer(n) => o@ == Obj::Integer(n),
            PdfObject::Real(s) => o@ == Obj::Real(s@),
            PdfObject::Name(s) => o@ == Obj::Name(s@),
            PdfObject::Str(s) => o@ == Obj::Str(s@),
            PdfObject::Array(v) => o@ matches Obj::Array(s) && s.len() == v@.len() && forall|
                i: int,
            |
                0 <= i < v@.len() ==> (#[trigger] s[i]) == v@[i]@,
            PdfObject::Dict(d) => o@ == Obj::Dict(d@),
            PdfObject::Stream(s) => o@ == Obj::Stream(s.dict@, s.raw_data@),
            PdfObject::Reference(n, g) => o@ == Obj::Reference(n, g),
        },
{
    if let PdfObject::Array(v) = o {
        lemma_array_view(v);
    }
}

/// The last value under a key is the one that counts, and no key is there that is not listed.
pub proof fn the_last_value_of_a_key_counts(d: PdfDict, i: int)
    requires
        0 <= i < d.entries@.len(),
        forall|j: int|
            i < j < d.entries@.len() ==> (#[trigger] d.entries@[j]).0@ != d.entries@[i].0@,
    ensures
        d@.contains_key(d.entries@[i].0@),
        d@[d.entries@[i].0@] == d.entries@[i].1@,
        forall|key: Seq<u8>| #[trigger]
            d@.contains_key(key) ==> exists|j: int|
                0 <= j < d.entries@.len() && (#[trigger] d.entries@[j]).0@ == key,
{
    lemma_last_value(d.entries@, i);
    lemma_listed_keys(d.entries@);
}

proof fn lemma_last_value(e: Seq<(Vec<u8>, PdfObject)>, i: int)
    requires
        0 <= i < e.len(),
        forall|j: int| i < j < e.len() ==> (#[trigger] e[j]).0@ != e[i].0@,
    ensures
        entries_view(e).contains_key(e[i].0@),
        entries_view(e)[e[i].0@] == object_view(e[i].1),
    decreases e.len(),
{
    if i < e.len() - 1 {
        let rest = e.drop_last();
        assert forall|j: int| i < j < rest.len() implies (#[trigger] rest[j]).0@ != rest[i].0@ by {
            assert(e[j].0@ != e[i].0@);
        }
        lemma_last_value(rest, i);
        assert(e[e.len() - 1].0@ != e[i].0@);
    }
}

proof fn lemma_listed_keys(e: Seq<(Vec<u8>, PdfObject)>)
    ensures
        forall|key: Seq<u8>| #[trigger]
            entries_view(e).contains_key(key) ==> exists|j: int|
                0 <= j < e.len() && (#[trigger] e[j]).0@ == key,
    decreases e.len(),
{
    if e.len() > 0 {
        let rest = e.drop_last();
        lemma_listed_keys(rest);
        assert forall|key: Seq<u8>| #[trigger] entries_view(e).contains_key(key) implies exists|
            j: int,
        | 0 <= j < e.len() && (#[trigger] e[j]).0@ == key by {
            if key == e.last().0@ {
                assert(e[e.len() - 1].0@ == key);
            } else {
                assert(entries_view(rest).contains_key(key));
                let j = choose|j: int| 0 <= j < rest.len() && (#[trigger] rest[j]).0@ == key;
                assert(e[j].0@ == key);
            }
        }
    }
}

} // verus!
