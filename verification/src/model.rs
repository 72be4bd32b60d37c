//! An assembled document: pages of blocks, and the resources that they show.

use vstd::prelude::*;
use vstd::string::*;

use crate::parser::raw::ascii;
use crate::parser::raw::ascii::{parse_digits, skip_digits, starts_at};

verus! {

/// A document.
#[derive(Debug)]
pub struct Document {
    pub pages: Vec<Page>,
    /// What the document carries besides its pages, in the order of the keys.
    pub resources: Resources,
    pub extraction_quality: ExtractionQuality,
}

/// How well a document was extracted.
#[derive(Debug, Clone, Copy, PartialEq, Eq, Structural)]
pub struct ExtractionQuality {
    /// How many images were left as they were because no description of them could be had.
    pub ai_fallback_count: usize,
}

/// A page.
#[derive(Debug)]
pub struct Page {
    /// The number of the page, counted from one.
    pub number: u32,
    pub elements: Vec<Block>,
    /// The images of the page, each under an id that image blocks refer to.
    pub images: Vec<(String, Resource)>,
}

/// The bytes of an image or of another resource.
#[derive(Debug)]
pub struct Resource {
    pub mime_type: String,
    pub data: Vec<u8>,
}

/// A part of a page.
#[derive(Debug)]
pub enum Block {
    Paragraph(Paragraph),
    Table(Table),
    Image { resource_id: String, alt_text: Option<String> },
    HorizontalRule,
    PageBreak,
}

/// A paragraph: runs of text.
#[derive(Debug)]
pub struct Paragraph {
    pub runs: Vec<String>,
}

/// A table. Its first `header_rows` rows are its header.
#[derive(Debug)]
pub struct Table {
    pub rows: Vec<TableRow>,
    pub header_rows: u8,
}

/// A row of a table.
#[derive(Debug)]
pub struct TableRow {
    pub cells: Vec<TableCell>,
}

/// A cell of a table, and how many rows and columns it spans.
#[derive(Debug)]
pub struct TableCell {
    pub text: String,
    pub rowspan: u8,
    pub colspan: u8,
}

/// Resources, each under a key of its own, in the order of the keys.
#[derive(Debug)]
pub struct Resources {
    entries: Vec<(String, Resource)>,
}

/// What a [`Resource`] holds.
pub struct ResourceSpec {
    pub mime_type: Seq<char>,
    pub data: Seq<u8>,
}

/// What a [`TableCell`] holds.
pub struct CellSpec {
    pub text: Seq<char>,
    pub rowspan: u8,
    pub colspan: u8,
}

/// What a [`Block`] is.
pub enum BlockSpec {
    /// The runs of a paragraph.
    Paragraph(Seq<Seq<char>>),
    /// The rows and the number of header rows of a table.
    Table(Seq<Seq<CellSpec>>, u8),
    /// The resource that an image shows, and its description.
    Image(Seq<char>, Option<Seq<char>>),
    HorizontalRule,
    PageBreak,
}

/// What a [`Page`] holds.
pub struct PageSpec {
    pub number: u32,
    pub elements: Seq<BlockSpec>,
    pub images: Seq<(Seq<char>, ResourceSpec)>,
}

/// What a [`Document`] holds.
pub struct DocumentSpec {
    pub pages: Seq<PageSpec>,
    pub resources: Seq<(Seq<char>, ResourceSpec)>,
    pub ai_fallback_count: usize,
}

impl View for Resource {
    type V = ResourceSpec;

    open spec fn view(&self) -> ResourceSpec {
        ResourceSpec { mime_type: self.mime_type@, data: self.data@ }
    }
}

impl Clone for Resource {
    fn clone(&self) -> (r: Resource)
        ensures
            r@ == self@,
    {
        Resource {
            mime_type: self.mime_type.clone(),
            data: vstd::slice::slice_to_vec(self.data.as_slice()),
        }
    }
}

impl View for TableCell {
    type V = CellSpec;

    open spec fn view(&self) -> CellSpec {
        CellSpec { text: self.text@, rowspan: self.rowspan, colspan: self.colspan }
    }
}

impl View for TableRow {
    type V = Seq<CellSpec>;

    open spec fn view(&self) -> Seq<CellSpec> {
        Seq::new(self.cells@.len(), |i: int| self.cells@[i]@)
    }
}

impl View for Paragraph {
    type V = Seq<Seq<char>>;

    open spec fn view(&self) -> Seq<Seq<char>> {
        Seq::new(self.runs@.len(), |i: int| self.runs@[i]@)
    }
}

/// What the rows of a table are.
pub open spec fn rows_view(rows: Seq<TableRow>) -> Seq<Seq<CellSpec>> {
    Seq::new(rows.len(), |i: int| rows[i]@)
}

/// What an optional text is.
pub open spec fn text_opt(s: Option<String>) -> Option<Seq<char>> {
    match s {
        Some(s) => Some(s@),
        None => None,
    }
}

impl View for Block {
    type V = BlockSpec;

    open spec fn view(&self) -> BlockSpec {
        match self {
            Block::Paragraph(p) => BlockSpec::Paragraph(p@),
            Block::Table(t) => BlockSpec::Table(rows_view(t.rows@), t.header_rows),
            Block::Image { resource_id, alt_text } => BlockSpec::Image(
                resource_id@,
                text_opt(*alt_text),
            ),
            Block::HorizontalRule => BlockSpec::HorizontalRule,
            Block::PageBreak => BlockSpec::PageBreak,
        }
    }
}

/// What a list of blocks is.
pub open spec fn blocks_view(s: Seq<Block>) -> Seq<BlockSpec> {
    Seq::new(s.len(), |i: int| s[i]@)
}

/// What a list of resources is.
pub open spec fn resources_view(s: Seq<(String, Resource)>) -> Seq<(Seq<char>, ResourceSpec)> {
    Seq::new(s.len(), |i: int| (s[i].0@, s[i].1@))
}

impl View for Page {
    type V = PageSpec;

    open spec fn view(&self) -> PageSpec {
        PageSpec {
            number: self.number,
            elements: blocks_view(self.elements@),
            images: resources_view(self.images@),
        }
    }
}

/// What a list of pages is.
pub open spec fn pages_view(s: Seq<Page>) -> Seq<PageSpec> {
    Seq::new(s.len(), |i: int| s[i]@)
}

impl View for Resources {
    type V = Seq<(Seq<char>, ResourceSpec)>;

    closed spec fn view(&self) -> Seq<(Seq<char>, ResourceSpec)> {
        resources_view(self.entries@)
    }
}

impl View for Document {
    type V = DocumentSpec;

    open spec fn view(&self) -> DocumentSpec {
        DocumentSpec {
            pages: pages_view(self.pages@),
            resources: self.resources@,
            ai_fallback_count: self.extraction_quality.ai_fallback_count,
        }
    }
}

/// The text of a paragraph: its runs, one after the other.
pub open spec fn joined(runs: Seq<Seq<char>>) -> Seq<char>
    decreases runs.len(),
{
    if runs.len() == 0 {
        Seq::empty()
    } else {
        joined(runs.drop_last()) + runs.last()
    }
}

impl Paragraph {
    /// A paragraph with one run.
    pub fn with_text(text: String) -> (p: Paragraph)
        ensures
            p@ == seq![text@],
    {
        let mut runs: Vec<String> = Vec::new();
        runs.push(text);
        let p = Paragraph { runs };
        assert(p@ =~= seq![text@]);
        p
    }

    /// The text of the paragraph.
    pub fn plain_text(&self) -> (text: String)
        ensures
            text@ == joined(self@),
    {
        let mut text = String::new();
        let mut i: usize = 0;
        assert(self@.take(0) =~= Seq::<Seq<char>>::empty());
        while i < self.runs.len()
            invariant
                i <= self.runs@.len(),
                text@ == joined(self@.take(i as int)),
            decreases self.runs@.len() - i,
        {
            assert(self@.take(i + 1).drop_last() =~= self@.take(i as int));
            text.append(self.runs[i].as_str());
            i += 1;
        }
        assert(self@.take(i as int) =~= self@);
        text
    }
}

impl Table {
    /// A table with no rows yet, whose first `header_rows` rows are its header.
    pub fn with_header(header_rows: u8) -> (t: Table)
        ensures
            rows_view(t.rows@) == Seq::<Seq<CellSpec>>::empty(),
            t.header_rows == header_rows,
    {
        let t = Table { rows: Vec::new(), header_rows };
        assert(rows_view(t.rows@) =~= Seq::<Seq<CellSpec>>::empty());
        t
    }

    /// Adds a row at the end.
    pub fn add_row(&mut self, row: TableRow)
        ensures
            rows_view(final(self).rows@) == rows_view(old(self).rows@).push(row@),
            final(self).header_rows == old(self).header_rows,
    {
        self.rows.push(row);
        assert(rows_view(self.rows@) =~= rows_view(old(self).rows@).push(row@));
    }
}

impl TableRow {
    /// A row of these cells.
    pub fn new(cells: Vec<TableCell>) -> (r: TableRow)
        ensures
            r.cells == cells,
    {
        TableRow { cells }
    }
}

impl TableCell {
    /// A cell that spans one row and one column.
    pub fn text(text: String) -> (c: TableCell)
        ensures
            c@ == (CellSpec { text: text@, rowspan: 1, colspan: 1 }),
    {
        TableCell { text, rowspan: 1, colspan: 1 }
    }
}

/// Whether the byte string `a` comes before `b`.
pub open spec fn bytes_before(a: Seq<u8>, b: Seq<u8>) -> bool
    decreases a.len(),
{
    if b.len() == 0 {
        false
    } else if a.len() == 0 {
        true
    } else if a[0] == b[0] {
        bytes_before(a.skip(1), b.skip(1))
    } else {
        a[0] < b[0]
    }
}

/// The number of the page that a key starts with, as in `page{n}_{name}`. A number that is too
/// large for a page counts as the first one that is.
pub open spec fn page_of_key(key: Seq<u8>) -> Option<nat> {
    let end = ascii::digits_end(key, 4);
    if !ascii::at(key, 0, "page".spec_bytes()) || end <= 4 {
        None
    } else {
        let n = ascii::decimal_value(key.subrange(4, end));
        Some(
            if n <= u32::MAX {
                n
            } else {
                u32::MAX as nat + 1
            },
        )
    }
}

/// Whether the key `a`, as bytes, comes before `b`: byte by byte, but that keys of different
/// pages go by the number of the page.
pub open spec fn key_bytes_before(a: Seq<u8>, b: Seq<u8>) -> bool {
    match (page_of_key(a), page_of_key(b)) {
        (Some(m), Some(n)) => m < n || m == n && bytes_before(a, b),
        _ => bytes_before(a, b),
    }
}

/// Whether the key `a` comes before `b`.
pub open spec fn key_before(a: Seq<char>, b: Seq<char>) -> bool {
    key_bytes_before(vstd::utf8::encode_utf8(a), vstd::utf8::encode_utf8(b))
}

/// Whether each key comes before all keys after it.
pub open spec fn in_key_order(s: Seq<(Seq<char>, ResourceSpec)>) -> bool {
    forall|i: int, j: int|
        0 <= i < j < s.len() ==> key_before((#[trigger] s[i]).0, (#[trigger] s[j]).0)
}

proof fn lemma_before_irreflexive(a: Seq<u8>)
    ensures
        !bytes_before(a, a),
    decreases a.len(),
{
    if a.len() > 0 {
        lemma_before_irreflexive(a.skip(1));
    }
}

proof fn lemma_before_transitive(a: Seq<u8>, b: Seq<u8>, c: Seq<u8>)
    requires
        bytes_before(a, b),
        bytes_before(b, c),
    ensures
        bytes_before(a, c),
    decreases a.len(),
{
    if a.len() > 0 && a[0] == b[0] && b[0] == c[0] {
        lemma_before_transitive(a.skip(1), b.skip(1), c.skip(1));
    }
}

proof fn lemma_before_total(a: Seq<u8>, b: Seq<u8>)
    ensures
        a == b || bytes_before(a, b) || bytes_before(b, a),
    decreases a.len(),
{
    if a.len() > 0 && b.len() > 0 && a[0] == b[0] {
        lemma_before_total(a.skip(1), b.skip(1));
        if a.skip(1) == b.skip(1) {
            assert(a =~= seq![a[0]] + a.skip(1));
            assert(b =~= seq![b[0]] + b.skip(1));
        }
    } else if a.len() == 0 && b.len() == 0 {
        assert(a =~= b);
    }
}

/// The bytes that a key which starts with a page number starts with.
proof fn lemma_page_start(key: Seq<u8>)
    ensures
        page_of_key(key) is Some <==> key.len() > 4 && key[0] == 0x70 && key[1] == 0x61 && key[2]
            == 0x67 && key[3] == 0x65 && ascii::is_digit(key[4]),
{
    let word = "page".spec_bytes();
    reveal_strlit("page");
    assert("page".is_ascii());
    is_ascii_spec_bytes("page");
    assert(word =~= seq![0x70u8, 0x61, 0x67, 0x65]);
    ascii::lemma_run_end(key, 4, |b: u8| ascii::is_digit(b));
    if ascii::at(key, 0, word) {
        let start = key.subrange(0, 4);
        assert(start[0] == key[0] && start[1] == key[1] && start[2] == key[2] && start[3]
            == key[3]);
    }
    if key.len() > 4 && key[0] == 0x70 && key[1] == 0x61 && key[2] == 0x67 && key[3] == 0x65 {
        assert(key.subrange(0, 4) =~= word);
    }
}

/// A key without a page number comes before all keys with one, or after all of them.
proof fn lemma_pages_together(x: Seq<u8>, y: Seq<u8>, other: Seq<u8>)
    requires
        page_of_key(x) is Some,
        page_of_key(y) is Some,
        page_of_key(other) is None,
    ensures
        bytes_before(x, other) == bytes_before(y, other),
        bytes_before(other, x) == bytes_before(other, y),
{
    lemma_page_start(x);
    lemma_page_start(y);
    lemma_page_start(other);
    reveal_with_fuel(bytes_before, 6);
}

/// The order of keys is a strict order, and of two different keys one comes before the other.
pub proof fn keys_are_in_strict_order(a: Seq<char>, b: Seq<char>, c: Seq<char>)
    ensures
        !key_before(a, a),
        a == b || key_before(a, b) || key_before(b, a),
        key_before(a, b) && key_before(b, c) ==> key_before(a, c),
{
    let x = vstd::utf8::encode_utf8(a);
    let y = vstd::utf8::encode_utf8(b);
    let z = vstd::utf8::encode_utf8(c);
    lemma_before_total(x, y);
    lemma_before_irreflexive(x);
    vstd::utf8::encode_utf8_decode_utf8(a);
    vstd::utf8::encode_utf8_decode_utf8(b);
    if bytes_before(x, y) && bytes_before(y, z) {
        lemma_before_transitive(x, y, z);
    }
    if key_before(a, b) && key_before(b, c) {
        match (page_of_key(x), page_of_key(y), page_of_key(z)) {
            (Some(_), Some(_), None) => {
                lemma_pages_together(x, y, z);
            },
            (None, Some(_), Some(_)) => {
                lemma_pages_together(y, z, x);
            },
            (Some(_), None, Some(_)) => {
                lemma_pages_together(x, z, y);
                lemma_before_transitive(x, y, x);
            },
            _ => {},
        }
    }
}

/// Whether the byte string `a` comes before `b`.
fn comes_before(a: &[u8], b: &[u8]) -> (r: bool)
    ensures
        r == bytes_before(a@, b@),
{
    let mut i: usize = 0;
    assert(a@.skip(0) =~= a@);
    assert(b@.skip(0) =~= b@);
    while i < a.len() && i < b.len()
        invariant
            i <= a@.len(),
            i <= b@.len(),
            bytes_before(a@, b@) == bytes_before(a@.skip(i as int), b@.skip(i as int)),
        decreases a@.len() - i,
    {
        assert(a@.skip(i as int).skip(1) =~= a@.skip(i + 1));
        assert(b@.skip(i as int).skip(1) =~= b@.skip(i + 1));
        if a[i] != b[i] {
            return a[i] < b[i];
        }
        i += 1;
    }
    i < b.len()
}

/// The number of the page that a key starts with.
fn page_number(key: &[u8]) -> (r: Option<u64>)
    ensures
        match r {
            Some(n) => page_of_key(key@) == Some(n as nat),
            None => page_of_key(key@) is None,
        },
{
    proof {
        reveal_strlit("page");
        assert("page".is_ascii());
        is_ascii_spec_bytes("page");
        assert("page".spec_bytes().len() == 4);
    }
    if !starts_at(key, 0, "page".as_bytes()) {
        return None;
    }
    let end = skip_digits(key, 4);
    if end == 4 {
        return None;
    }
    proof {
        ascii::lemma_run_end(key@, 4, |b: u8| ascii::is_digit(b));
    }
    match parse_digits(key, 4, end) {
        Some(n) => if n <= u32::MAX as u64 {
            Some(n)
        } else {
            Some(u32::MAX as u64 + 1)
        },
        None => Some(u32::MAX as u64 + 1),
    }
}

/// Whether the key `a` comes before `b`.
fn key_comes_before(a: &[u8], b: &[u8]) -> (r: bool)
    ensures
        r == key_bytes_before(a@, b@),
{
    match (page_number(a), page_number(b)) {
        (Some(m), Some(n)) => m < n || (m == n && comes_before(a, b)),
        _ => comes_before(a, b),
    }
}

/// How many of `s`, from the start, have a key before `key`.
pub open spec fn place(s: Seq<(Seq<char>, ResourceSpec)>, key: Seq<char>) -> int
    decreases s.len(),
{
    if s.len() > 0 && key_before(s[0].0, key) {
        1 + place(s.skip(1), key)
    } else {
        0
    }
}

/// `s` with `r` under `key`, in place of what was there.
pub open spec fn placed(
    s: Seq<(Seq<char>, ResourceSpec)>,
    key: Seq<char>,
    r: ResourceSpec,
) -> Seq<(Seq<char>, ResourceSpec)> {
    let i = place(s, key);
    if i < s.len() && s[i].0 == key {
        s.update(i, (key, r))
    } else {
        s.insert(i, (key, r))
    }
}

proof fn lemma_place(s: Seq<(Seq<char>, ResourceSpec)>, key: Seq<char>)
    ensures
        0 <= place(s, key) <= s.len(),
        forall|i: int| 0 <= i < place(s, key) ==> key_before((#[trigger] s[i]).0, key),
        place(s, key) < s.len() ==> !key_before(s[place(s, key)].0, key),
    decreases s.len(),
{
    if s.len() > 0 && key_before(s[0].0, key) {
        lemma_place(s.skip(1), key);
        assert forall|i: int| 0 <= i < place(s, key) implies key_before(
            (#[trigger] s[i]).0,
            key,
        ) by {
            if i > 0 {
                assert(s.skip(1)[i - 1] == s[i]);
            }
        }
    }
}

/// Placing a resource keeps the order of the keys.
pub proof fn placing_keeps_key_order(
    s: Seq<(Seq<char>, ResourceSpec)>,
    key: Seq<char>,
    r: ResourceSpec,
)
    requires
        in_key_order(s),
    ensures
        in_key_order(placed(s, key, r)),
{
    lemma_place(s, key);
    let p = place(s, key);
    let t = placed(s, key, r);
    if p < s.len() && s[p].0 != key {
        keys_are_in_strict_order(s[p].0, key, key);
    }
    if !(p < s.len() && s[p].0 == key) {
        assert forall|i: int, j: int| 0 <= i < j < t.len() implies key_before(
            (#[trigger] t[i]).0,
            (#[trigger] t[j]).0,
        ) by {
            if i == p {
                if j > p + 1 {
                    assert(key_before(s[p].0, s[j - 1].0));
                    keys_are_in_strict_order(key, s[p].0, s[j - 1].0);
                }
            } else if j == p {
                assert(key_before(s[i].0, key));
            } else {
                let a = if i < p {
                    i
                } else {
                    i - 1
                };
                let b = if j < p {
                    j
                } else {
                    j - 1
                };
                assert(t[i] == s[a] && t[j] == s[b]);
            }
        }
    }
}

impl Resources {
    /// Resources are in the order of their keys.
    #[verifier::type_invariant]
    pub open spec fn well_formed(self) -> bool {
        in_key_order(self@)
    }

    /// No resources.
    pub fn new() -> (r: Resources)
        ensures
            r@ == Seq::<(Seq<char>, ResourceSpec)>::empty(),
    {
        let r = Resources { entries: Vec::new() };
        assert(r@ =~= Seq::<(Seq<char>, ResourceSpec)>::empty());
        r
    }

    /// How many resources there are.
    pub fn len(&self) -> (n: usize)
        ensures
            n == self@.len(),
    {
        self.entries.len()
    }

    /// The key and the resource at the place `i` in the order of the keys.
    pub fn at(&self, i: usize) -> (r: (&str, &Resource))
        requires
            i < self@.len(),
        ensures
            (r.0@, r.1@) == self@[i as int],
    {
        (self.entries[i].0.as_str(), &self.entries[i].1)
    }

    /// Puts `resource` under `key`, in place of what was there.
    pub fn insert(&mut self, key: String, resource: Resource)
        ensures
            final(self)@ == placed(old(self)@, key@, resource@),
            in_key_order(final(self)@),
    {
        proof {
            use_type_invariant(&*self);
            placing_keeps_key_order(self@, key@, resource@);
        }
        let mut entries: Vec<(String, Resource)> = Vec::new();
        std::mem::swap(&mut entries, &mut self.entries);
        insert_entry(&mut entries, key, resource);
        self.entries = entries;
    }

    /// The key and the resource at the place `i`, as they are stored.
    pub(crate) fn entry(&self, i: usize) -> (r: &(String, Resource))
        requires
            i < self@.len(),
        ensures
            (r.0@, r.1@) == self@[i as int],
    {
        &self.entries[i]
    }

    /// Keeps the resources at the places in `places`, which go up, and drops the others.
    pub(crate) fn pick(&mut self, places: &Vec<usize>)
        requires
            forall|i: int| 0 <= i < places@.len() ==> (#[trigger] places@[i]) < old(self)@.len(),
            forall|i: int, j: int| 0 <= i < j < places@.len() ==> places@[i] < places@[j],
        ensures
            final(self)@ == Seq::new(places@.len(), |i: int| old(self)@[places@[i] as int]),
    {
        proof {
            use_type_invariant(&*self);
        }
        let mut entries: Vec<(String, Resource)> = Vec::new();
        std::mem::swap(&mut entries, &mut self.entries);
        pick_entries(&mut entries, places);
        self.entries = entries;
    }
}

/// Puts `resource` under `key`, in place of what was there.
fn insert_entry(entries: &mut Vec<(String, Resource)>, key: String, resource: Resource)
    ensures
        resources_view(final(entries)@) == placed(resources_view(old(entries)@), key@, resource@),
{
    let ghost all = resources_view(entries@);
    let ghost k = key@;
    let ghost r = resource@;
    proof {
        lemma_place(all, k);
        assert(all.skip(0) =~= all);
    }
    let mut i: usize = 0;
    while i < entries.len() && key_comes_before(
        entries[i].0.as_str().as_bytes(),
        key.as_str().as_bytes(),
    )
        invariant
            i <= entries@.len(),
            all == resources_view(entries@),
            entries@ == old(entries)@,
            k == key@,
            place(all, k) == i + place(all.skip(i as int), k),
        decreases entries@.len() - i,
    {
        assert(all.skip(i as int).skip(1) =~= all.skip(i + 1));
        assert(all.skip(i as int)[0] == all[i as int]);
        i += 1;
    }
    proof {
        if i < all.len() {
            assert(all.skip(i as int)[0] == all[i as int]);
        }
        assert(i == place(all, k));
    }
    if i < entries.len() && entries[i].0 == key {
        entries[i] = (key, resource);
        assert(resources_view(entries@) =~= all.update(i as int, (k, r)));
    } else {
        entries.insert(i, (key, resource));
        assert(resources_view(entries@) =~= all.insert(i as int, (k, r)));
    }
}

/// Keeps the resources at the places in `places`, which go up, and drops the others.
fn pick_entries(entries: &mut Vec<(String, Resource)>, places: &Vec<usize>)
    requires
        forall|i: int| 0 <= i < places@.len() ==> (#[trigger] places@[i]) < old(entries)@.len(),
        forall|i: int, j: int| 0 <= i < j < places@.len() ==> places@[i] < places@[j],
    ensures
        resources_view(final(entries)@) == Seq::new(places@.len(), |i: int| resources_view(old(entries)@)[places@[i] as int]),
{
    let ghost all = resources_view(entries@);
    let mut i: usize = entries.len();
    let mut k: usize = places.len();
    let ghost mut tail = Seq::<(Seq<char>, ResourceSpec)>::empty();
    assert(all =~= all.take(i as int) + tail);
    assert(tail =~= Seq::new(0, |j: int| all[places@[k + j] as int]));
    while i > 0
        invariant
            i <= all.len(),
            all == resources_view(old(entries)@),
            resources_view(entries@) == all.take(i as int) + tail,
            k <= places@.len(),
            tail == Seq::new((places@.len() - k) as nat, |j: int| all[places@[k + j] as int]),
            forall|j: int| 0 <= j < places@.len() ==> (#[trigger] places@[j]) < all.len(),
            forall|j: int, l: int| 0 <= j < l < places@.len() ==> places@[j] < places@[l],
            forall|j: int| 0 <= j < k ==> (#[trigger] places@[j]) < i,
        decreases i,
    {
        i -= 1;
        let ghost now = resources_view(entries@);
        assert(now[i as int] == all[i as int]);
        assert(now.len() == entries@.len());
        if k > 0 && places[k - 1] == i {
            proof {
                let before = tail;
                tail = seq![all[i as int]] + tail;
                assert(tail =~= Seq::new(
                    (places@.len() - (k - 1)) as nat,
                    |j: int| all[places@[k - 1 + j] as int],
                ));
                assert(now =~= all.take(i as int) + tail);
            }
            k -= 1;
        } else {
            assert forall|j: int| 0 <= j < k implies (#[trigger] places@[j]) < i by {
                if j < k - 1 {
                    assert(places@[j] < places@[k - 1]);
                }
            }
            entries.remove(i);
            assert(resources_view(entries@) =~= now.remove(i as int));
            assert(now.remove(i as int) =~= all.take(i as int) + tail);
        }
    }
    proof {
        if k > 0 {
            assert(places@[0] < 0);
        }
        assert(resources_view(entries@) =~= Seq::new(places@.len(), |j: int| all[places@[j] as int]));
    }
}

/// Placing a resource puts it under its key, in place of what was there, and leaves what is under
/// every other key: afterwards the key has that resource and nothing else, and another key has
/// exactly what it had.
pub proof fn a_placed_resource_is_under_its_key(
    s: Seq<(Seq<char>, ResourceSpec)>,
    key: Seq<char>,
    r: ResourceSpec,
    other: Seq<char>,
    v: ResourceSpec,
)
    requires
        in_key_order(s),
    ensures
        placed(s, key, r).contains((key, r)),
        placed(s, key, r).contains((key, v)) ==> v == r,
        other != key ==> (placed(s, key, r).contains((other, v)) <==> s.contains((other, v))),
{
    lemma_place(s, key);
    let p = place(s, key);
    let t = placed(s, key, r);
    assert(t[p] == (key, r));
    assert forall|i: int| 0 <= i < s.len() && (#[trigger] s[i]).0 == key implies i == p && p
        < s.len() && s[p].0 == key by {
        if i < p {
            assert(key_before(s[i].0, key));
            keys_are_in_strict_order(key, key, key);
        } else if i > p {
            assert(key_before(s[p].0, s[i].0));
        }
    }
    let replaced = p < s.len() && s[p].0 == key;
    if t.contains((key, v)) {
        let i = t.index_of((key, v));
        if i != p {
            if replaced {
                assert(s[i] == (key, v));
            } else if i < p {
                assert(s[i] == (key, v));
            } else {
                assert(s[i - 1] == (key, v));
            }
        }
    }
    if other != key {
        if t.contains((other, v)) {
            let i = t.index_of((other, v));
            if replaced || i < p {
                assert(s[i] == (other, v));
            } else {
                assert(s[i - 1] == (other, v));
            }
        }
        if s.contains((other, v)) {
            let i = s.index_of((other, v));
            if replaced || i < p {
                assert(t[i] == (other, v));
            } else {
                assert(t[i + 1] == (other, v));
            }
        }
    }
}

/// Keys of different pages go by the number of the page, whatever their names.
pub proof fn keys_of_pages_go_by_page_number(a: Seq<char>, b: Seq<char>, m: nat, n: nat)
    requires
        page_of_key(vstd::utf8::encode_utf8(a)) == Some(m),
        page_of_key(vstd::utf8::encode_utf8(b)) == Some(n),
        m < n,
    ensures
        key_before(a, b),
        !key_before(b, a),
{
}

/// A block is seen with all it holds: every run of a paragraph, every cell of every row of a table
/// and its header rows, and what an image shows and how it is described.
pub proof fn a_block_is_seen_with_all_it_holds(b: Block)
    ensures
        match b {
            Block::Paragraph(p) => b@ matches BlockSpec::Paragraph(runs) && runs.len()
                == p.runs@.len() && forall|i: int|
                0 <= i < runs.len() ==> (#[trigger] runs[i]) == p.runs@[i]@,
            Block::Table(t) => b@ matches BlockSpec::Table(rows, header_rows) && header_rows
                == t.header_rows && rows.len() == t.rows@.len() && (forall|i: int|
                0 <= i < rows.len() ==> (#[trigger] rows[i]).len() == t.rows@[i].cells@.len()) && (
            forall|i: int, j: int|
                0 <= i < rows.len() && 0 <= j < rows[i].len() ==> (#[trigger] rows[i][j]).text
                    == t.rows@[i].cells@[j].text@ && rows[i][j].rowspan
                    == t.rows@[i].cells@[j].rowspan && rows[i][j].colspan
                    == t.rows@[i].cells@[j].colspan),
            Block::Image { resource_id, alt_text } => b@ matches BlockSpec::Image(id, alt) && id
                == resource_id@ && match alt_text {
                Some(text) => alt == Some(text@),
                None => alt is None,
            },
            Block::HorizontalRule => b@ is HorizontalRule,
            Block::PageBreak => b@ is PageBreak,
        },
{
}

/// A page is seen with its number, all its blocks and all its images.
pub proof fn a_page_is_seen_with_all_it_holds(p: Page)
    ensures
        p@.number == p.number,
        p@.elements.len() == p.elements@.len(),
        forall|i: int|
            0 <= i < p.elements@.len() ==> (#[trigger] p@.elements[i]) == p.elements@[i]@,
        p@.images.len() == p.images@.len(),
        forall|i: int|
            0 <= i < p.images@.len() ==> (#[trigger] p@.images[i]).0 == p.images@[i].0@
                && p@.images[i].1.mime_type == p.images@[i].1.mime_type@ && p@.images[i].1.data
                == p.images@[i].1.data@,
{
}

/// A document is seen with all its pages, all its resources and its count.
pub proof fn a_document_is_seen_with_all_it_holds(d: Document)
    ensures
        d@.pages.len() == d.pages@.len(),
        forall|i: int| 0 <= i < d.pages@.len() ==> (#[trigger] d@.pages[i]) == d.pages@[i]@,
        d@.resources == d.resources@,
        d@.ai_fallback_count == d.extraction_quality.ai_fallback_count,
{
}

} // verus!
