//! Image understanding over an assembled [`Document`]: which images a model is asked about,
//! what is sent along, and what its answers do to the pages.
//!
//! A page that holds nothing but one image is handled whole (point A); images on other pages
//! are handled one by one (point B).

use vstd::prelude::*;

use crate::count;
use crate::count::add_counts;
use crate::model;
use crate::model::{
    Block, BlockSpec, CellSpec, Document, DocumentSpec, Page, PageSpec, Paragraph, Resource,
    ResourceSpec, Table, TableCell, TableRow,
};
use crate::parser::dedup;

verus! {

/// Which images a model is asked about.
#[derive(Debug, Clone, Copy, PartialEq, Eq, Structural)]
pub enum ImageScope {
    /// All of them.
    All,
    /// Only those that are all a page holds.
    LowConfidencePagesOnly,
}

/// A cell of a table that a model read off an image.
#[derive(Debug)]
pub struct TableCellBlock {
    pub text: String,
    pub rowspan: u8,
    pub colspan: u8,
}

/// A table that a model read off an image.
#[derive(Debug)]
pub struct TableBlock {
    pub rows: Vec<Vec<TableCellBlock>>,
    pub header_rows: u8,
}

/// A part of what a model read off an image.
#[derive(Debug)]
pub enum ContentBlock {
    Paragraph(String),
    Table(TableBlock),
    /// Something that has no place in a document.
    Other,
}

/// What a model made of an image.
#[derive(Debug)]
pub enum ImageUnderstanding {
    /// Content to put in the place of the image.
    Structured(Vec<ContentBlock>),
    /// A text that describes the image.
    Description(String),
}

/// What a [`ContentBlock`] is.
pub enum ContentSpec {
    Paragraph(Seq<char>),
    Table(Seq<Seq<CellSpec>>, u8),
    Other,
}

/// What an [`ImageUnderstanding`] is.
pub enum UnderstandingSpec {
    Structured(Seq<ContentSpec>),
    Description(Seq<char>),
}

impl View for TableCellBlock {
    type V = CellSpec;

    open spec fn view(&self) -> CellSpec {
        CellSpec { text: self.text@, rowspan: self.rowspan, colspan: self.colspan }
    }
}

/// What a row of cells is.
pub open spec fn cells_view(s: Seq<TableCellBlock>) -> Seq<CellSpec> {
    Seq::new(s.len(), |i: int| s[i]@)
}

/// What rows of cells are.
pub open spec fn cell_rows_view(s: Seq<Vec<TableCellBlock>>) -> Seq<Seq<CellSpec>> {
    Seq::new(s.len(), |i: int| cells_view(s[i]@))
}

impl View for ContentBlock {
    type V = ContentSpec;

    open spec fn view(&self) -> ContentSpec {
        match self {
            ContentBlock::Paragraph(text) => ContentSpec::Paragraph(text@),
            ContentBlock::Table(t) => ContentSpec::Table(cell_rows_view(t.rows@), t.header_rows),
            ContentBlock::Other => ContentSpec::Other,
        }
    }
}

/// What a list of content is.
pub open spec fn contents_view(s: Seq<ContentBlock>) -> Seq<ContentSpec> {
    Seq::new(s.len(), |i: int| s[i]@)
}

impl View for ImageUnderstanding {
    type V = UnderstandingSpec;

    open spec fn view(&self) -> UnderstandingSpec {
        match self {
            ImageUnderstanding::Structured(s) => UnderstandingSpec::Structured(contents_view(s@)),
            ImageUnderstanding::Description(text) => UnderstandingSpec::Description(text@),
        }
    }
}

/// What an answer is, where there is one.
pub open spec fn answer_view(u: Option<ImageUnderstanding>) -> Option<UnderstandingSpec> {
    match u {
        Some(u) => Some(u@),
        None => None,
    }
}

/// The block that content becomes. What has no place in a document becomes nothing.
pub open spec fn mapped(c: ContentSpec) -> Seq<BlockSpec> {
    match c {
        ContentSpec::Paragraph(text) => seq![BlockSpec::Paragraph(seq![text])],
        ContentSpec::Table(rows, header_rows) => seq![BlockSpec::Table(rows, header_rows)],
        ContentSpec::Other => Seq::empty(),
    }
}

/// The blocks that content becomes, in order.
pub open spec fn mapped_all(s: Seq<ContentSpec>) -> Seq<BlockSpec>
    decreases s.len(),
{
    if s.len() == 0 {
        Seq::empty()
    } else {
        mapped_all(s.drop_last()) + mapped(s.last())
    }
}

/// Whether a page holds no text at all.
pub open spec fn textless(elements: Seq<BlockSpec>) -> bool {
    forall|i: int|
        0 <= i < elements.len() ==> !((#[trigger] elements[i]) is Paragraph) && !(
        elements[i] is Table)
}

/// Whether a page holds nothing but its one image.
pub open spec fn is_image_page(p: PageSpec) -> bool {
    p.images.len() == 1 && textless(p.elements)
}

/// `elements` with the description `text` on the first image that shows `id`.
pub open spec fn described(elements: Seq<BlockSpec>, id: Seq<char>, text: Seq<char>) -> Seq<
    BlockSpec,
>
    decreases elements.len(),
{
    if elements.len() == 0 {
        elements
    } else {
        match elements[0] {
            BlockSpec::Image(rid, _) => if rid == id {
                seq![BlockSpec::Image(rid, Some(text))] + elements.skip(1)
            } else {
                seq![elements[0]] + described(elements.skip(1), id, text)
            },
            _ => seq![elements[0]] + described(elements.skip(1), id, text),
        }
    }
}

/// What stands in the place of `b` once `u` is applied to it.
pub open spec fn replacement(b: BlockSpec, u: UnderstandingSpec) -> Seq<BlockSpec> {
    match u {
        UnderstandingSpec::Structured(s) => mapped_all(s),
        UnderstandingSpec::Description(text) => match b {
            BlockSpec::Image(id, _) => seq![BlockSpec::Image(id, Some(text))],
            _ => seq![b],
        },
    }
}

/// `elements` with `u` applied to the block at `idx`.
pub open spec fn applied(elements: Seq<BlockSpec>, idx: int, u: UnderstandingSpec) -> Seq<
    BlockSpec,
> {
    elements.take(idx) + replacement(elements[idx], u) + elements.skip(idx + 1)
}

/// The text of the last paragraph of `s`.
pub open spec fn last_text(s: Seq<BlockSpec>) -> Option<Seq<char>>
    decreases s.len(),
{
    if s.len() == 0 {
        None
    } else {
        match s.last() {
            BlockSpec::Paragraph(runs) => Some(model::joined(runs)),
            _ => last_text(s.drop_last()),
        }
    }
}

/// The text of the first paragraph of `s`.
pub open spec fn first_text(s: Seq<BlockSpec>) -> Option<Seq<char>>
    decreases s.len(),
{
    if s.len() == 0 {
        None
    } else {
        match s[0] {
            BlockSpec::Paragraph(runs) => Some(model::joined(runs)),
            _ => first_text(s.skip(1)),
        }
    }
}

/// What is asked of a model: the bytes of an image and their type, and the text around it.
pub struct RequestSpec {
    pub resource: ResourceSpec,
    pub preceding: Option<Seq<char>>,
    pub following: Option<Seq<char>>,
}

/// What happens to a page.
#[derive(Debug, Clone, Copy, PartialEq, Eq, Structural)]
pub enum PagePlan {
    /// Its only image is asked about, and nothing else.
    PointA,
    /// Its images are asked about one by one.
    PointB,
    /// Nothing.
    Skip,
}

/// What happens to the page `p`. Whether it is handled whole is decided once: a failure there
/// does not send the same image a second time.
pub open spec fn plan_for(p: PageSpec, scope: ImageScope) -> PagePlan {
    if is_image_page(p) {
        PagePlan::PointA
    } else if scope == ImageScope::All {
        PagePlan::PointB
    } else {
        PagePlan::Skip
    }
}

/// The page `p`, which was handled whole, with `answer` applied, and how many fallbacks that
/// is.
pub open spec fn answered_whole(p: PageSpec, answer: Option<UnderstandingSpec>) -> (PageSpec, nat) {
    match answer {
        Some(UnderstandingSpec::Structured(s)) => (
            PageSpec { elements: mapped_all(s), ..p },
            0,
        ),
        Some(UnderstandingSpec::Description(text)) => (
            PageSpec { elements: described(p.elements, p.images[0].0, text), ..p },
            0,
        ),
        None => (p, 1),
    }
}

/// The last of `s` with the key `id`.
pub open spec fn last_with(s: Seq<(Seq<char>, ResourceSpec)>, id: Seq<char>) -> Option<ResourceSpec>
    decreases s.len(),
{
    if s.len() == 0 {
        None
    } else if s.last().0 == id {
        Some(s.last().1)
    } else {
        last_with(s.drop_last(), id)
    }
}

/// The first of `s` with the key `id`.
pub open spec fn first_with(s: Seq<(Seq<char>, ResourceSpec)>, id: Seq<char>) -> Option<
    ResourceSpec,
>
    decreases s.len(),
{
    if s.len() == 0 {
        None
    } else if s[0].0 == id {
        Some(s[0].1)
    } else {
        first_with(s.skip(1), id)
    }
}

/// The resource that the id `id` on a page with these images stands for: the page's own comes
/// first, and then what any page of the document holds, since an image that several pages show
/// is kept on one of them alone.
pub open spec fn resource_for(
    images: Seq<(Seq<char>, ResourceSpec)>,
    shared: Seq<(Seq<char>, ResourceSpec)>,
    id: Seq<char>,
) -> Option<ResourceSpec> {
    match first_with(images, id) {
        Some(r) => Some(r),
        None => last_with(shared, id),
    }
}

/// The ids that images without a description show, in order.
pub open spec fn open_ids(elements: Seq<BlockSpec>) -> Seq<Seq<char>>
    decreases elements.len(),
{
    if elements.len() == 0 {
        Seq::empty()
    } else {
        match elements.last() {
            BlockSpec::Image(id, None) => open_ids(elements.drop_last()).push(id),
            _ => open_ids(elements.drop_last()),
        }
    }
}

/// The ids that images without a description show on pages that are not handled whole.
pub open spec fn all_open_ids(pages: Seq<PageSpec>) -> Seq<Seq<char>>
    decreases pages.len(),
{
    if pages.len() == 0 {
        Seq::empty()
    } else if is_image_page(pages.last()) {
        all_open_ids(pages.drop_last())
    } else {
        all_open_ids(pages.drop_last()) + open_ids(pages.last().elements)
    }
}

/// How often `id` occurs in `ids`.
pub open spec fn times(ids: Seq<Seq<char>>, id: Seq<char>) -> nat
    decreases ids.len(),
{
    if ids.len() == 0 {
        0
    } else if ids.last() == id {
        times(ids.drop_last(), id) + 1
    } else {
        times(ids.drop_last(), id)
    }
}

/// Whether the image `id` is asked about up front: more than one image block shows it, and the
/// document holds its bytes.
pub open spec fn asked_up_front(
    pages: Seq<PageSpec>,
    shared: Seq<(Seq<char>, ResourceSpec)>,
    id: Seq<char>,
) -> bool {
    times(all_open_ids(pages), id) > 1 && last_with(shared, id) is Some
}

/// What a model made of the images that are shown more than once, by id. `None` is a call that
/// fell back: every occurrence of that image stays as it is.
pub type Captions = Vec<(String, Option<ImageUnderstanding>)>;

/// What captions are.
pub open spec fn captions_view(s: Seq<(String, Option<ImageUnderstanding>)>) -> Seq<
    (Seq<char>, Option<UnderstandingSpec>),
> {
    Seq::new(s.len(), |i: int| (s[i].0@, answer_view(s[i].1)))
}

/// The caption for `id`, if that image was asked about up front.
pub open spec fn caption_for(
    captions: Seq<(Seq<char>, Option<UnderstandingSpec>)>,
    id: Seq<char>,
) -> Option<Option<UnderstandingSpec>>
    decreases captions.len(),
{
    if captions.len() == 0 {
        None
    } else if captions.last().0 == id {
        Some(captions.last().1)
    } else {
        caption_for(captions.drop_last(), id)
    }
}

/// An image block that is to be asked about, and the question.
pub struct AskSpec {
    pub idx: int,
    pub request: RequestSpec,
}

/// The elements of a page, and the next question about one of its images before `below`,
/// images from the end first. On the way the images that have a caption already are given it,
/// and images whose bytes nobody holds are passed over.
pub open spec fn advanced(
    elements: Seq<BlockSpec>,
    images: Seq<(Seq<char>, ResourceSpec)>,
    shared: Seq<(Seq<char>, ResourceSpec)>,
    captions: Seq<(Seq<char>, Option<UnderstandingSpec>)>,
    below: int,
) -> (Seq<BlockSpec>, Option<AskSpec>)
    decreases below,
{
    if below <= 0 {
        (elements, None)
    } else {
        let i = below - 1;
        match elements[i] {
            BlockSpec::Image(id, None) => match caption_for(captions, id) {
                Some(Some(u)) => advanced(applied(elements, i, u), images, shared, captions, i),
                Some(None) => advanced(elements, images, shared, captions, i),
                None => match resource_for(images, shared, id) {
                    Some(resource) => (
                        elements,
                        Some(
                            AskSpec {
                                idx: i,
                                request: RequestSpec {
                                    resource,
                                    preceding: last_text(elements.take(i)),
                                    following: first_text(elements.skip(i + 1)),
                                },
                            },
                        ),
                    ),
                    None => advanced(elements, images, shared, captions, i),
                },
            },
            _ => advanced(elements, images, shared, captions, i),
        }
    }
}

/// A page qualifies for point A when nothing but its (single) image survived
/// parsing: no paragraph or table content at all.
pub fn is_point_a_candidate(page: &Page) -> (r: bool)
    ensures
        r == is_image_page(page@),
{
    if page.images.len() != 1 {
        return false;
    }
    let mut i: usize = 0;
    while i < page.elements.len()
        invariant
            i <= page.elements@.len(),
            forall|j: int|
                0 <= j < i ==> !((#[trigger] page@.elements[j]) is Paragraph) && !(
                page@.elements[j] is Table),
        decreases page.elements@.len() - i,
    {
        assert(page@.elements[i as int] == page.elements@[i as int]@);
        match &page.elements[i] {
            Block::Paragraph(_) => {
                return false;
            },
            Block::Table(_) => {
                return false;
            },
            _ => {},
        }
        i += 1;
    }
    true
}

fn map_cells(cells: &Vec<TableCellBlock>) -> (r: Vec<TableCell>)
    ensures
        Seq::new(r@.len(), |i: int| r@[i]@) == cells_view(cells@),
{
    let mut out: Vec<TableCell> = Vec::new();
    let mut i: usize = 0;
    while i < cells.len()
        invariant
            i <= cells@.len(),
            out@.len() == i,
            forall|j: int| 0 <= j < i ==> (#[trigger] out@[j])@ == cells@[j]@,
        decreases cells@.len() - i,
    {
        let mut c = TableCell::text(cells[i].text.clone());
        c.rowspan = cells[i].rowspan;
        c.colspan = cells[i].colspan;
        out.push(c);
        i += 1;
    }
    assert(Seq::new(out@.len(), |j: int| out@[j]@) =~= cells_view(cells@));
    out
}

fn map_table(block: &TableBlock) -> (t: Table)
    ensures
        model::rows_view(t.rows@) == cell_rows_view(block.rows@),
        t.header_rows == block.header_rows,
{
    let mut table = Table::with_header(block.header_rows);
    let mut i: usize = 0;
    while i < block.rows.len()
        invariant
            i <= block.rows@.len(),
            table.header_rows == block.header_rows,
            model::rows_view(table.rows@) =~= cell_rows_view(block.rows@).take(i as int),
        decreases block.rows@.len() - i,
    {
        let row = TableRow::new(map_cells(&block.rows[i]));
        assert(row@ =~= cell_rows_view(block.rows@)[i as int]);
        table.add_row(row);
        i += 1;
    }
    table
}

/// Maps what a model read off an image onto the blocks of a page. What this library does not
/// know how to map is dropped rather than made up.
pub fn map_content_blocks(blocks: &Vec<ContentBlock>) -> (out: Vec<Block>)
    ensures
        model::blocks_view(out@) == mapped_all(contents_view(blocks@)),
{
    let ghost all = contents_view(blocks@);
    let mut out: Vec<Block> = Vec::new();
    let mut i: usize = 0;
    assert(all.take(0) =~= Seq::<ContentSpec>::empty());
    assert(model::blocks_view(out@) =~= Seq::<BlockSpec>::empty());
    while i < blocks.len()
        invariant
            i <= blocks@.len(),
            all == contents_view(blocks@),
            model::blocks_view(out@) == mapped_all(all.take(i as int)),
        decreases blocks@.len() - i,
    {
        let ghost before = model::blocks_view(out@);
        assert(all.take(i + 1).drop_last() =~= all.take(i as int));
        assert(all.take(i + 1).last() == blocks@[i as int]@);
        match &blocks[i] {
            ContentBlock::Paragraph(text) => {
                out.push(Block::Paragraph(Paragraph::with_text(text.clone())));
            },
            ContentBlock::Table(t) => {
                out.push(Block::Table(map_table(t)));
            },
            ContentBlock::Other => {},
        }
        assert(model::blocks_view(out@) =~= before + mapped(all[i as int]));
        i += 1;
    }
    assert(all.take(i as int) =~= all);
    out
}

/// Puts an answer in place of (`Structured`) or onto (`Description`) the image block at
/// `idx`.
pub fn apply_at(elements: &mut Vec<Block>, idx: usize, understanding: &ImageUnderstanding)
    requires
        idx < old(elements)@.len(),
    ensures
        model::blocks_view(final(elements)@) == applied(
            model::blocks_view(old(elements)@),
            idx as int,
            understanding@,
        ),
{
    let ghost all = model::blocks_view(elements@);
    match understanding {
        ImageUnderstanding::Structured(blocks) => {
            let mut tail = elements.split_off(idx);
            let ghost rest = tail@;
            tail.remove(0);
            let mut new_blocks = map_content_blocks(blocks);
            elements.append(&mut new_blocks);
            elements.append(&mut tail);
            assert(model::blocks_view(elements@) =~= applied(all, idx as int, understanding@));
        },
        ImageUnderstanding::Description(text) => {
            match &mut elements[idx] {
                Block::Image { alt_text, .. } => {
                    *alt_text = Some(text.clone());
                },
                _ => {},
            }
            assert(model::blocks_view(elements@) =~= applied(all, idx as int, understanding@));
        },
    }
}

/// Puts the description `text` on the first image that shows `resource_id`.
pub fn set_alt_text(elements: &mut Vec<Block>, resource_id: &String, text: String)
    ensures
        model::blocks_view(final(elements)@) == described(
            model::blocks_view(old(elements)@),
            resource_id@,
            text@,
        ),
{
    let ghost all = model::blocks_view(elements@);
    let mut i: usize = 0;
    assert(all.skip(0) =~= all);
    assert(all.take(0) + described(all, resource_id@, text@) =~= described(
        all,
        resource_id@,
        text@,
    ));
    while i < elements.len()
        invariant
            i <= elements@.len(),
            elements@ == old(elements)@,
            all == model::blocks_view(elements@),
            described(all, resource_id@, text@) == all.take(i as int) + described(
                all.skip(i as int),
                resource_id@,
                text@,
            ),
        decreases elements@.len() - i,
    {
        assert(all.skip(i as int)[0] == elements@[i as int]@);
        assert(all.skip(i as int).skip(1) =~= all.skip(i + 1));
        let found = match &elements[i] {
            Block::Image { resource_id: rid, .. } => *rid == *resource_id,
            _ => false,
        };
        if found {
            let ghost t = text@;
            match &mut elements[i] {
                Block::Image { alt_text, .. } => {
                    *alt_text = Some(text);
                },
                _ => {},
            }
            assert(model::blocks_view(elements@) =~= all.take(i as int) + described(
                all.skip(i as int),
                resource_id@,
                t,
            ));
            return;
        }
        assert(all.take(i + 1) + described(all.skip(i + 1), resource_id@, text@) =~= all.take(
            i as int,
        ) + described(all.skip(i as int), resource_id@, text@));
        i += 1;
    }
    assert(all.take(i as int) + described(all.skip(i as int), resource_id@, text@) =~= all);
}

/// The text of the paragraph that comes last before `idx`.
pub fn preceding_paragraph_text(elements: &Vec<Block>, idx: usize) -> (text: Option<String>)
    requires
        idx <= elements@.len(),
    ensures
        model::text_opt(text) == last_text(model::blocks_view(elements@).take(idx as int)),
{
    let ghost all = model::blocks_view(elements@);
    let mut i: usize = idx;
    while i > 0
        invariant
            i <= idx <= elements@.len(),
            all == model::blocks_view(elements@),
            last_text(all.take(i as int)) == last_text(all.take(idx as int)),
        decreases i,
    {
        i -= 1;
        assert(all.take(i + 1).drop_last() =~= all.take(i as int));
        assert(all.take(i + 1).last() == elements@[i as int]@);
        match &elements[i] {
            Block::Paragraph(p) => {
                return Some(p.plain_text());
            },
            _ => {},
        }
    }
    None
}

/// The text of the paragraph that comes first after `idx`.
pub fn following_paragraph_text(elements: &Vec<Block>, idx: usize) -> (text: Option<String>)
    requires
        idx < elements@.len(),
    ensures
        model::text_opt(text) == first_text(model::blocks_view(elements@).skip(idx + 1)),
{
    let ghost all = model::blocks_view(elements@);
    assert(elements@.len() == elements.len());
    let mut i: usize = idx + 1;
    while i < elements.len()
        invariant
            idx + 1 <= i <= elements@.len(),
            all == model::blocks_view(elements@),
            first_text(all.skip(i as int)) == first_text(all.skip(idx + 1)),
        decreases elements@.len() - i,
    {
        assert(all.skip(i as int).skip(1) =~= all.skip(i + 1));
        assert(all.skip(i as int)[0] == elements@[i as int]@);
        match &elements[i] {
            Block::Paragraph(p) => {
                return Some(p.plain_text());
            },
            _ => {},
        }
        i += 1;
    }
    None
}

/// What is asked of a model.
#[derive(Debug)]
pub struct Request {
    pub mime_type: String,
    pub data: Vec<u8>,
    /// The text of the paragraph before the image.
    pub preceding_text: Option<String>,
    /// The text of the paragraph after the image.
    pub following_text: Option<String>,
}

impl View for Request {
    type V = RequestSpec;

    open spec fn view(&self) -> RequestSpec {
        RequestSpec {
            resource: ResourceSpec { mime_type: self.mime_type@, data: self.data@ },
            preceding: model::text_opt(self.preceding_text),
            following: model::text_opt(self.following_text),
        }
    }
}

/// A question about `resource` that sends no text along.
fn request_alone(resource: &Resource) -> (r: Request)
    ensures
        r@ == (RequestSpec { resource: resource@, preceding: None, following: None }),
{
    Request {
        mime_type: resource.mime_type.clone(),
        data: vstd::slice::slice_to_vec(resource.data.as_slice()),
        preceding_text: None,
        following_text: None,
    }
}

/// What happens to `page`.
pub fn plan_page(page: &Page, scope: ImageScope) -> (plan: PagePlan)
    ensures
        plan == plan_for(page@, scope),
{
    if is_point_a_candidate(page) {
        PagePlan::PointA
    } else if scope == ImageScope::All {
        PagePlan::PointB
    } else {
        PagePlan::Skip
    }
}

/// The question about the first image of a page that is handled whole.
pub fn point_a_request(page: &Page) -> (r: Option<Request>)
    ensures
        match r {
            Some(request) => page@.images.len() > 0 && request@ == (RequestSpec {
                resource: page@.images[0].1,
                preceding: None,
                following: None,
            }),
            None => page@.images.len() == 0,
        },
{
    if page.images.len() == 0 {
        None
    } else {
        Some(request_alone(&page.images[0].1))
    }
}

/// Applies the answer to [`point_a_request`], and counts a fallback where there is none.
pub fn finish_point_a(
    page: &mut Page,
    answer: Option<ImageUnderstanding>,
    fallbacks: &mut usize,
)
    requires
        old(page)@.images.len() > 0,
    ensures
        final(page)@ == answered_whole(old(page)@, answer_view(answer)).0,
        *final(fallbacks) == (if answer is None {
            if *old(fallbacks) == usize::MAX {
                0
            } else {
                *old(fallbacks) + 1
            }
        } else {
            *old(fallbacks) as int
        }),
{
    match answer {
        Some(ImageUnderstanding::Structured(blocks)) => {
            page.elements = map_content_blocks(&blocks);
        },
        Some(ImageUnderstanding::Description(text)) => {
            let resource_id = page.images[0].0.clone();
            set_alt_text(&mut page.elements, &resource_id, text);
        },
        None => {
            *fallbacks = fallbacks.wrapping_add(1);
        },
    }
}

fn find_last<'a>(s: &'a Vec<(String, Resource)>, id: &String) -> (r: Option<&'a Resource>)
    ensures
        match r {
            Some(r) => last_with(model::resources_view(s@), id@) == Some(r@),
            None => last_with(model::resources_view(s@), id@) is None,
        },
{
    let ghost all = model::resources_view(s@);
    let mut i: usize = s.len();
    assert(all.take(i as int) =~= all);
    while i > 0
        invariant
            i <= s@.len(),
            all == model::resources_view(s@),
            last_with(all.take(i as int), id@) == last_with(all, id@),
        decreases i,
    {
        i -= 1;
        assert(all.take(i + 1).drop_last() =~= all.take(i as int));
        if s[i].0 == *id {
            return Some(&s[i].1);
        }
    }
    None
}

fn find_first<'a>(s: &'a Vec<(String, Resource)>, id: &String) -> (r: Option<&'a Resource>)
    ensures
        match r {
            Some(r) => first_with(model::resources_view(s@), id@) == Some(r@),
            None => first_with(model::resources_view(s@), id@) is None,
        },
{
    let ghost all = model::resources_view(s@);
    let mut i: usize = 0;
    assert(all.skip(0) =~= all);
    while i < s.len()
        invariant
            i <= s@.len(),
            all == model::resources_view(s@),
            first_with(all.skip(i as int), id@) == first_with(all, id@),
        decreases s@.len() - i,
    {
        assert(all.skip(i as int).skip(1) =~= all.skip(i + 1));
        if s[i].0 == *id {
            return Some(&s[i].1);
        }
        i += 1;
    }
    None
}

fn find_resource<'a>(
    images: &'a Vec<(String, Resource)>,
    shared: &'a Vec<(String, Resource)>,
    id: &String,
) -> (r: Option<&'a Resource>)
    ensures
        match r {
            Some(r) => resource_for(
                model::resources_view(images@),
                model::resources_view(shared@),
                id@,
            ) == Some(r@),
            None => resource_for(
                model::resources_view(images@),
                model::resources_view(shared@),
                id@,
            ) is None,
        },
{
    match find_first(images, id) {
        Some(r) => Some(r),
        None => find_last(shared, id),
    }
}

fn find_caption<'a>(captions: &'a Captions, id: &String) -> (r: Option<
    &'a Option<ImageUnderstanding>,
>)
    ensures
        match r {
            Some(c) => caption_for(captions_view(captions@), id@) == Some(answer_view(*c)),
            None => caption_for(captions_view(captions@), id@) is None,
        },
{
    let ghost all = captions_view(captions@);
    let mut i: usize = captions.len();
    assert(all.take(i as int) =~= all);
    while i > 0
        invariant
            i <= captions@.len(),
            all == captions_view(captions@),
            caption_for(all.take(i as int), id@) == caption_for(all, id@),
        decreases i,
    {
        i -= 1;
        assert(all.take(i + 1).drop_last() =~= all.take(i as int));
        if captions[i].0 == *id {
            return Some(&captions[i].1);
        }
    }
    None
}

/// The next question about an image of a page, and the place of its block.
#[derive(Debug)]
pub struct Ask {
    pub idx: usize,
    pub request: Request,
}

/// Moves on over the images of `page` before `below`, from the end, up to the next one to ask
/// about. Going from the end keeps the places of the images still to come valid, whatever an
/// answer does to the number of blocks.
pub fn next_point_b(
    page: &mut Page,
    shared: &Vec<(String, Resource)>,
    captions: &Captions,
    below: usize,
) -> (ask: Option<Ask>)
    requires
        below <= old(page)@.elements.len(),
    ensures
        ({
            let (elements, next) = advanced(
                old(page)@.elements,
                old(page)@.images,
                model::resources_view(shared@),
                captions_view(captions@),
                below as int,
            );
            &&& final(page)@ == (PageSpec { elements, ..old(page)@ })
            &&& match ask {
                Some(ask) => next matches Some(n) && ask.idx == n.idx && ask.request@ == n.request
                    && ask.idx < below && ask.idx < elements.len(),
                None => next is None,
            }
        }),
{
    let ghost images = page@.images;
    let ghost others = model::resources_view(shared@);
    let ghost caps = captions_view(captions@);
    let ghost whole = advanced(page@.elements, images, others, caps, below as int);
    let mut i: usize = below;
    while i > 0
        invariant
            i <= below,
            i <= page@.elements.len(),
            images == old(page)@.images,
            page.images == old(page).images,
            page.number == old(page).number,
            others == model::resources_view(shared@),
            caps == captions_view(captions@),
            whole == advanced(old(page)@.elements, images, others, caps, below as int),
            whole == advanced(page@.elements, images, others, caps, i as int),
        decreases i,
    {
        i -= 1;
        assert(page@.elements[i as int] == page.elements@[i as int]@);
        let id: Option<String> = match &page.elements[i] {
            Block::Image { resource_id, alt_text } => if alt_text.is_none() {
                Some(resource_id.clone())
            } else {
                None
            },
            _ => None,
        };
        match id {
            Some(id) => match find_caption(captions, &id) {
                Some(Some(understanding)) => {
                    apply_at(&mut page.elements, i, understanding);
                },
                Some(None) => {},
                None => match find_resource(&page.images, shared, &id) {
                    Some(resource) => {
                        let request = Request {
                            mime_type: resource.mime_type.clone(),
                            data: vstd::slice::slice_to_vec(resource.data.as_slice()),
                            preceding_text: preceding_paragraph_text(&page.elements, i),
                            following_text: following_paragraph_text(&page.elements, i),
                        };
                        return Some(Ask { idx: i, request });
                    },
                    None => {},
                },
            },
            None => {},
        }
    }
    None
}

/// Applies the answer to the question about the block at `idx`, and counts a fallback where
/// there is none.
pub fn finish_point_b(
    page: &mut Page,
    idx: usize,
    answer: Option<ImageUnderstanding>,
    fallbacks: &mut usize,
)
    requires
        idx < old(page)@.elements.len(),
    ensures
        final(page)@ == (PageSpec {
            elements: match answer_view(answer) {
                Some(u) => applied(old(page)@.elements, idx as int, u),
                None => old(page)@.elements,
            },
            ..old(page)@
        }),
        *final(fallbacks) == (if answer is None {
            if *old(fallbacks) == usize::MAX {
                0
            } else {
                *old(fallbacks) + 1
            }
        } else {
            *old(fallbacks) as int
        }),
{
    match answer {
        Some(understanding) => {
            apply_at(&mut page.elements, idx, &understanding);
        },
        None => {
            *fallbacks = fallbacks.wrapping_add(1);
        },
    }
}

/// The images of all pages. An image that several pages show is kept on one of them alone, so
/// a page has to look beyond its own.
pub fn collect_shared(pages: &Vec<Page>) -> (shared: Vec<(String, Resource)>)
    ensures
        model::resources_view(shared@) == dedup::all_images(model::pages_view(pages@)),
{
    let ghost all = model::pages_view(pages@);
    let mut shared: Vec<(String, Resource)> = Vec::new();
    let mut i: usize = 0;
    assert(all.take(0) =~= Seq::<PageSpec>::empty());
    assert(model::resources_view(shared@) =~= Seq::<(Seq<char>, ResourceSpec)>::empty());
    while i < pages.len()
        invariant
            i <= pages@.len(),
            all == model::pages_view(pages@),
            model::resources_view(shared@) == dedup::all_images(all.take(i as int)),
        decreases pages@.len() - i,
    {
        let page = &pages[i];
        let ghost before = model::resources_view(shared@);
        let mut j: usize = 0;
        assert(before + page@.images.take(0) =~= before);
        while j < page.images.len()
            invariant
                j <= page.images@.len(),
                model::resources_view(shared@) == before + page@.images.take(j as int),
            decreases page.images@.len() - j,
        {
            let ghost so_far = model::resources_view(shared@);
            shared.push((page.images[j].0.clone(), page.images[j].1.clone()));
            assert(model::resources_view(shared@) =~= so_far.push(page@.images[j as int]));
            assert(model::resources_view(shared@) =~= before + page@.images.take(j + 1));
            j += 1;
        }
        proof {
            assert(page@.images.take(j as int) =~= page@.images);
            assert(all.take(i + 1).drop_last() =~= all.take(i as int));
        }
        i += 1;
    }
    assert(all.take(i as int) =~= all);
    shared
}

/// What ids are.
pub open spec fn ids_view(s: Seq<&String>) -> Seq<Seq<char>> {
    Seq::new(s.len(), |i: int| s[i]@)
}

/// Appends the ids that images without a description among `elements` show.
fn push_open_ids<'a>(elements: &'a Vec<Block>, ids: &mut Vec<&'a String>)
    ensures
        ids_view(final(ids)@) == ids_view(old(ids)@) + open_ids(model::blocks_view(elements@)),
{
    let ghost all = model::blocks_view(elements@);
    let ghost before = ids_view(ids@);
    let mut i: usize = 0;
    assert(all.take(0) =~= Seq::<BlockSpec>::empty());
    assert(before + open_ids(all.take(0)) =~= before);
    while i < elements.len()
        invariant
            i <= elements@.len(),
            all == model::blocks_view(elements@),
            before == ids_view(old(ids)@),
            ids_view(ids@) == before + open_ids(all.take(i as int)),
        decreases elements@.len() - i,
    {
        assert(all.take(i + 1).drop_last() =~= all.take(i as int));
        assert(all.take(i + 1).last() == elements@[i as int]@);
        match &elements[i] {
            Block::Image { resource_id, alt_text } => {
                if alt_text.is_none() {
                    let ghost so_far = ids_view(ids@);
                    ids.push(resource_id);
                    assert(ids_view(ids@) =~= so_far.push(resource_id@));
                    assert(ids_view(ids@) =~= before + open_ids(all.take(i + 1)));
                }
            },
            _ => {},
        }
        i += 1;
    }
    assert(all.take(i as int) =~= all);
}

fn collect_open_ids(pages: &Vec<Page>) -> (ids: Vec<&String>)
    ensures
        ids_view(ids@) == all_open_ids(model::pages_view(pages@)),
{
    let ghost all = model::pages_view(pages@);
    let mut ids: Vec<&String> = Vec::new();
    let mut i: usize = 0;
    assert(all.take(0) =~= Seq::<PageSpec>::empty());
    assert(ids_view(ids@) =~= Seq::<Seq<char>>::empty());
    while i < pages.len()
        invariant
            i <= pages@.len(),
            all == model::pages_view(pages@),
            ids_view(ids@) == all_open_ids(all.take(i as int)),
        decreases pages@.len() - i,
    {
        assert(all.take(i + 1).drop_last() =~= all.take(i as int));
        // A page that is handled whole is captioned by its own call.
        if !is_point_a_candidate(&pages[i]) {
            push_open_ids(&pages[i].elements, &mut ids);
        }
        i += 1;
    }
    assert(all.take(i as int) =~= all);
    ids
}

/// Whether `ids[end]` occurs before `end`.
fn occurs_before(ids: &Vec<&String>, end: usize) -> (r: bool)
    requires
        end < ids@.len(),
    ensures
        r == (times(ids_view(ids@).take(end as int), ids_view(ids@)[end as int]) > 0),
{
    let ghost all = ids_view(ids@);
    let mut i: usize = 0;
    assert(all.take(0) =~= Seq::<Seq<char>>::empty());
    while i < end
        invariant
            i <= end < ids@.len(),
            all == ids_view(ids@),
            times(all.take(i as int), all[end as int]) == 0,
        decreases end - i,
    {
        assert(all.take(i + 1).drop_last() =~= all.take(i as int));
        if *ids[i] == *ids[end] {
            proof {
                lemma_times_prefix(all.take(end as int), all[end as int], i + 1);
                assert(all.take(end as int).take(i + 1) =~= all.take(i + 1));
            }
            return true;
        }
        i += 1;
    }
    false
}

/// What occurs in a part of `ids` occurs as often in all of it.
proof fn lemma_times_prefix(ids: Seq<Seq<char>>, id: Seq<char>, n: int)
    requires
        0 <= n <= ids.len(),
    ensures
        times(ids.take(n), id) <= times(ids, id),
    decreases ids.len(),
{
    if n < ids.len() {
        lemma_times_prefix(ids.drop_last(), id, n);
        assert(ids.drop_last().take(n) =~= ids.take(n));
    } else {
        assert(ids.take(n) =~= ids);
    }
}

/// Whether there is a question about `id`.
pub open spec fn requested(requests: Seq<(String, Request)>, id: Seq<char>) -> bool {
    exists|k: int| 0 <= k < requests.len() && (#[trigger] requests[k]).0@ == id
}

/// Adding a question adds what is asked about.
proof fn lemma_requested_push(
    requests: Seq<(String, Request)>,
    new: (String, Request),
    id: Seq<char>,
)
    ensures
        requested(requests.push(new), id) == (requested(requests, id) || new.0@ == id),
{
    let after = requests.push(new);
    if requested(requests, id) {
        let k = choose|k: int| 0 <= k < requests.len() && (#[trigger] requests[k]).0@ == id;
        assert(after[k].0@ == id);
    }
    if new.0@ == id {
        assert(after[requests.len() as int].0@ == id);
    }
    if requested(after, id) {
        let k = choose|k: int| 0 <= k < after.len() && (#[trigger] after[k]).0@ == id;
        if k < requests.len() {
            assert(requests[k].0@ == id);
        }
    }
}

/// Whether there is a question about `id` already.
fn has_request(requests: &Vec<(String, Request)>, id: &String) -> (r: bool)
    ensures
        r == requested(requests@, id@),
{
    let mut i: usize = 0;
    while i < requests.len()
        invariant
            i <= requests@.len(),
            forall|k: int| 0 <= k < i ==> (#[trigger] requests@[k]).0@ != id@,
        decreases requests@.len() - i,
    {
        if requests[i].0 == *id {
            return true;
        }
        i += 1;
    }
    false
}

/// Whether the questions are of one kind: each about another image, with the bytes that
/// `shared` has for it and with no text around it.
pub open spec fn asked_alone(
    requests: Seq<(String, Request)>,
    shared: Seq<(Seq<char>, ResourceSpec)>,
) -> bool {
    &&& forall|k: int|
        0 <= k < requests.len() ==> (#[trigger] requests[k]).1@ == (RequestSpec {
            resource: last_with(shared, requests[k].0@)->0,
            preceding: None,
            following: None,
        })
    &&& forall|k: int, l: int|
        0 <= k < l < requests.len() ==> (#[trigger] requests[k]).0@ != (#[trigger] requests[l]).0@
}

/// The questions about images that more than one image block shows, each once and with no
/// text around it: no single page's text describes an image that belongs to several. Bytes
/// that the document does not hold cannot be sent, so such images are left out.
pub fn repeated_image_requests(pages: &Vec<Page>, shared: &Vec<(String, Resource)>) -> (requests:
    Vec<(String, Request)>)
    ensures
        forall|id: Seq<char>| #[trigger]
            requested(requests@, id) <==> asked_up_front(
                model::pages_view(pages@),
                model::resources_view(shared@),
                id,
            ),
        asked_alone(requests@, model::resources_view(shared@)),
{
    let ids = collect_open_ids(pages);
    let ghost all = ids_view(ids@);
    let ghost others = model::resources_view(shared@);
    let mut requests: Vec<(String, Request)> = Vec::new();
    let mut i: usize = 0;
    assert(all.take(0) =~= Seq::<Seq<char>>::empty());
    while i < ids.len()
        invariant
            i <= ids@.len(),
            all == ids_view(ids@),
            others == model::resources_view(shared@),
            forall|id: Seq<char>| #[trigger]
                requested(requests@, id) <==> times(all.take(i as int), id) > 1 && last_with(
                    others,
                    id,
                ) is Some,
            asked_alone(requests@, others),
        decreases ids@.len() - i,
    {
        let ghost before = requests@;
        let ghost id = all[i as int];
        assert(all.take(i + 1).drop_last() =~= all.take(i as int));
        assert(all.take(i + 1).last() == id);
        if occurs_before(&ids, i) && !has_request(&requests, ids[i]) {
            match find_last(shared, ids[i]) {
                Some(resource) => {
                    let request = request_alone(resource);
                    requests.push((ids[i].clone(), request));
                    proof {
                        assert forall|x: Seq<char>| #[trigger] requested(requests@, x) == (
                        requested(before, x) || x == id) by {
                            lemma_requested_push(before, requests@.last(), x);
                        }
                        assert forall|k: int| 0 <= k < before.len() implies (
                        #[trigger] before[k]).0@ != id by {
                            if before[k].0@ == id {
                                assert(requested(before, id));
                            }
                        }
                        assert(asked_alone(requests@, others));
                    }
                },
                None => {},
            }
        }
        i += 1;
    }
    assert(all.take(i as int) =~= all);
    requests
}

/// The questions that are asked before the pages are gone through one by one. With the narrow
/// scope there are none: it asks about no image of a page that is not handled whole.
pub fn up_front_requests(
    pages: &Vec<Page>,
    shared: &Vec<(String, Resource)>,
    scope: ImageScope,
) -> (requests: Vec<(String, Request)>)
    ensures
        scope != ImageScope::All ==> requests@.len() == 0,
        scope == ImageScope::All ==> (forall|id: Seq<char>| #[trigger]
            requested(requests@, id) <==> asked_up_front(
                model::pages_view(pages@),
                model::resources_view(shared@),
                id,
            )),
        asked_alone(requests@, model::resources_view(shared@)),
{
    if scope == ImageScope::All {
        repeated_image_requests(pages, shared)
    } else {
        Vec::new()
    }
}

/// Adds the answer about an image that is shown more than once. A failure counts once, not
/// once for each place that shows the image.
pub fn add_caption(
    captions: &mut Captions,
    id: String,
    answer: Option<ImageUnderstanding>,
    fallbacks: &mut usize,
)
    ensures
        captions_view(final(captions)@) == captions_view(old(captions)@).push(
            (id@, answer_view(answer)),
        ),
        *final(fallbacks) == (if answer is None {
            if *old(fallbacks) == usize::MAX {
                0
            } else {
                *old(fallbacks) + 1
            }
        } else {
            *old(fallbacks) as int
        }),
{
    if answer.is_none() {
        *fallbacks = fallbacks.wrapping_add(1);
    }
    let ghost before = captions_view(captions@);
    let ghost entry = (id@, answer_view(answer));
    captions.push((id, answer));
    assert(captions_view(captions@) =~= before.push(entry));
}

/// `doc` with `fallbacks` more that it counts.
pub open spec fn recorded(doc: DocumentSpec, fallbacks: nat) -> DocumentSpec {
    DocumentSpec {
        ai_fallback_count: count::wrapped(doc.ai_fallback_count as nat + fallbacks) as usize,
        ..doc
    }
}

/// Adds `fallbacks` to those that the document counts.
pub fn record_fallbacks(document: &mut Document, fallbacks: usize)
    ensures
        final(document)@ == recorded(old(document)@, fallbacks as nat),
{
    document.extraction_quality.ai_fallback_count =
        add_counts(document.extraction_quality.ai_fallback_count, fallbacks);
}

} // verus!
