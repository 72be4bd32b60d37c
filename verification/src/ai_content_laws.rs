//! What the answers of a model become on a page, block by block, and which text and which bytes
//! go with a question.

use vstd::prelude::*;

use crate::ai_wiring;
use crate::ai_wiring::{
    ContentBlock, ContentSpec, ImageScope, ImageUnderstanding, PagePlan, Request,
    UnderstandingSpec,
};
use crate::model;
use crate::model::{Block, BlockSpec, PageSpec, ResourceSpec};

verus! {

/// How many of the first `n` parts of what a model read have a place in a document.
pub open spec fn placed_before(content: Seq<ContentBlock>, n: int) -> nat
    decreases n,
{
    if n <= 0 {
        0
    } else if content[n - 1] is Other {
        placed_before(content, n - 1)
    } else {
        placed_before(content, n - 1) + 1
    }
}

/// What a list of content becomes, by the places of its parts.
proof fn lemma_mapped(content: Seq<ContentBlock>, n: int)
    requires
        0 <= n <= content.len(),
    ensures
        ({
            let m = ai_wiring::mapped_all(ai_wiring::contents_view(content).take(n));
            &&& m.len() == placed_before(content, n)
            &&& forall|i: int|
                0 <= i < n && !((#[trigger] content[i]) is Other) ==> placed_before(content, i)
                    < m.len() && m[placed_before(content, i) as int] == (match content[i] {
                    ContentBlock::Paragraph(text) => BlockSpec::Paragraph(seq![text@]),
                    ContentBlock::Table(t) => BlockSpec::Table(
                        ai_wiring::cell_rows_view(t.rows@),
                        t.header_rows,
                    ),
                    ContentBlock::Other => arbitrary(),
                })
        }),
    decreases n,
{
    let all = ai_wiring::contents_view(content);
    if n > 0 {
        lemma_mapped(content, n - 1);
        assert(all.take(n).drop_last() =~= all.take(n - 1));
        assert(all.take(n).last() == content[n - 1]@);
        lemma_placed_grows(content, n - 1);
    } else {
        assert(all.take(0) =~= Seq::<ContentSpec>::empty());
    }
}

proof fn lemma_placed_grows(content: Seq<ContentBlock>, n: int)
    requires
        0 <= n <= content.len(),
    ensures
        forall|i: int|
            0 <= i < n && !((#[trigger] content[i]) is Other) ==> placed_before(content, i)
                < placed_before(content, n),
    decreases n,
{
    if n > 0 {
        lemma_placed_grows(content, n - 1);
    }
}

/// What a model read becomes blocks, part by part and in order: a paragraph becomes a paragraph
/// of one run with its text; a table becomes a table with the same number of header rows and
/// the same rows, each with the same cells in the same order, their text and spans included.
/// What has no place in a document is left out, and nothing else is.
pub proof fn content_becomes_blocks_part_by_part(content: Seq<ContentBlock>, blocks: Seq<Block>)
    requires
        model::blocks_view(blocks) == ai_wiring::mapped_all(ai_wiring::contents_view(content)),
    ensures
        blocks.len() == placed_before(content, content.len() as int),
        forall|i: int|
            0 <= i < content.len() && (#[trigger] content[i]) is Paragraph ==> (
            blocks[placed_before(content, i) as int] matches Block::Paragraph(p) && p.runs@.len()
                == 1 && p.runs@[0]@ == content[i]->Paragraph_0@),
        forall|i: int|
            0 <= i < content.len() && (#[trigger] content[i]) is Table ==> (blocks[placed_before(
                content,
                i,
            ) as int] matches Block::Table(t) && t.header_rows == content[i]->Table_0.header_rows
                && t.rows@.len() == content[i]->Table_0.rows@.len()),
        forall|i: int, r: int|
            0 <= i < content.len() && (#[trigger] content[i]) is Table && 0 <= r
                < content[i]->Table_0.rows@.len() ==> (
            #[trigger] blocks[placed_before(content, i) as int]->Table_0.rows@[r]).cells@.len()
                == content[i]->Table_0.rows@[r]@.len(),
        forall|i: int, r: int, c: int|
            0 <= i < content.len() && (#[trigger] content[i]) is Table && 0 <= r
                < content[i]->Table_0.rows@.len() && 0 <= c
                < content[i]->Table_0.rows@[r]@.len() ==> ({
                let made = #[trigger] blocks[placed_before(
                    content,
                    i,
                ) as int]->Table_0.rows@[r].cells@[c];
                let read = content[i]->Table_0.rows@[r]@[c];
                made.text@ == read.text@ && made.rowspan == read.rowspan && made.colspan
                    == read.colspan
            }),
{
    let n = content.len() as int;
    let all = ai_wiring::contents_view(content);
    assert(all.take(n) =~= all);
    lemma_mapped(content, n);
    assert forall|i: int| 0 <= i < content.len() && (#[trigger] content[i]) is Paragraph implies (
    blocks[placed_before(content, i) as int] matches Block::Paragraph(p) && p.runs@.len() == 1
        && p.runs@[0]@ == content[i]->Paragraph_0@) by {
        let k = placed_before(content, i) as int;
        assert(model::blocks_view(blocks)[k] == blocks[k]@);
        let p = blocks[k]->Paragraph_0;
        assert(p@ == seq![content[i]->Paragraph_0@]);
        assert(p@.len() == 1 && p@[0] == content[i]->Paragraph_0@);
    }
    assert forall|i: int| 0 <= i < content.len() && (#[trigger] content[i]) is Table implies (
    blocks[placed_before(content, i) as int] matches Block::Table(t) && t.header_rows
        == content[i]->Table_0.header_rows && t.rows@.len()
        == content[i]->Table_0.rows@.len()) by {
        lemma_same_rows(content, blocks, i);
    }
    assert forall|i: int, r: int|
        0 <= i < content.len() && (#[trigger] content[i]) is Table && 0 <= r
            < content[i]->Table_0.rows@.len() implies (
    #[trigger] blocks[placed_before(content, i) as int]->Table_0.rows@[r]).cells@.len()
        == content[i]->Table_0.rows@[r]@.len() by {
        lemma_same_rows(content, blocks, i);
    }
    assert forall|i: int, r: int, c: int|
        0 <= i < content.len() && (#[trigger] content[i]) is Table && 0 <= r
            < content[i]->Table_0.rows@.len() && 0 <= c
            < content[i]->Table_0.rows@[r]@.len() implies ({
        let made = #[trigger] blocks[placed_before(
            content,
            i,
        ) as int]->Table_0.rows@[r].cells@[c];
        let read = content[i]->Table_0.rows@[r]@[c];
        made.text@ == read.text@ && made.rowspan == read.rowspan && made.colspan == read.colspan
    }) by {
        lemma_same_rows(content, blocks, i);
    }
}

/// The rows of the block that a table becomes.
proof fn lemma_same_rows(content: Seq<ContentBlock>, blocks: Seq<Block>, i: int)
    requires
        model::blocks_view(blocks) == ai_wiring::mapped_all(ai_wiring::contents_view(content)),
        0 <= i < content.len(),
        content[i] is Table,
    ensures
        ({
            let read = content[i]->Table_0;
            blocks[placed_before(content, i) as int] matches Block::Table(t) && t.header_rows
                == read.header_rows && t.rows@.len() == read.rows@.len() && forall|r: int|
                0 <= r < t.rows@.len() ==> (#[trigger] t.rows@[r]).cells@.len()
                    == read.rows@[r]@.len() && forall|c: int|
                    0 <= c < t.rows@[r].cells@.len() ==> (#[trigger] t.rows@[r].cells@[c]).text@
                        == read.rows@[r]@[c].text@ && t.rows@[r].cells@[c].rowspan
                        == read.rows@[r]@[c].rowspan && t.rows@[r].cells@[c].colspan
                        == read.rows@[r]@[c].colspan
        }),
{
    let n = content.len() as int;
    let all = ai_wiring::contents_view(content);
    assert(all.take(n) =~= all);
    lemma_mapped(content, n);
    let k = placed_before(content, i) as int;
    assert(model::blocks_view(blocks)[k] == blocks[k]@);
    let t = blocks[k]->Table_0;
    let read = content[i]->Table_0;
    assert(model::rows_view(t.rows@) == ai_wiring::cell_rows_view(read.rows@));
    assert(model::rows_view(t.rows@).len() == t.rows@.len());
    assert forall|r: int| 0 <= r < t.rows@.len() implies (#[trigger] t.rows@[r]).cells@.len()
        == read.rows@[r]@.len() && forall|c: int|
        0 <= c < t.rows@[r].cells@.len() ==> (#[trigger] t.rows@[r].cells@[c]).text@
            == read.rows@[r]@[c].text@ && t.rows@[r].cells@[c].rowspan
            == read.rows@[r]@[c].rowspan && t.rows@[r].cells@[c].colspan
            == read.rows@[r]@[c].colspan by {
        let row = t.rows@[r]@;
        assert(model::rows_view(t.rows@)[r] == row);
        assert(row == ai_wiring::cells_view(read.rows@[r]@));
        assert(row.len() == t.rows@[r].cells@.len());
        assert forall|c: int| 0 <= c < t.rows@[r].cells@.len() implies (
        #[trigger] t.rows@[r].cells@[c]).text@ == read.rows@[r]@[c].text@
            && t.rows@[r].cells@[c].rowspan == read.rows@[r]@[c].rowspan
            && t.rows@[r].cells@[c].colspan == read.rows@[r]@[c].colspan by {
            assert(row[c] == t.rows@[r].cells@[c]@);
            assert(row[c] == read.rows@[r]@[c]@);
        }
    }
}

/// Content that is put together becomes the blocks of its parts put together.
pub proof fn content_becomes_blocks_in_order(a: Seq<ContentSpec>, b: Seq<ContentSpec>)
    ensures
        ai_wiring::mapped_all(a + b) == ai_wiring::mapped_all(a) + ai_wiring::mapped_all(b),
    decreases b.len(),
{
    if b.len() == 0 {
        assert(a + b =~= a);
        assert(ai_wiring::mapped_all(a) + ai_wiring::mapped_all(b) =~= ai_wiring::mapped_all(a));
    } else {
        content_becomes_blocks_in_order(a, b.drop_last());
        assert((a + b).drop_last() =~= a + b.drop_last());
        let m = ai_wiring::mapped(b.last());
        assert(ai_wiring::mapped_all(a) + ai_wiring::mapped_all(b.drop_last()) + m
            =~= ai_wiring::mapped_all(a) + (ai_wiring::mapped_all(b.drop_last()) + m));
    }
}

/// A description that is applied to an image gives it that text, keeps its id, and leaves every
/// other block as it is and where it is.
pub proof fn a_description_is_applied_in_place(
    elements: Seq<BlockSpec>,
    idx: int,
    id: Seq<char>,
    alt: Option<Seq<char>>,
    text: Seq<char>,
)
    requires
        0 <= idx < elements.len(),
        elements[idx] == BlockSpec::Image(id, alt),
    ensures
        ({
            let r = ai_wiring::applied(elements, idx, UnderstandingSpec::Description(text));
            &&& r.len() == elements.len()
            &&& r[idx] == BlockSpec::Image(id, Some(text))
            &&& forall|i: int| 0 <= i < elements.len() && i != idx ==> #[trigger] r[i] == elements[i]
        }),
{
}

/// Content that is applied to a block takes its place: the blocks before it stay where they
/// are, its own place and those after it hold the new blocks, and the blocks after it follow.
pub proof fn content_takes_the_place_of_a_block(
    elements: Seq<BlockSpec>,
    idx: int,
    content: Seq<ContentSpec>,
)
    requires
        0 <= idx < elements.len(),
    ensures
        ({
            let r = ai_wiring::applied(elements, idx, UnderstandingSpec::Structured(content));
            let new = ai_wiring::mapped_all(content);
            &&& r.len() == elements.len() - 1 + new.len()
            &&& forall|i: int| 0 <= i < idx ==> #[trigger] r[i] == elements[i]
            &&& forall|i: int| 0 <= i < new.len() ==> r[idx + i] == #[trigger] new[i]
            &&& forall|i: int|
                idx < i < elements.len() ==> r[i - 1 + new.len()] == #[trigger] elements[i]
        }),
{
}

/// A description for a whole page goes to the first image that shows the id, whatever that
/// image was described as before.
pub proof fn the_first_image_is_described(
    elements: Seq<BlockSpec>,
    id: Seq<char>,
    text: Seq<char>,
    i: int,
)
    requires
        0 <= i < elements.len(),
        elements[i] matches BlockSpec::Image(rid, _) && rid == id,
        forall|j: int|
            0 <= j < i ==> !((#[trigger] elements[j]) matches BlockSpec::Image(rid, _) && rid == id),
    ensures
        ai_wiring::described(elements, id, text).len() == elements.len(),
        ai_wiring::described(elements, id, text)[i] == BlockSpec::Image(id, Some(text)),
        forall|j: int|
            0 <= j < elements.len() && j != i ==> #[trigger] ai_wiring::described(
                elements,
                id,
                text,
            )[j] == elements[j],
    decreases elements.len(),
{
    if i > 0 {
        let rest = elements.skip(1);
        assert forall|j: int| 0 <= j < i - 1 implies !((#[trigger] rest[j]) matches BlockSpec::Image(
            rid,
            _,
        ) && rid == id) by {
            assert(rest[j] == elements[j + 1]);
        }
        assert(rest[i - 1] == elements[i]);
        assert(!(elements[0] matches BlockSpec::Image(rid, _) && rid == id));
        the_first_image_is_described(rest, id, text, i - 1);
        let r = ai_wiring::described(rest, id, text);
        assert forall|j: int| 0 <= j < elements.len() && j != i implies #[trigger] ai_wiring::described(
            elements,
            id,
            text,
        )[j] == elements[j] by {
            if j > 0 {
                assert(ai_wiring::described(elements, id, text)[j] == r[j - 1]);
                assert(rest[j - 1] == elements[j]);
            }
        }
    }
}

/// A page is handled whole exactly when it holds one image and neither a paragraph nor a table,
/// whatever the scope. Another page is handled image by image exactly where the scope is all
/// images.
pub proof fn which_pages_are_handled_whole(p: PageSpec, scope: ImageScope)
    ensures
        ai_wiring::plan_for(p, scope) == PagePlan::PointA <==> p.images.len() == 1 && forall|i: int|
            0 <= i < p.elements.len() ==> !((#[trigger] p.elements[i]) is Paragraph) && !(
            p.elements[i] is Table),
        ai_wiring::plan_for(p, scope) == PagePlan::PointB <==> scope == ImageScope::All
            && ai_wiring::plan_for(p, scope) != PagePlan::PointA,
{
}

/// A page that is handled whole becomes the content of the answer, has its image described, or
/// stays as it is where there is no answer, which is the one fallback. Its number and its
/// images stay.
pub proof fn a_page_handled_whole_becomes_its_answer(
    p: PageSpec,
    content: Seq<ContentSpec>,
    text: Seq<char>,
)
    requires
        p.images.len() == 1,
    ensures
        ai_wiring::answered_whole(p, Some(UnderstandingSpec::Structured(content))) == (
            PageSpec {
                number: p.number,
                elements: ai_wiring::mapped_all(content),
                images: p.images,
            },
            0nat,
        ),
        ai_wiring::answered_whole(p, Some(UnderstandingSpec::Description(text))) == (
            PageSpec {
                number: p.number,
                elements: ai_wiring::described(p.elements, p.images[0].0, text),
                images: p.images,
            },
            0nat,
        ),
        ai_wiring::answered_whole(p, None) == (p, 1nat),
{
}

/// The text of a paragraph is all of its runs, one after the other and with nothing in between.
pub proof fn the_text_of_a_paragraph_is_its_runs(a: Seq<Seq<char>>, run: Seq<char>, b: Seq<Seq<char>>)
    ensures
        model::joined(a + seq![run] + b) == model::joined(a) + run + model::joined(b),
        model::joined(Seq::<Seq<char>>::empty()) == Seq::<char>::empty(),
    decreases b.len(),
{
    let all = a + seq![run] + b;
    if b.len() == 0 {
        assert(all =~= a.push(run));
        assert(a.push(run).drop_last() =~= a);
        assert(model::joined(a) + run + model::joined(b) =~= model::joined(a) + run);
    } else {
        the_text_of_a_paragraph_is_its_runs(a, run, b.drop_last());
        assert(all.drop_last() =~= a + seq![run] + b.drop_last());
        assert(model::joined(a) + run + model::joined(b.drop_last()) + b.last()
            =~= model::joined(a) + run + model::joined(b));
    }
}

/// The text before an image is that of the nearest paragraph before it, and there is none where
/// no paragraph comes before it.
pub proof fn the_text_before_is_that_of_the_nearest_paragraph(
    elements: Seq<BlockSpec>,
    idx: int,
    j: int,
)
    requires
        0 <= idx <= elements.len(),
        -1 <= j < idx,
        j >= 0 ==> elements[j] is Paragraph,
        forall|k: int| j < k < idx ==> !((#[trigger] elements[k]) is Paragraph),
    ensures
        ai_wiring::last_text(elements.take(idx)) == (if j >= 0 {
            Some(model::joined(elements[j]->Paragraph_0))
        } else {
            None
        }),
    decreases idx,
{
    if idx > 0 {
        assert(elements.take(idx).drop_last() =~= elements.take(idx - 1));
        assert(elements.take(idx).last() == elements[idx - 1]);
        if j < idx - 1 {
            assert(!(elements[idx - 1] is Paragraph));
            the_text_before_is_that_of_the_nearest_paragraph(elements, idx - 1, j);
        }
    }
}

/// The text after an image is that of the nearest paragraph after it, and there is none where no
/// paragraph comes after it.
pub proof fn the_text_after_is_that_of_the_nearest_paragraph(
    elements: Seq<BlockSpec>,
    from: int,
    j: int,
)
    requires
        0 <= from <= elements.len(),
        from <= j <= elements.len(),
        j < elements.len() ==> elements[j] is Paragraph,
        forall|k: int| from <= k < j ==> !((#[trigger] elements[k]) is Paragraph),
    ensures
        ai_wiring::first_text(elements.skip(from)) == (if j < elements.len() {
            Some(model::joined(elements[j]->Paragraph_0))
        } else {
            None
        }),
    decreases elements.len() - from,
{
    if from < elements.len() {
        assert(elements.skip(from).skip(1) =~= elements.skip(from + 1));
        assert(elements.skip(from)[0] == elements[from]);
        if from < j {
            assert(!(elements[from] is Paragraph));
            the_text_after_is_that_of_the_nearest_paragraph(elements, from + 1, j);
        }
    }
}

/// The bytes for an id are those of the first image with that id on the page itself.
pub proof fn an_image_of_the_page_itself_comes_first(
    images: Seq<(Seq<char>, ResourceSpec)>,
    shared: Seq<(Seq<char>, ResourceSpec)>,
    id: Seq<char>,
    i: int,
)
    requires
        0 <= i < images.len(),
        images[i].0 == id,
        forall|j: int| 0 <= j < i ==> (#[trigger] images[j]).0 != id,
    ensures
        ai_wiring::resource_for(images, shared, id) == Some(images[i].1),
{
    lemma_first_with(images, id, i);
}

proof fn lemma_first_with(images: Seq<(Seq<char>, ResourceSpec)>, id: Seq<char>, i: int)
    requires
        0 <= i <= images.len(),
        i < images.len() ==> images[i].0 == id,
        forall|j: int| 0 <= j < i ==> (#[trigger] images[j]).0 != id,
    ensures
        ai_wiring::first_with(images, id) == (if i < images.len() {
            Some(images[i].1)
        } else {
            None
        }),
    decreases images.len(),
{
    if i > 0 {
        let rest = images.skip(1);
        assert(images[0].0 != id);
        assert forall|j: int| 0 <= j < i - 1 implies (#[trigger] rest[j]).0 != id by {
            assert(rest[j] == images[j + 1]);
        }
        lemma_first_with(rest, id, i - 1);
    }
}

proof fn lemma_last_with(shared: Seq<(Seq<char>, ResourceSpec)>, id: Seq<char>, i: int)
    requires
        -1 <= i < shared.len(),
        i >= 0 ==> shared[i].0 == id,
        forall|j: int| i < j < shared.len() ==> (#[trigger] shared[j]).0 != id,
    ensures
        ai_wiring::last_with(shared, id) == (if i >= 0 {
            Some(shared[i].1)
        } else {
            None
        }),
    decreases shared.len(),
{
    if shared.len() > 0 && i < shared.len() - 1 {
        let n = shared.len() - 1;
        assert(shared[n].0 != id);
        lemma_last_with(shared.drop_last(), id, i);
    }
}

/// Where the page itself holds no image with an id, its bytes are those of the last image with
/// that id that any page holds, and there are none where no page holds one.
pub proof fn an_image_of_another_page_comes_next(
    images: Seq<(Seq<char>, ResourceSpec)>,
    shared: Seq<(Seq<char>, ResourceSpec)>,
    id: Seq<char>,
    i: int,
)
    requires
        forall|j: int| 0 <= j < images.len() ==> (#[trigger] images[j]).0 != id,
        -1 <= i < shared.len(),
        i >= 0 ==> shared[i].0 == id,
        forall|j: int| i < j < shared.len() ==> (#[trigger] shared[j]).0 != id,
    ensures
        ai_wiring::resource_for(images, shared, id) == (if i >= 0 {
            Some(shared[i].1)
        } else {
            None
        }),
{
    lemma_first_with(images, id, images.len() as int);
    lemma_last_with(shared, id, i);
}

/// Whether the block at place `i` of the page at place `p` is an image without a description
/// that shows `id`, on a page that is not handled whole.
pub open spec fn is_open(pages: Seq<PageSpec>, id: Seq<char>, p: int, i: int) -> bool {
    &&& 0 <= p < pages.len()
    &&& 0 <= i < pages[p].elements.len()
    &&& pages[p].elements[i] == BlockSpec::Image(id, None)
    &&& !(pages[p].images.len() == 1 && forall|j: int|
        0 <= j < pages[p].elements.len() ==> !((#[trigger] pages[p].elements[j]) is Paragraph)
            && !(pages[p].elements[j] is Table))
}

proof fn lemma_times_concat(a: Seq<Seq<char>>, b: Seq<Seq<char>>, id: Seq<char>)
    ensures
        ai_wiring::times(a + b, id) == ai_wiring::times(a, id) + ai_wiring::times(b, id),
    decreases b.len(),
{
    if b.len() == 0 {
        assert(a + b =~= a);
    } else {
        lemma_times_concat(a, b.drop_last(), id);
        assert((a + b).drop_last() =~= a + b.drop_last());
    }
}

/// How often the open images of a page show `id`, and where.
proof fn lemma_open_ids(elements: Seq<BlockSpec>, id: Seq<char>)
    ensures
        ({
            let n = ai_wiring::times(ai_wiring::open_ids(elements), id);
            &&& n > 0 <==> exists|i: int|
                0 <= i < elements.len() && #[trigger] elements[i] == BlockSpec::Image(id, None)
            &&& n > 1 <==> exists|i: int, j: int|
                0 <= i < j < elements.len() && #[trigger] elements[i] == BlockSpec::Image(id, None)
                    && #[trigger] elements[j] == BlockSpec::Image(id, None)
        }),
    decreases elements.len(),
{
    if elements.len() > 0 {
        let rest = elements.drop_last();
        let n = elements.len() - 1;
        lemma_open_ids(rest, id);
        let ids = ai_wiring::open_ids(rest);
        if let BlockSpec::Image(rid, None) = elements.last() {
            assert(ids.push(rid).drop_last() =~= ids);
        }
        let open = BlockSpec::Image(id, None);
        if ai_wiring::times(ids, id) > 0 {
            let i = choose|i: int| 0 <= i < rest.len() && #[trigger] rest[i] == open;
            assert(elements[i] == open);
            if elements[n] == open {
                assert(elements[i] == open && elements[n] == open);
            }
        }
        if ai_wiring::times(ids, id) > 1 {
            let (i, j) = choose|i: int, j: int|
                0 <= i < j < rest.len() && #[trigger] rest[i] == open && #[trigger] rest[j] == open;
            assert(elements[i] == open && elements[j] == open);
        }
        if exists|i: int| 0 <= i < elements.len() && #[trigger] elements[i] == open {
            let i = choose|i: int| 0 <= i < elements.len() && #[trigger] elements[i] == open;
            if i < n {
                assert(rest[i] == open);
            }
        }
        if exists|i: int, j: int|
            0 <= i < j < elements.len() && #[trigger] elements[i] == open && #[trigger] elements[j]
                == open {
            let (i, j) = choose|i: int, j: int|
                0 <= i < j < elements.len() && #[trigger] elements[i] == open
                    && #[trigger] elements[j] == open;
            assert(rest[i] == open);
            if j < n {
                assert(rest[j] == open);
            }
        }
    }
}

/// How often the open images of all pages show `id`, and where.
proof fn lemma_all_open_ids(pages: Seq<PageSpec>, id: Seq<char>)
    ensures
        ({
            let n = ai_wiring::times(ai_wiring::all_open_ids(pages), id);
            &&& n > 0 <==> exists|p: int, i: int| is_open(pages, id, p, i)
            &&& n > 1 <==> exists|p: int, i: int, q: int, j: int| #[trigger]
                is_open(pages, id, p, i) && #[trigger] is_open(pages, id, q, j) && (p < q || p == q
                    && i < j)
        }),
    decreases pages.len(),
{
    if pages.len() > 0 {
        let rest = pages.drop_last();
        let n = pages.len() - 1;
        let last = pages[n];
        let open = BlockSpec::Image(id, None);
        lemma_all_open_ids(rest, id);
        lemma_open_ids(last.elements, id);
        let before = ai_wiring::all_open_ids(rest);
        let own = ai_wiring::open_ids(last.elements);
        lemma_times_concat(before, own, id);
        assert forall|p: int, i: int| p < n implies is_open(rest, id, p, i) == is_open(
            pages,
            id,
            p,
            i,
        ) by {
            if 0 <= p < n {
                assert(rest[p] == pages[p]);
            }
        }
        let whole = ai_wiring::is_image_page(last);
        assert forall|i: int| #[trigger] is_open(pages, id, n, i) == (!whole && 0 <= i
            < last.elements.len() && last.elements[i] == open) by {}
        if ai_wiring::times(before, id) > 0 {
            let (p, i) = choose|p: int, i: int| is_open(rest, id, p, i);
            assert(is_open(pages, id, p, i));
        }
        if ai_wiring::times(before, id) > 1 {
            let (p, i, q, j) = choose|p: int, i: int, q: int, j: int| #[trigger]
                is_open(rest, id, p, i) && #[trigger] is_open(rest, id, q, j) && (p < q || p == q
                    && i < j);
            assert(is_open(pages, id, p, i) && is_open(pages, id, q, j));
        }
        if !whole && ai_wiring::times(own, id) > 0 {
            let i = choose|i: int|
                0 <= i < last.elements.len() && #[trigger] last.elements[i] == open;
            assert(is_open(pages, id, n, i));
            if ai_wiring::times(before, id) > 0 {
                let (p, k) = choose|p: int, k: int| is_open(rest, id, p, k);
                assert(is_open(pages, id, p, k) && is_open(pages, id, n, i) && p < n);
            }
        }
        if !whole && ai_wiring::times(own, id) > 1 {
            let (i, j) = choose|i: int, j: int|
                0 <= i < j < last.elements.len() && #[trigger] last.elements[i] == open
                    && #[trigger] last.elements[j] == open;
            assert(is_open(pages, id, n, i) && is_open(pages, id, n, j));
        }
        if exists|p: int, i: int| is_open(pages, id, p, i) {
            let (p, i) = choose|p: int, i: int| is_open(pages, id, p, i);
            if p < n {
                assert(is_open(rest, id, p, i));
            } else {
                assert(last.elements[i] == open);
            }
        }
        if exists|p: int, i: int, q: int, j: int| #[trigger]
            is_open(pages, id, p, i) && #[trigger] is_open(pages, id, q, j) && (p < q || p == q && i
                < j) {
            let (p, i, q, j) = choose|p: int, i: int, q: int, j: int| #[trigger]
                is_open(pages, id, p, i) && #[trigger] is_open(pages, id, q, j) && (p < q || p == q
                    && i < j);
            if q < n {
                assert(is_open(rest, id, p, i) && is_open(rest, id, q, j));
            } else {
                assert(last.elements[j] == open);
                if p < n {
                    assert(is_open(rest, id, p, i));
                } else {
                    assert(last.elements[i] == open && last.elements[j] == open);
                }
            }
        }
    } else {
        assert(ai_wiring::times(ai_wiring::all_open_ids(pages), id) == 0);
    }
}

/// An image is asked about up front exactly when some page holds its bytes and at least two
/// blocks show it that have no description and are on pages which are not handled whole.
pub proof fn images_that_are_shown_twice_are_asked_about_up_front(
    pages: Seq<PageSpec>,
    shared: Seq<(Seq<char>, ResourceSpec)>,
    id: Seq<char>,
)
    ensures
        ai_wiring::asked_up_front(pages, shared, id) <==> (exists|k: int|
            0 <= k < shared.len() && (#[trigger] shared[k]).0 == id) && (exists|
            p: int,
            i: int,
            q: int,
            j: int,
        |
            #[trigger] is_open(pages, id, p, i) && #[trigger] is_open(pages, id, q, j) && (p < q || p
                == q && i < j)),
{
    lemma_all_open_ids(pages, id);
    lemma_held(shared, id);
}

proof fn lemma_held(shared: Seq<(Seq<char>, ResourceSpec)>, id: Seq<char>)
    ensures
        ai_wiring::last_with(shared, id) is Some <==> exists|k: int|
            0 <= k < shared.len() && (#[trigger] shared[k]).0 == id,
    decreases shared.len(),
{
    if shared.len() > 0 {
        let rest = shared.drop_last();
        let n = shared.len() - 1;
        lemma_held(rest, id);
        if ai_wiring::last_with(rest, id) is Some {
            let k = choose|k: int| 0 <= k < rest.len() && (#[trigger] rest[k]).0 == id;
            assert(shared[k].0 == id);
        }
        if exists|k: int| 0 <= k < shared.len() && (#[trigger] shared[k]).0 == id {
            let k = choose|k: int| 0 <= k < shared.len() && (#[trigger] shared[k]).0 == id;
            if k < n {
                assert(rest[k].0 == id);
            }
        }
        if shared.last().0 == id {
            assert(shared[n].0 == id);
        }
    }
}

/// The caption of an image is the answer that was given about its id, the last one where there
/// are several, and there is none where none was given.
pub proof fn a_caption_is_the_answer_about_its_id(
    captions: Seq<(Seq<char>, Option<UnderstandingSpec>)>,
    id: Seq<char>,
    i: int,
)
    requires
        -1 <= i < captions.len(),
        i >= 0 ==> captions[i].0 == id,
        forall|j: int| i < j < captions.len() ==> (#[trigger] captions[j]).0 != id,
    ensures
        ai_wiring::caption_for(captions, id) == (if i >= 0 {
            Some(captions[i].1)
        } else {
            None
        }),
    decreases captions.len(),
{
    if captions.len() > 0 && i < captions.len() - 1 {
        let n = captions.len() - 1;
        assert(captions[n].0 != id);
        a_caption_is_the_answer_about_its_id(captions.drop_last(), id, i);
    }
}

/// A question that is asked up front carries the bytes and the type of the last image with its id
/// that any page holds, and no text, and there is one question for an id.
pub proof fn questions_up_front_carry_the_last_image_and_no_text(
    requests: Seq<(String, Request)>,
    shared: Seq<(Seq<char>, ResourceSpec)>,
    k: int,
    i: int,
)
    requires
        ai_wiring::asked_alone(requests, shared),
        0 <= k < requests.len(),
        0 <= i < shared.len(),
        shared[i].0 == requests[k].0@,
        forall|j: int| i < j < shared.len() ==> (#[trigger] shared[j]).0 != requests[k].0@,
    ensures
        requests[k].1.data@ == shared[i].1.data,
        requests[k].1.mime_type@ == shared[i].1.mime_type,
        requests[k].1.preceding_text is None,
        requests[k].1.following_text is None,
        forall|l: int|
            0 <= l < requests.len() && l != k ==> (#[trigger] requests[l]).0@ != requests[k].0@,
{
    lemma_last_with(shared, requests[k].0@, i);
    let r = requests[k].1@;
    assert(r.resource == shared[i].1);
    assert(model::text_opt(requests[k].1.preceding_text) is None);
    assert forall|l: int| 0 <= l < requests.len() && l != k implies (#[trigger] requests[l]).0@
        != requests[k].0@ by {
        if l < k {
            assert(requests[l].0@ != requests[k].0@);
        } else {
            assert(requests[k].0@ != requests[l].0@);
        }
    }
}

/// A question is seen with all that is sent along.
pub proof fn a_question_is_seen_with_all_it_sends(r: Request)
    ensures
        r@.resource.mime_type == r.mime_type@,
        r@.resource.data == r.data@,
        match r.preceding_text {
            Some(text) => r@.preceding == Some(text@),
            None => r@.preceding is None,
        },
        match r.following_text {
            Some(text) => r@.following == Some(text@),
            None => r@.following is None,
        },
{
}

/// An answer is seen with all it says, and none as none.
pub proof fn an_answer_is_seen_with_all_it_says(u: Option<ImageUnderstanding>)
    ensures
        match u {
            Some(ImageUnderstanding::Description(text)) => ai_wiring::answer_view(u) == Some(
                UnderstandingSpec::Description(text@),
            ),
            Some(ImageUnderstanding::Structured(s)) => ai_wiring::answer_view(u) matches Some(
                UnderstandingSpec::Structured(c),
            ) && c.len() == s@.len() && forall|i: int|
                0 <= i < s@.len() ==> (#[trigger] c[i]) == s@[i]@,
            None => ai_wiring::answer_view(u) is None,
        },
{
}

/// Captions are seen one by one, each under its id.
pub proof fn captions_are_seen_one_by_one(s: Seq<(String, Option<ImageUnderstanding>)>)
    ensures
        ai_wiring::captions_view(s).len() == s.len(),
        forall|i: int|
            0 <= i < s.len() ==> (#[trigger] ai_wiring::captions_view(s)[i]).0 == s[i].0@
                && ai_wiring::captions_view(s)[i].1 == ai_wiring::answer_view(s[i].1),
{
}

} // verus!
