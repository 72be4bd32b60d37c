//! What holds of every run of image understanding, whatever a model answers.

use vstd::prelude::*;

use crate::ai_wiring;
use crate::ai_wiring::{ImageScope, PagePlan, UnderstandingSpec};
use crate::count;
use crate::model::{BlockSpec, DocumentSpec, PageSpec, ResourceSpec};
use crate::parser::dedup;

verus! {

/// A page whose images are handled one by one, and what is needed for it.
pub struct Setting {
    pub images: Seq<(Seq<char>, ResourceSpec)>,
    pub shared: Seq<(Seq<char>, ResourceSpec)>,
    pub captions: Seq<(Seq<char>, Option<UnderstandingSpec>)>,
    /// The answer to the question about the block at a place.
    pub answers: spec_fn(int) -> Option<UnderstandingSpec>,
}

/// The elements of a page, and how many questions fell back, once all images before `below`
/// were handled: question after question, each answer applied before the next question.
pub open spec fn run(elements: Seq<BlockSpec>, s: Setting, below: int) -> (Seq<BlockSpec>, nat)
    decreases below,
{
    let (now, next) = ai_wiring::advanced(elements, s.images, s.shared, s.captions, below);
    match next {
        None => (now, 0),
        Some(ask) => if !(0 <= ask.idx < below) {
            (now, 0)
        } else {
            match (s.answers)(ask.idx) {
                Some(u) => run(ai_wiring::applied(now, ask.idx, u), s, ask.idx),
                None => {
                    let r = run(now, s, ask.idx);
                    (r.0, r.1 + 1)
                },
            }
        },
    }
}

/// Whether a question is asked about `b`.
pub open spec fn is_asked(b: BlockSpec, s: Setting) -> bool {
    b matches BlockSpec::Image(id, alt) && alt is None && ai_wiring::caption_for(s.captions, id) is
        None && ai_wiring::resource_for(s.images, s.shared, id) is Some
}

/// What the block `b` at place `i` becomes.
pub open spec fn outcome(b: BlockSpec, i: int, s: Setting) -> Seq<BlockSpec> {
    match b {
        BlockSpec::Image(id, None) => match ai_wiring::caption_for(s.captions, id) {
            Some(Some(u)) => ai_wiring::replacement(b, u),
            Some(None) => seq![b],
            None => if is_asked(b, s) {
                match (s.answers)(i) {
                    Some(u) => ai_wiring::replacement(b, u),
                    None => seq![b],
                }
            } else {
                seq![b]
            },
        },
        _ => seq![b],
    }
}

/// What the first `n` blocks become, one after the other.
pub open spec fn outcomes(elements: Seq<BlockSpec>, s: Setting, n: int) -> Seq<BlockSpec>
    decreases n,
{
    if n <= 0 {
        Seq::empty()
    } else {
        outcomes(elements, s, n - 1) + outcome(elements[n - 1], n - 1, s)
    }
}

/// How many questions about the first `n` blocks fall back.
pub open spec fn fallbacks(elements: Seq<BlockSpec>, s: Setting, n: int) -> nat
    decreases n,
{
    if n <= 0 {
        0
    } else {
        fallbacks(elements, s, n - 1) + (if is_asked(elements[n - 1], s) && (s.answers)(n - 1) is
            None {
            1nat
        } else {
            0nat
        })
    }
}

/// A question is about a block before `below`.
proof fn lemma_ask_below(elements: Seq<BlockSpec>, s: Setting, below: int)
    ensures
        ai_wiring::advanced(elements, s.images, s.shared, s.captions, below).1 matches Some(ask)
            ==> 0 <= ask.idx < below,
    decreases below,
{
    if below > 0 {
        let i = below - 1;
        lemma_ask_below(elements, s, i);
        if let BlockSpec::Image(id, None) = elements[i] {
            if let Some(Some(u)) = ai_wiring::caption_for(s.captions, id) {
                lemma_ask_below(ai_wiring::applied(elements, i, u), s, i);
            }
        }
    }
}

/// What blocks become depends on the blocks alone.
proof fn lemma_same_prefix(a: Seq<BlockSpec>, b: Seq<BlockSpec>, s: Setting, n: int)
    requires
        0 <= n <= a.len(),
        n <= b.len(),
        a.take(n) == b.take(n),
    ensures
        outcomes(a, s, n) == outcomes(b, s, n),
        fallbacks(a, s, n) == fallbacks(b, s, n),
    decreases n,
{
    if n > 0 {
        assert(a.take(n)[n - 1] == a[n - 1]);
        assert(b.take(n)[n - 1] == b[n - 1]);
        assert(a.take(n - 1) =~= a.take(n).take(n - 1));
        assert(b.take(n - 1) =~= b.take(n).take(n - 1));
        lemma_same_prefix(a, b, s, n - 1);
    }
}

/// Each block becomes what its own caption or answer makes of it, and stays where it was among
/// the others: asking one question after the other, with answers that change the number of
/// blocks, comes to the same as handling each block for itself. Every question without an
/// answer is counted once.
pub proof fn every_block_is_handled_for_itself(elements: Seq<BlockSpec>, s: Setting, below: int)
    requires
        0 <= below <= elements.len(),
    ensures
        run(elements, s, below).0 == outcomes(elements, s, below) + elements.skip(below),
        run(elements, s, below).1 == fallbacks(elements, s, below),
    decreases below,
{
    if below == 0 {
        assert(Seq::<BlockSpec>::empty() + elements.skip(0) =~= elements);
    } else {
        let i = below - 1;
        let b = elements[i];
        let made = outcome(b, i, s);
        // The elements once the block at `i` was handled.
        let next = elements.take(i) + made + elements.skip(below);
        lemma_ask_below(elements, s, below);
        lemma_ask_below(elements, s, i);
        lemma_ask_below(next, s, i);
        assert(seq![b] + elements.skip(below) =~= elements.skip(i));
        assert(elements.take(i) + elements.skip(i) =~= elements);
        if made == seq![b] {
            assert(next =~= elements);
        }
        assert(next.take(i) =~= elements.take(i));
        assert(next.skip(i) =~= made + elements.skip(below));
        every_block_is_handled_for_itself(next, s, i);
        lemma_same_prefix(elements, next, s, i);
        assert(outcomes(elements, s, i) + (made + elements.skip(below)) =~= outcomes(
            elements,
            s,
            below,
        ) + elements.skip(below));
        if is_asked(b, s) {
            // The question is about the block at `i` itself.
            match (s.answers)(i) {
                Some(u) => {
                    assert(ai_wiring::applied(elements, i, u) =~= next);
                },
                None => {},
            }
        } else {
            assert(run(elements, s, below) == run(next, s, i));
        }
    }
}

/// A question is about an image without a description that was not asked about up front, and
/// it sends along the bytes that the image shows and the text of the paragraph before it.
pub proof fn a_question_is_about_an_open_image(elements: Seq<BlockSpec>, s: Setting, below: int)
    requires
        0 <= below <= elements.len(),
    ensures
        ai_wiring::advanced(elements, s.images, s.shared, s.captions, below).1 matches Some(ask)
            ==> (is_asked(elements[ask.idx], s) && (elements[ask.idx] matches BlockSpec::Image(id, _)
            && ai_wiring::resource_for(s.images, s.shared, id) == Some(ask.request.resource))
            && ask.request.preceding == ai_wiring::last_text(elements.take(ask.idx))),
    decreases below,
{
    if below > 0 {
        let i = below - 1;
        lemma_ask_below(elements, s, i);
        a_question_is_about_an_open_image(elements, s, i);
        if let BlockSpec::Image(id, None) = elements[i] {
            if let Some(Some(u)) = ai_wiring::caption_for(s.captions, id) {
                let next = ai_wiring::applied(elements, i, u);
                lemma_ask_below(next, s, i);
                a_question_is_about_an_open_image(next, s, i);
                if let Some(ask) = ai_wiring::advanced(
                    next,
                    s.images,
                    s.shared,
                    s.captions,
                    i,
                ).1 {
                    assert(next[ask.idx] == elements[ask.idx]);
                    assert(next.take(ask.idx) =~= elements.take(ask.idx));
                }
            }
        }
    }
}

/// With the narrow scope no image of a page that holds text is asked about, and with the wide
/// one every page is handled.
pub proof fn the_scope_decides_about_pages_with_text(p: PageSpec)
    ensures
        ai_wiring::plan_for(p, ImageScope::LowConfidencePagesOnly) != PagePlan::PointB,
        ai_wiring::plan_for(p, ImageScope::All) != PagePlan::Skip,
        ai_wiring::plan_for(p, ImageScope::All) == PagePlan::PointA
            <==> ai_wiring::plan_for(p, ImageScope::LowConfidencePagesOnly) == PagePlan::PointA,
{
}

/// A description changes the description of one image that shows `id`, the first one, and
/// nothing else.
pub proof fn a_description_changes_one_block(
    elements: Seq<BlockSpec>,
    id: Seq<char>,
    text: Seq<char>,
)
    ensures
        ai_wiring::described(elements, id, text).len() == elements.len(),
        forall|i: int|
            0 <= i < elements.len() && (#[trigger] ai_wiring::described(elements, id, text)[i])
                != elements[i] ==> ai_wiring::described(elements, id, text)[i] == BlockSpec::Image(
                id,
                Some(text),
            ) && (elements[i] matches BlockSpec::Image(rid, _) && rid == id) && forall|j: int|
                0 <= j < i ==> !((#[trigger] elements[j]) matches BlockSpec::Image(rid, _) && rid
                    == id),
    decreases elements.len(),
{
    let d = ai_wiring::described(elements, id, text);
    if elements.len() > 0 {
        let rest = elements.skip(1);
        let r = ai_wiring::described(rest, id, text);
        a_description_changes_one_block(rest, id, text);
        let hit = elements[0] matches BlockSpec::Image(rid, _) && rid == id;
        assert forall|i: int| 0 <= i < elements.len() && (#[trigger] d[i]) != elements[i] implies d[i]
            == BlockSpec::Image(id, Some(text)) && (elements[i] matches BlockSpec::Image(rid, _) && rid
            == id) && forall|j: int|
            0 <= j < i ==> !((#[trigger] elements[j]) matches BlockSpec::Image(rid, _) && rid
                == id) by {
            if i > 0 && !hit {
                assert(d[i] == r[i - 1]);
                assert(elements[i] == rest[i - 1]);
                assert forall|j: int| 0 <= j < i implies !((#[trigger] elements[j]) matches BlockSpec::Image(
                    rid,
                    _,
                ) && rid == id) by {
                    if j > 0 {
                        assert(rest[j - 1] == elements[j]);
                    }
                }
            }
        }
    }
}

/// What a model answers to the questions about a whole document.
pub struct Answers {
    /// The answers to the questions that are asked up front, each with the id that it is about.
    pub up_front: Seq<(Seq<char>, Option<UnderstandingSpec>)>,
    /// The answer about the page at a place, where it is handled whole.
    pub whole: spec_fn(int) -> Option<UnderstandingSpec>,
    /// The answer about the block at a place of the page at a place.
    pub single: spec_fn(int, int) -> Option<UnderstandingSpec>,
}

/// Whether there is an answer about `id`.
pub open spec fn is_answered(
    up_front: Seq<(Seq<char>, Option<UnderstandingSpec>)>,
    id: Seq<char>,
) -> bool {
    exists|i: int| 0 <= i < up_front.len() && (#[trigger] up_front[i]).0 == id
}

/// Whether `up_front` answers the questions that are asked up front, each once.
pub open spec fn answers_up_front(
    doc: DocumentSpec,
    scope: ImageScope,
    up_front: Seq<(Seq<char>, Option<UnderstandingSpec>)>,
) -> bool {
    &&& forall|id: Seq<char>| #[trigger]
        is_answered(up_front, id) <==> scope == ImageScope::All && ai_wiring::asked_up_front(
            doc.pages,
            dedup::all_images(doc.pages),
            id,
        )
    &&& forall|i: int, j: int|
        0 <= i < j < up_front.len() ==> (#[trigger] up_front[i]).0 != (#[trigger] up_front[j]).0
}

/// What is needed to handle the images of the page `p` at place `i` one by one.
pub open spec fn setting_for(
    p: PageSpec,
    i: int,
    shared: Seq<(Seq<char>, ResourceSpec)>,
    a: Answers,
) -> Setting {
    Setting {
        images: p.images,
        shared,
        captions: a.up_front,
        answers: |place: int| (a.single)(i, place),
    }
}

/// The page `p` at place `i` once it was handled as it is planned, question after question, and
/// how many questions fell back.
pub open spec fn handled(
    p: PageSpec,
    i: int,
    scope: ImageScope,
    shared: Seq<(Seq<char>, ResourceSpec)>,
    a: Answers,
) -> (PageSpec, nat) {
    match ai_wiring::plan_for(p, scope) {
        PagePlan::PointA => ai_wiring::answered_whole(p, (a.whole)(i)),
        PagePlan::PointB => {
            let (elements, fell_back) = run(
                p.elements,
                setting_for(p, i, shared, a),
                p.elements.len() as int,
            );
            (PageSpec { elements, ..p }, fell_back)
        },
        PagePlan::Skip => (p, 0),
    }
}

/// How many questions that were asked up front fell back.
pub open spec fn fell_back_up_front(
    up_front: Seq<(Seq<char>, Option<UnderstandingSpec>)>,
) -> nat
    decreases up_front.len(),
{
    if up_front.len() == 0 {
        0
    } else {
        fell_back_up_front(up_front.drop_last()) + (if up_front.last().1 is None {
            1nat
        } else {
            0nat
        })
    }
}

/// How many questions about the first `n` pages fell back.
pub open spec fn fell_back(doc: DocumentSpec, scope: ImageScope, a: Answers, n: int) -> nat
    decreases n,
{
    if n <= 0 {
        0
    } else {
        fell_back(doc, scope, a, n - 1) + handled(
            doc.pages[n - 1],
            n - 1,
            scope,
            dedup::all_images(doc.pages),
            a,
        ).1
    }
}

/// A document once all its pages were handled and the fallbacks were recorded. The images that
/// pages share are those that pages hold at the start.
pub open spec fn understood(doc: DocumentSpec, scope: ImageScope, a: Answers) -> DocumentSpec {
    ai_wiring::recorded(
        DocumentSpec {
            pages: Seq::new(
                doc.pages.len(),
                |i: int| handled(doc.pages[i], i, scope, dedup::all_images(doc.pages), a).0,
            ),
            ..doc
        },
        count::wrapped(
            fell_back_up_front(a.up_front) + fell_back(doc, scope, a, doc.pages.len() as int),
        ) as nat,
    )
}

/// What the blocks of the page `p` at place `i` become, each for itself.
pub open spec fn page_outcome(
    p: PageSpec,
    i: int,
    scope: ImageScope,
    shared: Seq<(Seq<char>, ResourceSpec)>,
    a: Answers,
) -> Seq<BlockSpec> {
    match ai_wiring::plan_for(p, scope) {
        PagePlan::PointA => match (a.whole)(i) {
            Some(UnderstandingSpec::Structured(s)) => ai_wiring::mapped_all(s),
            Some(UnderstandingSpec::Description(text)) => ai_wiring::described(
                p.elements,
                p.images[0].0,
                text,
            ),
            None => p.elements,
        },
        PagePlan::PointB => outcomes(
            p.elements,
            setting_for(p, i, shared, a),
            p.elements.len() as int,
        ),
        PagePlan::Skip => p.elements,
    }
}

/// How many questions about the page `p` at place `i` have no answer.
pub open spec fn page_fallbacks(
    p: PageSpec,
    i: int,
    scope: ImageScope,
    shared: Seq<(Seq<char>, ResourceSpec)>,
    a: Answers,
) -> nat {
    match ai_wiring::plan_for(p, scope) {
        PagePlan::PointA => if (a.whole)(i) is None {
            1
        } else {
            0
        },
        PagePlan::PointB => fallbacks(
            p.elements,
            setting_for(p, i, shared, a),
            p.elements.len() as int,
        ),
        PagePlan::Skip => 0,
    }
}

/// How many questions about the first `n` pages have no answer.
pub open spec fn document_fallbacks(doc: DocumentSpec, scope: ImageScope, a: Answers, n: int) -> nat
    decreases n,
{
    if n <= 0 {
        0
    } else {
        document_fallbacks(doc, scope, a, n - 1) + page_fallbacks(
            doc.pages[n - 1],
            n - 1,
            scope,
            dedup::all_images(doc.pages),
            a,
        )
    }
}

/// Handling a page question by question comes to handling its blocks each for itself.
proof fn lemma_handled(
    p: PageSpec,
    i: int,
    scope: ImageScope,
    shared: Seq<(Seq<char>, ResourceSpec)>,
    a: Answers,
)
    ensures
        handled(p, i, scope, shared, a) == (
            PageSpec { elements: page_outcome(p, i, scope, shared, a), ..p },
            page_fallbacks(p, i, scope, shared, a),
        ),
{
    if ai_wiring::plan_for(p, scope) == PagePlan::PointB {
        let s = setting_for(p, i, shared, a);
        let n = p.elements.len() as int;
        every_block_is_handled_for_itself(p.elements, s, n);
        assert(outcomes(p.elements, s, n) + p.elements.skip(n) =~= outcomes(p.elements, s, n));
    }
}

proof fn lemma_fell_back(doc: DocumentSpec, scope: ImageScope, a: Answers, n: int)
    ensures
        fell_back(doc, scope, a, n) == document_fallbacks(doc, scope, a, n),
    decreases n,
{
    if n > 0 {
        lemma_fell_back(doc, scope, a, n - 1);
        lemma_handled(doc.pages[n - 1], n - 1, scope, dedup::all_images(doc.pages), a);
    }
}

/// A document is handled page by page: each page becomes what its plan and the answers about it
/// make of it, whatever the other pages hold; the order of the pages, their images and the
/// resources of the document stay; and each question without an answer, up front or about a
/// page, is counted once.
pub proof fn a_document_is_handled_page_by_page(doc: DocumentSpec, scope: ImageScope, a: Answers)
    ensures
        understood(doc, scope, a).pages.len() == doc.pages.len(),
        forall|i: int|
            0 <= i < doc.pages.len() ==> (#[trigger] understood(doc, scope, a).pages[i]) == (
            PageSpec {
                elements: page_outcome(
                    doc.pages[i],
                    i,
                    scope,
                    dedup::all_images(doc.pages),
                    a,
                ),
                ..doc.pages[i]
            }),
        understood(doc, scope, a).resources == doc.resources,
        understood(doc, scope, a).ai_fallback_count == count::wrapped(
            doc.ai_fallback_count as nat + (fell_back_up_front(a.up_front) + document_fallbacks(
                doc,
                scope,
                a,
                doc.pages.len() as int,
            )),
        ),
{
    let n = doc.pages.len() as int;
    let total = fell_back_up_front(a.up_front) + fell_back(doc, scope, a, n);
    lemma_fell_back(doc, scope, a, n);
    count::lemma_wrapped_sum(doc.ai_fallback_count as nat, total);
    count::lemma_wrapped_sum(0, doc.ai_fallback_count as nat + total);
    assert forall|i: int| 0 <= i < doc.pages.len() implies (
    #[trigger] understood(doc, scope, a).pages[i]) == (PageSpec {
        elements: page_outcome(doc.pages[i], i, scope, dedup::all_images(doc.pages), a),
        ..doc.pages[i]
    }) by {
        lemma_handled(doc.pages[i], i, scope, dedup::all_images(doc.pages), a);
    }
}

/// The narrow scope leaves a document alone none of whose pages is handled whole: nothing is
/// asked, nothing changes and nothing is counted.
pub proof fn the_narrow_scope_leaves_other_documents_alone(doc: DocumentSpec, a: Answers)
    requires
        answers_up_front(doc, ImageScope::LowConfidencePagesOnly, a.up_front),
        forall|i: int| 0 <= i < doc.pages.len() ==> !ai_wiring::is_image_page(#[trigger] doc.pages[i]),
    ensures
        a.up_front.len() == 0,
        understood(doc, ImageScope::LowConfidencePagesOnly, a) == doc,
{
    let scope = ImageScope::LowConfidencePagesOnly;
    if a.up_front.len() > 0 {
        assert(a.up_front[0].0 == a.up_front[0].0);
        assert(is_answered(a.up_front, a.up_front[0].0));
    }
    lemma_nothing_fell_back(doc, a, doc.pages.len() as int);
    count::lemma_wrapped_small(0);
    count::lemma_wrapped_small(doc.ai_fallback_count as nat);
    assert(understood(doc, scope, a).pages =~= doc.pages);
}

proof fn lemma_nothing_fell_back(doc: DocumentSpec, a: Answers, n: int)
    requires
        0 <= n <= doc.pages.len(),
        forall|i: int| 0 <= i < doc.pages.len() ==> !ai_wiring::is_image_page(#[trigger] doc.pages[i]),
    ensures
        fell_back(doc, ImageScope::LowConfidencePagesOnly, a, n) == 0,
    decreases n,
{
    if n > 0 {
        lemma_nothing_fell_back(doc, a, n - 1);
        assert(!ai_wiring::is_image_page(doc.pages[n - 1]));
    }
}

/// What was answered up front has a caption.
proof fn lemma_answered(
    up_front: Seq<(Seq<char>, Option<UnderstandingSpec>)>,
    id: Seq<char>,
)
    requires
        is_answered(up_front, id),
    ensures
        ai_wiring::caption_for(up_front, id) is Some,
    decreases up_front.len(),
{
    let i = choose|i: int| 0 <= i < up_front.len() && (#[trigger] up_front[i]).0 == id;
    if up_front.last().0 != id {
        assert(up_front.drop_last()[i].0 == id);
        lemma_answered(up_front.drop_last(), id);
    }
}

/// An image that was asked about up front is not asked about again on any page, whether there
/// was an answer or not.
pub proof fn a_repeated_image_is_asked_about_once(
    doc: DocumentSpec,
    a: Answers,
    page: int,
    id: Seq<char>,
    alt: Option<Seq<char>>,
)
    requires
        answers_up_front(doc, ImageScope::All, a.up_front),
        0 <= page < doc.pages.len(),
        ai_wiring::asked_up_front(doc.pages, dedup::all_images(doc.pages), id),
    ensures
        !is_asked(
            BlockSpec::Image(id, alt),
            setting_for(doc.pages[page], page, dedup::all_images(doc.pages), a),
        ),
{
    assert(is_answered(a.up_front, id));
    lemma_answered(a.up_front, id);
}

/// Questions go from the end of a page to its start and leave none out: behind the block that is
/// asked about nothing is left to ask, and where there is no question there is nothing to ask at
/// all. The text after the image is that of the page as it is by then.
pub proof fn no_image_is_passed_over(elements: Seq<BlockSpec>, s: Setting, below: int)
    requires
        0 <= below <= elements.len(),
    ensures
        ({
            let (now, next) = ai_wiring::advanced(elements, s.images, s.shared, s.captions, below);
            match next {
                Some(ask) => (forall|i: int|
                    ask.idx < i < below ==> !is_asked(#[trigger] elements[i], s))
                    && ask.request.following == ai_wiring::first_text(now.skip(ask.idx + 1)),
                None => forall|i: int| 0 <= i < below ==> !is_asked(#[trigger] elements[i], s),
            }
        }),
    decreases below,
{
    if below > 0 {
        let i = below - 1;
        no_image_is_passed_over(elements, s, i);
        lemma_ask_below(elements, s, i);
        if let BlockSpec::Image(id, None) = elements[i] {
            if let Some(Some(u)) = ai_wiring::caption_for(s.captions, id) {
                let next = ai_wiring::applied(elements, i, u);
                no_image_is_passed_over(next, s, i);
                lemma_ask_below(next, s, i);
                assert forall|k: int| 0 <= k < i implies #[trigger] next[k] == elements[k] by {}
                assert forall|k: int| 0 <= k < i implies is_asked(#[trigger] elements[k], s)
                    == is_asked(next[k], s) by {}
            }
        }
    }
}

/// A block that is neither asked about nor captioned stays as it is: images that have a
/// description, images whose bytes nobody holds, images whose question up front fell back, and
/// everything that is no image.
pub proof fn other_blocks_stay(b: BlockSpec, i: int, s: Setting)
    requires
        !(b matches BlockSpec::Image(_, alt) && alt is None) || (b matches BlockSpec::Image(id, _)
            && (ai_wiring::caption_for(s.captions, id) matches Some(c) ==> c is None)
            && (ai_wiring::caption_for(s.captions, id) is None ==> ai_wiring::resource_for(
            s.images,
            s.shared,
            id,
        ) is None)),
    ensures
        outcome(b, i, s) == seq![b],
{
}

/// An image that has a caption becomes what the caption makes of it, and one that is asked about
/// becomes what the answer makes of it: described with the text, or replaced by the content.
pub proof fn an_open_image_becomes_its_answer(
    id: Seq<char>,
    i: int,
    s: Setting,
    u: UnderstandingSpec,
)
    requires
        ai_wiring::caption_for(s.captions, id) == Some(Some(u)) || ai_wiring::caption_for(
            s.captions,
            id,
        ) is None && ai_wiring::resource_for(s.images, s.shared, id) is Some && (s.answers)(i)
            == Some(u),
    ensures
        outcome(BlockSpec::Image(id, None), i, s) == (match u {
            UnderstandingSpec::Description(text) => seq![BlockSpec::Image(id, Some(text))],
            UnderstandingSpec::Structured(content) => ai_wiring::mapped_all(content),
        }),
{
}

} // verus!
