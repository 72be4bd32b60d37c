use unpdf::ai_wiring::{
    add_caption, apply_at, collect_shared, finish_point_a, finish_point_b,
    following_paragraph_text, is_point_a_candidate, map_content_blocks, next_point_b, plan_page,
    point_a_request, preceding_paragraph_text, record_fallbacks, repeated_image_requests,
    set_alt_text, up_front_requests, Captions, ContentBlock, ImageScope, ImageUnderstanding,
    PagePlan, TableBlock, TableCellBlock,
};
use unpdf::model::{Block, Document, ExtractionQuality, Page, Paragraph, Resource, Resources};
use unpdf::parser::dedup::collapse_identical_resources;

fn resource(data: &[u8]) -> Resource {
    Resource {
        mime_type: "image/jpeg".to_string(),
        data: data.to_vec(),
    }
}

fn image(id: &str) -> Block {
    Block::Image {
        resource_id: id.to_string(),
        alt_text: None,
    }
}

fn paragraph(text: &str) -> Block {
    Block::Paragraph(Paragraph::with_text(text.to_string()))
}

fn description(text: &str) -> ImageUnderstanding {
    ImageUnderstanding::Description(text.to_string())
}

fn structured(texts: &[&str]) -> ImageUnderstanding {
    ImageUnderstanding::Structured(
        texts
            .iter()
            .map(|t| ContentBlock::Paragraph(t.to_string()))
            .collect(),
    )
}

fn cell(text: &str, colspan: u8) -> TableCellBlock {
    TableCellBlock {
        text: text.to_string(),
        rowspan: 1,
        colspan,
    }
}

fn page(elements: Vec<Block>, images: &[(&str, &[u8])]) -> Page {
    Page {
        number: 1,
        elements,
        images: images
            .iter()
            .map(|(id, data)| (id.to_string(), resource(data)))
            .collect(),
    }
}

fn image_only_page() -> Page {
    page(vec![image("img")], &[("img", b"jpeg")])
}

fn document(pages: Vec<Page>) -> Document {
    Document {
        pages,
        resources: Resources::new(),
        extraction_quality: ExtractionQuality {
            ai_fallback_count: 0,
        },
    }
}

fn alt(block: &Block) -> Option<String> {
    match block {
        Block::Image { alt_text, .. } => alt_text.clone(),
        other => panic!("not an image: {other:?}"),
    }
}

fn text(block: &Block) -> String {
    match block {
        Block::Paragraph(p) => p.plain_text(),
        other => panic!("not a paragraph: {other:?}"),
    }
}

/// Handles a whole document, with the answers that `model` gives to a number and a text before
/// and after an image. Gives back what was asked.
fn run(
    doc: &mut Document,
    scope: ImageScope,
    model: &mut dyn FnMut(&[u8]) -> Option<ImageUnderstanding>,
) -> Vec<(Vec<u8>, Option<String>, Option<String>)> {
    let mut asked = Vec::new();
    let mut fallbacks = 0;
    let shared = collect_shared(&doc.pages);
    let mut captions: Captions = Vec::new();
    for (id, r) in up_front_requests(&doc.pages, &shared, scope) {
        let answer = model(&r.data);
        asked.push((r.data, r.preceding_text, r.following_text));
        add_caption(&mut captions, id, answer, &mut fallbacks);
    }
    for page in &mut doc.pages {
        match plan_page(page, scope) {
            PagePlan::PointA => {
                let r = point_a_request(page).expect("one image");
                let answer = model(&r.data);
                asked.push((r.data, r.preceding_text, r.following_text));
                finish_point_a(page, answer, &mut fallbacks);
            }
            PagePlan::PointB => {
                let mut below = page.elements.len();
                while let Some(ask) = next_point_b(page, &shared, &captions, below) {
                    let answer = model(&ask.request.data);
                    asked.push((
                        ask.request.data,
                        ask.request.preceding_text,
                        ask.request.following_text,
                    ));
                    finish_point_b(page, ask.idx, answer, &mut fallbacks);
                    below = ask.idx;
                }
            }
            PagePlan::Skip => {}
        }
    }
    record_fallbacks(doc, fallbacks);
    asked
}

#[test]
fn point_a_structured_response_replaces_the_image_only_page() {
    let mut doc = document(vec![image_only_page()]);
    let mut answers = vec![ImageUnderstanding::Structured(vec![
        ContentBlock::Paragraph("Scanned title".to_string()),
        ContentBlock::Table(TableBlock {
            header_rows: 1,
            rows: vec![
                vec![cell("A", 1), cell("B", 2)],
                vec![cell("1", 1), cell("2", 1)],
            ],
        }),
    ])];
    run(&mut doc, ImageScope::All, &mut |_| answers.pop());

    assert_eq!(doc.pages.len(), 1);
    let elements = &doc.pages[0].elements;
    assert!(
        !elements.iter().any(|b| matches!(b, Block::Image { .. })),
        "structured mapping must replace the image block, got {elements:?}"
    );
    let Block::Paragraph(p) = &elements[0] else {
        panic!("expected a paragraph first, got {:?}", elements[0]);
    };
    assert_eq!(p.plain_text(), "Scanned title");
    let Block::Table(t) = &elements[1] else {
        panic!("expected a table second, got {:?}", elements[1]);
    };
    assert_eq!(t.header_rows, 1);
    assert_eq!(t.rows[0].cells[1].colspan, 2);
    assert_eq!(doc.extraction_quality.ai_fallback_count, 0);
}

#[test]
fn point_a_description_response_fills_alt_text() {
    let mut doc = document(vec![image_only_page()]);
    run(&mut doc, ImageScope::All, &mut |_| {
        Some(description("a photo of a cat"))
    });

    let elements = &doc.pages[0].elements;
    assert_eq!(elements.len(), 1);
    let Block::Image { alt_text, .. } = &elements[0] else {
        panic!("expected the image block to survive, got {:?}", elements[0]);
    };
    assert_eq!(alt_text.as_deref(), Some("a photo of a cat"));
    assert_eq!(doc.extraction_quality.ai_fallback_count, 0);
}

#[test]
fn point_a_failure_leaves_the_page_unchanged_and_counts_a_fallback() {
    let mut doc = document(vec![image_only_page()]);
    let asked = run(&mut doc, ImageScope::All, &mut |_| None);

    let elements = &doc.pages[0].elements;
    assert_eq!(elements.len(), 1);
    let Block::Image { alt_text, .. } = &elements[0] else {
        panic!("expected the original image block, got {:?}", elements[0]);
    };
    assert!(alt_text.is_none());
    assert_eq!(doc.extraction_quality.ai_fallback_count, 1);
    assert_eq!(asked.len(), 1, "the image is not sent a second time");
}

#[test]
fn point_b_fills_alt_text_and_sends_surrounding_paragraph_as_context() {
    let mut doc = document(vec![page(
        vec![
            paragraph("First paragraph before the image."),
            paragraph("Second paragraph after the image."),
            image("img"),
        ],
        &[("img", b"jpeg")],
    )]);
    let asked = run(&mut doc, ImageScope::All, &mut |_| {
        Some(description("a diagram"))
    });

    let elements = &doc.pages[0].elements;
    let image = elements
        .iter()
        .find(|b| matches!(b, Block::Image { .. }))
        .expect("image block must survive point B (Description branch)");
    let Block::Image { alt_text, .. } = image else {
        unreachable!()
    };
    assert_eq!(alt_text.as_deref(), Some("a diagram"));

    assert_eq!(asked.len(), 1);
    assert_eq!(
        asked[0].1.as_deref(),
        Some("Second paragraph after the image."),
        "expected the preceding-paragraph context in the request"
    );
    assert_eq!(asked[0].2, None);
}

#[test]
fn low_confidence_pages_only_skips_point_b_entirely() {
    let mut doc = document(vec![page(
        vec![paragraph("Text."), image("img")],
        &[("img", b"jpeg")],
    )]);
    let asked = run(&mut doc, ImageScope::LowConfidencePagesOnly, &mut |_| {
        Some(description("never"))
    });

    let Block::Image { alt_text, .. } = doc.pages[0]
        .elements
        .iter()
        .find(|b| matches!(b, Block::Image { .. }))
        .expect("image block present")
    else {
        unreachable!()
    };
    assert!(alt_text.is_none(), "point B must not have run");
    assert_eq!(doc.extraction_quality.ai_fallback_count, 0);
    assert!(
        asked.is_empty(),
        "LowConfidencePagesOnly must not send any request for a text page's images"
    );
}

#[test]
fn a_shared_image_is_captioned_on_every_page_that_draws_it() {
    // Deduplication leaves the bytes on the first page that used them, so a later page's image
    // block references a resource its own `page.images` no longer holds. Resolving against the
    // page alone finds nothing and skips the image in silence -- no error, no fallback count,
    // just a caption that never appears. This is the test that says so out loud.
    let pages = 3;
    let mut doc = document(
        (1..=pages)
            .map(|n| {
                let id = format!("page{n}_logo");
                let mut p = page(
                    vec![paragraph(&format!("Text of page {n}.")), image(&id)],
                    &[(&id, b"logo")],
                );
                p.number = n;
                p
            })
            .collect(),
    );
    collapse_identical_resources(&mut doc);
    let asked = run(&mut doc, ImageScope::All, &mut |_| {
        Some(description("the company logo"))
    });

    // One picture in, one picture out -- the deduplication is still doing its job.
    let surviving: std::collections::HashSet<&str> = doc
        .pages
        .iter()
        .flat_map(|p| p.images.iter())
        .map(|(id, _)| id.as_str())
        .collect();
    assert_eq!(
        surviving.len(),
        1,
        "one shared image should be one resource"
    );

    for page in &doc.pages {
        let image = page
            .elements
            .iter()
            .find(|b| matches!(b, Block::Image { .. }))
            .unwrap_or_else(|| panic!("page {} lost its image block", page.number));
        let Block::Image { alt_text, .. } = image else {
            unreachable!()
        };
        assert_eq!(
            alt_text.as_deref(),
            Some("the company logo"),
            "page {} was skipped because its resource lives on another page now",
            page.number
        );
    }
    assert_eq!(asked.len(), 1, "one picture is one question");
    assert_eq!(asked[0], (b"logo".to_vec(), None, None));
}

#[test]
fn a_repeated_image_that_falls_back_counts_once() {
    let mut doc = document(vec![
        page(vec![paragraph("a"), image("x"), image("x")], &[("x", b"1")]),
        page(vec![paragraph("b"), image("x")], &[]),
    ]);
    let asked = run(&mut doc, ImageScope::All, &mut |_| None);
    assert_eq!(asked.len(), 1);
    assert_eq!(doc.extraction_quality.ai_fallback_count, 1);
    assert_eq!(alt(&doc.pages[0].elements[1]), None);
    assert_eq!(alt(&doc.pages[1].elements[1]), None);
}

#[test]
fn answers_that_change_the_number_of_blocks_do_not_confuse_the_others() {
    let mut doc = document(vec![page(
        vec![
            image("a"),
            paragraph("middle"),
            image("b"),
            image("gone"),
            image("c"),
        ],
        &[("a", b"a"), ("b", b"b"), ("c", b"c")],
    )]);
    let asked = run(&mut doc, ImageScope::All, &mut |data| match data {
        b"a" => Some(structured(&["a1", "a2"])),
        b"b" => Some(structured(&[])),
        b"c" => Some(structured(&["c1"])),
        _ => None,
    });
    let elements = &doc.pages[0].elements;
    assert_eq!(elements.len(), 5);
    assert_eq!(text(&elements[0]), "a1");
    assert_eq!(text(&elements[1]), "a2");
    assert_eq!(text(&elements[2]), "middle");
    assert_eq!(alt(&elements[3]), None, "nobody holds its bytes");
    assert_eq!(text(&elements[4]), "c1");
    // From the end, each with the text around it as it is by then.
    assert_eq!(
        asked,
        vec![
            (b"c".to_vec(), Some("middle".to_string()), None),
            (
                b"b".to_vec(),
                Some("middle".to_string()),
                Some("c1".to_string())
            ),
            (b"a".to_vec(), None, Some("middle".to_string())),
        ]
    );
    assert_eq!(doc.extraction_quality.ai_fallback_count, 0);
}

#[test]
fn an_image_with_a_description_is_not_asked_about() {
    let mut p = page(vec![paragraph("t"), image("a")], &[("a", b"a")]);
    p.elements[1] = Block::Image {
        resource_id: "a".to_string(),
        alt_text: Some("given".to_string()),
    };
    let mut doc = document(vec![p]);
    let asked = run(&mut doc, ImageScope::All, &mut |_| Some(description("new")));
    assert!(asked.is_empty());
    assert_eq!(alt(&doc.pages[0].elements[1]).as_deref(), Some("given"));
}

#[test]
fn a_page_with_text_or_several_images_is_not_handled_whole() {
    assert!(is_point_a_candidate(&image_only_page()));
    assert!(is_point_a_candidate(&page(
        vec![Block::HorizontalRule, image("a"), Block::PageBreak],
        &[("a", b"a")]
    )));
    assert!(!is_point_a_candidate(&page(
        vec![paragraph("t"), image("a")],
        &[("a", b"a")]
    )));
    assert!(!is_point_a_candidate(&page(
        vec![image("a")],
        &[("a", b"a"), ("b", b"b")]
    )));
    assert!(!is_point_a_candidate(&page(vec![], &[])));
    assert!(point_a_request(&page(vec![], &[])).is_none());
    let scope = ImageScope::LowConfidencePagesOnly;
    assert_eq!(plan_page(&image_only_page(), scope), PagePlan::PointA);
    assert_eq!(plan_page(&page(vec![], &[]), scope), PagePlan::Skip);
    assert_eq!(
        plan_page(&page(vec![], &[]), ImageScope::All),
        PagePlan::PointB
    );
}

#[test]
fn content_that_has_no_place_is_dropped() {
    let blocks = map_content_blocks(&vec![
        ContentBlock::Other,
        ContentBlock::Paragraph("p".to_string()),
        ContentBlock::Other,
    ]);
    assert_eq!(blocks.len(), 1);
    assert_eq!(text(&blocks[0]), "p");
}

#[test]
fn an_answer_is_applied_where_the_image_is() {
    let mut elements = vec![paragraph("a"), image("x"), paragraph("b")];
    apply_at(&mut elements, 1, &structured(&["1", "2"]));
    let texts: Vec<String> = elements.iter().map(text).collect();
    assert_eq!(texts, vec!["a", "1", "2", "b"]);
    let mut elements = vec![image("x")];
    apply_at(&mut elements, 0, &description("d"));
    assert_eq!(alt(&elements[0]).as_deref(), Some("d"));
    let mut elements = vec![paragraph("a")];
    apply_at(&mut elements, 0, &description("d"));
    assert_eq!(text(&elements[0]), "a");
}

#[test]
fn only_the_first_image_of_an_id_is_described() {
    let mut elements = vec![image("y"), image("x"), image("x")];
    set_alt_text(&mut elements, &"x".to_string(), "d".to_string());
    assert_eq!(alt(&elements[0]), None);
    assert_eq!(alt(&elements[1]).as_deref(), Some("d"));
    assert_eq!(alt(&elements[2]), None);
    set_alt_text(&mut elements, &"z".to_string(), "d".to_string());
    assert_eq!(alt(&elements[0]), None);
}

#[test]
fn the_text_around_an_image_is_that_of_the_nearest_paragraphs() {
    let elements = vec![
        paragraph("far"),
        Block::Paragraph(Paragraph {
            runs: vec!["ne".to_string(), "ar".to_string()],
        }),
        Block::HorizontalRule,
        image("x"),
        Block::PageBreak,
        paragraph("next"),
    ];
    assert_eq!(
        preceding_paragraph_text(&elements, 3).as_deref(),
        Some("near")
    );
    assert_eq!(
        following_paragraph_text(&elements, 3).as_deref(),
        Some("next")
    );
    assert_eq!(preceding_paragraph_text(&elements, 0), None);
    assert_eq!(following_paragraph_text(&elements, 5), None);
}

#[test]
fn a_page_s_own_image_comes_before_a_shared_one() {
    let first = page(
        vec![paragraph("t"), image("id")],
        &[("id", b"own"), ("id", b"second")],
    );
    let mut second = page(vec![paragraph("t"), image("id2")], &[("id", b"other")]);
    second.number = 2;
    let mut doc = document(vec![first, second]);
    let asked = run(&mut doc, ImageScope::All, &mut |_| Some(description("d")));
    assert_eq!(asked.len(), 1);
    assert_eq!(asked[0].0, b"own".to_vec());
    assert_eq!(alt(&doc.pages[1].elements[1]), None);
    // Of several pages that hold an id, the last one counts.
    let shared = collect_shared(&doc.pages);
    let ids: Vec<&[u8]> = shared.iter().map(|(_, r)| r.data.as_slice()).collect();
    assert_eq!(ids, vec![b"own".as_slice(), b"second", b"other"]);
    let mut third = page(vec![paragraph("t"), image("id")], &[]);
    let ask = next_point_b(&mut third, &shared, &Vec::new(), 2).expect("to ask about");
    assert_eq!(ask.idx, 1);
    assert_eq!(ask.request.data, b"other".to_vec());
}

#[test]
fn images_of_pages_handled_whole_are_not_asked_about_up_front() {
    let pages = vec![image_only_page(), image_only_page()];
    let shared = collect_shared(&pages);
    assert!(repeated_image_requests(&pages, &shared).is_empty());
    // Nor are images that nobody holds.
    let pages = vec![page(vec![image("x"), image("x"), paragraph("t")], &[])];
    assert!(repeated_image_requests(&pages, &collect_shared(&pages)).is_empty());
}

#[test]
fn the_narrow_scope_asks_nothing_up_front() {
    let pages = vec![
        page(vec![image("x"), image("x"), paragraph("t")], &[("x", b"png")]),
        page(vec![image("x")], &[]),
    ];
    let shared = collect_shared(&pages);
    let wide = up_front_requests(&pages, &shared, ImageScope::All);
    assert_eq!(wide.len(), 1);
    assert_eq!(wide[0].0, "x");
    assert_eq!(wide[0].1.data, b"png".to_vec());
    assert_eq!(wide[0].1.preceding_text, None);
    assert_eq!(wide[0].1.following_text, None);
    let narrow = up_front_requests(&pages, &shared, ImageScope::LowConfidencePagesOnly);
    assert!(narrow.is_empty());
    assert!(pages
        .iter()
        .all(|p| plan_page(p, ImageScope::LowConfidencePagesOnly) == PagePlan::Skip));
}

#[test]
fn the_fallbacks_of_a_whole_document_are_summed() {
    let mut doc = document(vec![
        image_only_page(),
        page(vec![paragraph("a"), image("x"), image("y")], &[("x", b"1"), ("y", b"2")]),
        page(vec![paragraph("b"), image("x"), image("lost")], &[]),
    ]);
    doc.extraction_quality.ai_fallback_count = 2;
    let images: Vec<usize> = doc.pages.iter().map(|p| p.images.len()).collect();
    let asked = run(&mut doc, ImageScope::All, &mut |_| None);
    // `x` up front, the page that is handled whole, and `y`; nobody holds `lost`.
    assert_eq!(asked.len(), 3);
    assert_eq!(doc.extraction_quality.ai_fallback_count, 5);
    let after: Vec<usize> = doc.pages.iter().map(|p| p.images.len()).collect();
    assert_eq!(after, images);
    // What has an answer is not counted, whatever happens to the other pages.
    let asked = run(&mut doc, ImageScope::All, &mut |data| {
        if data == b"2" {
            Some(description("why"))
        } else {
            None
        }
    });
    assert_eq!(asked.len(), 3);
    assert_eq!(doc.extraction_quality.ai_fallback_count, 7);
    assert_eq!(alt(&doc.pages[1].elements[2]), Some("why".to_string()));
}
