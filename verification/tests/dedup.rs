use unpdf::model::{Block, Document, ExtractionQuality, Page, Paragraph, Resource, Resources};
use unpdf::parser::dedup::{collapse_identical_resources, elect, keep_first};

fn resource(data: &[u8]) -> Resource {
    Resource {
        mime_type: "image/png".to_string(),
        data: data.to_vec(),
    }
}

fn image(id: &str) -> Block {
    Block::Image {
        resource_id: id.to_string(),
        alt_text: None,
    }
}

fn page(number: u32, images: &[(&str, &[u8])]) -> Page {
    Page {
        number,
        elements: images.iter().map(|(id, _)| image(id)).collect(),
        images: images
            .iter()
            .map(|(id, data)| (id.to_string(), resource(data)))
            .collect(),
    }
}

fn document(pages: Vec<Page>, resources: &[(&str, &[u8])]) -> Document {
    let mut r = Resources::new();
    for (key, data) in resources {
        r.insert(key.to_string(), resource(data));
    }
    Document {
        pages,
        resources: r,
        extraction_quality: ExtractionQuality {
            ai_fallback_count: 0,
        },
    }
}

fn shown(doc: &Document) -> Vec<Vec<String>> {
    doc.pages
        .iter()
        .map(|p| {
            p.elements
                .iter()
                .filter_map(|b| match b {
                    Block::Image { resource_id, .. } => Some(resource_id.clone()),
                    _ => None,
                })
                .collect()
        })
        .collect()
}

fn held(doc: &Document) -> Vec<Vec<String>> {
    doc.pages
        .iter()
        .map(|p| p.images.iter().map(|(id, _)| id.clone()).collect())
        .collect()
}

fn keys(doc: &Document) -> Vec<String> {
    (0..doc.resources.len())
        .map(|i| doc.resources.at(i).0.to_string())
        .collect()
}

#[test]
fn one_logo_on_three_pages_becomes_one_resource() {
    let mut doc = document(
        vec![
            page(1, &[("p1", b"logo"), ("x1", b"photo")]),
            page(2, &[("p2", b"logo")]),
            page(3, &[("p3", b"logo")]),
        ],
        &[("a", b"logo"), ("b", b"photo"), ("c", b"logo")],
    );
    assert_eq!(collapse_identical_resources(&mut doc), 2);
    assert_eq!(shown(&doc), vec![vec!["p1", "x1"], vec!["p1"], vec!["p1"]]);
    assert_eq!(held(&doc), vec![vec!["p1", "x1"], vec![], vec![]]);
    assert_eq!(keys(&doc), vec!["a", "b"]);

    // A second time there is nothing left to do.
    assert_eq!(collapse_identical_resources(&mut doc), 0);
    assert_eq!(shown(&doc), vec![vec!["p1", "x1"], vec!["p1"], vec!["p1"]]);
    assert_eq!(keys(&doc), vec!["a", "b"]);
}

#[test]
fn a_document_without_duplicates_stays_as_it_is() {
    let mut doc = document(
        vec![page(1, &[("p1", b"one")]), page(2, &[("p2", b"two")])],
        // Resources are not looked at either.
        &[("a", b"same"), ("b", b"same")],
    );
    assert_eq!(collapse_identical_resources(&mut doc), 0);
    assert_eq!(held(&doc), vec![vec!["p1"], vec!["p2"]]);
    assert_eq!(keys(&doc), vec!["a", "b"]);
}

#[test]
fn images_without_bytes_are_never_duplicates() {
    let mut doc = document(
        vec![
            page(1, &[("p1", b""), ("q1", b"x")]),
            page(2, &[("p2", b""), ("q2", b"x")]),
        ],
        &[("a", b""), ("b", b"")],
    );
    assert_eq!(collapse_identical_resources(&mut doc), 1);
    assert_eq!(held(&doc), vec![vec!["p1", "q1"], vec!["p2"]]);
    assert_eq!(keys(&doc), vec!["a", "b"]);
}

#[test]
fn one_id_on_several_pages_is_not_its_own_duplicate() {
    let mut doc = document(
        vec![page(1, &[("p", b"x")]), page(2, &[("p", b"x")])],
        &[],
    );
    assert_eq!(collapse_identical_resources(&mut doc), 0);
    assert_eq!(held(&doc), vec![vec!["p"], vec!["p"]]);
}

#[test]
fn blocks_of_other_kinds_are_left_alone() {
    let mut second = page(2, &[("p2", b"x")]);
    second
        .elements
        .insert(0, Block::Paragraph(Paragraph::with_text("p2".to_string())));
    second.elements.push(Block::HorizontalRule);
    let mut doc = document(vec![page(1, &[("p1", b"x")]), second], &[]);
    assert_eq!(collapse_identical_resources(&mut doc), 1);
    let Block::Paragraph(p) = &doc.pages[1].elements[0] else {
        panic!("still a paragraph");
    };
    assert_eq!(p.plain_text(), "p2");
    assert!(matches!(doc.pages[1].elements[2], Block::HorizontalRule));
    assert_eq!(doc.pages[1].number, 2);
    assert_eq!(shown(&doc), vec![vec!["p1"], vec!["p1"]]);
}

#[test]
fn different_bytes_with_one_digest_are_both_kept() {
    let a = ("a".to_string(), resource(b"first"));
    let b = ("b".to_string(), resource(b"second"));
    let c = ("c".to_string(), resource(b"first"));
    let images = vec![&a, &b, &c];
    assert_eq!(
        elect(&images, &vec![5, 5, 5]),
        vec![("c".to_string(), "a".to_string())]
    );
    assert_eq!(keep_first(&images, &vec![5, 5, 5], &vec![None; 3]), vec![0, 1]);
    // With digests of their own.
    assert_eq!(
        elect(&images, &vec![1, 2, 1]),
        vec![("c".to_string(), "a".to_string())]
    );
    assert_eq!(keep_first(&images, &vec![1, 2, 1], &vec![None; 3]), vec![0, 1]);
}

#[test]
fn the_first_occurrence_wins() {
    let a = ("late".to_string(), resource(b"same"));
    let b = ("early".to_string(), resource(b"same"));
    assert_eq!(
        elect(&vec![&a, &b], &vec![1, 1]),
        vec![("early".to_string(), "late".to_string())]
    );
}

#[test]
fn resources_are_kept_in_the_order_of_their_keys() {
    let mut r = Resources::new();
    for key in ["b", "a", "ab", "é", "B", "a"] {
        r.insert(key.to_string(), resource(key.as_bytes()));
    }
    let all: Vec<String> = (0..r.len()).map(|i| r.at(i).0.to_string()).collect();
    assert_eq!(all, vec!["B", "a", "ab", "b", "é"]);
    r.insert("ab".to_string(), resource(b"new"));
    assert_eq!(r.len(), 5);
    assert_eq!(r.at(2).1.data, b"new".to_vec());
}

#[test]
fn resources_of_pages_come_in_the_order_of_the_pages() {
    let mut r = Resources::new();
    for key in [
        "page10_Im0",
        "cover",
        "page2_Im1",
        "page_Im0",
        "page2_Im0",
        "page02_Im0",
        "page4294967296_Im0",
        "page4294967295_Im0",
        "page3",
        "page2_",
        "Page1_Im0",
    ] {
        r.insert(key.to_string(), resource(key.as_bytes()));
    }
    let all: Vec<String> = (0..r.len()).map(|i| r.at(i).0.to_string()).collect();
    assert_eq!(
        all,
        vec![
            "Page1_Im0",
            "cover",
            // Keys of pages, by the number of the page.
            "page02_Im0",
            "page2_",
            "page2_Im0",
            "page2_Im1",
            "page3",
            "page10_Im0",
            "page4294967295_Im0",
            "page4294967296_Im0",
            "page_Im0",
        ]
    );
}

#[test]
fn the_resource_that_stays_is_that_of_the_image_that_stays() {
    let mut doc = document(
        vec![
            page(2, &[("page2_Im0.png", &[7])]),
            page(10, &[("page10_Im0.png", &[7])]),
        ],
        &[("page10_Im0", &[7]), ("page2_Im0", &[7])],
    );
    assert_eq!(collapse_identical_resources(&mut doc), 1);
    assert_eq!(held(&doc), vec![vec!["page2_Im0.png"], vec![]]);
    assert_eq!(shown(&doc), vec![vec!["page2_Im0.png"]; 2]);
    assert_eq!(keys(&doc), vec!["page2_Im0"]);

    // On one page, in the order in which the page shows them.
    let mut doc = document(
        vec![page(
            1,
            &[("page1_Im2.png", &[7]), ("page1_Im10.png", &[7])],
        )],
        &[("page1_Im10", &[7]), ("page1_Im2", &[7]), ("a", &[7])],
    );
    assert_eq!(collapse_identical_resources(&mut doc), 1);
    assert_eq!(held(&doc), vec![vec!["page1_Im2.png"]]);
    assert_eq!(keys(&doc), vec!["page1_Im2"]);
}

#[test]
fn resources_that_no_image_belongs_to_go_by_their_keys() {
    let pages = || vec![page(1, &[("p.png", b"x"), ("q.png", b"x")])];
    let mut doc = document(pages(), &[("page1_x", b"same"), ("a", b"same")]);
    assert_eq!(collapse_identical_resources(&mut doc), 1);
    assert_eq!(keys(&doc), vec!["a"]);
    let mut doc = document(pages(), &[("page10_x", b"same"), ("page2_x", b"same")]);
    assert_eq!(collapse_identical_resources(&mut doc), 1);
    assert_eq!(keys(&doc), vec!["page2_x"]);
    // The resource of an image comes before them.
    let mut doc = document(pages(), &[("a", b"x"), ("q", b"x")]);
    assert_eq!(collapse_identical_resources(&mut doc), 1);
    assert_eq!(keys(&doc), vec!["q"]);
}

#[test]
fn the_first_turn_wins_whatever_the_place() {
    let a = ("a".to_string(), resource(b"same"));
    let b = ("b".to_string(), resource(b"same"));
    let c = ("c".to_string(), resource(b""));
    let all = vec![&a, &b, &c];
    let digests = vec![1, 1, 1];
    assert_eq!(keep_first(&all, &digests, &vec![Some(4), Some(3), Some(0)]), vec![1, 2]);
    assert_eq!(keep_first(&all, &digests, &vec![None, Some(3), None]), vec![1, 2]);
    assert_eq!(keep_first(&all, &digests, &vec![Some(2), Some(2), None]), vec![0, 2]);
    assert_eq!(keep_first(&all, &digests, &vec![None, None, None]), vec![0, 2]);
}
