use unpdf::parser::raw::document::RawDocument;
use unpdf::parser::raw::pages::PageTreeScan;
use unpdf::parser::test_pdf::pdf;

fn tree(nodes: &[&str]) -> RawDocument {
    let mut objects = vec![b"<</Type/Catalog/Pages 2 0 R>>".to_vec()];
    objects.extend(nodes.iter().map(|n| n.as_bytes().to_vec()));
    RawDocument::load(&pdf(objects, 1)).expect("loads")
}

fn listed(scan: &PageTreeScan) -> Vec<(u32, (u32, u16))> {
    scan.pages.iter().map(|(n, id)| (*n, *id)).collect()
}

#[test]
fn nested_nodes_are_walked_depth_first() {
    // 2 -> [3 -> [5, 6], 4]
    let doc = tree(&[
        "<</Type/Pages/Kids[3 0 R 4 0 R]>>",
        "<</Type/Pages/Kids[5 0 R 6 0 R]>>",
        "<</Type/Page>>",
        "<</Type/Page>>",
        "<</Type/Page>>",
    ]);
    let scan = doc.scan_page_tree();
    assert_eq!(
        listed(&scan),
        vec![(1, (5, 0)), (2, (6, 0)), (3, (4, 0))]
    );
    assert_eq!(scan.unresolved_nodes, 0);
    assert_eq!(doc.page_count(), 3);
}

#[test]
fn a_cycle_ends_and_a_shared_page_is_listed_once() {
    let doc = tree(&[
        "<</Type/Pages/Kids[3 0 R 4 0 R 3 0 R 2 0 R]>>",
        "<</Type/Page>>",
        "<</Type/Pages/Kids[2 0 R 3 0 R]>>",
    ]);
    let scan = doc.scan_page_tree();
    assert_eq!(listed(&scan), vec![(1, (3, 0))]);
    assert_eq!(scan.unresolved_nodes, 0, "walked already is not lost");
}

#[test]
fn a_node_without_a_type_is_an_inner_node() {
    let doc = tree(&["<</Kids[3 0 R]>>", "<</Type/Page>>"]);
    assert_eq!(listed(&doc.scan_page_tree()), vec![(1, (3, 0))]);
}

#[test]
fn everything_that_cannot_be_used_is_counted() {
    // A missing object, a kid that is no reference, a node of another type, a number.
    let doc = tree(&[
        "<</Type/Pages/Kids[9 0 R 17 3 0 R 4 0 R 5 0 R]>>",
        "<</Type/Font>>",
        "42",
        "<</Type/Page>>",
    ]);
    let scan = doc.scan_page_tree();
    assert_eq!(listed(&scan), vec![(1, (5, 0))]);
    assert_eq!(scan.unresolved_nodes, 4);
}

#[test]
fn an_inner_node_without_kids_has_no_pages_and_loses_none() {
    let doc = tree(&["<</Type/Pages/Count 3>>"]);
    let scan = doc.scan_page_tree();
    assert!(scan.pages.is_empty());
    assert_eq!(scan.unresolved_nodes, 0);
    assert_eq!(doc.declared_page_count(), Some(3), "the file says otherwise");
}

#[test]
fn a_catalog_without_pages_is_one_unresolved_node() {
    let doc = RawDocument::load(&pdf(vec![b"<</Type/Catalog>>".to_vec()], 1)).expect("loads");
    let scan = doc.scan_page_tree();
    assert!(scan.pages.is_empty());
    assert_eq!(scan.unresolved_nodes, 1);
    let copy = scan.clone();
    assert_eq!(copy.unresolved_nodes, 1);
    assert_eq!(PageTreeScan::default().unresolved_nodes, 0);
}

#[test]
fn a_very_deep_tree_is_walked() {
    // 20000 nodes, each the only kid of the one before it.
    let mut nodes: Vec<String> = (3..20002)
        .map(|n| format!("<</Type/Pages/Kids[{n} 0 R]>>"))
        .collect();
    nodes.push("<</Type/Page>>".to_string());
    let refs: Vec<&str> = nodes.iter().map(|s| s.as_str()).collect();
    let doc = tree(&refs);
    assert_eq!(listed(&doc.scan_page_tree()), vec![(1, (20001, 0))]);
}
