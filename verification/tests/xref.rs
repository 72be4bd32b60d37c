use std::io::Write;

use unpdf::parser::raw::document::RawDocument;
use unpdf::parser::raw::object::{dict_get, PdfDict, PdfObject};
use unpdf::parser::raw::objstm::{parse_int, read_header, read_objstm, skip_ws};
use unpdf::parser::raw::xref::{parse_xref_chain, read_stream_section, XrefEntry};
use unpdf::parser::test_pdf::{one_page_pdf, pdf};

fn zlib(data: &[u8]) -> Vec<u8> {
    let mut encoder =
        flate2::write::ZlibEncoder::new(Vec::new(), flate2::Compression::default());
    encoder.write_all(data).expect("in memory");
    encoder.finish().expect("in memory")
}

#[test]
fn a_table_lists_where_its_objects_are() {
    let bytes = one_page_pdf();
    let (table, trailer) = parse_xref_chain(&bytes).expect("a table");
    assert_eq!(table.entries.len(), 5);
    assert_eq!(table.entries[0], ((0, 65535), XrefEntry::Free));
    assert_eq!(table.entries[1], ((1, 0), XrefEntry::Uncompressed(9)));
    let XrefEntry::Uncompressed(at) = table.entries[4].1 else {
        panic!("in the file");
    };
    assert!(bytes[at..].starts_with(b"4 0 obj\n"));
    assert_eq!(
        dict_get(&trailer, b"Root").and_then(|o| o.as_reference()),
        Some((1, 0))
    );
}

#[test]
fn a_newer_section_counts_before_an_older_one() {
    let mut bytes = pdf(vec![b"(old)".to_vec(), b"(kept)".to_vec()], 1);
    let first = String::from_utf8(bytes.clone())
        .expect("ASCII")
        .rfind("xref\n0 3")
        .expect("a table");
    let at = bytes.len();
    bytes.extend_from_slice(b"1 0 obj\n(new)\nendobj\n");
    let section = bytes.len();
    bytes.extend_from_slice(
        format!(
            "xref\n1 1\n{at:010} 00000 n \ntrailer\n<</Size 3/Prev {first}/New true>>\nstartxref\n{section}\n%%EOF\n"
        )
        .as_bytes(),
    );
    let doc = RawDocument::load(&bytes).expect("loads");
    assert_eq!(
        doc.get_object((1, 0)).and_then(|o| o.as_str_bytes()),
        Some(b"new".as_slice())
    );
    assert_eq!(
        doc.get_object((2, 0)).and_then(|o| o.as_str_bytes()),
        Some(b"kept".as_slice())
    );
    assert!(
        dict_get(doc.trailer(), b"New").is_some(),
        "the trailer is the newest section's"
    );
}

#[test]
fn a_chain_that_comes_back_to_itself_ends() {
    let text = String::from_utf8(one_page_pdf()).expect("ASCII");
    let at = text.rfind("xref\n0 5").expect("a table");
    let bytes = text
        .replace("/Root 1 0 R>>", &format!("/Root 1 0 R/Prev {at}>>"))
        .into_bytes();
    let (table, _) = parse_xref_chain(&bytes).expect("a table");
    assert_eq!(table.entries.len(), 5);
}

#[test]
fn a_section_that_leads_nowhere_is_malformed() {
    let text = String::from_utf8(one_page_pdf()).expect("ASCII");
    for prev in ["-1", "999999", "3"] {
        let bytes = text
            .replace("/Root 1 0 R>>", &format!("/Root 1 0 R/Prev {prev}>>"))
            .into_bytes();
        assert!(parse_xref_chain(&bytes).is_err(), "for {prev}");
    }
    assert!(parse_xref_chain(&text.replace("startxref", "stortxref").into_bytes()).is_err());
    assert!(parse_xref_chain(&text.replace("trailer", "troiler").into_bytes()).is_err());
}

fn stream_dict(extra: &[(&str, PdfObject)]) -> PdfDict {
    let mut d = PdfDict::new();
    d.insert(
        b"W".to_vec(),
        PdfObject::Array(vec![
            PdfObject::Integer(1),
            PdfObject::Integer(2),
            PdfObject::Integer(1),
        ]),
    );
    for (k, v) in extra {
        d.insert(k.as_bytes().to_vec(), v.clone());
    }
    d
}

#[test]
fn the_rows_of_a_cross_reference_stream_are_read() {
    let rows = [0u8, 0, 0, 255, 1, 1, 2, 3, 2, 0, 9, 4];
    let dict = stream_dict(&[("Size", PdfObject::Integer(3))]);
    assert_eq!(
        read_stream_section(&dict, &rows),
        Some(vec![
            ((0, 0), XrefEntry::Free),
            ((1, 3), XrefEntry::Uncompressed(0x0102)),
            ((2, 0), XrefEntry::Compressed(9, 4)),
        ])
    );
    let index = PdfObject::Array(vec![
        PdfObject::Integer(7),
        PdfObject::Integer(1),
        PdfObject::Integer(20),
        PdfObject::Integer(2),
    ]);
    let dict = stream_dict(&[("Index", index)]);
    let entries = read_stream_section(&dict, &rows).expect("three rows");
    assert_eq!(
        entries.iter().map(|e| e.0).collect::<Vec<_>>(),
        vec![(7, 0), (20, 3), (21, 0)]
    );
    // Too few bytes, no size, no widths.
    let dict = stream_dict(&[("Size", PdfObject::Integer(4))]);
    assert_eq!(read_stream_section(&dict, &rows), None);
    assert_eq!(read_stream_section(&stream_dict(&[]), &rows), None);
    assert_eq!(read_stream_section(&PdfDict::new(), &rows), None);
}

/// A file whose table is a cross-reference stream and whose page is in an object stream.
fn modern_pdf() -> Vec<u8> {
    let mut out = b"%PDF-1.5\n".to_vec();
    let mut offsets = Vec::new();
    for (n, body) in ["<</Type/Catalog/Pages 2 0 R>>", "<</Type/Pages/Kids[4 0 R]/Count 1>>"]
        .iter()
        .enumerate()
    {
        offsets.push(out.len());
        out.extend_from_slice(format!("{} 0 obj\n{body}\nendobj\n", n + 1).as_bytes());
    }
    let packed = b"4 0 5 15 <</Type/Page>> (spare)  ".to_vec();
    let data = zlib(&packed);
    offsets.push(out.len());
    out.extend_from_slice(
        format!(
            "3 0 obj\n<</Type/ObjStm/N 2/First 9/Filter/FlateDecode/Length {}>>\nstream\n",
            data.len()
        )
        .as_bytes(),
    );
    out.extend_from_slice(&data);
    out.extend_from_slice(b"\nendstream\nendobj\n");
    let start = out.len();
    let mut rows = vec![0u8, 0, 0, 0];
    for at in &offsets {
        rows.extend_from_slice(&[1, (at / 256) as u8, (at % 256) as u8, 0]);
    }
    rows.extend_from_slice(&[2, 0, 3, 0]); // object 4
    rows.extend_from_slice(&[2, 0, 3, 1]); // object 5
    rows.extend_from_slice(&[2, 0, 3, 2]); // object 6, which is not there
    rows.extend_from_slice(&[2, 0, 9, 0]); // object 7, in a stream that is not there
    let data = zlib(&rows);
    out.extend_from_slice(
        format!(
            "8 0 obj\n<</Type/XRef/Size 8/W[1 2 1]/Root 1 0 R/Filter/FlateDecode/Length {}>>\nstream\n",
            data.len()
        )
        .as_bytes(),
    );
    out.extend_from_slice(&data);
    out.extend_from_slice(
        format!("\nendstream\nendobj\nstartxref\n{start}\n%%EOF\n").as_bytes(),
    );
    out
}

#[test]
fn compressed_objects_are_extracted_and_lost_ones_counted() {
    let doc = RawDocument::load(&modern_pdf()).expect("loads");
    assert_eq!(doc.version(), "1.5");
    assert_eq!(doc.pages()[&1], (4, 0));
    assert_eq!(
        doc.get_object((5, 0)).and_then(|o| o.as_str_bytes()),
        Some(b"spare".as_slice())
    );
    assert!(doc.get_object((6, 0)).is_none());
    assert!(doc.get_object((7, 0)).is_none());
    assert_eq!(doc.skipped_object_count(), 2);
}

#[test]
fn an_unusable_object_stream_loses_its_whole_group() {
    let mut bytes = modern_pdf();
    let at = bytes
        .windows(4)
        .position(|w| w == b"/N 2")
        .expect("the number of objects");
    bytes[at + 1] = b'M';
    let doc = RawDocument::load(&bytes).expect("loads");
    assert!(doc.get_object((3, 0)).is_some());
    assert!(doc.get_object((4, 0)).is_none());
    assert!(doc.get_object((5, 0)).is_none());
    // Three objects of this stream, and one of a stream that is not there.
    assert_eq!(doc.skipped_object_count(), 4);
    assert_eq!(doc.scan_page_tree().unresolved_nodes, 1);
}

#[test]
fn an_object_stream_is_read_by_index() {
    let slots = read_objstm(3, 16, b"10 0 11 5 12 99 (one)(two)").expect("a header");
    assert_eq!(slots.len(), 3);
    let text = |i: usize| match &slots[i] {
        Some(o) => o.as_str_bytes().map(|s| s.to_vec()),
        None => None,
    };
    assert_eq!(text(0), Some(b"(one)"[1..4].to_vec()));
    assert_eq!(text(1), Some(b"two".to_vec()));
    assert!(slots[2].is_none(), "out of range is missing, not an error");
    assert!(read_objstm(0, 0, b"").expect("no objects").is_empty());
    assert!(read_objstm(-1, 0, b"1 0").is_err());
}

fn failure<T: std::fmt::Debug>(r: Result<T, unpdf::error::Error>) -> String {
    match r {
        Err(unpdf::error::Error::PdfParse(m)) => m,
        other => panic!("got {other:?}"),
    }
}

#[test]
fn integers_in_the_header_of_an_object_stream() {
    assert_eq!(skip_ws(b" \t\n\x0c\rx", 0), 5);
    assert_eq!(skip_ws(b"", 0), 0);
    assert_eq!(parse_int(b"12 3", 0).expect("an integer"), (12, 2));
    assert_eq!(parse_int(b"+7", 0).expect("an integer"), (7, 2));
    assert_eq!(parse_int(b"x-12", 1).expect("an integer"), (-12, 4));
    assert_eq!(
        parse_int(b"-9223372036854775808", 0).expect("an integer"),
        (i64::MIN, 20)
    );
    assert_eq!(failure(parse_int(b"12 x", 3)), "expected integer at offset 3");
    assert_eq!(failure(parse_int(b"-", 0)), "invalid integer");
    assert_eq!(failure(parse_int(b"9223372036854775808", 0)), "invalid integer");
}

#[test]
fn an_object_stream_without_its_entries_is_an_error() {
    let mut d = PdfDict::new();
    assert_eq!(failure(read_header(&d)), "ObjStm missing /N");
    d.insert(b"N".to_vec(), PdfObject::Integer(2));
    assert_eq!(failure(read_header(&d)), "ObjStm missing /First");
    d.insert(b"First".to_vec(), PdfObject::Integer(10));
    assert_eq!(read_header(&d).expect("both"), (2, 10));
}
