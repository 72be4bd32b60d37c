use std::io::Write;

use unpdf::error::Error;
use unpdf::parser::raw::object::{PdfDict, PdfObject, PdfStream};
use unpdf::parser::raw::stream::{decompress, finish_flate, list_filters, undo_predictor};

fn zlib(data: &[u8]) -> Vec<u8> {
    let mut encoder =
        flate2::write::ZlibEncoder::new(Vec::new(), flate2::Compression::default());
    encoder.write_all(data).expect("in memory");
    encoder.finish().expect("in memory")
}

fn dict(entries: &[(&str, PdfObject)]) -> PdfDict {
    let mut d = PdfDict::new();
    for (k, v) in entries {
        d.insert(k.as_bytes().to_vec(), v.clone());
    }
    d
}

fn name(s: &str) -> PdfObject {
    PdfObject::Name(s.as_bytes().to_vec())
}

fn message(r: Result<Vec<u8>, Error>) -> String {
    match r {
        Err(Error::PdfParse(m)) => m,
        other => panic!("got {other:?}"),
    }
}

#[test]
fn a_stream_without_a_filter_is_its_bytes() {
    let s = PdfStream {
        dict: PdfDict::new(),
        raw_data: b"as it is".to_vec(),
    };
    assert_eq!(decompress(&s).expect("no filter"), b"as it is".to_vec());
    let s = PdfStream {
        dict: dict(&[("Filter", PdfObject::Null)]),
        raw_data: b"as it is".to_vec(),
    };
    assert_eq!(decompress(&s).expect("no filter"), b"as it is".to_vec());
}

#[test]
fn a_flate_stream_is_expanded() {
    let text = b"the same words again, the same words again".to_vec();
    let s = PdfStream {
        dict: dict(&[("Filter", name("FlateDecode"))]),
        raw_data: zlib(&text),
    };
    assert_eq!(decompress(&s).expect("expands"), text);
    // Twice compressed, undone in order.
    let s = PdfStream {
        dict: dict(&[(
            "Filter",
            PdfObject::Array(vec![name("FlateDecode"), name("Fl")]),
        )]),
        raw_data: zlib(&zlib(&text)),
    };
    assert_eq!(decompress(&s).expect("expands"), text);
}

#[test]
fn damaged_data_and_unknown_filters_are_errors() {
    let s = PdfStream {
        dict: dict(&[("Filter", name("FlateDecode"))]),
        raw_data: b"no zlib data".to_vec(),
    };
    assert_eq!(message(decompress(&s)), "undecodable stream");
    let s = PdfStream {
        dict: dict(&[("Filter", name("DCTDecode"))]),
        raw_data: vec![],
    };
    assert_eq!(message(decompress(&s)), "unsupported filter");
    let s = PdfStream {
        dict: dict(&[("Filter", PdfObject::Integer(1))]),
        raw_data: vec![],
    };
    assert_eq!(message(decompress(&s)), "malformed filter");
    let s = PdfStream {
        dict: dict(&[("Filter", PdfObject::Array(vec![PdfObject::Integer(1)]))]),
        raw_data: vec![],
    };
    assert_eq!(message(decompress(&s)), "malformed filter");
    assert_eq!(message(finish_flate(None, &PdfDict::new())), "undecodable stream");
}

#[test]
fn filters_are_listed_in_order() {
    assert_eq!(list_filters(&PdfDict::new()), Some(vec![]));
    assert_eq!(
        list_filters(&dict(&[(
            "Filter",
            PdfObject::Array(vec![name("A"), name("B")])
        )])),
        Some(vec![b"A".to_vec(), b"B".to_vec()])
    );
    assert_eq!(list_filters(&dict(&[("Filter", PdfObject::Bool(true))])), None);
}

#[test]
fn png_predictors_are_undone() {
    let params = |columns: i64| {
        dict(&[
            ("Predictor", PdfObject::Integer(12)),
            ("Columns", PdfObject::Integer(columns)),
        ])
    };
    // None, Sub, Up, Average, Paeth, three bytes a row.
    let rows = vec![
        0, 10, 20, 30, //
        1, 1, 1, 1, //
        2, 1, 1, 1, //
        3, 10, 10, 10, //
        4, 1, 1, 1,
    ];
    assert_eq!(
        undo_predictor(&params(3), rows).expect("PNG rows"),
        vec![
            10, 20, 30, //
            1, 2, 3, //
            2, 3, 4, //
            11, 17, 20, //
            12, 18, 21,
        ]
    );
    // The last row may be cut off.
    assert_eq!(
        undo_predictor(&params(3), vec![0, 7]).expect("PNG rows"),
        vec![7]
    );
    assert_eq!(
        message(undo_predictor(&params(3), vec![5, 7, 7, 7])),
        "undecodable stream"
    );
    assert_eq!(
        message(undo_predictor(&dict(&[("Predictor", PdfObject::Integer(2))]), vec![])),
        "unsupported predictor"
    );
    assert_eq!(
        message(undo_predictor(&params(0), vec![])),
        "unsupported predictor"
    );
    assert_eq!(
        undo_predictor(&PdfDict::new(), vec![1, 2]).expect("no predictor"),
        vec![1, 2]
    );
    let s = PdfStream {
        dict: dict(&[
            ("Filter", name("FlateDecode")),
            ("DecodeParms", PdfObject::Dict(params(3))),
        ]),
        raw_data: zlib(&[0, 1, 2, 3, 2, 1, 1, 1]),
    };
    assert_eq!(decompress(&s).expect("expands"), vec![1, 2, 3, 2, 3, 4]);
}
