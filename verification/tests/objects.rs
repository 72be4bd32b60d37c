use unpdf::parser::raw::object::{dict_get, PdfDict, PdfObject};
use unpdf::parser::raw::tokenizer::parse_object;

fn parse(text: &str) -> PdfObject {
    match parse_object(text.as_bytes(), 0) {
        Ok((o, _)) => o,
        Err(e) => panic!("{text}: {e:?}"),
    }
}

fn shown(text: &str) -> String {
    format!("{:?}", parse(text))
}

#[test]
fn numbers_keywords_and_references() {
    assert_eq!(parse("42").as_i64(), Some(42));
    assert_eq!(parse(" -17 ").as_i64(), Some(-17));
    assert_eq!(parse("+0").as_i64(), Some(0));
    assert_eq!(shown("1.5"), format!("{:?}", PdfObject::Real(b"1.5".to_vec())));
    assert_eq!(shown("-.5"), format!("{:?}", PdfObject::Real(b"-.5".to_vec())));
    assert_eq!(shown("true"), "Bool(true)");
    assert_eq!(shown("false"), "Bool(false)");
    assert_eq!(shown("null"), "Null");
    assert_eq!(parse("3 0 R").as_reference(), Some((3, 0)));
    assert_eq!(parse("3 0 Rx").as_i64(), Some(3));
    assert_eq!(parse("3 70000 R").as_i64(), Some(3));
}

#[test]
fn names_and_their_escapes() {
    assert_eq!(parse("/Name").as_name(), Some(b"Name".as_slice()));
    assert_eq!(parse("/A#20B").as_name(), Some(b"A B".as_slice()));
    assert_eq!(parse("/A#2").as_name(), Some(b"A#2".as_slice()));
    assert_eq!(parse("/").as_name(), Some(b"".as_slice()));
    assert_eq!(parse("/A/B").as_name(), Some(b"A".as_slice()));
}

#[test]
fn literal_strings_and_their_escapes() {
    let text = |s: &str| parse(s).as_str_bytes().map(|b| b.to_vec());
    assert_eq!(text("(a(b)c)"), Some(b"a(b)c".to_vec()));
    assert_eq!(text(r"(\n\r\t\b\f\(\)\\)"), Some(b"\n\r\t\x08\x0c()\\".to_vec()));
    assert_eq!(text(r"(\101\0612\7)"), Some(b"A12\x07".to_vec()));
    assert_eq!(text("(a\\\r\nb)"), Some(b"ab".to_vec()));
    assert_eq!(text("(a\r\nb\rc)"), Some(b"a\nb\nc".to_vec()));
    assert_eq!(text(r"(\q)"), Some(b"q".to_vec()));
    assert!(parse_object(b"(open", 0).is_err());
    assert!(parse_object(b"(a\\", 0).is_err());
}

#[test]
fn hexadecimal_strings() {
    let text = |s: &str| parse(s).as_str_bytes().map(|b| b.to_vec());
    assert_eq!(text("<48 65 6C>"), Some(b"Hel".to_vec()));
    assert_eq!(text("<486>"), Some(b"H`".to_vec()));
    assert_eq!(text("<>"), Some(b"".to_vec()));
    assert!(parse_object(b"<4g>", 0).is_err());
    assert!(parse_object(b"<48", 0).is_err());
}

#[test]
fn arrays_and_dictionaries_nest() {
    let a = parse("[1 [2 3] /N (s)]");
    let items = a.as_array().expect("an array");
    assert_eq!(items.len(), 4);
    assert_eq!(items[1].as_array().expect("an array").len(), 2);
    let d = parse("<</A 1/B<</C[1 0 R]>>/A 2>>");
    let d = d.as_dict().expect("a dictionary");
    assert_eq!(
        dict_get(d, b"A").and_then(|o| o.as_i64()),
        Some(2),
        "the last value of a key counts"
    );
    let b = dict_get(d, b"B").and_then(|o| o.as_dict()).expect("nested");
    let c = dict_get(b, b"C").and_then(|o| o.as_array()).expect("nested");
    assert_eq!(c[0].as_reference(), Some((1, 0)));
    assert!(dict_get(b, b"D").is_none());
    assert!(parse_object(b"[1 2", 0).is_err());
    assert!(parse_object(b"<</A>>", 0).is_err());
    assert!(parse_object(b"<<1 2>>", 0).is_err());
}

#[test]
fn nesting_is_limited() {
    let deep = |n: usize| format!("{}{}", "[".repeat(n), "]".repeat(n));
    assert!(parse_object(deep(128).as_bytes(), 0).is_ok());
    assert!(parse_object(deep(129).as_bytes(), 0).is_err());
    assert!(parse_object("[".repeat(100_000).as_bytes(), 0).is_err());
}

#[test]
fn comments_are_space() {
    assert_eq!(parse("% a comment\n 7").as_i64(), Some(7));
    assert_eq!(parse("[1 % one\r 2]").as_array().expect("an array").len(), 2);
}

#[test]
fn numbered_objects_and_streams() {
    let (o, end) = parse_object(b"4 0 obj\n17\nendobj", 0).expect("an object");
    assert_eq!(o.as_i64(), Some(17));
    assert_eq!(end, 10);
    let stream = |text: &str| match parse(text) {
        PdfObject::Stream(s) => s.raw_data,
        other => panic!("got {other:?}"),
    };
    assert_eq!(stream("1 0 obj<</Length 3>>stream\nabc\nendstream"), b"abc");
    assert_eq!(stream("1 0 obj<</Length 3>>stream\r\nabcendstream"), b"abc");
    // A wrong or missing length gives way to the closing keyword.
    assert_eq!(stream("1 0 obj<</Length 99>>stream\nabc\nendstream"), b"abc");
    assert_eq!(stream("1 0 obj<<>>stream\nabc\r\nendstream"), b"abc");
    assert_eq!(stream("1 0 obj<</Length 1>>stream\nabc\nendstream"), b"abc");
    assert!(parse_object(b"1 0 obj<<>>stream\nabc", 0).is_err());
    // Without a number in front there is no stream.
    assert!(parse("<</Length 3>>stream\nabc\nendstream").as_dict().is_some());
}

#[test]
fn positions_out_of_range_hold_no_object() {
    assert!(parse_object(b"1", 1).is_err());
    assert!(parse_object(b"1", 2).is_err());
    assert!(parse_object(b"", 0).is_err());
    assert!(parse_object(b"1", usize::MAX).is_err());
}

#[test]
fn a_dictionary_replaces_what_a_key_was_mapped_to() {
    let mut d = PdfDict::new();
    d.insert(b"K".to_vec(), PdfObject::Integer(1));
    d.insert(b"K".to_vec(), PdfObject::Integer(2));
    assert_eq!(dict_get(&d, b"K").and_then(|o| o.as_i64()), Some(2));
    let copy = d.clone();
    assert_eq!(dict_get(&copy, b"K").and_then(|o| o.as_i64()), Some(2));
    assert!(PdfObject::Dict(d).as_stream().is_none());
}
