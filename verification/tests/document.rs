use cbc::cipher::block_padding::Pkcs7;
use cbc::cipher::{BlockModeEncrypt, KeyIvInit};
use md5::{Digest, Md5};
use unpdf::error::{Error, ErrorKind};
use unpdf::parser::raw::crypt::{
    compute_encryption_key, decrypt_rc4, object_key, EncryptionParams, PADDING,
};
use unpdf::parser::raw::document::{choose_key, RawDocument};
use unpdf::parser::raw::object::{dict_get, PdfObject};
use unpdf::parser::test_pdf::{one_page_pdf, pdf, pdf_with_trailer, stream, undecryptable_pdf};

#[test]
fn a_supplied_password_reaches_decryption_and_its_failure_is_named() {
    let encrypted = undecryptable_pdf();

    let Err(without) = RawDocument::load_with_password(&encrypted, None) else {
        panic!("an encrypted document must not load without a password");
    };
    assert!(
        matches!(without, Error::Encrypted),
        "no password offered: the caller has to go and get one -- got {without:?}"
    );

    let Err(with) = RawDocument::load_with_password(&encrypted, Some("secret")) else {
        panic!("this fixture authenticates with no password at all");
    };
    assert!(
        matches!(with, Error::InvalidPassword),
        "a password was offered and did not work: saying Encrypted would send the caller \
         after a password they already gave -- got {with:?}"
    );
}

#[test]
fn an_empty_password_is_the_same_as_none() {
    let encrypted = undecryptable_pdf();

    let Err(err) = RawDocument::load_with_password(&encrypted, Some("")) else {
        panic!("this fixture authenticates with no password at all");
    };
    assert!(matches!(err, Error::Encrypted), "got {err:?}");
}

#[test]
fn load_without_a_password_still_reports_encrypted() {
    let Err(err) = RawDocument::load(&undecryptable_pdf()) else {
        panic!("this fixture authenticates with no password at all");
    };
    assert!(matches!(err, Error::Encrypted), "got {err:?}");
}

#[test]
fn a_minimal_document_reports_its_version_and_page_count() {
    let doc = RawDocument::load(&one_page_pdf()).expect("a well-formed PDF loads");
    assert_eq!(doc.page_count(), 1);
    assert_eq!(
        doc.version, "1.4",
        "the header version is read, not guessed"
    );
    assert_eq!(doc.version(), "1.4");
}

#[test]
fn the_catalog_is_reachable_and_points_at_the_page_tree() {
    let doc = RawDocument::load(&one_page_pdf()).expect("loads");
    let catalog = doc.catalog().expect("the trailer /Root resolves");
    assert!(
        dict_get(catalog, b"Pages").is_some(),
        "a catalog without /Pages would make page enumeration silently empty"
    );
}

#[test]
fn pages_are_enumerated_from_one() {
    let doc = RawDocument::load(&one_page_pdf()).expect("loads");
    let pages = doc.pages();
    assert_eq!(pages.len(), 1);
    assert!(
        pages.contains_key(&1),
        "page numbering is 1-indexed across this crate API"
    );
}

#[test]
fn an_enumerated_page_resolves_to_a_page_dictionary() {
    let doc = RawDocument::load(&one_page_pdf()).expect("loads");
    let first = doc.pages()[&1];
    let page_dict = doc.get_dict(first).expect("the id from pages() resolves");
    assert_eq!(
        dict_get(page_dict, b"Type").and_then(|o| o.as_name()),
        Some(b"Page".as_slice()),
        "pages() must not hand back the page tree node"
    );
}

#[test]
fn a_two_page_tree_is_walked_in_order() {
    // One page proves almost nothing about a tree walk: a stub returning the first Kid
    // would pass every test above.
    let doc = RawDocument::load(&pdf(
        vec![
            b"<</Type/Catalog/Pages 2 0 R>>".to_vec(),
            b"<</Type/Pages/Kids[3 0 R 4 0 R]/Count 2>>".to_vec(),
            b"<</Type/Page/Parent 2 0 R/MediaBox[0 0 595 842]>>".to_vec(),
            b"<</Type/Page/Parent 2 0 R/MediaBox[0 0 200 200]>>".to_vec(),
        ],
        1,
    ))
    .expect("loads");

    assert_eq!(doc.page_count(), 2);
    let pages = doc.pages();
    assert_eq!(pages.len(), 2);
    // The second Kid must be page 2, not a second entry for page 1.
    assert_ne!(pages[&1], pages[&2]);
    let second = doc.get_dict(pages[&2]).expect("resolves");
    assert!(
        format!("{:?}", dict_get(second, b"MediaBox")).contains("200"),
        "page 2 should be the second Kid, not the first one again"
    );
}

#[test]
fn an_encryption_revision_this_build_cannot_do_is_refused_by_kind() {
    // AES-256 (AESV3) is revision 5 or 6. Refusing it is correct -- what matters to a
    // caller is that the refusal is distinguishable, since the catch-all kind would make
    // "this build does not implement that" look like any other failure.
    let bytes = pdf(
        vec![
            b"<</Type/Catalog/Pages 2 0 R>>".to_vec(),
            b"<</Type/Pages/Kids[3 0 R]/Count 1>>".to_vec(),
            b"<</Type/Page/Parent 2 0 R/MediaBox[0 0 595 842]>>".to_vec(),
            b"<</Filter/Standard/V 5/R 6/Length 256/P -1/O<00>/U<00>>>".to_vec(),
        ],
        1,
    );
    // The trailer built above carries no /Encrypt, so point it at object 4.
    let encrypted = String::from_utf8(bytes)
        .expect("ASCII")
        .replace("/Root 1 0 R>>", "/Root 1 0 R/Encrypt 4 0 R>>")
        .into_bytes();

    let Err(err) = RawDocument::load(&encrypted) else {
        panic!("revision 6 is not implemented, so loading must not succeed");
    };
    assert_eq!(
        err.kind(),
        ErrorKind::UnsupportedVersion,
        "got {err:?} -- a caller cannot branch on this if it arrives as the catch-all"
    );
    assert!(matches!(err, Error::UnsupportedVersion(m) if m == "encryption revision 6"));
}

#[test]
fn a_document_that_needs_a_password_is_refused_as_encrypted() {
    // RC4, revision 3. /U is what the empty user password would have to reproduce, and
    // zeros are not that -- so opening without a password must fail, and must say why:
    // "needs a password" is the one failure here a caller can act on.
    let zeros = "00".repeat(32);
    let bytes = pdf(
        vec![
            b"<</Type/Catalog/Pages 2 0 R>>".to_vec(),
            b"<</Type/Pages/Kids[3 0 R]/Count 1>>".to_vec(),
            b"<</Type/Page/Parent 2 0 R/MediaBox[0 0 595 842]>>".to_vec(),
            format!("<</Filter/Standard/V 2/R 3/Length 128/P -4/O<{zeros}>/U<{zeros}>>>")
                .into_bytes(),
        ],
        1,
    );
    let id = "00".repeat(16);
    let encrypted = String::from_utf8(bytes)
        .expect("ASCII")
        .replace(
            "/Root 1 0 R>>",
            &format!("/Root 1 0 R/Encrypt 4 0 R/ID[<{id}><{id}>]>>"),
        )
        .into_bytes();

    let Err(err) = RawDocument::load(&encrypted) else {
        panic!("the empty password does not authenticate, so loading must not succeed");
    };
    assert_eq!(
        err.kind(),
        ErrorKind::Encrypted,
        "got {err:?} -- a password-protected file must not look like a damaged one"
    );
}

#[test]
fn a_document_outline_is_read_rather_than_ignored() {
    let doc = RawDocument::load(&pdf(
        vec![
            b"<</Type/Catalog/Pages 2 0 R/Outlines 4 0 R>>".to_vec(),
            b"<</Type/Pages/Kids[3 0 R]/Count 1>>".to_vec(),
            b"<</Type/Page/Parent 2 0 R/MediaBox[0 0 595 842]>>".to_vec(),
            b"<</Type/Outlines/First 5 0 R/Last 5 0 R/Count 1>>".to_vec(),
            b"<</Title(Chapter One)/Parent 4 0 R/Dest[3 0 R /Fit]>>".to_vec(),
        ],
        1,
    ))
    .expect("loads");

    let catalog = doc.catalog().expect("resolves");
    let outlines = dict_get(catalog, b"Outlines")
        .and_then(|o| o.as_reference())
        .expect("/Outlines is a reference in the catalog");
    let root = doc.get_dict(outlines).expect("/Outlines resolves");
    let first = dict_get(root, b"First")
        .and_then(|o| o.as_reference())
        .expect("an outline root has a first child");
    let item = doc
        .get_dict(first)
        .expect("the first outline item resolves");
    assert_eq!(
        dict_get(item, b"Title").and_then(|o| o.as_str_bytes()),
        Some(b"Chapter One".as_slice()),
        "the outline item title should survive parsing"
    );
}

fn kind_of(data: &[u8]) -> ErrorKind {
    match RawDocument::load(data) {
        Ok(_) => panic!("must not load"),
        Err(e) => e.kind(),
    }
}

#[test]
fn bytes_that_are_no_pdf_are_an_unknown_format() {
    assert_eq!(kind_of(b""), ErrorKind::UnknownFormat);
    assert_eq!(kind_of(b"%PDF-1."), ErrorKind::UnknownFormat);
    assert_eq!(kind_of(b"%PNG-1.4\n"), ErrorKind::UnknownFormat);
}

#[test]
fn a_version_that_is_not_text_is_a_parse_error() {
    let mut bytes = one_page_pdf();
    bytes[5] = 0xFF;
    match RawDocument::load(&bytes) {
        Err(Error::PdfParse(m)) => assert_eq!(m, "invalid version string"),
        _ => panic!("expected a parse error"),
    }
}

#[test]
fn a_file_without_a_cross_reference_table_is_a_parse_error() {
    match RawDocument::load(b"%PDF-1.4\nnothing else") {
        Err(Error::PdfParse(m)) => assert_eq!(m, "malformed xref"),
        _ => panic!("expected a parse error"),
    }
}

#[test]
fn a_longer_version_is_read_up_to_white_space() {
    let text = String::from_utf8(one_page_pdf()).expect("ASCII");
    // Same length, so that the offsets stay right.
    let bytes = text.replace("%PDF-1.4\n", "%PDF-2.0 ").into_bytes();
    assert_eq!(RawDocument::load(&bytes).expect("loads").version(), "2.0");
}

#[test]
fn a_missing_object_is_named() {
    let doc = RawDocument::load(&one_page_pdf()).expect("loads");
    match doc.get_dict((9, 0)) {
        Err(Error::MissingObject(m)) => assert_eq!(m, "object (9, 0)"),
        other => panic!("got {other:?}"),
    }
    assert!(doc.get_object((1, 1)).is_none());
}

#[test]
fn an_object_that_is_no_dictionary_is_named() {
    let doc = RawDocument::load(&pdf(vec![b"[1 2 3]".to_vec()], 1)).expect("loads");
    match doc.get_dict((1, 0)) {
        Err(Error::PdfParse(m)) => assert_eq!(m, "object (1, 0) is not a dictionary"),
        other => panic!("got {other:?}"),
    }
    match doc.catalog() {
        Err(Error::PdfParse(m)) => assert_eq!(m, "catalog is not a dictionary"),
        other => panic!("got {other:?}"),
    }
}

#[test]
fn a_trailer_without_a_root_has_no_catalog() {
    let text = String::from_utf8(one_page_pdf()).expect("ASCII");
    let bytes = text.replace("/Root 1 0 R", "/Rott 1 0 R").into_bytes();
    let doc = RawDocument::load(&bytes).expect("loads");
    match doc.catalog() {
        Err(Error::MissingObject(m)) => assert_eq!(m, "trailer /Root"),
        other => panic!("got {other:?}"),
    }
    assert_eq!(doc.page_count(), 0);
    assert_eq!(doc.scan_page_tree().unresolved_nodes, 1);
    assert_eq!(doc.declared_page_count(), None);
}

#[test]
fn a_stream_object_gives_its_dictionary() {
    let doc = RawDocument::load(&one_page_pdf()).expect("loads");
    let dict = doc.get_dict((4, 0)).expect("a stream has a dictionary");
    assert_eq!(dict_get(dict, b"Length").and_then(|o| o.as_i64()), Some(33));
    match doc.get_object((4, 0)) {
        Some(PdfObject::Stream(s)) => {
            assert_eq!(s.raw_data, b"BT /F1 12 Tf 72 720 Td (Hi) Tj ET".to_vec())
        }
        other => panic!("got {other:?}"),
    }
}

#[test]
fn references_are_followed_ten_times_and_no_further() {
    // Objects 1 to 10 each refer to the next one; object 11 is a number.
    let mut objects: Vec<Vec<u8>> = (2..=11).map(|n| format!("{n} 0 R").into_bytes()).collect();
    objects.push(b"42".to_vec());
    let doc = RawDocument::load(&pdf(objects, 1)).expect("loads");
    let first = PdfObject::Reference(1, 0);
    let second = PdfObject::Reference(2, 0);
    assert_eq!(doc.resolve(&second).as_i64(), Some(42));
    assert_eq!(doc.resolve(&first).as_reference(), Some((11, 0)));
}

#[test]
fn a_reference_to_itself_ends() {
    let doc = RawDocument::load(&pdf(vec![b"1 0 R".to_vec()], 1)).expect("loads");
    let it = PdfObject::Reference(1, 0);
    assert_eq!(doc.resolve(&it).as_reference(), Some((1, 0)));
    let gone = PdfObject::Reference(7, 0);
    assert_eq!(doc.resolve(&gone).as_reference(), Some((7, 0)));
}

#[test]
fn an_object_that_cannot_be_parsed_is_counted() {
    let doc = RawDocument::load(&pdf(
        vec![
            b"<</Type/Catalog/Pages 2 0 R>>".to_vec(),
            b"<</Type/Pages/Kids[]/Count 0>>".to_vec(),
            b"<</Broken".to_vec(),
        ],
        1,
    ))
    .expect("a lossy file still loads");
    assert_eq!(doc.skipped_object_count(), 1);
    assert!(doc.get_object((3, 0)).is_none());
    assert!(doc.get_object((2, 0)).is_some());
    assert_eq!(doc.page_count(), 0);
    assert_eq!(doc.declared_page_count(), Some(0));
}

#[test]
fn an_intact_document_skips_nothing() {
    let doc = RawDocument::load(&one_page_pdf()).expect("loads");
    assert_eq!(doc.skipped_object_count(), 0);
    assert!(!doc.is_encrypted());
    assert_eq!(doc.declared_page_count(), Some(1));
    assert_eq!(
        dict_get(doc.trailer(), b"Size").and_then(|o| o.as_i64()),
        Some(5)
    );
}

#[test]
fn a_declared_count_that_is_no_count_is_not_given() {
    for (count, expected) in [("-1", None), ("4294967296", None), ("7", Some(7)), ("(7)", None)] {
        let doc = RawDocument::load(&pdf(
            vec![
                b"<</Type/Catalog/Pages 2 0 R>>".to_vec(),
                format!("<</Type/Pages/Kids[]/Count {count}>>").into_bytes(),
            ],
            1,
        ))
        .expect("loads");
        assert_eq!(doc.declared_page_count(), expected, "for {count}");
    }
}

#[test]
fn an_encryption_dictionary_that_cannot_be_read_is_a_parse_error() {
    for extra in ["/Encrypt 9 0 R", "/Encrypt<</V 1>>", "/Encrypt 2 0 R"] {
        let bytes = pdf_with_trailer(
            vec![
                b"<</Type/Catalog/Pages 2 0 R>>".to_vec(),
                b"<</Type/Pages/Kids[]/Count 0>>".to_vec(),
            ],
            1,
            extra,
        );
        match RawDocument::load(&bytes) {
            Err(Error::PdfParse(m)) => {
                assert_eq!(m, "Encrypt dictionary present but could not be parsed")
            }
            _ => panic!("expected a parse error for {extra}"),
        }
    }
}

#[test]
fn an_unusable_key_length_is_told_beforehand() {
    // Revision 3 with a key of 32 bytes, and revision 2 with one of none.
    for (revision, length) in [(3, 256), (2, 0), (4, 7)] {
        let bytes = pdf_with_trailer(
            vec![
                b"<</Type/Catalog/Pages 2 0 R>>".to_vec(),
                format!("<</V 2/R {revision}/Length {length}/P -4/O(a)/U(b)>>").into_bytes(),
            ],
            1,
            "/Encrypt 2 0 R",
        );
        assert!(!RawDocument::can_load(&bytes));
        assert!(RawDocument::try_load(&bytes).is_none());
        assert!(RawDocument::try_load_with_password(&bytes, Some("x")).is_none());
    }
    assert!(RawDocument::can_load(&one_page_pdf()));
    assert!(matches!(
        RawDocument::try_load(&undecryptable_pdf()),
        Some(Err(Error::Encrypted))
    ));
    assert!(matches!(
        RawDocument::try_load_with_password(&undecryptable_pdf(), Some("x")),
        Some(Err(Error::InvalidPassword))
    ));
    assert!(matches!(RawDocument::try_load(&one_page_pdf()), Some(Ok(_))));
}

fn hex_of(bytes: &[u8]) -> String {
    bytes.iter().map(|b| format!("{b:02x}")).collect()
}

/// A document of revision 2, encrypted with RC4 and `password`, whose object 3 is the string
/// `hidden`. Object 4 is the encryption dictionary.
fn encrypted_pdf(password: &[u8]) -> Vec<u8> {
    let mut params = EncryptionParams {
        version: 1,
        revision: 2,
        key_length: 40,
        owner_hash: vec![0x0F; 32],
        user_hash: vec![],
        permissions: -4,
        file_id: b"0123456789abcdef".to_vec(),
        use_aes: false,
        encrypt_metadata: true,
    };
    let key = compute_encryption_key(&params, password);
    params.user_hash = decrypt_rc4(&key, &PADDING);
    let hidden = decrypt_rc4(&object_key(&key, 3, 0, false), b"hidden");
    pdf_with_trailer(
        vec![
            b"<</Type/Catalog/Pages 2 0 R>>".to_vec(),
            b"<</Type/Pages/Kids[]/Count 0>>".to_vec(),
            format!("<{}>", hex_of(&hidden)).into_bytes(),
            format!(
                "<</Filter/Standard/V 1/R 2/P -4/O<{}>/U<{}>>>",
                hex_of(&params.owner_hash),
                hex_of(&params.user_hash)
            )
            .into_bytes(),
        ],
        1,
        "/Encrypt 4 0 R/ID[(0123456789abcdef)(other)]",
    )
}

fn hidden_text(doc: &RawDocument) -> Vec<u8> {
    match doc.get_object((3, 0)) {
        Some(PdfObject::Str(s)) => s.clone(),
        other => panic!("got {other:?}"),
    }
}

#[test]
fn an_encrypted_document_opens_with_its_password() {
    let bytes = encrypted_pdf(b"open sesame");
    let doc = RawDocument::load_with_password(&bytes, Some("open sesame")).expect("opens");
    assert_eq!(hidden_text(&doc), b"hidden".to_vec());
    assert!(doc.is_encrypted());
    assert!(matches!(RawDocument::load(&bytes), Err(Error::Encrypted)));
    assert!(matches!(
        RawDocument::load_with_password(&bytes, Some("sesame")),
        Err(Error::InvalidPassword)
    ));
}

#[test]
fn a_document_that_opens_without_a_password_opens_with_any() {
    let bytes = encrypted_pdf(b"");
    for password in [None, Some(""), Some("whatever")] {
        let doc = RawDocument::load_with_password(&bytes, password).expect("opens");
        assert_eq!(hidden_text(&doc), b"hidden".to_vec());
    }
}

#[test]
fn the_encryption_dictionary_itself_is_not_decrypted() {
    let bytes = encrypted_pdf(b"");
    let doc = RawDocument::load(&bytes).expect("opens");
    let params = doc.encryption_params().expect("readable still");
    assert_eq!(params.version, 1);
    assert_eq!(params.revision, 2);
    assert_eq!(params.key_length, 40, "the length has a default");
    assert_eq!(params.owner_hash, vec![0x0F; 32]);
    assert_eq!(params.permissions, -4);
    assert_eq!(params.file_id, b"0123456789abcdef".to_vec());
    assert!(!params.use_aes);
    assert!(params.encrypt_metadata);
}

/// A document of revision 4, encrypted with AES and the empty password, whose object 3 is the
/// string `hidden`. Its encryption dictionary ends in `filters`.
fn aes_pdf(filters: &str) -> Vec<u8> {
    let params = EncryptionParams {
        version: 4,
        revision: 4,
        key_length: 128,
        owner_hash: vec![0x0F; 32],
        user_hash: vec![],
        permissions: -4,
        file_id: b"0123456789abcdef".to_vec(),
        use_aes: true,
        encrypt_metadata: false,
    };
    let key = compute_encryption_key(&params, b"");
    let mut seed = PADDING.to_vec();
    seed.extend_from_slice(&params.file_id);
    let mut user_hash = Md5::digest(&seed).to_vec();
    for i in 0..20u8 {
        let round: Vec<u8> = key.iter().map(|b| b ^ i).collect();
        user_hash = decrypt_rc4(&round, &user_hash);
    }
    let iv = [7u8; 16];
    let mut buf = [0u8; 16];
    buf[..6].copy_from_slice(b"hidden");
    let secret = cbc::Encryptor::<aes::Aes128>::new_from_slices(&object_key(&key, 3, 0, true), &iv)
        .expect("sixteen bytes each")
        .encrypt_padded::<Pkcs7>(&mut buf, 6)
        .expect("one block")
        .to_vec();
    pdf_with_trailer(
        vec![
            b"<</Type/Catalog/Pages 2 0 R>>".to_vec(),
            b"<</Type/Pages/Kids[]/Count 0>>".to_vec(),
            format!("<{}{}>", hex_of(&iv), hex_of(&secret)).into_bytes(),
            format!(
                "<</Filter/Standard/V 4/R 4/Length 128/P -4/O<{}>/U<{}>/EncryptMetadata false/CF<</Std<</CFM/AESV2>>>>/{filters}>>",
                hex_of(&params.owner_hash),
                hex_of(&user_hash)
            )
            .into_bytes(),
        ],
        1,
        "/Encrypt 4 0 R/ID[(0123456789abcdef)]",
    )
}

#[test]
fn an_aes_document_is_decrypted_by_the_filter_that_it_names() {
    for filters in [
        "StmF/Std",
        "StrF/Std",
        "StmF/Std/StrF/Std",
        "StmF/Identity/StrF/Std",
        "StmF/Std/StrF/Identity",
    ] {
        let doc = RawDocument::load(&aes_pdf(filters)).expect("opens");
        assert_eq!(hidden_text(&doc), b"hidden".to_vec(), "for {filters}");
        let params = doc.encryption_params().expect("readable");
        assert!(params.use_aes);
        assert!(!params.encrypt_metadata);
    }
    for filters in ["Other/Std", "StmF/Identity/StrF/Identity"] {
        let doc = RawDocument::load(&aes_pdf(filters)).expect("opens");
        assert_ne!(hidden_text(&doc), b"hidden".to_vec(), "RC4 without a filter");
        assert!(!doc.encryption_params().expect("readable").use_aes);
    }
}

#[test]
fn the_empty_password_comes_before_the_offered_one() {
    assert_eq!(choose_key(Some(vec![1]), None).expect("a key"), vec![1]);
    assert_eq!(
        choose_key(Some(vec![1]), Some(Some(vec![2]))).expect("a key"),
        vec![1]
    );
    assert_eq!(
        choose_key(None, Some(Some(vec![2]))).expect("a key"),
        vec![2]
    );
    assert!(matches!(
        choose_key(None, Some(None)),
        Err(Error::InvalidPassword)
    ));
    assert!(matches!(choose_key(None, None), Err(Error::Encrypted)));
}

#[test]
fn a_stream_body_is_read_back() {
    let body = stream("<</Length 5>>", b"hello");
    assert_eq!(body, b"<</Length 5>>\nstream\nhello\nendstream".to_vec());
    let doc = RawDocument::load(&pdf(vec![body], 1)).expect("loads");
    match doc.get_object((1, 0)) {
        Some(PdfObject::Stream(s)) => assert_eq!(s.raw_data, b"hello".to_vec()),
        other => panic!("got {other:?}"),
    }
}

#[test]
fn every_assembled_object_is_found_under_its_number() {
    let mut objects = vec![b"<</Type/Catalog>>".to_vec()];
    for n in 2..=12u32 {
        objects.push(format!("{}", n * n).into_bytes());
    }
    objects.push(b")".to_vec());
    let bytes = pdf(objects, 1);
    let doc = RawDocument::load(&bytes).expect("loads");
    for n in 2..=12u32 {
        assert_eq!(
            doc.get_object((n, 0)).and_then(|o| o.as_i64()),
            Some((n * n) as i64)
        );
    }
    assert!(doc.get_object((13, 0)).is_none());
    assert_eq!(doc.skipped_object_count(), 1);
    assert_eq!(
        dict_get(doc.trailer(), b"Size").and_then(|o| o.as_i64()),
        Some(14)
    );
    assert_eq!(
        dict_get(doc.trailer(), b"Root").and_then(|o| o.as_reference()),
        Some((1, 0))
    );
}

#[test]
fn what_is_appended_to_a_trailer_is_read_back() {
    let objects = || vec![b"<</Type/Catalog>>".to_vec(), b"(two)".to_vec()];
    for (extra, info, note) in [
        ("/Info 2 0 R/Note(x>>y)", Some((2, 0)), Some(b"x>>y".as_slice())),
        (" /Note<4142>", None, Some(b"AB".as_slice())),
        ("", None, None),
    ] {
        let doc = RawDocument::load(&pdf_with_trailer(objects(), 1, extra)).expect("loads");
        let trailer = doc.trailer();
        assert_eq!(
            dict_get(trailer, b"Info").and_then(|o| o.as_reference()),
            info
        );
        assert_eq!(
            dict_get(trailer, b"Note").and_then(|o| o.as_str_bytes()),
            note
        );
        assert_eq!(
            dict_get(trailer, b"Root").and_then(|o| o.as_reference()),
            Some((1, 0))
        );
        assert_eq!(
            doc.get_object((2, 0)).and_then(|o| o.as_str_bytes()),
            Some(b"two".as_slice())
        );
    }
    // A later entry replaces an earlier one.
    let doc = RawDocument::load(&pdf_with_trailer(objects(), 1, "/Root 2 0 R")).expect("loads");
    assert_eq!(
        dict_get(doc.trailer(), b"Root").and_then(|o| o.as_reference()),
        Some((2, 0))
    );
}
