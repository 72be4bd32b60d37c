use aes::Aes128;
use cbc::cipher::block_padding::Pkcs7;
use cbc::cipher::{BlockModeEncrypt, KeyIvInit};
use md5::{Digest, Md5};
use unpdf::parser::raw::crypt::{
    authenticate_user_password, compute_encryption_key, decrypt_aes128, decrypt_rc4, is_user_hash,
    key_material_for, object_key, object_key_material_for, EncryptionParams, PADDING,
};
use unpdf::parser::raw::decrypt::decrypt_object;
use unpdf::parser::raw::object::{dict_get, PdfDict, PdfObject, PdfStream};

fn hex(s: &str) -> Vec<u8> {
    (0..s.len())
        .step_by(2)
        .map(|i| u8::from_str_radix(&s[i..i + 2], 16).expect("hex digit pair"))
        .collect()
}

/// NIST SP 800-38A, F.2.2 (CBC-AES128.Decrypt), first two blocks.
#[test]
fn aes_128_cbc_matches_the_nist_known_answer() {
    let key = hex("2b7e151628aed2a6abf7158809cf4f3c");
    let iv = hex("000102030405060708090a0b0c0d0e0f");
    let ciphertext = hex("7649abac8119b246cee98e9b12e9197d\
         5086cb9b507219ee95db113a917678b2");
    let expected = hex("6bc1bee22e409f96e93d7e117393172a\
         ae2d8a571e03ac9c9eb76fac45af8e51");

    // The function takes the IV prepended to the ciphertext, as PDF stores it.
    let mut data = iv;
    data.extend_from_slice(&ciphertext);

    // These blocks carry no PKCS7 padding, so the no-padding fallback is what answers.
    assert_eq!(decrypt_aes128(&key, &data), Some(expected));
}

#[test]
fn a_pkcs7_padded_payload_comes_back_without_its_padding() {
    // Same key/IV; ciphertext produced from "unparser" padded to one block under PKCS7.
    let key = hex("2b7e151628aed2a6abf7158809cf4f3c");
    let iv = hex("000102030405060708090a0b0c0d0e0f");

    let plaintext = b"unparser";
    let mut buf = [0u8; 16];
    buf[..plaintext.len()].copy_from_slice(plaintext);
    let ct = cbc::Encryptor::<Aes128>::new_from_slices(&key, &iv)
        .expect("16-byte key and iv")
        .encrypt_padded::<Pkcs7>(&mut buf, plaintext.len())
        .expect("one block of room")
        .to_vec();

    let mut data = iv;
    data.extend_from_slice(&ct);

    assert_eq!(decrypt_aes128(&key, &data).as_deref(), Some(&plaintext[..]));
}

/// `object_key` truncates to `min(file_key.len() + 5, 16)`, so a document whose file key is
/// shorter than 11 bytes produces a key AES-128 cannot take.
#[test]
fn a_key_the_cipher_cannot_take_is_refused_rather_than_panicking() {
    let short_key = object_key(&[0xAB; 4], 1, 0, true);
    assert!(
        short_key.len() < 16,
        "the truncation rule should yield 9 bytes here"
    );

    let data = vec![0u8; 32]; // a well-formed IV + one ciphertext block
    assert_eq!(decrypt_aes128(&short_key, &data), None);
}

#[test]
fn a_payload_that_is_not_a_whole_number_of_blocks_is_refused() {
    let key = hex("2b7e151628aed2a6abf7158809cf4f3c");
    assert_eq!(decrypt_aes128(&key, &[0u8; 20]), None);
    assert_eq!(decrypt_aes128(&key, &[0u8; 8]), None);
}

#[test]
fn an_iv_with_no_ciphertext_after_it_decrypts_to_nothing() {
    let key = hex("2b7e151628aed2a6abf7158809cf4f3c");
    assert_eq!(decrypt_aes128(&key, &[0u8; 16]), Some(vec![]));
}

#[test]
fn rc4_matches_a_known_answer_and_undoes_itself() {
    let out = decrypt_rc4(b"Key", b"Plaintext");
    assert_eq!(out, hex("bbf316e8d940af0ad3"));
    assert_eq!(decrypt_rc4(b"Key", &out), b"Plaintext".to_vec());
}

fn params(revision: u32, key_length: u32) -> EncryptionParams {
    EncryptionParams {
        version: 1,
        revision,
        key_length,
        owner_hash: vec![0xAA; 32],
        user_hash: vec![],
        permissions: -4,
        file_id: b"0123456789abcdef".to_vec(),
        use_aes: false,
        encrypt_metadata: true,
    }
}

#[test]
fn key_material_is_the_padded_password_and_the_parameters() {
    let p = params(2, 40);
    let mut expected = b"pw".to_vec();
    expected.extend_from_slice(&PADDING[..30]);
    expected.extend_from_slice(&[0xAA; 32]);
    expected.extend_from_slice(&[0xFC, 0xFF, 0xFF, 0xFF]);
    expected.extend_from_slice(b"0123456789abcdef");
    assert_eq!(key_material_for(&p, b"pw"), expected);

    // Four bytes more where revision 4 leaves the metadata unencrypted.
    let mut p4 = params(4, 128);
    p4.encrypt_metadata = false;
    let mut longer = expected.clone();
    longer.extend_from_slice(&[0xFF; 4]);
    assert_eq!(key_material_for(&p4, b"pw"), longer);
    assert_eq!(key_material_for(&params(4, 128), b"pw"), expected);
}

#[test]
fn a_key_is_as_long_as_its_parameters_say_and_no_longer_than_the_digest() {
    let p = params(2, 40);
    let digest = Md5::digest(key_material_for(&p, b"pw")).to_vec();
    assert_eq!(compute_encryption_key(&p, b"pw"), digest[..5].to_vec());
    assert_eq!(compute_encryption_key(&params(2, 256), b"pw").len(), 16);
    // From revision 3 on the digest is taken fifty times more.
    let p3 = params(3, 128);
    let mut hash = Md5::digest(key_material_for(&p3, b"pw")).to_vec();
    for _ in 0..50 {
        hash = Md5::digest(&hash[..16]).to_vec();
    }
    assert_eq!(compute_encryption_key(&p3, b"pw"), hash);
}

#[test]
fn only_the_first_32_bytes_of_a_password_matter() {
    let long = [b'x'; 40];
    let p = params(3, 128);
    assert_eq!(
        compute_encryption_key(&p, &long),
        compute_encryption_key(&p, &long[..32])
    );
    assert_ne!(
        compute_encryption_key(&p, &long),
        compute_encryption_key(&p, &long[..31])
    );
}

#[test]
fn the_right_password_gives_the_key_and_a_wrong_one_does_not() {
    // Revision 2: /U is the padding encrypted with the key.
    let mut p = params(2, 40);
    let key = compute_encryption_key(&p, b"secret");
    p.user_hash = decrypt_rc4(&key, &PADDING);
    assert_eq!(authenticate_user_password(&p, b"secret"), Some(key));
    assert_eq!(authenticate_user_password(&p, b"Secret"), None);

    // Revision 3: a digest of the padding and the file id, twenty times encrypted.
    let mut p = params(3, 128);
    let key = compute_encryption_key(&p, b"secret");
    let mut seed = PADDING.to_vec();
    seed.extend_from_slice(&p.file_id);
    let mut check = Md5::digest(&seed).to_vec();
    for i in 0..20u8 {
        let round: Vec<u8> = key.iter().map(|b| b ^ i).collect();
        check = decrypt_rc4(&round, &check);
    }
    check.extend_from_slice(&[9; 16]); // arbitrary padding
    p.user_hash = check;
    assert_eq!(authenticate_user_password(&p, b"secret"), Some(key));
    assert_eq!(authenticate_user_password(&p, b""), None);
}

#[test]
fn a_user_hash_is_compared_as_its_revision_says() {
    let mut p = params(2, 40);
    p.user_hash = vec![7; 40];
    assert!(is_user_hash(&p, &[7; 32]));
    assert!(!is_user_hash(&p, &[7; 31]));
    p.user_hash = vec![7; 31];
    assert!(!is_user_hash(&p, &[7; 31]));

    let mut p = params(4, 128);
    p.user_hash = vec![7; 16];
    assert!(is_user_hash(&p, &[7; 16]));
    let mut other = vec![7; 16];
    other.push(8);
    assert!(is_user_hash(&p, &other));
    assert!(!is_user_hash(&p, &[8; 16]));
    p.user_hash = vec![7; 15];
    assert!(!is_user_hash(&p, &[7; 16]));

    let mut p = params(5, 128);
    p.user_hash = vec![7; 32];
    assert!(!is_user_hash(&p, &[7; 32]));
}

#[test]
fn an_object_key_is_made_of_the_file_key_and_the_object_number() {
    let material = object_key_material_for(&[1, 2, 3, 4, 5], 0x01020304, 0x0506, true);
    assert_eq!(
        material,
        vec![1, 2, 3, 4, 5, 4, 3, 2, 6, 5, b's', b'A', b'l', b'T']
    );
    assert_eq!(
        object_key(&[1, 2, 3, 4, 5], 0x01020304, 0x0506, true),
        Md5::digest(&material)[..10].to_vec()
    );
    assert_eq!(object_key(&[0; 16], 1, 0, false).len(), 16);
    assert_eq!(object_key(&[0; 11], 1, 0, false).len(), 16);
    assert_eq!(object_key(&[0; 10], 1, 0, false).len(), 15);
}

#[test]
fn a_password_of_another_revision_is_never_verified() {
    let mut p = params(5, 128);
    p.user_hash = vec![0; 32];
    assert_eq!(authenticate_user_password(&p, b""), None);
}

fn sample() -> PdfObject {
    let mut dict = PdfDict::new();
    dict.insert(b"Name".to_vec(), PdfObject::Name(b"N".to_vec()));
    dict.insert(b"Text".to_vec(), PdfObject::Str(b"secret".to_vec()));
    let mut stream_dict = PdfDict::new();
    stream_dict.insert(b"Key".to_vec(), PdfObject::Str(b"inner".to_vec()));
    PdfObject::Array(vec![
        PdfObject::Integer(1),
        PdfObject::Dict(dict),
        PdfObject::Stream(PdfStream {
            dict: stream_dict,
            raw_data: b"data".to_vec(),
        }),
        PdfObject::Reference(3, 0),
    ])
}

#[test]
fn strings_and_streams_are_decrypted_at_any_depth_and_nothing_else() {
    let key = b"0123456789";
    let mut object = sample();
    decrypt_object(&mut object, key, false);
    let PdfObject::Array(items) = &object else {
        panic!("still an array");
    };
    assert_eq!(items[0].as_i64(), Some(1));
    assert_eq!(items[3].as_reference(), Some((3, 0)));
    let dict = items[1].as_dict().expect("still a dictionary");
    let text = dict_get(dict, b"Text").and_then(|o| o.as_str_bytes());
    assert_eq!(text, Some(decrypt_rc4(key, b"secret").as_slice()));
    let name = dict_get(dict, b"Name").and_then(|o| o.as_name());
    assert_eq!(name, Some(b"N".as_slice()));
    let stream = items[2].as_stream().expect("still a stream");
    assert_eq!(stream.raw_data, decrypt_rc4(key, b"data"));
    // So are the strings in the dictionary of a stream.
    let in_dict = dict_get(&stream.dict, b"Key").and_then(|o| o.as_str_bytes());
    assert_eq!(in_dict, Some(decrypt_rc4(key, b"inner").as_slice()));

    // RC4 is symmetric.
    decrypt_object(&mut object, key, false);
    assert_eq!(format!("{object:?}"), format!("{:?}", sample()));
}

#[test]
fn data_that_aes_does_not_decrypt_stays() {
    let mut object = sample();
    decrypt_object(&mut object, &[1; 16], true);
    assert_eq!(format!("{object:?}"), format!("{:?}", sample()));
    // A string that is a vector and nothing more decrypts to nothing.
    let mut text = PdfObject::Str(vec![0; 16]);
    decrypt_object(&mut text, &[1; 16], true);
    assert_eq!(text.as_str_bytes(), Some(b"".as_slice()));
}

#[test]
fn a_stream_is_decrypted_together_with_its_dictionary() {
    let mut dict = PdfDict::new();
    dict.insert(b"A".to_vec(), PdfObject::Str(vec![0; 16]));
    let mut object = PdfObject::Stream(PdfStream {
        dict,
        raw_data: vec![0; 16],
    });
    decrypt_object(&mut object, &[0; 16], true);
    let stream = object.as_stream().expect("still a stream");
    assert_eq!(stream.raw_data, Vec::<u8>::new());
    assert_eq!(
        dict_get(&stream.dict, b"A").and_then(|o| o.as_str_bytes()),
        Some(b"".as_slice())
    );
}
