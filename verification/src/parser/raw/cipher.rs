//! The digest and the ciphers that PDF encryption is built from, as other crates provide them.

use cbc::cipher::block_padding::{NoPadding, Pkcs7};
use cbc::cipher::{BlockModeDecrypt, KeyIvInit};
use md5::{Digest, Md5};
use rc4::{KeyInit, Rc4, StreamCipher};
use vstd::prelude::*;

verus! {

/// The MD5 digest of `data`.
pub uninterp spec fn md5_digest(data: Seq<u8>) -> Seq<u8>;

/// `md5::Md5::digest`: the digest is a function of the data, sixteen bytes long.
#[verifier::external_body]
pub(crate) fn md5(data: &[u8]) -> (digest: Vec<u8>)
    ensures
        digest@ == md5_digest(data@),
        digest@.len() == 16,
{
    Md5::digest(data).to_vec()
}

/// The `i`-th byte of the RC4 keystream of `key`.
pub uninterp spec fn rc4_keystream(key: Seq<u8>, i: int) -> u8;

/// `data` combined with the keystream of `key`.
pub open spec fn rc4(key: Seq<u8>, data: Seq<u8>) -> Seq<u8> {
    Seq::new(data.len(), |i: int| data[i] ^ rc4_keystream(key, i))
}

/// `rc4::Rc4`, made from a key of 1 to 256 bytes and applied once, from the start of its
/// keystream: each byte is combined by exclusive or with the keystream byte at its position,
/// and the keystream depends on the key alone.
#[verifier::external_body]
pub(crate) fn rc4_apply(key: &[u8], data: &[u8]) -> (out: Vec<u8>)
    requires
        1 <= key@.len() <= 256,
    ensures
        out@.len() == data@.len(),
        forall|i: int|
            0 <= i < data@.len() ==> #[trigger] out@[i] == data@[i] ^ rc4_keystream(key@, i),
{
    let mut cipher = Rc4::new_from_slice(key).expect("RC4 key length 1-256");
    let mut output = data.to_vec();
    cipher.apply_keystream(&mut output);
    output
}

/// What AES-128 in CBC mode decrypts `ciphertext` to, padding left in place.
pub uninterp spec fn aes128_cbc(key: Seq<u8>, iv: Seq<u8>, ciphertext: Seq<u8>) -> Seq<u8>;

/// Whether the lengths are those that AES-128 in CBC mode takes: a key and an initialisation
/// vector of sixteen bytes each, and a whole number of blocks.
pub open spec fn aes_lengths(key: Seq<u8>, iv: Seq<u8>, ciphertext: Seq<u8>) -> bool {
    key.len() == 16 && iv.len() == 16 && ciphertext.len() % 16 == 0
}

/// `plain` without its PKCS#7 padding: as many last bytes as each of them says, at most a
/// block of sixteen.
pub open spec fn pkcs7_unpadded(plain: Seq<u8>) -> Option<Seq<u8>> {
    if plain.len() == 0 {
        None
    } else {
        let n = plain.last() as int;
        if 1 <= n <= 16 && n <= plain.len() && forall|i: int|
            plain.len() - n <= i < plain.len() ==> #[trigger] plain[i] == n {
            Some(plain.take(plain.len() - n))
        } else {
            None
        }
    }
}

/// `cbc::Decryptor<aes::Aes128>` with `decrypt_padded::<NoPadding>`: fails exactly on lengths
/// that the cipher does not take; what it decrypts to is a function of the key, the vector
/// and the ciphertext, and as long as the ciphertext.
#[verifier::external_body]
pub(crate) fn aes128_cbc_unpadded(key: &[u8], iv: &[u8], ciphertext: &[u8]) -> (out: Option<Vec<u8>>)
    ensures
        match out {
            Some(plain) => aes_lengths(key@, iv@, ciphertext@) && plain@ == aes128_cbc(
                key@,
                iv@,
                ciphertext@,
            ) && plain@.len() == ciphertext@.len(),
            None => !aes_lengths(key@, iv@, ciphertext@),
        },
{
    let mut buf = ciphertext.to_vec();
    let decryptor = cbc::Decryptor::<aes::Aes128>::new_from_slices(key, iv).ok()?;
    decryptor.decrypt_padded::<NoPadding>(&mut buf).ok().map(<[u8]>::to_vec)
}

/// `cbc::Decryptor<aes::Aes128>` with `decrypt_padded::<Pkcs7>`: decrypts as
/// [`aes128_cbc_unpadded`] does, to as many bytes as the ciphertext has, and takes the padding
/// off the last block, failing where that block does not end in valid padding.
#[verifier::external_body]
pub(crate) fn aes128_cbc_pkcs7(key: &[u8], iv: &[u8], ciphertext: &[u8]) -> (out: Option<Vec<u8>>)
    ensures
        match out {
            Some(plain) => aes_lengths(key@, iv@, ciphertext@) && aes128_cbc(
                key@,
                iv@,
                ciphertext@,
            ).len() == ciphertext@.len() && pkcs7_unpadded(aes128_cbc(key@, iv@, ciphertext@))
                == Some(plain@),
            None => !aes_lengths(key@, iv@, ciphertext@) || aes128_cbc(
                key@,
                iv@,
                ciphertext@,
            ).len() == ciphertext@.len() && pkcs7_unpadded(
                aes128_cbc(key@, iv@, ciphertext@),
            ) is None,
        },
{
    let mut buf = ciphertext.to_vec();
    let decryptor = cbc::Decryptor::<aes::Aes128>::new_from_slices(key, iv).ok()?;
    decryptor.decrypt_padded::<Pkcs7>(&mut buf).ok().map(<[u8]>::to_vec)
}

/// Combining twice with one keystream gives back the data.
pub proof fn rc4_undoes_itself(key: Seq<u8>, data: Seq<u8>)
    ensures
        rc4(key, rc4(key, data)) == data,
{
    assert forall|i: int| 0 <= i < data.len() implies #[trigger] rc4(key, rc4(key, data))[i]
        == data[i] by {
        let b = data[i];
        let k = rc4_keystream(key, i);
        assert((b ^ k) ^ k == b) by (bit_vector);
    }
    assert(rc4(key, rc4(key, data)) =~= data);
}

} // verus!
