//! PDF decryption support (Standard Security Handler, R2-R4).
//!
//! Password verification and key derivation, plus per-object decryption using RC4 or
//! AES-128-CBC.

use vstd::prelude::*;
use vstd::string::*;

use super::ascii::same_bytes;
use super::cipher;
use super::cipher::{aes128_cbc_pkcs7, aes128_cbc_unpadded, md5, rc4_apply};
use super::object::copy_bytes;

verus! {

/// PDF encryption parameters parsed from the /Encrypt dictionary.
#[derive(Debug)]
pub struct EncryptionParams {
    /// /V: algorithm version (1, 2, or 4 for R2-R4).
    pub version: u32,
    /// /R: Standard security handler revision (2, 3, or 4).
    pub revision: u32,
    /// /Length: encryption key length in bits (default 40).
    pub key_length: u32,
    /// /O: owner password hash (32 bytes for R2-R4).
    pub owner_hash: Vec<u8>,
    /// /U: user password hash (32 bytes for R2-R4).
    pub user_hash: Vec<u8>,
    /// /P: permissions flags.
    pub permissions: i32,
    /// First element of trailer /ID array.
    pub file_id: Vec<u8>,
    /// Whether to use AES (true for R4 where the filter named by /StmF or the one named by
    /// /StrF is /AESV2).
    pub use_aes: bool,
    /// Whether document metadata is encrypted (/EncryptMetadata, default true).
    pub encrypt_metadata: bool,
}

/// What [`EncryptionParams`] hold.
pub struct ParamsSpec {
    pub version: u32,
    pub revision: u32,
    pub key_length: u32,
    pub owner_hash: Seq<u8>,
    pub user_hash: Seq<u8>,
    pub permissions: i32,
    pub file_id: Seq<u8>,
    pub use_aes: bool,
    pub encrypt_metadata: bool,
}

impl View for EncryptionParams {
    type V = ParamsSpec;

    open spec fn view(&self) -> ParamsSpec {
        ParamsSpec {
            version: self.version,
            revision: self.revision,
            key_length: self.key_length,
            owner_hash: self.owner_hash@,
            user_hash: self.user_hash@,
            permissions: self.permissions,
            file_id: self.file_id@,
            use_aes: self.use_aes,
            encrypt_metadata: self.encrypt_metadata,
        }
    }
}

impl Clone for EncryptionParams {
    fn clone(&self) -> (r: EncryptionParams)
        ensures
            r@ == self@,
    {
        EncryptionParams {
            version: self.version,
            revision: self.revision,
            key_length: self.key_length,
            owner_hash: copy_bytes(self.owner_hash.as_slice()),
            user_hash: copy_bytes(self.user_hash.as_slice()),
            permissions: self.permissions,
            file_id: copy_bytes(self.file_id.as_slice()),
            use_aes: self.use_aes,
            encrypt_metadata: self.encrypt_metadata,
        }
    }
}

/// The standard 32-byte padding that completes a short password.
pub const PADDING: [u8; 32] = [
    0x28, 0xBF, 0x4E, 0x5E, 0x4E, 0x75, 0x8A, 0x41, 0x64, 0x00, 0x4E, 0x56, 0xFF, 0xFA, 0x01, 0x08,
    0x2E, 0x2E, 0x00, 0xB6, 0xD0, 0x68, 0x3E, 0x80, 0x2F, 0x0C, 0xA9, 0xFE, 0x64, 0x53, 0x69, 0x7A,
];

/// `password` cut or padded to 32 bytes.
pub open spec fn padded_password(password: Seq<u8>) -> Seq<u8> {
    if password.len() >= 32 {
        password.take(32)
    } else {
        password + PADDING@.take(32 - password.len())
    }
}

/// The `n` lowest bytes of `v`, the lowest first.
pub open spec fn le_bytes(v: nat, n: nat) -> Seq<u8>
    decreases n,
{
    if n == 0 {
        Seq::empty()
    } else {
        seq![(v % 256) as u8] + le_bytes(v / 256, (n - 1) as nat)
    }
}

/// A 32-bit number in two's complement.
pub open spec fn twos_complement(p: i32) -> nat {
    if p < 0 {
        (p + 0x1_0000_0000) as nat
    } else {
        p as nat
    }
}

/// What the file key is derived from: the padded password, /O, /P, the file id, and four bytes
/// of 0xFF where a revision 4 document leaves its metadata unencrypted.
pub open spec fn key_material(params: ParamsSpec, password: Seq<u8>) -> Seq<u8> {
    padded_password(password) + params.owner_hash + le_bytes(
        twos_complement(params.permissions),
        4,
    ) + params.file_id + (if params.revision >= 4 && !params.encrypt_metadata {
        seq![0xFFu8, 0xFF, 0xFF, 0xFF]
    } else {
        Seq::empty()
    })
}

/// `hash` put through the digest `n` more times, each time only its first `key_len` bytes.
pub open spec fn rehashed(hash: Seq<u8>, key_len: int, n: nat) -> Seq<u8>
    decreases n,
{
    if n == 0 {
        hash
    } else {
        cipher::md5_digest(rehashed(hash, key_len, (n - 1) as nat).take(key_len))
    }
}

/// The key length in bytes.
pub open spec fn key_len(params: ParamsSpec) -> int {
    params.key_length as int / 8
}

/// The file encryption key for `password`.
pub open spec fn file_key(params: ParamsSpec, password: Seq<u8>) -> Seq<u8> {
    let first = cipher::md5_digest(key_material(params, password));
    let hash = if params.revision >= 3 {
        rehashed(first, key_len(params), 50)
    } else {
        first
    };
    cut(hash, key_len(params))
}

/// The first `n` bytes of `s`, or all of it where it has no more.
pub open spec fn cut(s: Seq<u8>, n: int) -> Seq<u8> {
    if n <= s.len() {
        s.take(n)
    } else {
        s
    }
}

/// Whether a file key can be derived: from revision 3 on, the digest has no more than sixteen
/// bytes to give.
pub open spec fn derivable(params: ParamsSpec) -> bool {
    params.revision >= 3 ==> key_len(params) <= 16
}

/// Whether a password can be verified: a file key can be derived and, for the revisions that
/// verify one, it is not empty.
pub open spec fn verifiable(params: ParamsSpec) -> bool {
    derivable(params) && (2 <= params.revision <= 4 ==> key_len(params) >= 1)
}

/// `key` with each byte combined with `i`.
pub open spec fn xored(key: Seq<u8>, i: u8) -> Seq<u8> {
    Seq::new(key.len(), |j: int| key[j] ^ i)
}

/// `data` encrypted with `key`, then `n` more times with the key combined with 1, 2, ... `n`.
pub open spec fn rc4_rounds(key: Seq<u8>, data: Seq<u8>, n: nat) -> Seq<u8>
    decreases n,
{
    if n == 0 {
        cipher::rc4(key, data)
    } else {
        cipher::rc4(xored(key, n as u8), rc4_rounds(key, data, (n - 1) as nat))
    }
}

/// What a key has to encrypt for the document's /U entry to be reproduced: the padding for
/// revision 2, a digest of the padding and the file id for revisions 3 and 4.
pub open spec fn user_check(params: ParamsSpec, key: Seq<u8>) -> Seq<u8> {
    if params.revision == 2 {
        cipher::rc4(key, PADDING@)
    } else {
        rc4_rounds(key, cipher::md5_digest(PADDING@ + params.file_id), 19)
    }
}

/// Whether `encrypted` is the document's /U entry: all of it for revision 2, its first sixteen
/// bytes for revisions 3 and 4. For another revision nothing is.
pub open spec fn matches_user_hash(params: ParamsSpec, encrypted: Seq<u8>) -> bool {
    let u = params.user_hash;
    if params.revision == 2 {
        u.len() >= 32 && encrypted == u.take(32)
    } else if 3 <= params.revision <= 4 {
        encrypted.len() >= 16 && u.len() >= 16 && encrypted.take(16) == u.take(16)
    } else {
        false
    }
}

/// Whether `key` reproduces the document's /U entry.
pub open spec fn opens(params: ParamsSpec, key: Seq<u8>) -> bool {
    matches_user_hash(params, user_check(params, key))
}

/// The file key, when `password` is the document's user password.
pub open spec fn authenticated(params: ParamsSpec, password: Seq<u8>) -> Option<Seq<u8>> {
    if opens(params, file_key(params, password)) {
        Some(file_key(params, password))
    } else {
        None
    }
}

/// Appends all of `s`.
pub fn append_bytes(out: &mut Vec<u8>, s: &[u8])
    ensures
        final(out)@ == old(out)@ + s@,
{
    out.extend_from_slice(s);
    assert(out@ =~= old(out)@ + s@);
}

/// Appends the `n` lowest bytes of `v`, the lowest first.
fn append_le(out: &mut Vec<u8>, v: u32, n: usize)
    ensures
        final(out)@ == old(out)@ + le_bytes(v as nat, n as nat),
    decreases n,
{
    if n > 0 {
        out.push((v % 256) as u8);
        append_le(out, v / 256, n - 1);
    }
    assert(out@ =~= old(out)@ + le_bytes(v as nat, n as nat));
}

/// What the file key is derived from: the padded password, /O, /P, the file id, and four bytes
/// of 0xFF where a revision 4 document leaves its metadata unencrypted.
pub fn key_material_for(params: &EncryptionParams, password: &[u8]) -> (material: Vec<u8>)
    ensures
        material@ == key_material(params@, password@),
{
    // Pad or truncate the password to exactly 32 bytes.
    let mut material: Vec<u8> = Vec::new();
    if password.len() >= 32 {
        append_bytes(&mut material, vstd::slice::slice_subrange(password, 0, 32));
    } else {
        append_bytes(&mut material, password);
        append_bytes(
            &mut material,
            vstd::slice::slice_subrange(PADDING.as_slice(), 0, 32 - password.len()),
        );
    }
    assert(material@ =~= padded_password(password@));

    append_bytes(&mut material, params.owner_hash.as_slice());
    let permissions: u32 = if params.permissions < 0 {
        (params.permissions as i64 + 0x1_0000_0000) as u32
    } else {
        params.permissions as u32
    };
    append_le(&mut material, permissions, 4);
    append_bytes(&mut material, params.file_id.as_slice());
    if params.revision >= 4 && !params.encrypt_metadata {
        material.push(0xFF);
        material.push(0xFF);
        material.push(0xFF);
        material.push(0xFF);
    }
    assert(material@ =~= key_material(params@, password@));
    material
}

/// Derive the file encryption key from a user password.
/// Works for Standard Security Handler R2-R4.
pub fn compute_encryption_key(params: &EncryptionParams, password: &[u8]) -> (key: Vec<u8>)
    requires
        derivable(params@),
    ensures
        key@ == file_key(params@, password@),
        key@.len() == (if key_len(params@) <= 16 {
            key_len(params@)
        } else {
            16
        }),
{
    let key_len = (params.key_length / 8) as usize;

    let material = key_material_for(params, password);
    let mut hash = md5(material.as_slice());

    // For R >= 3, re-hash 50 times (using only key_len bytes).
    if params.revision >= 3 {
        let ghost first = hash@;
        let mut i: u32 = 0;
        while i < 50
            invariant
                i <= 50,
                key_len <= 16,
                hash@.len() == 16,
                hash@ == rehashed(first, key_len as int, i as nat),
            decreases 50 - i,
        {
            hash = md5(vstd::slice::slice_subrange(hash.as_slice(), 0, key_len));
            i += 1;
        }
    }
    hash.truncate(key_len);
    hash
}

/// Verify user password and return the encryption key if correct.
pub fn authenticate_user_password(params: &EncryptionParams, password: &[u8]) -> (key: Option<
    Vec<u8>,
>)
    requires
        verifiable(params@),
    ensures
        match key {
            Some(key) => authenticated(params@, password@) == Some(key@) && 1 <= key@.len() <= 16,
            None => authenticated(params@, password@) is None,
        },
{
    let key = compute_encryption_key(params, password);
    let matched = if params.revision == 2 {
        // RC4-encrypt the 32-byte padding with the key.
        let encrypted = rc4_crypt(key.as_slice(), PADDING.as_slice());
        is_user_hash(params, encrypted.as_slice())
    } else if params.revision >= 3 && params.revision <= 4 {
        // MD5(padding || fileID), then 20 rounds of RC4.
        let mut seed: Vec<u8> = Vec::new();
        append_bytes(&mut seed, PADDING.as_slice());
        append_bytes(&mut seed, params.file_id.as_slice());
        assert(seed@ =~= PADDING@ + params.file_id@);
        let hash = md5(seed.as_slice());
        let mut encrypted = rc4_crypt(key.as_slice(), hash.as_slice());

        // 19 additional RC4 passes with XOR-modified keys.
        let mut i: u8 = 0;
        while i < 19
            invariant
                i <= 19,
                1 <= key@.len() <= 16,
                encrypted@ == rc4_rounds(key@, hash@, i as nat),
            decreases 19 - i,
        {
            i += 1;
            let modified_key = xor_key(key.as_slice(), i);
            encrypted = rc4_crypt(modified_key.as_slice(), encrypted.as_slice());
        }
        is_user_hash(params, encrypted.as_slice())
    } else {
        false
    };
    if matched {
        Some(key)
    } else {
        None
    }
}

/// Whether `encrypted` is the document's /U entry: all of it for revision 2, its first sixteen
/// bytes for revisions 3 and 4, the rest of which is arbitrary padding.
pub fn is_user_hash(params: &EncryptionParams, encrypted: &[u8]) -> (r: bool)
    ensures
        r == matches_user_hash(params@, encrypted@),
{
    if params.revision == 2 {
        params.user_hash.len() >= 32 && same_bytes(
            encrypted,
            vstd::slice::slice_subrange(params.user_hash.as_slice(), 0, 32),
        )
    } else if params.revision >= 3 && params.revision <= 4 {
        encrypted.len() >= 16 && params.user_hash.len() >= 16 && same_bytes(
            vstd::slice::slice_subrange(encrypted, 0, 16),
            vstd::slice::slice_subrange(params.user_hash.as_slice(), 0, 16),
        )
    } else {
        false
    }
}

/// RC4 encrypt/decrypt (symmetric operation).
fn rc4_crypt(key: &[u8], data: &[u8]) -> (out: Vec<u8>)
    requires
        1 <= key@.len() <= 256,
    ensures
        out@ == cipher::rc4(key@, data@),
{
    let out = rc4_apply(key, data);
    assert(out@ =~= cipher::rc4(key@, data@));
    out
}

/// `key` with each byte combined with `i`.
fn xor_key(key: &[u8], i: u8) -> (out: Vec<u8>)
    ensures
        out@ == xored(key@, i),
{
    let mut out: Vec<u8> = Vec::new();
    let mut j: usize = 0;
    while j < key.len()
        invariant
            j <= key@.len(),
            out@ =~= xored(key@, i).take(j as int),
        decreases key@.len() - j,
    {
        out.push(key[j] ^ i);
        j += 1;
    }
    out
}

/// What the key of one object is derived from: the file key, three bytes of the object number,
/// two of the generation number and, for AES, `sAlT`.
pub open spec fn object_key_material(
    file_key: Seq<u8>,
    obj_num: u32,
    gen_num: u16,
    use_aes: bool,
) -> Seq<u8> {
    file_key + le_bytes(obj_num as nat, 3) + le_bytes(gen_num as nat, 2) + (if use_aes {
        "sAlT".spec_bytes()
    } else {
        Seq::empty()
    })
}

/// The key of one object: at most five bytes longer than the file key, and sixteen at most.
pub open spec fn object_key_spec(
    file_key: Seq<u8>,
    obj_num: u32,
    gen_num: u16,
    use_aes: bool,
) -> Seq<u8> {
    cut(
        cipher::md5_digest(object_key_material(file_key, obj_num, gen_num, use_aes)),
        (file_key.len() + 5) as int,
    )
}

/// What the key of one object is derived from.
pub fn object_key_material_for(
    file_key: &[u8],
    obj_num: u32,
    gen_num: u16,
    use_aes: bool,
) -> (material: Vec<u8>)
    ensures
        material@ == object_key_material(file_key@, obj_num, gen_num, use_aes),
{
    let mut material: Vec<u8> = Vec::new();
    append_bytes(&mut material, file_key);
    append_le(&mut material, obj_num, 3);
    append_le(&mut material, gen_num as u32, 2);
    if use_aes {
        // A salt that keeps AES keys apart from RC4 keys.
        append_bytes(&mut material, "sAlT".as_bytes());
    }
    assert(material@ =~= object_key_material(file_key@, obj_num, gen_num, use_aes));
    material
}

/// Compute per-object decryption key.
///
/// file_key + obj_num (3 LE bytes) + gen_num (2 LE bytes) [+ "sAlT" for AES]
/// hashed with MD5, truncated to min(file_key.len()+5, 16).
pub fn object_key(file_key: &[u8], obj_num: u32, gen_num: u16, use_aes: bool) -> (key: Vec<u8>)
    ensures
        key@ == object_key_spec(file_key@, obj_num, gen_num, use_aes),
        key@.len() == (if file_key@.len() + 5 <= 16 {
            file_key@.len() + 5
        } else {
            16
        }),
{
    let material = object_key_material_for(file_key, obj_num, gen_num, use_aes);
    let mut hash = md5(material.as_slice());
    if file_key.len() < 11 {
        hash.truncate(file_key.len() + 5);
    } else {
        assert(hash@.take(16) =~= hash@);
    }
    hash
}

/// Decrypt a byte sequence using RC4.
pub fn decrypt_rc4(key: &[u8], data: &[u8]) -> (out: Vec<u8>)
    requires
        1 <= key@.len() <= 256,
    ensures
        out@ == cipher::rc4(key@, data@),
{
    rc4_crypt(key, data)
}

/// What `data`, an initialisation vector and then ciphertext, decrypts to under AES-128-CBC:
/// without its padding where that is valid PKCS#7, whole where it is not. Nothing where the
/// lengths are not those of a vector and whole blocks, or, when there is ciphertext at all,
/// where the key is not sixteen bytes long.
pub open spec fn aes128_decrypted(key: Seq<u8>, data: Seq<u8>) -> Option<Seq<u8>> {
    if data.len() < 16 || data.len() % 16 != 0 {
        None
    } else if data.len() == 16 {
        Some(Seq::empty())
    } else if key.len() != 16 {
        None
    } else {
        let plain = cipher::aes128_cbc(key, data.take(16), data.skip(16));
        match cipher::pkcs7_unpadded(plain) {
            Some(unpadded) => Some(unpadded),
            None => Some(plain),
        }
    }
}

/// Decrypt a byte sequence using AES-128-CBC.
/// The first 16 bytes of `data` are the IV; the remainder is ciphertext.
pub fn decrypt_aes128(key: &[u8], data: &[u8]) -> (out: Option<Vec<u8>>)
    ensures
        match out {
            Some(out) => aes128_decrypted(key@, data@) == Some(out@) && out@.len() <= data@.len()
                - 16,
            None => aes128_decrypted(key@, data@) is None,
        },
{
    if data.len() < 16 || data.len() % 16 != 0 {
        return None;
    }
    let iv = vstd::slice::slice_subrange(data, 0, 16);
    let ciphertext = vstd::slice::slice_subrange(data, 16, data.len());
    assert(iv@ =~= data@.take(16));
    assert(ciphertext@ =~= data@.skip(16));
    if ciphertext.len() == 0 {
        return Some(Vec::new());
    }
    // Try PKCS7 first; some PDFs omit the padding.
    match aes128_cbc_pkcs7(key, iv, ciphertext) {
        Some(plain) => Some(plain),
        None => aes128_cbc_unpadded(key, iv, ciphertext),
    }
}

} // verus!
