//! What keys are made of, byte by byte, and what opens a document.

use vstd::prelude::*;
use vstd::string::*;

use super::cipher;
use super::crypt;
use super::crypt::{EncryptionParams, ParamsSpec};

verus! {

/// The bytes that complete a short password.
pub open spec fn standard_padding() -> Seq<u8> {
    seq![
        0x28u8, 0xBF, 0x4E, 0x5E, 0x4E, 0x75, 0x8A, 0x41, 0x64, 0x00, 0x4E, 0x56, 0xFF, 0xFA, 0x01,
        0x08, 0x2E, 0x2E, 0x00, 0xB6, 0xD0, 0x68, 0x3E, 0x80, 0x2F, 0x0C, 0xA9, 0xFE, 0x64, 0x53,
        0x69, 0x7A,
    ]
}

proof fn lemma_padding()
    ensures
        crypt::PADDING@ == standard_padding(),
        standard_padding().len() == 32,
{
    assert(crypt::PADDING@ =~= standard_padding());
}

/// A number is the sum of its bytes, each times a power of 256.
proof fn lemma_le_bytes(v: nat)
    ensures
        crypt::le_bytes(v, 2).len() == 2,
        crypt::le_bytes(v, 3).len() == 3,
        crypt::le_bytes(v, 4).len() == 4,
        crypt::le_bytes(v, 2)[0] == v % 256,
        crypt::le_bytes(v, 2)[1] == v / 256 % 256,
        crypt::le_bytes(v, 3)[0] == v % 256,
        crypt::le_bytes(v, 3)[1] == v / 256 % 256,
        crypt::le_bytes(v, 3)[2] == v / 65536 % 256,
        crypt::le_bytes(v, 4)[0] == v % 256,
        crypt::le_bytes(v, 4)[1] == v / 256 % 256,
        crypt::le_bytes(v, 4)[2] == v / 65536 % 256,
        crypt::le_bytes(v, 4)[3] == v / 16777216 % 256,
{
    reveal_with_fuel(crypt::le_bytes, 5);
    assert(v / 256 / 256 == v / 65536);
    assert(v / 256 / 256 / 256 == v / 16777216);
}

/// The password that goes into a key has 32 bytes: those of the password as far as it goes, and
/// then those of the padding from its start.
pub proof fn a_password_is_completed_from_the_start_of_the_padding(password: Seq<u8>)
    ensures
        crypt::padded_password(password).len() == 32,
        forall|i: int|
            0 <= i < 32 && i < password.len() ==> #[trigger] crypt::padded_password(password)[i]
                == password[i],
        forall|i: int|
            password.len() <= i < 32 ==> #[trigger] crypt::padded_password(password)[i]
                == standard_padding()[i - password.len()],
{
    lemma_padding();
}

/// The material of the file key, byte by byte: 32 bytes of the completed password, all of /O,
/// four bytes that add up to /P modulo 2^32 (the lowest first), all of the file id, and four
/// bytes of 0xFF exactly where a document of revision 4 or later leaves its metadata
/// unencrypted.
pub proof fn key_material_is_made_of_its_parts(params: ParamsSpec, password: Seq<u8>)
    ensures
        ({
            let m = crypt::key_material(params, password);
            let o = params.owner_hash.len() as int;
            let f = params.file_id.len() as int;
            let open = params.revision >= 4 && !params.encrypt_metadata;
            &&& m.len() == 36 + o + f + (if open {
                4int
            } else {
                0int
            })
            &&& forall|i: int| 0 <= i < 32 && i < password.len() ==> #[trigger] m[i] == password[i]
            &&& forall|i: int|
                password.len() <= i < 32 ==> #[trigger] m[i] == standard_padding()[i
                    - password.len()]
            &&& forall|i: int| 0 <= i < o ==> m[32 + i] == #[trigger] params.owner_hash[i]
            &&& (m[32 + o] + 256 * m[33 + o] + 65536 * m[34 + o] + 16777216 * m[35 + o]
                - params.permissions) % 0x1_0000_0000 == 0
            &&& forall|i: int| 0 <= i < f ==> m[36 + o + i] == #[trigger] params.file_id[i]
            &&& open ==> m[36 + o + f] == 0xFF && m[37 + o + f] == 0xFF && m[38 + o + f] == 0xFF
                && m[39 + o + f] == 0xFF
        }),
{
    a_password_is_completed_from_the_start_of_the_padding(password);
    let p = crypt::twos_complement(params.permissions);
    lemma_le_bytes(p);
    let b = crypt::le_bytes(p, 4);
    let o = params.owner_hash.len() as int;
    let m = crypt::key_material(params, password);
    assert(m[32 + o] == b[0] && m[33 + o] == b[1] && m[34 + o] == b[2] && m[35 + o] == b[3]);
    assert(b[0] + 256 * b[1] + 65536 * b[2] + 16777216 * b[3] == p) by {
        assert(p < 0x1_0000_0000);
    }
    assert(p - params.permissions == 0 || p - params.permissions == 0x1_0000_0000);
    assert forall|i: int| 0 <= i < 32 && i < password.len() implies #[trigger] m[i]
        == password[i] by {
        assert(m[i] == crypt::padded_password(password)[i]);
    }
    assert forall|i: int| password.len() <= i < 32 implies #[trigger] m[i] == standard_padding()[i
        - password.len()] by {
        assert(m[i] == crypt::padded_password(password)[i]);
    }
}

/// Parameters that differ in /P have different key material.
pub proof fn permissions_change_the_key_material(a: ParamsSpec, b: ParamsSpec, password: Seq<u8>)
    requires
        a.owner_hash.len() == b.owner_hash.len(),
        a.permissions != b.permissions,
    ensures
        crypt::key_material(a, password) != crypt::key_material(b, password),
{
    key_material_is_made_of_its_parts(a, password);
    key_material_is_made_of_its_parts(b, password);
}

/// The file key is the start of a digest: of the digest of the key material for revision 2, and
/// from revision 3 on of the last of fifty more digests, each of the start of the one before.
///
/// `hashes` are those digests: the first one of the key material, each other one of the first
/// bytes of the one before it.
pub proof fn the_file_key_is_the_start_of_a_digest(
    params: ParamsSpec,
    password: Seq<u8>,
    hashes: Seq<Seq<u8>>,
)
    requires
        hashes.len() == 51,
        hashes[0] == cipher::md5_digest(crypt::key_material(params, password)),
        forall|i: int, j: int|
            0 <= i < 50 && j == i + 1 ==> #[trigger] hashes[j] == cipher::md5_digest(
                (#[trigger] hashes[i]).take(params.key_length as int / 8),
            ),
        hashes[0].len() == 16,
        hashes[50].len() == 16,
    ensures
        ({
            let n = params.key_length as int / 8;
            let last = if params.revision < 3 {
                hashes[0]
            } else {
                hashes[50]
            };
            crypt::file_key(params, password) == last.take(
                if n < 16 {
                    n
                } else {
                    16
                },
            )
        }),
{
    lemma_rehashed(hashes, params.key_length as int / 8, 50);
    assert(hashes[0].take(16) =~= hashes[0]);
    assert(hashes[50].take(16) =~= hashes[50]);
}

proof fn lemma_rehashed(hashes: Seq<Seq<u8>>, len: int, n: int)
    requires
        0 <= n < hashes.len(),
        forall|i: int, j: int|
            0 <= i < hashes.len() - 1 && j == i + 1 ==> #[trigger] hashes[j] == cipher::md5_digest(
                (#[trigger] hashes[i]).take(len),
            ),
    ensures
        crypt::rehashed(hashes[0], len, n as nat) == hashes[n],
    decreases n,
{
    if n > 0 {
        lemma_rehashed(hashes, len, n - 1);
        assert(hashes[n] == cipher::md5_digest(hashes[n - 1].take(len)));
    }
}

/// A document of revision 2 opens with a password exactly when its key, as RC4, turns the
/// padding into the first 32 bytes of /U. The key is then the file key.
pub proof fn what_opens_revision_two(params: ParamsSpec, password: Seq<u8>)
    requires
        params.revision == 2,
    ensures
        ({
            let key = crypt::file_key(params, password);
            &&& crypt::authenticated(params, password) is Some <==> params.user_hash.len() >= 32
                && forall|i: int|
                0 <= i < 32 ==> #[trigger] params.user_hash[i] == standard_padding()[i]
                    ^ cipher::rc4_keystream(key, i)
            &&& crypt::authenticated(params, password) matches Some(k) ==> k == key
        }),
{
    lemma_padding();
    let key = crypt::file_key(params, password);
    let check = cipher::rc4(key, crypt::PADDING@);
    let u = params.user_hash;
    if u.len() >= 32 {
        if check == u.take(32) {
            assert forall|i: int| 0 <= i < 32 implies #[trigger] u[i] == standard_padding()[i]
                ^ cipher::rc4_keystream(key, i) by {
                assert(u.take(32)[i] == check[i]);
            }
        }
        if forall|i: int|
            0 <= i < 32 ==> #[trigger] u[i] == standard_padding()[i] ^ cipher::rc4_keystream(
                key,
                i,
            ) {
            assert forall|i: int| 0 <= i < 32 implies u.take(32)[i] == #[trigger] check[i] by {
                assert(u[i] == standard_padding()[i] ^ cipher::rc4_keystream(key, i));
            }
            assert(check =~= u.take(32));
        }
    }
}

/// A document of revision 3 or 4 opens with a password exactly when its key turns a digest of
/// the padding and the file id into the first sixteen bytes of /U: encrypted with the key and
/// then nineteen more times, with each byte of the key combined with 1, 2 and so on. What /U
/// holds after those sixteen bytes does not matter.
///
/// `rounds` are what that digest is turned into, after the first key and each of the others.
pub proof fn what_opens_revisions_three_and_four(
    params: ParamsSpec,
    password: Seq<u8>,
    rounds: Seq<Seq<u8>>,
)
    requires
        params.revision == 3 || params.revision == 4,
        rounds.len() == 20,
        ({
            let key = crypt::file_key(params, password);
            let seed = cipher::md5_digest(standard_padding() + params.file_id);
            &&& seed.len() == 16
            &&& rounds[0].len() == 16
            &&& forall|k: int|
                0 <= k < 16 ==> #[trigger] rounds[0][k] == seed[k] ^ cipher::rc4_keystream(key, k)
            &&& forall|i: int, j: int|
                0 <= i < 19 && j == i + 1 ==> (#[trigger] rounds[j]).len() == (
                #[trigger] rounds[i]).len() && forall|k: int|
                    0 <= k < 16 ==> #[trigger] rounds[j][k] == rounds[i][k] ^ cipher::rc4_keystream(
                        Seq::new(key.len(), |b: int| key[b] ^ (j as u8)),
                        k,
                    )
        }),
    ensures
        crypt::authenticated(params, password) is Some <==> params.user_hash.len() >= 16 && forall|
            i: int,
        |
            0 <= i < 16 ==> #[trigger] params.user_hash[i] == rounds[19][i],
        crypt::authenticated(params, password) matches Some(k) ==> k == crypt::file_key(
            params,
            password,
        ),
{
    lemma_padding();
    let key = crypt::file_key(params, password);
    let seed = cipher::md5_digest(standard_padding() + params.file_id);
    lemma_rounds(key, seed, rounds, 19);
    let check = crypt::rc4_rounds(key, seed, 19);
    assert(check == rounds[19]);
    let u = params.user_hash;
    if u.len() >= 16 {
        if check.take(16) == u.take(16) {
            assert forall|i: int| 0 <= i < 16 implies #[trigger] u[i] == rounds[19][i] by {
                assert(u.take(16)[i] == check.take(16)[i]);
            }
        }
        if forall|i: int| 0 <= i < 16 ==> #[trigger] u[i] == rounds[19][i] {
            assert(check.take(16) =~= u.take(16));
        }
    }
}

proof fn lemma_rounds(key: Seq<u8>, seed: Seq<u8>, rounds: Seq<Seq<u8>>, n: int)
    requires
        0 <= n < rounds.len() == 20,
        seed.len() == 16,
        rounds[0].len() == 16,
        forall|k: int|
            0 <= k < 16 ==> #[trigger] rounds[0][k] == seed[k] ^ cipher::rc4_keystream(key, k),
        forall|i: int, j: int|
            0 <= i < 19 && j == i + 1 ==> (#[trigger] rounds[j]).len() == (
            #[trigger] rounds[i]).len() && forall|k: int|
                0 <= k < 16 ==> #[trigger] rounds[j][k] == rounds[i][k] ^ cipher::rc4_keystream(
                    Seq::new(key.len(), |b: int| key[b] ^ (j as u8)),
                    k,
                ),
    ensures
        rounds[n].len() == 16,
        crypt::rc4_rounds(key, seed, n as nat) == rounds[n],
    decreases n,
{
    if n > 0 {
        lemma_rounds(key, seed, rounds, n - 1);
        assert(rounds[n].len() == rounds[n - 1].len());
        assert(Seq::new(key.len(), |b: int| key[b] ^ (n as u8)) =~= crypt::xored(key, n as u8));
        assert(cipher::rc4(crypt::xored(key, n as u8), rounds[n - 1]) =~= rounds[n]);
    } else {
        assert(cipher::rc4(key, seed) =~= rounds[0]);
    }
}

/// No password opens a document of another revision.
pub proof fn no_password_opens_another_revision(params: ParamsSpec, password: Seq<u8>)
    requires
        params.revision < 2 || params.revision > 4,
    ensures
        crypt::authenticated(params, password) is None,
{
}

/// The material of the key of one object, byte by byte: the file key, the three low bytes of
/// the object number and the two bytes of the generation number, the lowest first, and then
/// nothing for RC4 and the four bytes of `sAlT` for AES.
pub proof fn object_key_material_is_made_of_its_parts(
    file_key: Seq<u8>,
    obj_num: u32,
    gen_num: u16,
    use_aes: bool,
)
    ensures
        ({
            let m = crypt::object_key_material(file_key, obj_num, gen_num, use_aes);
            let n = file_key.len() as int;
            &&& m.len() == (if use_aes {
                n + 9
            } else {
                n + 5
            })
            &&& forall|i: int| 0 <= i < n ==> #[trigger] m[i] == file_key[i]
            &&& m[n] == obj_num as int % 256
            &&& m[n + 1] == obj_num as int / 256 % 256
            &&& m[n + 2] == obj_num as int / 65536 % 256
            &&& m[n + 3] == gen_num as int % 256
            &&& m[n + 4] == gen_num as int / 256
            &&& use_aes ==> m[n + 5] == 0x73 && m[n + 6] == 0x41 && m[n + 7] == 0x6C && m[n + 8]
                == 0x54
        }),
{
    lemma_le_bytes(obj_num as nat);
    lemma_le_bytes(gen_num as nat);
    reveal_strlit("sAlT");
    assert("sAlT".is_ascii());
    is_ascii_spec_bytes("sAlT");
    assert("sAlT".spec_bytes() =~= seq![0x73u8, 0x41, 0x6C, 0x54]);
}

/// The key of one object is the digest of its material, cut to five bytes more than the file
/// key has and to sixteen at most.
pub proof fn an_object_key_is_the_start_of_a_digest(
    file_key: Seq<u8>,
    obj_num: u32,
    gen_num: u16,
    use_aes: bool,
    hash: Seq<u8>,
)
    requires
        hash == cipher::md5_digest(
            crypt::object_key_material(file_key, obj_num, gen_num, use_aes),
        ),
        hash.len() == 16,
    ensures
        ({
            let key = crypt::object_key_spec(file_key, obj_num, gen_num, use_aes);
            &&& key.len() == (if file_key.len() < 11 {
                file_key.len() + 5
            } else {
                16
            })
            &&& forall|i: int| 0 <= i < key.len() ==> #[trigger] key[i] == hash[i]
        }),
{
}

/// Objects with different numbers, up to 2^24, have different material for their keys, and so
/// has one object under RC4 and under AES.
pub proof fn object_keys_have_material_of_their_own(
    file_key: Seq<u8>,
    a: (u32, u16),
    b: (u32, u16),
    aes_a: bool,
    aes_b: bool,
)
    requires
        a.0 < 0x100_0000,
        b.0 < 0x100_0000,
        a != b || aes_a != aes_b,
    ensures
        crypt::object_key_material(file_key, a.0, a.1, aes_a) != crypt::object_key_material(
            file_key,
            b.0,
            b.1,
            aes_b,
        ),
{
    object_key_material_is_made_of_its_parts(file_key, a.0, a.1, aes_a);
    object_key_material_is_made_of_its_parts(file_key, b.0, b.1, aes_b);
    let n = file_key.len() as int;
    let x = crypt::object_key_material(file_key, a.0, a.1, aes_a);
    let y = crypt::object_key_material(file_key, b.0, b.1, aes_b);
    if x == y {
        assert(a.0 as int == x[n] + 256 * x[n + 1] + 65536 * x[n + 2]);
        assert(b.0 as int == y[n] + 256 * y[n + 1] + 65536 * y[n + 2]);
        assert(a.1 as int == x[n + 3] + 256 * x[n + 4]);
        assert(b.1 as int == y[n + 3] + 256 * y[n + 4]);
    }
}

/// RC4 combines each byte with the byte of the keystream at its place.
pub proof fn rc4_combines_byte_by_byte(key: Seq<u8>, data: Seq<u8>)
    ensures
        cipher::rc4(key, data).len() == data.len(),
        forall|i: int|
            0 <= i < data.len() ==> #[trigger] cipher::rc4(key, data)[i] == data[i]
                ^ cipher::rc4_keystream(key, i),
{
}

/// Padding that was added is taken off again.
pub proof fn padding_is_taken_off(plain: Seq<u8>, n: int)
    requires
        1 <= n <= 16,
    ensures
        cipher::pkcs7_unpadded(plain + Seq::new(n as nat, |i: int| n as u8)) == Some(plain),
{
    let padded = plain + Seq::new(n as nat, |i: int| n as u8);
    assert(padded.last() == n);
    assert(padded.take(padded.len() - n) =~= plain);
}

/// AES data is a vector of sixteen bytes and then ciphertext in blocks of sixteen. It decrypts
/// exactly where the lengths are right: to nothing where there is no ciphertext, to the
/// plaintext without its padding where it is padded, and to all of it where it is not.
pub proof fn aes_data_is_a_vector_and_ciphertext(key: Seq<u8>, iv: Seq<u8>, ciphertext: Seq<u8>)
    requires
        iv.len() == 16,
    ensures
        ({
            let r = crypt::aes128_decrypted(key, iv + ciphertext);
            let whole = cipher::aes128_cbc(key, iv, ciphertext);
            &&& r is None <==> ciphertext.len() % 16 != 0 || ciphertext.len() > 0 && key.len()
                != 16
            &&& ciphertext.len() == 0 ==> r == Some(Seq::<u8>::empty())
            &&& ciphertext.len() > 0 && r is Some ==> forall|plain: Seq<u8>, n: int|
                1 <= n <= 16 && whole == #[trigger] padded_with(plain, n) ==> r == Some(plain)
            &&& ciphertext.len() > 0 && r is Some && !(exists|plain: Seq<u8>, n: int|
                1 <= n <= 16 && whole == #[trigger] padded_with(plain, n)) ==> r == Some(whole)
        }),
{
    let data = iv + ciphertext;
    let whole = cipher::aes128_cbc(key, iv, ciphertext);
    assert(data.take(16) =~= iv);
    assert(data.skip(16) =~= ciphertext);
    assert(data.len() % 16 == ciphertext.len() % 16);
    assert forall|plain: Seq<u8>, n: int|
        1 <= n <= 16 && whole == #[trigger] padded_with(
            plain,
            n,
        ) implies cipher::pkcs7_unpadded(whole) == Some(plain) by {
        padding_is_taken_off(plain, n);
    }
    if let Some(plain) = cipher::pkcs7_unpadded(whole) {
        let n = whole.last() as int;
        assert(whole =~= padded_with(plain, n));
    }
}

/// `plain` and `n` bytes of padding, each of which says how many there are.
pub open spec fn padded_with(plain: Seq<u8>, n: int) -> Seq<u8> {
    plain + Seq::new(n as nat, |i: int| n as u8)
}

/// Data too short for a vector does not decrypt.
pub proof fn aes_data_without_a_vector_does_not_decrypt(key: Seq<u8>, data: Seq<u8>)
    requires
        data.len() < 16,
    ensures
        crypt::aes128_decrypted(key, data) is None,
{
}

/// Parameters are seen field by field.
pub proof fn parameters_are_seen_field_by_field(p: EncryptionParams)
    ensures
        p@.version == p.version,
        p@.revision == p.revision,
        p@.key_length == p.key_length,
        p@.owner_hash == p.owner_hash@,
        p@.user_hash == p.user_hash@,
        p@.permissions == p.permissions,
        p@.file_id == p.file_id@,
        p@.use_aes == p.use_aes,
        p@.encrypt_metadata == p.encrypt_metadata,
{
}

} // verus!
