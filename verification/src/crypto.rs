//! The symmetric cipher the chunk formats are built on.
//!
//! The design leaves the cipher suite open, so this crate documents its
//! choice here: a keyed stream cipher over the chunk body, preceded by a
//! sixteen-byte clear header holding a key-check value and an
//! authentication tag. The key-check value rejects every wrong key
//! outright; the tag rejects ciphertexts whose body was altered. The
//! stream and tag here are structural stand-ins chosen for an exactly
//! stated contract, not for cryptographic strength; a deployment
//! substitutes an AEAD of the same shape.
//!
//! Ciphertext layout, for a body block size `block`:
//! - bytes 0..8: key-check value, big endian;
//! - bytes 8..16: authentication tag of the plaintext, big endian;
//! - bytes 16..: keystream-masked body: plaintext length (8 bytes, big
//!   endian), the plaintext, then zero padding.
//!
//! The whole ciphertext is padded to a multiple of `block`, so its length
//! reveals the plaintext length only at `block` granularity.

use vstd::prelude::*;

use crate::bytes::{
    be_u64, copy_range, lemma_u64_be_round_trip, push_bytes, push_u64_be, push_zeros, read_u64_be,
    u64_be, zeros,
};
use crate::errors::CryptreeError;
use vstd::arithmetic::div_mod::{lemma_fundamental_div_mod, lemma_mod_multiples_basic};

verus! {

/// One symmetric key: base, parent, data or write, the roles the key
/// hierarchy distinguishes. Equality is exact equality of the key bits.
#[derive(Clone, Copy, Debug, Hash, PartialEq, Eq, Structural)]
pub struct SymKey {
    pub bits: u64,
}

impl SymKey {
    /// A key from its raw bits.
    pub fn new(bits: u64) -> (r: Self)
        ensures
            r == (SymKey { bits }),
    {
        SymKey { bits }
    }
}

/// Salt mixed into the key-check value stored in every ciphertext.
pub const KEY_CHECK_SALT: u64 = 0xA5C3_96E1_7B2D_4F08;

/// Salt mixed into the authentication tag.
pub const TAG_SALT: u64 = 0x6D2F_8C4B_1E97_A350;

/// The key-check value a ciphertext under key `k` carries.
pub open spec fn key_check(k: u64) -> u64 {
    k ^ KEY_CHECK_SALT
}

/// Distinct keys carry distinct key-check values.
pub proof fn lemma_key_check_injective(a: u64, b: u64)
    ensures
        key_check(a) == key_check(b) ==> a == b,
{
    let s = KEY_CHECK_SALT;
    assert((a ^ s) == (b ^ s) ==> a == b) by (bit_vector);
}

/// Byte `i` of the keystream under key `k`.
pub open spec fn keystream_byte(k: u64, i: int) -> u8
    recommends
        0 <= i,
{
    ((k >> (((i % 8) * 8) as u64)) as u8) ^ ((i % 256) as u8)
}

/// `s` masked bytewise with the keystream under `k`.
pub open spec fn mask(k: u64, s: Seq<u8>) -> Seq<u8> {
    Seq::new(s.len(), |i: int| s[i] ^ keystream_byte(k, i))
}

/// Masking twice with the same key gives the bytes back.
pub proof fn lemma_mask_involution(k: u64, s: Seq<u8>)
    ensures
        mask(k, mask(k, s)) == s,
{
    assert forall|i: int| 0 <= i < s.len() implies mask(k, mask(k, s))[i] == s[i] by {
        let b = keystream_byte(k, i);
        let x = s[i];
        assert((x ^ b) ^ b == x) by (bit_vector);
    }
    assert(mask(k, mask(k, s)) =~= s);
}

/// One step of the authentication tag.
pub open spec fn tag_step(acc: u64, b: u8) -> u64 {
    (((acc * 131) + b) % 0x1_0000_0000_0000_0000) as u64
}

/// The authentication tag of plaintext `m` under key `k`.
pub open spec fn auth_tag(k: u64, m: Seq<u8>) -> u64
    decreases m.len(),
{
    if m.len() == 0 {
        k ^ TAG_SALT
    } else {
        tag_step(auth_tag(k, m.drop_last()), m.last())
    }
}

/// Byte `i` of the keystream, computed.
fn keystream_byte_at(key: u64, i: usize) -> (r: u8)
    ensures
        r == keystream_byte(key, i as int),
{
    let sh: u64 = ((i % 8) as u64) * 8;
    let kb: u8 = (key >> sh) as u8;
    let xb: u8 = (i % 256) as u8;
    kb ^ xb
}

/// `data` masked bytewise with the keystream under `key`.
fn apply_mask(key: u64, data: &Vec<u8>) -> (r: Vec<u8>)
    ensures
        r@ == mask(key, data@),
{
    let mut out: Vec<u8> = Vec::new();
    let mut i: usize = 0;
    while i < data.len()
        invariant
            i <= data@.len(),
            out@.len() == i,
            forall|j: int| 0 <= j < i ==> out@[j] == data@[j] ^ keystream_byte(key, j),
        decreases data@.len() - i,
    {
        let b = data[i] ^ keystream_byte_at(key, i);
        out.push(b);
        i = i + 1;
    }
    proof {
        assert(out@ =~= mask(key, data@));
    }
    out
}

/// The authentication tag, computed.
fn compute_tag(key: u64, m: &Vec<u8>) -> (r: u64)
    ensures
        r == auth_tag(key, m@),
{
    let mut acc: u64 = key ^ TAG_SALT;
    let mut i: usize = 0;
    proof {
        assert(m@.take(0) =~= Seq::<u8>::empty());
    }
    while i < m.len()
        invariant
            i <= m@.len(),
            acc == auth_tag(key, m@.take(i as int)),
        decreases m@.len() - i,
    {
        let next: u64 = (((acc as u128) * 131 + (m[i] as u128)) % 0x1_0000_0000_0000_0000u128)
            as u64;
        proof {
            assert(m@.take(i as int + 1).drop_last() =~= m@.take(i as int));
            assert(m@.take(i as int + 1).last() == m@[i as int]);
        }
        acc = next;
        i = i + 1;
    }
    proof {
        assert(m@.take(m@.len() as int) =~= m@);
    }
    acc
}

/// How many zero bytes bring `total` up to a multiple of `block`.
pub open spec fn pad_amount(total: int, block: int) -> int
    recommends
        0 <= total,
        1 <= block,
{
    if total % block == 0 {
        0
    } else {
        block - total % block
    }
}

/// The padding closes the gap: `total + pad_amount(total, block)` is a
/// multiple of `block`, and the padding is shorter than one block.
pub proof fn lemma_pad_amount(total: int, block: int)
    requires
        0 <= total,
        1 <= block,
    ensures
        (total + pad_amount(total, block)) % block == 0,
        0 <= pad_amount(total, block) < block,
{
    lemma_fundamental_div_mod(total, block);
    let q = total / block;
    let r = total % block;
    if r != 0 {
        assert(total + (block - r) == (q + 1) * block) by (nonlinear_arith)
            requires
                total == block * q + r,
        ;
        lemma_mod_multiples_basic(q + 1, block);
        assert(pad_amount(total, block) == block - r);
    }
}

/// The body of a ciphertext before masking: plaintext length, plaintext,
/// zero padding up to the block multiple.
pub open spec fn body_plain(m: Seq<u8>, block: int) -> Seq<u8>
    recommends
        1 <= block,
{
    u64_be(m.len() as u64) + m + zeros(pad_amount(24 + m.len() as int, block) as nat)
}

/// The whole ciphertext of plaintext `m` under key `k` with body block
/// size `block`.
pub open spec fn spec_encrypt(k: u64, m: Seq<u8>, block: int) -> Seq<u8>
    recommends
        1 <= block,
{
    u64_be(key_check(k)) + u64_be(auth_tag(k, m)) + mask(k, body_plain(m, block))
}

/// What decryption of `c` under key `k` yields: the unique plaintext, or
/// the precise error. Checks run outermost first: overall shape, then the
/// key-check value, then the body layout, then the authentication tag.
pub open spec fn spec_decrypt(k: u64, c: Seq<u8>, block: int) -> Result<Seq<u8>, CryptreeError>
    recommends
        1 <= block,
{
    if c.len() < 24 || c.len() as int % block != 0 {
        Err(CryptreeError::MalformedChunk)
    } else if be_u64(c.subrange(0, 8)) != key_check(k) {
        Err(CryptreeError::DecryptionFailure)
    } else {
        let body = mask(k, c.skip(16));
        let mlen = be_u64(body.subrange(0, 8)) as int;
        if c.len() < 24 + mlen || c.len() >= 24 + mlen + block {
            Err(CryptreeError::MalformedChunk)
        } else if body.skip(8 + mlen) != zeros((body.len() - 8 - mlen) as nat) {
            Err(CryptreeError::MalformedChunk)
        } else if be_u64(c.subrange(8, 16)) != auth_tag(k, body.subrange(8, 8 + mlen)) {
            Err(CryptreeError::DecryptionFailure)
        } else {
            Ok(body.subrange(8, 8 + mlen))
        }
    }
}

/// Law: decrypting with the key that sealed a chunk reproduces the
/// plaintext exactly, for every plaintext and block size.
pub proof fn lemma_decrypt_round_trip(k: u64, m: Seq<u8>, block: int)
    requires
        1 <= block,
        m.len() < 0x1_0000_0000_0000_0000,
    ensures
        spec_decrypt(k, spec_encrypt(k, m, block), block) == Ok::<Seq<u8>, CryptreeError>(m),
{
    let mlen = m.len() as int;
    let c = spec_encrypt(k, m, block);
    let pad = pad_amount(24 + mlen, block);
    lemma_pad_amount(24 + mlen, block);
    let bp = body_plain(m, block);
    assert(bp.len() == 8 + mlen + pad);
    assert(c.len() == 24 + mlen + pad);
    assert(c.len() as int % block == 0);
    assert(c.subrange(0, 8) =~= u64_be(key_check(k)));
    lemma_u64_be_round_trip(key_check(k));
    assert(c.skip(16) =~= mask(k, bp));
    lemma_mask_involution(k, bp);
    let body = mask(k, c.skip(16));
    assert(body == bp);
    assert(body.subrange(0, 8) =~= u64_be(m.len() as u64));
    lemma_u64_be_round_trip(m.len() as u64);
    assert(be_u64(body.subrange(0, 8)) as int == mlen);
    assert(body.skip(8 + mlen) =~= zeros(pad as nat));
    assert(c.subrange(8, 16) =~= u64_be(auth_tag(k, m)));
    lemma_u64_be_round_trip(auth_tag(k, m));
    assert(body.subrange(8, 8 + mlen) =~= m);
}

/// Two multiples of `b` within one window of width `b` are equal.
proof fn lemma_multiple_window(a: int, c: int, b: int)
    requires
        1 <= b,
        a % b == 0,
        c % b == 0,
        c - b < a < c + b,
    ensures
        a == c,
{
    lemma_fundamental_div_mod(a, b);
    lemma_fundamental_div_mod(c, b);
    let qa = a / b;
    let qc = c / b;
    assert(qa == qc) by (nonlinear_arith)
        requires
            a == b * qa,
            c == b * qc,
            c - b < a < c + b,
            1 <= b,
    ;
}

/// Law: the ciphertext layout is canonical. Whenever decryption under
/// `k` accepts `c` and returns `m`, `c` is byte for byte the sealing of
/// `m` under `k`: no two distinct ciphertexts decrypt to the same
/// plaintext under one key, and nothing but a sealing is ever accepted.
#[verifier::rlimit(100)]
pub proof fn lemma_decrypt_canonical(k: u64, c: Seq<u8>, m: Seq<u8>, block: int)
    requires
        1 <= block,
        spec_decrypt(k, c, block) == Ok::<Seq<u8>, CryptreeError>(m),
    ensures
        c == spec_encrypt(k, m, block),
{
    let body = mask(k, c.skip(16));
    let mlen = be_u64(body.subrange(0, 8)) as int;
    let pad = pad_amount(24 + mlen, block);
    lemma_pad_amount(24 + mlen, block);
    assert(m == body.subrange(8, 8 + mlen));
    assert(m.len() == mlen);
    lemma_multiple_window(c.len() as int, 24 + mlen + pad, block);
    assert(c.len() == 24 + mlen + pad);
    assert(body.len() == 8 + mlen + pad);
    crate::bytes::lemma_be_u64_bytes_round_trip(body.subrange(0, 8));
    assert(body.subrange(0, 8) == u64_be(m.len() as u64));
    assert(body.skip(8 + mlen) == zeros(pad as nat));
    assert(body =~= body_plain(m, block));
    crate::bytes::lemma_be_u64_bytes_round_trip(c.subrange(0, 8));
    assert(c.subrange(0, 8) == u64_be(key_check(k)));
    crate::bytes::lemma_be_u64_bytes_round_trip(c.subrange(8, 16));
    assert(c.subrange(8, 16) == u64_be(auth_tag(k, m)));
    lemma_mask_involution(k, c.skip(16));
    assert(mask(k, body) == c.skip(16));
    assert(c =~= c.subrange(0, 8) + c.subrange(8, 16) + c.skip(16));
    assert(c =~= spec_encrypt(k, m, block));
}

/// Law: decrypting with any key other than the one that sealed a chunk
/// fails with `DecryptionFailure`, never a silently wrong plaintext.
pub proof fn lemma_decrypt_wrong_key(k_seal: u64, k_other: u64, m: Seq<u8>, block: int)
    requires
        1 <= block,
        k_seal != k_other,
        m.len() < 0x1_0000_0000_0000_0000,
    ensures
        spec_decrypt(k_other, spec_encrypt(k_seal, m, block), block) == Err::<
            Seq<u8>,
            CryptreeError,
        >(CryptreeError::DecryptionFailure),
{
    let mlen = m.len() as int;
    let c = spec_encrypt(k_seal, m, block);
    lemma_pad_amount(24 + mlen, block);
    assert(c.len() == 24 + mlen + pad_amount(24 + mlen, block));
    assert(c.len() as int % block == 0);
    assert(c.subrange(0, 8) =~= u64_be(key_check(k_seal)));
    lemma_u64_be_round_trip(key_check(k_seal));
    lemma_key_check_injective(k_seal, k_other);
    assert(be_u64(c.subrange(0, 8)) != key_check(k_other));
}

/// Encrypt `plaintext` under `key`, padding the ciphertext to a multiple
/// of `block` bytes.
pub fn encrypt(key: &SymKey, plaintext: &Vec<u8>, block: usize) -> (r: Vec<u8>)
    requires
        1 <= block,
        plaintext@.len() + 24 + block <= usize::MAX,
    ensures
        r@ == spec_encrypt(key.bits, plaintext@, block as int),
        r@.len() as int % (block as int) == 0,
        r@.len() == 24 + plaintext@.len() + pad_amount(24 + plaintext@.len() as int, block as int),
{
    let n: usize = plaintext.len();
    let total: usize = 24 + n;
    let rem: usize = total % block;
    let pad: usize = if rem == 0 {
        0
    } else {
        block - rem
    };
    proof {
        lemma_pad_amount(24 + n as int, block as int);
    }
    let mut body: Vec<u8> = Vec::new();
    push_u64_be(&mut body, n as u64);
    push_bytes(&mut body, plaintext);
    push_zeros(&mut body, pad);
    let masked = apply_mask(key.bits, &body);
    let mut out: Vec<u8> = Vec::new();
    push_u64_be(&mut out, key.bits ^ KEY_CHECK_SALT);
    push_u64_be(&mut out, compute_tag(key.bits, plaintext));
    push_bytes(&mut out, &masked);
    proof {
        assert(body@ =~= body_plain(plaintext@, block as int));
        assert(out@ =~= spec_encrypt(key.bits, plaintext@, block as int));
    }
    out
}

/// Decrypt `ciphertext` under `key`: the plaintext exactly as sealed, or
/// the precise error of [`spec_decrypt`].
#[verifier::loop_isolation(false)]
pub fn decrypt(key: &SymKey, ciphertext: &Vec<u8>, block: usize) -> (r: Result<
    Vec<u8>,
    CryptreeError,
>)
    requires
        1 <= block,
    ensures
        match r {
            Ok(m) => spec_decrypt(key.bits, ciphertext@, block as int) == Ok::<
                Seq<u8>,
                CryptreeError,
            >(m@),
            Err(e) => spec_decrypt(key.bits, ciphertext@, block as int) == Err::<
                Seq<u8>,
                CryptreeError,
            >(e),
        },
{
    let n: usize = ciphertext.len();
    if n < 24 || n % block != 0 {
        return Err(CryptreeError::MalformedChunk);
    }
    let stored_check = read_u64_be(ciphertext, 0);
    if stored_check != key.bits ^ KEY_CHECK_SALT {
        return Err(CryptreeError::DecryptionFailure);
    }
    let masked = copy_range(ciphertext, 16, n);
    let body = apply_mask(key.bits, &masked);
    proof {
        assert(masked@ =~= ciphertext@.skip(16));
        assert(body@ == mask(key.bits, ciphertext@.skip(16)));
    }
    let mlen64 = read_u64_be(&body, 0);
    if (mlen64 as u128) + 24 > (n as u128) || (mlen64 as u128) + 24 + (block as u128) <= (
    n as u128) {
        return Err(CryptreeError::MalformedChunk);
    }
    let mlen: usize = mlen64 as usize;
    proof {
        assert(mlen as int == mlen64 as int);
        assert(be_u64(body@.subrange(0, 8)) as int == mlen as int);
    }
    let mut i: usize = 8 + mlen;
    while i < body.len()
        invariant
            8 + mlen <= i <= body@.len(),
            forall|j: int| 8 + mlen <= j < i ==> body@[j] == 0u8,
        decreases body@.len() - i,
    {
        if body[i] != 0 {
            proof {
                assert(body@.skip(8 + mlen as int)[i - 8 - mlen as int] != 0u8);
                assert(body@.skip(8 + mlen as int) != zeros(
                    (body@.len() - 8 - mlen as int) as nat,
                ));
            }
            return Err(CryptreeError::MalformedChunk);
        }
        i = i + 1;
    }
    proof {
        assert(body@.skip(8 + mlen as int) =~= zeros((body@.len() - 8 - mlen as int) as nat));
    }
    let m = copy_range(&body, 8, 8 + mlen);
    let stored_tag = read_u64_be(ciphertext, 8);
    let tag = compute_tag(key.bits, &m);
    if stored_tag != tag {
        return Err(CryptreeError::DecryptionFailure);
    }
    Ok(m)
}

} // verus!
