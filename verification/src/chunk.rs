//! The three-component wire layout of an encrypted node chunk.
//!
//! Per node version the serialization has three network-visible
//! components:
//! 1. a fixed-size block sealed with the base key, holding the second key
//!    (parent key for a directory, data key for a file), the location of
//!    the next chunk, and an optional symmetric link to a signing pair;
//! 2. a ciphertext padded to a multiple of 4096 bytes, holding the
//!    relative child links of a directory or one chunk of file data;
//! 3. a ciphertext padded to a multiple of 16 bytes, holding an optional
//!    relative parent link plus node metadata, sealed with the parent
//!    key; present on the first chunk of every node except the root.

use vstd::prelude::*;

use crate::blockstore::{
    lemma_key_bytes_round_trip, push_key, read_key_at, spec_key_bytes, spec_read_key,
    BlockStoreKey,
};
use crate::bytes::{
    be_u16, be_u32, be_u64, copy_range, lemma_u16_be_round_trip, lemma_u64_be_round_trip,
    push_bytes,
    push_u16_be, push_u32_be, push_u64_be, push_zeros, read_u16_be, read_u32_be, read_u64_be,
    u16_be, u32_be, u64_be, zeros,
};
use crate::crypto::{
    decrypt, encrypt, lemma_decrypt_round_trip, lemma_pad_amount, spec_decrypt, spec_encrypt,
    SymKey,
};
use crate::errors::CryptreeError;

verus! {

/// Ciphertext size of the fixed component 1: fixed so that its length
/// never leaks anything about the payload.
pub const HEADER_BLOCK: usize = 64;

/// Plaintext size of component 1: second key, next-chunk option, signing
/// link option.
pub const HEADER_PLAIN_LEN: usize = 29;

/// Component 2 is padded to a multiple of this, so content length leaks
/// only at this granularity.
pub const BODY_BLOCK: usize = 4096;

/// Component 3 is padded to a multiple of this.
pub const TAIL_BLOCK: usize = 16;

/// The plaintext of component 1: what the base key unlocks first.
#[derive(Clone, Copy, Debug)]
pub struct ChunkHeader {
    /// Parent key for a directory, data key for a file.
    pub second_key: SymKey,
    /// Where the next chunk of this node lives; absent on the last chunk.
    pub next_chunk: Option<BlockStoreKey>,
    /// Optional symmetric link to a signing keypair, used to authenticate
    /// writes cryptographically.
    pub signing_link: Option<SymKey>,
}

/// The 29 plaintext bytes of component 1. Absent options are encoded as a
/// zero flag followed by zero bytes, so the layout is canonical.
pub open spec fn spec_header_bytes(h: ChunkHeader) -> Seq<u8> {
    u64_be(h.second_key.bits) + (match h.next_chunk {
        Some(k) => seq![1u8] + spec_key_bytes(k),
        None => seq![0u8] + zeros(11),
    }) + (match h.signing_link {
        Some(s) => seq![1u8] + u64_be(s.bits),
        None => seq![0u8] + zeros(8),
    })
}

/// The header read back from 29 bytes, or `None` where the bytes do not
/// match the canonical layout.
pub open spec fn spec_decode_header(s: Seq<u8>) -> Option<ChunkHeader> {
    if s.len() != 29 {
        None
    } else {
        let nflag = s[8];
        let sflag = s[20];
        if nflag != 0 && nflag != 1 {
            None
        } else if sflag != 0 && sflag != 1 {
            None
        } else if nflag == 0 && s.subrange(9, 20) != zeros(11) {
            None
        } else if sflag == 0 && s.subrange(21, 29) != zeros(8) {
            None
        } else {
            Some(
                ChunkHeader {
                    second_key: SymKey { bits: be_u64(s.subrange(0, 8)) },
                    next_chunk: if nflag == 1 {
                        Some(spec_read_key(s, 9))
                    } else {
                        None
                    },
                    signing_link: if sflag == 1 {
                        Some(SymKey { bits: be_u64(s.subrange(21, 29)) })
                    } else {
                        None
                    },
                },
            )
        }
    }
}

/// Decoding inverts encoding for the header layout.
pub proof fn lemma_header_round_trip(h: ChunkHeader)
    ensures
        spec_header_bytes(h).len() == 29,
        spec_decode_header(spec_header_bytes(h)) == Some(h),
{
    let s = spec_header_bytes(h);
    assert(s.subrange(0, 8) =~= u64_be(h.second_key.bits));
    lemma_u64_be_round_trip(h.second_key.bits);
    match h.next_chunk {
        Some(k) => {
            assert(s[8] == 1u8);
            assert(s.subrange(9, 20) =~= spec_key_bytes(k));
            lemma_key_bytes_round_trip(k, s, 9);
        },
        None => {
            assert(s[8] == 0u8);
            assert(s.subrange(9, 20) =~= zeros(11));
        },
    }
    match h.signing_link {
        Some(sk) => {
            assert(s[20] == 1u8);
            assert(s.subrange(21, 29) =~= u64_be(sk.bits));
            lemma_u64_be_round_trip(sk.bits);
        },
        None => {
            assert(s[20] == 0u8);
            assert(s.subrange(21, 29) =~= zeros(8));
        },
    }
}

/// Encode component 1's plaintext.
pub fn encode_header(h: &ChunkHeader) -> (r: Vec<u8>)
    ensures
        r@ == spec_header_bytes(*h),
        r@.len() == 29,
{
    let mut out: Vec<u8> = Vec::new();
    push_u64_be(&mut out, h.second_key.bits);
    match &h.next_chunk {
        Some(k) => {
            out.push(1u8);
            push_key(&mut out, k);
        },
        None => {
            out.push(0u8);
            push_zeros(&mut out, 11);
        },
    }
    match &h.signing_link {
        Some(s) => {
            out.push(1u8);
            push_u64_be(&mut out, s.bits);
        },
        None => {
            out.push(0u8);
            push_zeros(&mut out, 8);
        },
    }
    proof {
        assert(out@ =~= spec_header_bytes(*h));
    }
    out
}

/// Decode component 1's plaintext: the header exactly as encoded, or
/// `MalformedChunk` where the bytes do not match the canonical layout.
#[verifier::loop_isolation(false)]
pub fn decode_header(buf: &Vec<u8>) -> (r: Result<ChunkHeader, CryptreeError>)
    ensures
        match r {
            Ok(h) => spec_decode_header(buf@) == Some(h),
            Err(e) => spec_decode_header(buf@) == None::<ChunkHeader> && e
                == CryptreeError::MalformedChunk,
        },
{
    if buf.len() != HEADER_PLAIN_LEN {
        return Err(CryptreeError::MalformedChunk);
    }
    let nflag = buf[8];
    let sflag = buf[20];
    if nflag > 1 || sflag > 1 {
        return Err(CryptreeError::MalformedChunk);
    }
    if nflag == 0 {
        let mut j: usize = 9;
        while j < 20
            invariant
                9 <= j <= 20,
                forall|i: int| 9 <= i < j ==> buf@[i] == 0u8,
            decreases 20 - j,
        {
            if buf[j] != 0 {
                proof {
                    assert(buf@.subrange(9, 20)[j - 9] != 0u8);
                }
                return Err(CryptreeError::MalformedChunk);
            }
            j = j + 1;
        }
        proof {
            assert(buf@.subrange(9, 20) =~= zeros(11));
        }
    }
    if sflag == 0 {
        let mut j: usize = 21;
        while j < 29
            invariant
                21 <= j <= 29,
                forall|i: int| 21 <= i < j ==> buf@[i] == 0u8,
            decreases 29 - j,
        {
            if buf[j] != 0 {
                proof {
                    assert(buf@.subrange(21, 29)[j - 21] != 0u8);
                }
                return Err(CryptreeError::MalformedChunk);
            }
            j = j + 1;
        }
        proof {
            assert(buf@.subrange(21, 29) =~= zeros(8));
        }
    }
    let second = SymKey::new(read_u64_be(buf, 0));
    let next_chunk = if nflag == 1 {
        Some(read_key_at(buf, 9))
    } else {
        None
    };
    let signing_link = if sflag == 1 {
        Some(SymKey::new(read_u64_be(buf, 21)))
    } else {
        None
    };
    Ok(ChunkHeader { second_key: second, next_chunk, signing_link })
}

/// One relative child link of a directory: the capability one level
/// down. Besides the child's location and base key it carries only a
/// filename; possession of the base key grants read access to everything
/// reachable below the child.
#[derive(Clone, Debug)]
pub struct ChildLink {
    pub name: Vec<u8>,
    pub key: BlockStoreKey,
    pub base_key: SymKey,
}

/// The mathematical content of a child link.
pub struct ChildLinkV {
    pub name: Seq<u8>,
    pub key: BlockStoreKey,
    pub base_key: SymKey,
}

impl View for ChildLink {
    type V = ChildLinkV;

    open spec fn view(&self) -> ChildLinkV {
        ChildLinkV { name: self.name@, key: self.key, base_key: self.base_key }
    }
}

/// The views of a sequence of child links.
pub open spec fn views_of(s: Seq<ChildLink>) -> Seq<ChildLinkV> {
    s.map_values(|c: ChildLink| c@)
}

/// Well-formed for the wire format: the name fits the 2-byte length
/// field.
pub open spec fn child_wf(c: ChildLinkV) -> bool {
    c.name.len() <= 0xFFFF
}

/// Well-formed for the wire format: the count fits the 4-byte count
/// field and every name fits its length field.
pub open spec fn children_wf(s: Seq<ChildLinkV>) -> bool {
    s.len() <= 0xFFFF_FFFF && forall|i: int| 0 <= i < s.len() ==> child_wf(#[trigger] s[i])
}

/// The wire bytes of one child-link entry: name length, name, the
/// child's block key, the child's base key.
pub open spec fn spec_child_bytes(c: ChildLinkV) -> Seq<u8> {
    u16_be(c.name.len() as u16) + c.name + spec_key_bytes(c.key) + u64_be(c.base_key.bits)
}

/// The wire bytes of the entries, in order. Order is not semantically
/// significant to permissions; the encoding preserves it for display.
pub open spec fn spec_children_entries(s: Seq<ChildLinkV>) -> Seq<u8>
    decreases s.len(),
{
    if s.len() == 0 {
        Seq::empty()
    } else {
        spec_children_entries(s.drop_last()) + spec_child_bytes(s.last())
    }
}

/// The whole child-link payload: a 4-byte count, then the entries.
pub open spec fn spec_children_bytes(s: Seq<ChildLinkV>) -> Seq<u8> {
    u32_be(s.len() as u32) + spec_children_entries(s)
}

/// Parse exactly `n` entries from `s` starting at `off`, consuming the
/// bytes to the end.
pub open spec fn spec_parse_children(s: Seq<u8>, off: int, n: int) -> Option<Seq<ChildLinkV>>
    decreases n,
{
    if n <= 0 {
        if n == 0 && off == s.len() {
            Some(Seq::<ChildLinkV>::empty())
        } else {
            None
        }
    } else if off + 21 > s.len() {
        None
    } else {
        let nl = be_u16(s.subrange(off, off + 2)) as int;
        if off + 21 + nl > s.len() {
            None
        } else {
            let c = ChildLinkV {
                name: s.subrange(off + 2, off + 2 + nl),
                key: spec_read_key(s, off + 2 + nl),
                base_key: SymKey { bits: be_u64(s.subrange(off + 13 + nl, off + 21 + nl)) },
            };
            match spec_parse_children(s, off + 21 + nl, n - 1) {
                None => None,
                Some(rest) => Some(seq![c] + rest),
            }
        }
    }
}

/// The child links read back from a payload, or `None` where the bytes
/// do not parse.
pub open spec fn spec_decode_children(s: Seq<u8>) -> Option<Seq<ChildLinkV>> {
    if s.len() < 4 {
        None
    } else {
        spec_parse_children(s, 4, be_u32(s.subrange(0, 4)) as int)
    }
}

/// The entry bytes, unfolded from the front.
proof fn lemma_entries_first(s: Seq<ChildLinkV>)
    requires
        s.len() > 0,
    ensures
        spec_children_entries(s) == spec_child_bytes(s.first()) + spec_children_entries(
            s.drop_first(),
        ),
    decreases s.len(),
{
    if s.len() == 1 {
        assert(s.drop_last() =~= Seq::<ChildLinkV>::empty());
        assert(s.drop_first() =~= Seq::<ChildLinkV>::empty());
        assert(spec_children_entries(s) =~= spec_child_bytes(s.first()) + spec_children_entries(
            s.drop_first(),
        ));
    } else {
        let t = s.drop_last();
        lemma_entries_first(t);
        assert(t.first() == s.first());
        assert(s.drop_first().drop_last() =~= t.drop_first());
        assert(s.drop_first().last() == s.last());
        assert(spec_children_entries(s) =~= spec_child_bytes(s.first()) + spec_children_entries(
            s.drop_first(),
        ));
    }
}

/// Parsing inverts encoding for the entry bytes, at any offset.
#[verifier::rlimit(60)]
proof fn lemma_parse_entries(s: Seq<ChildLinkV>, buf: Seq<u8>, off: int)
    requires
        forall|i: int| 0 <= i < s.len() ==> child_wf(#[trigger] s[i]),
        0 <= off <= buf.len(),
        buf.subrange(off, buf.len() as int) == spec_children_entries(s),
    ensures
        spec_parse_children(buf, off, s.len() as int) == Some(s),
    decreases s.len(),
{
    if s.len() == 0 {
        assert(buf.subrange(off, buf.len() as int).len() == 0);
        assert(s =~= Seq::<ChildLinkV>::empty());
    } else {
        let c = s.first();
        assert(child_wf(c));
        lemma_entries_first(s);
        let cb = spec_child_bytes(c);
        let nl = c.name.len() as int;
        assert(cb.len() == 21 + nl);
        let rest = spec_children_entries(s.drop_first());
        assert(buf.len() - off == spec_children_entries(s).len());
        assert(buf.subrange(off, buf.len() as int) == cb + rest);
        assert(buf.subrange(off, off + 21 + nl) =~= cb);
        assert(cb.subrange(0, 2) =~= u16_be(c.name.len() as u16));
        assert(cb.subrange(2, 2 + nl) =~= c.name);
        assert(cb.subrange(2 + nl, 13 + nl) =~= spec_key_bytes(c.key));
        assert(cb.subrange(13 + nl, 21 + nl) =~= u64_be(c.base_key.bits));
        assert(buf.subrange(off, off + 2) =~= cb.subrange(0, 2));
        lemma_u16_be_round_trip(c.name.len() as u16);
        assert(be_u16(buf.subrange(off, off + 2)) as int == nl);
        assert(buf.subrange(off + 2, off + 2 + nl) =~= cb.subrange(2, 2 + nl));
        assert(buf.subrange(off + 2 + nl, off + 13 + nl) =~= cb.subrange(2 + nl, 13 + nl));
        lemma_key_bytes_round_trip(c.key, buf, off + 2 + nl);
        assert(buf.subrange(off + 13 + nl, off + 21 + nl) =~= cb.subrange(13 + nl, 21 + nl));
        lemma_u64_be_round_trip(c.base_key.bits);
        assert forall|j: int| 0 <= j < rest.len() implies buf.subrange(
            off + 21 + nl,
            buf.len() as int,
        )[j] == rest[j] by {
            assert(buf.subrange(off, buf.len() as int)[21 + nl + j] == (cb + rest)[21 + nl + j]);
        }
        assert(buf.subrange(off + 21 + nl, buf.len() as int) =~= rest);
        assert(forall|i: int|
            0 <= i < s.drop_first().len() ==> child_wf(#[trigger] s.drop_first()[i]));
        lemma_parse_entries(s.drop_first(), buf, off + 21 + nl);
        assert(seq![c] + s.drop_first() =~= s);
    }
}

/// Decoding inverts encoding for the child-link payload.
pub proof fn lemma_children_round_trip(s: Seq<ChildLinkV>)
    requires
        children_wf(s),
    ensures
        spec_decode_children(spec_children_bytes(s)) == Some(s),
{
    let buf = spec_children_bytes(s);
    assert(buf.subrange(0, 4) =~= u32_be(s.len() as u32));
    crate::bytes::lemma_u32_be_round_trip(s.len() as u32);
    assert(buf.subrange(4, buf.len() as int) =~= spec_children_entries(s));
    lemma_parse_entries(s, buf, 4);
}

/// Encode the child-link payload of a directory.
#[verifier::loop_isolation(false)]
pub fn encode_children(children: &Vec<ChildLink>) -> (r: Vec<u8>)
    requires
        children_wf(views_of(children@)),
    ensures
        r@ == spec_children_bytes(views_of(children@)),
{
    let ghost v = views_of(children@);
    let mut out: Vec<u8> = Vec::new();
    push_u32_be(&mut out, children.len() as u32);
    let mut i: usize = 0;
    while i < children.len()
        invariant
            i <= children@.len(),
            out@ == u32_be(children@.len() as u32) + spec_children_entries(v.take(i as int)),
        decreases children@.len() - i,
    {
        proof {
            assert(v[i as int] == children@[i as int]@);
            assert(child_wf(v[i as int]));
        }
        let c = &children[i];
        push_u16_be(&mut out, c.name.len() as u16);
        push_bytes(&mut out, &c.name);
        push_key(&mut out, &c.key);
        push_u64_be(&mut out, c.base_key.bits);
        proof {
            assert(v.take(i as int + 1).drop_last() =~= v.take(i as int));
            assert(v.take(i as int + 1).last() == v[i as int]);
            assert(out@ =~= u32_be(children@.len() as u32) + spec_children_entries(
                v.take(i as int + 1),
            ));
        }
        i = i + 1;
    }
    proof {
        assert(v.take(v.len() as int) =~= v);
    }
    out
}

/// What prefixing already-parsed entries onto a parse result yields.
pub open spec fn prepend_parsed(acc: Seq<ChildLinkV>, rest: Option<Seq<ChildLinkV>>) -> Option<
    Seq<ChildLinkV>,
> {
    match rest {
        None => None,
        Some(r) => Some(acc + r),
    }
}

/// Decode a child-link payload: the links exactly as encoded, or
/// `MalformedChunk` where the bytes do not parse.
#[verifier::loop_isolation(false)]
pub fn decode_children(buf: &Vec<u8>) -> (r: Result<Vec<ChildLink>, CryptreeError>)
    ensures
        match r {
            Ok(cs) => spec_decode_children(buf@) == Some(views_of(cs@)),
            Err(e) => spec_decode_children(buf@) == None::<Seq<ChildLinkV>> && e
                == CryptreeError::MalformedChunk,
        },
{
    let n: usize = buf.len();
    if n < 4 {
        return Err(CryptreeError::MalformedChunk);
    }
    let count = read_u32_be(buf, 0);
    let mut acc: Vec<ChildLink> = Vec::new();
    let mut off: usize = 4;
    let mut i: u32 = 0;
    proof {
        assert(views_of(acc@) =~= Seq::<ChildLinkV>::empty());
        match spec_parse_children(buf@, 4, count as int) {
            Some(rest) => {
                assert(views_of(acc@) + rest =~= rest);
            },
            None => {},
        }
    }
    while i < count
        invariant
            i <= count,
            4 <= off <= n,
            spec_decode_children(buf@) == prepend_parsed(
                views_of(acc@),
                spec_parse_children(buf@, off as int, count as int - i as int),
            ),
        decreases count - i,
    {
        if n - off < 21 {
            return Err(CryptreeError::MalformedChunk);
        }
        let nl = read_u16_be(buf, off) as usize;
        if n - off - 21 < nl {
            return Err(CryptreeError::MalformedChunk);
        }
        let name = copy_range(buf, off + 2, off + 2 + nl);
        let key = read_key_at(buf, off + 2 + nl);
        let base_key = SymKey::new(read_u64_be(buf, off + 13 + nl));
        let ghost prev = acc@;
        let ghost c = ChildLinkV { name: name@, key: key, base_key: base_key };
        acc.push(ChildLink { name, key, base_key });
        proof {
            assert(views_of(acc@) =~= views_of(prev) + seq![c]);
            match spec_parse_children(buf@, off as int + 21 + nl as int, count as int - i as int
                - 1) {
                Some(rest) => {
                    assert((views_of(prev) + (seq![c] + rest)) =~= (views_of(prev) + seq![c])
                        + rest);
                },
                None => {},
            }
        }
        off = off + 21 + nl;
        i = i + 1;
    }
    if off != n {
        return Err(CryptreeError::MalformedChunk);
    }
    Ok(acc)
}

/// Seal component 1 under the node's base key. The ciphertext length is
/// always exactly [`HEADER_BLOCK`], whatever the header holds.
pub fn seal_header(base_key: &SymKey, header: &ChunkHeader) -> (r: Vec<u8>)
    ensures
        r@ == spec_encrypt(base_key.bits, spec_header_bytes(*header), HEADER_BLOCK as int),
        r@.len() == HEADER_BLOCK,
{
    let plain = encode_header(header);
    let c = encrypt(base_key, &plain, HEADER_BLOCK);
    c
}

/// What opening component 1 under key `k` yields.
pub open spec fn spec_open_header(k: u64, c: Seq<u8>) -> Result<ChunkHeader, CryptreeError> {
    match spec_decrypt(k, c, HEADER_BLOCK as int) {
        Err(e) => Err(e),
        Ok(p) => match spec_decode_header(p) {
            Some(h) => Ok(h),
            None => Err(CryptreeError::MalformedChunk),
        },
    }
}

/// Open component 1 with the base key: the header exactly as sealed, or
/// the precise error of [`spec_open_header`].
pub fn open_header(base_key: &SymKey, c: &Vec<u8>) -> (r: Result<ChunkHeader, CryptreeError>)
    ensures
        match r {
            Ok(h) => spec_open_header(base_key.bits, c@) == Ok::<ChunkHeader, CryptreeError>(h),
            Err(e) => spec_open_header(base_key.bits, c@) == Err::<ChunkHeader, CryptreeError>(e),
        },
{
    match decrypt(base_key, c, HEADER_BLOCK) {
        Err(e) => Err(e),
        Ok(plain) => decode_header(&plain),
    }
}

/// Law: opening component 1 with the key that sealed it gives back the
/// header exactly.
pub proof fn lemma_header_seal_open(k: u64, h: ChunkHeader)
    ensures
        spec_open_header(k, spec_encrypt(k, spec_header_bytes(h), HEADER_BLOCK as int)) == Ok::<
            ChunkHeader,
            CryptreeError,
        >(h),
{
    lemma_header_round_trip(h);
    lemma_decrypt_round_trip(k, spec_header_bytes(h), HEADER_BLOCK as int);
}

/// Law: component 2 ciphertexts are a multiple of 4096 bytes and
/// component 3 ciphertexts a multiple of 16 bytes, for every payload
/// size including zero.
pub proof fn lemma_component_padding(k: u64, payload: Seq<u8>)
    ensures
        spec_encrypt(k, payload, BODY_BLOCK as int).len() as int % (BODY_BLOCK as int) == 0,
        spec_encrypt(k, payload, TAIL_BLOCK as int).len() as int % (TAIL_BLOCK as int) == 0,
{
    lemma_pad_amount(24 + payload.len() as int, BODY_BLOCK as int);
    lemma_pad_amount(24 + payload.len() as int, TAIL_BLOCK as int);
    assert(spec_encrypt(k, payload, BODY_BLOCK as int).len() == 24 + payload.len() + crate::crypto::pad_amount(24 + payload.len() as int, BODY_BLOCK as int));
    assert(spec_encrypt(k, payload, TAIL_BLOCK as int).len() == 24 + payload.len() + crate::crypto::pad_amount(24 + payload.len() as int, TAIL_BLOCK as int));
}

/// What opening component 2 as a directory body under key `k` yields.
pub open spec fn spec_open_children(k: u64, c: Seq<u8>) -> Result<Seq<ChildLinkV>, CryptreeError> {
    match spec_decrypt(k, c, BODY_BLOCK as int) {
        Err(e) => Err(e),
        Ok(p) => match spec_decode_children(p) {
            Some(cs) => Ok(cs),
            None => Err(CryptreeError::MalformedChunk),
        },
    }
}

/// Seal component 2 of a directory under its base key: the child-link
/// set. The ciphertext length is a multiple of 4096 bytes.
pub fn seal_children(base_key: &SymKey, children: &Vec<ChildLink>) -> (r: Vec<u8>)
    requires
        children_wf(views_of(children@)),
        spec_children_bytes(views_of(children@)).len() + 24 + BODY_BLOCK <= usize::MAX,
    ensures
        r@ == spec_encrypt(
            base_key.bits,
            spec_children_bytes(views_of(children@)),
            BODY_BLOCK as int,
        ),
        r@.len() as int % (BODY_BLOCK as int) == 0,
{
    let plain = encode_children(children);
    encrypt(base_key, &plain, BODY_BLOCK)
}

/// Open component 2 of a directory with its base key: the child links
/// exactly as sealed, or the precise error of [`spec_open_children`].
pub fn open_children(base_key: &SymKey, c: &Vec<u8>) -> (r: Result<Vec<ChildLink>, CryptreeError>)
    ensures
        match r {
            Ok(cs) => spec_open_children(base_key.bits, c@) == Ok::<
                Seq<ChildLinkV>,
                CryptreeError,
            >(views_of(cs@)),
            Err(e) => spec_open_children(base_key.bits, c@) == Err::<
                Seq<ChildLinkV>,
                CryptreeError,
            >(e),
        },
{
    match decrypt(base_key, c, BODY_BLOCK) {
        Err(e) => Err(e),
        Ok(plain) => decode_children(&plain),
    }
}

/// Law: opening component 2 with the base key that sealed it gives back
/// the child links exactly.
#[verifier::rlimit(100)]
pub proof fn lemma_children_seal_open(k: u64, s: Seq<ChildLinkV>)
    requires
        children_wf(s),
        spec_children_bytes(s).len() < 0x1_0000_0000_0000_0000,
    ensures
        spec_open_children(k, spec_encrypt(k, spec_children_bytes(s), BODY_BLOCK as int)) == Ok::<
            Seq<ChildLinkV>,
            CryptreeError,
        >(s),
{
    lemma_children_round_trip(s);
    lemma_decrypt_round_trip(k, spec_children_bytes(s), BODY_BLOCK as int);
}

/// The payload facts of a one-entry child-link list.
proof fn lemma_single_entry_bytes(c: ChildLinkV)
    requires
        child_wf(c),
    ensures
        spec_children_entries(seq![c]) == spec_child_bytes(c),
        spec_children_bytes(seq![c]).len() == 25 + c.name.len(),
        children_wf(seq![c]),
{
    assert(seq![c].drop_last() =~= Seq::<ChildLinkV>::empty());
    assert(spec_children_entries(Seq::<ChildLinkV>::empty()) == Seq::<u8>::empty());
    assert(Seq::<u8>::empty() + spec_child_bytes(c) =~= spec_child_bytes(c));
    assert(spec_children_entries(seq![c]) =~= spec_child_bytes(c));
    assert(seq![c][0] == c);
}

/// Law: a link node's child-link payload holds exactly one child, and
/// beyond that child's capability it carries only a filename.
#[verifier::rlimit(100)]
pub proof fn lemma_link_node_single_child(k: u64, c: ChildLinkV)
    requires
        child_wf(c),
    ensures
        spec_open_children(k, spec_encrypt(k, spec_children_bytes(seq![c]), BODY_BLOCK as int))
            == Ok::<Seq<ChildLinkV>, CryptreeError>(seq![c]),
        spec_children_bytes(seq![c]).len() == 25 + c.name.len(),
{
    lemma_single_entry_bytes(c);
    lemma_children_seal_open(k, seq![c]);
}

/// Seal the child-link payload of a link node: a degenerate directory
/// with exactly one child. Link nodes are inserted when write access is
/// delegated, so the grantee can neither discover nor collide with
/// siblings it cannot see.
pub fn seal_link_node(base_key: &SymKey, child: ChildLink) -> (r: Vec<u8>)
    requires
        child@.name.len() <= 0xFFFF,
        child@.name.len() + 49 + BODY_BLOCK <= usize::MAX,
    ensures
        spec_open_children(base_key.bits, r@) == Ok::<Seq<ChildLinkV>, CryptreeError>(
            seq![child@],
        ),
        r@.len() as int % (BODY_BLOCK as int) == 0,
{
    let ghost cv = child@;
    let mut one: Vec<ChildLink> = Vec::new();
    one.push(child);
    proof {
        assert(views_of(one@) =~= seq![cv]);
        lemma_link_node_single_child(base_key.bits, cv);
    }
    seal_children(base_key, &one)
}

/// Seal component 2 of a file under its data key: one chunk of file
/// content. The ciphertext length is a multiple of 4096 bytes.
pub fn seal_file_chunk(data_key: &SymKey, data: &Vec<u8>) -> (r: Vec<u8>)
    requires
        data@.len() + 24 + BODY_BLOCK <= usize::MAX,
    ensures
        r@ == spec_encrypt(data_key.bits, data@, BODY_BLOCK as int),
        r@.len() as int % (BODY_BLOCK as int) == 0,
{
    encrypt(data_key, data, BODY_BLOCK)
}

/// Open component 2 of a file with its data key: the content chunk
/// exactly as sealed, or the precise error of `spec_decrypt`.
pub fn open_file_chunk(data_key: &SymKey, c: &Vec<u8>) -> (r: Result<Vec<u8>, CryptreeError>)
    ensures
        match r {
            Ok(m) => spec_decrypt(data_key.bits, c@, BODY_BLOCK as int) == Ok::<
                Seq<u8>,
                CryptreeError,
            >(m@),
            Err(e) => spec_decrypt(data_key.bits, c@, BODY_BLOCK as int) == Err::<
                Seq<u8>,
                CryptreeError,
            >(e),
        },
{
    decrypt(data_key, c, BODY_BLOCK)
}

/// The relative link from a node up to its parent: where the parent
/// lives and the parent's parent key.
#[derive(Clone, Copy, Debug)]
pub struct ParentLink {
    pub location: BlockStoreKey,
    pub parent_parent_key: SymKey,
}

/// The plaintext of component 3: an optional relative parent link plus
/// node metadata (file properties). The parent link is present on the
/// first chunk of every node except the root.
#[derive(Clone, Debug)]
pub struct NodeTail {
    pub parent_link: Option<ParentLink>,
    pub metadata: Vec<u8>,
}

/// The mathematical content of component 3's plaintext.
pub struct NodeTailV {
    pub parent_link: Option<ParentLink>,
    pub metadata: Seq<u8>,
}

impl View for NodeTail {
    type V = NodeTailV;

    open spec fn view(&self) -> NodeTailV {
        NodeTailV { parent_link: self.parent_link, metadata: self.metadata@ }
    }
}

/// The wire bytes of component 3's plaintext: a presence flag, 19 bytes
/// of parent link or zeros, then the metadata.
pub open spec fn spec_tail_bytes(t: NodeTailV) -> Seq<u8> {
    (match t.parent_link {
        Some(p) => seq![1u8] + spec_key_bytes(p.location) + u64_be(p.parent_parent_key.bits),
        None => seq![0u8] + zeros(19),
    }) + t.metadata
}

/// The tail read back from its wire bytes, or `None` where they do not
/// match the canonical layout.
pub open spec fn spec_decode_tail(s: Seq<u8>) -> Option<NodeTailV> {
    if s.len() < 20 {
        None
    } else {
        let flag = s[0];
        if flag != 0 && flag != 1 {
            None
        } else if flag == 0 && s.subrange(1, 20) != zeros(19) {
            None
        } else {
            Some(
                NodeTailV {
                    parent_link: if flag == 1 {
                        Some(
                            ParentLink {
                                location: spec_read_key(s, 1),
                                parent_parent_key: SymKey { bits: be_u64(s.subrange(12, 20)) },
                            },
                        )
                    } else {
                        None
                    },
                    metadata: s.skip(20),
                },
            )
        }
    }
}

/// Decoding inverts encoding for the tail layout.
pub proof fn lemma_tail_round_trip(t: NodeTailV)
    ensures
        spec_tail_bytes(t).len() == 20 + t.metadata.len(),
        spec_decode_tail(spec_tail_bytes(t)) == Some(t),
{
    let s = spec_tail_bytes(t);
    match t.parent_link {
        Some(p) => {
            assert(s[0] == 1u8);
            assert(s.subrange(1, 12) =~= spec_key_bytes(p.location));
            lemma_key_bytes_round_trip(p.location, s, 1);
            assert(s.subrange(12, 20) =~= u64_be(p.parent_parent_key.bits));
            lemma_u64_be_round_trip(p.parent_parent_key.bits);
        },
        None => {
            assert(s[0] == 0u8);
            assert(s.subrange(1, 20) =~= zeros(19));
        },
    }
    assert(s.skip(20) =~= t.metadata);
}

/// Encode component 3's plaintext.
pub fn encode_tail(t: &NodeTail) -> (r: Vec<u8>)
    ensures
        r@ == spec_tail_bytes(t@),
{
    let mut out: Vec<u8> = Vec::new();
    match &t.parent_link {
        Some(p) => {
            out.push(1u8);
            push_key(&mut out, &p.location);
            push_u64_be(&mut out, p.parent_parent_key.bits);
        },
        None => {
            out.push(0u8);
            push_zeros(&mut out, 19);
        },
    }
    push_bytes(&mut out, &t.metadata);
    proof {
        assert(out@ =~= spec_tail_bytes(t@));
    }
    out
}

/// Decode component 3's plaintext: the tail exactly as encoded, or
/// `MalformedChunk` where the bytes do not match the canonical layout.
#[verifier::loop_isolation(false)]
pub fn decode_tail(buf: &Vec<u8>) -> (r: Result<NodeTail, CryptreeError>)
    ensures
        match r {
            Ok(t) => spec_decode_tail(buf@) == Some(t@),
            Err(e) => spec_decode_tail(buf@) == None::<NodeTailV> && e
                == CryptreeError::MalformedChunk,
        },
{
    let n: usize = buf.len();
    if n < 20 {
        return Err(CryptreeError::MalformedChunk);
    }
    let flag = buf[0];
    if flag > 1 {
        return Err(CryptreeError::MalformedChunk);
    }
    let parent_link = if flag == 1 {
        let location = read_key_at(buf, 1);
        let parent_parent_key = SymKey::new(read_u64_be(buf, 12));
        Some(ParentLink { location, parent_parent_key })
    } else {
        let mut j: usize = 1;
        while j < 20
            invariant
                1 <= j <= 20,
                forall|i: int| 1 <= i < j ==> buf@[i] == 0u8,
            decreases 20 - j,
        {
            if buf[j] != 0 {
                proof {
                    assert(buf@.subrange(1, 20)[j - 1] != 0u8);
                }
                return Err(CryptreeError::MalformedChunk);
            }
            j = j + 1;
        }
        proof {
            assert(buf@.subrange(1, 20) =~= zeros(19));
        }
        None
    };
    let metadata = copy_range(buf, 20, n);
    proof {
        assert(metadata@ =~= buf@.skip(20));
    }
    Ok(NodeTail { parent_link, metadata })
}

/// What opening component 3 under the parent key `k` yields.
pub open spec fn spec_open_tail(k: u64, c: Seq<u8>) -> Result<NodeTailV, CryptreeError> {
    match spec_decrypt(k, c, TAIL_BLOCK as int) {
        Err(e) => Err(e),
        Ok(p) => match spec_decode_tail(p) {
            Some(t) => Ok(t),
            None => Err(CryptreeError::MalformedChunk),
        },
    }
}

/// Seal component 3 under the node's parent key: parent-traversal and
/// metadata visibility are a separate capability from child-content
/// visibility. The ciphertext length is a multiple of 16 bytes.
pub fn seal_tail(parent_key: &SymKey, tail: &NodeTail) -> (r: Vec<u8>)
    requires
        tail@.metadata.len() + 44 + TAIL_BLOCK <= usize::MAX,
    ensures
        r@ == spec_encrypt(parent_key.bits, spec_tail_bytes(tail@), TAIL_BLOCK as int),
        r@.len() as int % (TAIL_BLOCK as int) == 0,
{
    let plain = encode_tail(tail);
    encrypt(parent_key, &plain, TAIL_BLOCK)
}

/// Open component 3 with the parent key: the tail exactly as sealed, or
/// the precise error of [`spec_open_tail`].
pub fn open_tail(parent_key: &SymKey, c: &Vec<u8>) -> (r: Result<NodeTail, CryptreeError>)
    ensures
        match r {
            Ok(t) => spec_open_tail(parent_key.bits, c@) == Ok::<NodeTailV, CryptreeError>(t@),
            Err(e) => spec_open_tail(parent_key.bits, c@) == Err::<NodeTailV, CryptreeError>(e),
        },
{
    match decrypt(parent_key, c, TAIL_BLOCK) {
        Err(e) => Err(e),
        Ok(plain) => decode_tail(&plain),
    }
}

/// Law: opening component 3 with the parent key that sealed it gives
/// back the parent link and metadata exactly.
#[verifier::rlimit(100)]
pub proof fn lemma_tail_seal_open(k: u64, t: NodeTailV)
    requires
        t.metadata.len() + 20 < 0x1_0000_0000_0000_0000,
    ensures
        spec_open_tail(k, spec_encrypt(k, spec_tail_bytes(t), TAIL_BLOCK as int)) == Ok::<
            NodeTailV,
            CryptreeError,
        >(t),
{
    lemma_tail_round_trip(t);
    lemma_decrypt_round_trip(k, spec_tail_bytes(t), TAIL_BLOCK as int);
}

} // verus!
