//! Byte-level encodings shared by the whole engine: the canonical big-endian
//! form of a timestamp, the namespaced store keys, and lexicographic
//! comparison of byte strings.

use core::cmp::Ordering;
use vstd::prelude::*;

verus! {

/// Big-endian 8-byte encoding of a timestamp or version identifier.
pub open spec fn u64_be(t: u64) -> Seq<u8> {
    seq![
        ((t >> 56) & 0xff) as u8,
        ((t >> 48) & 0xff) as u8,
        ((t >> 40) & 0xff) as u8,
        ((t >> 32) & 0xff) as u8,
        ((t >> 24) & 0xff) as u8,
        ((t >> 16) & 0xff) as u8,
        ((t >> 8) & 0xff) as u8,
        (t & 0xff) as u8,
    ]
}

/// The value read back from a big-endian 8-byte encoding.
pub open spec fn u64_of_be(s: Seq<u8>) -> u64
    recommends
        s.len() == 8,
{
    (((s[0] as u64) << 56) | ((s[1] as u64) << 48) | ((s[2] as u64) << 40) | ((s[3] as u64) << 32)
        | ((s[4] as u64) << 24) | ((s[5] as u64) << 16) | ((s[6] as u64) << 8) | (s[7] as u64)) as u64
}

/// Decoding inverts encoding: the timestamp round-trips through its bytes.
pub proof fn lemma_u64_be_round_trip(t: u64)
    ensures
        u64_of_be(u64_be(t)) == t,
{
    let s = u64_be(t);
    assert(s[0] == ((t >> 56) & 0xff) as u8 && s[1] == ((t >> 48) & 0xff) as u8
        && s[2] == ((t >> 40) & 0xff) as u8 && s[3] == ((t >> 32) & 0xff) as u8
        && s[4] == ((t >> 24) & 0xff) as u8 && s[5] == ((t >> 16) & 0xff) as u8
        && s[6] == ((t >> 8) & 0xff) as u8 && s[7] == (t & 0xff) as u8);
    assert((((((t >> 56) & 0xff) as u8 as u64) << 56) | ((((t >> 48) & 0xff) as u8 as u64) << 48)
        | ((((t >> 40) & 0xff) as u8 as u64) << 40) | ((((t >> 32) & 0xff) as u8 as u64) << 32)
        | ((((t >> 24) & 0xff) as u8 as u64) << 24) | ((((t >> 16) & 0xff) as u8 as u64) << 16)
        | ((((t >> 8) & 0xff) as u8 as u64) << 8) | ((t & 0xff) as u8 as u64)) as u64 == t)
        by (bit_vector);
}

/// Encoding inverts decoding: any 8 bytes round-trip through their value.
pub proof fn lemma_u64_of_be_round_trip(s: Seq<u8>)
    requires
        s.len() == 8,
    ensures
        u64_be(u64_of_be(s)) == s,
{
    let b0 = s[0] as u64;
    let b1 = s[1] as u64;
    let b2 = s[2] as u64;
    let b3 = s[3] as u64;
    let b4 = s[4] as u64;
    let b5 = s[5] as u64;
    let b6 = s[6] as u64;
    let b7 = s[7] as u64;
    let x = u64_of_be(s);
    assert(x == ((b0 << 56) | (b1 << 48) | (b2 << 40) | (b3 << 32) | (b4 << 24) | (b5 << 16) | (b6
        << 8) | b7) as u64);
    let y = ((b0 << 56) | (b1 << 48) | (b2 << 40) | (b3 << 32) | (b4 << 24) | (b5 << 16) | (b6 << 8)
        | b7) as u64;
    assert(((y >> 56) & 0xff) as u8 as u64 == b0 && ((y >> 48) & 0xff) as u8 as u64 == b1 && ((y
        >> 40) & 0xff) as u8 as u64 == b2 && ((y >> 32) & 0xff) as u8 as u64 == b3 && ((y >> 24)
        & 0xff) as u8 as u64 == b4 && ((y >> 16) & 0xff) as u8 as u64 == b5 && ((y >> 8)
        & 0xff) as u8 as u64 == b6 && (y & 0xff) as u8 as u64 == b7) by (bit_vector)
        requires
            b0 < 256 && b1 < 256 && b2 < 256 && b3 < 256 && b4 < 256 && b5 < 256 && b6 < 256 && b7
                < 256 && y == ((b0 << 56) | (b1 << 48) | (b2 << 40) | (b3 << 32) | (b4 << 24) | (b5
                << 16) | (b6 << 8) | b7) as u64,
    ;
    assert(u64_be(x) =~= s);
}

/// Distinct timestamps have distinct byte encodings.
pub proof fn lemma_u64_be_injective(a: u64, b: u64)
    requires
        u64_be(a) == u64_be(b),
    ensures
        a == b,
{
    lemma_u64_be_round_trip(a);
    lemma_u64_be_round_trip(b);
}

/// Store key that holds the version list of an application key.
pub open spec fn at_key(k: Seq<u8>) -> Seq<u8> {
    seq![64u8] + k
}

/// Store key of the pending write-set journal record of a transaction.
pub open spec fn bang_key(t: u64) -> Seq<u8> {
    seq![33u8] + u64_be(t)
}

/// Store key under which the value bytes of one version live.
pub open spec fn version_key(v: u64) -> Seq<u8> {
    u64_be(v)
}

/// Store key of the durable timestamp checkpoint.
pub open spec fn ts_persist_key() -> Seq<u8> {
    seq![116u8, 120u8, 95u8, 112u8, 101u8, 114u8, 115u8, 105u8, 115u8, 116u8]
}

pub fn ts_to_bytes(ts: u64) -> (r: Vec<u8>)
    ensures
        r@ == u64_be(ts),
{
    proof {
        assert((ts >> 56) & 0xff < 256 && (ts >> 48) & 0xff < 256 && (ts >> 40) & 0xff < 256
            && (ts >> 32) & 0xff < 256 && (ts >> 24) & 0xff < 256 && (ts >> 16) & 0xff < 256
            && (ts >> 8) & 0xff < 256 && ts & 0xff < 256) by (bit_vector);
    }
    let mut v: Vec<u8> = Vec::new();
    v.push(((ts >> 56) & 0xff) as u8);
    v.push(((ts >> 48) & 0xff) as u8);
    v.push(((ts >> 40) & 0xff) as u8);
    v.push(((ts >> 32) & 0xff) as u8);
    v.push(((ts >> 24) & 0xff) as u8);
    v.push(((ts >> 16) & 0xff) as u8);
    v.push(((ts >> 8) & 0xff) as u8);
    v.push((ts & 0xff) as u8);
    proof {
        assert(v@ =~= u64_be(ts));
    }
    v
}

pub fn bytes_to_ts(bytes: &[u8]) -> (r: u64)
    requires
        bytes@.len() >= 8,
    ensures
        r == u64_of_be(bytes@.subrange(0, 8)),
{
    let r = ((bytes[0] as u64) << 56) | ((bytes[1] as u64) << 48) | ((bytes[2] as u64) << 40)
        | ((bytes[3] as u64) << 32) | ((bytes[4] as u64) << 24) | ((bytes[5] as u64) << 16)
        | ((bytes[6] as u64) << 8) | (bytes[7] as u64);
    proof {
        let s = bytes@.subrange(0, 8);
        assert(s[0] == bytes@[0] && s[1] == bytes@[1] && s[2] == bytes@[2] && s[3] == bytes@[3]
            && s[4] == bytes@[4] && s[5] == bytes@[5] && s[6] == bytes@[6] && s[7] == bytes@[7]);
    }
    r
}

/// Prefix an application key with the version-list namespace byte.
pub fn key_safety_pad(key: &Vec<u8>) -> (r: Vec<u8>)
    ensures
        r@ == at_key(key@),
{
    let mut r: Vec<u8> = Vec::new();
    r.push(64u8);
    let mut i: usize = 0;
    while i < key.len()
        invariant
            i <= key@.len(),
            r@ == seq![64u8] + key@.subrange(0, i as int),
        decreases key@.len() - i,
    {
        r.push(key[i]);
        proof {
            assert(seq![64u8] + key@.subrange(0, i as int) + seq![key@[i as int]] =~= seq![64u8]
                + key@.subrange(0, i + 1 as int));
        }
        i += 1;
    }
    proof {
        assert(key@.subrange(0, key@.len() as int) =~= key@);
    }
    r
}

/// Build the journal key of a transaction's write set.
pub fn writeset_key(ts: u64) -> (r: Vec<u8>)
    ensures
        r@ == bang_key(ts),
{
    let mut r: Vec<u8> = Vec::with_capacity(9);
    r.push(33u8);
    let ts_bytes = ts_to_bytes(ts);
    let mut i: usize = 0;
    while i < ts_bytes.len()
        invariant
            i <= ts_bytes@.len(),
            ts_bytes@ == u64_be(ts),
            r@ == seq![33u8] + ts_bytes@.subrange(0, i as int),
        decreases ts_bytes@.len() - i,
    {
        r.push(ts_bytes[i]);
        proof {
            assert(seq![33u8] + ts_bytes@.subrange(0, i as int) + seq![ts_bytes@[i as int]]
                =~= seq![33u8] + ts_bytes@.subrange(0, i + 1 as int));
        }
        i += 1;
    }
    proof {
        assert(ts_bytes@.subrange(0, ts_bytes@.len() as int) =~= ts_bytes@);
    }
    r
}

/// Build the durable checkpoint key.
pub fn persist_key_bytes() -> (r: Vec<u8>)
    ensures
        r@ == ts_persist_key(),
{
    let mut r: Vec<u8> = Vec::new();
    r.push(116u8);
    r.push(120u8);
    r.push(95u8);
    r.push(112u8);
    r.push(101u8);
    r.push(114u8);
    r.push(115u8);
    r.push(105u8);
    r.push(115u8);
    r.push(116u8);
    proof {
        assert(r@ =~= ts_persist_key());
    }
    r
}

/// A version key of an in-range version starts with a zero byte.
pub proof fn lemma_version_key_shape(v: u64)
    requires
        v < 0x100000000000000,
    ensures
        version_key(v).len() == 8,
        version_key(v)[0] == 0,
{
    assert((v >> 56) & 0xff == 0) by (bit_vector)
        requires
            v < 0x100000000000000u64,
    ;
}

/// Distinct versions have distinct version keys.
pub proof fn lemma_version_keys_distinct(a: u64, b: u64)
    requires
        a != b,
    ensures
        version_key(a) != version_key(b),
{
    if version_key(a) == version_key(b) {
        lemma_u64_be_injective(a, b);
    }
}

/// Distinct application keys have distinct version-list keys.
pub proof fn lemma_at_keys_distinct(k1: Seq<u8>, k2: Seq<u8>)
    requires
        k1 != k2,
    ensures
        at_key(k1) != at_key(k2),
{
    if at_key(k1) == at_key(k2) {
        assert(at_key(k1).skip(1) =~= k1);
        assert(at_key(k2).skip(1) =~= k2);
    }
}

/// Lexicographic order on byte strings, as the store's scan sees keys.
pub open spec fn lex_cmp(a: Seq<u8>, b: Seq<u8>) -> Ordering
    decreases a.len(),
{
    if a.len() == 0 && b.len() == 0 {
        Ordering::Equal
    } else if a.len() == 0 {
        Ordering::Less
    } else if b.len() == 0 {
        Ordering::Greater
    } else if a[0] < b[0] {
        Ordering::Less
    } else if a[0] > b[0] {
        Ordering::Greater
    } else {
        lex_cmp(a.skip(1), b.skip(1))
    }
}

pub open spec fn lex_le(a: Seq<u8>, b: Seq<u8>) -> bool {
    lex_cmp(a, b) != Ordering::Greater
}

pub fn lex_cmp_bytes(a: &[u8], b: &[u8]) -> (r: Ordering)
    ensures
        r == lex_cmp(a@, b@),
{
    let mut i: usize = 0;
    proof {
        assert(a@.skip(0) =~= a@);
        assert(b@.skip(0) =~= b@);
    }
    while i < a.len() && i < b.len() && a[i] == b[i]
        invariant
            i <= a@.len(),
            i <= b@.len(),
            lex_cmp(a@, b@) == lex_cmp(a@.skip(i as int), b@.skip(i as int)),
        decreases a@.len() - i,
    {
        proof {
            assert(a@.skip(i as int).skip(1) =~= a@.skip(i + 1 as int));
            assert(b@.skip(i as int).skip(1) =~= b@.skip(i + 1 as int));
        }
        i += 1;
    }
    proof {
        assert(a@.skip(i as int).len() == a@.len() - i);
        assert(b@.skip(i as int).len() == b@.len() - i);
    }
    if i < a.len() && i < b.len() {
        if a[i] < b[i] {
            Ordering::Less
        } else {
            Ordering::Greater
        }
    } else if i < a.len() {
        Ordering::Greater
    } else if i < b.len() {
        Ordering::Less
    } else {
        Ordering::Equal
    }
}

} // verus!
