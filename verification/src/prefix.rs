//! Prefix key encoding, as the store's tree keeps its keys: a key is
//! stored as the length of the prefix it shares with its node's low bound,
//! followed by the remaining bytes.

use core::cmp::Ordering;
use vstd::prelude::*;

use crate::bytes::{lex_cmp, lex_cmp_bytes, lex_le};

verus! {

/// Length of the longest common prefix of two byte strings.
pub open spec fn common_prefix_len(a: Seq<u8>, b: Seq<u8>) -> int
    decreases a.len(),
{
    if a.len() == 0 || b.len() == 0 || a[0] != b[0] {
        0
    } else {
        1 + common_prefix_len(a.skip(1), b.skip(1))
    }
}

/// The common prefix never outruns either string.
pub proof fn lemma_common_prefix_len_bounds(a: Seq<u8>, b: Seq<u8>)
    ensures
        0 <= common_prefix_len(a, b) <= a.len(),
        common_prefix_len(a, b) <= b.len(),
    decreases a.len(),
{
    if a.len() == 0 || b.len() == 0 || a[0] != b[0] {
    } else {
        lemma_common_prefix_len_bounds(a.skip(1), b.skip(1));
    }
}

/// A key encoded against a prefix: the shared length (capped at one byte),
/// then the unshared remainder.
pub open spec fn prefix_encode_spec(prefix: Seq<u8>, buf: Seq<u8>) -> Seq<u8> {
    let p = if common_prefix_len(prefix, buf) > 255 {
        255
    } else {
        common_prefix_len(prefix, buf)
    };
    seq![p as u8] + buf.skip(p)
}

/// A key decoded against a prefix: that many prefix bytes, then the rest.
pub open spec fn prefix_decode_spec(prefix: Seq<u8>, buf: Seq<u8>) -> Seq<u8>
    recommends
        buf.len() > 0,
        buf[0] <= prefix.len(),
{
    prefix.take(buf[0] as int) + buf.skip(1)
}

/// A key re-encoded from an old prefix to a new one; the shared length is
/// capped one below the byte maximum.
pub open spec fn prefix_reencode_spec(
    old_prefix: Seq<u8>,
    new_prefix: Seq<u8>,
    buf: Seq<u8>,
) -> Seq<u8>
    recommends
        buf.len() > 0,
        buf[0] <= old_prefix.len(),
{
    let d = prefix_decode_spec(old_prefix, buf);
    let p = if common_prefix_len(new_prefix, d) > 254 {
        254
    } else {
        common_prefix_len(new_prefix, d)
    };
    seq![p as u8] + d.skip(p)
}

/// Order of two encoded keys under one prefix: a longer shared prefix
/// sorts first, then the remainders lexicographically.
pub open spec fn prefix_cmp_spec(a: Seq<u8>, b: Seq<u8>) -> Ordering {
    if a.len() == 0 && b.len() == 0 {
        Ordering::Equal
    } else if a.len() == 0 {
        Ordering::Less
    } else if b.len() == 0 {
        Ordering::Greater
    } else if a[0] > b[0] {
        Ordering::Less
    } else if a[0] < b[0] {
        Ordering::Greater
    } else {
        lex_cmp(a.skip(1), b.skip(1))
    }
}

/// Copy a slice range onto the end of a vector.
fn extend_from(r: &mut Vec<u8>, b: &[u8], start: usize, end: usize)
    requires
        start <= end <= b@.len(),
    ensures
        final(r)@ == old(r)@ + b@.subrange(start as int, end as int),
{
    let ghost pre = r@;
    let mut i: usize = start;
    proof {
        assert(pre + b@.subrange(start as int, start as int) =~= pre);
    }
    while i < end
        invariant
            start <= i <= end <= b@.len(),
            r@ == pre + b@.subrange(start as int, i as int),
        decreases end - i,
    {
        r.push(b[i]);
        proof {
            assert(pre + b@.subrange(start as int, i as int) + seq![b@[i as int]] =~= pre
                + b@.subrange(start as int, i + 1 as int));
        }
        i += 1;
    }
}

/// Encode `buf` against `prefix`.
pub fn prefix_encode(prefix: &[u8], buf: &[u8]) -> (r: Vec<u8>)
    requires
        lex_le(prefix@, buf@),
    ensures
        r@ == prefix_encode_spec(prefix@, buf@),
{
    let mut i: usize = 0;
    proof {
        assert(prefix@.skip(0) =~= prefix@);
        assert(buf@.skip(0) =~= buf@);
    }
    while i < 255 && i < prefix.len() && i < buf.len() && prefix[i] == buf[i]
        invariant
            i <= 255,
            i <= prefix@.len(),
            i <= buf@.len(),
            common_prefix_len(prefix@, buf@) == i + common_prefix_len(
                prefix@.skip(i as int),
                buf@.skip(i as int),
            ),
        decreases 255 - i,
    {
        proof {
            assert(prefix@.skip(i as int).skip(1) =~= prefix@.skip(i + 1 as int));
            assert(buf@.skip(i as int).skip(1) =~= buf@.skip(i + 1 as int));
        }
        i += 1;
    }
    proof {
        lemma_common_prefix_len_bounds(prefix@.skip(i as int), buf@.skip(i as int));
        if i < 255 {
            assert(common_prefix_len(prefix@.skip(i as int), buf@.skip(i as int)) == 0);
        }
    }
    let mut r: Vec<u8> = Vec::new();
    r.push(i as u8);
    extend_from(&mut r, buf, i, buf.len());
    proof {
        assert(buf@.subrange(i as int, buf@.len() as int) =~= buf@.skip(i as int));
        assert(r@ =~= prefix_encode_spec(prefix@, buf@));
    }
    r
}

/// Decode an encoded key against its prefix.
pub fn prefix_decode(prefix: &[u8], buf: &[u8]) -> (r: Vec<u8>)
    requires
        buf@.len() > 0,
        buf@[0] <= prefix@.len(),
    ensures
        r@ == prefix_decode_spec(prefix@, buf@),
{
    let l = buf[0] as usize;
    let mut r: Vec<u8> = Vec::new();
    extend_from(&mut r, prefix, 0, l);
    extend_from(&mut r, buf, 1, buf.len());
    proof {
        assert(prefix@.subrange(0, l as int) =~= prefix@.take(buf@[0] as int));
        assert(buf@.subrange(1, buf@.len() as int) =~= buf@.skip(1));
        assert(r@ =~= prefix_decode_spec(prefix@, buf@));
    }
    r
}

/// Re-encode an encoded key from one prefix to another.
pub fn prefix_reencode(old_prefix: &[u8], new_prefix: &[u8], buf: &[u8]) -> (r: Vec<u8>)
    requires
        buf@.len() > 0,
        buf@[0] <= old_prefix@.len(),
    ensures
        r@ == prefix_reencode_spec(old_prefix@, new_prefix@, buf@),
{
    let decoded = prefix_decode(old_prefix, buf);
    let ghost d = decoded@;
    let mut i: usize = 0;
    proof {
        assert(new_prefix@.skip(0) =~= new_prefix@);
        assert(d.skip(0) =~= d);
    }
    while i < 254 && i < new_prefix.len() && i < decoded.len() && new_prefix[i] == decoded[i]
        invariant
            i <= 254,
            i <= new_prefix@.len(),
            i <= d.len(),
            d == decoded@,
            common_prefix_len(new_prefix@, d) == i + common_prefix_len(
                new_prefix@.skip(i as int),
                d.skip(i as int),
            ),
        decreases 254 - i,
    {
        proof {
            assert(new_prefix@.skip(i as int).skip(1) =~= new_prefix@.skip(i + 1 as int));
            assert(d.skip(i as int).skip(1) =~= d.skip(i + 1 as int));
        }
        i += 1;
    }
    proof {
        lemma_common_prefix_len_bounds(new_prefix@.skip(i as int), d.skip(i as int));
        if i < 254 {
            assert(common_prefix_len(new_prefix@.skip(i as int), d.skip(i as int)) == 0);
        }
    }
    let mut r: Vec<u8> = Vec::new();
    r.push(i as u8);
    extend_from(&mut r, decoded.as_slice(), i, decoded.len());
    proof {
        assert(d.subrange(i as int, d.len() as int) =~= d.skip(i as int));
        assert(r@ =~= prefix_reencode_spec(old_prefix@, new_prefix@, buf@));
    }
    r
}

/// Compare two encoded keys under the same prefix.
pub fn prefix_cmp(a: &[u8], b: &[u8]) -> (r: Ordering)
    ensures
        r == prefix_cmp_spec(a@, b@),
{
    if a.is_empty() && b.is_empty() {
        Ordering::Equal
    } else if a.is_empty() {
        Ordering::Less
    } else if b.is_empty() {
        Ordering::Greater
    } else if a[0] > b[0] {
        Ordering::Less
    } else if a[0] < b[0] {
        Ordering::Greater
    } else {
        let ghost ga = a@;
        let r = lex_cmp_bytes(&a[1..a.len()], &b[1..b.len()]);
        proof {
            assert(a@.subrange(1, a@.len() as int) =~= a@.skip(1));
            assert(b@.subrange(1, b@.len() as int) =~= b@.skip(1));
        }
        r
    }
}

/// Compare an encoded key `a` against a plain key `b` under `prefix`.
pub fn prefix_cmp_encoded(a: &[u8], b: &[u8], prefix: &[u8]) -> (r: Ordering)
    requires
        a@.len() > 0,
        a@[0] <= prefix@.len(),
    ensures
        r == lex_cmp(prefix_decode_spec(prefix@, a@), b@),
{
    let decoded = prefix_decode(prefix, a);
    lex_cmp_bytes(decoded.as_slice(), b)
}

} // verus!
