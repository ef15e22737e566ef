//! Canonical byte encodings of the two persistent record shapes: the version
//! list stored under an `@`-key, and the write-set key list stored under a
//! `!`-key.  Both are length-prefixed big-endian encodings that round-trip
//! deterministically.

use vstd::prelude::*;

use crate::bytes::{u64_be, u64_of_be};

verus! {

/// Body of an encoded version list: 16 bytes per `(wts, version)` pair.
pub open spec fn versions_body(vs: Seq<(u64, u64)>) -> Seq<u8>
    decreases vs.len(),
{
    if vs.len() == 0 {
        Seq::empty()
    } else {
        u64_be(vs[0].0) + u64_be(vs[0].1) + versions_body(vs.skip(1))
    }
}

/// Encoded version list: pair count, then the pairs.
pub open spec fn versions_bytes(vs: Seq<(u64, u64)>) -> Seq<u8>
    recommends
        vs.len() <= u64::MAX,
{
    u64_be(vs.len() as u64) + versions_body(vs)
}

/// Parse `n` version pairs; the input must be consumed exactly.
pub open spec fn parse_versions_body(b: Seq<u8>, n: nat) -> Option<Seq<(u64, u64)>>
    decreases n,
{
    if n == 0 {
        if b.len() == 0 {
            Some(Seq::empty())
        } else {
            None
        }
    } else if b.len() < 16 {
        None
    } else {
        match parse_versions_body(b.skip(16), (n - 1) as nat) {
            Some(rest) => Some(
                seq![(u64_of_be(b.subrange(0, 8)), u64_of_be(b.subrange(8, 16)))] + rest,
            ),
            None => None,
        }
    }
}

/// Parse an encoded version list.
pub open spec fn parse_versions(b: Seq<u8>) -> Option<Seq<(u64, u64)>> {
    if b.len() < 8 {
        None
    } else {
        parse_versions_body(b.skip(8), u64_of_be(b.subrange(0, 8)) as nat)
    }
}

/// Body of an encoded write set: each key is its length, then its bytes.
pub open spec fn ws_body(ws: Seq<Seq<u8>>) -> Seq<u8>
    decreases ws.len(),
{
    if ws.len() == 0 {
        Seq::empty()
    } else {
        u64_be(ws[0].len() as u64) + ws[0] + ws_body(ws.skip(1))
    }
}

/// Encoded write set: key count, then the keys.
pub open spec fn ws_bytes(ws: Seq<Seq<u8>>) -> Seq<u8>
    recommends
        ws.len() <= u64::MAX,
{
    u64_be(ws.len() as u64) + ws_body(ws)
}

/// Parse `n` write-set keys; the input must be consumed exactly.
pub open spec fn parse_ws_body(b: Seq<u8>, n: nat) -> Option<Seq<Seq<u8>>>
    decreases n,
{
    if n == 0 {
        if b.len() == 0 {
            Some(Seq::empty())
        } else {
            None
        }
    } else if b.len() < 8 {
        None
    } else {
        let l = u64_of_be(b.subrange(0, 8));
        if b.len() - 8 < l {
            None
        } else {
            match parse_ws_body(b.skip(8 + l as int), (n - 1) as nat) {
                Some(rest) => Some(seq![b.subrange(8, 8 + l as int)] + rest),
                None => None,
            }
        }
    }
}

/// Parse an encoded write set.
pub open spec fn parse_ws(b: Seq<u8>) -> Option<Seq<Seq<u8>>> {
    if b.len() < 8 {
        None
    } else {
        parse_ws_body(b.skip(8), u64_of_be(b.subrange(0, 8)) as nat)
    }
}

/// Appending a pair to a version list appends its 16 bytes to the body.
pub proof fn lemma_versions_body_snoc(s: Seq<(u64, u64)>, x: (u64, u64))
    ensures
        versions_body(s.push(x)) == versions_body(s) + u64_be(x.0) + u64_be(x.1),
    decreases s.len(),
{
    if s.len() == 0 {
        assert(s.push(x).skip(1) =~= Seq::<(u64, u64)>::empty());
        assert(s.push(x)[0] == x);
        assert(versions_body(s.push(x)) == u64_be(x.0) + u64_be(x.1) + versions_body(
            Seq::<(u64, u64)>::empty(),
        ));
        assert(versions_body(s.push(x)) =~= versions_body(s) + u64_be(x.0) + u64_be(x.1));
    } else {
        let hd = u64_be(s[0].0) + u64_be(s[0].1);
        assert(s.push(x)[0] == s[0]);
        assert(s.push(x).len() > 0);
        assert(s.push(x).skip(1) =~= s.skip(1).push(x));
        assert(versions_body(s.push(x)) == hd + versions_body(s.skip(1).push(x)));
        lemma_versions_body_snoc(s.skip(1), x);
        assert(versions_body(s) == hd + versions_body(s.skip(1)));
        assert(hd + (versions_body(s.skip(1)) + u64_be(x.0) + u64_be(x.1)) =~= (hd + versions_body(
            s.skip(1),
        )) + u64_be(x.0) + u64_be(x.1));
    }
}

/// Appending a key to a write set appends its length and bytes to the body.
pub proof fn lemma_ws_body_snoc(s: Seq<Seq<u8>>, x: Seq<u8>)
    requires
        x.len() <= u64::MAX,
    ensures
        ws_body(s.push(x)) == ws_body(s) + u64_be(x.len() as u64) + x,
    decreases s.len(),
{
    if s.len() == 0 {
        assert(s.push(x).skip(1) =~= Seq::<Seq<u8>>::empty());
        assert(s.push(x)[0] == x);
        assert(ws_body(s.push(x)) == u64_be(x.len() as u64) + x + ws_body(Seq::<Seq<u8>>::empty()));
        assert(ws_body(s.push(x)) =~= ws_body(s) + u64_be(x.len() as u64) + x);
    } else {
        let hd = u64_be(s[0].len() as u64) + s[0];
        assert(s.push(x)[0] == s[0]);
        assert(s.push(x).len() > 0);
        assert(s.push(x).skip(1) =~= s.skip(1).push(x));
        assert(ws_body(s.push(x)) == hd + ws_body(s.skip(1).push(x)));
        lemma_ws_body_snoc(s.skip(1), x);
        assert(ws_body(s) == hd + ws_body(s.skip(1)));
        assert(hd + (ws_body(s.skip(1)) + u64_be(x.len() as u64) + x) =~= (hd + ws_body(s.skip(1)))
            + u64_be(x.len() as u64) + x);
    }
}

/// The deep view of a byte vector is its view.
pub proof fn lemma_bytes_deep_view(v: Vec<u8>)
    ensures
        v.deep_view() == v@,
{
    assert(v.deep_view() =~= v@);
}

/// The deep view of a key list is the element-wise view.
pub proof fn lemma_keys_deep_view(v: Vec<Vec<u8>>)
    ensures
        v.deep_view().len() == v@.len(),
        forall|i: int| 0 <= i < v@.len() ==> v.deep_view()[i] == #[trigger] v@[i]@,
{
    assert forall|i: int| 0 <= i < v@.len() implies v.deep_view()[i] == #[trigger] v@[i]@ by {
        lemma_bytes_deep_view(v@[i]);
    }
}

proof fn lemma_parse_versions_body_of_encode(s: Seq<(u64, u64)>)
    ensures
        parse_versions_body(versions_body(s), s.len()) == Some(s),
    decreases s.len(),
{
    if s.len() == 0 {
        assert(parse_versions_body(versions_body(s), s.len()) =~= Some(s));
    } else {
        let b = versions_body(s);
        let head = u64_be(s[0].0) + u64_be(s[0].1);
        assert(b == head + versions_body(s.skip(1)));
        assert(head.len() == 16);
        assert(b.len() >= 16);
        assert(b.skip(16) =~= versions_body(s.skip(1)));
        lemma_parse_versions_body_of_encode(s.skip(1));
        assert(b.subrange(0, 8) =~= u64_be(s[0].0));
        assert(b.subrange(8, 16) =~= u64_be(s[0].1));
        crate::bytes::lemma_u64_be_round_trip(s[0].0);
        crate::bytes::lemma_u64_be_round_trip(s[0].1);
        assert(seq![(s[0].0, s[0].1)] + s.skip(1) =~= s);
    }
}

/// A version list parses back from its own encoding.
pub proof fn lemma_versions_round_trip(s: Seq<(u64, u64)>)
    requires
        s.len() <= u64::MAX,
    ensures
        parse_versions(versions_bytes(s)) == Some(s),
{
    let b = versions_bytes(s);
    crate::bytes::lemma_u64_be_round_trip(s.len() as u64);
    assert(b.subrange(0, 8) =~= u64_be(s.len() as u64));
    assert(b.skip(8) =~= versions_body(s));
    lemma_parse_versions_body_of_encode(s);
}

proof fn lemma_parse_ws_body_of_encode(s: Seq<Seq<u8>>)
    requires
        forall|i: int| 0 <= i < s.len() ==> #[trigger] s[i].len() <= u64::MAX,
    ensures
        parse_ws_body(ws_body(s), s.len()) == Some(s),
    decreases s.len(),
{
    if s.len() == 0 {
        assert(parse_ws_body(ws_body(s), s.len()) =~= Some(s));
    } else {
        let b = ws_body(s);
        let l = s[0].len();
        assert(b == u64_be(l as u64) + s[0] + ws_body(s.skip(1)));
        assert(b.len() >= 8 + l);
        assert(b.subrange(0, 8) =~= u64_be(l as u64));
        crate::bytes::lemma_u64_be_round_trip(l as u64);
        assert(b.subrange(8, 8 + l as int) =~= s[0]);
        assert(b.skip(8 + l as int) =~= ws_body(s.skip(1)));
        lemma_parse_ws_body_of_encode(s.skip(1));
        assert(seq![s[0]] + s.skip(1) =~= s);
    }
}

/// A write set parses back from its own encoding.
pub proof fn lemma_ws_round_trip(s: Seq<Seq<u8>>)
    requires
        s.len() <= u64::MAX,
        forall|i: int| 0 <= i < s.len() ==> #[trigger] s[i].len() <= u64::MAX,
    ensures
        parse_ws(ws_bytes(s)) == Some(s),
{
    let b = ws_bytes(s);
    crate::bytes::lemma_u64_be_round_trip(s.len() as u64);
    assert(b.subrange(0, 8) =~= u64_be(s.len() as u64));
    assert(b.skip(8) =~= ws_body(s));
    lemma_parse_ws_body_of_encode(s);
}

proof fn lemma_parse_versions_body_canonical(b: Seq<u8>, n: nat)
    requires
        parse_versions_body(b, n) is Some,
    ensures
        versions_body(parse_versions_body(b, n)->0) == b,
        parse_versions_body(b, n)->0.len() == n,
    decreases n,
{
    if n == 0 {
        assert(versions_body(parse_versions_body(b, n)->0) =~= b);
    } else {
        lemma_parse_versions_body_canonical(b.skip(16), (n - 1) as nat);
        let v = parse_versions_body(b, n)->0;
        let rest = parse_versions_body(b.skip(16), (n - 1) as nat)->0;
        assert(v == seq![(u64_of_be(b.subrange(0, 8)), u64_of_be(b.subrange(8, 16)))] + rest);
        assert(v.skip(1) =~= rest);
        crate::bytes::lemma_u64_of_be_round_trip(b.subrange(0, 8));
        crate::bytes::lemma_u64_of_be_round_trip(b.subrange(8, 16));
        assert(versions_body(v) =~= b);
    }
}

/// Parsing is canonical: a parsed version list re-encodes to the same bytes.
pub proof fn lemma_parse_versions_canonical(b: Seq<u8>)
    requires
        parse_versions(b) is Some,
    ensures
        parse_versions(b)->0.len() <= u64::MAX,
        versions_bytes(parse_versions(b)->0) == b,
{
    let n = u64_of_be(b.subrange(0, 8)) as nat;
    lemma_parse_versions_body_canonical(b.skip(8), n);
    crate::bytes::lemma_u64_of_be_round_trip(b.subrange(0, 8));
    assert(versions_bytes(parse_versions(b)->0) =~= b);
}

/// Copy a range of a byte slice into a fresh vector.
fn copy_range(b: &[u8], start: usize, end: usize) -> (r: Vec<u8>)
    requires
        start <= end <= b@.len(),
    ensures
        r@ == b@.subrange(start as int, end as int),
{
    let mut r: Vec<u8> = Vec::new();
    let mut i: usize = start;
    while i < end
        invariant
            start <= i <= end <= b@.len(),
            r@ == b@.subrange(start as int, i as int),
        decreases end - i,
    {
        r.push(b[i]);
        proof {
            assert(b@.subrange(start as int, i as int).push(b@[i as int]) =~= b@.subrange(
                start as int,
                i + 1 as int,
            ));
        }
        i += 1;
    }
    r
}

/// Encode a version list.
pub fn encode_versions(vs: &Vec<(u64, u64)>) -> (r: Vec<u8>)
    ensures
        r@ == versions_bytes(vs@),
{
    let mut r = crate::bytes::ts_to_bytes(vs.len() as u64);
    let mut i: usize = 0;
    proof {
        assert(vs@.subrange(0, 0) =~= Seq::<(u64, u64)>::empty());
        assert(r@ =~= u64_be(vs@.len() as u64) + versions_body(vs@.subrange(0, 0)));
    }
    while i < vs.len()
        invariant
            i <= vs@.len() <= u64::MAX,
            r@ == u64_be(vs@.len() as u64) + versions_body(vs@.subrange(0, i as int)),
        decreases vs@.len() - i,
    {
        let (wts, version) = vs[i];
        let mut w = crate::bytes::ts_to_bytes(wts);
        r.append(&mut w);
        let mut v = crate::bytes::ts_to_bytes(version);
        r.append(&mut v);
        proof {
            assert(vs@.subrange(0, i + 1 as int) =~= vs@.subrange(0, i as int).push(vs@[i as int]));
            lemma_versions_body_snoc(vs@.subrange(0, i as int), vs@[i as int]);
        }
        i += 1;
    }
    proof {
        assert(vs@.subrange(0, vs@.len() as int) =~= vs@);
    }
    r
}

/// Encode a write set.
pub fn encode_ws(ws: &Vec<Vec<u8>>) -> (r: Vec<u8>)
    ensures
        r@ == ws_bytes(ws.deep_view()),
{
    let mut r = crate::bytes::ts_to_bytes(ws.len() as u64);
    let mut i: usize = 0;
    proof {
        lemma_keys_deep_view(*ws);
        assert(ws.deep_view().subrange(0, 0) =~= Seq::<Seq<u8>>::empty());
        assert(r@ =~= u64_be(ws.deep_view().len() as u64) + ws_body(ws.deep_view().subrange(0, 0)));
    }
    while i < ws.len()
        invariant
            i <= ws@.len() <= u64::MAX,
            ws.deep_view().len() == ws@.len(),
            forall|j: int| 0 <= j < ws@.len() ==> ws.deep_view()[j] == #[trigger] ws@[j]@,
            r@ == u64_be(ws@.len() as u64) + ws_body(ws.deep_view().subrange(0, i as int)),
        decreases ws@.len() - i,
    {
        let mut l = crate::bytes::ts_to_bytes(ws[i].len() as u64);
        r.append(&mut l);
        let mut k = copy_range(ws[i].as_slice(), 0, ws[i].len());
        proof {
            assert(k@ =~= ws@[i as int]@);
        }
        r.append(&mut k);
        proof {
            assert(ws.deep_view().subrange(0, i + 1 as int) =~= ws.deep_view().subrange(
                0,
                i as int,
            ).push(ws.deep_view()[i as int]));
            lemma_ws_body_snoc(ws.deep_view().subrange(0, i as int), ws.deep_view()[i as int]);
        }
        i += 1;
    }
    proof {
        assert(ws.deep_view().subrange(0, ws@.len() as int) =~= ws.deep_view());
    }
    r
}

/// Decode a version list; `None` exactly when the bytes are not a canonical
/// encoding.
pub fn decode_versions(b: &[u8]) -> (r: Option<Vec<(u64, u64)>>)
    ensures
        match r {
            Some(v) => parse_versions(b@) == Some(v@),
            None => parse_versions(b@) is None,
        },
{
    if b.len() < 8 {
        return None;
    }
    let n = crate::bytes::bytes_to_ts(b);
    let ghost gn = n as nat;
    let mut acc: Vec<(u64, u64)> = Vec::new();
    let mut pos: usize = 8;
    let mut i: u64 = 0;
    proof {
        assert(b@.skip(8).skip(0) =~= b@.skip(8));
    }
    while i < n
        invariant
            8 <= pos <= b@.len(),
            i <= n,
            parse_versions(b@) == (match parse_versions_body(b@.skip(pos as int), (n - i) as nat) {
                Some(rest) => Some(acc@ + rest),
                None => None::<Seq<(u64, u64)>>,
            }),
        decreases n - i,
    {
        if b.len() - pos < 16 {
            return None;
        }
        let wts_bytes = copy_range(b, pos, pos + 8);
        let wts = crate::bytes::bytes_to_ts(wts_bytes.as_slice());
        let ver_bytes = copy_range(b, pos + 8, pos + 16);
        let version = crate::bytes::bytes_to_ts(ver_bytes.as_slice());
        proof {
            let rem = b@.skip(pos as int);
            assert(rem.subrange(0, 8) =~= b@.subrange(pos as int, pos + 8));
            assert(rem.subrange(8, 16) =~= b@.subrange(pos + 8, pos + 16));
            assert(wts_bytes@.subrange(0, 8) =~= wts_bytes@);
            assert(ver_bytes@.subrange(0, 8) =~= ver_bytes@);
            assert(rem.skip(16) =~= b@.skip(pos + 16));
        }
        acc.push((wts, version));
        proof {
            let rest_opt = parse_versions_body(b@.skip(pos + 16), (n - i - 1) as nat);
            match rest_opt {
                Some(rest) => {
                    assert(acc@.drop_last() + (seq![(wts, version)] + rest) =~= acc@ + rest);
                },
                None => {},
            }
        }
        pos += 16;
        i += 1;
    }
    if pos != b.len() {
        proof {
            assert(b@.skip(pos as int).len() != 0);
        }
        return None;
    }
    proof {
        assert(b@.skip(pos as int).len() == 0);
        assert(acc@ + Seq::<(u64, u64)>::empty() =~= acc@);
    }
    Some(acc)
}

/// Decode a write set; `None` exactly when the bytes are not a canonical
/// encoding.
pub fn decode_ws(b: &[u8]) -> (r: Option<Vec<Vec<u8>>>)
    ensures
        match r {
            Some(v) => parse_ws(b@) == Some(v.deep_view()),
            None => parse_ws(b@) is None,
        },
{
    if b.len() < 8 {
        return None;
    }
    let n = crate::bytes::bytes_to_ts(b);
    let mut acc: Vec<Vec<u8>> = Vec::new();
    let mut pos: usize = 8;
    let mut i: u64 = 0;
    proof {
        assert(b@.skip(8).skip(0) =~= b@.skip(8));
        assert(acc.deep_view() =~= Seq::<Seq<u8>>::empty());
    }
    while i < n
        invariant
            8 <= pos <= b@.len(),
            i <= n,
            acc.deep_view().len() == acc@.len(),
            parse_ws(b@) == (match parse_ws_body(b@.skip(pos as int), (n - i) as nat) {
                Some(rest) => Some(acc.deep_view() + rest),
                None => None::<Seq<Seq<u8>>>,
            }),
        decreases n - i,
    {
        if b.len() - pos < 8 {
            return None;
        }
        let len_bytes = copy_range(b, pos, pos + 8);
        let l = crate::bytes::bytes_to_ts(len_bytes.as_slice());
        proof {
            let rem = b@.skip(pos as int);
            assert(rem.subrange(0, 8) =~= b@.subrange(pos as int, pos + 8));
            assert(len_bytes@.subrange(0, 8) =~= len_bytes@);
        }
        if l > (b.len() - pos - 8) as u64 {
            return None;
        }
        let l_size = l as usize;
        let key = copy_range(b, pos + 8, pos + 8 + l_size);
        proof {
            let rem = b@.skip(pos as int);
            assert(rem.subrange(8, 8 + l as int) =~= b@.subrange(pos + 8, pos + 8 + l as int));
            assert(rem.skip(8 + l as int) =~= b@.skip(pos + 8 + l as int));
        }
        let ghost old_acc_deep = acc.deep_view();
        proof {
            lemma_keys_deep_view(acc);
        }
        acc.push(key);
        proof {
            lemma_keys_deep_view(acc);
            lemma_bytes_deep_view(key);
            assert(acc.deep_view() =~= old_acc_deep.push(key@));
            let rest_opt = parse_ws_body(b@.skip(pos + 8 + l as int), (n - i - 1) as nat);
            match rest_opt {
                Some(rest) => {
                    assert(old_acc_deep + (seq![key@] + rest) =~= acc.deep_view() + rest);
                },
                None => {},
            }
        }
        pos += 8 + l_size;
        i += 1;
    }
    if pos != b.len() {
        proof {
            assert(b@.skip(pos as int).len() != 0);
        }
        return None;
    }
    proof {
        assert(b@.skip(pos as int).len() == 0);
        assert(acc.deep_view() + Seq::<Seq<u8>>::empty() =~= acc.deep_view());
    }
    Some(acc)
}

} // verus!
