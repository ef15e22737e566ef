//! End-to-end scenarios: basic put/get, predicate swaps and failures,
//! crash recovery, and the persistence helpers.

use mvcc::bytes::{key_safety_pad, ts_to_bytes, writeset_key};
use mvcc::codec::{decode_versions, decode_ws, encode_versions, encode_ws};
use mvcc::db::{Db, TS_SAFETY_BUFFER};
use mvcc::store::Store;
use mvcc::tx::Error;

fn fresh_db() -> Db {
    Db::start(Store::new())
}

#[test]
fn basic_put_get() {
    let mut db = fresh_db();

    let mut tx1 = db.tx();
    tx1.set(b"cats".to_vec(), b"meow".to_vec());
    tx1.set(b"dogs".to_vec(), b"woof".to_vec());
    assert_eq!(tx1.execute(&mut db), Ok(()));

    let mut tx2 = db.tx();
    tx2.predicate(b"cats".to_vec(), Some(b"meow".to_vec()));
    assert_eq!(tx2.execute(&mut db), Ok(()));
}

#[test]
fn predicate_success_and_swap() {
    let mut db = fresh_db();

    let mut tx1 = db.tx();
    tx1.set(b"cats".to_vec(), b"meow".to_vec());
    tx1.set(b"dogs".to_vec(), b"woof".to_vec());
    assert_eq!(tx1.execute(&mut db), Ok(()));

    let mut tx = db.tx();
    tx.predicate(b"cats".to_vec(), Some(b"meow".to_vec()));
    tx.predicate(b"dogs".to_vec(), Some(b"woof".to_vec()));
    tx.set(b"cats".to_vec(), b"woof".to_vec());
    tx.set(b"dogs".to_vec(), b"meow".to_vec());
    assert_eq!(tx.execute(&mut db), Ok(()));
}

#[test]
fn it_works() {
    let mut db = fresh_db();

    let mut tx1 = db.tx();
    tx1.set(b"cats".to_vec(), b"meow".to_vec());
    tx1.set(b"dogs".to_vec(), b"woof".to_vec());
    assert_eq!(tx1.execute(&mut db), Ok(()));

    let mut tx = db.tx();
    tx.predicate(b"cats".to_vec(), Some(b"meow".to_vec()));
    tx.predicate(b"dogs".to_vec(), Some(b"woof".to_vec()));
    tx.set(b"cats".to_vec(), b"woof".to_vec());
    tx.set(b"dogs".to_vec(), b"meow".to_vec());
    assert_eq!(tx.execute(&mut db), Ok(()));

    let mut tx = db.tx();
    tx.predicate(b"cats".to_vec(), Some(b"meow".to_vec()));
    assert_eq!(tx.execute(&mut db), Err(Error::PredicateFailure));
}

#[test]
fn predicate_on_absent_key() {
    let mut db = fresh_db();
    let mut tx = db.tx();
    tx.predicate(b"ghost".to_vec(), None);
    assert_eq!(tx.execute(&mut db), Ok(()));

    let mut tx = db.tx();
    tx.predicate(b"ghost".to_vec(), Some(b"x".to_vec()));
    assert_eq!(tx.execute(&mut db), Err(Error::PredicateFailure));
}

#[test]
fn crash_mid_write_recovers() {
    // A transaction at stamp `t` journaled its write set and persisted its
    // value, but never reached the journal delete: recovery reverses it.
    let k = b"acct".to_vec();
    let t0: u64 = 100;
    let t: u64 = 200;

    let mut store = Store::new();
    store.set(key_safety_pad(&k), encode_versions(&vec![(t0, t0), (t, t)]));
    store.set(ts_to_bytes(t0), b"old".to_vec());
    store.set(writeset_key(t), encode_ws(&vec![k.clone()]));
    store.set(ts_to_bytes(t), b"new".to_vec());

    let db = Db::start(store);

    assert_eq!(db.tree_get(&writeset_key(t)), None);
    assert_eq!(db.tree_get(&ts_to_bytes(t)), None);
    assert_eq!(
        db.tree_get(&key_safety_pad(&k)),
        Some(encode_versions(&vec![(t0, t0)]))
    );
    assert_eq!(db.tree_get(&ts_to_bytes(t0)), Some(b"old".to_vec()));
}

#[test]
fn crash_before_any_write_recovers() {
    // Only the journal record made it out: recovery just drops it.
    let k = b"acct".to_vec();
    let t: u64 = 300;

    let mut store = Store::new();
    store.set(writeset_key(t), encode_ws(&vec![k.clone()]));

    let db = Db::start(store);
    assert_eq!(db.tree_get(&writeset_key(t)), None);
    assert_eq!(db.tree_get(&key_safety_pad(&k)), None);
}

#[test]
fn recovery_idempotent_runs() {
    let k = b"acct".to_vec();
    let t: u64 = 400;

    let mut store = Store::new();
    store.set(key_safety_pad(&k), encode_versions(&vec![(t, t)]));
    store.set(ts_to_bytes(t), b"val".to_vec());
    store.set(writeset_key(t), encode_ws(&vec![k.clone()]));

    let mut db = Db::start(store);
    let after_once = (
        db.tree_get(&writeset_key(t)),
        db.tree_get(&ts_to_bytes(t)),
        db.tree_get(&key_safety_pad(&k)),
    );
    db.recover();
    let after_twice = (
        db.tree_get(&writeset_key(t)),
        db.tree_get(&ts_to_bytes(t)),
        db.tree_get(&key_safety_pad(&k)),
    );
    assert_eq!(after_once, after_twice);
    assert_eq!(after_once, (None, None, None));
}

#[test]
fn add_then_purge_restores_list() {
    let k = b"pet".to_vec();
    let mut store = Store::new();
    store.set(key_safety_pad(&k), encode_versions(&vec![(7, 7)]));
    let mut db = Db::start(store);

    let prior = db.tree_get(&key_safety_pad(&k));
    db.add_version_to_key(&k, 9000, 9001).unwrap();
    assert_eq!(
        db.tree_get(&key_safety_pad(&k)),
        Some(encode_versions(&vec![(7, 7), (9000, 9001)]))
    );
    db.purge_version_from_key(&k, 9000).unwrap();
    assert_eq!(db.tree_get(&key_safety_pad(&k)), prior);
}

#[test]
fn add_then_purge_restores_absent_list() {
    let k = b"pet".to_vec();
    let mut db = fresh_db();

    assert_eq!(db.tree_get(&key_safety_pad(&k)), None);
    db.add_version_to_key(&k, 9000, 9001).unwrap();
    db.purge_version_from_key(&k, 9000).unwrap();
    assert_eq!(db.tree_get(&key_safety_pad(&k)), None);
}

#[test]
fn timestamps_are_monotonic() {
    let mut db = fresh_db();
    let t1 = db.ts(2);
    let t2 = db.ts(1);
    let t3 = db.ts(0);
    assert!(t1 < t2);
    assert!(t2 < t3);
    assert_eq!(t1 + 2, t2);
}

#[test]
fn oracle_starts_past_checkpoint() {
    let mut store = Store::new();
    store.set(b"tx_persist".to_vec(), ts_to_bytes(5 * TS_SAFETY_BUFFER));
    let mut db = Db::start(store);
    let t = db.ts(1);
    assert_eq!(t, 6 * TS_SAFETY_BUFFER);
    assert_eq!(
        db.tree_get(&b"tx_persist".to_vec()),
        Some(ts_to_bytes(6 * TS_SAFETY_BUFFER))
    );
}

#[test]
fn versions_codec_round_trip() {
    let vs = vec![(1u64, 2u64), (300, 400), (u64::MAX, 0)];
    let enc = encode_versions(&vs);
    assert_eq!(decode_versions(&enc), Some(vs));
    assert_eq!(decode_versions(b"short"), None);

    let mut broken = encode_versions(&vec![(1, 1)]);
    broken.push(0);
    assert_eq!(decode_versions(&broken), None);
}

#[test]
fn writeset_codec_round_trip() {
    let ws = vec![b"".to_vec(), b"a".to_vec(), b"longer-key".to_vec()];
    let enc = encode_ws(&ws);
    assert_eq!(decode_ws(&enc), Some(ws));
    assert_eq!(decode_ws(b"x"), None);
}

#[test]
fn conflicting_writes_abort() {
    // Two writes to the same key in one transaction cannot both install.
    let mut db = fresh_db();
    let mut tx = db.tx();
    tx.set(b"k".to_vec(), b"a".to_vec());
    tx.set(b"k".to_vec(), b"b".to_vec());
    assert_eq!(tx.execute(&mut db), Err(Error::Abort));

    // The key stayed untouched.
    assert_eq!(db.tree_get(&key_safety_pad(&b"k".to_vec())), None);
}

#[test]
fn plain_reads_are_recorded_and_harmless() {
    let mut db = fresh_db();
    let mut tx = db.tx();
    tx.set(b"k".to_vec(), b"v".to_vec());
    assert_eq!(tx.execute(&mut db), Ok(()));

    let mut tx = db.tx();
    tx.get(b"k".to_vec());
    tx.del(b"gone".to_vec());
    // tombstone persistence is unfinished: executing a deletion is refused
    // upstream of the write phase by the engine's contract, so only check
    // that recording reads alone commits
    let mut tx2 = db.tx();
    tx2.get(b"k".to_vec());
    assert_eq!(tx2.execute(&mut db), Ok(()));
}

#[test]
fn empty_transaction_commits() {
    let mut db = fresh_db();
    let mut tx = db.tx();
    assert_eq!(tx.execute(&mut db), Ok(()));
}
