//! The in-memory version chain and its index, exercised directly.

use mvcc::mvcc::{Chain, MemRecord, Mvcc, Status};
use mvcc::tx::Error;
use mvcc::TxRet;

fn rec(wts: u64, data: Option<u64>, status: Status) -> MemRecord {
    MemRecord { wts, rts: 0, data, status }
}

#[test]
fn visible_skips_aborted_and_matches_own() {
    let chain = Chain::new(vec![
        rec(0, None, Status::Committed),
        rec(10, Some(10), Status::Committed),
        rec(20, Some(20), Status::Aborted),
    ]);
    assert_eq!(chain.visible_ts(15), Ok(10));
    assert_eq!(chain.visible_ts(25), Ok(10));
    assert_eq!(chain.visible_ts(20), Ok(20));
}

#[test]
fn visible_blocks_on_foreign_pending() {
    let chain = Chain::new(vec![
        rec(0, None, Status::Committed),
        rec(10, Some(10), Status::Pending),
    ]);
    assert_eq!(chain.visible_ts(15), Err(Error::Blocked));
    assert_eq!(chain.visible_ts(10), Ok(10));
}

#[test]
fn install_checks_the_tail() {
    let mut chain = Chain::default();
    assert_eq!(chain.visible_ts(5), Ok(0));
    assert_eq!(
        chain.install(0, rec(7, Some(7), Status::Pending)),
        Ok(())
    );
    // the tail moved: a second optimistic install against stamp 0 fails
    assert_eq!(
        chain.install(0, rec(8, Some(8), Status::Pending)),
        Err(Error::Abort)
    );
    chain.commit(7);
    assert_eq!(chain.visible_ts(9), Ok(7));
}

#[test]
fn abort_makes_record_invisible() {
    let mut chain = Chain::default();
    chain.install(0, rec(7, Some(7), Status::Pending)).unwrap();
    chain.abort(7);
    assert_eq!(chain.visible_ts(9), Ok(0));
}

#[test]
fn bump_rts_raises_monotonically() {
    let mut chain = Chain::new(vec![
        rec(0, None, Status::Committed),
        rec(10, Some(10), Status::Committed),
    ]);
    chain.bump_rts(15);
    assert_eq!(chain.record_at(1).rts, 15);
    chain.bump_rts(12);
    assert_eq!(chain.record_at(1).rts, 15);
    chain.bump_rts(20);
    assert_eq!(chain.record_at(1).rts, 20);
    assert_eq!(chain.record_at(0).rts, 0);
    assert_eq!(chain.record_count(), 2);
}

#[test]
fn index_get_and_insert() {
    let mut index = Mvcc::default();
    assert!(index.get(&b"k".to_vec()).is_none());
    assert_eq!(index.insert(b"k".to_vec(), Chain::default()), Ok(()));
    assert!(index.get(&b"k".to_vec()).is_some());
    assert_eq!(index.insert(b"k".to_vec(), Chain::default()), Err(()));
    assert_eq!(index.len(), 1);
}

#[test]
fn error_messages() {
    assert_eq!(Error::Abort.message(), "Transaction aborted");
    assert_eq!(Error::PredicateFailure.message(), "Transaction predicate failed");
    assert_eq!(Error::Blocked.message(), "Transaction currently blocked on another");
}

#[test]
fn tx_ret_variants_are_distinct() {
    assert_ne!(TxRet::Committed, TxRet::Conflict);
    assert_ne!(TxRet::Conflict, TxRet::PredicateFailure);
}

#[test]
fn find_by_wts_takes_most_recent() {
    let chain = Chain::new(vec![
        rec(0, None, Status::Committed),
        rec(10, Some(11), Status::Committed),
    ]);
    let r = chain.find_by_wts(10).unwrap();
    assert_eq!(r.data, Some(11));
    assert!(chain.find_by_wts(5).is_none());
}
