use lite_rpc_core::pubkey::Pubkey;
use lite_rpc_core::block_info::{BlockInfo, BlockInformationStore, Commitment};
use lite_rpc_core::tx_tracker::{
    DropReason, IngestError, PendingTx, Signature, TxStatus, TxTracker, MAX_PENDING,
};

fn sig(n: u64) -> Signature {
    let p = Pubkey { w0: n, w1: 0, w2: 0, w3: 0 };
    Signature { lo: p, hi: p }
}

#[test]
fn send_path_happy_path() {
    let s = 5000u64;
    let mut tracker = TxTracker::new();
    assert!(tracker.submit(PendingTx::new(sig(1), s, 3)));
    assert!(tracker.on_block(s + 1, &vec![sig(9)]).is_empty());
    let settled = tracker.on_block(s + 7, &vec![sig(9), sig(1)]);
    assert_eq!(settled, vec![(sig(1), TxStatus::Landed(s + 7))]);
    assert!(tracker.status_of(&sig(1)).is_none());
}

#[test]
fn send_path_expiry() {
    let s = 5000u64;
    let mut tracker = TxTracker::new();
    tracker.submit(PendingTx::new(sig(1), s, 3));
    assert!(tracker.on_block(s + 150, &vec![]).is_empty());
    let settled = tracker.on_block(s + 151, &vec![]);
    assert_eq!(settled, vec![(sig(1), TxStatus::Dropped(DropReason::BlockhashExpired))]);
    assert!(tracker.pending.is_empty());
}

#[test]
fn duplicate_submit_is_ignored() {
    let mut tracker = TxTracker::new();
    assert!(tracker.submit(PendingTx::new(sig(1), 10, 1)));
    assert!(!tracker.submit(PendingTx::new(sig(1), 20, 1)));
    assert_eq!(tracker.pending.len(), 1);
    assert_eq!(tracker.status_of(&sig(1)).unwrap().deadline, 160);
}

#[test]
fn retries_stop_at_deadline_or_limit() {
    let mut tx = PendingTx::new(sig(2), 100, 2);
    assert!(tx.should_retry(250));
    assert!(!tx.should_retry(251));
    tx.record_attempt();
    tx.record_attempt();
    assert_eq!(tx.attempts, 2);
    assert!(!tx.should_retry(120));
    assert_eq!(tx.on_block(120, false), TxStatus::Pending);
}

#[test]
fn ingest_checks_blockhash_and_duplicates() {
    let hash = Pubkey { w0: 77, w1: 0, w2: 0, w3: 0 };
    let other = Pubkey { w0: 78, w1: 0, w2: 0, w3: 0 };
    let mut info = BlockInformationStore::new();
    info.add_block(BlockInfo { blockhash: hash, slot: 400, commitment: Commitment::Confirmed });
    let mut tracker = TxTracker::new();
    assert_eq!(tracker.ingest(&info, sig(1), &other, 3), Err(IngestError::UnknownBlockhash));
    assert_eq!(tracker.ingest(&info, sig(1), &hash, 3), Ok(true));
    assert_eq!(tracker.ingest(&info, sig(1), &hash, 3), Ok(false));
    assert_eq!(tracker.pending.len(), 1);
    assert_eq!(tracker.pending[0].deadline, 550);
    info.add_block(BlockInfo { blockhash: other, slot: 551, commitment: Commitment::Processed });
    assert_eq!(tracker.ingest(&info, sig(2), &hash, 3), Err(IngestError::UnknownBlockhash));
}

#[test]
fn ingest_refuses_when_full() {
    let hash = Pubkey { w0: 5, w1: 5, w2: 5, w3: 5 };
    let mut info = BlockInformationStore::new();
    info.add_block(BlockInfo { blockhash: hash, slot: 1, commitment: Commitment::Processed });
    let mut tracker = TxTracker::new();
    for n in 0..MAX_PENDING as u64 {
        assert_eq!(tracker.ingest(&info, sig(n), &hash, 0), Ok(true));
    }
    assert_eq!(tracker.ingest(&info, sig(5000), &hash, 0), Err(IngestError::Overloaded));
    assert_eq!(tracker.ingest(&info, sig(3), &hash, 0), Ok(false));
}

#[test]
fn deadline_saturates_at_the_largest_slot() {
    assert_eq!(PendingTx::new(sig(1), u64::MAX - 10, 0).deadline, u64::MAX);
}
