use lite_rpc_core::block_info::{BlockInfo, BlockInformationStore, Commitment};
use lite_rpc_core::pubkey::Pubkey;

fn h(n: u64) -> Pubkey {
    Pubkey { w0: n, w1: 1, w2: 2, w3: 3 }
}

fn block(n: u64, slot: u64, commitment: Commitment) -> BlockInfo {
    BlockInfo { blockhash: h(n), slot, commitment }
}

#[test]
fn blockhash_window_closes_after_150_slots() {
    let mut store = BlockInformationStore::new();
    store.add_block(block(1, 1000, Commitment::Confirmed));
    assert!(store.is_valid(&h(1), Commitment::Processed));
    assert!(store.is_valid(&h(1), Commitment::Confirmed));
    assert!(!store.is_valid(&h(1), Commitment::Finalized));
    store.add_block(block(2, 1150, Commitment::Processed));
    assert!(store.is_valid(&h(1), Commitment::Confirmed));
    store.add_block(block(3, 1151, Commitment::Processed));
    assert!(!store.is_valid(&h(1), Commitment::Confirmed));
    assert!(store.is_valid(&h(3), Commitment::Processed));
    assert_eq!(store.slot_of(&h(1)), Some(1000));
    store.prune();
    assert_eq!(store.slot_of(&h(1)), None);
    assert_eq!(store.slot_of(&h(2)), Some(1150));
}

#[test]
fn commitment_only_rises() {
    let mut store = BlockInformationStore::new();
    store.add_block(block(7, 10, Commitment::Finalized));
    store.add_block(block(7, 12, Commitment::Processed));
    assert!(store.is_valid(&h(7), Commitment::Finalized));
    assert_eq!(store.slot_of(&h(7)), Some(10));
    assert_eq!(store.entries.len(), 1);
    assert_eq!(store.tip, Some(12));
}

#[test]
fn latest_blockhash_per_commitment() {
    let mut store = BlockInformationStore::new();
    assert_eq!(store.latest_blockhash(Commitment::Processed), None);
    store.add_block(block(1, 100, Commitment::Finalized));
    store.add_block(block(2, 101, Commitment::Confirmed));
    store.add_block(block(3, 102, Commitment::Processed));
    assert_eq!(store.latest_blockhash(Commitment::Processed).unwrap().blockhash, h(3));
    assert_eq!(store.latest_blockhash(Commitment::Confirmed).unwrap().blockhash, h(2));
    assert_eq!(store.latest_blockhash(Commitment::Finalized).unwrap().blockhash, h(1));
    assert!(!store.is_valid(&h(9), Commitment::Processed));
}
