use lite_rpc_core::alt_store::{
    split_batches, ALTStore, BinaryALTData, MessageAddressTableLookup, PRELOAD_BATCH_SIZE, PRELOAD_ROUND_SIZE,
};
use lite_rpc_core::pubkey::Pubkey;
use lite_rpc_core::snapshot::{decode_snapshot, encode_snapshot};

fn k(n: u64) -> Pubkey {
    Pubkey { w0: n, w1: n.wrapping_mul(31), w2: 7, w3: n ^ 0xdead }
}

fn keys(from: u64, count: u64) -> Vec<Pubkey> {
    (from..from + count).map(k).collect()
}

#[test]
fn alt_overrun_refresh() {
    let t = k(1_000_000);
    let mut store = ALTStore::new();
    store.save_account(&t, keys(0, 10));
    let idx = [5u8, 12u8];
    // index 12 lies past the held length: one reload is due
    assert!(store.needs_reload(&t, &idx));
    assert_eq!(store.load_accounts(&t, &idx), None);
    // the reload brings the table to 20 entries
    let added = store.save_account(&t, keys(0, 20));
    assert!(!added);
    assert!(!store.needs_reload(&t, &idx));
    assert_eq!(store.get_accounts(&t, &idx), vec![k(5), k(12)]);
}

#[test]
fn alt_overrun_refresh_failed() {
    let t = k(1_000_000);
    let mut store = ALTStore::new();
    store.save_account(&t, keys(0, 10));
    // the reload failed: the cache is unchanged and the answer is empty
    assert!(store.get_accounts(&t, &[5u8, 12u8]).is_empty());
}

#[test]
fn resolve_in_order_of_indexes() {
    let t = k(42);
    let mut store = ALTStore::new();
    assert!(store.save_account(&t, keys(100, 8)));
    let got = store.get_accounts(&t, &[7u8, 0, 3, 3]);
    assert_eq!(got, vec![k(107), k(100), k(103), k(103)]);
    assert_eq!(store.get_accounts(&t, &[]), Vec::<Pubkey>::new());
    assert_eq!(store.len(), 1);
}

#[test]
fn unknown_table_needs_reload() {
    let store = ALTStore::new();
    assert!(store.needs_reload(&k(9), &[]));
    assert!(store.get_accounts(&k(9), &[0u8]).is_empty());
}

#[test]
fn lookup_splits_writable_and_readonly() {
    let t = k(3);
    let mut store = ALTStore::new();
    store.save_account(&t, keys(10, 4));
    let lookup = MessageAddressTableLookup {
        account_key: t,
        writable_indexes: vec![1, 2],
        readonly_indexes: vec![3, 9],
    };
    let (w, r) = store.get_address_lookup_table(&lookup);
    assert_eq!(w, vec![k(11), k(12)]);
    assert!(r.is_empty());
}

#[test]
fn missing_alts_keeps_order() {
    let mut store = ALTStore::new();
    store.save_account(&k(2), vec![]);
    let list = vec![k(1), k(2), k(3), k(2)];
    assert_eq!(store.missing_alts(&list), vec![k(1), k(3)]);
}

#[test]
fn save_fetched_stores_found_accounts() {
    let mut store = ALTStore::new();
    store.save_account(&k(2), keys(0, 1));
    let batch = vec![k(1), k(2), k(3)];
    store.save_fetched(&batch, vec![Some(keys(50, 2)), None, Some(vec![])]);
    assert_eq!(store.len(), 3);
    assert_eq!(store.get_accounts(&k(1), &[1u8]), vec![k(51)]);
    assert_eq!(store.get_accounts(&k(2), &[0u8]), vec![k(0)]);
    assert!(!store.needs_reload(&k(3), &[]));
}

#[test]
fn batches_of_preload() {
    let list = keys(0, 2350);
    let rounds = split_batches(&list, PRELOAD_ROUND_SIZE);
    assert_eq!(rounds.iter().map(|r| r.len()).collect::<Vec<_>>(), vec![1000, 1000, 350]);
    let groups = split_batches(&rounds[2], PRELOAD_BATCH_SIZE);
    assert_eq!(groups.iter().map(|g| g.len()).collect::<Vec<_>>(), vec![100, 100, 100, 50]);
    assert_eq!(groups[3][49], k(2349));
    assert!(split_batches(&[], PRELOAD_BATCH_SIZE).is_empty());
}

#[test]
fn snapshot_round_trip_restores_map() {
    let mut store = ALTStore::new();
    store.save_account(&k(1), keys(0, 3));
    store.save_account(&k(2), vec![]);
    store.save_account(&k(3), keys(9, 1));
    let bytes = store.serialize_binary();
    assert_eq!(bytes.len(), 8 + 3 * 40 + 4 * 32);
    let mut restored = ALTStore::new();
    assert!(restored.load_binary(bytes));
    assert_eq!(restored.len(), 3);
    assert_eq!(restored.get_accounts(&k(1), &[0u8, 1, 2]), keys(0, 3));
    assert_eq!(restored.get_accounts(&k(3), &[0u8]), vec![k(9)]);
    assert!(!restored.needs_reload(&k(2), &[]));
}

#[test]
fn empty_store_snapshot() {
    let store = ALTStore::new();
    let bytes = store.serialize_binary();
    assert_eq!(bytes, vec![0u8; 8]);
}

#[test]
fn malformed_snapshot_changes_nothing() {
    let mut store = ALTStore::new();
    store.save_account(&k(1), keys(0, 2));
    assert!(!store.load_binary(vec![1, 0, 0]));
    // one table announced, none present
    assert!(!store.load_binary(vec![1, 0, 0, 0, 0, 0, 0, 0]));
    // trailing byte
    assert!(!store.load_binary(vec![0, 0, 0, 0, 0, 0, 0, 0, 0]));
    assert_eq!(store.len(), 1);
    assert_eq!(store.get_accounts(&k(1), &[1u8]), vec![k(1)]);
}

#[test]
fn snapshot_matches_bincode_layout() {
    let tables = vec![(k(1), keys(5, 2)), (k(2), vec![])];
    let bytes = encode_snapshot(&tables);
    let as_arrays: Vec<([u8; 32], Vec<[u8; 32]>)> = tables
        .iter()
        .map(|(a, ks)| {
            let to_arr = |p: &Pubkey| -> [u8; 32] { p.to_bytes().try_into().unwrap() };
            (to_arr(a), ks.iter().map(to_arr).collect())
        })
        .collect();
    let expected = bincode::serialize(&as_arrays).unwrap();
    assert_eq!(bytes, expected);
    assert_eq!(decode_snapshot(&expected), Some(tables));
}

#[test]
fn binary_alt_data_lists_every_table() {
    let mut store = ALTStore::new();
    store.save_account(&k(1), keys(0, 2));
    store.save_account(&k(2), keys(4, 1));
    let listing = BinaryALTData::new(&store.map);
    assert_eq!(listing.data.len(), 2);
    let bytes = listing.to_bytes();
    assert_eq!(bytes.len(), 8 + 2 * 40 + 3 * 32);
    let back = BinaryALTData::from_bytes(&bytes).unwrap();
    assert_eq!(back.data, listing.data);
    assert!(BinaryALTData::from_bytes(&bytes[..bytes.len() - 1].to_vec()).is_none());
}
