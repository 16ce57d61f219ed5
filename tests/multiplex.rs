use lite_rpc_core::block_info::Commitment;
use lite_rpc_core::multiplex::{multiplex, Arrival, CommitmentMultiplex, FastestWins};

fn a(source: u32, slot: u64) -> Arrival {
    Arrival { source, slot }
}

#[test]
fn dual_source_dedupe() {
    // source 0 sends 100, 101, 102; source 1 sends 100, 101, 103, its 101 first
    let arrivals = vec![a(0, 100), a(1, 100), a(1, 101), a(0, 101), a(0, 102), a(1, 103)];
    let out = multiplex(&arrivals);
    assert_eq!(out, vec![a(0, 100), a(1, 101), a(0, 102), a(1, 103)]);
}

#[test]
fn late_and_lower_slots_are_dropped() {
    let arrivals = vec![a(0, 5), a(1, 3), a(1, 5), a(0, 7), a(1, 6), a(1, 8)];
    let out = multiplex(&arrivals);
    let slots: Vec<u64> = out.iter().map(|x| x.slot).collect();
    assert_eq!(slots, vec![5, 7, 8]);
}

#[test]
fn emitted_slots_strictly_increase() {
    let arrivals = vec![a(0, 9), a(1, 2), a(2, 11), a(0, 10), a(1, 11), a(2, 12), a(0, 12), a(1, 1)];
    let out = multiplex(&arrivals);
    for w in out.windows(2) {
        assert!(w[0].slot < w[1].slot);
    }
    assert_eq!(out.len(), 3);
}

#[test]
fn empty_input_emits_nothing() {
    assert!(multiplex(&vec![]).is_empty());
}

#[test]
fn offer_raises_watermark() {
    let mut fw = FastestWins::new();
    assert!(fw.offer(0));
    assert_eq!(fw.watermark, Some(0));
    assert!(!fw.offer(0));
    assert!(fw.offer(u64::MAX));
    assert!(!fw.offer(5));
    assert_eq!(fw.watermark, Some(u64::MAX));
}

#[test]
fn commitment_levels_are_independent() {
    let mut m = CommitmentMultiplex::new();
    assert!(m.offer(Commitment::Confirmed, 100));
    assert!(m.offer(Commitment::Finalized, 100));
    assert!(!m.offer(Commitment::Confirmed, 100));
    assert!(m.offer(Commitment::Processed, 50));
    assert!(!m.offer(Commitment::Finalized, 99));
    assert_eq!(m.confirmed.watermark, Some(100));
    assert_eq!(m.processed.watermark, Some(50));
}
