use chain_state::digest::Digest;
use chain_state::multiverse::{Multiverse, Snapshot, SUFFIX_TO_KEEP};
use chain_state::utxo::Ledger;
use chain_state::utxo::OutputRecord;

fn digest_of(i: u32) -> Digest {
    let mut bytes = [0u8; 32];
    bytes[0] = (i >> 24) as u8;
    bytes[1] = (i >> 16) as u8;
    bytes[2] = (i >> 8) as u8;
    bytes[3] = i as u8;
    Digest::from_bytes(bytes)
}

fn empty_snapshot(chain_length: u32) -> Snapshot {
    Snapshot::new(chain_length, Ledger::<OutputRecord>::new())
}

#[test]
pub fn multiverse() {
    let mut multiverse = Multiverse::new();

    let genesis_state = empty_snapshot(0);
    assert_eq!(genesis_state.chain_length(), 0);
    let r0 = multiverse.add(digest_of(0), genesis_state.clone());
    multiverse.release(r0);

    let mut state = genesis_state;
    let mut root = None;
    for i in 1..10001u32 {
        state = Snapshot::new(state.chain_length() + 1, state.utxos().clone());
        assert_eq!(state.chain_length(), i);
        let new_root = multiverse.add(digest_of(i), state.clone());
        if let Some(prev) = root.take() {
            multiverse.release(prev);
        }
        root = Some(new_root);
        multiverse.gc();
        assert!(multiverse.nr_states() <= SUFFIX_TO_KEEP as usize + ((i as f32).log2()) as usize);
    }
}

#[test]
fn pin_protects_from_collection() {
    let mut store = Multiverse::new();
    for i in 0..=200u32 {
        let r = store.add(digest_of(i), empty_snapshot(i));
        store.release(r);
    }
    // the snapshot at chain length 1 is old and off the checkpoint curve;
    // keep a live root on it
    let root = store.add(digest_of(1), empty_snapshot(1));
    store.gc();
    assert!(store.get(&digest_of(1)).is_some());
    store.release(root);
    store.gc();
    assert!(store.get(&digest_of(1)).is_none());
}

#[test]
fn double_pin_single_release() {
    let mut store = Multiverse::new();
    for i in 0..=200u32 {
        let r = store.add(digest_of(i), empty_snapshot(i));
        store.release(r);
    }
    let r1 = store.add(digest_of(1), empty_snapshot(1));
    let r2 = store.add(digest_of(1), empty_snapshot(1));
    store.release(r1);
    store.gc();
    assert!(store.get(&digest_of(1)).is_some());
    store.release(r2);
    store.gc();
    assert!(store.get(&digest_of(1)).is_none());
}

#[test]
fn first_write_wins_and_suffix_kept() {
    let mut store = Multiverse::new();
    let ledger = Ledger::<OutputRecord>::new()
        .add(&digest_of(99), &[(0, OutputRecord { address: digest_of(7), value: 5 })])
        .unwrap();
    let r1 = store.add(digest_of(42), Snapshot::new(3, ledger));
    let r2 = store.add(digest_of(42), empty_snapshot(77));
    // first write wins: the stored snapshot keeps chain length 3
    assert_eq!(store.get(&digest_of(42)).unwrap().chain_length(), 3);
    assert_eq!(store.get_from_root(&r1).chain_length(), 3);
    assert_eq!(r2.block_id().to_bytes(), digest_of(42).to_bytes());
    assert_eq!(store.nr_states(), 1);
    store.release(r1);
    store.release(r2);
    // everything within the suffix window survives collection
    store.gc();
    assert_eq!(store.nr_states(), 1);
}
