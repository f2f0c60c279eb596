use chain_state::digest::Digest;
use chain_state::pmap::PersistentMap;
use chain_state::utxo::{Error, Ledger};

fn digest_of(i: u8) -> Digest {
    let mut bytes = [0u8; 32];
    bytes[0] = i;
    Digest::from_bytes(bytes)
}

#[test]
fn persistence_of_insert() {
    // P-law on the map: inserting an absent key leaves the source version
    // without it while the new version holds it
    let m = PersistentMap::<u64>::new();
    let k = digest_of(1);
    let m2 = m.insert(&k, 10).unwrap();
    assert!(m2.lookup(&k) == Some(&10));
    assert!(m.lookup(&k).is_none());
}

#[test]
fn mutation_of_derived_version_invisible() {
    let m = PersistentMap::<u64>::new();
    let a = digest_of(1);
    let b = digest_of(2);
    let m1 = m.insert(&a, 1).unwrap();
    let m2 = m1.insert(&b, 2).unwrap();
    let (m3, taken) = m2.remove(&a).unwrap();
    let m4 = m3.update(&b, 9).unwrap();
    assert_eq!(taken, 1);
    assert!(m.lookup(&a).is_none() && m.lookup(&b).is_none());
    assert!(m1.lookup(&a) == Some(&1) && m1.lookup(&b).is_none());
    assert!(m2.lookup(&a) == Some(&1) && m2.lookup(&b) == Some(&2));
    assert!(m3.lookup(&a).is_none() && m3.lookup(&b) == Some(&2));
    assert!(m4.lookup(&b) == Some(&9));
    let entries = m2.entries();
    assert_eq!(entries.len(), 2);
    assert_eq!(entries[0].1, 1);
    assert_eq!(entries[1].1, 2);
}

#[test]
fn add_remove_round_trip() {
    // add two outputs, spend index 0, then index 1: the transaction's
    // outer entry goes away with its last output
    let ledger = Ledger::<u64>::new();
    let tid = digest_of(9);
    let l1 = ledger.add(&tid, &[(0, 100), (1, 101)]).unwrap();
    let (l2, out0) = l1.remove(&tid, 0).unwrap();
    assert_eq!(out0, 100);
    assert!(l2.get(&tid, &0).is_none());
    let e1 = l2.get(&tid, &1).unwrap();
    assert_eq!(e1.output, 101);
    assert_eq!(e1.output_index, 1);
    let (l3, out1) = l2.remove(&tid, 1).unwrap();
    assert_eq!(out1, 101);
    assert!(l3.get(&tid, &0).is_none());
    assert!(l3.get(&tid, &1).is_none());
    assert!(l3.iter().is_empty());
    // the older versions are untouched
    assert!(l1.get(&tid, &0).is_some());
    assert_eq!(l2.iter().len(), 1);
}

#[test]
fn duplicate_add_rejected() {
    let ledger = Ledger::<u64>::new();
    let tid = digest_of(3);
    let l1 = ledger.add(&tid, &[(0, 5)]).unwrap();
    assert_eq!(l1.add(&tid, &[(0, 5)]).err().unwrap(), Error::AlreadyExists);
    // the first version is unaffected
    assert_eq!(l1.get(&tid, &0).unwrap().output, 5);
}

#[test]
fn remove_errors() {
    let ledger = Ledger::<u64>::new();
    let tid = digest_of(3);
    let other = digest_of(4);
    let l1 = ledger.add(&tid, &[(0, 5)]).unwrap();
    assert_eq!(l1.remove(&other, 5).err().unwrap(), Error::TransactionNotFound);
    assert_eq!(l1.remove(&tid, 5).err().unwrap(), Error::IndexNotFound);
}

#[test]
fn remove_multiple_is_all_or_nothing() {
    let ledger = Ledger::<u64>::new();
    let tid = digest_of(8);
    let l1 = ledger.add(&tid, &[(0, 10), (2, 12), (4, 14)]).unwrap();
    let (l2, outs) = l1.remove_multiple(&tid, &[4, 0]).unwrap();
    assert_eq!(outs, vec![14, 10]);
    assert!(l2.get(&tid, &4).is_none());
    assert_eq!(l2.get(&tid, &2).unwrap().output, 12);
    // one missing index fails the whole call; the source is untouched
    assert_eq!(l1.remove_multiple(&tid, &[0, 1]).err().unwrap(), Error::IndexNotFound);
    assert_eq!(l1.iter().len(), 3);
    // removing every index drops the outer entry
    let (l3, _) = l1.remove_multiple(&tid, &[0, 2, 4]).unwrap();
    assert!(l3.get(&tid, &0).is_none());
    assert_eq!(l3.values().len(), 0);
}

#[test]
fn iter_and_values_walk_in_order() {
    let ledger = Ledger::<u64>::new();
    let t1 = digest_of(1);
    let t2 = digest_of(2);
    let l1 = ledger.add(&t2, &[(1, 21), (0, 20)]).unwrap();
    let l2 = l1.add(&t1, &[(5, 15)]).unwrap();
    let triples: Vec<(u8, u8, u64)> = l2
        .iter()
        .iter()
        .map(|e| (e.fragment_id.to_bytes()[0], e.output_index, e.output))
        .collect();
    assert_eq!(triples, vec![(1, 5, 15), (2, 0, 20), (2, 1, 21)]);
    assert_eq!(l2.values(), vec![15, 20, 21]);
}
