//! Multiverse: the versioned snapshot store.
//!
//! The store keeps one immutable ledger snapshot per block identity, for a
//! chain that may fork into several competing branches. Snapshots are indexed
//! both by block identity and by chain length; reference-counted pins protect
//! individual snapshots, and a collection pass reclaims snapshots that are
//! unpinned and far behind the longest known chain, keeping checkpoints whose
//! gaps grow as they recede from the tip.

use crate::digest::Digest;
use crate::utxo::Ledger;
use crate::utxo::OutputRecord;
use vstd::prelude::*;

verus! {

/// Every snapshot within this chain-length distance of the longest known
/// chain is always retained by a collection pass.
pub const SUFFIX_TO_KEEP: u32 = 50;

/// One immutable point-in-time state of the chain: its distance from
/// genesis and the unspent-output ledger it carries.
#[derive(Clone)]
pub struct Snapshot {
    chain_length: u32,
    utxos: Ledger<OutputRecord>,
}

impl Snapshot {
    /// The snapshot's distance from genesis.
    pub closed spec fn chain_len(self) -> u32 {
        self.chain_length
    }

    /// The snapshot's balance state.
    pub closed spec fn state(self) -> Map<Seq<u8>, Map<u8, (Seq<u8>, u64)>> {
        self.utxos@
    }

    /// Wraps a ledger as the snapshot at the given chain length.
    pub fn new(chain_length: u32, utxos: Ledger<OutputRecord>) -> (r: Self)
        ensures
            r.chain_len() == chain_length,
            r.state() == utxos@,
    {
        Snapshot { chain_length, utxos }
    }

    /// The snapshot's distance from genesis.
    pub fn chain_length(&self) -> (r: u32)
        ensures
            r == self.chain_len(),
    {
        self.chain_length
    }

    /// The snapshot's unspent-output ledger.
    pub fn utxos(&self) -> (r: &Ledger<OutputRecord>)
        ensures
            r@ == self.state(),
    {
        &self.utxos
    }
}

/// The mapping that an association list denotes; the rightmost pair of a
/// key wins, though the store keeps its lists free of repeated keys.
spec fn assoc_map<T>(s: Seq<(Digest, T)>) -> Map<Seq<u8>, T>
    decreases s.len(),
{
    if s.len() == 0 {
        Map::empty()
    } else {
        assoc_map(s.drop_last()).insert(s.last().0@, s.last().1)
    }
}

/// No two pairs of the list carry the same key.
spec fn assoc_distinct<T>(s: Seq<(Digest, T)>) -> bool {
    forall|i: int, j: int| 0 <= i < j < s.len() ==> (#[trigger] s[i]).0@ != (#[trigger] s[j]).0@
}

/// Every key of the list is bound in the map it denotes.
proof fn lemma_assoc_contains<T>(s: Seq<(Digest, T)>, j: int)
    requires
        0 <= j < s.len(),
    ensures
        assoc_map(s).contains_key(s[j].0@),
    decreases s.len(),
{
    if j < s.len() - 1 {
        lemma_assoc_contains(s.drop_last(), j);
    }
}

/// Only keys of the list are bound in the map it denotes.
proof fn lemma_assoc_dom<T>(s: Seq<(Digest, T)>, k: Seq<u8>)
    requires
        assoc_map(s).contains_key(k),
    ensures
        exists|j: int| 0 <= j < s.len() && (#[trigger] s[j]).0@ == k,
    decreases s.len(),
{
    if s.len() > 0 && s.last().0@ != k {
        lemma_assoc_dom(s.drop_last(), k);
        let j = choose|j: int|
            0 <= j < s.drop_last().len() && (#[trigger] s.drop_last()[j]).0@ == k;
        assert(s[j].0@ == k);
    }
}

/// Without repeated keys, each pair's value is the bound one.
proof fn lemma_assoc_at<T>(s: Seq<(Digest, T)>, j: int)
    requires
        0 <= j < s.len(),
        assoc_distinct(s),
    ensures
        assoc_map(s)[s[j].0@] == s[j].1,
    decreases s.len(),
{
    if j < s.len() - 1 {
        lemma_assoc_at(s.drop_last(), j);
        assert(s.drop_last()[j] == s[j]);
    }
}

/// Without repeated keys, the list and the map it denotes have one entry
/// per key.
proof fn lemma_assoc_len<T>(s: Seq<(Digest, T)>)
    requires
        assoc_distinct(s),
    ensures
        assoc_map(s).dom().finite(),
        assoc_map(s).dom().len() == s.len(),
    decreases s.len(),
{
    if s.len() > 0 {
        lemma_assoc_len(s.drop_last());
        assert(assoc_map(s).dom() =~= assoc_map(s.drop_last()).dom().insert(s.last().0@));
        if assoc_map(s.drop_last()).contains_key(s.last().0@) {
            lemma_assoc_dom(s.drop_last(), s.last().0@);
            let j = choose|j: int|
                0 <= j < s.drop_last().len() && (#[trigger] s.drop_last()[j]).0@ == s.last().0@;
            assert(s[j].0@ == s.last().0@);
            assert(false);
        }
    }
}

/// A live pin on one block identity: while it is held, the snapshot stored
/// under that identity is never collected. It is handed out by `add` and
/// given back through `release`.
pub struct GCRoot {
    id: Digest,
}

impl View for GCRoot {
    type V = Seq<u8>;

    closed spec fn view(&self) -> Seq<u8> {
        self.id@
    }
}

impl GCRoot {
    /// The pinned block identity.
    pub fn block_id(&self) -> (r: &Digest)
        ensures
            r@ == self@,
    {
        &self.id
    }
}

/// The store's three tables: the snapshots by block identity, the sorted
/// list of chain lengths at which at least one snapshot is stored, and the
/// pin table. Kept apart from `Multiverse` so that a mutation can take them
/// out, rework them, and put them back in one consistent step.
struct StoreState {
    by_id: Vec<(Digest, Snapshot)>,
    lengths: Vec<u32>,
    roots: Vec<(Digest, u64)>,
}

impl StoreState {
    spec fn states(self) -> Map<Seq<u8>, Snapshot> {
        assoc_map(self.by_id@)
    }

    spec fn pins(self) -> Map<Seq<u8>, u64> {
        assoc_map(self.roots@)
    }

    /// The two identity tables have no repeated keys; every pin count is
    /// positive and protects a stored snapshot; and the length list holds,
    /// in strictly increasing order, exactly the chain lengths at which a
    /// snapshot is stored.
    spec fn wf(self) -> bool {
        &&& assoc_distinct(self.by_id@)
        &&& assoc_distinct(self.roots@)
        &&& (forall|k: Seq<u8>| #[trigger]
            self.pins().contains_key(k) ==> self.states().contains_key(k) && self.pins()[k] >= 1)
        &&& (forall|i: int, j: int|
            0 <= i < j < self.lengths@.len() ==> (#[trigger] self.lengths@[i])
                < (#[trigger] self.lengths@[j]))
        &&& (forall|i: int|
            0 <= i < self.lengths@.len() ==> length_present(
                self.states(),
                #[trigger] self.lengths@[i],
            ))
        &&& (forall|k: Seq<u8>| #[trigger]
            self.states().contains_key(k) ==> exists|i: int|
                0 <= i < self.lengths@.len() && (#[trigger] self.lengths@[i])
                    == self.states()[k].chain_len())
    }

    fn empty() -> (r: Self)
        ensures
            r.states() == Map::<Seq<u8>, Snapshot>::empty(),
            r.pins() == Map::<Seq<u8>, u64>::empty(),
            r.lengths@ == Seq::<u32>::empty(),
            r.wf(),
    {
        StoreState { by_id: Vec::new(), lengths: Vec::new(), roots: Vec::new() }
    }
}

/// Whether some stored snapshot sits at the given chain length.
pub open spec fn length_present(states: Map<Seq<u8>, Snapshot>, len: u32) -> bool {
    exists|k: Seq<u8>| #[trigger] states.contains_key(k) && states[k].chain_len() == len
}

/// Whether the given chain length is the longest one stored.
pub open spec fn is_top_length(states: Map<Seq<u8>, Snapshot>, top: u32) -> bool {
    &&& length_present(states, top)
    &&& forall|k: Seq<u8>| #[trigger] states.contains_key(k) ==> states[k].chain_len() <= top
}

/// The pin table after one more pin is taken on `k`: its count rises by
/// one, with the table entry created at one if it was unpinned.
pub open spec fn pin_acquired(pins: Map<Seq<u8>, u64>, k: Seq<u8>) -> Map<Seq<u8>, u64> {
    pins.insert(k, ((if pins.contains_key(k) { pins[k] as int } else { 0int }) + 1) as u64)
}

/// The pin table after one pin on `k` is given back: its count falls by
/// one, with the table entry going away at zero.
pub open spec fn pin_released(pins: Map<Seq<u8>, u64>, k: Seq<u8>) -> Map<Seq<u8>, u64> {
    if pins.contains_key(k) && pins[k] > 1 {
        pins.insert(k, (pins[k] - 1) as u64)
    } else {
        pins.remove(k)
    }
}

/// Law of reference counting: two pins taken on an unpinned identity are
/// independent handles over one counter. Giving one back leaves the
/// identity pinned; giving the other back unpins it and restores the table.
pub proof fn lemma_double_pin_single_release(pins: Map<Seq<u8>, u64>, k: Seq<u8>)
    requires
        !pins.contains_key(k),
    ensures
        pin_released(pin_acquired(pin_acquired(pins, k), k), k).contains_key(k),
        !pin_released(pin_released(pin_acquired(pin_acquired(pins, k), k), k), k).contains_key(k),
        pin_released(pin_released(pin_acquired(pin_acquired(pins, k), k), k), k) =~= pins,
{
}

/// The identities stored unpinned at one chain length.
pub open spec fn unpinned_at(
    states: Map<Seq<u8>, Snapshot>,
    pins: Map<Seq<u8>, u64>,
    len: u32,
) -> Set<Seq<u8>> {
    Set::new(
        |k: Seq<u8>|
            states.contains_key(k) && states[k].chain_len() == len && !pins.contains_key(k),
    )
}

/// The retention walk, from chain length `len` upward with retention
/// threshold `keep_from`: what a collection pass marks for deletion.
///
/// Every length within `SUFFIX_TO_KEEP` of the top is retained and the walk
/// stops there. Below that, a populated length at or above the threshold is
/// retained and pushes the threshold to halfway between itself and the top,
/// so the kept checkpoints thin out as they recede from the tip; a populated
/// length below the threshold has its unpinned identities marked, while
/// pinned ones are always preserved.
pub open spec fn scan_garbage(
    states: Map<Seq<u8>, Snapshot>,
    pins: Map<Seq<u8>, u64>,
    top: u32,
    len: int,
    keep_from: int,
) -> Set<Seq<u8>>
    decreases top - len,
{
    if top - len <= SUFFIX_TO_KEEP as int {
        Set::empty()
    } else if !length_present(states, len as u32) {
        scan_garbage(states, pins, top, len + 1, keep_from)
    } else if len >= keep_from {
        scan_garbage(states, pins, top, len + 1, len + (top - len) / 2)
    } else {
        unpinned_at(states, pins, len as u32) + scan_garbage(states, pins, top, len + 1, keep_from)
    }
}

/// What one collection pass deletes from a store whose longest chain is
/// `top`: the retention walk started at genesis.
pub open spec fn garbage_of(
    states: Map<Seq<u8>, Snapshot>,
    pins: Map<Seq<u8>, u64>,
    top: u32,
) -> Set<Seq<u8>> {
    scan_garbage(states, pins, top, 0, 0)
}

/// The walk ignores a stretch of lengths at which nothing is stored.
proof fn lemma_scan_skip(
    states: Map<Seq<u8>, Snapshot>,
    pins: Map<Seq<u8>, u64>,
    top: u32,
    a: int,
    b: int,
    kf: int,
)
    requires
        a <= b,
        forall|l: int| a <= l < b ==> !length_present(states, (#[trigger] (l as u32))),
    ensures
        scan_garbage(states, pins, top, a, kf) == scan_garbage(states, pins, top, b, kf),
    decreases b - a,
{
    if top - a <= SUFFIX_TO_KEEP as int {
        if !(top - b <= SUFFIX_TO_KEEP as int) {
            assert(b <= a);
        }
    } else if a < b {
        assert(!length_present(states, a as u32));
        lemma_scan_skip(states, pins, top, a + 1, b, kf);
    }
}

/// Law: a pinned identity is never part of what a collection pass deletes.
pub proof fn lemma_pinned_never_garbage(
    states: Map<Seq<u8>, Snapshot>,
    pins: Map<Seq<u8>, u64>,
    top: u32,
    len: int,
    kf: int,
    k: Seq<u8>,
)
    requires
        pins.contains_key(k),
    ensures
        !scan_garbage(states, pins, top, len, kf).contains(k),
    decreases top - len,
{
    if top - len <= SUFFIX_TO_KEEP as int {
    } else if !length_present(states, len as u32) {
        lemma_pinned_never_garbage(states, pins, top, len + 1, kf, k);
    } else if len >= kf {
        lemma_pinned_never_garbage(states, pins, top, len + 1, len + (top - len) / 2, k);
    } else {
        lemma_pinned_never_garbage(states, pins, top, len + 1, kf, k);
    }
}

/// The identities a sequence of digests denotes.
spec fn ids_set(s: Seq<Digest>) -> Set<Seq<u8>> {
    Set::new(|k: Seq<u8>| exists|a: int| 0 <= a < s.len() && (#[trigger] s[a])@ == k)
}

/// Whether some stored snapshot sits at the given chain length, by scan.
fn has_length(v: &Vec<(Digest, Snapshot)>, len: u32) -> (r: bool)
    ensures
        r <==> exists|j: int| 0 <= j < v@.len() && (#[trigger] v@[j]).1.chain_len() == len,
{
    let n = v.len();
    let mut j: usize = 0;
    while j < n
        invariant
            n == v@.len(),
            j <= n,
            forall|a: int| 0 <= a < j ==> (#[trigger] v@[a]).1.chain_len() != len,
        decreases n - j,
    {
        if v[j].1.chain_length() == len {
            return true;
        }
        j += 1;
    }
    false
}

impl StoreState {
    /// Drops one stored, unpinned snapshot from the identity table, and
    /// prunes its chain length from the length list when it was the last
    /// snapshot there.
    fn delete_one(&mut self, k: &Digest)
        requires
            old(self).wf(),
            old(self).states().contains_key(k@),
            !old(self).pins().contains_key(k@),
        ensures
            final(self).wf(),
            final(self).states() == old(self).states().remove(k@),
            final(self).roots == old(self).roots,
    {
        let t0 = Ghost(*old(self));
        match find_id(&self.by_id, k) {
            Option::None => {
                proof {
                    lemma_assoc_dom(self.by_id@, k@);
                }
                vstd::pervasive::unreached()
            },
            Option::Some(i) => {
                let len = self.by_id[i].1.chain_length();
                proof {
                    lemma_assoc_at(self.by_id@, i as int);
                    lemma_assoc_remove_at(self.by_id@, i as int);
                }
                self.by_id.remove(i);
                if !has_length(&self.by_id, len) {
                    let (found, p) = find_len_pos(&self.lengths, len);
                    if !found {
                        proof {
                            let w = choose|w: int|
                                0 <= w < t0@.lengths@.len() && (#[trigger] t0@.lengths@[w])
                                    == t0@.states()[k@].chain_len();
                            assert(false);
                        }
                    }
                    let ghost lmid = self.lengths@;
                    self.lengths.remove(p);
                    proof {
                        assert forall|x: int, y: int|
                            0 <= x < y < self.lengths@.len() implies (
                        #[trigger] self.lengths@[x]) < (#[trigger] self.lengths@[y]) by {
                            let x2: int = if x < p {
                                x
                            } else {
                                x + 1
                            };
                            let y2: int = if y < p {
                                y
                            } else {
                                y + 1
                            };
                            assert(self.lengths@[x] == lmid[x2] && self.lengths@[y] == lmid[y2]);
                        }
                        assert forall|l: u32| lmid.contains(l) && l != len implies
                            self.lengths@.contains(l) by {
                            let w = choose|w: int| 0 <= w < lmid.len() && lmid[w] == l;
                            let w2: int = if w < p {
                                w
                            } else {
                                w - 1
                            };
                            assert(self.lengths@[w2] == l);
                        }
                        assert forall|i2: int| 0 <= i2 < self.lengths@.len() implies lmid.contains(
                            #[trigger] self.lengths@[i2],
                        ) && self.lengths@[i2] != len by {
                            let i3: int = if i2 < p {
                                i2
                            } else {
                                i2 + 1
                            };
                            assert(self.lengths@[i2] == lmid[i3]);
                            assert(lmid[p as int] == len);
                        }
                    }
                } else {
                    proof {
                        assert(self.lengths@ == t0@.lengths@);
                    }
                }
                proof {
                    let snew = self.states();
                    let sold = t0@.states();
                    assert forall|k2: Seq<u8>| #[trigger] self.pins().contains_key(k2) implies
                        snew.contains_key(k2) && self.pins()[k2] >= 1 by {
                        assert(t0@.pins().contains_key(k2));
                        assert(k2 != k@);
                    }
                    assert forall|i2: int|
                        0 <= i2 < self.lengths@.len() implies length_present(
                        snew,
                        #[trigger] self.lengths@[i2],
                    ) by {
                        let l = self.lengths@[i2];
                        if exists|j: int|
                            0 <= j < self.by_id@.len() && (#[trigger] self.by_id@[j]).1.chain_len()
                                == l {
                            let j = choose|j: int|
                                0 <= j < self.by_id@.len() && (
                                #[trigger] self.by_id@[j]).1.chain_len() == l;
                            lemma_assoc_contains(self.by_id@, j);
                            lemma_assoc_at(self.by_id@, j);
                            assert(snew.contains_key(self.by_id@[j].0@) && snew[self.by_id@[
                                j].0@].chain_len() == l);
                        } else {
                            // the length list never outlives its witnesses:
                            // a surviving entry still has a stored snapshot
                            assert(t0@.lengths@.contains(l));
                            assert(length_present(sold, l));
                            let w = choose|w: Seq<u8>|
                                #[trigger] sold.contains_key(w) && sold[w].chain_len() == l;
                            assert(l != len || w != k@);
                            assert(w != k@);
                            assert(snew.contains_key(w));
                            lemma_assoc_dom(self.by_id@, w);
                            let j = choose|j: int|
                                0 <= j < self.by_id@.len() && (#[trigger] self.by_id@[j]).0@ == w;
                            lemma_assoc_at(self.by_id@, j);
                            assert(self.by_id@[j].1.chain_len() == l);
                            assert(false);
                        }
                    }
                    assert forall|k2: Seq<u8>| #[trigger] snew.contains_key(k2) implies exists|
                        i2: int,
                    |
                        0 <= i2 < self.lengths@.len() && (#[trigger] self.lengths@[i2]) == snew[
                            k2].chain_len() by {
                        assert(sold.contains_key(k2) && k2 != k@);
                        assert(snew[k2] == sold[k2]);
                        let l = snew[k2].chain_len();
                        let w = choose|w: int|
                            0 <= w < t0@.lengths@.len() && (#[trigger] t0@.lengths@[w]) == l;
                        if self.lengths@ == t0@.lengths@ {
                            assert(self.lengths@[w] == l);
                        } else {
                            if l == len {
                                lemma_assoc_dom(self.by_id@, k2);
                                let j = choose|j: int|
                                    0 <= j < self.by_id@.len() && (#[trigger] self.by_id@[j]).0@
                                        == k2;
                                lemma_assoc_at(self.by_id@, j);
                                assert(self.by_id@[j].1.chain_len() == len);
                                assert(false);
                            }
                            assert(t0@.lengths@.contains(l));
                            assert(self.lengths@.contains(l));
                            let i2 = choose|i2: int|
                                0 <= i2 < self.lengths@.len() && self.lengths@[i2] == l;
                            assert(self.lengths@[i2] == l);
                        }
                    }
                }
            },
        }
    }
}

/// The versioned store: one snapshot per known block identity, indexed by
/// chain length for retention decisions, with a reference-counted pin table.
pub struct Multiverse {
    s: StoreState,
}

impl Multiverse {
    /// The stored snapshots, by block identity.
    pub closed spec fn states(self) -> Map<Seq<u8>, Snapshot> {
        self.s.states()
    }

    /// The pin table: identities bound to their positive pin counts;
    /// absence means unpinned.
    pub closed spec fn pins(self) -> Map<Seq<u8>, u64> {
        self.s.pins()
    }

    /// Whether at least one live pin protects the identity.
    pub open spec fn pinned(self, k: Seq<u8>) -> bool {
        self.pins().contains_key(k)
    }

    /// How many live pins protect the identity.
    pub open spec fn pin_count(self, k: Seq<u8>) -> u64 {
        if self.pins().contains_key(k) {
            self.pins()[k]
        } else {
            0
        }
    }

    #[verifier::type_invariant]
    spec fn inv(self) -> bool {
        self.s.wf()
    }

    /// Creates an empty store.
    pub fn new() -> (r: Self)
        ensures
            r.states() == Map::<Seq<u8>, Snapshot>::empty(),
            r.pins() == Map::<Seq<u8>, u64>::empty(),
    {
        Multiverse { s: StoreState::empty() }
    }

    /// Looks a block identity up. Absence is a normal outcome: the block is
    /// not yet known, or its snapshot has been collected.
    pub fn get(&self, k: &Digest) -> (r: Option<&Snapshot>)
        ensures
            match r {
                Option::Some(st) => self.states().contains_key(k@) && *st == self.states()[k@],
                Option::None => !self.states().contains_key(k@),
            },
    {
        proof {
            use_type_invariant(self);
        }
        let n = self.s.by_id.len();
        let mut i: usize = 0;
        while i < n
            invariant
                n == self.s.by_id@.len(),
                i <= n,
                assoc_distinct(self.s.by_id@),
                forall|j: int| 0 <= j < i ==> (#[trigger] self.s.by_id@[j]).0@ != k@,
            decreases n - i,
        {
            if self.s.by_id[i].0.equals(k) {
                proof {
                    lemma_assoc_contains(self.s.by_id@, i as int);
                    lemma_assoc_at(self.s.by_id@, i as int);
                }
                return Option::Some(&self.s.by_id[i].1);
            }
            i += 1;
        }
        proof {
            if self.states().contains_key(k@) {
                lemma_assoc_dom(self.s.by_id@, k@);
            }
        }
        Option::None
    }

    /// The number of snapshots currently stored.
    pub fn nr_states(&self) -> (r: usize)
        ensures
            r == self.states().dom().len(),
    {
        proof {
            use_type_invariant(self);
            lemma_assoc_len(self.s.by_id@);
        }
        self.s.by_id.len()
    }

    /// The snapshot a live root pins.
    ///
    /// The root must have been obtained from this store and not yet
    /// released: handing a root of one store to another is a programming
    /// error, not a recoverable condition.
    pub fn get_from_root(&self, root: &GCRoot) -> (r: &Snapshot)
        requires
            self.pinned(root@),
        ensures
            self.states().contains_key(root@),
            *r == self.states()[root@],
    {
        proof {
            use_type_invariant(self);
        }
        match self.get(&root.id) {
            Option::Some(st) => st,
            Option::None => vstd::pervasive::unreached(),
        }
    }
}

/// Without repeated keys, dropping one pair unbinds exactly its key.
proof fn lemma_assoc_remove_at<T>(s: Seq<(Digest, T)>, i: int)
    requires
        assoc_distinct(s),
        0 <= i < s.len(),
    ensures
        assoc_distinct(s.remove(i)),
        assoc_map(s.remove(i)) == assoc_map(s).remove(s[i].0@),
{
    let s2 = s.remove(i);
    assert forall|a: int, b: int| 0 <= a < b < s2.len() implies (#[trigger] s2[a]).0@ != (
    #[trigger] s2[b]).0@ by {
        let a2: int = if a < i { a } else { a + 1 };
        let b2: int = if b < i { b } else { b + 1 };
        assert(s2[a] == s[a2] && s2[b] == s[b2]);
    }
    assert forall|k: Seq<u8>| #[trigger] assoc_map(s2).contains_key(k) implies assoc_map(
        s,
    ).remove(s[i].0@).contains_key(k) && assoc_map(s2)[k] == assoc_map(s).remove(s[i].0@)[k] by {
        lemma_assoc_dom(s2, k);
        let a = choose|a: int| 0 <= a < s2.len() && (#[trigger] s2[a]).0@ == k;
        let j: int = if a < i { a } else { a + 1 };
        assert(s2[a] == s[j]);
        lemma_assoc_contains(s, j);
        lemma_assoc_at(s, j);
        lemma_assoc_at(s2, a);
    }
    assert forall|k: Seq<u8>| assoc_map(s).remove(s[i].0@).contains_key(k) implies assoc_map(
        s2,
    ).contains_key(k) by {
        lemma_assoc_dom(s, k);
        let j = choose|j: int| 0 <= j < s.len() && (#[trigger] s[j]).0@ == k;
        let a: int = if j < i {
            j
        } else {
            j - 1
        };
        assert(s2[a] == s[j]);
        lemma_assoc_contains(s2, a);
    }
    assert(assoc_map(s.remove(i)) =~= assoc_map(s).remove(s[i].0@));
}

/// Position of a key in an association list, scanning from the front.
fn find_id<'a, T>(v: &'a Vec<(Digest, T)>, k: &Digest) -> (r: Option<usize>)
    ensures
        match r {
            Option::Some(i) => i < v@.len() && v@[i as int].0@ == k@,
            Option::None => forall|j: int| 0 <= j < v@.len() ==> (#[trigger] v@[j]).0@ != k@,
        },
{
    let n = v.len();
    let mut i: usize = 0;
    while i < n
        invariant
            n == v@.len(),
            i <= n,
            forall|j: int| 0 <= j < i ==> (#[trigger] v@[j]).0@ != k@,
        decreases n - i,
    {
        if v[i].0.equals(k) {
            return Option::Some(i);
        }
        i += 1;
    }
    Option::None
}

/// Where a chain length sits, or would sit, in the sorted length list:
/// either its position, or the position at which to insert it.
fn find_len_pos(lengths: &Vec<u32>, len: u32) -> (r: (bool, usize))
    requires
        forall|i: int, j: int|
            0 <= i < j < lengths@.len() ==> (#[trigger] lengths@[i]) < (#[trigger] lengths@[j]),
    ensures
        r.0 ==> r.1 < lengths@.len() && lengths@[r.1 as int] == len,
        !r.0 ==> {
            &&& (forall|j: int| 0 <= j < lengths@.len() ==> (#[trigger] lengths@[j]) != len)
            &&& r.1 <= lengths@.len()
            &&& (forall|j: int| 0 <= j < r.1 ==> (#[trigger] lengths@[j]) < len)
            &&& (forall|j: int| r.1 <= j < lengths@.len() ==> (#[trigger] lengths@[j]) > len)
        },
{
    let n = lengths.len();
    let mut i: usize = 0;
    while i < n
        invariant
            n == lengths@.len(),
            i <= n,
            forall|x: int, y: int|
                0 <= x < y < lengths@.len() ==> (#[trigger] lengths@[x]) < (#[trigger] lengths@[y]),
            forall|j: int| 0 <= j < i ==> (#[trigger] lengths@[j]) < len,
        decreases n - i,
    {
        if lengths[i] == len {
            return (true, i);
        }
        if lengths[i] > len {
            return (false, i);
        }
        i += 1;
    }
    (false, n)
}

impl StoreState {
    /// Raises the pin count of an identity by one, creating its table entry
    /// at one if it was unpinned.
    fn pin(&mut self, k: &Digest)
        requires
            assoc_distinct(old(self).roots@),
            (if old(self).pins().contains_key(k@) {
                old(self).pins()[k@]
            } else {
                0
            }) < u64::MAX,
        ensures
            assoc_distinct(final(self).roots@),
            final(self).pins() == old(self).pins().insert(
                k@,
                ((if old(self).pins().contains_key(k@) {
                    old(self).pins()[k@]
                } else {
                    0
                }) + 1) as u64,
            ),
            final(self).by_id == old(self).by_id,
            final(self).lengths == old(self).lengths,
    {
        match find_id(&self.roots, k) {
            Option::Some(i) => {
                proof {
                    lemma_assoc_contains(self.roots@, i as int);
                    lemma_assoc_at(self.roots@, i as int);
                    lemma_assoc_remove_at(self.roots@, i as int);
                }
                let c = self.roots[i].1;
                let ghost mid = self.roots@.remove(i as int);
                self.roots.remove(i);
                self.roots.push((*k, c + 1));
                proof {
                    assert(self.roots@.drop_last() =~= mid);
                    assert forall|a: int, b: int| 0 <= a < b < self.roots@.len() implies (
                    #[trigger] self.roots@[a]).0@ != (#[trigger] self.roots@[b]).0@ by {
                        if b == self.roots@.len() - 1 {
                            if mid[a].0@ == k@ {
                                lemma_assoc_contains(mid, a);
                            }
                        }
                    }
                    assert(self.pins() =~= old(self).pins().insert(k@, (c + 1) as u64));
                }
            },
            Option::None => {
                proof {
                    if old(self).pins().contains_key(k@) {
                        lemma_assoc_dom(self.roots@, k@);
                    }
                }
                let ghost mid = self.roots@;
                self.roots.push((*k, 1));
                proof {
                    assert(self.roots@.drop_last() =~= mid);
                    assert forall|a: int, b: int| 0 <= a < b < self.roots@.len() implies (
                    #[trigger] self.roots@[a]).0@ != (#[trigger] self.roots@[b]).0@ by {
                        if b == self.roots@.len() - 1 {
                            assert(mid[a].0@ != k@);
                        }
                    }
                    assert(self.pins() =~= old(self).pins().insert(k@, 1u64));
                }
            },
        }
    }
}

impl Multiverse {
    /// Stores a snapshot under a block identity and pins that identity,
    /// handing the pin back as a live root.
    ///
    /// If the identity is already stored the first write wins: the stored
    /// snapshot is kept and the new one discarded, but the identity is
    /// pinned all the same. The pin count of the identity must sit below
    /// the machine's limit; each `add` raises it by one.
    pub fn add(&mut self, k: Digest, st: Snapshot) -> (root: GCRoot)
        requires
            old(self).pin_count(k@) < u64::MAX,
        ensures
            final(self).states() == (if old(self).states().contains_key(k@) {
                old(self).states()
            } else {
                old(self).states().insert(k@, st)
            }),
            final(self).pins() == pin_acquired(old(self).pins(), k@),
            root@ == k@,
    {
        proof {
            use_type_invariant(&*self);
        }
        let mut t = StoreState::empty();
        std::mem::swap(&mut t, &mut self.s);
        let ghost t0 = t;
        match find_id(&t.by_id, &k) {
            Option::Some(i) => {
                proof {
                    lemma_assoc_contains(t.by_id@, i as int);
                }
            },
            Option::None => {
                proof {
                    if t.states().contains_key(k@) {
                        lemma_assoc_dom(t.by_id@, k@);
                    }
                }
                let len = st.chain_length();
                let ghost mid = t.by_id@;
                t.by_id.push((k, st));
                proof {
                    assert(t.by_id@.drop_last() =~= mid);
                    assert forall|a: int, b: int| 0 <= a < b < t.by_id@.len() implies (
                    #[trigger] t.by_id@[a]).0@ != (#[trigger] t.by_id@[b]).0@ by {
                        if b == t.by_id@.len() - 1 {
                            assert(mid[a].0@ != k@);
                        }
                    }
                }
                let (found, p) = find_len_pos(&t.lengths, len);
                if !found {
                    let ghost lmid = t.lengths@;
                    t.lengths.insert(p, len);
                    proof {
                        assert forall|x: int, y: int| 0 <= x < y < t.lengths@.len() implies (
                        #[trigger] t.lengths@[x]) < (#[trigger] t.lengths@[y]) by {
                            let x2: int = if x < p { x } else { x - 1 };
                            let y2: int = if y < p { y } else { y - 1 };
                            if x != p && y != p {
                                assert(t.lengths@[x] == lmid[x2] && t.lengths@[y] == lmid[y2]);
                            } else if x == p {
                                assert(t.lengths@[y] == lmid[y2]);
                            } else {
                                assert(t.lengths@[x] == lmid[x2]);
                            }
                        }
                        assert forall|i: int| 0 <= i < t.lengths@.len() implies lmid.contains(
                            #[trigger] t.lengths@[i],
                        ) || t.lengths@[i] == len by {
                            if i != p {
                                let j: int = if i < p {
                                    i
                                } else {
                                    i - 1
                                };
                                assert(t.lengths@[i] == lmid[j]);
                            }
                        }
                        assert forall|l: u32| lmid.contains(l) implies t.lengths@.contains(
                            l,
                        ) by {
                            let j = choose|j: int| 0 <= j < lmid.len() && lmid[j] == l;
                            let j2: int = if j < p {
                                j
                            } else {
                                j + 1
                            };
                            assert(t.lengths@[j2] == l);
                        }
                        assert(t.lengths@[p as int] == len);
                        assert(t.lengths@.contains(len));
                    }
                } else {
                    proof {
                        assert(t.lengths@.contains(len));
                    }
                }
                proof {
                    assert forall|i: int|
                        0 <= i < t.lengths@.len() implies length_present(
                        t.states(),
                        #[trigger] t.lengths@[i],
                    ) by {
                        let l = t.lengths@[i];
                        if l == len {
                            assert(t.states().contains_key(k@) && t.states()[k@].chain_len()
                                == l);
                        } else {
                            assert(t0.lengths@.contains(l));
                            let j = choose|j: int|
                                0 <= j < t0.lengths@.len() && t0.lengths@[j] == l;
                            assert(length_present(t0.states(), l));
                            let w = choose|w: Seq<u8>|
                                #[trigger] t0.states().contains_key(w) && t0.states()[w].chain_len() == l;
                            assert(t.states().contains_key(w) && t.states()[w].chain_len()
                                == l);
                        }
                    }
                    assert forall|k2: Seq<u8>| #[trigger] t.states().contains_key(k2) implies
                        t.lengths@.contains(t.states()[k2].chain_len()) by {
                        if t0.states().contains_key(k2) {
                            let i = choose|i: int|
                                0 <= i < t0.lengths@.len() && (#[trigger] t0.lengths@[i])
                                    == t0.states()[k2].chain_len();
                            assert(t0.lengths@.contains(t0.lengths@[i]));
                            assert(t.lengths@.contains(t0.lengths@[i]));
                        } else {
                            assert(k2 == k@);
                            assert(t.lengths@.contains(len));
                        }
                    }
                }
            },
        }
        let ghost tp = t;
        t.pin(&k);
        proof {
            assert(t.by_id == tp.by_id && t.lengths == tp.lengths);
            assert(t.states() == tp.states());
            assert forall|k2: Seq<u8>| #[trigger] t.pins().contains_key(k2) implies
                t.states().contains_key(k2) && t.pins()[k2] >= 1 by {
                if k2 != k@ {
                    assert(t0.pins().contains_key(k2));
                }
            }
            assert forall|i: int|
                0 <= i < t.lengths@.len() implies length_present(
                t.states(),
                #[trigger] t.lengths@[i],
            ) by {
                assert(length_present(tp.states(), tp.lengths@[i]));
            }
            assert(assoc_distinct(t.by_id@));
            assert(assoc_distinct(t.roots@));
            assert(forall|k2: Seq<u8>| #[trigger]
                t.pins().contains_key(k2) ==> t.states().contains_key(k2) && t.pins()[k2] >= 1);
            assert(forall|i: int, j: int|
                0 <= i < j < t.lengths@.len() ==> (#[trigger] t.lengths@[i]) < (
                #[trigger] t.lengths@[j]));
            assert(forall|i: int|
                0 <= i < t.lengths@.len() ==> length_present(
                    t.states(),
                    #[trigger] t.lengths@[i],
                ));
            assert(forall|k2: Seq<u8>| #[trigger]
                t.states().contains_key(k2) ==> exists|i: int|
                    0 <= i < t.lengths@.len() && (#[trigger] t.lengths@[i]) == t.states()[
                        k2].chain_len());
        }
        self.s = t;
        GCRoot { id: k }
    }

    /// Gives a live root back: the pin count of its identity goes down by
    /// one, and the table entry goes away when the count reaches zero,
    /// leaving the identity open to collection again.
    ///
    /// The root must have been obtained from this store: handing a root of
    /// one store to another is a programming error, not a recoverable
    /// condition.
    pub fn release(&mut self, root: GCRoot)
        requires
            old(self).pinned(root@),
        ensures
            final(self).states() == old(self).states(),
            final(self).pins() == pin_released(old(self).pins(), root@),
    {
        proof {
            use_type_invariant(&*self);
        }
        let mut t = StoreState::empty();
        std::mem::swap(&mut t, &mut self.s);
        let ghost t0 = t;
        match find_id(&t.roots, &root.id) {
            Option::Some(i) => {
                proof {
                    lemma_assoc_contains(t.roots@, i as int);
                    lemma_assoc_at(t.roots@, i as int);
                    lemma_assoc_remove_at(t.roots@, i as int);
                }
                let c = t.roots[i].1;
                let ghost mid = t.roots@.remove(i as int);
                t.roots.remove(i);
                if c > 1 {
                    t.roots.push((root.id, c - 1));
                    proof {
                        assert(t.roots@.drop_last() =~= mid);
                        assert forall|a: int, b: int| 0 <= a < b < t.roots@.len() implies (
                        #[trigger] t.roots@[a]).0@ != (#[trigger] t.roots@[b]).0@ by {
                            if b == t.roots@.len() - 1 {
                                if mid[a].0@ == root@ {
                                    lemma_assoc_contains(mid, a);
                                }
                            }
                        }
                        assert(t.pins() =~= t0.pins().insert(root@, (c - 1) as u64));
                    }
                }
            },
            Option::None => {
                proof {
                    lemma_assoc_dom(t.roots@, root@);
                    assert(false);
                }
            },
        }
        proof {
            assert forall|k2: Seq<u8>| #[trigger] t.pins().contains_key(k2) implies
                t.states().contains_key(k2) && t.pins()[k2] >= 1 by {
                assert(t0.pins().contains_key(k2));
            }
            assert(assoc_distinct(t.by_id@));
            assert(assoc_distinct(t.roots@));
            assert(forall|i: int, j: int|
                0 <= i < j < t.lengths@.len() ==> (#[trigger] t.lengths@[i]) < (
                #[trigger] t.lengths@[j]));
            assert(forall|i: int|
                0 <= i < t.lengths@.len() ==> length_present(
                    t.states(),
                    #[trigger] t.lengths@[i],
                ));
            assert forall|k2: Seq<u8>| #[trigger] t.states().contains_key(k2) implies exists|
                i: int,
            | 0 <= i < t.lengths@.len() && (#[trigger] t.lengths@[i]) == t.states()[
                k2].chain_len() by {
                assert(t0.states().contains_key(k2));
                let i = choose|i: int|
                    0 <= i < t0.lengths@.len() && (#[trigger] t0.lengths@[i]) == t0.states()[
                        k2].chain_len();
                assert(0 <= i < t.lengths@.len() && t.lengths@[i] == t.states()[k2].chain_len());
            }
        }
        self.s = t;
    }
}

impl Multiverse {
    /// One collection pass: reclaims every snapshot that the retention walk
    /// marks, and nothing else. Pinned snapshots are never reclaimed, nor is
    /// anything within `SUFFIX_TO_KEEP` of the longest chain; below that,
    /// retained checkpoints thin out as they recede from the tip. On a store
    /// with nothing in it the pass does nothing. The pin table is never
    /// changed by collection.
    #[verifier::rlimit(80)]
    pub fn gc(&mut self)
        ensures
            final(self).pins() == old(self).pins(),
            old(self).states().dom() =~= Set::<Seq<u8>>::empty() ==> final(self).states()
                == old(self).states(),
            forall|top: u32|
                is_top_length(old(self).states(), top) ==> final(self).states()
                    =~= old(self).states().remove_keys(
                    garbage_of(old(self).states(), old(self).pins(), top),
                ),
            forall|k: Seq<u8>| #[trigger]
                final(self).states().contains_key(k) ==> old(self).states().contains_key(k)
                    && final(self).states()[k] == old(self).states()[k],
            forall|k: Seq<u8>|
                old(self).states().contains_key(k) && old(self).pinned(k)
                    ==> final(self).states().contains_key(k),
    {
        proof {
            use_type_invariant(&*self);
        }
        let mut t = StoreState::empty();
        std::mem::swap(&mut t, &mut self.s);
        let ghost states0 = t.states();
        let ghost pins0 = t.pins();
        let n = t.lengths.len();
        if n == 0 {
            proof {
                assert forall|k: Seq<u8>| !(#[trigger] states0.contains_key(k)) by {
                    if states0.contains_key(k) {
                        let i = choose|i: int|
                            0 <= i < t.lengths@.len() && (#[trigger] t.lengths@[i]) == states0[
                                k].chain_len();
                    }
                }
                assert(states0.dom() =~= Set::<Seq<u8>>::empty());
            }
            self.s = t;
            return;
        }
        let top = t.lengths[n - 1];
        proof {
            assert(length_present(states0, top));
            assert forall|k: Seq<u8>| #[trigger]
                states0.contains_key(k) implies states0[k].chain_len() <= top by {
                let i = choose|i: int|
                    0 <= i < t.lengths@.len() && (#[trigger] t.lengths@[i]) == states0[
                        k].chain_len();
            }
            assert(is_top_length(states0, top));
            assert forall|top2: u32| is_top_length(states0, top2) implies top2 == top by {
                let w = choose|w: Seq<u8>|
                    #[trigger] states0.contains_key(w) && states0[w].chain_len() == top2;
                let w0 = choose|w0: Seq<u8>|
                    #[trigger] states0.contains_key(w0) && states0[w0].chain_len() == top;
            }
        }
        let mut keep_from: u32 = 0;
        let mut garbage: Vec<Digest> = Vec::new();
        let mut i: usize = 0;
        let mut stopped = false;
        proof {
            assert forall|l: int| 0 <= l < t.lengths@[0] implies !length_present(
                states0,
                (#[trigger] (l as u32)),
            ) by {
                if length_present(states0, l as u32) {
                    let w = choose|w: Seq<u8>|
                        #[trigger] states0.contains_key(w) && states0[w].chain_len() == l as u32;
                    let idx = choose|idx: int|
                        0 <= idx < t.lengths@.len() && (#[trigger] t.lengths@[idx]) == states0[
                            w].chain_len();
                    assert(idx == 0 || t.lengths@[0] < t.lengths@[idx]);
                }
            }
            lemma_scan_skip(states0, pins0, top, 0, t.lengths@[0] as int, 0);
            assert(ids_set(garbage@) =~= Set::<Seq<u8>>::empty());
            assert(garbage_of(states0, pins0, top) =~= ids_set(garbage@) + scan_garbage(
                states0,
                pins0,
                top,
                t.lengths@[0] as int,
                0,
            ));
        }
        while i < n && !stopped
            invariant
                t.wf(),
                states0 == t.states(),
                pins0 == t.pins(),
                n == t.lengths@.len(),
                0 < n,
                i <= n,
                top == t.lengths@[n - 1],
                !stopped ==> i < n,
                forall|a: int|
                    0 <= a < garbage@.len() ==> states0.contains_key((#[trigger] garbage@[a])@)
                        && !pins0.contains_key(garbage@[a]@),
                !stopped ==> forall|a: int|
                    0 <= a < garbage@.len() ==> states0[(#[trigger] garbage@[a])@].chain_len()
                        < t.lengths@[i as int],
                forall|a: int, b: int|
                    0 <= a < b < garbage@.len() ==> (#[trigger] garbage@[a])@ != (
                    #[trigger] garbage@[b])@,
                !stopped ==> garbage_of(states0, pins0, top) =~= ids_set(garbage@) + scan_garbage(
                    states0,
                    pins0,
                    top,
                    t.lengths@[i as int] as int,
                    keep_from as int,
                ),
                stopped ==> garbage_of(states0, pins0, top) =~= ids_set(garbage@),
            decreases n - i, 1int - (if stopped { 1int } else { 0int }),
        {
            let len = t.lengths[i];
            proof {
                assert(len <= top);
            }
            if top - len <= SUFFIX_TO_KEEP {
                proof {
                    assert(scan_garbage(states0, pins0, top, len as int, keep_from as int)
                        =~= Set::<Seq<u8>>::empty());
                }
                stopped = true;
            } else {
                proof {
                    assert(i < n - 1);
                    assert(length_present(states0, len));
                    assert forall|l: int|
                        len + 1 <= l < t.lengths@[i + 1] implies !length_present(
                        states0,
                        (#[trigger] (l as u32)),
                    ) by {
                        if length_present(states0, l as u32) {
                            let w = choose|w: Seq<u8>|
                                #[trigger] states0.contains_key(w) && states0[w].chain_len()
                                    == l as u32;
                            let j = choose|j: int|
                                0 <= j < t.lengths@.len() && (#[trigger] t.lengths@[j]) == states0[
                                    w].chain_len();
                            if j <= i {
                                assert(t.lengths@[j] <= t.lengths@[i as int]);
                            } else {
                                assert(t.lengths@[i + 1] <= t.lengths@[j]);
                            }
                        }
                    }
                }
                if len >= keep_from {
                    proof {
                        lemma_scan_skip(
                            states0,
                            pins0,
                            top,
                            len as int + 1,
                            t.lengths@[i + 1] as int,
                            len as int + (top - len) as int / 2,
                        );
                    }
                    keep_from = len + (top - len) / 2;
                } else {
                    let ghost g0 = garbage@;
                    let m = t.by_id.len();
                    let mut j: usize = 0;
                    while j < m
                        invariant
                            t.wf(),
                            states0 == t.states(),
                            pins0 == t.pins(),
                            m == t.by_id@.len(),
                            j <= m,
                            garbage@.len() >= g0.len(),
                            garbage@.subrange(0, g0.len() as int) == g0,
                            forall|a: int|
                                0 <= a < garbage@.len() ==> states0.contains_key(
                                    (#[trigger] garbage@[a])@,
                                ) && !pins0.contains_key(garbage@[a]@),
                            forall|a: int|
                                g0.len() <= a < garbage@.len() ==> states0[(
                                #[trigger] garbage@[a])@].chain_len() == len,
                            forall|a: int|
                                0 <= a < g0.len() ==> states0[(#[trigger] garbage@[a])@].chain_len()
                                    < len,
                            forall|a: int, b: int|
                                0 <= a < b < garbage@.len() ==> (#[trigger] garbage@[a])@ != (
                                #[trigger] garbage@[b])@,
                            forall|a: int|
                                g0.len() <= a < garbage@.len() ==> exists|j2: int|
                                    0 <= j2 < j && (#[trigger] garbage@[a]) == t.by_id@[j2].0,
                            forall|j2: int|
                                0 <= j2 < j && states0[(#[trigger] t.by_id@[j2]).0@].chain_len()
                                    == len && !pins0.contains_key(t.by_id@[j2].0@) ==> exists|
                                    a: int,
                                |
                                    g0.len() <= a < garbage@.len() && (#[trigger] garbage@[a])
                                        == t.by_id@[j2].0,
                        decreases m - j,
                    {
                        let id = t.by_id[j].0;
                        let ghost gpre = garbage@;
                        proof {
                            lemma_assoc_contains(t.by_id@, j as int);
                            lemma_assoc_at(t.by_id@, j as int);
                        }
                        if t.by_id[j].1.chain_length() == len {
                            let pinned_here = match find_id(&t.roots, &id) {
                                Option::Some(q) => {
                                    proof {
                                        lemma_assoc_contains(t.roots@, q as int);
                                    }
                                    true
                                },
                                Option::None => {
                                    proof {
                                        if pins0.contains_key(id@) {
                                            lemma_assoc_dom(t.roots@, id@);
                                        }
                                    }
                                    false
                                },
                            };
                            if !pinned_here {
                                garbage.push(id);
                                proof {
                                    assert(garbage@.subrange(0, g0.len() as int)
                                        =~= gpre.subrange(0, g0.len() as int));
                                    assert forall|a: int, b: int|
                                        0 <= a < b < garbage@.len() implies (
                                    #[trigger] garbage@[a])@ != (#[trigger] garbage@[b])@ by {
                                        if b == garbage@.len() - 1 {
                                            if a >= g0.len() {
                                                let j2 = choose|j2: int|
                                                    0 <= j2 < j && (#[trigger] gpre[a]) == t.by_id@[
                                                        j2].0;
                                                assert(t.by_id@[j2].0@ != t.by_id@[
                                                    j as int].0@);
                                            }
                                        }
                                    }
                                }
                            }
                        }
                        proof {
                            assert forall|j2: int|
                                0 <= j2 < j + 1 && states0[(
                                #[trigger] t.by_id@[j2]).0@].chain_len() == len
                                    && !pins0.contains_key(t.by_id@[j2].0@) implies exists|a: int|
                                g0.len() <= a < garbage@.len() && (#[trigger] garbage@[a])
                                    == t.by_id@[j2].0 by {
                                if j2 < j {
                                    let a = choose|a: int|
                                        g0.len() <= a < gpre.len() && (#[trigger] gpre[a])
                                            == t.by_id@[j2].0;
                                    assert(garbage@[a] == t.by_id@[j2].0);
                                } else {
                                    assert(garbage@[garbage@.len() - 1] == t.by_id@[j2].0);
                                }
                            }
                        }
                        j += 1;
                    }
                    proof {
                        assert forall|k: Seq<u8>|
                            ids_set(garbage@).contains(k) implies (ids_set(g0) + unpinned_at(
                            states0,
                            pins0,
                            len,
                        )).contains(k) by {
                            let a = choose|a: int|
                                0 <= a < garbage@.len() && (#[trigger] garbage@[a])@ == k;
                            if a < g0.len() {
                                assert(g0[a]@ == k);
                            }
                        }
                        assert forall|k: Seq<u8>|
                            (ids_set(g0) + unpinned_at(states0, pins0, len)).contains(
                            k,
                        ) implies ids_set(garbage@).contains(k) by {
                            if ids_set(g0).contains(k) {
                                let a = choose|a: int|
                                    0 <= a < g0.len() && (#[trigger] g0[a])@ == k;
                                assert(garbage@[a]@ == k);
                            } else {
                                lemma_assoc_dom(t.by_id@, k);
                                let j2 = choose|j2: int|
                                    0 <= j2 < t.by_id@.len() && (#[trigger] t.by_id@[j2]).0@ == k;
                                lemma_assoc_at(t.by_id@, j2);
                                let a = choose|a: int|
                                    g0.len() <= a < garbage@.len() && (#[trigger] garbage@[a])
                                        == t.by_id@[j2].0;
                                assert(garbage@[a]@ == k);
                            }
                        }
                        assert(ids_set(garbage@) =~= ids_set(g0) + unpinned_at(
                            states0,
                            pins0,
                            len,
                        ));
                        lemma_scan_skip(
                            states0,
                            pins0,
                            top,
                            len as int + 1,
                            t.lengths@[i + 1] as int,
                            keep_from as int,
                        );
                    }
                }
                i += 1;
            }
        }
        proof {
            assert(stopped);
        }
        let ng = garbage.len();
        let mut a: usize = 0;
        while a < ng
            invariant
                ng == garbage@.len(),
                a <= ng,
                t.wf(),
                pins0 == t.pins(),
                t.states() =~= states0.remove_keys(ids_set(garbage@.subrange(0, a as int))),
                forall|c: int|
                    0 <= c < garbage@.len() ==> states0.contains_key((#[trigger] garbage@[c])@)
                        && !pins0.contains_key(garbage@[c]@),
                forall|c: int, b: int|
                    0 <= c < b < garbage@.len() ==> (#[trigger] garbage@[c])@ != (
                    #[trigger] garbage@[b])@,
            decreases ng - a,
        {
            proof {
                assert(t.states().contains_key(garbage@[a as int]@)) by {
                    assert(states0.contains_key(garbage@[a as int]@));
                    if ids_set(garbage@.subrange(0, a as int)).contains(garbage@[a as int]@) {
                        let c = choose|c: int|
                            0 <= c < a && (#[trigger] garbage@.subrange(0, a as int)[c])@
                                == garbage@[a as int]@;
                        assert(garbage@[c]@ == garbage@[a as int]@);
                    }
                }
            }
            let ghost tpre = t;
            t.delete_one(&garbage[a]);
            proof {
                assert(garbage@.subrange(0, a + 1) =~= garbage@.subrange(0, a as int).push(
                    garbage@[a as int],
                ));
                assert forall|k: Seq<u8>|
                    ids_set(garbage@.subrange(0, a + 1)).contains(k) implies ids_set(
                    garbage@.subrange(0, a as int),
                ).insert(garbage@[a as int]@).contains(k) by {
                    let c = choose|c: int|
                        0 <= c < a + 1 && (#[trigger] garbage@.subrange(0, a + 1)[c])@ == k;
                    if c < a {
                        assert(garbage@.subrange(0, a as int)[c]@ == k);
                    }
                }
                assert forall|k: Seq<u8>|
                    ids_set(garbage@.subrange(0, a as int)).insert(garbage@[a as int]@).contains(
                    k,
                ) implies ids_set(garbage@.subrange(0, a + 1)).contains(k) by {
                    if k == garbage@[a as int]@ {
                        assert(garbage@.subrange(0, a + 1)[a as int]@ == k);
                    } else {
                        let c = choose|c: int|
                            0 <= c < a && (#[trigger] garbage@.subrange(0, a as int)[c])@ == k;
                        assert(garbage@.subrange(0, a + 1)[c]@ == k);
                    }
                }
                assert(ids_set(garbage@.subrange(0, a + 1)) =~= ids_set(
                    garbage@.subrange(0, a as int),
                ).insert(garbage@[a as int]@));
                assert(t.states() =~= states0.remove_keys(
                    ids_set(garbage@.subrange(0, a + 1)),
                ));
            }
            a += 1;
        }
        proof {
            assert(garbage@.subrange(0, ng as int) =~= garbage@);
            assert forall|k: Seq<u8>| #[trigger] t.pins().contains_key(k) implies
                t.states().contains_key(k) && t.pins()[k] >= 1 by {}
            assert forall|k: Seq<u8>|
                states0.contains_key(k) && pins0.contains_key(k) implies t.states().contains_key(
                k,
            ) by {
                if ids_set(garbage@).contains(k) {
                    let c = choose|c: int|
                        0 <= c < garbage@.len() && (#[trigger] garbage@[c])@ == k;
                }
            }
        }
        self.s = t;
    }
}

} // verus!
