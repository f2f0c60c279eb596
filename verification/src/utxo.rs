//! Unspent-output ledger.
//!
//! The ledger maps a transaction identity to the small ordered set of its
//! still-unspent outputs, indexed by output position. It wraps the persistent
//! map, so every mutation yields a new ledger version and every older version
//! keeps exactly the content it had. An identity is present in the outer map
//! if and only if at least one of its output slots is still filled; removing
//! the last slot removes the outer entry in the same logical step.

use crate::digest::Digest;
use crate::digest::lex_lt;
use crate::pmap::PersistentMap;
use crate::pmap::Replicable;
use vstd::prelude::*;

verus! {

/// Why a ledger operation refused to produce a new version.
#[derive(Clone, Copy, Debug, PartialEq, Eq, Structural)]
pub enum Error {
    /// `add` found the transaction identity already present.
    AlreadyExists,
    /// A removal named a transaction identity the ledger does not hold.
    TransactionNotFound,
    /// A removal named an output index the transaction does not hold.
    IndexNotFound,
}

/// Highest exclusive bound on output indices: an index is a `u8` below this.
pub const MAX_OUTPUTS: u8 = 255;

/// The mapping that a sequence of indexed outputs denotes; later pairs win,
/// though callers hand in pairwise distinct indices.
pub open spec fn output_map<Out: Replicable>(s: Seq<(u8, Out)>) -> Map<u8, Out::V>
    decreases s.len(),
{
    if s.len() == 0 {
        Map::empty()
    } else {
        output_map(s.drop_last()).insert(s.last().0, s.last().1@)
    }
}

/// Every index of the sequence is bound in the map it denotes.
pub proof fn lemma_output_map_contains<Out: Replicable>(s: Seq<(u8, Out)>, j: int)
    requires
        0 <= j < s.len(),
    ensures
        output_map(s).contains_key(s[j].0),
    decreases s.len(),
{
    if j < s.len() - 1 {
        lemma_output_map_contains(s.drop_last(), j);
    }
}

/// Only indices of the sequence are bound in the map it denotes.
pub proof fn lemma_output_map_dom<Out: Replicable>(s: Seq<(u8, Out)>, i: u8)
    requires
        output_map(s).contains_key(i),
    ensures
        exists|j: int| 0 <= j < s.len() && (#[trigger] s[j].0) == i,
    decreases s.len(),
{
    if s.len() > 0 && s.last().0 != i {
        lemma_output_map_dom(s.drop_last(), i);
        let j = choose|j: int| 0 <= j < s.drop_last().len() && (#[trigger] s.drop_last()[j].0)
            == i;
        assert(s[j].0 == i);
    }
}

/// With pairwise distinct indices, each pair's value is the bound one.
pub proof fn lemma_output_map_at<Out: Replicable>(s: Seq<(u8, Out)>, j: int)
    requires
        0 <= j < s.len(),
        forall|a: int, b: int| 0 <= a < b < s.len() ==> (#[trigger] s[a].0) != (#[trigger] s[b].0),
    ensures
        output_map(s)[s[j].0] == s[j].1@,
    decreases s.len(),
{
    if j < s.len() - 1 {
        lemma_output_map_at(s.drop_last(), j);
        assert(s.drop_last()[j] == s[j]);
    }
}

/// A concrete unspent output record: the address it is locked to and its
/// value. The ledger itself is generic; this record is the shape the
/// multiverse's snapshots use.
#[derive(Clone, Copy)]
pub struct OutputRecord {
    pub address: Digest,
    pub value: u64,
}

impl View for OutputRecord {
    type V = (Seq<u8>, u64);

    open spec fn view(&self) -> (Seq<u8>, u64) {
        (self.address@, self.value)
    }
}

impl Replicable for OutputRecord {
    fn replicate(&self) -> (r: Self)
        ensures
            r@ == self@,
    {
        *self
    }
}

/// The still-unspent outputs of one transaction, one per output index,
/// held sorted by index.
pub struct TransactionUnspents<Out: Replicable> {
    slots: Vec<(u8, Out)>,
}

impl<Out: Replicable> View for TransactionUnspents<Out> {
    type V = Map<u8, Out::V>;

    closed spec fn view(&self) -> Map<u8, Out::V> {
        output_map(self.slots@)
    }
}

impl<Out: Replicable> TransactionUnspents<Out> {
    #[verifier::type_invariant]
    spec fn wf(self) -> bool {
        &&& forall|a: int, b: int|
            0 <= a < b < self.slots@.len() ==> (#[trigger] self.slots@[a].0)
                < (#[trigger] self.slots@[b].0)
        &&& forall|a: int| 0 <= a < self.slots@.len() ==> (#[trigger] self.slots@[a].0) < MAX_OUTPUTS
    }

    /// The sorted slots characterise the denoted map position by position.
    proof fn lemma_slots(self)
        requires
            self.wf(),
        ensures
            forall|j: int|
                0 <= j < self.slots@.len() ==> self@.contains_key(#[trigger] self.slots@[j].0),
            forall|j: int|
                0 <= j < self.slots@.len() ==> self@[#[trigger] self.slots@[j].0]
                    == self.slots@[j].1@,
            forall|i: u8|
                #[trigger] self@.contains_key(i) ==> exists|j: int|
                    0 <= j < self.slots@.len() && (#[trigger] self.slots@[j].0) == i,
            forall|i: u8| #[trigger] self@.contains_key(i) ==> i < MAX_OUTPUTS,
    {
        assert forall|j: int| 0 <= j < self.slots@.len() implies self@.contains_key(
            #[trigger] self.slots@[j].0,
        ) && self@[self.slots@[j].0] == self.slots@[j].1@ by {
            lemma_output_map_contains(self.slots@, j);
            lemma_output_map_at(self.slots@, j);
        }
        assert forall|i: u8| #[trigger] self@.contains_key(i) implies (exists|j: int|
            0 <= j < self.slots@.len() && (#[trigger] self.slots@[j].0) == i) && i < MAX_OUTPUTS by {
            lemma_output_map_dom(self.slots@, i);
        }
    }

    /// The first declared output carrying the given index, if any.
    fn find_output<'a>(outs: &'a [(u8, Out)], idx: u8) -> (r: Option<&'a Out>)
        ensures
            match r {
                Option::Some(o) => exists|j: int|
                    0 <= j < outs@.len() && (#[trigger] outs@[j]).0 == idx && *o == outs@[j].1,
                Option::None => forall|j: int|
                    0 <= j < outs@.len() ==> (#[trigger] outs@[j]).0 != idx,
            },
    {
        let mut j: usize = 0;
        while j < outs.len()
            invariant
                j <= outs@.len(),
                forall|a: int| 0 <= a < j ==> (#[trigger] outs@[a]).0 != idx,
            decreases outs@.len() - j,
        {
            if outs[j].0 == idx {
                return Option::Some(&outs[j].1);
            }
            j += 1;
        }
        Option::None
    }

    /// The part of a slot mapping that sits below an index bound.
    spec fn below(m: Map<u8, Out::V>, b: int) -> Map<u8, Out::V> {
        Map::new(|i: u8| m.contains_key(i) && (i as int) < b, |i: u8| m[i])
    }

    /// Builds the slot set of a fresh transaction from its declared outputs.
    ///
    /// The declaration is a caller contract: fewer than `MAX_OUTPUTS` pairs,
    /// every index below `MAX_OUTPUTS`, and no index declared twice.
    pub fn from_outputs(outs: &[(u8, Out)]) -> (r: Self)
        requires
            outs@.len() < MAX_OUTPUTS as nat,
            forall|a: int| 0 <= a < outs@.len() ==> (#[trigger] outs@[a]).0 < MAX_OUTPUTS,
            forall|a: int, b: int|
                0 <= a < b < outs@.len() ==> (#[trigger] outs@[a]).0 != (#[trigger] outs@[b]).0,
        ensures
            r@ == output_map(outs@),
    {
        let ghost m = output_map::<Out>(outs@);
        let mut slots: Vec<(u8, Out)> = Vec::new();
        let mut idx: u8 = 0;
        while idx < MAX_OUTPUTS
            invariant
                idx <= MAX_OUTPUTS,
                outs@.len() < MAX_OUTPUTS as nat,
                m == output_map::<Out>(outs@),
                forall|a: int| 0 <= a < outs@.len() ==> (#[trigger] outs@[a]).0 < MAX_OUTPUTS,
                forall|a: int, b: int|
                    0 <= a < b < outs@.len() ==> (#[trigger] outs@[a]).0 != (
                    #[trigger] outs@[b]).0,
                forall|a: int, b: int|
                    0 <= a < b < slots@.len() ==> (#[trigger] slots@[a]).0
                        < (#[trigger] slots@[b]).0,
                forall|a: int| 0 <= a < slots@.len() ==> (#[trigger] slots@[a]).0 < idx,
                output_map(slots@) =~= Self::below(m, idx as int),
            decreases MAX_OUTPUTS - idx,
        {
            let ghost old_seq = slots@;
            let ghost old_fold = output_map::<Out>(slots@);
            match Self::find_output(outs, idx) {
                Option::Some(o) => {
                    let rep = o.replicate();
                    slots.push((idx, rep));
                    proof {
                        let j = choose|j: int|
                            0 <= j < outs@.len() && (#[trigger] outs@[j]).0 == idx && *o
                                == outs@[j].1;
                        lemma_output_map_contains(outs@, j);
                        lemma_output_map_at(outs@, j);
                        assert(slots@.drop_last() =~= old_seq);
                        assert(output_map(slots@) == old_fold.insert(idx, rep@));
                        assert(output_map(slots@) =~= Self::below(m, idx + 1));
                    }
                },
                Option::None => {
                    proof {
                        if m.contains_key(idx) {
                            lemma_output_map_dom(outs@, idx);
                        }
                        assert(output_map(slots@) =~= Self::below(m, idx + 1));
                    }
                },
            }
            idx += 1;
        }
        let r = TransactionUnspents { slots };
        proof {
            assert forall|i: u8| #[trigger] m.contains_key(i) implies i < MAX_OUTPUTS by {
                lemma_output_map_dom(outs@, i);
            }
            assert(r@ =~= m);
        }
        r
    }

    /// Whether no output slot is filled.
    pub fn is_empty(&self) -> (r: bool)
        ensures
            r <==> self@.dom() =~= Set::<u8>::empty(),
    {
        proof {
            use_type_invariant(self);
            self.lemma_slots();
            if self.slots@.len() > 0 {
                assert(self@.contains_key(self.slots@[0].0));
            } else {
                assert(self@.dom() =~= Set::<u8>::empty());
            }
        }
        self.slots.len() == 0
    }

    /// The output still unspent at the given index, if any.
    pub fn get_output(&self, index: u8) -> (r: Option<&Out>)
        ensures
            match r {
                Option::Some(o) => self@.contains_key(index) && o@ == self@[index],
                Option::None => !self@.contains_key(index),
            },
    {
        proof {
            use_type_invariant(self);
            self.lemma_slots();
        }
        let mut a: usize = 0;
        while a < self.slots.len()
            invariant
                a <= self.slots@.len(),
                forall|b: int| 0 <= b < a ==> (#[trigger] self.slots@[b]).0 != index,
                forall|j: int|
                    0 <= j < self.slots@.len() ==> self@.contains_key(
                        #[trigger] self.slots@[j].0,
                    ) && self@[self.slots@[j].0] == self.slots@[j].1@,
                forall|i: u8|
                    #[trigger] self@.contains_key(i) ==> exists|j: int|
                        0 <= j < self.slots@.len() && (#[trigger] self.slots@[j].0) == i,
            decreases self.slots@.len() - a,
        {
            if self.slots[a].0 == index {
                return Option::Some(&self.slots[a].1);
            }
            a += 1;
        }
        proof {
            if self@.contains_key(index) {
                let j = choose|j: int|
                    0 <= j < self.slots@.len() && (#[trigger] self.slots@[j].0) == index;
                assert(false);
            }
        }
        Option::None
    }

    /// Spends one output index, as a new slot set; the receiver is left as
    /// it was. Fails with `IndexNotFound` iff the index is not filled.
    pub fn remove_input(&self, index: u8) -> (r: Result<(Self, Out), Error>)
        requires
            index < MAX_OUTPUTS,
        ensures
            match r {
                Result::Ok(p) => {
                    &&& self@.contains_key(index)
                    &&& p.0@ == self@.remove(index)
                    &&& p.1@ == self@[index]
                },
                Result::Err(e) => e == Error::IndexNotFound && !self@.contains_key(index),
            },
    {
        proof {
            use_type_invariant(self);
            self.lemma_slots();
        }
        let n = self.slots.len();
        let mut removed: Option<Out> = Option::None;
        let mut slots: Vec<(u8, Out)> = Vec::new();
        let ghost mut p: int = 0;
        let mut a: usize = 0;
        while a < n
            invariant
                n == self.slots@.len(),
                a <= n,
                self.wf(),
                removed is Some ==> {
                    &&& 0 <= p < a
                    &&& (#[trigger] self.slots@[p]).0 == index
                    &&& removed->0@ == self.slots@[p].1@
                    &&& slots@.len() + 1 == a
                    &&& forall|x: int|
                        0 <= x < p ==> (#[trigger] slots@[x]).0 == self.slots@[x].0
                            && slots@[x].1@ == self.slots@[x].1@
                    &&& forall|x: int|
                        p <= x < a - 1 ==> (#[trigger] slots@[x]).0 == self.slots@[x + 1].0
                            && slots@[x].1@ == self.slots@[x + 1].1@
                },
                removed is None ==> {
                    &&& slots@.len() == a
                    &&& forall|x: int|
                        0 <= x < a ==> (#[trigger] slots@[x]).0 == self.slots@[x].0
                            && slots@[x].1@ == self.slots@[x].1@
                    &&& forall|x: int| 0 <= x < a ==> (#[trigger] self.slots@[x]).0 != index
                },
            decreases n - a,
        {
            if self.slots[a].0 == index {
                removed = Option::Some(self.slots[a].1.replicate());
                proof {
                    p = a as int;
                }
            } else {
                slots.push((self.slots[a].0, self.slots[a].1.replicate()));
            }
            a += 1;
        }
        match removed {
            Option::None => Result::Err(Error::IndexNotFound),
            Option::Some(out) => {
                proof {
                    assert forall|x: int, y: int| 0 <= x < y < slots@.len() implies (
                    #[trigger] slots@[x]).0 < (#[trigger] slots@[y]).0 by {
                        if y < p {
                        } else if x < p {
                            assert(self.slots@[x].0 < self.slots@[y + 1].0);
                        } else {
                            assert(self.slots@[x + 1].0 < self.slots@[y + 1].0);
                        }
                    }
                    assert forall|x: int| 0 <= x < slots@.len() implies (#[trigger] slots@[x]).0
                        < MAX_OUTPUTS by {
                        if x < p {
                            assert(self.slots@[x].0 < MAX_OUTPUTS);
                        } else {
                            assert(self.slots@[x + 1].0 < MAX_OUTPUTS);
                        }
                    }
                }
                let r = TransactionUnspents { slots };
                proof {
                    r.lemma_slots();
                    assert forall|i: u8| #[trigger] r@.contains_key(i) implies self@.contains_key(
                        i,
                    ) && i != index && r@[i] == self@[i] by {
                        let x = choose|x: int|
                            0 <= x < r.slots@.len() && (#[trigger] r.slots@[x]).0 == i;
                        let j: int = if x < p {
                            x
                        } else {
                            x + 1
                        };
                        assert(self.slots@[j].0 == i && self.slots@[j].1@ == r.slots@[x].1@);
                        if j < p {
                            assert(self.slots@[j].0 < self.slots@[p].0);
                        } else {
                            assert(self.slots@[p].0 < self.slots@[j].0);
                        }
                    }
                    assert forall|i: u8| self@.contains_key(i) && i != index implies
                        r@.contains_key(i) by {
                        let j = choose|j: int|
                            0 <= j < self.slots@.len() && (#[trigger] self.slots@[j].0) == i;
                        if j < p {
                            assert(r.slots@[j].0 == i);
                        } else {
                            assert(j != p);
                            assert(r.slots@[j - 1].0 == i);
                        }
                    }
                    assert(r@ =~= self@.remove(index));
                }
                Result::Ok((r, out))
            },
        }
    }

    /// The filled slots as fresh pairs, ascending by output index.
    pub fn pairs(&self) -> (r: Vec<(u8, Out)>)
        ensures
            forall|a: int|
                0 <= a < r@.len() ==> self@.contains_key((#[trigger] r@[a]).0) && r@[a].1@
                    == self@[r@[a].0],
            forall|a: int, b: int|
                0 <= a < b < r@.len() ==> (#[trigger] r@[a]).0 < (#[trigger] r@[b]).0,
            forall|i: u8|
                #[trigger] self@.contains_key(i) ==> exists|a: int|
                    0 <= a < r@.len() && (#[trigger] r@[a]).0 == i,
    {
        proof {
            use_type_invariant(self);
            self.lemma_slots();
        }
        let n = self.slots.len();
        let mut r: Vec<(u8, Out)> = Vec::new();
        let mut a: usize = 0;
        while a < n
            invariant
                n == self.slots@.len(),
                a <= n,
                self.wf(),
                r@.len() == a,
                forall|x: int|
                    0 <= x < a ==> (#[trigger] r@[x]).0 == self.slots@[x].0 && r@[x].1@
                        == self.slots@[x].1@,
            decreases n - a,
        {
            r.push((self.slots[a].0, self.slots[a].1.replicate()));
            a += 1;
        }
        proof {
            assert forall|i: u8| #[trigger] self@.contains_key(i) implies exists|x: int|
                0 <= x < r@.len() && (#[trigger] r@[x]).0 == i by {
                let j = choose|j: int|
                    0 <= j < self.slots@.len() && (#[trigger] self.slots@[j].0) == i;
                assert(r@[j].0 == i);
            }
        }
        r
    }
}

impl<Out: Replicable> Replicable for TransactionUnspents<Out> {
    fn replicate(&self) -> (r: Self)
        ensures
            r@ == self@,
    {
        proof {
            use_type_invariant(self);
        }
        let n = self.slots.len();
        let mut slots: Vec<(u8, Out)> = Vec::new();
        let mut a: usize = 0;
        while a < n
            invariant
                n == self.slots@.len(),
                a <= n,
                self.wf(),
                slots@.len() == a,
                forall|x: int|
                    0 <= x < a ==> (#[trigger] slots@[x]).0 == self.slots@[x].0 && slots@[x].1@
                        == self.slots@[x].1@,
            decreases n - a,
        {
            slots.push((self.slots[a].0, self.slots[a].1.replicate()));
            a += 1;
        }
        let r = TransactionUnspents { slots };
        proof {
            r.lemma_slots();
            self.lemma_slots();
            assert forall|i: u8| #[trigger] r@.contains_key(i) implies self@.contains_key(i)
                && r@[i] == self@[i] by {
                let x = choose|x: int|
                    0 <= x < r.slots@.len() && (#[trigger] r.slots@[x]).0 == i;
                assert(self.slots@[x].0 == i);
            }
            assert forall|i: u8| #[trigger] self@.contains_key(i) implies r@.contains_key(i) by {
                let j = choose|j: int|
                    0 <= j < self.slots@.len() && (#[trigger] self.slots@[j].0) == i;
                assert(r.slots@[j].0 == i);
            }
            assert(r@ =~= self@);
        }
        r
    }
}

/// One unspent output as handed out by `get` and `iter`: the transaction it
/// belongs to, its index there, and a fresh copy of the output itself.
pub struct Entry<Out: Replicable> {
    pub fragment_id: Digest,
    pub output_index: u8,
    pub output: Out,
}

/// Spending several indices of one transaction, one after the other, from
/// the front of the list: the remaining slot mapping and the spent outputs,
/// or nothing as soon as one index is not filled.
pub open spec fn drain<X>(inner: Map<u8, X>, indices: Seq<u8>) -> Option<(Map<u8, X>, Seq<X>)>
    decreases indices.len(),
{
    if indices.len() == 0 {
        Option::Some((inner, Seq::empty()))
    } else if !inner.contains_key(indices[0]) {
        Option::None
    } else {
        match drain(inner.remove(indices[0]), indices.skip(1)) {
            Option::None => Option::None,
            Option::Some((m, outs)) => Option::Some(
                (m, seq![inner[indices[0]]] + outs),
            ),
        }
    }
}

/// Draining a concatenation drains the first part, then the second from
/// what the first left over.
pub proof fn lemma_drain_concat<X>(inner: Map<u8, X>, a: Seq<u8>, b: Seq<u8>)
    ensures
        drain(inner, a + b) == (match drain(inner, a) {
            Option::None => Option::<(Map<u8, X>, Seq<X>)>::None,
            Option::Some((m, outs)) => (match drain(m, b) {
                Option::None => Option::None,
                Option::Some((m2, outs2)) => Option::Some((m2, outs + outs2)),
            }),
        }),
    decreases a.len(),
{
    if a.len() == 0 {
        assert(a + b =~= b);
        match drain(inner, b) {
            Option::None => {},
            Option::Some((m2, outs2)) => {
                assert(Seq::<X>::empty() + outs2 =~= outs2);
            },
        }
    } else {
        let ab = a + b;
        assert(ab[0] == a[0]);
        if inner.contains_key(a[0]) {
            lemma_drain_concat(inner.remove(a[0]), a.skip(1), b);
            assert(ab.skip(1) =~= a.skip(1) + b);
            match drain(inner.remove(a[0]), a.skip(1)) {
                Option::None => {},
                Option::Some((m, outs)) => {
                    match drain(m, b) {
                        Option::None => {},
                        Option::Some((m2, outs2)) => {
                            assert(seq![inner[a[0]]] + (outs + outs2) =~= (seq![inner[a[0]]]
                                + outs) + outs2);
                        },
                    }
                },
            }
        }
    }
}

/// Ledger of unspent outputs: a persistent map from transaction identity to
/// that transaction's filled output slots. Every mutation yields a new
/// ledger version; the receiver version never changes.
pub struct Ledger<Out: Replicable> {
    utxos: PersistentMap<TransactionUnspents<Out>>,
}

impl<Out: Replicable> View for Ledger<Out> {
    type V = Map<Seq<u8>, Map<u8, Out::V>>;

    closed spec fn view(&self) -> Map<Seq<u8>, Map<u8, Out::V>> {
        self.utxos@
    }
}

impl<Out: Replicable> Ledger<Out> {
    /// A transaction identity is tracked iff at least one of its output
    /// slots is still filled.
    #[verifier::type_invariant]
    spec fn inv(self) -> bool {
        forall|k: Seq<u8>|
            #[trigger] self.utxos@.contains_key(k) ==> exists|i: u8|
                self.utxos@[k].contains_key(i)
    }

    /// Creates an empty ledger.
    pub fn new() -> (r: Self)
        ensures
            r@ == Map::<Seq<u8>, Map<u8, Out::V>>::empty(),
    {
        Ledger { utxos: PersistentMap::new() }
    }

    /// The output of `tid` at `index`, if both are present. Absence is a
    /// normal outcome, not an error.
    pub fn get(&self, tid: &Digest, index: &u8) -> (r: Option<Entry<Out>>)
        ensures
            match r {
                Option::Some(e) => {
                    &&& self@.contains_key(tid@)
                    &&& self@[tid@].contains_key(*index)
                    &&& e.fragment_id@ == tid@
                    &&& e.output_index == *index
                    &&& e.output@ == self@[tid@][*index]
                },
                Option::None => !self@.contains_key(tid@) || !self@[tid@].contains_key(*index),
            },
    {
        match self.utxos.lookup(tid) {
            Option::None => Option::None,
            Option::Some(tu) => match tu.get_output(*index) {
                Option::None => Option::None,
                Option::Some(o) => Option::Some(
                    Entry {
                        fragment_id: *tid,
                        output_index: *index,
                        output: o.replicate(),
                    },
                ),
            },
        }
    }

    /// Declares the outputs of a fresh transaction, as a new ledger version;
    /// the receiver version is left exactly as it was. Fails with
    /// `AlreadyExists` iff the identity is already tracked.
    ///
    /// The declaration is a caller contract: at least one and fewer than
    /// `MAX_OUTPUTS` pairs, every index below `MAX_OUTPUTS`, and no index
    /// declared twice.
    pub fn add(&self, tid: &Digest, outs: &[(u8, Out)]) -> (r: Result<Self, Error>)
        requires
            0 < outs@.len() < MAX_OUTPUTS as nat,
            forall|a: int| 0 <= a < outs@.len() ==> (#[trigger] outs@[a]).0 < MAX_OUTPUTS,
            forall|a: int, b: int|
                0 <= a < b < outs@.len() ==> (#[trigger] outs@[a]).0 != (#[trigger] outs@[b]).0,
        ensures
            match r {
                Result::Ok(l2) => !self@.contains_key(tid@) && l2@ == self@.insert(
                    tid@,
                    output_map(outs@),
                ),
                Result::Err(e) => e == Error::AlreadyExists && self@.contains_key(tid@),
            },
    {
        proof {
            use_type_invariant(self);
        }
        let tu = TransactionUnspents::from_outputs(outs);
        match self.utxos.insert(tid, tu) {
            Result::Ok(m2) => {
                proof {
                    lemma_output_map_contains(outs@, 0);
                    assert forall|k: Seq<u8>| #[trigger] m2@.contains_key(k) implies exists|
                        i: u8,
                    | m2@[k].contains_key(i) by {
                        if k != tid@ {
                            assert(self.utxos@.contains_key(k));
                            let i = choose|i: u8| self.utxos@[k].contains_key(i);
                            assert(m2@[k].contains_key(i));
                        } else {
                            assert(m2@[k].contains_key(outs@[0].0));
                        }
                    }
                }
                Result::Ok(Ledger { utxos: m2 })
            },
            Result::Err(_) => Result::Err(Error::AlreadyExists),
        }
    }

    /// Spends one output, as a new ledger version handing the spent output
    /// out; the receiver version is left exactly as it was. If the spent
    /// output was the last one of its transaction, the transaction's outer
    /// entry goes away in the same logical step. Fails with
    /// `TransactionNotFound` iff the identity is not tracked, and with
    /// `IndexNotFound` iff it is but the index is not filled.
    pub fn remove(&self, tid: &Digest, index: u8) -> (r: Result<(Self, Out), Error>)
        requires
            index < MAX_OUTPUTS,
        ensures
            match r {
                Result::Ok(p) => {
                    &&& self@.contains_key(tid@)
                    &&& self@[tid@].contains_key(index)
                    &&& p.1@ == self@[tid@][index]
                    &&& p.0@ == (if self@[tid@].remove(index).dom() =~= Set::<u8>::empty() {
                        self@.remove(tid@)
                    } else {
                        self@.insert(tid@, self@[tid@].remove(index))
                    })
                },
                Result::Err(e) => {
                    &&& (e == Error::TransactionNotFound || e == Error::IndexNotFound)
                    &&& (e == Error::TransactionNotFound <==> !self@.contains_key(tid@))
                    &&& (e == Error::IndexNotFound <==> self@.contains_key(tid@)
                        && !self@[tid@].contains_key(index))
                },
            },
    {
        proof {
            use_type_invariant(self);
        }
        match self.utxos.lookup(tid) {
            Option::None => Result::Err(Error::TransactionNotFound),
            Option::Some(tu) => match tu.remove_input(index) {
                Result::Err(_) => Result::Err(Error::IndexNotFound),
                Result::Ok((tu2, out)) => {
                    if tu2.is_empty() {
                        match self.utxos.remove(tid) {
                            Result::Ok((m2, _)) => {
                                proof {
                                    assert forall|k: Seq<u8>| #[trigger]
                                        m2@.contains_key(k) implies exists|i: u8|
                                        m2@[k].contains_key(i) by {
                                        assert(self.utxos@.contains_key(k));
                                        let i = choose|i: u8|
                                            self.utxos@[k].contains_key(i);
                                        assert(m2@[k].contains_key(i));
                                    }
                                }
                                Result::Ok((Ledger { utxos: m2 }, out))
                            },
                            Result::Err(_) => vstd::pervasive::unreached(),
                        }
                    } else {
                        match self.utxos.update(tid, tu2) {
                            Result::Ok(m2) => {
                                proof {
                                    if !(exists|i: u8| tu2@.contains_key(i)) {
                                        assert(tu2@.dom() =~= Set::<u8>::empty());
                                    }
                                    assert forall|k: Seq<u8>| #[trigger]
                                        m2@.contains_key(k) implies exists|i: u8|
                                        m2@[k].contains_key(i) by {
                                        if k != tid@ {
                                            assert(self.utxos@.contains_key(k));
                                            let i = choose|i: u8|
                                                self.utxos@[k].contains_key(i);
                                            assert(m2@[k].contains_key(i));
                                        } else {
                                            let i = choose|i: u8| tu2@.contains_key(i);
                                            assert(m2@[k].contains_key(i));
                                        }
                                    }
                                }
                                Result::Ok((Ledger { utxos: m2 }, out))
                            },
                            Result::Err(_) => vstd::pervasive::unreached(),
                        }
                    }
                },
            },
        }
    }
}

impl<Out: Replicable> Ledger<Out> {
    /// Spends several outputs of one transaction as a single logical step,
    /// as a new ledger version handing the spent outputs out in call order;
    /// the receiver version is left exactly as it was. The step is
    /// all-or-nothing: if any named index is not filled at its turn, the
    /// whole call fails and no new version is produced. Fails with
    /// `TransactionNotFound` iff the identity is not tracked, and with
    /// `IndexNotFound` iff it is but draining the indices in order fails.
    pub fn remove_multiple(&self, tid: &Digest, indices: &[u8]) -> (r: Result<
        (Self, Vec<Out>),
        Error,
    >)
        requires
            forall|a: int| 0 <= a < indices@.len() ==> (#[trigger] indices@[a]) < MAX_OUTPUTS,
        ensures
            match r {
                Result::Ok(p) => {
                    &&& self@.contains_key(tid@)
                    &&& drain(self@[tid@], indices@) is Some
                    &&& ({
                        let d = drain(self@[tid@], indices@)->0;
                        &&& p.1@.len() == d.1.len()
                        &&& (forall|i: int|
                            0 <= i < p.1@.len() ==> (#[trigger] p.1@[i])@ == d.1[i])
                        &&& p.0@ == (if d.0.dom() =~= Set::<u8>::empty() {
                            self@.remove(tid@)
                        } else {
                            self@.insert(tid@, d.0)
                        })
                    })
                },
                Result::Err(e) => {
                    &&& (e == Error::TransactionNotFound || e == Error::IndexNotFound)
                    &&& (e == Error::TransactionNotFound <==> !self@.contains_key(tid@))
                    &&& (e == Error::IndexNotFound <==> self@.contains_key(tid@) && drain(
                        self@[tid@],
                        indices@,
                    ) is None)
                },
            },
    {
        proof {
            use_type_invariant(self);
        }
        let ghost inner = self@[tid@];
        match self.utxos.lookup(tid) {
            Option::None => Result::Err(Error::TransactionNotFound),
            Option::Some(tu) => {
                let n = indices.len();
                let mut cur = tu.replicate();
                let mut outs: Vec<Out> = Vec::new();
                let mut j: usize = 0;
                proof {
                    assert(indices@.take(0) =~= Seq::<u8>::empty());
                }
                while j < n
                    invariant
                        n == indices@.len(),
                        j <= n,
                        self@.contains_key(tid@),
                        inner == self@[tid@],
                        forall|a: int|
                            0 <= a < indices@.len() ==> (#[trigger] indices@[a]) < MAX_OUTPUTS,
                        drain(inner, indices@.take(j as int)) is Some,
                        ({
                            let d = drain(inner, indices@.take(j as int))->0;
                            &&& d.0 == cur@
                            &&& outs@.len() == d.1.len()
                            &&& (forall|i: int|
                                0 <= i < outs@.len() ==> (#[trigger] outs@[i])@ == d.1[i])
                        }),
                    decreases n - j,
                {
                    let ix = indices[j];
                    let ghost pre = indices@.take(j as int);
                    proof {
                        lemma_drain_concat(inner, pre, seq![ix]);
                        assert(indices@.take(j + 1) =~= pre + seq![ix]);
                        assert(seq![ix].skip(1) =~= Seq::<u8>::empty());
                    }
                    match cur.remove_input(ix) {
                        Result::Err(_) => {
                            proof {
                                assert(drain(cur@.remove(ix), Seq::<u8>::empty())
                                    == Option::Some(
                                    (cur@.remove(ix), Seq::<Out::V>::empty()),
                                ));
                                assert(drain(cur@, seq![ix]) is None);
                                assert(drain(inner, indices@.take(j + 1)) is None);
                                lemma_drain_concat(
                                    inner,
                                    indices@.take(j + 1),
                                    indices@.skip(j + 1),
                                );
                                assert(indices@ =~= indices@.take(j + 1) + indices@.skip(
                                    j + 1,
                                ));
                            }
                            return Result::Err(Error::IndexNotFound);
                        },
                        Result::Ok((next, out)) => {
                            proof {
                                assert(drain(cur@.remove(ix), Seq::<u8>::empty())
                                    == Option::Some(
                                    (cur@.remove(ix), Seq::<Out::V>::empty()),
                                ));
                                assert(drain(cur@, seq![ix]) == Option::Some(
                                    (cur@.remove(ix), seq![cur@[ix]] + Seq::<Out::V>::empty()),
                                ));
                                assert(seq![cur@[ix]] + Seq::<Out::V>::empty() =~= seq![
                                    cur@[ix]]);
                            }
                            outs.push(out);
                            cur = next;
                        },
                    }
                    j += 1;
                }
                proof {
                    assert(indices@.take(n as int) =~= indices@);
                }
                if cur.is_empty() {
                    match self.utxos.remove(tid) {
                        Result::Ok((m2, _)) => {
                            proof {
                                assert forall|k: Seq<u8>| #[trigger]
                                    m2@.contains_key(k) implies exists|i: u8|
                                    m2@[k].contains_key(i) by {
                                    assert(self.utxos@.contains_key(k));
                                    let i = choose|i: u8| self.utxos@[k].contains_key(i);
                                    assert(m2@[k].contains_key(i));
                                }
                            }
                            Result::Ok((Ledger { utxos: m2 }, outs))
                        },
                        Result::Err(_) => vstd::pervasive::unreached(),
                    }
                } else {
                    match self.utxos.update(tid, cur) {
                        Result::Ok(m2) => {
                            proof {
                                if !(exists|i: u8| cur@.contains_key(i)) {
                                    assert(cur@.dom() =~= Set::<u8>::empty());
                                }
                                assert forall|k: Seq<u8>| #[trigger]
                                    m2@.contains_key(k) implies exists|i: u8|
                                    m2@[k].contains_key(i) by {
                                    if k != tid@ {
                                        assert(self.utxos@.contains_key(k));
                                        let i = choose|i: u8| self.utxos@[k].contains_key(i);
                                        assert(m2@[k].contains_key(i));
                                    } else {
                                        let i = choose|i: u8| cur@.contains_key(i);
                                        assert(m2@[k].contains_key(i));
                                    }
                                }
                            }
                            Result::Ok((Ledger { utxos: m2 }, outs))
                        },
                        Result::Err(_) => vstd::pervasive::unreached(),
                    }
                }
            },
        }
    }
}

impl<Out: Replicable> Clone for TransactionUnspents<Out> {
    /// Hands back a slot set with the same view, made of replicated outputs.
    fn clone(&self) -> (r: Self)
        ensures
            r@ == self@,
    {
        self.replicate()
    }
}

impl<Out: Replicable> Clone for Ledger<Out> {
    /// Hands back a ledger version with the same view, sharing the whole
    /// structure with the receiver.
    fn clone(&self) -> (r: Self)
        ensures
            r@ == self@,
    {
        proof {
            use_type_invariant(self);
        }
        let utxos = self.utxos.clone();
        proof {
            assert forall|k: Seq<u8>| #[trigger] utxos@.contains_key(k) implies exists|i: u8|
                utxos@[k].contains_key(i) by {
                assert(self.utxos@.contains_key(k));
                let i = choose|i: u8| self.utxos@[k].contains_key(i);
                assert(utxos@[k].contains_key(i));
            }
        }
        Ledger { utxos }
    }
}

/// One transaction's pairs appended to an already-correct enumeration
/// prefix extend it by one transaction, keeping it sound, complete and
/// ordered.
#[verifier::rlimit(100)]
#[verifier::spinoff_prover]
proof fn lemma_iter_step<Out: Replicable>(
    view: Map<Seq<u8>, Map<u8, Out::V>>,
    groups: Seq<(Digest, TransactionUnspents<Out>)>,
    prs: Seq<(u8, Out)>,
    out0: Seq<Entry<Out>>,
    out: Seq<Entry<Out>>,
    g: int,
)
    requires
        0 <= g < groups.len(),
        forall|q: int|
            0 <= q < groups.len() ==> view.contains_key((#[trigger] groups[q]).0@) && groups[q].1@
                == view[groups[q].0@],
        forall|q: int, q2: int|
            0 <= q < q2 < groups.len() ==> lex_lt(
                (#[trigger] groups[q]).0@,
                (#[trigger] groups[q2]).0@,
            ),
        forall|a: int|
            0 <= a < prs.len() ==> groups[g].1@.contains_key((#[trigger] prs[a]).0) && prs[a].1@
                == groups[g].1@[prs[a].0],
        forall|a: int, b: int| 0 <= a < b < prs.len() ==> (#[trigger] prs[a]).0 < (
        #[trigger] prs[b]).0,
        forall|i: u8|
            #[trigger] groups[g].1@.contains_key(i) ==> exists|a: int|
                0 <= a < prs.len() && (#[trigger] prs[a]).0 == i,
        out.len() == out0.len() + prs.len(),
        forall|t: int| 0 <= t < out0.len() ==> (#[trigger] out[t]) == out0[t],
        forall|a: int|
            0 <= a < prs.len() ==> (#[trigger] out[out0.len() + a]).fragment_id@ == groups[g].0@
                && out[out0.len() + a].output_index == prs[a].0 && out[out0.len() + a].output@
                == prs[a].1@,
        forall|t: int|
            0 <= t < out0.len() ==> view.contains_key((#[trigger] out0[t]).fragment_id@) && view[
                out0[t].fragment_id@].contains_key(out0[t].output_index) && out0[t].output@
                == view[out0[t].fragment_id@][out0[t].output_index],
        forall|t: int|
            0 <= t < out0.len() ==> lex_lt((#[trigger] out0[t]).fragment_id@, groups[g].0@),
        forall|q: int, i: u8|
            0 <= q < g && (#[trigger] groups[q].1@.contains_key(i)) ==> exists|t: int|
                0 <= t < out0.len() && (#[trigger] out0[t]).fragment_id@ == groups[q].0@ && out0[
                    t].output_index == i,
        forall|t: int, u: int|
            0 <= t < u < out0.len() ==> lex_lt(
                (#[trigger] out0[t]).fragment_id@,
                (#[trigger] out0[u]).fragment_id@,
            ) || (out0[t].fragment_id@ == out0[u].fragment_id@ && out0[t].output_index < out0[
                u].output_index),
    ensures
        forall|t: int|
            0 <= t < out.len() ==> view.contains_key((#[trigger] out[t]).fragment_id@) && view[
                out[t].fragment_id@].contains_key(out[t].output_index) && out[t].output@ == view[
                out[t].fragment_id@][out[t].output_index],
        forall|t: int|
            0 <= t < out.len() && g + 1 < groups.len() ==> lex_lt(
                (#[trigger] out[t]).fragment_id@,
                groups[g + 1].0@,
            ),
        forall|q: int, i: u8|
            0 <= q < g + 1 && (#[trigger] groups[q].1@.contains_key(i)) ==> exists|t: int|
                0 <= t < out.len() && (#[trigger] out[t]).fragment_id@ == groups[q].0@ && out[
                    t].output_index == i,
        forall|t: int, u: int|
            0 <= t < u < out.len() ==> lex_lt(
                (#[trigger] out[t]).fragment_id@,
                (#[trigger] out[u]).fragment_id@,
            ) || (out[t].fragment_id@ == out[u].fragment_id@ && out[t].output_index < out[
                u].output_index),
{
    assert forall|t: int|
        0 <= t < out.len() implies view.contains_key((#[trigger] out[t]).fragment_id@) && view[
        out[t].fragment_id@].contains_key(out[t].output_index) && out[t].output@ == view[out[
        t].fragment_id@][out[t].output_index] by {
        if t >= out0.len() {
            let a = t - out0.len();
            assert(out[out0.len() + a] == out[t]);
        }
    }
    assert forall|t: int|
        0 <= t < out.len() && g + 1 < groups.len() implies lex_lt(
        (#[trigger] out[t]).fragment_id@,
        groups[g + 1].0@,
    ) by {
        if t < out0.len() {
            assert(out[t] == out0[t]);
            crate::digest::lemma_lex_lt_transitive(
                out0[t].fragment_id@,
                groups[g].0@,
                groups[g + 1].0@,
            );
        } else {
            let a = t - out0.len();
            assert(out[out0.len() + a] == out[t]);
            assert(out[t].fragment_id@ == groups[g].0@);
        }
    }
    assert forall|q: int, i: u8|
        0 <= q < g + 1 && (#[trigger] groups[q].1@.contains_key(i)) implies exists|t: int|
        0 <= t < out.len() && (#[trigger] out[t]).fragment_id@ == groups[q].0@ && out[
            t].output_index == i by {
        if q < g {
            let t = choose|t: int|
                0 <= t < out0.len() && (#[trigger] out0[t]).fragment_id@ == groups[q].0@ && out0[
                    t].output_index == i;
            assert(out[t] == out0[t]);
            assert(out[t].fragment_id@ == groups[q].0@ && out[t].output_index == i);
        } else {
            let a = choose|a: int| 0 <= a < prs.len() && (#[trigger] prs[a]).0 == i;
            assert(out[out0.len() + a].fragment_id@ == groups[q].0@ && out[out0.len()
                + a].output_index == i);
        }
    }
    assert forall|t: int, u: int| 0 <= t < u < out.len() implies lex_lt(
        (#[trigger] out[t]).fragment_id@,
        (#[trigger] out[u]).fragment_id@,
    ) || (out[t].fragment_id@ == out[u].fragment_id@ && out[t].output_index < out[
        u].output_index) by {
        if u >= out0.len() {
            assert(out[out0.len() + (u - out0.len())] == out[u]);
        }
        if t >= out0.len() {
            assert(out[out0.len() + (t - out0.len())] == out[t]);
        }
        if t < out0.len() {
            assert(out[t] == out0[t]);
        }
        if u >= out0.len() && t < out0.len() {
            assert(lex_lt(out0[t].fragment_id@, groups[g].0@));
        } else if u >= out0.len() && t >= out0.len() {
            assert(prs[t - out0.len()].0 < prs[u - out0.len()].0);
        }
    }
}

impl<Out: Replicable> Ledger<Out> {
    /// Every unspent output as a fresh triple, walked transaction by
    /// transaction in key order and, within one transaction, by ascending
    /// output index: a finite enumeration whose order depends on the
    /// ledger's content alone. Each call starts a fresh walk.
    #[verifier::rlimit(100)]
    pub fn iter(&self) -> (r: Vec<Entry<Out>>)
        ensures
            forall|t: int|
                0 <= t < r@.len() ==> self@.contains_key((#[trigger] r@[t]).fragment_id@)
                    && self@[r@[t].fragment_id@].contains_key(r@[t].output_index)
                    && r@[t].output@ == self@[r@[t].fragment_id@][r@[t].output_index],
            forall|k: Seq<u8>, i: u8|
                self@.contains_key(k) && (#[trigger] self@[k].contains_key(i))
                    && self@.contains_key(k) ==> exists|t: int|
                    0 <= t < r@.len() && (#[trigger] r@[t]).fragment_id@ == k && r@[t].output_index
                        == i,
            forall|t: int, u: int|
                0 <= t < u < r@.len() ==> lex_lt(
                    (#[trigger] r@[t]).fragment_id@,
                    (#[trigger] r@[u]).fragment_id@,
                ) || (r@[t].fragment_id@ == r@[u].fragment_id@ && r@[t].output_index
                    < r@[u].output_index),
    {
        proof {
            use_type_invariant(self);
        }
        let groups = self.utxos.entries();
        let ng = groups.len();
        let mut out: Vec<Entry<Out>> = Vec::new();
        let mut g: usize = 0;
        while g < ng
            invariant
                ng == groups@.len(),
                g <= ng,
                forall|q: int|
                    0 <= q < groups@.len() ==> self@.contains_key((#[trigger] groups@[q]).0@)
                        && groups@[q].1@ == self@[groups@[q].0@],
                forall|q: int, q2: int|
                    0 <= q < q2 < groups@.len() ==> lex_lt(
                        (#[trigger] groups@[q]).0@,
                        (#[trigger] groups@[q2]).0@,
                    ),
                forall|k: Seq<u8>|
                    #[trigger] self@.contains_key(k) ==> exists|q: int|
                        0 <= q < groups@.len() && (#[trigger] groups@[q]).0@ == k,
                forall|t: int|
                    0 <= t < out@.len() ==> self@.contains_key((#[trigger] out@[t]).fragment_id@)
                        && self@[out@[t].fragment_id@].contains_key(out@[t].output_index)
                        && out@[t].output@ == self@[out@[t].fragment_id@][out@[t].output_index],
                forall|t: int|
                    0 <= t < out@.len() && g < groups@.len() ==> lex_lt(
                        (#[trigger] out@[t]).fragment_id@,
                        groups@[g as int].0@,
                    ),
                forall|q: int, i: u8|
                    0 <= q < g && (#[trigger] groups@[q].1@.contains_key(i)) ==> exists|t: int|
                        0 <= t < out@.len() && (#[trigger] out@[t]).fragment_id@ == groups@[q].0@
                            && out@[t].output_index == i,
                forall|t: int, u: int|
                    0 <= t < u < out@.len() ==> lex_lt(
                        (#[trigger] out@[t]).fragment_id@,
                        (#[trigger] out@[u]).fragment_id@,
                    ) || (out@[t].fragment_id@ == out@[u].fragment_id@ && out@[t].output_index
                        < out@[u].output_index),
            decreases ng - g,
        {
            let tid = groups[g].0;
            let prs = groups[g].1.pairs();
            let np = prs.len();
            let ghost out0 = out@;
            proof {
                assert forall|t: int|
                    0 <= t < out0.len() implies lex_lt(
                    (#[trigger] out0[t]).fragment_id@,
                    groups@[g as int].0@,
                ) by {
                    assert(out0[t] == out@[t]);
                }
            }
            let mut x: usize = 0;
            while x < np
                invariant
                    np == prs@.len(),
                    x <= np,
                    g < ng,
                    ng == groups@.len(),
                    tid == groups@[g as int].0,
                    forall|a: int|
                        0 <= a < prs@.len() ==> groups@[g as int].1@.contains_key(
                            (#[trigger] prs@[a]).0,
                        ) && prs@[a].1@ == groups@[g as int].1@[prs@[a].0],
                    forall|a: int, b: int|
                        0 <= a < b < prs@.len() ==> (#[trigger] prs@[a]).0 < (#[trigger] prs@[b]).0,
                    forall|i: u8|
                        #[trigger] groups@[g as int].1@.contains_key(i) ==> exists|a: int|
                            0 <= a < prs@.len() && (#[trigger] prs@[a]).0 == i,
                    forall|q: int|
                        0 <= q < groups@.len() ==> self@.contains_key((#[trigger] groups@[q]).0@)
                            && groups@[q].1@ == self@[groups@[q].0@],
                    forall|q: int, q2: int|
                        0 <= q < q2 < groups@.len() ==> lex_lt(
                            (#[trigger] groups@[q]).0@,
                            (#[trigger] groups@[q2]).0@,
                        ),
                    out@.len() == out0.len() + x,
                    forall|t: int| 0 <= t < out0.len() ==> (#[trigger] out@[t]) == out0[t],
                    forall|t: int|
                        0 <= t < out0.len() ==> lex_lt(
                            (#[trigger] out0[t]).fragment_id@,
                            groups@[g as int].0@,
                        ),
                    forall|a: int|
                        0 <= a < x ==> (#[trigger] out@[out0.len() + a]).fragment_id@ == tid@
                            && out@[out0.len() + a].output_index == prs@[a].0 && out@[out0.len()
                            + a].output@ == prs@[a].1@,
                decreases np - x,
            {
                out.push(
                    Entry {
                        fragment_id: tid,
                        output_index: prs[x].0,
                        output: prs[x].1.replicate(),
                    },
                );
                x += 1;
            }
            proof {
                lemma_iter_step::<Out>(self@, groups@, prs@, out0, out@, g as int);
            }
            g += 1;
        }
        proof {
            assert forall|k: Seq<u8>, i: u8|
                self@.contains_key(k) && (#[trigger] self@[k].contains_key(i)) && self@.contains_key(
                k,
            ) implies exists|t: int|
                0 <= t < out@.len() && (#[trigger] out@[t]).fragment_id@ == k && out@[
                    t].output_index == i by {
                let q = choose|q: int|
                    0 <= q < groups@.len() && (#[trigger] groups@[q]).0@ == k;
                assert(groups@[q].1@.contains_key(i));
                let t = choose|t: int|
                    0 <= t < out@.len() && (#[trigger] out@[t]).fragment_id@ == groups@[q].0@
                        && out@[t].output_index == i;
                assert(out@[t].fragment_id@ == k && out@[t].output_index == i);
            }
        }
        out
    }

    /// Every unspent output on its own, in the same walk order as `iter`.
    /// Each call starts a fresh walk.
    pub fn values(&self) -> (r: Vec<Out>)
        ensures
            forall|k: Seq<u8>, i: u8|
                self@.contains_key(k) && (#[trigger] self@[k].contains_key(i)) ==> exists|t: int|
                    0 <= t < r@.len() && (#[trigger] r@[t])@ == self@[k][i],
    {
        let entries = self.iter();
        let n = entries.len();
        let mut r: Vec<Out> = Vec::new();
        let mut t: usize = 0;
        while t < n
            invariant
                n == entries@.len(),
                t <= n,
                r@.len() == t,
                forall|a: int| 0 <= a < t ==> (#[trigger] r@[a])@ == entries@[a].output@,
                forall|a: int|
                    0 <= a < entries@.len() ==> self@.contains_key(
                        (#[trigger] entries@[a]).fragment_id@,
                    ) && self@[entries@[a].fragment_id@].contains_key(entries@[a].output_index)
                        && entries@[a].output@ == self@[entries@[a].fragment_id@][entries@[
                        a].output_index],
                forall|k: Seq<u8>, i: u8|
                    self@.contains_key(k) && (#[trigger] self@[k].contains_key(i)) ==> exists|
                        b: int,
                    |
                        0 <= b < entries@.len() && (#[trigger] entries@[b]).fragment_id@ == k
                            && entries@[b].output_index == i,
            decreases n - t,
        {
            r.push(entries[t].output.replicate());
            t += 1;
        }
        proof {
            assert forall|k: Seq<u8>, i: u8|
                self@.contains_key(k) && (#[trigger] self@[k].contains_key(i)) implies exists|
                    t2: int,
                | 0 <= t2 < r@.len() && (#[trigger] r@[t2])@ == self@[k][i] by {
                let b = choose|b: int|
                    0 <= b < entries@.len() && (#[trigger] entries@[b]).fragment_id@ == k
                        && entries@[b].output_index == i;
                assert(r@[b]@ == self@[k][i]);
            }
        }
        r
    }
}

} // verus!
