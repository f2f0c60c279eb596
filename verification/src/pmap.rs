//! Persistent key-value structure with structural sharing.
//!
//! A `PersistentMap` is an immutable mapping from `Digest` keys to values.
//! Every operation that would change the mapping instead builds a new map
//! value: the receiver is taken by shared reference and keeps exactly the
//! content it had, while the new version shares every untouched subtree with
//! its predecessor through reference-counted links. Dropping the last version
//! that references a subtree reclaims it.
//!
//! The structure is a binary search tree over the lexicographic order of the
//! keys, so the enumeration order of `entries` is determined by content alone.

use crate::digest::Cmp;
use crate::digest::Digest;
use crate::digest::lemma_lex_lt_asymmetric;
use crate::digest::lemma_lex_lt_irreflexive;
use crate::digest::lemma_lex_lt_transitive;
use crate::digest::lex_lt;
use std::rc::Rc;
use vstd::prelude::*;

verus! {

/// A value that can be duplicated without changing what it denotes.
///
/// The persistent map stores values inside shared subtrees; handing one out
/// of a version (as `remove` does) therefore duplicates it rather than moving
/// it. `replicate` is that duplication, pinned down to preserve the view.
pub trait Replicable: View + Sized {
    /// Returns a value denoting exactly what `self` denotes.
    fn replicate(&self) -> (r: Self)
        ensures
            r@ == self@;
}

impl Replicable for u64 {
    fn replicate(&self) -> (r: Self)
        ensures
            r@ == self@,
    {
        *self
    }
}

/// Why a map operation refused to produce a new version.
#[derive(Clone, Copy, Debug, PartialEq, Eq, Structural)]
pub enum MapError {
    /// `insert` found the key already bound.
    AlreadyExists,
    /// `update` or `remove` found the key absent.
    NotFound,
}

struct Node<V: Replicable> {
    key: Digest,
    value: V,
    left: Option<Rc<Node<V>>>,
    right: Option<Rc<Node<V>>>,
}

/// An immutable map version from digests to values.
pub struct PersistentMap<V: Replicable> {
    root: Option<Rc<Node<V>>>,
}

impl<V: Replicable> Node<V> {
    spec fn opt_map(link: Option<Rc<Node<V>>>) -> Map<Seq<u8>, V::V>
        decreases link,
    {
        match link {
            Option::None => Map::empty(),
            Option::Some(n) => n.as_map(),
        }
    }

    spec fn as_map(self) -> Map<Seq<u8>, V::V>
        decreases self,
    {
        Node::<V>::opt_map(self.left).union_prefer_right(Node::<V>::opt_map(self.right)).insert(
            self.key@,
            self.value@,
        )
    }

    spec fn opt_wf(link: Option<Rc<Node<V>>>) -> bool
        decreases link,
    {
        match link {
            Option::None => true,
            Option::Some(n) => n.wf(),
        }
    }

    spec fn wf(self) -> bool
        decreases self,
    {
        &&& (forall|k: Seq<u8>|
            #[trigger] Node::<V>::opt_map(self.left).dom().contains(k) ==> lex_lt(k, self.key@))
        &&& (forall|k: Seq<u8>|
            #[trigger] Node::<V>::opt_map(self.right).dom().contains(k) ==> lex_lt(self.key@, k))
        &&& Node::<V>::opt_wf(self.left)
        &&& Node::<V>::opt_wf(self.right)
    }
}

/// At a well-formed node the key is in neither subtree and the subtrees are
/// disjoint, so the node's map decomposes without overlap.
proof fn lemma_node_separation<V: Replicable>(n: Node<V>)
    requires
        n.wf(),
    ensures
        !Node::<V>::opt_map(n.left).dom().contains(n.key@),
        !Node::<V>::opt_map(n.right).dom().contains(n.key@),
        forall|k: Seq<u8>|
            #[trigger] Node::<V>::opt_map(n.left).dom().contains(k) ==> !Node::<V>::opt_map(
                n.right,
            ).dom().contains(k),
{
    if Node::<V>::opt_map(n.left).dom().contains(n.key@) {
        lemma_lex_lt_irreflexive(n.key@);
    }
    if Node::<V>::opt_map(n.right).dom().contains(n.key@) {
        lemma_lex_lt_irreflexive(n.key@);
    }
    assert forall|k: Seq<u8>|
        #[trigger] Node::<V>::opt_map(n.left).dom().contains(k) implies !Node::<V>::opt_map(
        n.right,
    ).dom().contains(k) by {
        if Node::<V>::opt_map(n.right).dom().contains(k) {
            lemma_lex_lt_asymmetric(k, n.key@);
        }
    }
}

impl<V: Replicable> Node<V> {
    /// Hands back a link to the very same subtree, shared, not copied.
    fn share(link: &Option<Rc<Node<V>>>) -> (r: Option<Rc<Node<V>>>)
        ensures
            r == *link,
    {
        match link {
            Option::None => Option::None,
            Option::Some(rc) => Option::Some(rc.clone()),
        }
    }

    fn opt_lookup<'a>(link: &'a Option<Rc<Node<V>>>, key: &Digest) -> (r: Option<&'a V>)
        requires
            Node::<V>::opt_wf(*link),
        ensures
            match r {
                Option::Some(v) => Node::<V>::opt_map(*link).contains_key(key@) && v@
                    == Node::<V>::opt_map(*link)[key@],
                Option::None => !Node::<V>::opt_map(*link).contains_key(key@),
            },
        decreases *link,
    {
        match link {
            Option::None => Option::None,
            Option::Some(rc) => {
                let node: &Node<V> = &**rc;
                proof {
                    lemma_node_separation(*node);
                }
                match key.compare(&node.key) {
                    Cmp::Equal => Option::Some(&node.value),
                    Cmp::Less => {
                        proof {
                            lemma_lex_lt_asymmetric(key@, node.key@);
                        }
                        Self::opt_lookup(&node.left, key)
                    },
                    Cmp::Greater => {
                        proof {
                            lemma_lex_lt_asymmetric(node.key@, key@);
                        }
                        Self::opt_lookup(&node.right, key)
                    },
                }
            },
        }
    }

    fn opt_insert(link: &Option<Rc<Node<V>>>, key: &Digest, value: V) -> (r: Result<
        Option<Rc<Node<V>>>,
        MapError,
    >)
        requires
            Node::<V>::opt_wf(*link),
        ensures
            match r {
                Result::Ok(l2) => {
                    &&& !Node::<V>::opt_map(*link).contains_key(key@)
                    &&& Node::<V>::opt_wf(l2)
                    &&& Node::<V>::opt_map(l2) =~= Node::<V>::opt_map(*link).insert(key@, value@)
                },
                Result::Err(e) => e == MapError::AlreadyExists && Node::<V>::opt_map(
                    *link,
                ).contains_key(key@),
            },
        decreases *link,
    {
        match link {
            Option::None => {
                let n = Node {
                    key: *key,
                    value,
                    left: Option::None,
                    right: Option::None,
                };
                Result::Ok(Option::Some(Rc::new(n)))
            },
            Option::Some(rc) => {
                let node: &Node<V> = &**rc;
                proof {
                    lemma_node_separation(*node);
                }
                match key.compare(&node.key) {
                    Cmp::Equal => Result::Err(MapError::AlreadyExists),
                    Cmp::Less => {
                        proof {
                            lemma_lex_lt_asymmetric(key@, node.key@);
                        }
                        match Self::opt_insert(&node.left, key, value) {
                            Result::Ok(new_left) => {
                                let n = Node {
                                    key: node.key,
                                    value: node.value.replicate(),
                                    left: new_left,
                                    right: Self::share(&node.right),
                                };
                                Result::Ok(Option::Some(Rc::new(n)))
                            },
                            Result::Err(e) => Result::Err(e),
                        }
                    },
                    Cmp::Greater => {
                        proof {
                            lemma_lex_lt_asymmetric(node.key@, key@);
                        }
                        match Self::opt_insert(&node.right, key, value) {
                            Result::Ok(new_right) => {
                                let n = Node {
                                    key: node.key,
                                    value: node.value.replicate(),
                                    left: Self::share(&node.left),
                                    right: new_right,
                                };
                                Result::Ok(Option::Some(Rc::new(n)))
                            },
                            Result::Err(e) => Result::Err(e),
                        }
                    },
                }
            },
        }
    }
    fn opt_update(link: &Option<Rc<Node<V>>>, key: &Digest, value: V) -> (r: Result<
        Option<Rc<Node<V>>>,
        MapError,
    >)
        requires
            Node::<V>::opt_wf(*link),
        ensures
            match r {
                Result::Ok(l2) => {
                    &&& Node::<V>::opt_map(*link).contains_key(key@)
                    &&& Node::<V>::opt_wf(l2)
                    &&& Node::<V>::opt_map(l2) =~= Node::<V>::opt_map(*link).insert(key@, value@)
                },
                Result::Err(e) => e == MapError::NotFound && !Node::<V>::opt_map(
                    *link,
                ).contains_key(key@),
            },
        decreases *link,
    {
        match link {
            Option::None => Result::Err(MapError::NotFound),
            Option::Some(rc) => {
                let node: &Node<V> = &**rc;
                proof {
                    lemma_node_separation(*node);
                }
                match key.compare(&node.key) {
                    Cmp::Equal => {
                        let n = Node {
                            key: node.key,
                            value,
                            left: Self::share(&node.left),
                            right: Self::share(&node.right),
                        };
                        Result::Ok(Option::Some(Rc::new(n)))
                    },
                    Cmp::Less => {
                        proof {
                            lemma_lex_lt_asymmetric(key@, node.key@);
                        }
                        match Self::opt_update(&node.left, key, value) {
                            Result::Ok(new_left) => {
                                let n = Node {
                                    key: node.key,
                                    value: node.value.replicate(),
                                    left: new_left,
                                    right: Self::share(&node.right),
                                };
                                Result::Ok(Option::Some(Rc::new(n)))
                            },
                            Result::Err(e) => Result::Err(e),
                        }
                    },
                    Cmp::Greater => {
                        proof {
                            lemma_lex_lt_asymmetric(node.key@, key@);
                        }
                        match Self::opt_update(&node.right, key, value) {
                            Result::Ok(new_right) => {
                                let n = Node {
                                    key: node.key,
                                    value: node.value.replicate(),
                                    left: Self::share(&node.left),
                                    right: new_right,
                                };
                                Result::Ok(Option::Some(Rc::new(n)))
                            },
                            Result::Err(e) => Result::Err(e),
                        }
                    },
                }
            },
        }
    }

    /// Detaches the greatest key of a non-empty subtree, handing back the
    /// remaining subtree together with that key and (a replica of) its value.
    fn opt_remove_max(link: &Option<Rc<Node<V>>>) -> (r: (Option<Rc<Node<V>>>, Digest, V))
        requires
            link.is_some(),
            Node::<V>::opt_wf(*link),
        ensures
            Node::<V>::opt_wf(r.0),
            Node::<V>::opt_map(*link).contains_key(r.1@),
            r.2@ == Node::<V>::opt_map(*link)[r.1@],
            Node::<V>::opt_map(r.0) =~= Node::<V>::opt_map(*link).remove(r.1@),
            forall|k: Seq<u8>|
                #[trigger] Node::<V>::opt_map(*link).dom().contains(k) ==> k == r.1@ || lex_lt(
                    k,
                    r.1@,
                ),
        decreases *link,
    {
        let rc = link.as_ref().unwrap();
        let node: &Node<V> = &**rc;
        proof {
            lemma_node_separation(*node);
        }
        match &node.right {
            Option::None => {
                let rest = Self::share(&node.left);
                (rest, node.key, node.value.replicate())
            },
            Option::Some(_) => {
                let (new_right, max_key, max_value) = Self::opt_remove_max(&node.right);
                proof {
                    lemma_lex_lt_asymmetric(node.key@, max_key@);
                    assert forall|k: Seq<u8>|
                        #[trigger] Node::<V>::opt_map(node.left).dom().contains(k) implies lex_lt(
                        k,
                        max_key@,
                    ) by {
                        lemma_lex_lt_transitive(k, node.key@, max_key@);
                    }
                }
                let n = Node {
                    key: node.key,
                    value: node.value.replicate(),
                    left: Self::share(&node.left),
                    right: new_right,
                };
                (Option::Some(Rc::new(n)), max_key, max_value)
            },
        }
    }

    fn opt_remove(link: &Option<Rc<Node<V>>>, key: &Digest) -> (r: Result<
        (Option<Rc<Node<V>>>, V),
        MapError,
    >)
        requires
            Node::<V>::opt_wf(*link),
        ensures
            match r {
                Result::Ok(p) => {
                    &&& Node::<V>::opt_map(*link).contains_key(key@)
                    &&& Node::<V>::opt_wf(p.0)
                    &&& Node::<V>::opt_map(p.0) =~= Node::<V>::opt_map(*link).remove(key@)
                    &&& p.1@ == Node::<V>::opt_map(*link)[key@]
                },
                Result::Err(e) => e == MapError::NotFound && !Node::<V>::opt_map(
                    *link,
                ).contains_key(key@),
            },
        decreases *link,
    {
        match link {
            Option::None => Result::Err(MapError::NotFound),
            Option::Some(rc) => {
                let node: &Node<V> = &**rc;
                proof {
                    lemma_node_separation(*node);
                }
                match key.compare(&node.key) {
                    Cmp::Equal => {
                        let out = node.value.replicate();
                        match &node.left {
                            Option::None => {
                                let rest = Self::share(&node.right);
                                Result::Ok((rest, out))
                            },
                            Option::Some(_) => {
                                match &node.right {
                                    Option::None => {
                                        let rest = Self::share(&node.left);
                                        Result::Ok((rest, out))
                                    },
                                    Option::Some(_) => {
                                        let (new_left, max_key, max_value) = Self::opt_remove_max(
                                            &node.left,
                                        );
                                        proof {
                                            lemma_lex_lt_asymmetric(max_key@, node.key@);
                                            assert forall|k: Seq<u8>|
                                                #[trigger] Node::<V>::opt_map(
                                                    node.right,
                                                ).dom().contains(k) implies lex_lt(
                                                max_key@,
                                                k,
                                            ) by {
                                                lemma_lex_lt_transitive(max_key@, node.key@, k);
                                            }
                                        }
                                        let n = Node {
                                            key: max_key,
                                            value: max_value,
                                            left: new_left,
                                            right: Self::share(&node.right),
                                        };
                                        Result::Ok((Option::Some(Rc::new(n)), out))
                                    },
                                }
                            },
                        }
                    },
                    Cmp::Less => {
                        proof {
                            lemma_lex_lt_asymmetric(key@, node.key@);
                        }
                        match Self::opt_remove(&node.left, key) {
                            Result::Ok((new_left, out)) => {
                                let n = Node {
                                    key: node.key,
                                    value: node.value.replicate(),
                                    left: new_left,
                                    right: Self::share(&node.right),
                                };
                                Result::Ok((Option::Some(Rc::new(n)), out))
                            },
                            Result::Err(e) => Result::Err(e),
                        }
                    },
                    Cmp::Greater => {
                        proof {
                            lemma_lex_lt_asymmetric(node.key@, key@);
                        }
                        match Self::opt_remove(&node.right, key) {
                            Result::Ok((new_right, out)) => {
                                let n = Node {
                                    key: node.key,
                                    value: node.value.replicate(),
                                    left: Self::share(&node.left),
                                    right: new_right,
                                };
                                Result::Ok((Option::Some(Rc::new(n)), out))
                            },
                            Result::Err(e) => Result::Err(e),
                        }
                    },
                }
            },
        }
    }
}

impl<V: Replicable> Node<V> {
    /// In-order enumeration of a subtree: replicas of its pairs, sorted
    /// strictly by key.
    fn opt_entries(link: &Option<Rc<Node<V>>>) -> (r: Vec<(Digest, V)>)
        requires
            Node::<V>::opt_wf(*link),
        ensures
            forall|i: int|
                0 <= i < r@.len() ==> Node::<V>::opt_map(*link).contains_key(#[trigger] r@[i].0@),
            forall|i: int|
                0 <= i < r@.len() ==> (#[trigger] r@[i].1@) == Node::<V>::opt_map(*link)[r@[i].0@],
            forall|i: int, j: int|
                0 <= i < j < r@.len() ==> lex_lt(#[trigger] r@[i].0@, #[trigger] r@[j].0@),
            forall|k: Seq<u8>|
                #[trigger] Node::<V>::opt_map(*link).contains_key(k) ==> exists|i: int|
                    0 <= i < r@.len() && (#[trigger] r@[i].0@) == k,
        decreases *link,
    {
        match link {
            Option::None => Vec::new(),
            Option::Some(rc) => {
                let node: &Node<V> = &**rc;
                proof {
                    lemma_node_separation(*node);
                }
                let mut out = Self::opt_entries(&node.left);
                let ghost left_part = out@;
                let ghost left_len = out@.len();
                out.push((node.key, node.value.replicate()));
                let mut rest = Self::opt_entries(&node.right);
                let ghost right_part = rest@;
                out.append(&mut rest);
                proof {
                    let m = Node::<V>::opt_map(*link);
                    let lm = Node::<V>::opt_map(node.left);
                    let rm = Node::<V>::opt_map(node.right);
                    assert forall|i: int| 0 <= i < out@.len() implies m.contains_key(
                        #[trigger] out@[i].0@,
                    ) && out@[i].1@ == m[out@[i].0@] by {
                        if i < left_len {
                            assert(lm.contains_key(out@[i].0@));
                            lemma_lex_lt_asymmetric(out@[i].0@, node.key@);
                        } else if i > left_len {
                            assert(out@[i] == right_part[i - left_len - 1]);
                            assert(rm.contains_key(out@[i].0@));
                            lemma_lex_lt_asymmetric(node.key@, out@[i].0@);
                        }
                    }
                    assert forall|i: int, j: int| 0 <= i < j < out@.len() implies lex_lt(
                        #[trigger] out@[i].0@,
                        #[trigger] out@[j].0@,
                    ) by {
                        if j > left_len {
                            assert(out@[j] == right_part[j - left_len - 1]);
                        }
                        if i > left_len {
                            assert(out@[i] == right_part[i - left_len - 1]);
                        }
                        if i < left_len {
                            assert(lm.contains_key(out@[i].0@));
                        }
                        if j < left_len {
                            assert(lm.contains_key(out@[j].0@));
                        }
                        if left_len < i {
                            assert(rm.contains_key(out@[i].0@));
                        }
                        if left_len < j {
                            assert(rm.contains_key(out@[j].0@));
                        }
                        if i < left_len && j < left_len {
                            // both inside the left part, sorted by recursion
                        } else if i == left_len || j == left_len {
                            // one of them is the node's own pair
                        } else if i < left_len && j > left_len {
                            lemma_lex_lt_transitive(out@[i].0@, node.key@, out@[j].0@);
                        }
                    }
                    assert forall|k: Seq<u8>| #[trigger] m.contains_key(k) implies exists|i: int|
                        0 <= i < out@.len() && (#[trigger] out@[i].0@) == k by {
                        if k == node.key@ {
                            assert(out@[left_len as int].0@ == k);
                        } else if lm.contains_key(k) {
                            let i = choose|i: int|
                                0 <= i < left_part.len() && (#[trigger] left_part[i].0@) == k;
                            assert(out@[i].0@ == k);
                        } else {
                            assert(rm.contains_key(k));
                            let i = choose|i: int|
                                0 <= i < right_part.len() && (#[trigger] right_part[i].0@) == k;
                            assert(out@[i + left_len + 1].0@ == k);
                        }
                    }
                }
                out
            },
        }
    }
}

impl<V: Replicable> View for PersistentMap<V> {
    type V = Map<Seq<u8>, V::V>;

    closed spec fn view(&self) -> Map<Seq<u8>, V::V> {
        Node::<V>::opt_map(self.root)
    }
}

impl<V: Replicable> PersistentMap<V> {
    #[verifier::type_invariant]
    spec fn wf(self) -> bool {
        Node::<V>::opt_wf(self.root)
    }

    /// Creates the empty map.
    pub fn new() -> (r: Self)
        ensures
            r@ == Map::<Seq<u8>, V::V>::empty(),
    {
        PersistentMap { root: Option::None }
    }

    /// Looks a key up. Absence is a normal outcome, not an error.
    pub fn lookup(&self, key: &Digest) -> (r: Option<&V>)
        ensures
            match r {
                Option::Some(v) => self@.contains_key(key@) && v@ == self@[key@],
                Option::None => !self@.contains_key(key@),
            },
    {
        proof {
            use_type_invariant(self);
        }
        Node::<V>::opt_lookup(&self.root, key)
    }

    /// Binds an absent key, as a new version; the receiver version is left
    /// exactly as it was. Fails with `AlreadyExists` iff the key is bound.
    pub fn insert(&self, key: &Digest, value: V) -> (r: Result<Self, MapError>)
        ensures
            match r {
                Result::Ok(m2) => !self@.contains_key(key@) && m2@ == self@.insert(key@, value@),
                Result::Err(e) => e == MapError::AlreadyExists && self@.contains_key(key@),
            },
    {
        proof {
            use_type_invariant(self);
        }
        match Node::<V>::opt_insert(&self.root, key, value) {
            Result::Ok(root) => Result::Ok(PersistentMap { root }),
            Result::Err(e) => Result::Err(e),
        }
    }

    /// Rebinds a present key, as a new version; the receiver version is left
    /// exactly as it was. Fails with `NotFound` iff the key is absent.
    pub fn update(&self, key: &Digest, value: V) -> (r: Result<Self, MapError>)
        ensures
            match r {
                Result::Ok(m2) => self@.contains_key(key@) && m2@ == self@.insert(key@, value@),
                Result::Err(e) => e == MapError::NotFound && !self@.contains_key(key@),
            },
    {
        proof {
            use_type_invariant(self);
        }
        match Node::<V>::opt_update(&self.root, key, value) {
            Result::Ok(root) => Result::Ok(PersistentMap { root }),
            Result::Err(e) => Result::Err(e),
        }
    }

    /// Unbinds a present key, as a new version, handing the detached value
    /// out; the receiver version is left exactly as it was. Fails with
    /// `NotFound` iff the key is absent.
    pub fn remove(&self, key: &Digest) -> (r: Result<(Self, V), MapError>)
        ensures
            match r {
                Result::Ok(p) => {
                    &&& self@.contains_key(key@)
                    &&& p.0@ == self@.remove(key@)
                    &&& p.1@ == self@[key@]
                },
                Result::Err(e) => e == MapError::NotFound && !self@.contains_key(key@),
            },
    {
        proof {
            use_type_invariant(self);
        }
        match Node::<V>::opt_remove(&self.root, key) {
            Result::Ok((root, out)) => Result::Ok((PersistentMap { root }, out)),
            Result::Err(e) => Result::Err(e),
        }
    }

    /// Enumerates this version as a fresh, finite sequence of replicated
    /// pairs, sorted strictly by key: every pair of the version appears
    /// exactly once, and the order depends on the content alone.
    pub fn entries(&self) -> (r: Vec<(Digest, V)>)
        ensures
            forall|i: int| 0 <= i < r@.len() ==> self@.contains_key(#[trigger] r@[i].0@),
            forall|i: int| 0 <= i < r@.len() ==> (#[trigger] r@[i].1@) == self@[r@[i].0@],
            forall|i: int, j: int|
                0 <= i < j < r@.len() ==> lex_lt(#[trigger] r@[i].0@, #[trigger] r@[j].0@),
            forall|k: Seq<u8>|
                #[trigger] self@.contains_key(k) ==> exists|i: int|
                    0 <= i < r@.len() && (#[trigger] r@[i].0@) == k,
    {
        proof {
            use_type_invariant(self);
        }
        Node::<V>::opt_entries(&self.root)
    }
}

impl<V: Replicable> Clone for PersistentMap<V> {
    /// Hands back a map version with the same view, sharing the whole
    /// structure with the receiver.
    fn clone(&self) -> (r: Self)
        ensures
            r@ == self@,
    {
        proof {
            use_type_invariant(self);
        }
        PersistentMap { root: Node::<V>::share(&self.root) }
    }
}

/// Law of persistence: binding a key that a version lacks yields a version
/// that holds it, while the source version still lacks it afterwards.
pub proof fn lemma_insert_persistence<X>(m: Map<Seq<u8>, X>, k: Seq<u8>, v: X)
    requires
        !m.contains_key(k),
    ensures
        m.insert(k, v).contains_key(k),
        m.insert(k, v)[k] == v,
        !m.contains_key(k),
{
}

/// Law of sharing without interference: a version derived by binding or
/// unbinding `k` agrees with its source at every other key, so no step taken
/// on a derived version is observable through the source.
pub proof fn lemma_derived_version_isolation<X>(m: Map<Seq<u8>, X>, k: Seq<u8>, v: X, q: Seq<u8>)
    requires
        q != k,
    ensures
        m.insert(k, v).contains_key(q) == m.contains_key(q),
        m.contains_key(q) ==> m.insert(k, v)[q] == m[q],
        m.insert(k, v).remove(k).contains_key(q) == m.contains_key(q),
        m.remove(k).contains_key(q) == m.contains_key(q),
        m.contains_key(q) ==> m.remove(k)[q] == m[q],
{
}

} // verus!
