//! A treap: a binary search tree ordered by key, heap-ordered by an
//! attached priority. Splitting and merging are the primitive
//! operations; insertion and removal are built from them.
//!
//! The mathematical model of a treap is the map from keys to
//! (priority, value) pairs; every operation states exactly how it
//! changes that map, and the root always carries the greatest priority.

use vstd::prelude::*;

verus! {

/// One node: a key, its priority, the stored value, and two subtrees.
pub struct TreapNode<V> {
    key: u64,
    priority: u64,
    value: V,
    left: TreapNodePtr<V>,
    right: TreapNodePtr<V>,
}

/// An owning, possibly empty treap.
pub struct TreapNodePtr<V> {
    root: Option<Box<TreapNode<V>>>,
}

/// A treap used as a map from keys to prioritised values.
pub type Treap<V> = TreapNodePtr<V>;

impl<V> TreapNode<V> {
    /// The map of the subtree rooted here.
    pub closed spec fn as_map(self) -> Map<u64, (u64, V)>
        decreases self,
    {
        self.left.as_map().union_prefer_right(self.right.as_map()).insert(
            self.key,
            (self.priority, self.value),
        )
    }

    /// The invariants of the subtree rooted here.
    pub closed spec fn wf(self) -> bool
        decreases self,
    {
        &&& self.left.wf()
        &&& self.right.wf()
        &&& forall|k: u64|
            #[trigger] self.left.as_map().dom().contains(k) ==> k < self.key
                && self.left.as_map()[k].0 <= self.priority
        &&& forall|k: u64|
            #[trigger] self.right.as_map().dom().contains(k) ==> k > self.key
                && self.right.as_map()[k].0 <= self.priority
    }

    /// This node's key.
    pub closed spec fn key_spec(self) -> u64 {
        self.key
    }

    /// This node's priority.
    pub closed spec fn priority_spec(self) -> u64 {
        self.priority
    }

    /// This node's value.
    pub closed spec fn value_spec(self) -> V {
        self.value
    }

    /// The left subtree.
    pub closed spec fn left_spec(self) -> TreapNodePtr<V> {
        self.left
    }

    /// The right subtree.
    pub closed spec fn right_spec(self) -> TreapNodePtr<V> {
        self.right
    }

    /// The in-order sequence of the subtree rooted here.
    pub closed spec fn to_seq(self) -> Seq<(u64, V)>
        decreases self,
    {
        self.left.to_seq() + seq![(self.key, self.value)] + self.right.to_seq()
    }
}

impl<V> TreapNodePtr<V> {
    /// Whether the treap has a root node at all.
    pub closed spec fn is_node(self) -> bool {
        self.root is Some
    }

    /// The map this treap represents: each key to its (priority, value).
    pub closed spec fn as_map(self) -> Map<u64, (u64, V)>
        decreases self,
    {
        match self.root {
            None => Map::empty(),
            Some(node) => node.as_map(),
        }
    }

    /// The search-tree and heap invariants: left keys are smaller and
    /// right keys greater than the root's, and no priority exceeds the
    /// root's.
    pub closed spec fn wf(self) -> bool
        decreases self,
    {
        match self.root {
            None => true,
            Some(node) => node.wf(),
        }
    }

    /// The root's key.
    pub closed spec fn root_key(self) -> u64
        recommends
            self.is_node(),
    {
        match self.root {
            None => vstd::pervasive::arbitrary(),
            Some(node) => node.key_spec(),
        }
    }

    /// The root's priority.
    pub closed spec fn root_priority(self) -> u64
        recommends
            self.is_node(),
    {
        match self.root {
            None => vstd::pervasive::arbitrary(),
            Some(node) => node.priority_spec(),
        }
    }

    /// One unfolding of `as_map` at a non-empty root.
    proof fn lemma_as_map_unfold(self)
        requires
            self.root is Some,
        ensures
            ({
                let node = self.root.unwrap();
                self.as_map() == node.left_spec().as_map().union_prefer_right(
                    node.right_spec().as_map(),
                ).insert(node.key_spec(), (node.priority_spec(), node.value_spec()))
            }),
    {
        reveal_with_fuel(TreapNodePtr::as_map, 2);
    }

    /// One unfolding of `wf` at a non-empty root.
    proof fn lemma_wf_unfold(self)
        requires
            self.root is Some,
            self.wf(),
        ensures
            ({
                let node = self.root.unwrap();
                &&& node.left_spec().wf()
                &&& node.right_spec().wf()
                &&& forall|k: u64|
                    #[trigger] node.left_spec().as_map().dom().contains(k) ==> k < node.key_spec()
                        && node.left_spec().as_map()[k].0 <= node.priority_spec()
                &&& forall|k: u64|
                    #[trigger] node.right_spec().as_map().dom().contains(k) ==> k > node.key_spec()
                        && node.right_spec().as_map()[k].0 <= node.priority_spec()
            }),
    {
        reveal_with_fuel(TreapNodePtr::wf, 2);
    }

    /// `wf` at a non-empty root, from its parts.
    proof fn lemma_wf_fold(self)
        requires
            self.root is Some,
            ({
                let node = self.root.unwrap();
                &&& node.left_spec().wf()
                &&& node.right_spec().wf()
                &&& forall|k: u64|
                    #[trigger] node.left_spec().as_map().dom().contains(k) ==> k < node.key_spec()
                        && node.left_spec().as_map()[k].0 <= node.priority_spec()
                &&& forall|k: u64|
                    #[trigger] node.right_spec().as_map().dom().contains(k) ==> k > node.key_spec()
                        && node.right_spec().as_map()[k].0 <= node.priority_spec()
            }),
        ensures
            self.wf(),
    {
        reveal_with_fuel(TreapNodePtr::wf, 2);
    }

    /// One unfolding of `to_seq` at a non-empty root.
    proof fn lemma_to_seq_unfold(self)
        requires
            self.root is Some,
        ensures
            ({
                let node = self.root.unwrap();
                self.to_seq() == node.left_spec().to_seq() + seq![
                    (node.key_spec(), node.value_spec()),
                ] + node.right_spec().to_seq()
            }),
    {
        reveal_with_fuel(TreapNodePtr::to_seq, 2);
    }

    /// The root's entry is in the map, and its priority dominates every
    /// stored priority.
    proof fn lemma_root_bound(self)
        requires
            self.wf(),
            self.root is Some,
        ensures
            self.as_map().dom().contains(self.root_key()),
            self.as_map()[self.root_key()].0 == self.root_priority(),
            forall|k: u64|
                #[trigger] self.as_map().dom().contains(k) ==> self.as_map()[k].0
                    <= self.root_priority(),
    {
        match self.root {
            None => {},
            Some(node) => {
                let lt = node.left_spec();
                let rt = node.right_spec();
                assert forall|k: u64|
                    #[trigger] self.as_map().dom().contains(k) implies self.as_map()[k].0
                    <= self.root_priority() by {
                    if k == node.key_spec() {
                    } else if rt.as_map().dom().contains(k) {
                        assert(self.as_map()[k] == rt.as_map()[k]);
                    } else {
                        assert(lt.as_map().dom().contains(k));
                        assert(self.as_map()[k] == lt.as_map()[k]);
                    }
                }
            },
        }
    }

    /// The empty treap.
    pub fn default() -> (t: Self)
        ensures
            t.wf(),
            t.as_map() == Map::<u64, (u64, V)>::empty(),
    {
        TreapNodePtr { root: None }
    }

    /// A singleton treap.
    fn new(key: u64, priority: u64, value: V) -> (t: Self)
        ensures
            t.wf(),
            t.as_map() == Map::<u64, (u64, V)>::empty().insert(key, (priority, value)),
    {
        let t = TreapNodePtr {
            root: Some(
                Box::new(
                    TreapNode {
                        key,
                        priority,
                        value,
                        left: TreapNodePtr { root: None },
                        right: TreapNodePtr { root: None },
                    },
                ),
            ),
        };
        proof {
            let e = Map::<u64, (u64, V)>::empty();
            t.lemma_as_map_unfold();
            assert((TreapNodePtr::<V> { root: None }).as_map() == e);
            assert(e.union_prefer_right(e) =~= e);
            assert(t.as_map() =~= e.insert(key, (priority, value)));
            t.lemma_wf_fold();
        }
        t
    }

    /// Empties this treap, yielding its previous contents.
    fn take(&mut self) -> (t: Self)
        ensures
            t == *old(self),
            final(self).wf(),
            final(self).as_map() == Map::<u64, (u64, V)>::empty(),
    {
        TreapNodePtr { root: self.root.take() }
    }

    /// Splits into the part with keys below `key`, the entry at `key`
    /// if present, and the part with keys above `key`.
    fn split_by_key(self, key: &u64) -> (r: (Self, Option<(u64, V)>, Self))
        requires
            self.wf(),
        ensures
            ({
                let (l, e, rr) = r;
                &&& l.wf() && rr.wf()
                &&& forall|k: u64| #[trigger] l.as_map().dom().contains(k) ==> k < *key
                &&& forall|k: u64| #[trigger] rr.as_map().dom().contains(k) ==> k > *key
                &&& forall|k: u64|
                    #[trigger] l.as_map().dom().contains(k) ==> self.as_map().dom().contains(k)
                        && l.as_map()[k] == self.as_map()[k]
                &&& forall|k: u64|
                    #[trigger] rr.as_map().dom().contains(k) ==> self.as_map().dom().contains(k)
                        && rr.as_map()[k] == self.as_map()[k]
                &&& l.as_map().union_prefer_right(rr.as_map()) == self.as_map().remove(*key)
                &&& (e is Some <==> self.as_map().dom().contains(*key))
                &&& (e matches Some(p) ==> p.0 == *key && self.as_map().dom().contains(*key)
                    && p.1 == self.as_map()[*key].1)
            }),
        decreases self,
    {
        match self.root {
            None => {
                proof {
                    assert((TreapNodePtr::<V> { root: None }).as_map().union_prefer_right(
                        (TreapNodePtr::<V> { root: None }).as_map(),
                    ) =~= self.as_map().remove(*key));
                }
                (TreapNodePtr { root: None }, None, TreapNodePtr { root: None })
            },
            Some(boxed) => {
                proof {
                    self.lemma_as_map_unfold();
                    self.lemma_wf_unfold();
                }
                let TreapNode { key: nk, priority: np, value: nv, left: nl, right: nr } = *boxed;
                if nk == *key {
                    proof {
                        assert(nl.as_map().union_prefer_right(nr.as_map()) =~= self.as_map().remove(
                            *key,
                        ));
                        assert(self.as_map()[nk] == (np, nv));
                    }
                    (nl, Some((nk, nv)), nr)
                } else if nk < *key {
                    let (rl, e, rr2) = nr.split_by_key(key);
                    let part = TreapNodePtr {
                        root: Some(
                            Box::new(
                                TreapNode {
                                    key: nk,
                                    priority: np,
                                    value: nv,
                                    left: nl,
                                    right: rl,
                                },
                            ),
                        ),
                    };
                    proof {
                        part.lemma_as_map_unfold();
                        assert(part.as_map() == nl.as_map().union_prefer_right(
                            rl.as_map(),
                        ).insert(nk, (np, nv)));
                        part.lemma_wf_fold();
                        let um = part.as_map().union_prefer_right(rr2.as_map());
                        let tm = self.as_map().remove(*key);
                        assert forall|kk: u64|
                            #![trigger um.dom().contains(kk)]
                            #![trigger tm.dom().contains(kk)]
                            um.dom().contains(kk) == tm.dom().contains(kk) && (um.dom().contains(
                                kk,
                            ) ==> um[kk] == tm[kk]) by {
                            if nl.as_map().dom().contains(kk) {
                            }
                            if nr.as_map().dom().contains(kk) {
                            }
                            if rl.as_map().dom().contains(kk) {
                            }
                            if rr2.as_map().dom().contains(kk) {
                            }
                            assert(rl.as_map().union_prefer_right(rr2.as_map()).dom().contains(kk)
                                == nr.as_map().remove(*key).dom().contains(kk));
                            if nr.as_map().remove(*key).dom().contains(kk) {
                                assert(nr.as_map().remove(*key)[kk] == rl.as_map().union_prefer_right(
                                    rr2.as_map(),
                                )[kk]);
                            }
                        }
                        assert(um.dom() =~= tm.dom());
                        assert(um =~= tm);
                        assert(self.as_map().dom().contains(*key) <==> nr.as_map().dom().contains(
                            *key,
                        ));
                        if nr.as_map().dom().contains(*key) {
                            assert(self.as_map()[*key] == nr.as_map()[*key]);
                        }
                    }
                    (part, e, rr2)
                } else {
                    let (ll, e, lr) = nl.split_by_key(key);
                    let part = TreapNodePtr {
                        root: Some(
                            Box::new(
                                TreapNode {
                                    key: nk,
                                    priority: np,
                                    value: nv,
                                    left: lr,
                                    right: nr,
                                },
                            ),
                        ),
                    };
                    proof {
                        part.lemma_as_map_unfold();
                        assert(part.as_map() == lr.as_map().union_prefer_right(
                            nr.as_map(),
                        ).insert(nk, (np, nv)));
                        part.lemma_wf_fold();
                        let um = ll.as_map().union_prefer_right(part.as_map());
                        let tm = self.as_map().remove(*key);
                        assert forall|kk: u64|
                            #![trigger um.dom().contains(kk)]
                            #![trigger tm.dom().contains(kk)]
                            um.dom().contains(kk) == tm.dom().contains(kk) && (um.dom().contains(
                                kk,
                            ) ==> um[kk] == tm[kk]) by {
                            if nl.as_map().dom().contains(kk) {
                            }
                            if nr.as_map().dom().contains(kk) {
                            }
                            if ll.as_map().dom().contains(kk) {
                            }
                            if lr.as_map().dom().contains(kk) {
                            }
                            assert(ll.as_map().union_prefer_right(lr.as_map()).dom().contains(kk)
                                == nl.as_map().remove(*key).dom().contains(kk));
                            if nl.as_map().remove(*key).dom().contains(kk) {
                                assert(nl.as_map().remove(*key)[kk] == ll.as_map().union_prefer_right(
                                    lr.as_map(),
                                )[kk]);
                            }
                        }
                        assert(um.dom() =~= tm.dom());
                        assert(um =~= tm);
                        assert(self.as_map().dom().contains(*key) <==> nl.as_map().dom().contains(
                            *key,
                        ));
                        if nl.as_map().dom().contains(*key) {
                            assert(self.as_map()[*key] == nl.as_map()[*key]);
                        }
                    }
                    (ll, e, part)
                }
            },
        }
    }

    /// Joins two treaps, every key of the first being smaller than
    /// every key of the second; the greater root priority wins the new
    /// root.
    #[verifier::rlimit(100)]
    fn merge(left: Self, right: Self) -> (t: Self)
        requires
            left.wf(),
            right.wf(),
            forall|kl: u64, kr: u64|
                #[trigger] left.as_map().dom().contains(kl) && #[trigger] right.as_map().dom().contains(
                    kr,
                ) ==> kl < kr,
        ensures
            t.wf(),
            t.as_map() == left.as_map().union_prefer_right(right.as_map()),
        decreases left, right,
    {
        let l_node = match left.root {
            None => {
                proof {
                    assert(right.as_map() =~= left.as_map().union_prefer_right(right.as_map()));
                }
                return right;
            },
            Some(n) => n,
        };
        let r_node = match right.root {
            None => {
                proof {
                    assert((TreapNodePtr { root: Some(l_node) }).as_map()
                        =~= left.as_map().union_prefer_right(right.as_map()));
                }
                return TreapNodePtr { root: Some(l_node) };
            },
            Some(n) => n,
        };
        if l_node.priority >= r_node.priority {
            proof {
                right.lemma_root_bound();
                left.lemma_root_bound();
            }
            let TreapNode { key, priority, value, left: ll, right: lr } = *l_node;
            let rest = TreapNodePtr { root: Some(r_node) };
            proof {
                left.lemma_as_map_unfold();
                left.lemma_wf_unfold();
                assert(rest.as_map() == right.as_map());
                assert forall|kl: u64, kr: u64|
                    #[trigger] lr.as_map().dom().contains(kl) && #[trigger] rest.as_map().dom().contains(
                        kr,
                    ) implies kl < kr by {
                    assert(left.as_map().dom().contains(kl));
                }
            }
            let merged = Self::merge(lr, rest);
            let t = TreapNodePtr {
                root: Some(Box::new(TreapNode { key, priority, value, left: ll, right: merged })),
            };
            proof {
                assert forall|k: u64| #[trigger] merged.as_map().dom().contains(k) implies k > key
                    && merged.as_map()[k].0 <= priority by {
                    if lr.as_map().dom().contains(k) {
                    } else {
                        assert(right.as_map().dom().contains(k));
                        assert(left.as_map().dom().contains(key));
                        assert(right.as_map()[k].0 <= right.root_priority());
                    }
                }
                t.lemma_as_map_unfold();
                t.lemma_wf_fold();
                assert(t.as_map() =~= left.as_map().union_prefer_right(right.as_map()));
            }
            t
        } else {
            proof {
                left.lemma_root_bound();
                right.lemma_root_bound();
            }
            let TreapNode { key, priority, value, left: rl, right: rr } = *r_node;
            let rest = TreapNodePtr { root: Some(l_node) };
            proof {
                right.lemma_as_map_unfold();
                right.lemma_wf_unfold();
                assert(rest.as_map() == left.as_map());
                assert forall|kl: u64, kr: u64|
                    #[trigger] rest.as_map().dom().contains(kl) && #[trigger] rl.as_map().dom().contains(
                        kr,
                    ) implies kl < kr by {
                    assert(right.as_map().dom().contains(kr));
                }
            }
            let merged = Self::merge(rest, rl);
            let t = TreapNodePtr {
                root: Some(Box::new(TreapNode { key, priority, value, left: merged, right: rr })),
            };
            proof {
                assert forall|k: u64| #[trigger] merged.as_map().dom().contains(k) implies k < key
                    && merged.as_map()[k].0 <= priority by {
                    if rl.as_map().dom().contains(k) {
                    } else {
                        assert(left.as_map().dom().contains(k));
                        assert(right.as_map().dom().contains(key));
                        assert(left.as_map()[k].0 <= left.root_priority());
                    }
                }
                t.lemma_as_map_unfold();
                t.lemma_wf_fold();
                assert(t.as_map() =~= left.as_map().union_prefer_right(right.as_map()));
            }
            t
        }
    }

    /// Inserts or replaces the entry at `k`, returning the replaced
    /// key and value if one was there.
    pub fn insert(&mut self, k: u64, p: u64, v: V) -> (r: Option<(u64, V)>)
        requires
            old(self).wf(),
        ensures
            final(self).wf(),
            final(self).as_map() == old(self).as_map().insert(k, (p, v)),
            r is Some <==> old(self).as_map().dom().contains(k),
            r matches Some(e) ==> e.0 == k && old(self).as_map().dom().contains(k)
                && e.1 == old(self).as_map()[k].1,
    {
        let root = self.take();
        let (left, elem, right) = root.split_by_key(&k);
        let new_node = TreapNodePtr::new(k, p, v);
        proof {
            assert forall|kl: u64, kr: u64|
                #[trigger] new_node.as_map().dom().contains(kl)
                    && #[trigger] right.as_map().dom().contains(kr) implies kl < kr by {}
        }
        let tmp = TreapNodePtr::merge(new_node, right);
        proof {
            assert forall|kl: u64, kr: u64|
                #[trigger] left.as_map().dom().contains(kl) && #[trigger] tmp.as_map().dom().contains(
                    kr,
                ) implies kl < kr by {}
        }
        let merged = TreapNodePtr::merge(left, tmp);
        *self = merged;
        proof {
            let om = old(self).as_map();
            let fin = self.as_map();
            let goal = om.insert(k, (p, v));
            assert forall|kk: u64|
                #![trigger fin.dom().contains(kk)]
                #![trigger goal.dom().contains(kk)]
                fin.dom().contains(kk) == goal.dom().contains(kk) && (fin.dom().contains(kk)
                    ==> fin[kk] == goal[kk]) by {
                if left.as_map().dom().contains(kk) {
                }
                if right.as_map().dom().contains(kk) {
                }
                assert(left.as_map().union_prefer_right(right.as_map()).dom().contains(kk)
                    == om.remove(k).dom().contains(kk));
                if om.remove(k).dom().contains(kk) {
                    assert(om.remove(k)[kk] == left.as_map().union_prefer_right(
                        right.as_map(),
                    )[kk]);
                }
            }
            assert(fin.dom() =~= goal.dom());
            assert(fin =~= goal);
        }
        elem
    }

    /// Removes the entry at `key`, returning it if present.
    pub fn erase(&mut self, key: &u64) -> (r: Option<(u64, V)>)
        requires
            old(self).wf(),
        ensures
            final(self).wf(),
            final(self).as_map() == old(self).as_map().remove(*key),
            r is Some <==> old(self).as_map().dom().contains(*key),
            r matches Some(e) ==> e.0 == *key && old(self).as_map().dom().contains(*key) && e.1
                == old(self).as_map()[*key].1,
    {
        let root = self.take();
        let (left, elem, right) = root.split_by_key(key);
        proof {
            assert forall|kl: u64, kr: u64|
                #[trigger] left.as_map().dom().contains(kl) && #[trigger] right.as_map().dom().contains(
                    kr,
                ) implies kl < kr by {}
        }
        let merged = TreapNodePtr::merge(left, right);
        *self = merged;
        elem
    }

    /// Looks the value at `key` up.
    pub fn get(&self, key: &u64) -> (r: Option<&V>)
        requires
            self.wf(),
        ensures
            r is Some <==> self.as_map().dom().contains(*key),
            r matches Some(v) ==> self.as_map().dom().contains(*key) && *v == self.as_map()[*key].1,
        decreases *self,
    {
        match &self.root {
            None => None,
            Some(n) => {
                let nl = &n.left;
                let nr = &n.right;
                if *key == n.key {
                    proof {
                        self.lemma_as_map_unfold();
                    }
                    Some(&n.value)
                } else if *key < n.key {
                    proof {
                        self.lemma_as_map_unfold();
                        self.lemma_wf_unfold();
                        if nr.as_map().dom().contains(*key) {
                            assert(false);
                        }
                        assert(self.as_map().dom().contains(*key) <==> nl.as_map().dom().contains(
                            *key,
                        ));
                        if nl.as_map().dom().contains(*key) {
                            assert(self.as_map()[*key] == nl.as_map()[*key]);
                        }
                    }
                    nl.get(key)
                } else {
                    proof {
                        self.lemma_as_map_unfold();
                        self.lemma_wf_unfold();
                        if nl.as_map().dom().contains(*key) {
                            assert(false);
                        }
                        assert(self.as_map().dom().contains(*key) <==> nr.as_map().dom().contains(
                            *key,
                        ));
                        if nr.as_map().dom().contains(*key) {
                            assert(self.as_map()[*key] == nr.as_map()[*key]);
                        }
                    }
                    nr.get(key)
                }
            },
        }
    }

    /// Whether an entry at `key` exists.
    pub fn contains(&self, key: &u64) -> (r: bool)
        requires
            self.wf(),
        ensures
            r == self.as_map().dom().contains(*key),
    {
        self.get(key).is_some()
    }

    /// The entry with the greatest priority, if any: the root.
    pub fn peek(&self) -> (r: Option<(&u64, &V)>)
        requires
            self.wf(),
        ensures
            r is None ==> self.as_map() == Map::<u64, (u64, V)>::empty(),
            r matches Some(p) ==> self.as_map().dom().contains(*p.0) && *p.1 == self.as_map()[*p.0].1
                && forall|k: u64|
                #[trigger] self.as_map().dom().contains(k) ==> self.as_map()[k].0
                    <= self.as_map()[*p.0].0,
    {
        match &self.root {
            None => None,
            Some(n) => {
                proof {
                    self.lemma_root_bound();
                }
                Some((&n.key, &n.value))
            },
        }
    }

    /// Removes and returns the entry with the greatest priority: the
    /// root, whose subtrees are merged back together.
    pub fn pop(&mut self) -> (r: Option<(u64, V)>)
        requires
            old(self).wf(),
        ensures
            final(self).wf(),
            r is None ==> old(self).as_map() == Map::<u64, (u64, V)>::empty()
                && final(self).as_map() == Map::<u64, (u64, V)>::empty(),
            r matches Some(p) ==> old(self).as_map().dom().contains(p.0)
                && p.1 == old(self).as_map()[p.0].1 && (forall|k: u64|
                #[trigger] old(self).as_map().dom().contains(k) ==> old(self).as_map()[k].0
                    <= old(self).as_map()[p.0].0) && final(self).as_map() == old(self).as_map().remove(
                p.0,
            ),
    {
        proof {
            if old(self).root is Some {
                old(self).lemma_root_bound();
            }
        }
        let root = self.take();
        match root.root {
            None => None,
            Some(boxed) => {
                let TreapNode { key: nk, priority: np, value: nv, left: nl, right: nr } = *boxed;
                proof {
                    root.lemma_as_map_unfold();
                    root.lemma_wf_unfold();
                    assert forall|kl: u64, kr: u64|
                        #[trigger] nl.as_map().dom().contains(kl)
                            && #[trigger] nr.as_map().dom().contains(kr) implies kl < kr by {}
                }
                let merged = TreapNodePtr::merge(nl, nr);
                *self = merged;
                proof {
                    assert(old(self).as_map()[nk] == (np, nv));
                    assert(self.as_map() =~= old(self).as_map().remove(nk));
                }
                Some((nk, nv))
            },
        }
    }

    /// The in-order sequence of (key, value) pairs.
    pub closed spec fn to_seq(self) -> Seq<(u64, V)>
        decreases self,
    {
        match self.root {
            None => Seq::empty(),
            Some(node) => node.to_seq(),
        }
    }

    /// Appends the in-order contents to `vec`.
    fn collect(self, vec: &mut Vec<(u64, V)>)
        ensures
            final(vec)@ == old(vec)@ + self.to_seq(),
        decreases self,
    {
        match self.root {
            None => {
                proof {
                    assert(vec@ =~= old(vec)@ + self.to_seq());
                }
            },
            Some(boxed) => {
                proof {
                    self.lemma_to_seq_unfold();
                }
                let TreapNode { key: nk, priority: _, value: nv, left: nl, right: nr } = *boxed;
                nl.collect(vec);
                vec.push((nk, nv));
                nr.collect(vec);
                proof {
                    assert(vec@ =~= old(vec)@ + self.to_seq());
                }
            },
        }
    }

    /// Drains the treap into its in-order sequence of (key, value)
    /// pairs: sorted by strictly increasing key.
    pub fn into_vec(self) -> (r: Vec<(u64, V)>)
        ensures
            r@ == self.to_seq(),
    {
        let mut vec = Vec::new();
        self.collect(&mut vec);
        proof {
            assert(vec@ =~= Seq::<(u64, V)>::empty() + self.to_seq());
        }
        vec
    }

    /// The in-order sequence is sorted by strictly increasing key and
    /// carries exactly the entries of the map.
    pub proof fn lemma_to_seq_is_sorted_map(self)
        requires
            self.wf(),
        ensures
            forall|i: int, j: int|
                0 <= i < j < self.to_seq().len() ==> #[trigger] self.to_seq()[i].0
                    < #[trigger] self.to_seq()[j].0,
            forall|i: int|
                0 <= i < self.to_seq().len() ==> self.as_map().dom().contains(
                    #[trigger] self.to_seq()[i].0,
                ) && self.as_map()[self.to_seq()[i].0].1 == self.to_seq()[i].1,
            forall|k: u64|
                #[trigger] self.as_map().dom().contains(k) ==> exists|i: int|
                    0 <= i < self.to_seq().len() && self.to_seq()[i].0 == k,
        decreases self,
    {
        match self.root {
            None => {},
            Some(node) => {
                self.lemma_as_map_unfold();
                self.lemma_wf_unfold();
                self.lemma_to_seq_unfold();
                let lt = node.left_spec();
                let rt = node.right_spec();
                lt.lemma_to_seq_is_sorted_map();
                rt.lemma_to_seq_is_sorted_map();
                let ls = lt.to_seq();
                let rs = rt.to_seq();
                let nk = node.key_spec();
                let nv = node.value_spec();
                let mid = seq![(nk, nv)];
                assert(self.to_seq() == ls + mid + rs);
                assert forall|i: int|
                    0 <= i < self.to_seq().len() implies self.as_map().dom().contains(
                    #[trigger] self.to_seq()[i].0,
                ) && self.as_map()[self.to_seq()[i].0].1 == self.to_seq()[i].1 by {
                    if i < ls.len() {
                        assert(self.to_seq()[i] == ls[i]);
                        assert(lt.as_map().dom().contains(ls[i].0));
                    } else if i == ls.len() {
                        assert(self.to_seq()[i] == (nk, nv));
                    } else {
                        assert(self.to_seq()[i] == rs[i - ls.len() - 1]);
                        assert(rt.as_map().dom().contains(rs[i - ls.len() - 1].0));
                    }
                }
                assert forall|i: int, j: int|
                    0 <= i < j < self.to_seq().len() implies #[trigger] self.to_seq()[i].0
                    < #[trigger] self.to_seq()[j].0 by {
                    let a = self.to_seq()[i];
                    let b = self.to_seq()[j];
                    if i < ls.len() {
                        assert(a == ls[i]);
                        assert(lt.as_map().dom().contains(ls[i].0));
                    }
                    if j < ls.len() {
                        assert(b == ls[j]);
                    }
                    if i > ls.len() {
                        assert(a == rs[i - ls.len() - 1]);
                        assert(rt.as_map().dom().contains(rs[i - ls.len() - 1].0));
                    }
                    if j > ls.len() {
                        assert(b == rs[j - ls.len() - 1]);
                        assert(rt.as_map().dom().contains(rs[j - ls.len() - 1].0));
                    }
                }
                assert forall|k: u64| #[trigger] self.as_map().dom().contains(k) implies (exists|
                    i: int,
                |
                    0 <= i < self.to_seq().len() && self.to_seq()[i].0 == k) by {
                    if lt.as_map().dom().contains(k) {
                        let i = choose|i: int| 0 <= i < ls.len() && ls[i].0 == k;
                        assert(self.to_seq()[i].0 == k);
                    } else if rt.as_map().dom().contains(k) {
                        let i = choose|i: int| 0 <= i < rs.len() && rs[i].0 == k;
                        assert(self.to_seq()[ls.len() + 1 + i].0 == k);
                    } else {
                        assert(k == nk);
                        assert(self.to_seq()[ls.len() as int].0 == k);
                    }
                }
            },
        }
    }

    /// Turns the treap into an iterator that yields entries from the
    /// greatest priority downward.
    pub fn into_iter_by_priority(self) -> (it: IterByPriority<V>)
        requires
            self.wf(),
        ensures
            it.wf(),
            it.remaining() == self.as_map(),
    {
        IterByPriority { treap: self }
    }
}

/// Yields the treap's entries in order of falling priority.
pub struct IterByPriority<V> {
    treap: TreapNodePtr<V>,
}

impl<V> IterByPriority<V> {
    /// The entries not yet yielded.
    pub closed spec fn remaining(self) -> Map<u64, (u64, V)> {
        self.treap.as_map()
    }

    /// The invariant of the underlying treap.
    pub closed spec fn wf(self) -> bool {
        self.treap.wf()
    }

    /// The next entry: the one with the greatest remaining priority.
    pub fn next(&mut self) -> (r: Option<(u64, V)>)
        requires
            old(self).wf(),
        ensures
            final(self).wf(),
            r is None ==> old(self).remaining() == Map::<u64, (u64, V)>::empty()
                && final(self).remaining() == Map::<u64, (u64, V)>::empty(),
            r matches Some(p) ==> old(self).remaining().dom().contains(p.0)
                && p.1 == old(self).remaining()[p.0].1 && (forall|k: u64|
                #[trigger] old(self).remaining().dom().contains(k) ==> old(self).remaining()[k].0
                    <= old(self).remaining()[p.0].0) && final(self).remaining() == old(self).remaining().remove(
                p.0,
            ),
    {
        self.treap.pop()
    }
}

} // verus!
