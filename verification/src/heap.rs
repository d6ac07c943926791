//! The bounded max-heap protocol over the slot array.
//!
//! [`HeapCore`] is the heap's state: a fixed array of [`Item`] slots and
//! the size register counting the occupied prefix. Its `push` and `pop`
//! run the reservation, placement, sift-up and sift-down protocols
//! through the verified decision steps of [`crate::slot`], and the
//! proofs establish the resting invariants: the occupied prefix is
//! exactly `[0, size)` and settled, the parent of every occupied slot
//! dominates it, `size` never exceeds the capacity, and the multiset of
//! held elements changes by exactly one insertion or removal per
//! operation.
//!
//! A concurrent embedding gives every slot its own lock, guards the size
//! register with a mutex and two condition variables, and blocks instead
//! of demanding `size < capacity` or `size > 0`; it drives the same
//! decision steps, one locked pair at a time.

use crate::slot::{sift_down_choose, sift_down_swap_needed, sift_up_step, ChildChoice, Item,
    SiftUpOutcome};
use vstd::multiset::Multiset;
use vstd::prelude::*;

verus! {

/// The parent of index `i` in the binary layout: `(i - 1) / 2` for
/// `i > 0`, and `0` for the root itself.
pub open spec fn parent_idx(i: int) -> int {
    if i <= 0 {
        0
    } else {
        (i - 1) / 2
    }
}

/// Every index above the root is one of the two children of its parent.
proof fn lemma_parent_children(i: int)
    requires
        1 <= i,
    ensures
        0 <= parent_idx(i) < i,
        i == 2 * parent_idx(i) + 1 || i == 2 * parent_idx(i) + 2,
{
}

/// Computes the parent index of `i`.
pub fn parent(i: usize) -> (p: usize)
    ensures
        p == parent_idx(i as int),
        i > 0 ==> p < i,
{
    if i == 0 {
        0
    } else if i % 2 == 0 {
        i / 2 - 1
    } else {
        i / 2
    }
}

/// The bounded max-heap state: `capacity` slots, of which the prefix
/// `[0, size)` is occupied.
pub struct HeapCore {
    slots: Vec<Item<u64>>,
    size: usize,
}

impl HeapCore {
    /// The number of slots.
    pub closed spec fn capacity_spec(self) -> int {
        self.slots@.len() as int
    }

    /// The value of the size register.
    pub closed spec fn size_spec(self) -> int {
        self.size as int
    }

    /// The slot at index `i`.
    pub closed spec fn slot_spec(self, i: int) -> Item<u64> {
        self.slots@[i]
    }

    /// The element held at index `i`.
    pub open spec fn val_at(self, i: int) -> u64 {
        self.slot_spec(i).spec_val()
    }

    /// Compactness: exactly the prefix `[0, size)` holds settled
    /// elements, and every slot from `size` on is empty.
    pub closed spec fn compact(self) -> bool {
        &&& self.size_spec() <= self.capacity_spec()
        &&& forall|i: int|
            0 <= i < self.size_spec() ==> (#[trigger] self.slot_spec(i)) is Available
        &&& forall|i: int|
            self.size_spec() <= i < self.capacity_spec() ==> (#[trigger] self.slot_spec(
                i,
            )) is Empty
    }

    /// The heap order: every occupied slot is dominated by its parent.
    pub closed spec fn heap_ordered(self) -> bool {
        forall|i: int|
            1 <= i < self.size_spec() ==> self.val_at(parent_idx(i)) >= #[trigger] self.val_at(i)
    }

    /// The resting invariant of the heap.
    pub open spec fn wf(self) -> bool {
        &&& self.capacity_spec() >= 1
        &&& self.compact()
        &&& self.heap_ordered()
    }

    /// The occupied prefix, as the sequence of its elements.
    pub closed spec fn vals(self) -> Seq<u64> {
        Seq::new(self.size as nat, |i: int| self.val_at(i))
    }

    /// The multiset of elements the heap holds.
    pub open spec fn model(self) -> Multiset<u64> {
        self.vals().to_multiset()
    }

    /// Constructs a heap of `cap` empty slots. A capacity of zero is a
    /// programming error and is ruled out by the precondition; see
    /// [`HeapCore::try_new`] for the checked form.
    pub fn new(cap: usize) -> (h: HeapCore)
        requires
            cap >= 1,
        ensures
            h.wf(),
            h.capacity_spec() == cap,
            h.size_spec() == 0,
            h.model() == Multiset::<u64>::empty(),
    {
        let mut slots: Vec<Item<u64>> = Vec::new();
        let mut i: usize = 0;
        while i < cap
            invariant
                i <= cap,
                slots@.len() == i,
                forall|j: int| 0 <= j < i ==> (#[trigger] slots@[j]) is Empty,
            decreases cap - i,
        {
            slots.push(Item::Empty);
            i = i + 1;
        }
        let h = HeapCore { slots, size: 0 };
        proof {
            broadcast use vstd::seq_lib::group_to_multiset_ensures;

            assert(h.vals() =~= Seq::<u64>::empty());
            assert forall|x: u64| h.model().count(x) == 0 by {
                assert(!h.vals().contains(x));
            }
            assert(h.model() =~= Multiset::<u64>::empty());
        }
        h
    }

    /// Constructs a heap of `cap` empty slots, rejecting `cap == 0`.
    pub fn try_new(cap: usize) -> (r: Option<HeapCore>)
        ensures
            r is Some <==> cap >= 1,
            r matches Some(h) ==> h.wf() && h.capacity_spec() == cap && h.size_spec() == 0
                && h.model() == Multiset::<u64>::empty(),
    {
        if cap == 0 {
            None
        } else {
            Some(HeapCore::new(cap))
        }
    }

    /// The size register's current value.
    pub fn len(&self) -> (n: usize)
        ensures
            n == self.size_spec(),
    {
        self.size
    }

    /// The number of slots.
    pub fn capacity(&self) -> (c: usize)
        ensures
            c == self.capacity_spec(),
    {
        self.slots.len()
    }

    /// The element settled at slot `i`, if that slot is `Available`.
    pub fn available_at(&self, i: usize) -> (r: Option<u64>)
        requires
            i < self.capacity_spec(),
        ensures
            r is Some <==> self.slot_spec(i as int) is Available,
            r matches Some(v) ==> v == self.val_at(i as int),
    {
        match self.slots[i] {
            Item::Available(v) => Some(v),
            _ => None,
        }
    }

    /// Capacity bound law: a well-formed heap never holds more than its
    /// capacity, which `new` fixes and `push` and `pop` preserve.
    pub proof fn lemma_capacity_bound(self)
        requires
            self.wf(),
        ensures
            0 <= self.size_spec() <= self.capacity_spec(),
            self.model().len() == self.size_spec(),
    {
        broadcast use vstd::seq_lib::group_to_multiset_ensures;

        assert(self.vals().len() == self.size_spec());
    }

    /// Compactness law: at rest, exactly the slots before `size` hold
    /// settled elements and every slot from `size` on is empty.
    pub proof fn lemma_compact_at_rest(self)
        requires
            self.wf(),
        ensures
            forall|i: int|
                0 <= i < self.size_spec() ==> (#[trigger] self.slot_spec(i)) is Available,
            forall|i: int|
                self.size_spec() <= i < self.capacity_spec() ==> (#[trigger] self.slot_spec(
                    i,
                )) is Empty,
    {
    }

    /// The root dominates every occupied slot.
    pub proof fn lemma_root_max(self)
        requires
            self.wf(),
            self.size_spec() > 0,
        ensures
            forall|i: int| 0 <= i < self.size_spec() ==> #[trigger] self.val_at(i) <= self.val_at(0),
    {
        assert forall|i: int|
            0 <= i < self.size_spec() implies #[trigger] self.val_at(i) <= self.val_at(0) by {
            self.lemma_chain_to_root(i);
        }
    }

    proof fn lemma_chain_to_root(self, i: int)
        requires
            self.wf(),
            0 <= i < self.size_spec(),
        ensures
            self.val_at(i) <= self.val_at(0),
        decreases i,
    {
        if i > 0 {
            assert(self.val_at(parent_idx(i)) >= self.val_at(i));
            assert(0 <= parent_idx(i) < i);
            self.lemma_chain_to_root(parent_idx(i));
        }
    }

    /// Inserts `v`, sifting it up to its resting place. The concurrent
    /// embedding blocks on `not_full` instead of the size precondition.
    ///
    /// The element is neither lost nor duplicated: the model grows by
    /// exactly `v`.
    pub fn push(&mut self, v: u64)
        requires
            old(self).wf(),
            old(self).size_spec() < old(self).capacity_spec(),
        ensures
            final(self).wf(),
            final(self).capacity_spec() == old(self).capacity_spec(),
            final(self).size_spec() == old(self).size_spec() + 1,
            final(self).model() == old(self).model().insert(v),
    {
        broadcast use vstd::seq_lib::group_to_multiset_ensures;

        let me: u64 = 0;
        let cap_now = self.slots.len();
        let mut pos: usize = self.size;
        self.size = self.size + 1;
        if pos == 0 {
            proof {
                assert(old(self).slot_spec(0) is Empty);
            }
            self.slots[0] = Item::Available(v);
            proof {
                assert(self.slot_spec(0) == Item::Available(v));
                assert forall|i: int|
                    self.size_spec() <= i < self.capacity_spec() implies (
                #[trigger] self.slot_spec(i)) is Empty by {
                    assert(self.slot_spec(i) == old(self).slot_spec(i));
                }
                assert(self.vals() =~= old(self).vals().push(v));
                assert(self.model() == old(self).model().insert(v));
            }
            return ;
        }
        proof {
            assert(old(self).slot_spec(pos as int) is Empty);
        }
        self.slots[pos] = Item::InProgress(v, me);
        proof {
            assert forall|i: int|
                0 <= i < self.capacity_spec() && i != pos implies #[trigger] self.slot_spec(i)
                == old(self).slot_spec(i) by {}
            assert(self.slot_spec(pos as int) == Item::InProgress(v, me));
            assert forall|i: int|
                0 <= i < self.size_spec() && i != pos implies #[trigger] self.val_at(i) == old(
                    self,
                ).val_at(i) by {}
            assert forall|i: int|
                1 <= i < self.size_spec() && i != pos implies self.val_at(parent_idx(i))
                    >= #[trigger] self.val_at(i) by {
                lemma_parent_children(i);
                assert(old(self).val_at(parent_idx(i)) >= old(self).val_at(i));
            }
            assert forall|c: int|
                1 <= c < self.size_spec() && parent_idx(c) == pos implies self.val_at(
                    parent_idx(pos as int),
                ) >= #[trigger] self.val_at(c) by {
                lemma_parent_children(c);
            }
            assert(self.vals() =~= old(self).vals().push(v));
        }
        let mut done: bool = false;
        while !done && pos > 0
            invariant
                self.slots@.len() == old(self).slots@.len(),
                self.slots@.len() >= 1,
                self.size_spec() == old(self).size_spec() + 1,
                self.size_spec() <= self.capacity_spec(),
                0 <= pos < self.size_spec(),
                !done ==> self.slot_spec(pos as int) == Item::InProgress(v, me),
                forall|i: int|
                    0 <= i < self.size_spec() && (done || i != pos) ==> (#[trigger] self.slot_spec(
                        i,
                    )) is Available,
                forall|i: int|
                    self.size_spec() <= i < self.capacity_spec() ==> (#[trigger] self.slot_spec(
                        i,
                    )) is Empty,
                forall|i: int|
                    1 <= i < self.size_spec() && i != pos ==> self.val_at(parent_idx(i))
                        >= #[trigger] self.val_at(i),
                done && pos > 0 ==> self.val_at(parent_idx(pos as int)) >= self.val_at(pos as int),
                !done && pos > 0 ==> forall|c: int|
                    1 <= c < self.size_spec() && parent_idx(c) == pos ==> self.val_at(
                        parent_idx(pos as int),
                    ) >= #[trigger] self.val_at(c),
                self.vals().to_multiset() == old(self).model().insert(v),
            decreases 2 * (pos as int) + (if done { 0int } else { 1int }),
        {
            let ghost pre = *self;
            let pp = parent(pos);
            proof {
                assert(pre.slot_spec(pp as int) is Available);
            }
            let mut my_item = self.slots[pos];
            let mut par_item = self.slots[pp];
            proof {
                assert(my_item == pre.slot_spec(pos as int));
                assert(par_item == pre.slot_spec(pp as int));
            }
            let r = sift_up_step(&mut my_item, &mut par_item, me);
            self.slots[pp] = par_item;
            self.slots[pos] = my_item;
            proof {
                assert forall|i: int|
                    0 <= i < self.capacity_spec() && i != pp && i != pos implies
                #[trigger] self.slot_spec(i) == pre.slot_spec(i) by {}
                assert(self.slot_spec(pp as int) == par_item);
                assert(self.slot_spec(pos as int) == my_item);
            }
            match r {
                SiftUpOutcome::Swapped => {
                    proof {
                        let p = pp as int;
                        let q = pos as int;
                        assert(self.slot_spec(p) == Item::InProgress(v, me));
                        assert(self.slot_spec(q) == Item::Available(pre.val_at(p)));
                        assert(self.val_at(p) == v && self.val_at(q) == pre.val_at(p));
                        assert forall|i: int|
                            0 <= i < self.size_spec() && i != p && i != q implies
                        #[trigger] self.val_at(i) == pre.val_at(i) by {}
                        assert(v > pre.val_at(p));
                        assert forall|i: int|
                            1 <= i < self.size_spec() && i != p implies self.val_at(parent_idx(i))
                                >= #[trigger] self.val_at(i) by {
                            lemma_parent_children(i);
                            if i == q {
                                assert(parent_idx(q) == p);
                            } else if parent_idx(i) == q {
                                assert(pre.val_at(parent_idx(q)) >= pre.val_at(i));
                            } else if parent_idx(i) == p {
                                assert(pre.val_at(parent_idx(i)) >= pre.val_at(i));
                            } else {
                                assert(pre.val_at(parent_idx(i)) >= pre.val_at(i));
                            }
                        }
                        if p > 0 {
                            assert forall|c: int|
                                1 <= c < self.size_spec() && parent_idx(c) == p implies self.val_at(
                                parent_idx(p),
                            ) >= #[trigger] self.val_at(c) by {
                                lemma_parent_children(c);
                                lemma_parent_children(p);
                                assert(self.val_at(parent_idx(p)) == pre.val_at(parent_idx(p)));
                                assert(pre.val_at(parent_idx(p)) >= pre.val_at(p));
                                if c != q {
                                    assert(pre.val_at(parent_idx(c)) >= pre.val_at(c));
                                }
                            }
                        }
                        assert(self.vals() =~= pre.vals().update(p, pre.vals()[q]).update(
                            q,
                            pre.vals()[p],
                        ));
                        lemma_swap_to_multiset(pre.vals(), p, q);
                    }
                    pos = pp;
                },
                SiftUpOutcome::Finished => {
                    proof {
                        let p = pp as int;
                        let q = pos as int;
                        assert(self.slot_spec(q) == Item::Available(v));
                        assert(self.slot_spec(p) == pre.slot_spec(p));
                        assert forall|i: int|
                            0 <= i < self.size_spec() implies #[trigger] self.val_at(i)
                                == pre.val_at(i) by {}
                        assert(self.val_at(p) >= self.val_at(q));
                        assert forall|i: int|
                            1 <= i < self.size_spec() && i != q implies self.val_at(parent_idx(i))
                                >= #[trigger] self.val_at(i) by {
                            assert(pre.val_at(parent_idx(i)) >= pre.val_at(i));
                        }
                        assert(self.vals() =~= pre.vals());
                    }
                    done = true;
                },
                SiftUpOutcome::Contended => {
                    proof {
                        assert(false);
                    }
                },
                SiftUpOutcome::Climb => {
                    proof {
                        assert(false);
                    }
                },
            }
        }
        if !done {
            let ghost pre = *self;
            proof {
                assert(pre.slot_spec(0) == Item::InProgress(v, me));
            }
            let mut root_item = self.slots[0];
            root_item.make_available();
            self.slots[0] = root_item;
            proof {
                assert forall|i: int|
                    0 <= i < self.capacity_spec() && i != 0 implies #[trigger] self.slot_spec(i)
                    == pre.slot_spec(i) by {}
                assert(self.slot_spec(0) == Item::Available(v));
                assert forall|i: int|
                    0 <= i < self.size_spec() implies #[trigger] self.val_at(i) == pre.val_at(
                        i,
                    ) by {}
                assert forall|i: int|
                    1 <= i < self.size_spec() implies self.val_at(parent_idx(i))
                        >= #[trigger] self.val_at(i) by {
                    assert(pre.val_at(parent_idx(i)) >= pre.val_at(i));
                }
                assert(self.vals() =~= pre.vals());
            }
        }
    }

    /// Removes and returns the largest element, restoring the heap order
    /// by sifting the promoted bottom element down. The concurrent
    /// embedding blocks on `not_empty` instead of the size precondition.
    ///
    /// The element is neither lost nor duplicated: the model shrinks by
    /// exactly the returned element, which dominates everything held.
    #[verifier::rlimit(100)]
    pub fn pop(&mut self) -> (r: u64)
        requires
            old(self).wf(),
            old(self).size_spec() > 0,
        ensures
            final(self).wf(),
            final(self).capacity_spec() == old(self).capacity_spec(),
            final(self).size_spec() == old(self).size_spec() - 1,
            old(self).model().contains(r),
            final(self).model() == old(self).model().remove(r),
            forall|x: u64| old(self).model().contains(x) ==> x <= r,
    {
        broadcast use vstd::seq_lib::group_to_multiset_ensures;
        broadcast use vstd::multiset::group_multiset_axioms;

        proof {
            self.lemma_root_max();
            assert(old(self).slot_spec(0) is Available);
        }
        self.size = self.size - 1;
        let bottom = self.size;
        let mut root_item = self.slots[0];
        proof {
            assert(root_item == old(self).slot_spec(0));
        }
        let popped = root_item.take_val();
        self.slots[0] = root_item;
        proof {
            assert(popped == old(self).val_at(0));
            assert(old(self).vals().contains(popped)) by {
                assert(old(self).vals()[0] == popped);
            }
            assert(old(self).model().contains(popped));
            assert forall|x: u64| old(self).model().contains(x) implies x <= popped by {
                assert(old(self).vals().contains(x));
                let i = choose|i: int|
                    0 <= i < old(self).vals().len() && old(self).vals()[i] == x;
                assert(old(self).val_at(i) <= old(self).val_at(0));
            }
        }
        if bottom == 0 {
            proof {
                assert forall|i: int|
                    0 <= i < self.capacity_spec() && i != 0 implies #[trigger] self.slot_spec(i)
                    == old(self).slot_spec(i) by {}
                assert(self.slot_spec(0) is Empty);
                assert forall|i: int|
                    self.size_spec() <= i < self.capacity_spec() implies (
                #[trigger] self.slot_spec(i)) is Empty by {
                    if i > 0 {
                        assert(old(self).slot_spec(i) is Empty);
                    }
                }
                assert(self.vals() =~= Seq::<u64>::empty());
                assert(old(self).vals() =~= Seq::<u64>::empty().push(popped));
                assert(old(self).model() == Seq::<u64>::empty().to_multiset().insert(popped));
                assert forall|x: u64|
                    self.model().count(x) == old(self).model().remove(popped).count(x) by {
                    assert(!self.vals().contains(x));
                    assert(!Seq::<u64>::empty().contains(x));
                }
                assert(self.model() =~= old(self).model().remove(popped));
            }
            return popped;
        }
        let b_item = self.slots[bottom];
        proof {
            assert(b_item == old(self).slot_spec(bottom as int));
            assert(old(self).slot_spec(bottom as int) is Available);
        }
        self.slots[0] = b_item;
        self.slots[bottom] = Item::Empty;
        proof {
            let n = old(self).size_spec();
            assert forall|i: int|
                0 <= i < self.capacity_spec() && i != 0 && i != bottom implies
            #[trigger] self.slot_spec(i) == old(self).slot_spec(i) by {}
            assert(self.slot_spec(0) == b_item);
            assert(self.slot_spec(bottom as int) is Empty);
            assert forall|i: int|
                0 <= i < self.size_spec() implies (#[trigger] self.slot_spec(i)) is Available by {
                if i != 0 {
                    assert(old(self).slot_spec(i) is Available);
                }
            }
            assert forall|i: int|
                self.size_spec() <= i < self.capacity_spec() implies (
            #[trigger] self.slot_spec(i)) is Empty by {
                if i != bottom {
                    assert(old(self).slot_spec(i) is Empty);
                }
            }
            assert forall|i: int|
                1 <= i < self.size_spec() implies #[trigger] self.val_at(i) == old(self).val_at(
                    i,
                ) by {}
            assert(self.val_at(0) == old(self).val_at(n - 1));
            assert forall|i: int|
                1 <= i < self.size_spec() && parent_idx(i) != 0 implies self.val_at(parent_idx(i))
                    >= #[trigger] self.val_at(i) by {
                lemma_parent_children(i);
                assert(old(self).val_at(parent_idx(i)) >= old(self).val_at(i));
            }
            assert(self.vals() =~= old(self).vals().update(0, old(self).val_at(n - 1)).subrange(
                0,
                n - 1,
            ));
            lemma_promote_to_multiset(old(self).vals());
        }
        let mut curr: usize = 0;
        let cap = self.slots.len();
        let mut done: bool = false;
        while !done && curr < cap / 2
            invariant
                cap == self.slots@.len(),
                self.slots@.len() >= 1,
                self.size_spec() == old(self).size_spec() - 1,
                self.size_spec() <= self.capacity_spec(),
                0 <= curr < self.size_spec(),
                forall|i: int|
                    0 <= i < self.size_spec() ==> (#[trigger] self.slot_spec(i)) is Available,
                forall|i: int|
                    self.size_spec() <= i < self.capacity_spec() ==> (#[trigger] self.slot_spec(
                        i,
                    )) is Empty,
                forall|i: int|
                    1 <= i < self.size_spec() && parent_idx(i) != curr ==> self.val_at(
                        parent_idx(i),
                    ) >= #[trigger] self.val_at(i),
                done ==> forall|i: int|
                    1 <= i < self.size_spec() && parent_idx(i) == curr ==> self.val_at(
                        parent_idx(i),
                    ) >= #[trigger] self.val_at(i),
                !done && curr > 0 ==> forall|c: int|
                    1 <= c < self.size_spec() && parent_idx(c) == curr ==> self.val_at(
                        parent_idx(curr as int),
                    ) >= #[trigger] self.val_at(c),
                self.vals().to_multiset() == old(self).model().remove(popped),
            decreases 2 * (cap - curr) + (if done { 0int } else { 1int }),
        {
            let ghost pre = *self;
            let left: usize = 2 * curr + 1;
            let right: usize = left + 1;
            let left_item = self.slots[left];
            proof {
                assert(left_item == self.slot_spec(left as int));
            }
            let choice = if right < cap {
                let right_item = self.slots[right];
                proof {
                    assert(right_item == self.slot_spec(right as int));
                }
                sift_down_choose(&left_item, Some(&right_item))
            } else {
                sift_down_choose(&left_item, None)
            };
            let ci_opt: Option<usize> = match choice {
                ChildChoice::NoChild => None,
                ChildChoice::Left => Some(left),
                ChildChoice::Right => Some(right),
            };
            match ci_opt {
                None => {
                    proof {
                        assert(!(self.slot_spec(left as int) is Available));
                        assert(left >= self.size_spec());
                        assert forall|i: int|
                            1 <= i < self.size_spec() && parent_idx(i) == curr implies self.val_at(
                            parent_idx(i),
                        ) >= #[trigger] self.val_at(i) by {
                            lemma_parent_children(i);
                            assert(i >= left);
                        }
                    }
                    done = true;
                },
                Some(ci) => {
                    let child_item = self.slots[ci];
                    let curr_item = self.slots[curr];
                    proof {
                        assert(child_item == self.slot_spec(ci as int));
                        assert(curr_item == self.slot_spec(curr as int));
                        assert(self.slot_spec(curr as int) is Available);
                    }
                    if sift_down_swap_needed(&curr_item, &child_item) {
                        proof {
                            assert(self.slot_spec(ci as int).has_val());
                            assert(ci < self.size_spec());
                        }
                        self.slots[curr] = child_item;
                        self.slots[ci] = curr_item;
                        proof {
                            let p = curr as int;
                            let q = ci as int;
                            assert forall|i: int|
                                0 <= i < self.capacity_spec() && i != p && i != q implies
                            #[trigger] self.slot_spec(i) == pre.slot_spec(i) by {}
                            assert(self.slot_spec(p) == child_item);
                            assert(self.slot_spec(q) == curr_item);
                            assert(self.val_at(p) == pre.val_at(q));
                            assert(self.val_at(q) == pre.val_at(p));
                            assert(pre.val_at(q) > pre.val_at(p));
                            assert forall|i: int|
                                0 <= i < self.size_spec() && i != p && i != q implies
                            #[trigger] self.val_at(i) == pre.val_at(i) by {}
                            assert(q == 2 * p + 1 || q == 2 * p + 2);
                            assert forall|i: int|
                                1 <= i < self.size_spec() && parent_idx(i) != q implies self.val_at(
                                parent_idx(i),
                            ) >= #[trigger] self.val_at(i) by {
                                lemma_parent_children(i);
                                if i == q {
                                    assert(parent_idx(q) == p);
                                } else if i == p {
                                    assert(p > 0 ==> pre.val_at(parent_idx(p)) >= pre.val_at(q));
                                } else if parent_idx(i) == p {
                                    assert(i == left || i == right);
                                    if choice is Right {
                                        assert(i == left);
                                        assert(pre.val_at(right as int) > pre.val_at(left as int));
                                    } else {
                                        assert(i == right && (right as int) < self.size_spec());
                                        assert(pre.slot_spec(right as int) is Available);
                                        assert(pre.val_at(right as int) <= pre.val_at(
                                            left as int,
                                        ));
                                    }
                                } else {
                                    assert(pre.val_at(parent_idx(i)) >= pre.val_at(i));
                                }
                            }
                            assert forall|c: int|
                                1 <= c < self.size_spec() && parent_idx(c) == q implies self.val_at(
                                parent_idx(q),
                            ) >= #[trigger] self.val_at(c) by {
                                lemma_parent_children(c);
                                assert(pre.val_at(parent_idx(c)) >= pre.val_at(c));
                            }
                            assert(self.vals() =~= pre.vals().update(p, pre.vals()[q]).update(
                                q,
                                pre.vals()[p],
                            ));
                            lemma_swap_to_multiset(pre.vals(), p, q);
                        }
                        curr = ci;
                    } else {
                        proof {
                            assert forall|i: int|
                                1 <= i < self.size_spec() && parent_idx(i)
                                    == curr implies self.val_at(parent_idx(i))
                                >= #[trigger] self.val_at(i) by {
                                lemma_parent_children(i);
                                assert(i == left || i == right);
                                assert((self.slot_spec(i)) is Available);
                                if i == ci as int {
                                    assert(self.val_at(curr as int) >= self.val_at(i));
                                } else if choice is Right {
                                    assert(i == left);
                                    assert(self.val_at(right as int) > self.val_at(left as int));
                                    assert(self.val_at(curr as int) >= self.val_at(right as int));
                                } else {
                                    assert(i == right && right < cap);
                                    assert(self.slot_spec(right as int).has_val());
                                    assert(self.val_at(right as int) <= self.val_at(left as int));
                                    assert(self.val_at(curr as int) >= self.val_at(left as int));
                                }
                            }
                        }
                        done = true;
                    }
                },
            }
        }
        proof {
            if !done {
                assert forall|i: int|
                    1 <= i < self.size_spec() && parent_idx(i) == curr implies self.val_at(
                    parent_idx(i),
                ) >= #[trigger] self.val_at(i) by {
                    lemma_parent_children(i);
                    assert(i >= 2 * (curr as int) + 1);
                    assert(i >= cap);
                }
            }
        }
        popped
    }
}

/// Exchanging two positions of a sequence leaves its multiset unchanged.
pub(crate) proof fn lemma_swap_to_multiset(s: Seq<u64>, i: int, j: int)
    requires
        0 <= i < s.len(),
        0 <= j < s.len(),
    ensures
        s.update(i, s[j]).update(j, s[i]).to_multiset() == s.to_multiset(),
{
    broadcast use vstd::seq_lib::group_to_multiset_ensures;

    let s1 = s.update(i, s[j]);
    let s2 = s1.update(j, s[i]);
    if i == j {
        assert(s2 =~= s);
    } else {
        assert(s1[j] == s[j]);
        assert(s1.to_multiset() == s.to_multiset().remove(s[i]).insert(s[j]));
        assert(s2.to_multiset() == s1.to_multiset().remove(s[j]).insert(s[i]));
        assert(s.to_multiset().contains(s[i])) by {
            assert(s.contains(s[i]));
        }
        assert(s.to_multiset().contains(s[j])) by {
            assert(s.contains(s[j]));
        }
        assert(s2.to_multiset() =~= s.to_multiset());
    }
}

/// Overwriting the head with the last element and dropping the last
/// position removes exactly the head from the multiset.
proof fn lemma_promote_to_multiset(s: Seq<u64>)
    requires
        s.len() >= 2,
    ensures
        s.update(0, s[s.len() - 1]).subrange(0, s.len() - 1).to_multiset() == s.to_multiset().remove(
            s[0],
        ),
{
    broadcast use vstd::seq_lib::group_to_multiset_ensures;

    let n = s.len() as int;
    let s1 = s.update(0, s[n - 1]);
    let s2 = s1.subrange(0, n - 1);
    assert(s2 =~= s1.remove(n - 1));
    assert(s1.to_multiset() == s.to_multiset().remove(s[0]).insert(s[n - 1]));
    assert(s1[n - 1] == s[n - 1]);
    assert(s1.remove(n - 1).to_multiset() == s1.to_multiset().remove(s[n - 1]));
    assert(s.to_multiset().contains(s[0])) by {
        assert(s.contains(s[0]));
    }
    assert(s.to_multiset().contains(s[n - 1])) by {
        assert(s.contains(s[n - 1]));
    }
    assert(s1.remove(n - 1).to_multiset() =~= s.to_multiset().remove(s[0]));
}

/// Ordering law: when a consumer drains the heap alone, successive pops
/// never increase. The hypotheses are exactly what two consecutive
/// `pop` calls ensure about the model.
pub proof fn lemma_drain_nonincreasing(m: Multiset<u64>, r1: u64, r2: u64)
    requires
        m.contains(r1),
        forall|x: u64| m.contains(x) ==> x <= r1,
        m.remove(r1).contains(r2),
        forall|x: u64| m.remove(r1).contains(x) ==> x <= r2,
    ensures
        r2 <= r1,
{
    broadcast use vstd::multiset::group_multiset_axioms;

    assert(m.remove(r1).count(r2) > 0);
    assert(m.count(r2) >= m.remove(r1).count(r2));
    assert(m.contains(r2));
}

/// Conservation law: across a push of `v` and a pop returning `r`, the
/// popped element together with what remains is exactly the initial
/// contents plus the pushed one; nothing is duplicated or lost. The
/// hypotheses are exactly what `push` and `pop` ensure about the model.
pub proof fn lemma_conservation(
    before: Multiset<u64>,
    after_push: Multiset<u64>,
    v: u64,
    after_pop: Multiset<u64>,
    r: u64,
)
    requires
        after_push == before.insert(v),
        after_push.contains(r),
        after_pop == after_push.remove(r),
    ensures
        after_pop.insert(r) == after_push,
        after_pop.len() == before.len(),
{
    assert(after_pop.insert(r) =~= after_push);
}

} // verus!
