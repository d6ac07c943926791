//! A sequential D-ary max-heap over a growable array.
//!
//! Children of index `i` sit at `D*i + 1 ..= D*i + D`; the parent of
//! `c > 0` is `(c - 1) / D`. `insert` appends and bubbles the new
//! element up; `pop` promotes the last element to the root and bubbles
//! it down; `from_vec` heapifies an arbitrary array bottom-up.

use crate::heap::lemma_swap_to_multiset;
use vstd::multiset::Multiset;
use vstd::prelude::*;

verus! {

/// The parent of index `i` in the D-ary layout: `(i - 1) / d` for
/// `i > 0`, and `0` for the root itself.
pub open spec fn dary_parent_idx(d: int, i: int) -> int {
    if i <= 0 {
        0
    } else {
        (i - 1) / d
    }
}

/// Every index above the root lies in the child range of its parent.
proof fn lemma_dary_parent_children(d: int, c: int)
    requires
        d >= 1,
        c >= 1,
    ensures
        0 <= dary_parent_idx(d, c) < c,
        d * dary_parent_idx(d, c) + 1 <= c,
        c <= d * dary_parent_idx(d, c) + d,
{
    let q = (c - 1) / d;
    vstd::arithmetic::div_mod::lemma_fundamental_div_mod(c - 1, d);
    vstd::arithmetic::div_mod::lemma_mod_bound(c - 1, d);
    vstd::arithmetic::div_mod::lemma_div_pos_is_pos(c - 1, d);
    assert(q < c) by (nonlinear_arith)
        requires
            d >= 1,
            q >= 0,
            d * q <= c - 1,
    ;
}

/// The indices in the child range of `p` have `p` as their parent.
proof fn lemma_dary_child_parent(d: int, p: int, k: int)
    requires
        d >= 1,
        p >= 0,
        1 <= k <= d,
    ensures
        dary_parent_idx(d, d * p + k) == p,
{
    assert(d * p + k >= 1) by (nonlinear_arith)
        requires
            d >= 1,
            p >= 0,
            k >= 1,
    ;
    assert(d * p + k - 1 == p * d + (k - 1)) by (nonlinear_arith);
    vstd::arithmetic::div_mod::lemma_fundamental_div_mod_converse(d * p + k - 1, d, p, k - 1);
}

/// A max-heap whose nodes have up to `D` children each.
pub struct DWayHeap<const D: usize> {
    data: Vec<u64>,
}

impl<const D: usize> DWayHeap<D> {
    /// The stored array.
    pub closed spec fn seq_spec(self) -> Seq<u64> {
        self.data@
    }

    /// The number of stored elements.
    pub open spec fn len_spec(self) -> int {
        self.seq_spec().len() as int
    }

    /// The element at index `i`.
    pub open spec fn val(self, i: int) -> u64 {
        self.seq_spec()[i]
    }

    /// The multiset of stored elements.
    pub open spec fn model(self) -> Multiset<u64> {
        self.seq_spec().to_multiset()
    }

    /// The heap order restricted to edges whose parent end is at least
    /// `lo`: used while heapifying from the bottom up.
    pub closed spec fn ordered_from(self, lo: int) -> bool {
        forall|c: int|
            1 <= c < self.len_spec() && dary_parent_idx(D as int, c) >= lo ==> self.val(
                dary_parent_idx(D as int, c),
            ) >= #[trigger] self.val(c)
    }

    /// The heap order: every element is dominated by its parent.
    pub open spec fn heap_ordered(self) -> bool {
        self.ordered_from(0)
    }

    /// The invariant of the heap.
    pub open spec fn wf(self) -> bool {
        D >= 1 && self.heap_ordered()
    }

    /// An empty heap.
    pub fn new() -> (h: Self)
        requires
            D >= 1,
        ensures
            h.wf(),
            h.len_spec() == 0,
            h.model() == Multiset::<u64>::empty(),
    {
        let h = DWayHeap { data: Vec::new() };
        proof {
            lemma_empty_multiset(h.seq_spec());
        }
        h
    }

    /// An empty heap with room for `cap` elements before reallocating.
    pub fn with_capacity(cap: usize) -> (h: Self)
        requires
            D >= 1,
        ensures
            h.wf(),
            h.len_spec() == 0,
            h.model() == Multiset::<u64>::empty(),
    {
        let h = DWayHeap { data: Vec::with_capacity(cap) };
        proof {
            lemma_empty_multiset(h.seq_spec());
        }
        h
    }

    /// Computes the parent index of `i`.
    pub fn parent(i: usize) -> (p: usize)
        requires
            D >= 1,
        ensures
            p == dary_parent_idx(D as int, i as int),
            i > 0 ==> p < i,
    {
        let d = D;
        proof {
            let x = i as int;
            let di = d as int;
            vstd::arithmetic::div_mod::lemma_fundamental_div_mod(x, di);
            vstd::arithmetic::div_mod::lemma_mod_bound(x, di);
            vstd::arithmetic::div_mod::lemma_div_pos_is_pos(x, di);
            if x > 0 {
                if x % di == 0 {
                    assert(x / di >= 1) by (nonlinear_arith)
                        requires
                            di >= 1,
                            x >= 1,
                            x / di >= 0,
                            x == di * (x / di),
                    ;
                    assert(x - 1 == (x / di - 1) * di + (di - 1)) by (nonlinear_arith)
                        requires
                            x == di * (x / di),
                    ;
                    vstd::arithmetic::div_mod::lemma_fundamental_div_mod_converse(
                        x - 1,
                        di,
                        x / di - 1,
                        di - 1,
                    );
                } else {
                    assert(x - 1 == (x / di) * di + (x % di - 1)) by (nonlinear_arith)
                        requires
                            x == di * (x / di) + x % di,
                    ;
                    vstd::arithmetic::div_mod::lemma_fundamental_div_mod_converse(
                        x - 1,
                        di,
                        x / di,
                        x % di - 1,
                    );
                }
                lemma_dary_parent_children(di, x);
            }
        }
        if i == 0 {
            0
        } else if i % d == 0 {
            i / d - 1
        } else {
            i / d
        }
    }

    /// The index of the greatest child of `i`, or `0` when `i` has no
    /// children (index `0` is never a child). The leftmost of equal
    /// greatest children is chosen.
    fn highest_priority_child(&self, i: usize) -> (ret: usize)
        requires
            D >= 1,
            i < self.len_spec(),
        ensures
            ret == 0 ==> (D as int) * (i as int) + 1 >= self.len_spec(),
            ret != 0 ==> {
                &&& (D as int) * (i as int) + 1 <= ret as int <= (D as int) * (i as int) + (
                D as int)
                &&& (ret as int) < self.len_spec()
                &&& dary_parent_idx(D as int, ret as int) == i as int
                &&& forall|c: int|
                    (D as int) * (i as int) + 1 <= c <= (D as int) * (i as int) + (D as int) && c
                        < self.len_spec() ==> #[trigger] self.val(c) <= self.val(ret as int)
            },
    {
        let len = self.data.len();
        if len < 2 || i > (len - 2) / D {
            proof {
                let di = D as int;
                let x = i as int;
                if len >= 2 {
                    let q = (len - 2) as int / di;
                    vstd::arithmetic::div_mod::lemma_fundamental_div_mod((len - 2) as int, di);
                    vstd::arithmetic::div_mod::lemma_mod_bound((len - 2) as int, di);
                    assert(di * x + 1 >= len) by (nonlinear_arith)
                        requires
                            di >= 1,
                            x >= q + 1,
                            di * q >= (len - 2) as int - (di - 1),
                    ;
                }
            }
            return 0;
        }
        proof {
            let di = D as int;
            let x = i as int;
            let q = (len - 2) as int / di;
            vstd::arithmetic::div_mod::lemma_fundamental_div_mod((len - 2) as int, di);
            vstd::arithmetic::div_mod::lemma_mod_bound((len - 2) as int, di);
            assert(di * x <= (len - 2) as int) by (nonlinear_arith)
                requires
                    di >= 1,
                    0 <= x <= q,
                    di * q <= (len - 2) as int,
            ;
        }
        let first: usize = D * i + 1;
        let mut ret: usize = 0;
        let mut off: usize = 0;
        while first + off < len && off < D
            invariant
                D >= 1,
                len == self.len_spec(),
                first as int == (D as int) * (i as int) + 1,
                first < len,
                off <= D,
                first + off <= len,
                off == 0 ==> ret == 0,
                off >= 1 ==> {
                    &&& first as int <= ret as int
                    &&& (ret as int) < first as int + off as int
                    &&& (ret as int) < self.len_spec()
                    &&& forall|c: int|
                        first as int <= c < first as int + off as int ==> #[trigger] self.val(c)
                            <= self.val(ret as int)
                },
            decreases D - off,
        {
            let ci = first + off;
            if ret == 0 || self.data[ci] > self.data[ret] {
                ret = ci;
            }
            off = off + 1;
        }
        proof {
            assert(ret != 0);
            lemma_dary_child_parent(D as int, i as int, ret as int - (D as int) * (i as int));
            assert forall|c: int|
                (D as int) * (i as int) + 1 <= c <= (D as int) * (i as int) + (D as int) && c
                    < self.len_spec() implies #[trigger] self.val(c) <= self.val(ret as int) by {
                assert(c < first as int + off as int);
            }
        }
        ret
    }

    /// Restores the heap order below `i` after its element was
    /// replaced, walking the replacement down to its resting place.
    fn bubble_down(&mut self, i: usize)
        requires
            D >= 1,
            i < old(self).len_spec(),
            old(self).ordered_from(i as int + 1),
        ensures
            final(self).len_spec() == old(self).len_spec(),
            final(self).ordered_from(i as int),
            final(self).model() == old(self).model(),
    {
        let mut curr = i;
        let mut ci = self.highest_priority_child(curr);
        let mut done: bool = false;
        while !done && ci > 0
            invariant
                D >= 1,
                self.len_spec() == old(self).len_spec(),
                i as int <= curr as int && (curr as int) < self.len_spec(),
                self.model() == old(self).model(),
                forall|c: int|
                    1 <= c < self.len_spec() && dary_parent_idx(D as int, c) >= i as int
                        && dary_parent_idx(D as int, c) != curr as int ==> self.val(
                        dary_parent_idx(D as int, c),
                    ) >= #[trigger] self.val(c),
                !done && ci != 0 ==> {
                    &&& (D as int) * (curr as int) + 1 <= ci as int <= (D as int) * (curr as int)
                        + (D as int)
                    &&& (ci as int) < self.len_spec()
                    &&& dary_parent_idx(D as int, ci as int) == curr as int
                    &&& forall|c: int|
                        (D as int) * (curr as int) + 1 <= c <= (D as int) * (curr as int) + (
                        D as int) && c < self.len_spec() ==> #[trigger] self.val(c) <= self.val(
                            ci as int,
                        )
                },
                !done && ci == 0 ==> (D as int) * (curr as int) + 1 >= self.len_spec(),
                done ==> forall|c: int|
                    1 <= c < self.len_spec() && dary_parent_idx(D as int, c) == curr as int
                        ==> self.val(dary_parent_idx(D as int, c)) >= #[trigger] self.val(c),
                curr as int > i as int ==> forall|c: int|
                    1 <= c < self.len_spec() && dary_parent_idx(D as int, c) == curr as int
                        ==> self.val(dary_parent_idx(D as int, curr as int)) >= #[trigger] self.val(
                        c,
                    ),
            decreases 2 * (self.len_spec() - curr as int) + (if done {
                0int
            } else {
                1int
            }),
        {
            if self.data[ci] <= self.data[curr] {
                proof {
                    assert forall|c: int|
                        1 <= c < self.len_spec() && dary_parent_idx(D as int, c)
                            == curr as int implies self.val(dary_parent_idx(D as int, c))
                        >= #[trigger] self.val(c) by {
                        lemma_dary_parent_children(D as int, c);
                    }
                }
                done = true;
            } else {
                let ghost pre = *self;
                let a = self.data[curr];
                let b = self.data[ci];
                self.data[curr] = b;
                self.data[ci] = a;
                proof {
                    let p = curr as int;
                    let q = ci as int;
                    let di = D as int;
                    assert(self.seq_spec() =~= pre.seq_spec().update(p, pre.seq_spec()[q]).update(
                        q,
                        pre.seq_spec()[p],
                    ));
                    lemma_swap_to_multiset(pre.seq_spec(), p, q);
                    assert(self.val(p) == pre.val(q) && self.val(q) == pre.val(p));
                    assert forall|c: int|
                        0 <= c < self.len_spec() && c != p && c != q implies #[trigger] self.val(c)
                            == pre.val(c) by {}
                    assert forall|c: int|
                        1 <= c < self.len_spec() && dary_parent_idx(di, c) >= i as int
                            && dary_parent_idx(di, c) != q implies self.val(
                            dary_parent_idx(di, c),
                        ) >= #[trigger] self.val(c) by {
                        lemma_dary_parent_children(di, c);
                        if c == q {
                            assert(dary_parent_idx(di, q) == p);
                        } else if c == p {
                            assert(p > 0 ==> pre.val(dary_parent_idx(di, p)) >= pre.val(q));
                        } else if dary_parent_idx(di, c) == p {
                            assert(pre.val(c) <= pre.val(q));
                        } else {
                            assert(pre.val(dary_parent_idx(di, c)) >= pre.val(c));
                        }
                    }
                    assert forall|c: int|
                        1 <= c < self.len_spec() && dary_parent_idx(di, c) == q implies self.val(
                        dary_parent_idx(di, q),
                    ) >= #[trigger] self.val(c) by {
                        lemma_dary_parent_children(di, c);
                        assert(pre.val(q) >= pre.val(c));
                    }
                }
                curr = ci;
                ci = self.highest_priority_child(curr);
            }
        }
        proof {
            if !done && ci == 0 {
                assert forall|c: int|
                    1 <= c < self.len_spec() && dary_parent_idx(D as int, c)
                        == curr as int implies self.val(dary_parent_idx(D as int, c))
                    >= #[trigger] self.val(c) by {
                    lemma_dary_parent_children(D as int, c);
                }
            }
        }
    }

    /// Restores the heap order after the element at `i` was appended or
    /// grew, walking the path from `i` to the root and repairing each
    /// violated edge.
    fn bubble_up(&mut self, i: usize)
        requires
            D >= 1,
            i < old(self).len_spec(),
            forall|c: int|
                1 <= c < old(self).len_spec() && c != i as int ==> old(self).val(
                    dary_parent_idx(D as int, c),
                ) >= #[trigger] old(self).val(c),
            i > 0 ==> forall|c: int|
                1 <= c < old(self).len_spec() && dary_parent_idx(D as int, c) == i as int ==> old(
                    self,
                ).val(dary_parent_idx(D as int, i as int)) >= #[trigger] old(self).val(c),
        ensures
            final(self).len_spec() == old(self).len_spec(),
            final(self).heap_ordered(),
            final(self).model() == old(self).model(),
    {
        let mut cur = i;
        while cur > 0
            invariant
                D >= 1,
                self.len_spec() == old(self).len_spec(),
                (cur as int) < self.len_spec(),
                self.model() == old(self).model(),
                forall|c: int|
                    1 <= c < self.len_spec() && c != cur as int ==> self.val(
                        dary_parent_idx(D as int, c),
                    ) >= #[trigger] self.val(c),
                cur > 0 ==> forall|c: int|
                    1 <= c < self.len_spec() && dary_parent_idx(D as int, c) == cur as int
                        ==> self.val(dary_parent_idx(D as int, cur as int)) >= #[trigger] self.val(
                        c,
                    ),
            decreases cur,
        {
            let pi = Self::parent(cur);
            let ghost pre = *self;
            if self.data[pi] < self.data[cur] {
                let a = self.data[pi];
                let b = self.data[cur];
                self.data[pi] = b;
                self.data[cur] = a;
                proof {
                    let p = pi as int;
                    let q = cur as int;
                    let di = D as int;
                    assert(self.seq_spec() =~= pre.seq_spec().update(p, pre.seq_spec()[q]).update(
                        q,
                        pre.seq_spec()[p],
                    ));
                    lemma_swap_to_multiset(pre.seq_spec(), p, q);
                    lemma_dary_parent_children(di, q);
                    assert forall|c: int|
                        0 <= c < self.len_spec() && c != p && c != q implies #[trigger] self.val(c)
                            == pre.val(c) by {}
                    assert forall|c: int|
                        1 <= c < self.len_spec() && c != p implies self.val(
                            dary_parent_idx(di, c),
                        ) >= #[trigger] self.val(c) by {
                        lemma_dary_parent_children(di, c);
                        if c == q {
                            assert(dary_parent_idx(di, q) == p);
                        } else if dary_parent_idx(di, c) == q {
                            assert(pre.val(dary_parent_idx(di, q)) >= pre.val(c));
                        } else if dary_parent_idx(di, c) == p {
                            assert(pre.val(p) >= pre.val(c));
                        } else {
                            assert(pre.val(dary_parent_idx(di, c)) >= pre.val(c));
                        }
                    }
                    if p > 0 {
                        assert forall|c: int|
                            1 <= c < self.len_spec() && dary_parent_idx(di, c) == p implies self.val(
                            dary_parent_idx(di, p),
                        ) >= #[trigger] self.val(c) by {
                            lemma_dary_parent_children(di, c);
                            lemma_dary_parent_children(di, p);
                            assert(pre.val(dary_parent_idx(di, p)) >= pre.val(p));
                            if c != q {
                                assert(pre.val(p) >= pre.val(c));
                            }
                        }
                    }
                }
            } else {
                proof {
                    let p = pi as int;
                    let q = cur as int;
                    let di = D as int;
                    lemma_dary_parent_children(di, q);
                    assert forall|c: int|
                        1 <= c < self.len_spec() && c != p implies self.val(
                            dary_parent_idx(di, c),
                        ) >= #[trigger] self.val(c) by {}
                    if p > 0 {
                        assert forall|c: int|
                            1 <= c < self.len_spec() && dary_parent_idx(di, c) == p implies self.val(
                            dary_parent_idx(di, p),
                        ) >= #[trigger] self.val(c) by {
                            lemma_dary_parent_children(di, c);
                            lemma_dary_parent_children(di, p);
                            assert(self.val(dary_parent_idx(di, p)) >= self.val(p));
                            if c != q {
                                assert(self.val(p) >= self.val(c));
                            }
                        }
                    }
                }
            }
            cur = pi;
        }
    }

    /// Appends `val` and restores the heap order. The model grows by
    /// exactly `val`.
    pub fn insert(&mut self, val: u64)
        requires
            old(self).wf(),
        ensures
            final(self).wf(),
            final(self).len_spec() == old(self).len_spec() + 1,
            final(self).model() == old(self).model().insert(val),
    {
        broadcast use vstd::seq_lib::group_to_multiset_ensures;

        self.data.push(val);
        let n = self.data.len();
        proof {
            let di = D as int;
            let idx = n as int - 1;
            assert(self.seq_spec() =~= old(self).seq_spec().push(val));
            assert forall|c: int|
                1 <= c < self.len_spec() && c != idx implies self.val(dary_parent_idx(di, c))
                    >= #[trigger] self.val(c) by {
                lemma_dary_parent_children(di, c);
                assert(old(self).val(dary_parent_idx(di, c)) >= old(self).val(c));
            }
            assert forall|c: int|
                1 <= c < self.len_spec() && dary_parent_idx(di, c) == idx implies false by {
                lemma_dary_parent_children(di, c);
                assert(c >= di * idx + 1);
                assert(di * idx + 1 >= idx + 1) by (nonlinear_arith)
                    requires
                        di >= 1,
                        idx >= 0,
                ;
            }
        }
        self.bubble_up(n - 1);
    }

    /// The root dominates every stored element.
    proof fn lemma_dary_root_max(self)
        requires
            self.wf(),
            self.len_spec() > 0,
        ensures
            forall|i: int| 0 <= i < self.len_spec() ==> #[trigger] self.val(i) <= self.val(0),
    {
        assert forall|i: int|
            0 <= i < self.len_spec() implies #[trigger] self.val(i) <= self.val(0) by {
            self.lemma_dary_chain(i);
        }
    }

    proof fn lemma_dary_chain(self, i: int)
        requires
            self.wf(),
            0 <= i < self.len_spec(),
        ensures
            self.val(i) <= self.val(0),
        decreases i,
    {
        if i > 0 {
            lemma_dary_parent_children(D as int, i);
            assert(self.val(dary_parent_idx(D as int, i)) >= self.val(i));
            self.lemma_dary_chain(dary_parent_idx(D as int, i));
        }
    }

    /// The greatest stored element, if any.
    pub fn peek(&self) -> (r: Option<&u64>)
        requires
            self.wf(),
        ensures
            r is Some <==> self.len_spec() > 0,
            r matches Some(v) ==> *v == self.val(0) && self.model().contains(*v) && forall|x: u64|
                self.model().contains(x) ==> x <= *v,
    {
        broadcast use vstd::seq_lib::group_to_multiset_ensures;

        if self.data.len() == 0 {
            None
        } else {
            proof {
                self.lemma_dary_root_max();
                assert(self.seq_spec().contains(self.val(0))) by {
                    assert(self.seq_spec()[0] == self.val(0));
                }
                assert forall|x: u64| self.model().contains(x) implies x <= self.val(0) by {
                    assert(self.seq_spec().contains(x));
                    let j = choose|j: int|
                        0 <= j < self.seq_spec().len() && self.seq_spec()[j] == x;
                    assert(self.val(j) <= self.val(0));
                }
            }
            Some(&self.data[0])
        }
    }

    /// Removes and returns the greatest stored element; `None` when the
    /// heap is empty. The model shrinks by exactly the returned element.
    pub fn pop(&mut self) -> (r: Option<u64>)
        requires
            old(self).wf(),
        ensures
            final(self).wf(),
            old(self).len_spec() == 0 ==> r is None && final(self).len_spec() == 0,
            old(self).len_spec() > 0 ==> {
                &&& r matches Some(v) && old(self).model().contains(v) && (forall|x: u64|
                    old(self).model().contains(x) ==> x <= v) && final(self).model() == old(
                    self,
                ).model().remove(v)
                &&& final(self).len_spec() == old(self).len_spec() - 1
            },
    {
        broadcast use vstd::seq_lib::group_to_multiset_ensures;

        proof {
            if old(self).len_spec() > 0 {
                self.lemma_dary_root_max();
                assert(old(self).seq_spec().contains(old(self).val(0))) by {
                    assert(old(self).seq_spec()[0] == old(self).val(0));
                }
                assert forall|x: u64| old(self).model().contains(x) implies x <= old(self).val(
                    0,
                ) by {
                    assert(old(self).seq_spec().contains(x));
                    let j = choose|j: int|
                        0 <= j < old(self).seq_spec().len() && old(self).seq_spec()[j] == x;
                    assert(old(self).val(j) <= old(self).val(0));
                }
            }
        }
        let n = self.data.len();
        if n <= 1 {
            let r = self.data.pop();
            proof {
                if n == 1 {
                    assert(old(self).seq_spec() =~= Seq::<u64>::empty().push(old(self).val(0)));
                    assert(old(self).model() == Seq::<u64>::empty().to_multiset().insert(
                        old(self).val(0),
                    ));
                    lemma_empty_multiset(self.seq_spec());
                    assert(self.model() =~= old(self).model().remove(old(self).val(0)));
                }
            }
            r
        } else {
            let a = self.data[0];
            let b = self.data[n - 1];
            self.data[0] = b;
            self.data[n - 1] = a;
            let r = self.data.pop();
            let popped = match r {
                Some(x) => x,
                None => vstd::pervasive::unreached(),
            };
            proof {
                let s = old(self).seq_spec();
                let m = s.len() as int;
                let sw = s.update(0, s[m - 1]).update(m - 1, s[0]);
                assert(popped == s[0]);
                assert(self.seq_spec() =~= sw.remove(m - 1));
                lemma_swap_to_multiset(s, 0, m - 1);
                assert(sw.remove(m - 1).to_multiset() == sw.to_multiset().remove(sw[m - 1]));
                assert(sw[m - 1] == s[0]);
                assert(self.model() == old(self).model().remove(popped));
                let di = D as int;
                assert forall|c: int|
                    1 <= c < self.len_spec() && dary_parent_idx(di, c) >= 1 implies self.val(
                    dary_parent_idx(di, c),
                ) >= #[trigger] self.val(c) by {
                    lemma_dary_parent_children(di, c);
                    assert(self.val(c) == old(self).val(c));
                    assert(self.val(dary_parent_idx(di, c)) == old(self).val(
                        dary_parent_idx(di, c),
                    ));
                    assert(old(self).val(dary_parent_idx(di, c)) >= old(self).val(c));
                }
            }
            self.bubble_down(0);
            Some(popped)
        }
    }

    /// The number of stored elements.
    pub fn len(&self) -> (n: usize)
        ensures
            n == self.len_spec(),
    {
        self.data.len()
    }

    /// Builds a heap from an arbitrary array, heapifying bottom-up.
    /// The model is exactly the multiset of the array's elements.
    pub fn from_vec(vec: Vec<u64>) -> (h: Self)
        requires
            D >= 1,
        ensures
            h.wf(),
            h.len_spec() == vec@.len(),
            h.model() == vec@.to_multiset(),
    {
        let mut h = DWayHeap { data: vec };
        let len = h.data.len();
        if len > 1 {
            let mut i: usize = (len - 1) / D + 1;
            proof {
                let di = D as int;
                let q = (len - 1) as int / di;
                vstd::arithmetic::div_mod::lemma_fundamental_div_mod((len - 1) as int, di);
                vstd::arithmetic::div_mod::lemma_mod_bound((len - 1) as int, di);
                vstd::arithmetic::div_mod::lemma_div_pos_is_pos((len - 1) as int, di);
                assert forall|c: int|
                    1 <= c < h.len_spec() && dary_parent_idx(di, c) >= i as int implies h.val(
                    dary_parent_idx(di, c),
                ) >= #[trigger] h.val(c) by {
                    lemma_dary_parent_children(di, c);
                    let p = dary_parent_idx(di, c);
                    assert(c >= di * p + 1);
                    assert(di * p >= di * q + di) by (nonlinear_arith)
                        requires
                            di >= 1,
                            p >= q + 1,
                    ;
                    assert(di * q >= (len - 1) as int - (di - 1));
                    assert(false);
                }
            }
            while i > 0
                invariant
                    D >= 1,
                    h.len_spec() == len,
                    len > 1,
                    i <= len,
                    h.seq_spec().to_multiset() == vec@.to_multiset(),
                    h.ordered_from(i as int),
                decreases i,
            {
                i = i - 1;
                h.bubble_down(i);
            }
        }
        proof {
            if len <= 1 {
                assert(h.ordered_from(0)) by {
                    assert forall|c: int|
                        1 <= c < h.len_spec() && dary_parent_idx(D as int, c) >= 0 implies h.val(
                        dary_parent_idx(D as int, c),
                    ) >= #[trigger] h.val(c) by {}
                }
            }
        }
        h
    }
}

/// The multiset of an empty sequence is empty.
proof fn lemma_empty_multiset(s: Seq<u64>)
    requires
        s.len() == 0,
    ensures
        s.to_multiset() == Multiset::<u64>::empty(),
{
    broadcast use vstd::seq_lib::group_to_multiset_ensures;

    assert forall|x: u64| s.to_multiset().count(x) == 0 by {
        assert(!s.contains(x));
    }
    assert(s.to_multiset() =~= Multiset::<u64>::empty());
}

} // verus!
