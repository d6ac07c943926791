//! The slot state machine of the concurrent heap.
//!
//! Each cell of the heap array holds an [`Item`]: either nothing, a
//! settled element, or an element that some thread is still sifting
//! (tagged with that thread's identity). The sift walks repair the heap
//! order one parent/child pair at a time; the decision taken at each
//! pair is a pure function of the two observed slots and is verified
//! here ([`sift_up_step`], [`sift_down_choose`], [`sift_down_swap_needed`]).
//! The embedding runtime only acquires the locks, calls these steps, and
//! performs the swaps they mandate.

use vstd::prelude::*;

verus! {

/// One cell of the heap array.
#[derive(Clone, Copy, Debug)]
pub enum Item<T> {
    /// The slot holds no element.
    Empty,
    /// The slot holds a settled element participating in the heap order.
    Available(T),
    /// The slot holds an element still being sifted by the thread whose
    /// identity is the second component; its position is not final.
    InProgress(T, u64),
}

impl<T> Item<T> {
    /// Whether the slot holds an element, settled or not.
    pub open spec fn has_val(self) -> bool {
        !(self is Empty)
    }

    /// The element held by a non-`Empty` slot.
    pub open spec fn spec_val(self) -> T
        recommends
            self.has_val(),
    {
        match self {
            Item::Empty => vstd::pervasive::arbitrary(),
            Item::Available(v) => v,
            Item::InProgress(v, _) => v,
        }
    }

    /// The identity of the sifting thread of an `InProgress` slot.
    pub open spec fn spec_owner(self) -> u64
        recommends
            self is InProgress,
    {
        match self {
            Item::Empty => vstd::pervasive::arbitrary(),
            Item::Available(_) => vstd::pervasive::arbitrary(),
            Item::InProgress(_, t) => t,
        }
    }

    /// Empties the slot and yields its element.
    ///
    /// Calling this on an `Empty` slot is an invariant violation, so it
    /// is ruled out by the precondition.
    pub fn take_val(&mut self) -> (v: T)
        requires
            old(self).has_val(),
        ensures
            v == old(self).spec_val(),
            *final(self) is Empty,
    {
        let mut tmp = Item::Empty;
        core::mem::swap(self, &mut tmp);
        match tmp {
            Item::Available(v) => v,
            Item::InProgress(v, _) => v,
            Item::Empty => vstd::pervasive::unreached(),
        }
    }

    /// Settles an `InProgress` slot, keeping its element.
    ///
    /// Calling this on any other slot is an invariant violation, so it
    /// is ruled out by the precondition.
    pub fn make_available(&mut self)
        requires
            *old(self) is InProgress,
        ensures
            *final(self) == Item::Available(old(self).spec_val()),
    {
        let mut tmp = Item::Empty;
        core::mem::swap(self, &mut tmp);
        match tmp {
            Item::InProgress(v, _) => {
                *self = Item::Available(v);
            },
            Item::Available(_) => vstd::pervasive::unreached(),
            Item::Empty => vstd::pervasive::unreached(),
        }
    }

    /// The element of the slot, if any.
    pub fn get_val(&self) -> (r: Option<&T>)
        ensures
            r is Some <==> self.has_val(),
            r matches Some(v) ==> *v == self.spec_val(),
    {
        match self {
            Item::Available(v) => Some(v),
            Item::InProgress(v, _) => Some(v),
            Item::Empty => None,
        }
    }
}

/// What a sift-up iteration decided after inspecting the pair of slots
/// at the current position and at its parent.
pub enum SiftUpOutcome {
    /// The walk is over: either the parent slot was empty (a concurrent
    /// extraction consumed or relocated the element), or the element was
    /// settled in place because the parent dominates it.
    Finished,
    /// The element rose: the two slot contents were exchanged, and the
    /// walk continues from the parent position.
    Swapped,
    /// The parent is itself mid-sift; the caller must release both slots
    /// and retry the same pair.
    Contended,
    /// The element is no longer at this position (a concurrent mutator
    /// moved it upward); the walk continues from the parent position.
    Climb,
}

/// One decision of the sift-up walk on the observed pair
/// `(mine, parent)`, acting for the thread with identity `me`.
///
/// The pair is updated exactly as the protocol mandates: an exchange
/// when the element must rise, a settling when the parent dominates it,
/// and no change otherwise.
pub fn sift_up_step(mine: &mut Item<u64>, parent: &mut Item<u64>, me: u64) -> (r: SiftUpOutcome)
    ensures
        match r {
            SiftUpOutcome::Finished => {
                ||| (*old(parent) is Empty
                    && *final(mine) == *old(mine)
                    && *final(parent) == *old(parent))
                ||| (*old(mine) is InProgress
                    && old(mine).spec_owner() == me
                    && *old(parent) is Available
                    && old(mine).spec_val() <= old(parent).spec_val()
                    && *final(mine) == Item::Available(old(mine).spec_val())
                    && *final(parent) == *old(parent))
            },
            SiftUpOutcome::Swapped => {
                &&& *old(mine) is InProgress
                &&& old(mine).spec_owner() == me
                &&& *old(parent) is Available
                &&& old(mine).spec_val() > old(parent).spec_val()
                &&& *final(mine) == *old(parent)
                &&& *final(parent) == *old(mine)
            },
            SiftUpOutcome::Contended => {
                &&& *old(mine) is InProgress
                &&& old(mine).spec_owner() == me
                &&& *old(parent) is InProgress
                &&& *final(mine) == *old(mine)
                &&& *final(parent) == *old(parent)
            },
            SiftUpOutcome::Climb => {
                &&& old(parent).has_val()
                &&& !(*old(mine) is InProgress && old(mine).spec_owner() == me)
                &&& *final(mine) == *old(mine)
                &&& *final(parent) == *old(parent)
            },
        },
{
    let m = *mine;
    let p = *parent;
    match (m, p) {
        (_, Item::Empty) => SiftUpOutcome::Finished,
        (Item::InProgress(v, t), Item::Available(pv)) => {
            if t == me {
                if v > pv {
                    core::mem::swap(mine, parent);
                    SiftUpOutcome::Swapped
                } else {
                    mine.make_available();
                    SiftUpOutcome::Finished
                }
            } else {
                SiftUpOutcome::Climb
            }
        },
        (Item::InProgress(_, t), Item::InProgress(_, _)) => {
            if t == me {
                SiftUpOutcome::Contended
            } else {
                SiftUpOutcome::Climb
            }
        },
        (_, _) => SiftUpOutcome::Climb,
    }
}

/// Which child the sift-down walk follows, if any.
pub enum ChildChoice {
    /// The left child holds nothing (and a right slot exists): stop.
    NoChild,
    /// Follow the left child.
    Left,
    /// Follow the right child, which strictly dominates the left one.
    Right,
}

/// Chooses the child to compare against during sift-down: the right one
/// only when it strictly dominates the left (ties go left), and none
/// when the left slot is empty while a right slot exists.
pub fn sift_down_choose(left: &Item<u64>, right: Option<&Item<u64>>) -> (r: ChildChoice)
    ensures
        match r {
            ChildChoice::NoChild => right is Some && !left.has_val(),
            ChildChoice::Left => match right {
                None => true,
                Some(rs) => left.has_val() && (!rs.has_val() || rs.spec_val() <= left.spec_val()),
            },
            ChildChoice::Right => right matches Some(rs) && rs.has_val() && left.has_val()
                && rs.spec_val() > left.spec_val(),
        },
{
    match right {
        None => ChildChoice::Left,
        Some(rs) => {
            match (left.get_val(), rs.get_val()) {
                (None, _) => ChildChoice::NoChild,
                (Some(lv), Some(rv)) => {
                    if *rv > *lv {
                        ChildChoice::Right
                    } else {
                        ChildChoice::Left
                    }
                },
                (Some(_), None) => ChildChoice::Left,
            }
        },
    }
}

/// Whether the sift-down walk must exchange the current slot with the
/// chosen child: only when the child holds an element strictly greater
/// than the current one (ties stop the walk).
pub fn sift_down_swap_needed(curr: &Item<u64>, child: &Item<u64>) -> (r: bool)
    requires
        curr.has_val(),
    ensures
        r == (child.has_val() && child.spec_val() > curr.spec_val()),
{
    match child.get_val() {
        Some(c) => {
            let v = match curr.get_val() {
                Some(v) => *v,
                None => vstd::pervasive::unreached(),
            };
            *c > v
        },
        None => false,
    }
}

} // verus!
