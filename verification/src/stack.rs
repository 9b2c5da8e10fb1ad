//! The stack abstraction: one set of moves and queries, answered by three
//! containers. Every contract speaks of the stack's view, the sequence of its
//! elements from the top down.

use vstd::prelude::*;
use crate::text::rendered;
use crate::sequence::{
    fits_at, last_max_at, last_min_at, reverse_rotated_once, ring_index, rotated, rotated_once,
    sole_descent, sorted, swapped,
};

pub mod linked_list;
pub mod vec;
pub mod vec_deque;

pub use self::linked_list::LLStack;
pub use self::vec::VecStack;
pub use self::vec_deque::VDStack;

verus! {

/// A stack of numbers with its top at index 0 of the view.
pub trait Stack: Sized {
    /// The elements from the top down.
    spec fn view(&self) -> Seq<u32>;

    /// The empty stack.
    fn new() -> (s: Self)
        ensures
            s@ == Seq::<u32>::empty(),
    ;

    /// The stack that holds `items`, the first of them on top.
    fn from_vec(items: Vec<u32>) -> (s: Self)
        ensures
            s@ == items@,
    ;

    /// The elements from the top down.
    fn to_vec(&self) -> (items: Vec<u32>)
        ensures
            items@ == self@,
    ;

    /// A second stack with the same elements.
    fn duplicate(&self) -> (s: Self)
        ensures
            s@ == self@,
    ;

    /// Whether both stacks hold the same elements in the same order.
    fn equals(&self, other: &Self) -> (same: bool)
        ensures
            same == (self@ == other@),
    ;

    /// The elements in decimal on one line, from the top down. The empty
    /// stack gives the empty text.
    fn to_string(&self) -> (text: String)
        ensures
            text@ == rendered(self@),
    ;

    /// Puts `val` on top.
    fn push(&mut self, val: u32)
        ensures
            final(self)@ == seq![val] + old(self)@,
    ;

    /// Takes the top element off, if there is one.
    fn pop(&mut self) -> (top: Option<u32>)
        ensures
            match top {
                Some(x) => old(self)@.len() > 0 && x == old(self)@[0] && final(self)@ == old(
                    self,
                )@.drop_first(),
                None => old(self)@.len() == 0 && final(self)@ == old(self)@,
            },
    ;

    /// Exchanges the two topmost elements; does nothing to a shorter stack.
    fn swap(&mut self)
        ensures
            final(self)@ == swapped(old(self)@),
    ;

    /// Moves the top element to the bottom.
    fn rotate(&mut self)
        ensures
            final(self)@ == rotated_once(old(self)@),
    ;

    /// Moves the bottom element to the top.
    fn reverse_rotate(&mut self)
        ensures
            final(self)@ == reverse_rotated_once(old(self)@),
    ;

    /// The number of elements.
    fn len(&self) -> (n: usize)
        ensures
            n == self@.len(),
    ;

    /// Whether the elements never descend from the top down.
    fn is_sorted(&self) -> (yes: bool)
        ensures
            yes == sorted(self@),
    ;

    /// The pivot: the one place in the ring of elements where a larger element
    /// is followed by a smaller one. Nothing if there is no such place or
    /// more than one.
    fn sorted_at(&self) -> (pivot: Option<usize>)
        ensures
            match pivot {
                Some(i) => sole_descent(self@, i as int),
                None => forall|i: int| !sole_descent(self@, i),
            },
    ;

    /// The smallest element and the index of its last occurrence.
    fn minimum(&self) -> (found: Option<(u32, usize)>)
        ensures
            match found {
                Some((x, i)) => last_min_at(self@, i as int) && x == self@[i as int],
                None => self@.len() == 0,
            },
    ;

    /// The largest element and the index of its last occurrence.
    fn maximum(&self) -> (found: Option<(u32, usize)>)
        ensures
            match found {
                Some((x, i)) => last_max_at(self@, i as int) && x == self@[i as int],
                None => self@.len() == 0,
            },
    ;

    /// Moves the `n` topmost elements to the bottom, keeping their order.
    fn rotate_n(&mut self, n: usize)
        requires
            n <= old(self)@.len(),
        ensures
            final(self)@ == rotated(old(self)@, n as int),
    ;

    /// Moves the `n` bottommost elements to the top, keeping their order.
    fn reverse_rotate_n(&mut self, n: usize)
        requires
            n <= old(self)@.len(),
        ensures
            final(self)@ == rotated(old(self)@, old(self)@.len() - n),
    ;

    /// The first place in the ring of elements where `t` fits between an
    /// element that is no smaller and a following one that is no larger.
    fn insert_index(&self, t: u32) -> (place: Option<usize>)
        ensures
            match place {
                Some(i) => fits_at(self@, t, i as int) && forall|j: int|
                    1 <= j < i ==> !fits_at(self@, t, j),
                None => forall|j: int| !fits_at(self@, t, j),
            },
    ;

    /// The element `d` places below the top, counted round the ring; a
    /// negative `d` counts upwards from the top, through the bottom.
    fn peek(&self, d: isize) -> (x: u32)
        requires
            self@.len() > 0,
        ensures
            x == self@[ring_index(d as int, self@.len() as int)],
    ;
}

} // verus!
