//! The stack with both ends at hand, turned one element at a time.

use std::collections::VecDeque;
use vstd::prelude::*;
use crate::sequence::{
    descent, fits_at, last_max_at, last_min_at, lemma_rotated_none, lemma_rotated_step,
    lemma_rotated_step_back, lemma_sorted_by_neighbours, reverse_rotated_once, ring_place, rotated,
    rotated_once, swapped,
};
use crate::stack::Stack;

verus! {

/// A stack for which every single move takes constant time. A rotation by
/// several places is made one element after the other.
#[derive(Debug, Default, PartialEq, Eq, Hash, Clone)]
pub struct LLStack(VecDeque<u32>);

impl LLStack {
    /// The container behind the stack, its first element the top.
    pub fn raw(&self) -> (items: &VecDeque<u32>)
        ensures
            items@ == self@,
    {
        &self.0
    }
}

impl Stack for LLStack {
    closed spec fn view(&self) -> Seq<u32> {
        self.0@
    }

    fn new() -> (s: Self) {
        LLStack(VecDeque::new())
    }

    fn from_vec(items: Vec<u32>) -> (s: Self) {
        let mut ring: VecDeque<u32> = VecDeque::new();
        let n = items.len();
        let mut i: usize = 0;
        while i < n
            invariant
                i <= n,
                n == items@.len(),
                ring@ == items@.subrange(0, i as int),
            decreases n - i,
        {
            ring.push_back(items[i]);
            assert(ring@ =~= items@.subrange(0, i + 1));
            i += 1;
        }
        assert(items@.subrange(0, n as int) =~= items@);
        LLStack(ring)
    }

    fn to_vec(&self) -> (items: Vec<u32>) {
        let mut items: Vec<u32> = Vec::new();
        let n = self.0.len();
        let mut i: usize = 0;
        while i < n
            invariant
                i <= n,
                n == self.0@.len(),
                items@ == self.0@.subrange(0, i as int),
            decreases n - i,
        {
            items.push(self.0[i]);
            assert(items@ =~= self.0@.subrange(0, i + 1));
            i += 1;
        }
        assert(self.0@.subrange(0, n as int) =~= self.0@);
        items
    }

    fn duplicate(&self) -> (s: Self) {
        let ring = self.0.clone();
        assert(ring@ =~= self.0@);
        LLStack(ring)
    }

    fn equals(&self, other: &Self) -> (same: bool) {
        let n = self.0.len();
        if n != other.0.len() {
            return false;
        }
        let mut i: usize = 0;
        while i < n
            invariant
                i <= n,
                n == self.0@.len(),
                n == other.0@.len(),
                forall|j: int| 0 <= j < i ==> self.0@[j] == other.0@[j],
            decreases n - i,
        {
            if self.0[i] != other.0[i] {
                return false;
            }
            i += 1;
        }
        assert(self.0@ =~= other.0@);
        true
    }


    fn to_string(&self) -> (text: String) {
        crate::text::render(&self.to_vec())
    }

    fn push(&mut self, val: u32) {
        self.0.push_front(val);
    }

    fn pop(&mut self) -> (top: Option<u32>) {
        let top = self.0.pop_front();
        assert(top.is_some() ==> self.0@ =~= old(self).0@.drop_first());
        top
    }

    fn swap(&mut self) {
        if self.0.len() >= 2 {
            let first = self.0.pop_front();
            let second = self.0.pop_front();
            if let (Some(a), Some(b)) = (first, second) {
                self.0.push_front(a);
                self.0.push_front(b);
                assert(self.0@ =~= swapped(old(self).0@));
            }
        }
    }

    fn rotate(&mut self) {
        if let Some(front) = self.0.pop_front() {
            self.0.push_back(front);
            assert(self.0@ =~= rotated_once(old(self).0@));
        }
    }

    fn reverse_rotate(&mut self) {
        if let Some(back) = self.0.pop_back() {
            self.0.push_front(back);
            assert(self.0@ =~= reverse_rotated_once(old(self).0@));
        }
    }

    fn len(&self) -> (n: usize) {
        self.0.len()
    }

    fn is_sorted(&self) -> (yes: bool) {
        let n = self.0.len();
        let mut i: usize = 1;
        while i < n
            invariant
                1 <= i,
                n == self.0@.len(),
                forall|j: int| 0 <= j < i - 1 && j < n - 1 ==> #[trigger] self.0@[j] <= self.0@[j + 1],
            decreases n - i,
        {
            if self.0[i - 1] > self.0[i] {
                return false;
            }
            i += 1;
        }
        proof {
            lemma_sorted_by_neighbours(self.0@);
        }
        true
    }

    fn sorted_at(&self) -> (pivot: Option<usize>) {
        let n = self.0.len();
        let mut pivot: Option<usize> = None;
        let mut i: usize = 0;
        while i < n
            invariant
                i <= n,
                n == self.0@.len(),
                match pivot {
                    Some(p) => descent(self.0@, p as int) && p <= i && forall|j: int|
                        1 <= j <= i && descent(self.0@, j) ==> j == p,
                    None => forall|j: int| 1 <= j <= i ==> !descent(self.0@, j),
                },
            decreases n - i,
        {
            let right = if i + 1 == n {
                self.0[0]
            } else {
                self.0[i + 1]
            };
            if self.0[i] > right {
                assert(descent(self.0@, i + 1));
                if pivot.is_some() {
                    return None;
                } else {
                    pivot = Some(i + 1);
                }
            }
            i += 1;
        }
        pivot
    }

    fn minimum(&self) -> (found: Option<(u32, usize)>) {
        let n = self.0.len();
        if n == 0 {
            return None;
        }
        let mut at: usize = 0;
        let mut i: usize = 1;
        while i < n
            invariant
                1 <= i <= n,
                n == self.0@.len(),
                last_min_at(self.0@.subrange(0, i as int), at as int),
            decreases n - i,
        {
            if self.0[i] <= self.0[at] {
                at = i;
            }
            i += 1;
        }
        assert(self.0@.subrange(0, n as int) =~= self.0@);
        Some((self.0[at], at))
    }

    fn maximum(&self) -> (found: Option<(u32, usize)>) {
        let n = self.0.len();
        if n == 0 {
            return None;
        }
        let mut at: usize = 0;
        let mut i: usize = 1;
        while i < n
            invariant
                1 <= i <= n,
                n == self.0@.len(),
                last_max_at(self.0@.subrange(0, i as int), at as int),
            decreases n - i,
        {
            if self.0[i] >= self.0[at] {
                at = i;
            }
            i += 1;
        }
        assert(self.0@.subrange(0, n as int) =~= self.0@);
        Some((self.0[at], at))
    }

    fn rotate_n(&mut self, n: usize) {
        let mut i: usize = 0;
        proof {
            lemma_rotated_none(self@);
        }
        while i < n
            invariant
                i <= n <= old(self)@.len(),
                self@ == rotated(old(self)@, i as int),
            decreases n - i,
        {
            proof {
                lemma_rotated_step(old(self)@, i as int);
            }
            self.rotate();
            i += 1;
        }
    }

    fn reverse_rotate_n(&mut self, n: usize) {
        let mut i: usize = 0;
        proof {
            lemma_rotated_none(self@);
        }
        while i < n
            invariant
                i <= n <= old(self)@.len(),
                self@ == rotated(old(self)@, old(self)@.len() - i),
            decreases n - i,
        {
            proof {
                lemma_rotated_step_back(old(self)@, old(self)@.len() - i);
            }
            self.reverse_rotate();
            i += 1;
        }
    }

    fn insert_index(&self, t: u32) -> (place: Option<usize>) {
        let n = self.0.len();
        let mut i: usize = 0;
        while i < n
            invariant
                i <= n,
                n == self.0@.len(),
                forall|j: int| 1 <= j <= i ==> !fits_at(self.0@, t, j),
            decreases n - i,
        {
            let right = if i + 1 == n {
                self.0[0]
            } else {
                self.0[i + 1]
            };
            if self.0[i] >= t && right <= t {
                return Some(i + 1);
            }
            i += 1;
        }
        None
    }

    fn peek(&self, d: isize) -> (x: u32) {
        let index = ring_place(d, self.0.len());
        self.0[index]
    }
}

} // verus!
