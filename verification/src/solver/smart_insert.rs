//! The insertion solver: B is kept as a descending ring, and each step moves
//! to it the element of A that is cheapest to put in its place.

use vstd::prelude::*;
use vstd::arithmetic::div_mod::lemma_mod_bound;
use crate::instruction::Instruction;
use crate::sequence::{
    apart, ascent, distinct, down_ring, fits_at, last_max_at, lemma_crossing,
    lemma_reverse_sorted, lemma_rotated_neighbours, lemma_rotated_none, lemma_rotated_twice,
    lemma_sorted_down_by_neighbours, ring_index,
    ring_next, rotated, seam, sorted, sorted_down,
};
use crate::stack::Stack;
use crate::utils::{
    lemma_replay_concat, lemma_replay_push, lemma_replay_reverse_a, lemma_replay_reverse_b,
    lemma_replay_reverse_both, lemma_replay_rotate_a, lemma_replay_rotate_b,
    lemma_replay_rotate_both, lemma_replay_rotations, lemma_replay_three, repeat_n, repeated,
    replay, solved,
};

verus! {

/// The offsets from the top of A that a step looks at: from this one ...
pub const WINDOW_FROM: isize = -100;

/// ... up to this one, which is left out.
pub const WINDOW_TO: isize = 100;

/// The distance between two counts.
pub open spec fn gap(x: int, y: int) -> int {
    if x >= y {
        x - y
    } else {
        y - x
    }
}

/// The single rotations that stay unpaired when A is to turn by `rot_a` and
/// B by `rot_b`: first with both turning forwards, then with both turning
/// backwards.
pub open spec fn rotation_costs_of(a_len: int, b_len: int, rot_a: int, rot_b: int) -> (int, int) {
    (gap(rot_a, rot_b), gap(a_len - rot_a, b_len - rot_b))
}

/// The first place of the ring of `b` where `x` fits.
pub open spec fn first_fit(b: Seq<u32>, x: u32) -> int {
    choose|i: int| fits_at(b, x, i) && forall|j: int| 1 <= j < i ==> !fits_at(b, x, j)
}

/// The index of the last occurrence of the largest element.
pub open spec fn last_max_index(s: Seq<u32>) -> int {
    choose|i: int| last_max_at(s, i)
}

/// By how much B turns before it takes `x`: to the first place where `x`
/// fits; where it fits nowhere, to the largest element; not at all when B is
/// empty.
pub open spec fn landing(b: Seq<u32>, x: u32) -> int {
    if exists|i: int| fits_at(b, x, i) {
        first_fit(b, x)
    } else if b.len() > 0 {
        last_max_index(b)
    } else {
        0
    }
}

/// What a step would do with the element at offset `d` from the top of A:
/// the turn of A, the turn of B, and the element.
pub open spec fn candidate(a: Seq<u32>, b: Seq<u32>, d: int) -> (int, int, u32) {
    let rot_a = ring_index(d, a.len() as int);
    (rot_a, landing(b, a[rot_a]), a[rot_a])
}

/// The cost of a candidate: the unpaired rotations of its cheaper direction.
pub open spec fn cost_of(a_len: int, b_len: int, c: (int, int, u32)) -> int {
    let costs = rotation_costs_of(a_len, b_len, c.0, c.1);
    if costs.0 <= costs.1 {
        costs.0
    } else {
        costs.1
    }
}

/// Candidate `c` is to be preferred to `other`: it costs less, or as much
/// with a smaller element.
pub open spec fn precedes(a_len: int, b_len: int, c: (int, int, u32), other: (int, int, u32)) -> bool {
    cost_of(a_len, b_len, c) < cost_of(a_len, b_len, other) || (cost_of(a_len, b_len, c)
        == cost_of(a_len, b_len, other) && c.2 < other.2)
}

/// Offset `d` is the choice among the offsets below `to`: no candidate there
/// is preferred to it, and it is preferred to every one at a smaller offset.
pub open spec fn best_up_to(a: Seq<u32>, b: Seq<u32>, d: int, to: int) -> bool {
    &&& WINDOW_FROM <= d < to
    &&& forall|e: int|
        WINDOW_FROM <= e < to ==> !precedes(
            a.len() as int,
            b.len() as int,
            #[trigger] candidate(a, b, e),
            candidate(a, b, d),
        )
    &&& forall|e: int|
        WINDOW_FROM <= e < d ==> precedes(
            a.len() as int,
            b.len() as int,
            candidate(a, b, d),
            #[trigger] candidate(a, b, e),
        )
}

/// The offset that a step chooses.
pub open spec fn best_offset(a: Seq<u32>, b: Seq<u32>) -> int {
    choose|d: int| best_up_to(a, b, d, WINDOW_TO as int)
}

/// The smaller of two counts.
pub open spec fn lesser(x: int, y: int) -> int {
    if x <= y {
        x
    } else {
        y
    }
}

/// The moves of one step: the paired rotations of the cheaper direction,
/// the rotations of A alone, those of B alone, and the push.
pub open spec fn step_moves(a_len: int, b_len: int, rot_a: int, rot_b: int) -> Seq<Instruction> {
    let costs = rotation_costs_of(a_len, b_len, rot_a, rot_b);
    if costs.0 <= costs.1 {
        let both = lesser(rot_a, rot_b);
        repeated(Instruction::RotateBoth, both as nat) + repeated(
            Instruction::RotateA,
            (rot_a - both) as nat,
        ) + repeated(Instruction::RotateB, (rot_b - both) as nat) + seq![Instruction::PushB]
    } else {
        let back_a = a_len - rot_a;
        let back_b = b_len - rot_b;
        let both = lesser(back_a, back_b);
        repeated(Instruction::ReverseRotateBoth, both as nat) + repeated(
            Instruction::ReverseRotateA,
            (back_a - both) as nat,
        ) + repeated(Instruction::ReverseRotateB, (back_b - both) as nat) + seq![
            Instruction::PushB,
        ]
    }
}

/// The shorter way to bring index `at` of B, which holds `len` elements, to
/// the top: the move to repeat, and how often.
pub open spec fn shortest_rotation_of(len: int, at: int) -> (Instruction, int) {
    if at > len / 2 {
        (Instruction::ReverseRotateB, len - at)
    } else {
        (Instruction::RotateB, at)
    }
}

/// The moves that empty B once A is empty: B turns its largest element to
/// the top, then every element goes over to A.
pub open spec fn finish_moves(b: Seq<u32>) -> Seq<Instruction> {
    if b.len() == 0 {
        Seq::empty()
    } else {
        let turn = shortest_rotation_of(b.len() as int, last_max_index(b));
        repeated(turn.0, turn.1 as nat) + repeated(Instruction::PushA, b.len())
    }
}

/// The moves of the insertion solver for A holding `a` and B holding `b`.
pub open spec fn smart_plan(a: Seq<u32>, b: Seq<u32>) -> Seq<Instruction>
    decreases a.len(),
{
    if a.len() == 0 {
        finish_moves(b)
    } else {
        let c = candidate(a, b, best_offset(a, b));
        proof {
            lemma_mod_bound(best_offset(a, b), a.len() as int);
        }
        step_moves(a.len() as int, b.len() as int, c.0, c.1) + smart_plan(
            rotated(a, c.0).drop_first(),
            seq![c.2] + rotated(b, c.1),
        )
    }
}

/// A sequence that is not empty has a last occurrence of its largest element.
pub proof fn lemma_last_max_exists(s: Seq<u32>)
    requires
        s.len() > 0,
    ensures
        last_max_at(s, last_max_index(s)),
    decreases s.len(),
{
    if s.len() == 1 {
        assert(last_max_at(s, 0));
    } else {
        let t = s.drop_last();
        lemma_last_max_exists(t);
        let i = last_max_index(t);
        let x = s.last();
        if x >= t[i] {
            assert(last_max_at(s, s.len() - 1)) by {
                assert forall|j: int| 0 <= j < s.len() implies x >= #[trigger] s[j] by {
                    if j < t.len() {
                        assert(t[i] >= t[j]);
                    }
                }
            }
        } else {
            assert(last_max_at(s, i)) by {
                assert forall|j: int| 0 <= j < s.len() implies s[i] >= s[j] by {
                    if j < t.len() {
                        assert(t[i] >= t[j]);
                    }
                }
                assert forall|j: int| i < j < s.len() implies s[i] > s[j] by {
                    if j < t.len() {
                        assert(t[i] > t[j]);
                    }
                }
            }
        }
    }
}

proof fn lemma_first_fit_exists(b: Seq<u32>, x: u32, i: int)
    requires
        fits_at(b, x, i),
    ensures
        fits_at(b, x, first_fit(b, x)),
        forall|j: int| 1 <= j < first_fit(b, x) ==> !fits_at(b, x, j),
    decreases i,
{
    if exists|j: int| 1 <= j < i && fits_at(b, x, j) {
        let j = choose|j: int| 1 <= j < i && fits_at(b, x, j);
        lemma_first_fit_exists(b, x, j);
    } else {
        assert(fits_at(b, x, i) && forall|j: int| 1 <= j < i ==> !fits_at(b, x, j));
    }
}

/// Where B turns to before it takes `x`.
pub proof fn lemma_landing(b: Seq<u32>, x: u32)
    ensures
        0 <= landing(b, x) <= b.len(),
        (exists|i: int| fits_at(b, x, i)) ==> fits_at(b, x, landing(b, x)) && forall|j: int|
            1 <= j < landing(b, x) ==> !fits_at(b, x, j),
        !(exists|i: int| fits_at(b, x, i)) && b.len() > 0 ==> last_max_at(b, landing(b, x)),
        !(exists|i: int| fits_at(b, x, i)) && b.len() == 0 ==> landing(b, x) == 0,
{
    if exists|i: int| fits_at(b, x, i) {
        let i = choose|i: int| fits_at(b, x, i);
        lemma_first_fit_exists(b, x, i);
    } else if b.len() > 0 {
        lemma_last_max_exists(b);
    }
}

/// Only one offset is the choice.
proof fn lemma_best_offset_unique(a: Seq<u32>, b: Seq<u32>, d: int)
    requires
        best_up_to(a, b, d, WINDOW_TO as int),
    ensures
        best_offset(a, b) == d,
{
    let chosen = best_offset(a, b);
    if chosen < d {
        assert(precedes(
            a.len() as int,
            b.len() as int,
            candidate(a, b, d),
            candidate(a, b, chosen),
        ));
    } else if d < chosen {
        assert(precedes(
            a.len() as int,
            b.len() as int,
            candidate(a, b, chosen),
            candidate(a, b, d),
        ));
    }
}

/// The moves of a step that turns forwards: paired rotations, then those of
/// A alone, then those of B alone.
proof fn lemma_forward_replay(a: Seq<u32>, b: Seq<u32>, rot_a: int, rot_b: int)
    requires
        0 <= rot_a <= a.len(),
        0 <= rot_b <= b.len(),
    ensures
        ({
            let both = lesser(rot_a, rot_b);
            replay(
                repeated(Instruction::RotateBoth, both as nat) + repeated(
                    Instruction::RotateA,
                    (rot_a - both) as nat,
                ) + repeated(Instruction::RotateB, (rot_b - both) as nat),
                a,
                b,
            ) == (rotated(a, rot_a), rotated(b, rot_b))
        }),
{
    let both = lesser(rot_a, rot_b);
    let first = repeated(Instruction::RotateBoth, both as nat);
    let second = repeated(Instruction::RotateA, (rot_a - both) as nat);
    let third = repeated(Instruction::RotateB, (rot_b - both) as nat);
    let a1 = rotated(a, both);
    let b1 = rotated(b, both);
    let a2 = rotated(a, rot_a);
    let b2 = rotated(b, rot_b);
    assert(a1.len() == a.len() && b1.len() == b.len() && a2.len() == a.len());
    lemma_replay_rotate_both(both as nat, a, b);
    lemma_replay_rotate_a((rot_a - both) as nat, a1, b1);
    lemma_rotated_twice(a, both, rot_a - both);
    lemma_replay_rotate_b((rot_b - both) as nat, a2, b1);
    lemma_rotated_twice(b, both, rot_b - both);
    lemma_replay_three(first, second, third, (a, b), (a1, b1), (a2, b1), (a2, b2));
}

/// The moves of a step that turns backwards.
proof fn lemma_backward_replay(a: Seq<u32>, b: Seq<u32>, rot_a: int, rot_b: int)
    requires
        0 <= rot_a <= a.len(),
        0 <= rot_b <= b.len(),
    ensures
        ({
            let both = lesser(a.len() - rot_a, b.len() - rot_b);
            replay(
                repeated(Instruction::ReverseRotateBoth, both as nat) + repeated(
                    Instruction::ReverseRotateA,
                    (a.len() - rot_a - both) as nat,
                ) + repeated(Instruction::ReverseRotateB, (b.len() - rot_b - both) as nat),
                a,
                b,
            ) == (rotated(a, rot_a), rotated(b, rot_b))
        }),
{
    let back_a = a.len() - rot_a;
    let back_b = b.len() - rot_b;
    let both = lesser(back_a, back_b);
    let first = repeated(Instruction::ReverseRotateBoth, both as nat);
    let second = repeated(Instruction::ReverseRotateA, (back_a - both) as nat);
    let third = repeated(Instruction::ReverseRotateB, (back_b - both) as nat);
    let a1 = rotated(a, a.len() - both);
    let b1 = rotated(b, b.len() - both);
    let a2 = rotated(a, rot_a);
    let b2 = rotated(b, rot_b);
    assert(a1.len() == a.len() && b1.len() == b.len() && a2.len() == a.len());
    lemma_replay_reverse_both(both as nat, a, b);
    lemma_replay_reverse_a((back_a - both) as nat, a1, b1);
    lemma_turned_back_twice(a, both, back_a - both);
    lemma_replay_reverse_b((back_b - both) as nat, a2, b1);
    lemma_turned_back_twice(b, both, back_b - both);
    lemma_replay_three(first, second, third, (a, b), (a1, b1), (a2, b1), (a2, b2));
}

/// Turning back by `i` places and then by `j` is turning back by `i + j`.
proof fn lemma_turned_back_twice(s: Seq<u32>, i: int, j: int)
    requires
        0 <= i,
        0 <= j,
        i + j <= s.len(),
    ensures
        rotated(rotated(s, s.len() - i), s.len() - j) == rotated(s, s.len() - (i + j)),
{
    lemma_rotated_twice(s, s.len() - i, s.len() - j);
    lemma_rotated_none(s);
    if i + j == 0 {
        assert(rotated(rotated(s, s.len() - i), s.len() - j) == rotated(s, s.len() as int));
    }
}

/// One step's moves turn A by `rot_a`, B by `rot_b`, and push.
pub proof fn lemma_step_moves_replay(a: Seq<u32>, b: Seq<u32>, rot_a: int, rot_b: int)
    requires
        0 <= rot_a < a.len(),
        0 <= rot_b <= b.len(),
    ensures
        replay(step_moves(a.len() as int, b.len() as int, rot_a, rot_b), a, b) == (
            rotated(a, rot_a).drop_first(),
            seq![a[rot_a]] + rotated(b, rot_b),
        ),
{
    let moves = step_moves(a.len() as int, b.len() as int, rot_a, rot_b);
    let turns = moves.drop_last();
    lemma_forward_replay(a, b, rot_a, rot_b);
    lemma_backward_replay(a, b, rot_a, rot_b);
    let costs = rotation_costs_of(a.len() as int, b.len() as int, rot_a, rot_b);
    if costs.0 <= costs.1 {
        let both = lesser(rot_a, rot_b);
        assert(turns =~= repeated(Instruction::RotateBoth, both as nat) + repeated(
            Instruction::RotateA,
            (rot_a - both) as nat,
        ) + repeated(Instruction::RotateB, (rot_b - both) as nat));
    } else {
        let both = lesser(a.len() - rot_a, b.len() - rot_b);
        assert(turns =~= repeated(Instruction::ReverseRotateBoth, both as nat) + repeated(
            Instruction::ReverseRotateA,
            (a.len() - rot_a - both) as nat,
        ) + repeated(Instruction::ReverseRotateB, (b.len() - rot_b - both) as nat));
    }
    assert(replay(turns, a, b) == (rotated(a, rot_a), rotated(b, rot_b)));
    assert(moves.last() == Instruction::PushB);
}

/// A descending ring of distinct elements, turned to its largest element, is
/// sorted downwards.
pub proof fn lemma_down_ring_from_max(b: Seq<u32>, r: int)
    requires
        down_ring(b),
        distinct(b),
        last_max_at(b, r),
    ensures
        sorted_down(rotated(b, r)),
{
    let e = rotated(b, r);
    let n = b.len() as int;
    if n >= 2 {
        let cut = seam(r, n);
        assert(ascent(b, cut)) by {
            if r == 0 {
                assert(b[n - 1] <= b[0]);
            } else {
                assert(b[r - 1] <= b[r]);
            }
        }
        assert forall|j: int| 0 <= j < e.len() - 1 implies #[trigger] e[j] >= e[j + 1] by {
            lemma_rotated_neighbours(b, r, j);
            let p = if r + j + 1 <= n {
                r + j + 1
            } else {
                r + j + 1 - n
            };
            assert(!ascent(b, p));
        }
    }
    lemma_sorted_down_by_neighbours(e);
}

/// Place `q` of the ring of `x` on top of `b` turned by `r`, where it lies
/// between two elements of `b`, is a place of the ring of `b` that is not
/// the seam; and two such places come from two places.
proof fn lemma_inner_place(b: Seq<u32>, x: u32, r: int, q: int) -> (p: int)
    requires
        0 <= r <= b.len(),
        2 <= q <= b.len(),
    ensures
        p == if r + q - 1 <= b.len() {
            r + q - 1
        } else {
            r + q - 1 - b.len()
        },
        1 <= p <= b.len(),
        p != seam(r, b.len() as int),
        ascent(seq![x] + rotated(b, r), q) == ascent(b, p),
{
    lemma_rotated_neighbours(b, r, q - 2);
    let c = seq![x] + rotated(b, r);
    assert(c[q - 1] == rotated(b, r)[q - 2]);
    assert(ring_next(c, q) == rotated(b, r)[q - 1]);
    if r + q - 1 <= b.len() {
        r + q - 1
    } else {
        r + q - 1 - b.len()
    }
}

/// Where `x` fits at place `r` of a descending ring, the ring turned to
/// that place with `x` on top is a descending ring.
proof fn lemma_fit_keeps_down_ring(b: Seq<u32>, x: u32, r: int)
    requires
        down_ring(b),
        fits_at(b, x, r),
    ensures
        down_ring(seq![x] + rotated(b, r)),
{
    let n = b.len() as int;
    let e = rotated(b, r);
    let c = seq![x] + e;
    assert(c[1] == e[0] && e[0] == ring_next(b, r));
    assert(c[n] == e[n - 1] && e[n - 1] == b[r - 1]);
    assert(!ascent(c, 1));
    assert(!ascent(c, n + 1));
    assert forall|q1: int, q2: int| ascent(c, q1) && ascent(c, q2) implies q1 == q2 by {
        let first_place = lemma_inner_place(b, x, r, q1);
        let second_place = lemma_inner_place(b, x, r, q2);
        assert(ascent(b, first_place) && ascent(b, second_place));
    }
}

/// Where `x` fits nowhere in a descending ring of distinct elements, the
/// ring turned to its largest element with `x` on top is a descending ring.
proof fn lemma_misfit_keeps_down_ring(b: Seq<u32>, x: u32, r: int)
    requires
        down_ring(b),
        distinct(b),
        b.len() >= 2,
        forall|i: int| !fits_at(b, x, i),
        last_max_at(b, r),
    ensures
        down_ring(seq![x] + rotated(b, r)),
{
    let n = b.len() as int;
    let e = rotated(b, r);
    let c = seq![x] + e;
    lemma_down_ring_from_max(b, r);
    assert forall|q: int| 2 <= q <= n implies !ascent(c, q) by {
        assert(c[q - 1] == e[q - 2] && ring_next(c, q) == e[q - 1]);
        assert(e[q - 2] >= e[q - 1]);
    }
    assert(c[1] == e[0] && c[n] == e[n - 1]);
    if ascent(c, 1) && ascent(c, n + 1) {
        let t = lemma_crossing(e, x, 0, n - 1);
        lemma_rotated_neighbours(b, r, t);
        let p = if r + t + 1 <= n {
            r + t + 1
        } else {
            r + t + 1 - n
        };
        assert(fits_at(b, x, p));
    }
}

/// A descending ring stays one when it turns to where `x` lands and takes
/// `x` on top.
pub proof fn lemma_landing_keeps_down_ring(b: Seq<u32>, x: u32)
    requires
        down_ring(b),
        distinct(b),
        forall|j: int| 0 <= j < b.len() ==> b[j] != x,
    ensures
        down_ring(seq![x] + rotated(b, landing(b, x))),
{
    lemma_landing(b, x);
    let r = landing(b, x);
    if b.len() == 0 {
    } else if exists|i: int| fits_at(b, x, i) {
        lemma_fit_keeps_down_ring(b, x, r);
    } else if b.len() == 1 {
        let c = seq![x] + rotated(b, r);
        assert(c[0] == x && c[1] == b[0]);
    } else {
        lemma_misfit_keeps_down_ring(b, x, r);
    }
}

/// A step keeps the elements of A and B distinct and apart.
pub proof fn lemma_step_keeps_apart(a: Seq<u32>, b: Seq<u32>, rot_a: int, rot_b: int)
    requires
        apart(a, b),
        0 <= rot_a < a.len(),
        0 <= rot_b <= b.len(),
    ensures
        apart(rotated(a, rot_a).drop_first(), seq![a[rot_a]] + rotated(b, rot_b)),
{
    let a1 = rotated(a, rot_a).drop_first();
    let b1 = seq![a[rot_a]] + rotated(b, rot_b);
    let from_a = |i: int|
        if i + 1 < a.len() - rot_a {
            rot_a + i + 1
        } else {
            i + 1 - (a.len() - rot_a)
        };
    let from_b = |j: int|
        if j - 1 < b.len() - rot_b {
            rot_b + j - 1
        } else {
            j - 1 - (b.len() - rot_b)
        };
    assert forall|i: int| 0 <= i < a1.len() implies a1[i] == a[from_a(i)] && from_a(i) != rot_a
        && 0 <= from_a(i) < a.len() by {}
    assert forall|j: int| 1 <= j < b1.len() implies b1[j] == b[from_b(j)] && 0 <= from_b(j)
        < b.len() by {}
    assert forall|i: int, j: int| 0 <= i < j < a1.len() implies a1[i] != a1[j] by {
        assert(from_a(i) != from_a(j));
    }
    assert forall|i: int, j: int| 0 <= i < j < b1.len() implies b1[i] != b1[j] by {
        if i >= 1 {
            assert(from_b(i) != from_b(j));
        }
    }
    assert forall|i: int, j: int| 0 <= i < a1.len() && 0 <= j < b1.len() implies a1[i]
        != b1[j] by {
        assert(a1[i] == a[from_a(i)]);
        if j >= 1 {
            assert(b1[j] == b[from_b(j)]);
        }
    }
}

/// Pushing everything from B to A puts the elements of B on A in reverse.
pub proof fn lemma_replay_push_a(n: nat, a: Seq<u32>, b: Seq<u32>)
    requires
        n <= b.len(),
    ensures
        replay(repeated(Instruction::PushA, n), a, b) == (
            b.subrange(0, n as int).reverse() + a,
            b.subrange(n as int, b.len() as int),
        ),
    decreases n,
{
    if n == 0 {
        assert(b.subrange(0, 0).reverse() + a =~= a);
        assert(b.subrange(0, b.len() as int) =~= b);
    } else {
        let m = (n - 1) as nat;
        lemma_replay_push_a(m, a, b);
        assert(repeated(Instruction::PushA, n) =~= repeated(Instruction::PushA, m).push(
            Instruction::PushA,
        ));
        lemma_replay_push(repeated(Instruction::PushA, m), Instruction::PushA, a, b);
        let a1 = b.subrange(0, m as int).reverse() + a;
        let b1 = b.subrange(m as int, b.len() as int);
        assert(seq![b1[0]] + a1 =~= b.subrange(0, n as int).reverse() + a);
        assert(b1.drop_first() =~= b.subrange(n as int, b.len() as int));
    }
}

/// The last moves sort: with A empty and B a descending ring of distinct
/// elements, they leave A sorted and B empty.
pub proof fn lemma_finish_solves(b: Seq<u32>)
    requires
        down_ring(b),
        distinct(b),
    ensures
        solved(
            replay(finish_moves(b), Seq::empty(), b).0,
            replay(finish_moves(b), Seq::empty(), b).1,
        ),
{
    let none = Seq::<u32>::empty();
    if b.len() > 0 {
        lemma_last_max_exists(b);
        let m = last_max_index(b);
        let turn = shortest_rotation_of(b.len() as int, m);
        let first = repeated(turn.0, turn.1 as nat);
        let second = repeated(Instruction::PushA, b.len());
        lemma_replay_rotations(turn.1 as nat, none, b);
        let e = rotated(b, m);
        assert(replay(first, none, b) == (none, e));
        lemma_down_ring_from_max(b, m);
        lemma_replay_push_a(e.len(), none, e);
        lemma_replay_concat(first, second, none, b);
        lemma_reverse_sorted(e);
        assert(e.subrange(0, e.len() as int) =~= e);
        assert(e.reverse() + none =~= e.reverse());
    }
}

/// The moves of the insertion solver solve the puzzle from any position in
/// which B is a descending ring and no element occurs twice.
pub proof fn lemma_smart_plan_solves(a: Seq<u32>, b: Seq<u32>)
    requires
        apart(a, b),
        down_ring(b),
    ensures
        solved(replay(smart_plan(a, b), a, b).0, replay(smart_plan(a, b), a, b).1),
    decreases a.len(),
{
    if a.len() == 0 {
        lemma_finish_solves(b);
        assert(a =~= Seq::empty());
    } else {
        let d = best_offset(a, b);
        lemma_mod_bound(d, a.len() as int);
        let c = candidate(a, b, d);
        lemma_landing(b, c.2);
        let moves = step_moves(a.len() as int, b.len() as int, c.0, c.1);
        let a1 = rotated(a, c.0).drop_first();
        let b1 = seq![c.2] + rotated(b, c.1);
        lemma_step_moves_replay(a, b, c.0, c.1);
        lemma_step_keeps_apart(a, b, c.0, c.1);
        lemma_landing_keeps_down_ring(b, c.2);
        lemma_smart_plan_solves(a1, b1);
        lemma_replay_concat(moves, smart_plan(a1, b1), a, b);
    }
}

/// Replayed on A holding distinct elements and an empty B, the moves of the
/// insertion solver solve the puzzle.
pub proof fn lemma_smart_plan_solves_distinct(a: Seq<u32>)
    requires
        distinct(a),
    ensures
        solved(
            replay(smart_plan(a, Seq::empty()), a, Seq::empty()).0,
            replay(smart_plan(a, Seq::empty()), a, Seq::empty()).1,
        ),
{
    lemma_smart_plan_solves(a, Seq::empty());
}

/// The shorter way to bring index `at` of `stack` to the top, as a move on B
/// and the number of times to make it.
pub fn shortest_rotation<S: Stack>(stack: &S, at: usize) -> (turn: (Instruction, usize))
    requires
        at <= stack@.len(),
    ensures
        (turn.0, turn.1 as int) == shortest_rotation_of(stack@.len() as int, at as int),
{
    let len = stack.len();
    let mid = len / 2;
    if at > mid {
        (Instruction::ReverseRotateB, len - at)
    } else {
        (Instruction::RotateB, at)
    }
}

/// The unpaired rotations that are left when A turns by `rot_a` and B by
/// `rot_b`, forwards and backwards.
pub fn rotation_costs(a_len: usize, b_len: usize, rot_a: usize, rot_b: usize) -> (costs: (
    usize,
    usize,
))
    requires
        rot_a <= a_len,
        rot_b <= b_len,
    ensures
        (costs.0 as int, costs.1 as int) == rotation_costs_of(
            a_len as int,
            b_len as int,
            rot_a as int,
            rot_b as int,
        ),
{
    let rrot_a = a_len - rot_a;
    let rrot_b = b_len - rot_b;
    let rot_cost = if rot_a >= rot_b {
        rot_a - rot_b
    } else {
        rot_b - rot_a
    };
    let rrot_cost = if rrot_a >= rrot_b {
        rrot_a - rrot_b
    } else {
        rrot_b - rrot_a
    };
    (rot_cost, rrot_cost)
}

/// By how much `side` turns before it takes `x`.
pub fn landing_place<S: Stack>(side: &S, x: u32) -> (place: usize)
    ensures
        place as int == landing(side@, x),
        place <= side@.len(),
{
    proof {
        lemma_landing(side@, x);
    }
    match side.insert_index(x) {
        Some(i) => {
            assert(fits_at(side@, x, i as int));
            i
        },
        None => {
            match side.maximum() {
                Some((_, idx)) => idx,
                None => 0,
            }
        },
    }
}

/// What a step would do with the element at offset `d` from the top of
/// `stack`: the turn of `stack`, the turn of `side`, the element, and the
/// cost.
fn weigh<S: Stack>(stack: &S, side: &S, d: isize) -> (c: (usize, usize, u32, usize))
    requires
        stack@.len() > 0,
    ensures
        (c.0 as int, c.1 as int, c.2) == candidate(stack@, side@, d as int),
        c.3 as int == cost_of(
            stack@.len() as int,
            side@.len() as int,
            candidate(stack@, side@, d as int),
        ),
        c.0 < stack@.len(),
        c.1 <= side@.len(),
{
    let a_len = stack.len();
    let b_len = side.len();
    let x = stack.peek(d);
    let rot_a = crate::sequence::ring_place(d, a_len);
    let rot_b = landing_place(side, x);
    let (rot_cost, rrot_cost) = rotation_costs(a_len, b_len, rot_a, rot_b);
    let cost = if rot_cost <= rrot_cost {
        rot_cost
    } else {
        rrot_cost
    };
    (rot_a, rot_b, x, cost)
}

/// The moves of one step.
fn step<S: Stack>(stack: &S, side: &S, rot_a: usize, rot_b: usize) -> (moves: Vec<Instruction>)
    requires
        rot_a <= stack@.len(),
        rot_b <= side@.len(),
    ensures
        moves@ == step_moves(
            stack@.len() as int,
            side@.len() as int,
            rot_a as int,
            rot_b as int,
        ),
{
    let a_len = stack.len();
    let b_len = side.len();
    let (rot_cost, rrot_cost) = rotation_costs(a_len, b_len, rot_a, rot_b);
    let mut moves: Vec<Instruction>;
    if rot_cost <= rrot_cost {
        let rot_both = if rot_a <= rot_b {
            rot_a
        } else {
            rot_b
        };
        moves = repeat_n(Instruction::RotateBoth, rot_both);
        let mut a_only = repeat_n(Instruction::RotateA, rot_a - rot_both);
        let mut b_only = repeat_n(Instruction::RotateB, rot_b - rot_both);
        moves.append(&mut a_only);
        moves.append(&mut b_only);
    } else {
        let rrot_a = a_len - rot_a;
        let rrot_b = b_len - rot_b;
        let rot_both = if rrot_a <= rrot_b {
            rrot_a
        } else {
            rrot_b
        };
        moves = repeat_n(Instruction::ReverseRotateBoth, rot_both);
        let mut a_only = repeat_n(Instruction::ReverseRotateA, rrot_a - rot_both);
        let mut b_only = repeat_n(Instruction::ReverseRotateB, rrot_b - rot_both);
        moves.append(&mut a_only);
        moves.append(&mut b_only);
    }
    moves.push(Instruction::PushB);
    moves
}

/// The step to make: by how much `stack` and `side` turn before the top of
/// `stack` goes over.
fn choose_step<S: Stack>(stack: &S, side: &S) -> (turns: (usize, usize))
    requires
        stack@.len() > 0,
    ensures
        turns.0 as int == candidate(stack@, side@, best_offset(stack@, side@)).0,
        turns.1 as int == candidate(stack@, side@, best_offset(stack@, side@)).1,
        turns.0 < stack@.len(),
        turns.1 <= side@.len(),
{
    let mut best = weigh(stack, side, WINDOW_FROM);
    let ghost mut best_d: int = WINDOW_FROM as int;
    let mut d: isize = WINDOW_FROM + 1;
    while d < WINDOW_TO
        invariant
            WINDOW_FROM < d <= WINDOW_TO,
            stack@.len() > 0,
            best_up_to(stack@, side@, best_d, d as int),
            (best.0 as int, best.1 as int, best.2) == candidate(stack@, side@, best_d),
            best.3 as int == cost_of(
                stack@.len() as int,
                side@.len() as int,
                candidate(stack@, side@, best_d),
            ),
            best.0 < stack@.len(),
            best.1 <= side@.len(),
        decreases WINDOW_TO - d,
    {
        let c = weigh(stack, side, d);
        if c.3 < best.3 || (c.3 == best.3 && c.2 < best.2) {
            best = c;
            proof {
                best_d = d as int;
            }
        }
        d += 1;
    }
    proof {
        lemma_best_offset_unique(stack@, side@, best_d);
    }
    (best.0, best.1)
}

/// Solves the puzzle for `stack` by insertion into a descending ring on B.
/// The result is fixed for every stack; it sorts where no element occurs
/// twice.
pub fn smart_insert<S: Stack>(stack: S) -> (instrs: Vec<Instruction>)
    ensures
        instrs@ == smart_plan(stack@, Seq::empty()),
        distinct(stack@) ==> solved(
            replay(instrs@, stack@, Seq::empty()).0,
            replay(instrs@, stack@, Seq::empty()).1,
        ),
{
    let ghost start = stack@;
    let mut stack = stack;
    let mut side = S::new();
    let mut instrs: Vec<Instruction> = Vec::new();
    while stack.len() > 0
        invariant
            smart_plan(start, Seq::empty()) =~= instrs@ + smart_plan(stack@, side@),
        decreases stack@.len(),
    {
        let (rot_a, rot_b) = choose_step(&stack, &side);
        let mut moves = step(&stack, &side, rot_a, rot_b);
        instrs.append(&mut moves);
        stack.rotate_n(rot_a);
        if let Some(x) = stack.pop() {
            side.rotate_n(rot_b);
            side.push(x);
        }
    }
    let mut last = finish(&side);
    instrs.append(&mut last);
    proof {
        if distinct(start) {
            lemma_smart_plan_solves_distinct(start);
        }
    }
    instrs
}

/// The moves that empty `side` onto a stack that is empty.
fn finish<S: Stack>(side: &S) -> (moves: Vec<Instruction>)
    ensures
        moves@ == finish_moves(side@),
{
    let mut moves: Vec<Instruction> = Vec::new();
    if let Some((_, max_idx)) = side.maximum() {
        let (instr, n) = shortest_rotation(side, max_idx);
        moves = repeat_n(instr, n);
        proof {
            lemma_last_max_exists(side@);
        }
    }
    let mut back = repeat_n(Instruction::PushA, side.len());
    moves.append(&mut back);
    moves
}

} // verus!
