//! What the moves and queries mean on a plain sequence of numbers, top first.

use vstd::prelude::*;

verus! {

/// The elements never descend.
pub open spec fn sorted(s: Seq<u32>) -> bool {
    forall|i: int, j: int| 0 <= i <= j < s.len() ==> s[i] <= s[j]
}

/// The elements never ascend.
pub open spec fn sorted_down(s: Seq<u32>) -> bool {
    forall|i: int, j: int| 0 <= i <= j < s.len() ==> s[i] >= s[j]
}

/// No element occurs twice.
pub open spec fn distinct(s: Seq<u32>) -> bool {
    forall|i: int, j: int| 0 <= i < j < s.len() ==> s[i] != s[j]
}

/// The two first elements exchanged.
pub open spec fn swapped(s: Seq<u32>) -> Seq<u32> {
    if s.len() < 2 {
        s
    } else {
        s.update(0, s[1]).update(1, s[0])
    }
}

/// The first `k` elements moved behind the others.
pub open spec fn rotated(s: Seq<u32>, k: int) -> Seq<u32>
    recommends
        0 <= k <= s.len(),
{
    s.subrange(k, s.len() as int) + s.subrange(0, k)
}

/// The first element moved behind the others.
pub open spec fn rotated_once(s: Seq<u32>) -> Seq<u32> {
    if s.len() == 0 {
        s
    } else {
        s.drop_first().push(s[0])
    }
}

/// The last element moved before the others.
pub open spec fn reverse_rotated_once(s: Seq<u32>) -> Seq<u32> {
    if s.len() == 0 {
        s
    } else {
        seq![s.last()] + s.drop_last()
    }
}

/// The index that `d` stands for in a ring of `len` places.
pub open spec fn ring_index(d: int, len: int) -> int
    recommends
        len > 0,
{
    d % len
}

/// The element after place `i` of the ring, places counted from 1: at place
/// `len` the last element is followed by the first.
pub open spec fn ring_next(s: Seq<u32>, i: int) -> u32
    recommends
        1 <= i <= s.len(),
{
    if i == s.len() {
        s[0]
    } else {
        s[i]
    }
}

/// At place `i` of the ring, counted from 1, an element is followed by a
/// smaller one.
pub open spec fn descent(s: Seq<u32>, i: int) -> bool {
    1 <= i <= s.len() && s[i - 1] > ring_next(s, i)
}

/// Place `i` is a descent and the ring has no other.
pub open spec fn sole_descent(s: Seq<u32>, i: int) -> bool {
    descent(s, i) && forall|j: int| descent(s, j) ==> j == i
}

/// Index `i` holds the smallest element, and no later index does.
pub open spec fn last_min_at(s: Seq<u32>, i: int) -> bool {
    &&& 0 <= i < s.len()
    &&& forall|j: int| 0 <= j < s.len() ==> s[i] <= s[j]
    &&& forall|j: int| i < j < s.len() ==> s[i] < s[j]
}

/// Index `i` holds the largest element, and no later index does.
pub open spec fn last_max_at(s: Seq<u32>, i: int) -> bool {
    &&& 0 <= i < s.len()
    &&& forall|j: int| 0 <= j < s.len() ==> s[i] >= s[j]
    &&& forall|j: int| i < j < s.len() ==> s[i] > s[j]
}

/// At place `i` of the ring, counted from 1, `t` fits between its two
/// neighbours: the one before is no smaller, the one after no larger.
pub open spec fn fits_at(s: Seq<u32>, t: u32, i: int) -> bool {
    1 <= i <= s.len() && s[i - 1] >= t && ring_next(s, i) <= t
}

/// The place of the ring where a rotation by `k` cuts it: the last element
/// of the rotated sequence is followed there by its first.
pub open spec fn seam(k: int, len: int) -> int {
    if k == 0 {
        len
    } else {
        k
    }
}

/// The sequence after `n` single rotations.
pub open spec fn rotated_times(s: Seq<u32>, n: nat) -> Seq<u32>
    decreases n,
{
    if n == 0 {
        s
    } else {
        rotated_once(rotated_times(s, (n - 1) as nat))
    }
}

/// The sequence after `n` single reverse rotations.
pub open spec fn reverse_rotated_times(s: Seq<u32>, n: nat) -> Seq<u32>
    decreases n,
{
    if n == 0 {
        s
    } else {
        reverse_rotated_once(reverse_rotated_times(s, (n - 1) as nat))
    }
}

/// At place `i` of the ring, counted from 1, an element is followed by a
/// larger one.
pub open spec fn ascent(s: Seq<u32>, i: int) -> bool {
    1 <= i <= s.len() && s[i - 1] < ring_next(s, i)
}

/// The ring descends all the way round, but for one place at most.
pub open spec fn down_ring(s: Seq<u32>) -> bool {
    forall|i: int, j: int| ascent(s, i) && ascent(s, j) ==> i == j
}

/// Both sequences hold distinct elements, and they share none.
pub open spec fn apart(a: Seq<u32>, b: Seq<u32>) -> bool {
    &&& distinct(a)
    &&& distinct(b)
    &&& forall|i: int, j: int| 0 <= i < a.len() && 0 <= j < b.len() ==> a[i] != b[j]
}

/// The index in a ring of `len` places that the offset `d` stands for.
pub fn ring_place(d: isize, len: usize) -> (index: usize)
    requires
        len > 0,
    ensures
        index == ring_index(d as int, len as int),
        index < len,
{
    if d >= 0 {
        let index = (d as usize) % len;
        index
    } else {
        // -(d + 1) is between 0 and isize::MAX, so it fits
        let below = (-(d + 1)) as usize;
        let back = below % len;
        let index = len - 1 - back;
        assert(index == ring_index(d as int, len as int)) by {
            lemma_ring_index_negative(d as int, len as int);
        }
        index
    }
}

/// A sequence whose neighbours never descend is sorted.
pub proof fn lemma_sorted_by_neighbours(s: Seq<u32>)
    requires
        forall|j: int| 0 <= j < s.len() - 1 ==> #[trigger] s[j] <= s[j + 1],
    ensures
        sorted(s),
{
    assert forall|i: int, j: int| 0 <= i <= j < s.len() implies s[i] <= s[j] by {
        lemma_neighbours_chain(s, i, j);
    }
}

proof fn lemma_neighbours_chain(s: Seq<u32>, i: int, j: int)
    requires
        forall|k: int| 0 <= k < s.len() - 1 ==> #[trigger] s[k] <= s[k + 1],
        0 <= i <= j < s.len(),
    ensures
        s[i] <= s[j],
    decreases j - i,
{
    if i < j {
        lemma_neighbours_chain(s, i, j - 1);
    }
}

proof fn lemma_ring_index_negative(d: int, len: int)
    requires
        d < 0,
        len > 0,
    ensures
        ring_index(d, len) == len - 1 - ((-(d + 1)) % len),
{
    let m = -(d + 1);
    let q = m / len;
    let r = m % len;
    assert(m == q * len + r) by {
        vstd::arithmetic::div_mod::lemma_fundamental_div_mod(m, len);
    }
    // d = -m - 1 = -(q + 1) * len + (len - 1 - r)
    assert(d == (-(q + 1)) * len + (len - 1 - r)) by (nonlinear_arith)
        requires
            m == q * len + r,
            d == -(m + 1),
    ;
    vstd::arithmetic::div_mod::lemma_fundamental_div_mod_converse(
        d,
        len,
        -(q + 1),
        len - 1 - r,
    );
}

/// Rotating by nothing, or by the whole length, changes nothing.
pub proof fn lemma_rotated_none(s: Seq<u32>)
    ensures
        rotated(s, 0) == s,
        rotated(s, s.len() as int) == s,
{
    assert(rotated(s, 0) =~= s);
    assert(rotated(s, s.len() as int) =~= s);
}

/// One more single rotation turns a rotation by `k` into one by `k + 1`.
pub proof fn lemma_rotated_step(s: Seq<u32>, k: int)
    requires
        0 <= k < s.len(),
    ensures
        rotated_once(rotated(s, k)) == rotated(s, k + 1),
{
    assert(rotated_once(rotated(s, k)) =~= rotated(s, k + 1));
}

/// One single reverse rotation turns a rotation by `k` into one by `k - 1`.
pub proof fn lemma_rotated_step_back(s: Seq<u32>, k: int)
    requires
        0 < k <= s.len(),
    ensures
        reverse_rotated_once(rotated(s, k)) == rotated(s, k - 1),
{
    assert(reverse_rotated_once(rotated(s, k)) =~= rotated(s, k - 1));
}

/// Neighbours `j` and `j + 1` of a rotated sequence are neighbours in the
/// ring of the sequence itself, at a place that is not the seam.
pub proof fn lemma_rotated_neighbours(s: Seq<u32>, k: int, j: int)
    requires
        0 <= k <= s.len(),
        0 <= j < s.len() - 1,
    ensures
        ({
            let p = if k + j + 1 <= s.len() {
                k + j + 1
            } else {
                k + j + 1 - s.len()
            };
            &&& 1 <= p <= s.len()
            &&& p != seam(k, s.len() as int)
            &&& rotated(s, k)[j] == s[p - 1]
            &&& rotated(s, k)[j + 1] == ring_next(s, p)
        }),
{
}

/// Every place of the ring but the seam lies between two neighbours of the
/// rotated sequence.
pub proof fn lemma_place_in_rotation(s: Seq<u32>, k: int, p: int)
    requires
        0 <= k <= s.len(),
        1 <= p <= s.len(),
        p != seam(k, s.len() as int),
    ensures
        ({
            let j = if p > k {
                p - 1 - k
            } else {
                p - 1 - k + s.len()
            };
            &&& 0 <= j < s.len() - 1
            &&& rotated(s, k)[j] == s[p - 1]
            &&& rotated(s, k)[j + 1] == ring_next(s, p)
        }),
{
}

/// A rotation to the pivot sorts the sequence.
pub proof fn lemma_pivot_sorts(s: Seq<u32>, i: int)
    requires
        sole_descent(s, i),
    ensures
        sorted(rotated(s, i)),
{
    let r = rotated(s, i);
    assert forall|j: int| 0 <= j < r.len() - 1 implies #[trigger] r[j] <= r[j + 1] by {
        lemma_rotated_neighbours(s, i, j);
        let p = if i + j + 1 <= s.len() {
            i + j + 1
        } else {
            i + j + 1 - s.len()
        };
        assert(!descent(s, p));
    }
    lemma_sorted_by_neighbours(r);
}

proof fn lemma_sorted_rotation_descents(s: Seq<u32>, k: int, p: int)
    requires
        0 <= k <= s.len(),
        sorted(rotated(s, k)),
        descent(s, p),
    ensures
        p == seam(k, s.len() as int),
{
    if p != seam(k, s.len() as int) {
        lemma_place_in_rotation(s, k, p);
        let j = if p > k {
            p - 1 - k
        } else {
            p - 1 - k + s.len()
        };
        assert(rotated(s, k)[j] <= rotated(s, k)[j + 1]);
    }
}

proof fn lemma_no_descent_all_equal(s: Seq<u32>, p: int, q: int)
    requires
        forall|i: int| !descent(s, i),
        0 <= p < s.len(),
        0 <= q < s.len(),
    ensures
        s[p] == s[q],
{
    assert forall|j: int| 0 <= j < s.len() - 1 implies #[trigger] s[j] <= s[j + 1] by {
        assert(!descent(s, j + 1));
    }
    lemma_sorted_by_neighbours(s);
    assert(!descent(s, s.len() as int));
    assert(s[0] <= s[p] <= s[s.len() - 1]);
    assert(s[0] <= s[q] <= s[s.len() - 1]);
}

/// Where the ring has no pivot and not all elements are equal, no rotation
/// sorts the sequence.
pub proof fn lemma_no_pivot_no_sorting_rotation(s: Seq<u32>, k: int)
    requires
        forall|i: int| !sole_descent(s, i),
        exists|p: int, q: int| 0 <= p < s.len() && 0 <= q < s.len() && s[p] != s[q],
        0 <= k <= s.len(),
    ensures
        !sorted(rotated(s, k)),
{
    let cut = seam(k, s.len() as int);
    if sorted(rotated(s, k)) {
        assert forall|p: int| descent(s, p) implies p == cut by {
            lemma_sorted_rotation_descents(s, k, p);
        }
        if descent(s, cut) {
            assert(sole_descent(s, cut));
        } else {
            let (p, q) = choose|p: int, q: int|
                0 <= p < s.len() && 0 <= q < s.len() && s[p] != s[q];
            lemma_no_descent_all_equal(s, p, q);
        }
    }
}

/// A swap undoes a swap.
pub proof fn lemma_swap_twice(s: Seq<u32>)
    ensures
        swapped(swapped(s)) == s,
{
    assert(swapped(swapped(s)) =~= s);
}

/// A rotation by `k` and a reverse rotation by `k` undo each other, in
/// either order.
pub proof fn lemma_rotate_reverse_rotate(s: Seq<u32>, k: int)
    requires
        0 <= k <= s.len(),
    ensures
        rotated(rotated(s, k), s.len() - k) == s,
        rotated(rotated(s, s.len() - k), k) == s,
{
    assert(rotated(rotated(s, k), s.len() - k) =~= s);
    assert(rotated(rotated(s, s.len() - k), k) =~= s);
}

/// `n` single rotations make a rotation by `n`, and `n` single reverse
/// rotations a rotation by the length less `n`.
pub proof fn lemma_rotated_times(s: Seq<u32>, n: nat)
    requires
        n <= s.len(),
    ensures
        rotated_times(s, n) == rotated(s, n as int),
        reverse_rotated_times(s, n) == rotated(s, s.len() - n),
    decreases n,
{
    lemma_rotated_none(s);
    if n > 0 {
        lemma_rotated_times(s, (n - 1) as nat);
        lemma_rotated_step(s, n - 1);
        lemma_rotated_step_back(s, s.len() - n + 1);
    }
}

/// As many single rotations as the sequence has elements change nothing.
pub proof fn lemma_full_turn(s: Seq<u32>)
    ensures
        rotated_times(s, s.len()) == s,
        reverse_rotated_times(s, s.len()) == s,
{
    lemma_rotated_times(s, s.len());
    lemma_rotated_none(s);
}

/// A sequence whose neighbours never ascend is sorted downwards.
pub proof fn lemma_sorted_down_by_neighbours(s: Seq<u32>)
    requires
        forall|j: int| 0 <= j < s.len() - 1 ==> #[trigger] s[j] >= s[j + 1],
    ensures
        sorted_down(s),
{
    assert forall|i: int, j: int| 0 <= i <= j < s.len() implies s[i] >= s[j] by {
        lemma_neighbours_chain_down(s, i, j);
    }
}

proof fn lemma_neighbours_chain_down(s: Seq<u32>, i: int, j: int)
    requires
        forall|k: int| 0 <= k < s.len() - 1 ==> #[trigger] s[k] >= s[k + 1],
        0 <= i <= j < s.len(),
    ensures
        s[i] >= s[j],
    decreases j - i,
{
    if i < j {
        lemma_neighbours_chain_down(s, i, j - 1);
    }
}

/// Between an element that is no smaller than `x` and a later one that is no
/// larger, two neighbours take `x` between them.
pub proof fn lemma_crossing(e: Seq<u32>, x: u32, lo: int, hi: int) -> (t: int)
    requires
        0 <= lo < hi < e.len(),
        e[lo] >= x,
        x >= e[hi],
    ensures
        lo <= t < hi,
        e[t] >= x,
        x >= e[t + 1],
    decreases hi - lo,
{
    if e[lo + 1] <= x {
        lo
    } else {
        lemma_crossing(e, x, lo + 1, hi)
    }
}

/// The reverse of a sequence sorted downwards is sorted.
pub proof fn lemma_reverse_sorted(s: Seq<u32>)
    requires
        sorted_down(s),
    ensures
        sorted(s.reverse()),
{
}

/// Two rotations one after the other make one rotation.
pub proof fn lemma_rotated_twice(s: Seq<u32>, i: int, j: int)
    requires
        0 <= i <= s.len(),
        0 <= j <= s.len(),
    ensures
        rotated(rotated(s, i), j) == rotated(
            s,
            if i + j <= s.len() {
                i + j
            } else {
                i + j - s.len()
            },
        ),
{
    let k = if i + j <= s.len() {
        i + j
    } else {
        i + j - s.len()
    };
    assert(rotated(rotated(s, i), j) =~= rotated(s, k));
}

/// A rotated sequence holds only elements of the sequence, and so does what
/// is left of it without its first element.
pub proof fn lemma_rotated_elements(s: Seq<u32>, k: int)
    requires
        0 <= k <= s.len(),
    ensures
        forall|x: u32| rotated(s, k).contains(x) ==> s.contains(x),
        s.len() > 0 ==> forall|x: u32| rotated(s, k).drop_first().contains(x) ==> s.contains(x),
{
    let r = rotated(s, k);
    assert forall|x: u32| r.contains(x) implies s.contains(x) by {
        let j = choose|j: int| 0 <= j < r.len() && r[j] == x;
        if j < s.len() - k {
            assert(s[k + j] == x);
        } else {
            assert(s[j - (s.len() - k)] == x);
        }
    }
    if s.len() > 0 {
        assert forall|x: u32| r.drop_first().contains(x) implies s.contains(x) by {
            let j = choose|j: int| 0 <= j < r.drop_first().len() && r.drop_first()[j] == x;
            assert(r[j + 1] == x);
            assert(r.contains(x));
        }
    }
}

/// An element that is no larger than any element of a sorted sequence can
/// go before it.
pub proof fn lemma_least_on_top(m: u32, rest: Seq<u32>)
    requires
        sorted(rest),
        forall|x: u32| rest.contains(x) ==> m <= x,
    ensures
        sorted(seq![m] + rest),
        forall|x: u32| (seq![m] + rest).contains(x) ==> x == m || rest.contains(x),
{
    let whole = seq![m] + rest;
    assert forall|i: int, j: int| 0 <= i <= j < whole.len() implies whole[i] <= whole[j] by {
        if j > 0 {
            assert(whole[j] == rest[j - 1]);
            assert(rest.contains(rest[j - 1]));
            if i > 0 {
                assert(whole[i] == rest[i - 1]);
            }
        }
    }
    assert forall|x: u32| whole.contains(x) implies x == m || rest.contains(x) by {
        let j = choose|j: int| 0 <= j < whole.len() && whole[j] == x;
        if j > 0 {
            assert(rest[j - 1] == x);
        }
    }
}

} // verus!
