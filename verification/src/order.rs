//! Real numbers as integers in the same order, and what only needs that order.
//!
//! The measurements of this crate are IEEE numbers. The rules that compare
//! them work on order keys: an integer for every bit pattern, ascending as the
//! IEEE total order ascends, so that negative numbers come before zero and
//! each number has exactly one key.

use vstd::prelude::*;

verus! {

/// Key of an `f64` bit pattern: the magnitude if the sign bit is clear, and
/// counted down from minus one if it is set.
pub open spec fn key_of(bits: u64) -> int {
    if bits < 0x8000_0000_0000_0000 {
        bits as int
    } else {
        0x8000_0000_0000_0000 - bits - 1
    }
}

/// Key of an `f32` bit pattern.
pub open spec fn key_of_32(bits: u32) -> int {
    if bits < 0x8000_0000 {
        bits as int
    } else {
        0x8000_0000 - bits - 1
    }
}

/// Key of zero, for either width.
pub const ZERO: i64 = 0;

/// Key of plus infinity as an `f32`. Above it are only patterns that are no
/// number.
pub const INFINITY_32: i64 = 0x7F80_0000;

/// Key of minus infinity as an `f64`.
pub const NEG_INFINITY: i64 = -0x7FF0_0000_0000_0001;

/// Key of an `f64`, given by its bits.
pub fn order_key(bits: u64) -> (key: i64)
    ensures
        key == key_of(bits),
{
    if bits < 0x8000_0000_0000_0000 {
        bits as i64
    } else {
        -((bits - 0x8000_0000_0000_0000) as i64) - 1
    }
}

/// Bits of the `f64` with a key.
pub fn key_bits(key: i64) -> (bits: u64)
    ensures
        key_of(bits) == key,
{
    if key >= 0 {
        key as u64
    } else {
        0x8000_0000_0000_0000 + (-(key + 1)) as u64
    }
}

/// Key of an `f32`, given by its bits.
pub fn order_key_32(bits: u32) -> (key: i64)
    ensures
        key == key_of_32(bits),
{
    if bits < 0x8000_0000 {
        bits as i64
    } else {
        0x8000_0000 - bits as i64 - 1
    }
}

/// Bits of the `f32` with a key.
pub fn key_bits_32(key: i64) -> (bits: u32)
    requires
        -0x8000_0000 <= key < 0x8000_0000,
    ensures
        key_of_32(bits) == key,
{
    if key >= 0 {
        key as u32
    } else {
        (0x8000_0000 - key - 1) as u32
    }
}

/// Different numbers have different keys.
pub proof fn law_keys_are_unique(a: u64, b: u64)
    ensures
        key_of(a) == key_of(b) <==> a == b,
        i64::MIN <= key_of(a) <= i64::MAX,
{
}

/// Different `f32` have different keys.
pub proof fn law_keys_are_unique_32(a: u32, b: u32)
    ensures
        key_of_32(a) == key_of_32(b) <==> a == b,
        -0x8000_0000 <= key_of_32(a) < 0x8000_0000,
{
}

/// Of two patterns with the sign bit clear the larger magnitude has the larger
/// key, with the sign bit set it is the other way round, and a set sign bit
/// comes before a clear one.
pub proof fn law_keys_ascend(a: u64, b: u64)
    requires
        a < b,
    ensures
        b < 0x8000_0000_0000_0000 ==> key_of(a) < key_of(b),
        a >= 0x8000_0000_0000_0000 ==> key_of(b) < key_of(a),
        a < 0x8000_0000_0000_0000 <= b ==> key_of(b) < key_of(a),
{
}

/// `i` is the place of the largest key from `from` up to `to`, the last one of
/// several.
pub open spec fn is_last_max(keys: Seq<i64>, from: int, to: int, i: int) -> bool {
    &&& from <= i < to
    &&& forall|j: int| from <= j < to ==> #[trigger] keys[j] <= keys[i]
    &&& forall|j: int| i < j < to ==> #[trigger] keys[j] < keys[i]
}

/// There is only one such place.
pub proof fn lemma_last_max_is_unique(keys: Seq<i64>, from: int, to: int, i: int, j: int)
    requires
        is_last_max(keys, from, to, i),
        is_last_max(keys, from, to, j),
    ensures
        i == j,
{
    if i < j {
        assert(keys[j] < keys[i]);
    } else if j < i {
        assert(keys[i] < keys[j]);
    }
}

/// Place of the largest key from `from` up to `to`, the last one of several.
pub fn last_max(keys: &[i64], from: usize, to: usize) -> (r: usize)
    requires
        from < to <= keys@.len(),
    ensures
        is_last_max(keys@, from as int, to as int, r as int),
{
    let mut best: usize = from;
    let mut i: usize = from + 1;
    while i < to
        invariant
            from <= best < i <= to <= keys@.len(),
            is_last_max(keys@, from as int, i as int, best as int),
        decreases to - i,
    {
        if keys[i] >= keys[best] {
            best = i;
        }
        i += 1;
    }
    best
}

/// `i` put in front of the first place in `order` whose key is smaller.
pub open spec fn placed(order: Seq<int>, keys: Seq<i64>, i: int) -> Seq<int>
    decreases order.len(),
{
    if order.len() > 0 && keys[order.last()] < keys[i] {
        placed(order.drop_last(), keys, i).push(order.last())
    } else {
        order.push(i)
    }
}

/// The first `n` places ordered by descending key; equal keys stay in their
/// order.
pub open spec fn descending(keys: Seq<i64>, n: nat) -> Seq<int>
    decreases n,
{
    if n == 0 {
        Seq::empty()
    } else {
        placed(descending(keys, (n - 1) as nat), keys, n - 1)
    }
}

/// Every place below `n` occurs in `order` exactly once.
pub open spec fn is_arrangement(order: Seq<int>, n: nat) -> bool {
    &&& order.len() == n
    &&& forall|k: int| 0 <= k < n ==> 0 <= #[trigger] order[k] < n
    &&& forall|k: int, l: int| 0 <= k < l < n ==> order[k] != order[l]
    &&& forall|i: int| 0 <= i < n ==> #[trigger] order.contains(i)
}

/// An earlier place has a larger key, or the same and a smaller number.
pub open spec fn is_descending(order: Seq<int>, keys: Seq<i64>) -> bool {
    forall|k: int, l: int|
        0 <= k < l < order.len() ==> {
            ||| keys[order[k]] > keys[order[l]]
            ||| keys[order[k]] == keys[order[l]] && order[k] < order[l]
        }
}

proof fn lemma_placed(order: Seq<int>, keys: Seq<i64>, n: nat)
    requires
        order.len() <= n,
        is_descending(order, keys),
        forall|k: int| 0 <= k < order.len() ==> 0 <= #[trigger] order[k] < n,
        forall|k: int, l: int| 0 <= k < l < order.len() ==> order[k] != order[l],
    ensures
        ({
            let r = placed(order, keys, n as int);
            &&& r.len() == order.len() + 1
            &&& is_descending(r, keys)
            &&& forall|k: int| 0 <= k < r.len() ==> 0 <= #[trigger] r[k] <= n
            &&& forall|k: int, l: int| 0 <= k < l < r.len() ==> r[k] != r[l]
            &&& r.contains(n as int)
            &&& forall|i: int| #[trigger] order.contains(i) ==> r.contains(i)
            &&& forall|i: int| #[trigger] r.contains(i) ==> i == n || order.contains(i)
        }),
    decreases order.len(),
{
    let i = n as int;
    let r = placed(order, keys, i);
    if order.len() > 0 && keys[order.last()] < keys[i] {
        let front = order.drop_last();
        let p = placed(front, keys, i);
        lemma_placed(front, keys, n);
        assert forall|x: int| #[trigger] order.contains(x) implies r.contains(x) by {
            let k = choose|k: int| 0 <= k < order.len() && order[k] == x;
            if k < front.len() {
                assert(front[k] == x);
                assert(front.contains(x));
                let m = choose|m: int| 0 <= m < p.len() && p[m] == x;
                assert(r[m] == x);
            } else {
                assert(r[r.len() - 1] == x);
            }
        }
        assert(r.contains(i)) by {
            let m = choose|m: int| 0 <= m < p.len() && p[m] == i;
            assert(r[m] == i);
        }
        assert forall|x: int| #[trigger] r.contains(x) implies x == n || order.contains(x) by {
            let m = choose|m: int| 0 <= m < r.len() && r[m] == x;
            if m < p.len() {
                assert(p[m] == x);
                assert(p.contains(x));
                if x != n {
                    assert(front.contains(x));
                    let k = choose|k: int| 0 <= k < front.len() && front[k] == x;
                    assert(order[k] == x);
                }
            } else {
                assert(order[order.len() - 1] == x);
            }
        }
        assert forall|k: int, l: int| 0 <= k < l < r.len() implies {
            ||| keys[r[k]] > keys[r[l]]
            ||| keys[r[k]] == keys[r[l]] && r[k] < r[l]
        } by {
            if l < p.len() {
                assert(p[k] == r[k] && p[l] == r[l]);
            } else {
                assert(p[k] == r[k]);
                assert(p.contains(p[k]));
                if r[k] != i {
                    assert(front.contains(p[k]));
                    let m = choose|m: int| 0 <= m < front.len() && front[m] == p[k];
                    assert(order[m] == p[k]);
                }
            }
        }
        assert forall|k: int, l: int| 0 <= k < l < r.len() implies r[k] != r[l] by {
            if l < p.len() {
                assert(p[k] != p[l]);
            } else {
                assert(p.contains(p[k]));
                if p[k] != i {
                    assert(front.contains(p[k]));
                    let m = choose|m: int| 0 <= m < front.len() && front[m] == p[k];
                    assert(order[m] == p[k]);
                }
            }
        }
    } else {
        assert(r[order.len() as int] == i);
        assert forall|x: int| #[trigger] order.contains(x) implies r.contains(x) by {
            let k = choose|k: int| 0 <= k < order.len() && order[k] == x;
            assert(r[k] == x);
        }
        assert forall|x: int| #[trigger] r.contains(x) implies x == n || order.contains(x) by {
            let m = choose|m: int| 0 <= m < r.len() && r[m] == x;
            if m < order.len() {
                assert(order[m] == x);
            }
        }
    }
}

/// The descending order holds every place once, strong before weak, and keeps
/// the order of equals.
pub proof fn law_descending(keys: Seq<i64>, n: nat)
    requires
        n <= keys.len(),
    ensures
        is_arrangement(descending(keys, n), n),
        is_descending(descending(keys, n), keys),
    decreases n,
{
    if n > 0 {
        let before = descending(keys, (n - 1) as nat);
        law_descending(keys, (n - 1) as nat);
        lemma_placed(before, keys, (n - 1) as nat);
        let r = descending(keys, n);
        assert forall|i: int| 0 <= i < n implies #[trigger] r.contains(i) by {
            if i < n - 1 {
                assert(before.contains(i));
            }
        }
    }
}

/// The places of `keys` ordered by descending key; equal keys stay in their
/// order.
pub fn descending_order(keys: &[i64]) -> (order: Vec<usize>)
    ensures
        order@.len() == keys@.len(),
        order@.map_values(|i: usize| i as int) == descending(keys@, keys@.len()),
        forall|k: int| 0 <= k < order@.len() ==> (#[trigger] order@[k]) < keys@.len(),
{
    let mut order: Vec<usize> = Vec::new();
    let mut i: usize = 0;
    assert(order@.map_values(|i: usize| i as int) =~= descending(keys@, 0));
    while i < keys.len()
        invariant
            i <= keys@.len(),
            order@.len() == i,
            order@.map_values(|i: usize| i as int) == descending(keys@, i as nat),
            forall|k: int| 0 <= k < order@.len() ==> (#[trigger] order@[k]) < i,
        decreases keys@.len() - i,
    {
        let mut at: usize = order.len();
        let ghost all = order@.map_values(|i: usize| i as int);
        assert(all.take(at as int) =~= all);
        assert(all.skip(at as int) =~= Seq::<int>::empty());
        assert(placed(all, keys@, i as int) =~= placed(all, keys@, i as int) + all.skip(at as int));
        while at > 0 && keys[order[at - 1]] < keys[i]
            invariant
                at <= order@.len() == i,
                i < keys@.len(),
                all == order@.map_values(|i: usize| i as int),
                forall|k: int| 0 <= k < order@.len() ==> (#[trigger] order@[k]) < i,
                placed(all, keys@, i as int) == placed(all.take(at as int), keys@, i as int)
                    + all.skip(at as int),
            decreases at,
        {
            let ghost front = all.take(at as int);
            assert(front.drop_last() =~= all.take(at - 1));
            assert(placed(front, keys@, i as int) + all.skip(at as int) =~= placed(
                all.take(at - 1),
                keys@,
                i as int,
            ) + all.skip(at - 1));
            at -= 1;
        }
        assert(placed(all.take(at as int), keys@, i as int) == all.take(at as int).push(i as int));
        order.insert(at, i);
        assert(order@.map_values(|i: usize| i as int) =~= all.take(at as int).push(i as int)
            + all.skip(at as int));
        i += 1;
    }
    order
}

/// The places of `keys` ordered by ascending key; equal keys stay in their
/// order.
pub open spec fn ascending(keys: Seq<i64>) -> Seq<int> {
    descending(keys.map_values(|k: i64| (-1 - k) as i64), keys.len())
}

/// The ascending order holds every place once, low before high, and keeps the
/// order of equals.
pub proof fn law_ascending(keys: Seq<i64>)
    ensures
        is_arrangement(ascending(keys), keys.len()),
        forall|k: int, l: int|
            0 <= k < l < keys.len() ==> {
                ||| keys[ascending(keys)[k]] < keys[ascending(keys)[l]]
                ||| keys[ascending(keys)[k]] == keys[ascending(keys)[l]] && ascending(keys)[k]
                    < ascending(keys)[l]
            },
{
    let turned = keys.map_values(|k: i64| (-1 - k) as i64);
    let o = ascending(keys);
    law_descending(turned, keys.len());
    assert forall|k: int, l: int| 0 <= k < l < keys.len() implies {
        ||| keys[o[k]] < keys[o[l]]
        ||| keys[o[k]] == keys[o[l]] && o[k] < o[l]
    } by {
        assert(0 <= o[k] < keys.len() && 0 <= o[l] < keys.len());
        assert(turned[o[k]] == -1 - keys[o[k]] && turned[o[l]] == -1 - keys[o[l]]);
    }
}

/// The places of `keys` ordered by ascending key; equal keys stay in their
/// order.
pub fn ascending_order(keys: &[i64]) -> (order: Vec<usize>)
    ensures
        order@.len() == keys@.len(),
        order@.map_values(|i: usize| i as int) == ascending(keys@),
        forall|k: int| 0 <= k < order@.len() ==> (#[trigger] order@[k]) < keys@.len(),
{
    let mut turned: Vec<i64> = Vec::new();
    let mut i: usize = 0;
    while i < keys.len()
        invariant
            i <= keys@.len(),
            turned@ =~= keys@.take(i as int).map_values(|k: i64| (-1 - k) as i64),
        decreases keys@.len() - i,
    {
        turned.push(-1 - keys[i]);
        i += 1;
    }
    assert(keys@.take(i as int) =~= keys@);
    descending_order(&turned)
}

} // verus!
