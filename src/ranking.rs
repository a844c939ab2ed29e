use vstd::prelude::*;

verus! {

/// Bit patterns of `f32` values whose magnitude field exceeds that of
/// infinity are NaNs.
pub open spec fn is_nan_bits(bits: u32) -> bool {
    bits % 0x8000_0000 > 0x7f80_0000
}

/// Where an `f32`, given by its bit pattern, stands in the order used for
/// sorting: numbers by value (so `-0.0` and `0.0` stand together), and every
/// NaN after all numbers, infinities included.
pub open spec fn float_order_key(bits: u32) -> int {
    let magnitude = (bits % 0x8000_0000) as int;
    if is_nan_bits(bits) {
        0x7f80_0001
    } else if bits >= 0x8000_0000 {
        -magnitude
    } else {
        magnitude
    }
}

/// Computes [`float_order_key`].
pub fn order_key(bits: u32) -> (r: i64)
    ensures
        r == float_order_key(bits),
{
    let magnitude = bits % 0x8000_0000;
    if magnitude > 0x7f80_0000 {
        0x7f80_0001
    } else if bits >= 0x8000_0000 {
        -(magnitude as i64)
    } else {
        magnitude as i64
    }
}

/// Whether entry `x` of `values` comes before entry `y` in a ranking: by
/// [`float_order_key`], and by position where the keys are equal.
pub open spec fn ranks_before(values: Seq<u32>, x: int, y: int) -> bool {
    let kx = float_order_key(values[x]);
    let ky = float_order_key(values[y]);
    kx < ky || (kx == ky && x < y)
}

/// `order` lists each position of `values` once, ascending by
/// [`float_order_key`], entries with equal keys in input order.
pub open spec fn is_ranking(order: Seq<usize>, values: Seq<u32>) -> bool {
    &&& order.len() == values.len()
    &&& forall|i: int| 0 <= i < order.len() ==> (#[trigger] order[i]) < values.len()
    &&& forall|x: usize| x < values.len() ==> #[trigger] order.contains(x)
    &&& forall|i: int, j: int|
        0 <= i < j < order.len() ==> ranks_before(values, #[trigger] order[i] as int, #[trigger] order[j] as int)
}

/// Stable sort of the positions of `values`: ascending by
/// [`float_order_key`], ties kept in input order, NaNs last. A list has one
/// ranking only ([`lemma_ranking_unique`]), so equal inputs always rank alike.
pub fn rank(values: &Vec<u32>) -> (order: Vec<usize>)
    ensures
        is_ranking(order@, values@),
{
    let mut order: Vec<usize> = Vec::new();
    let mut i: usize = 0;
    while i < values.len()
        invariant
            i <= values@.len(),
            order@.len() == i,
            forall|a: int| 0 <= a < order@.len() ==> (#[trigger] order@[a]) < i,
            forall|x: usize| x < i ==> #[trigger] order@.contains(x),
            forall|a: int, b: int|
                0 <= a < b < order@.len() ==> ranks_before(values@, #[trigger] order@[a] as int, #[trigger] order@[b] as int),
        decreases values@.len() - i,
    {
        let ki = order_key(values[i]);
        let mut p: usize = 0;
        while p < order.len() && order_key(values[order[p]]) <= ki
            invariant
                i < values@.len(),
                order@.len() == i,
                p <= order@.len(),
                forall|a: int, b: int|
                    0 <= a < b < order@.len() ==> ranks_before(values@, #[trigger] order@[a] as int, #[trigger] order@[b] as int),
                forall|a: int| 0 <= a < order@.len() ==> (#[trigger] order@[a]) < i,
                forall|a: int| 0 <= a < p ==> float_order_key(values@[#[trigger] order@[a] as int]) <= ki,
            decreases order@.len() - p,
        {
            p += 1;
        }
        let ghost old_order = order@;
        order.insert(p, i);
        assert forall|x: usize| x <= i implies #[trigger] order@.contains(x) by {
            if x == i {
                assert(order@[p as int] == i);
            } else {
                assert(old_order.contains(x));
                let a = choose|a: int| 0 <= a < old_order.len() && old_order[a] == x;
                if a < p {
                    assert(order@[a] == x);
                } else {
                    assert(order@[a + 1] == x);
                }
            }
        }
        assert forall|a: int, b: int|
            0 <= a < b < order@.len() implies ranks_before(values@, #[trigger] order@[a] as int, #[trigger] order@[b] as int) by {
            if b < p {
                assert(order@[a] == old_order[a] && order@[b] == old_order[b]);
            } else if b == p {
                assert(order@[a] == old_order[a]);
            } else if a == p {
                assert(order@[b] == old_order[b - 1]);
                assert(ranks_before(values@, old_order[p as int] as int, old_order[b - 1] as int) || p == b - 1);
            } else if a < p {
                assert(order@[a] == old_order[a] && order@[b] == old_order[b - 1]);
            } else {
                assert(order@[a] == old_order[a - 1] && order@[b] == old_order[b - 1]);
            }
        }
        i += 1;
    }
    order
}

proof fn lemma_ranking_prefix_unique(o1: Seq<usize>, o2: Seq<usize>, values: Seq<u32>, i: int)
    requires
        is_ranking(o1, values),
        is_ranking(o2, values),
        0 <= i < values.len(),
    ensures
        forall|k: int| 0 <= k <= i ==> o1[k] == o2[k],
    decreases i,
{
    if i > 0 {
        lemma_ranking_prefix_unique(o1, o2, values, i - 1);
    }
    let x = o1[i];
    let y = o2[i];
    if x != y {
        assert(o2.contains(x));
        assert(o1.contains(y));
        let j = choose|j: int| 0 <= j < o2.len() && o2[j] == x;
        let j2 = choose|j: int| 0 <= j < o1.len() && o1[j] == y;
        if j < i {
            assert(o1[j] == o2[j]);
            assert(ranks_before(values, o1[j] as int, o1[i] as int));
        } else if j2 < i {
            assert(o1[j2] == o2[j2]);
            assert(ranks_before(values, o2[j2] as int, o2[i] as int));
        } else {
            assert(ranks_before(values, o2[i] as int, o2[j] as int));
            assert(ranks_before(values, o1[i] as int, o1[j2] as int));
        }
    }
}

/// A list of values has one ranking only.
pub proof fn lemma_ranking_unique(o1: Seq<usize>, o2: Seq<usize>, values: Seq<u32>)
    requires
        is_ranking(o1, values),
        is_ranking(o2, values),
    ensures
        o1 == o2,
{
    if values.len() > 0 {
        lemma_ranking_prefix_unique(o1, o2, values, values.len() - 1);
    }
    assert(o1 =~= o2);
}

/// The middle of a list of run times, as picked for a median: nothing for
/// an empty list, the middle entry for an odd length, the two entries next
/// to the middle for an even length (their mean is the median).
#[derive(Debug, Clone, Copy, PartialEq, Eq, Structural)]
pub enum MedianPick {
    Empty,
    Middle(u32),
    Pair(u32, u32),
}

/// The middle of `values` once arranged as `order` says.
pub open spec fn median_pick_of(values: Seq<u32>, order: Seq<usize>) -> MedianPick {
    let n = values.len() as int;
    if n == 0 {
        MedianPick::Empty
    } else if n % 2 == 1 {
        MedianPick::Middle(values[order[n / 2] as int])
    } else {
        MedianPick::Pair(values[order[n / 2 - 1] as int], values[order[n / 2] as int])
    }
}

/// The middle of `values` arranged as `order`, a ranking of them, says.
pub fn median_of_ranked(values: &Vec<u32>, order: &Vec<usize>) -> (r: MedianPick)
    requires
        is_ranking(order@, values@),
    ensures
        r == median_pick_of(values@, order@),
{
    let n = values.len();
    if n == 0 {
        MedianPick::Empty
    } else if n % 2 == 1 {
        MedianPick::Middle(values[order[n / 2]])
    } else {
        MedianPick::Pair(values[order[n / 2 - 1]], values[order[n / 2]])
    }
}

/// Ranks `values` and picks their middle.
pub fn median_pick(values: &Vec<u32>) -> (r: MedianPick)
    ensures
        exists|order: Seq<usize>| is_ranking(order, values@),
        forall|order: Seq<usize>| is_ranking(order, values@) ==> r == median_pick_of(values@, order),
{
    let order = rank(values);
    let r = median_of_ranked(values, &order);
    assert forall|o: Seq<usize>| is_ranking(o, values@) implies r == median_pick_of(values@, o) by {
        lemma_ranking_unique(o, order@, values@);
    }
    assert(is_ranking(order@, values@));
    r
}

} // verus!
