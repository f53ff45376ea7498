//! The water that an elevation map holds after rain.
use vstd::prelude::*;

verus! {

/// The greatest of the first `count` heights; 0 when `count` is 0.
pub open spec fn prefix_max(height: Seq<u32>, count: int) -> int
    decreases count,
{
    if count <= 0 {
        0
    } else if prefix_max(height, count - 1) >= height[count - 1] {
        prefix_max(height, count - 1)
    } else {
        height[count - 1] as int
    }
}

/// The greatest of the heights from position `from` on; 0 when there is none.
pub open spec fn suffix_max(height: Seq<u32>, from: int) -> int
    decreases height.len() - from,
{
    if from >= height.len() {
        0
    } else if suffix_max(height, from + 1) >= height[from] {
        suffix_max(height, from + 1)
    } else {
        height[from] as int
    }
}

/// The water that stands above bar `i`: it rises to the lower of the highest
/// bars on the two sides, the bar itself counted on both.
pub open spec fn water_at(height: Seq<u32>, i: int) -> int {
    let left = prefix_max(height, i + 1);
    let right = suffix_max(height, i);
    (if left <= right {
        left
    } else {
        right
    }) - height[i]
}

/// The water that stands above the bars from position `lo` up to, but not
/// including, position `hi`.
pub open spec fn water_between(height: Seq<u32>, lo: int, hi: int) -> int
    decreases hi - lo,
{
    if hi <= lo {
        0
    } else {
        water_between(height, lo, hi - 1) + water_at(height, hi - 1)
    }
}

/// The water that the elevation map `height`, of bars of width 1, holds
/// after rain.
pub open spec fn trapped_water(height: Seq<u32>) -> int {
    water_between(height, 0, height.len() as int)
}

proof fn lemma_prefix_max_bounds(height: Seq<u32>, a: int, b: int)
    requires
        0 <= a <= b <= height.len(),
    ensures
        0 <= prefix_max(height, a) <= prefix_max(height, b),
        a < b ==> height[a] <= prefix_max(height, b),
    decreases b - a,
{
    if a < b {
        lemma_prefix_max_bounds(height, a, b - 1);
    } else {
        lemma_prefix_max_nonnegative(height, a);
    }
}

proof fn lemma_prefix_max_nonnegative(height: Seq<u32>, a: int)
    ensures
        0 <= prefix_max(height, a),
    decreases a,
{
    if a > 0 {
        lemma_prefix_max_nonnegative(height, a - 1);
    }
}

proof fn lemma_suffix_max_nonnegative(height: Seq<u32>, a: int)
    ensures
        0 <= suffix_max(height, a),
    decreases height.len() - a,
{
    if a < height.len() {
        lemma_suffix_max_nonnegative(height, a + 1);
    }
}

proof fn lemma_suffix_max_bounds(height: Seq<u32>, a: int, b: int)
    requires
        0 <= a <= b <= height.len(),
    ensures
        0 <= suffix_max(height, b) <= suffix_max(height, a),
        a < b ==> height[b - 1] <= suffix_max(height, a),
    decreases b - a,
{
    if a < b {
        lemma_suffix_max_bounds(height, a + 1, b);
    } else {
        lemma_suffix_max_nonnegative(height, a);
    }
}

proof fn lemma_water_at_nonnegative(height: Seq<u32>, i: int)
    requires
        0 <= i < height.len(),
    ensures
        0 <= water_at(height, i),
{
    lemma_prefix_max_bounds(height, i, i + 1);
    lemma_suffix_max_bounds(height, i, i + 1);
}

proof fn lemma_water_between_nonnegative(height: Seq<u32>, lo: int, hi: int)
    requires
        0 <= lo <= hi <= height.len(),
    ensures
        0 <= water_between(height, lo, hi),
    decreases hi - lo,
{
    if lo < hi {
        lemma_water_between_nonnegative(height, lo, hi - 1);
        lemma_water_at_nonnegative(height, hi - 1);
    }
}

proof fn lemma_water_between_one(height: Seq<u32>, i: int)
    ensures
        water_between(height, i, i + 1) == water_at(height, i),
{
    reveal_with_fuel(water_between, 2);
}

proof fn lemma_water_between_split(height: Seq<u32>, lo: int, mid: int, hi: int)
    requires
        lo <= mid <= hi,
    ensures
        water_between(height, lo, hi) == water_between(height, lo, mid) + water_between(
            height,
            mid,
            hi,
        ),
    decreases hi - mid,
{
    if mid < hi {
        lemma_water_between_split(height, lo, mid, hi - 1);
    }
}

/// The water that the elevation map `height` holds after rain, found by
/// closing in on the highest bar from both ends.
///
/// The map has at least one bar, and the amount has to fit in the 32-bit
/// result.
pub fn rain_catcher(height: Vec<u32>) -> (water: u32)
    requires
        height.len() > 0,
        trapped_water(height@) <= u32::MAX,
    ensures
        water == trapped_water(height@),
{
    let mut left_tower_height: u32 = 0;
    let mut right_tower_height: u32 = 0;
    let mut water: u32 = 0;

    let mut lp: usize = 0;
    let mut rp: usize = height.len() - 1;
    let ghost n = height.len() as int;

    while lp < rp
        invariant
            n == height.len(),
            0 <= lp <= rp < n,
            trapped_water(height@) <= u32::MAX,
            left_tower_height == prefix_max(height@, lp as int),
            right_tower_height == suffix_max(height@, rp + 1),
            water == water_between(height@, 0, lp as int) + water_between(height@, rp + 1, n),
            left_tower_height == 0 || left_tower_height < suffix_max(height@, rp as int),
            right_tower_height <= prefix_max(height@, lp + 1),
        decreases rp - lp,
    {
        proof {
            lemma_suffix_max_bounds(height@, lp as int, rp as int);
            lemma_suffix_max_bounds(height@, rp as int, rp + 1);
            lemma_suffix_max_bounds(height@, rp - 1, rp as int);
            lemma_prefix_max_bounds(height@, lp + 1, rp + 1);
            lemma_prefix_max_bounds(height@, lp + 1, lp + 2);
            lemma_prefix_max_bounds(height@, lp as int, lp + 1);
            lemma_prefix_max_bounds(height@, rp as int, rp + 1);
            lemma_water_between_split(height@, 0, lp as int, n);
            lemma_water_between_split(height@, lp as int, rp as int, n);
            lemma_water_between_split(height@, lp as int, lp + 1, rp as int);
            lemma_water_between_split(height@, rp as int, rp + 1, n);
            lemma_water_between_nonnegative(height@, lp + 1, rp as int);
            lemma_water_between_nonnegative(height@, lp as int, rp as int);
            lemma_water_at_nonnegative(height@, lp as int);
            lemma_water_at_nonnegative(height@, rp as int);
            lemma_water_between_one(height@, lp as int);
            lemma_water_between_one(height@, rp as int);
        }
        if height[lp] < height[rp] {
            if height[lp] > left_tower_height {
                left_tower_height = height[lp];
            } else {
                water += left_tower_height - height[lp];
            }
            lp += 1
        } else {
            if height[rp] > right_tower_height {
                right_tower_height = height[rp];
            } else {
                water += right_tower_height - height[rp];
            }
            rp -= 1
        }
    }
    proof {
        lemma_suffix_max_bounds(height@, lp as int, lp + 1);
        lemma_prefix_max_bounds(height@, lp as int, lp + 1);
        lemma_water_between_split(height@, 0, lp as int, n);
        lemma_water_between_split(height@, lp as int, lp + 1, n);
        lemma_water_between_one(height@, lp as int);
        assert(water_at(height@, lp as int) == 0);
    }
    water
}

} // verus!
