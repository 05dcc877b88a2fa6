//! Depth-report scanning: counting increases between consecutive readings
//! and between consecutive three-reading windows.

use vstd::prelude::*;

verus! {

/// How many readings exceed their predecessor.
pub open spec fn increase_count(v: Seq<i32>) -> nat
    decreases v.len(),
{
    if v.len() <= 1 {
        0
    } else {
        increase_count(v.drop_last()) + if v.last() > v[v.len() - 2] {
            1nat
        } else {
            0nat
        }
    }
}

/// The sum of the three readings starting at `i`.
pub open spec fn window3(v: Seq<i32>, i: int) -> int {
    v[i] + v[i + 1] + v[i + 2]
}

/// How many three-reading windows sum higher than the window one step
/// earlier.
pub open spec fn window_increase_count(v: Seq<i32>) -> nat
    decreases v.len(),
{
    if v.len() < 4 {
        0
    } else {
        window_increase_count(v.drop_last()) + if window3(v, v.len() - 3) > window3(
            v,
            v.len() - 4,
        ) {
            1nat
        } else {
            0nat
        }
    }
}

/// Counts the readings that are larger than the reading before them.
pub fn count_increases(v: &Vec<i32>) -> (r: usize)
    ensures
        r == increase_count(v@),
{
    let mut acc: usize = 0;
    let mut i: usize = 1;
    proof {
        if v@.len() >= 1 {
            assert(v@.take(1int).len() <= 1);
        }
        assert(v@.take(if v@.len() >= 1 { 1int } else { 0int }).len() <= 1);
    }
    if v.len() == 0 {
        return 0;
    }
    while i < v.len()
        invariant
            1 <= i <= v@.len(),
            acc == increase_count(v@.take(i as int)),
            acc < i,
        decreases v@.len() - i,
    {
        proof {
            assert(v@.take(i + 1).drop_last() =~= v@.take(i as int));
            assert(v@.take(i + 1).last() == v@[i as int]);
            assert(v@.take(i + 1)[i - 1] == v@[i - 1]);
        }
        if v[i] > v[i - 1] {
            acc = acc + 1;
        }
        i = i + 1;
    }
    proof {
        assert(v@.take(v@.len() as int) =~= v@);
    }
    acc
}

/// The sum of three consecutive readings.
pub fn trisum(arr: &[i32], start: usize) -> (r: i32)
    requires
        start + 3 <= arr@.len(),
        i32::MIN <= arr@[start as int] + arr@[start + 1] <= i32::MAX,
        i32::MIN <= arr@[start as int] + arr@[start + 1] + arr@[start + 2] <= i32::MAX,
    ensures
        r == window3(arr@, start as int),
{
    arr[start] + arr[start + 1] + arr[start + 2]
}

/// Every three-reading window sum, and every two-reading partial sum, fits
/// the machine's range.
pub open spec fn windows_in_range(v: Seq<i32>) -> bool {
    forall|i: int| 0 <= i && i + 3 <= v.len() ==> (i32::MIN <= v[i] + v[i + 1] <= i32::MAX
        && i32::MIN <= #[trigger] window3(v, i) <= i32::MAX)
}

/// Counts the three-reading windows whose sum exceeds the previous
/// window's.
pub fn count_window_increases(v: &Vec<i32>) -> (r: usize)
    requires
        windows_in_range(v@),
    ensures
        r == window_increase_count(v@),
{
    if v.len() < 4 {
        proof {
            assert(v@.take(v@.len() as int) =~= v@);
        }
        return 0;
    }
    let mut acc: usize = 0;
    let mut i: usize = 1;
    proof {
        assert(v@.take(3int).len() < 4);
    }
    while i < v.len() - 2
        invariant
            1 <= i,
            i + 2 <= v@.len(),
            4 <= v@.len(),
            windows_in_range(v@),
            acc == window_increase_count(v@.take(i + 2)),
            acc < i + 2,
        decreases v@.len() - i,
    {
        proof {
            assert(v@.take(i + 3).drop_last() =~= v@.take(i + 2));
            assert(v@.take(i + 3).len() == i + 3);
            assert(forall|j: int| 0 <= j < i + 3 ==> #[trigger] v@.take(i + 3)[j] == v@[j]);
            assert(window3(v@.take(i + 3), i as int) == window3(v@, i as int));
            assert(window3(v@.take(i + 3), i - 1) == window3(v@, i - 1));
        }
        let a = trisum(v.as_slice(), i);
        let b = trisum(v.as_slice(), i - 1);
        if a > b {
            acc = acc + 1;
        }
        i = i + 1;
    }
    proof {
        assert(v@.take(v@.len() as int) =~= v@);
        assert(i + 2 == v@.len());
    }
    acc
}

} // verus!
