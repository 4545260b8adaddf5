//! Comparison sorts and binary search over `i32` arrays, recorded step by step.

use vstd::prelude::*;
use crate::error::DsavError;
use crate::text::{index_text, int_text, join, lit};
use crate::traits::{flagged, index_range, meta_flag, meta_index, meta_int, meta_ints, meta_text, step, MetaEntry, Step};

verus! {

broadcast use vstd::seq_lib::group_to_multiset_ensures;

/// Non-decreasing order.
pub open spec fn sorted(s: Seq<i32>) -> bool {
    forall|i: int, j: int| 0 <= i <= j < s.len() ==> s[i] <= s[j]
}

/// The same values, each as often.
pub open spec fn permutes(a: Seq<i32>, b: Seq<i32>) -> bool {
    a.to_multiset() == b.to_multiset()
}

/// The array's values widened, for a step's metadata.
fn snapshot(a: &Vec<i32>) -> (r: Vec<i64>)
    ensures
        r@.len() == a@.len(),
        forall|k: int| 0 <= k < a@.len() ==> #[trigger] r@[k] == a@[k] as i64,
{
    let mut r: Vec<i64> = Vec::new();
    let mut i: usize = 0;
    while i < a.len()
        invariant
            i <= a@.len(),
            r@.len() == i,
            forall|k: int| 0 <= k < i ==> #[trigger] r@[k] == a@[k] as i64,
        decreases a@.len() - i,
    {
        r.push(a[i] as i64);
        i = i + 1;
    }
    r
}

fn state_entry(a: &Vec<i32>) -> (r: MetaEntry) {
    meta_ints("array_state", snapshot(a))
}

proof fn lemma_swap_multiset(s: Seq<i32>, i: int, j: int)
    requires
        0 <= i < s.len(),
        0 <= j < s.len(),
    ensures
        permutes(s.update(i, s[j]).update(j, s[i]), s),
{
    let x = s[i];
    let y = s[j];
    let s1 = s.update(i, y);
    vstd::seq_lib::to_multiset_update(s, i, y);
    vstd::seq_lib::to_multiset_update(s1, j, x);
    if i == j {
        assert(s1.update(j, x) =~= s);
    } else {
        assert(s1[j] == y);
        assert(s.to_multiset().insert(y).remove(x).insert(x).remove(y) =~= s.to_multiset());
    }
}

/// Exchanges the values at `i` and `j`; every range holding both keeps its
/// values.
fn swap_at(a: &mut Vec<i32>, i: usize, j: usize)
    requires
        i < old(a)@.len(),
        j < old(a)@.len(),
    ensures
        final(a)@ == old(a)@.update(i as int, old(a)@[j as int]).update(j as int, old(a)@[i as int]),
        permutes(final(a)@, old(a)@),
        forall|lo: int, hi: int| 0 <= lo <= i < hi <= old(a)@.len() && lo <= j < hi
            ==> #[trigger] permutes(final(a)@.subrange(lo, hi), old(a)@.subrange(lo, hi)),
{
    let x = a[i];
    let y = a[j];
    a.set(i, y);
    a.set(j, x);
    proof {
        let s = old(a)@;
        lemma_swap_multiset(s, i as int, j as int);
        assert forall|lo: int, hi: int| 0 <= lo <= i < hi <= s.len() && lo <= j < hi
            implies #[trigger] permutes(a@.subrange(lo, hi), s.subrange(lo, hi)) by {
            let t = s.subrange(lo, hi);
            lemma_swap_multiset(t, i - lo, j - lo);
            assert(a@.subrange(lo, hi) =~= t.update(i - lo, t[j - lo]).update(j - lo, t[i - lo]));
        }
    }
}


/// Bubble sort: passes of adjacent comparisons and swaps, each pass settling
/// the largest remaining value at the end, stopping after a pass without a
/// swap. Arrays of fewer than two values are left as they are, with no steps.
pub fn bubble_sort_with_steps(arr: &mut Vec<i32>) -> (r: Result<Vec<Step>, DsavError>)
    ensures
        r is Ok,
        sorted(final(arr)@),
        permutes(final(arr)@, old(arr)@),
        old(arr)@.len() <= 1 ==> final(arr)@ == old(arr)@ && r->Ok_0@.len() == 0,
        old(arr)@.len() > 1 ==> r->Ok_0@.len() > 0,
{
    let n = arr.len();
    if n <= 1 {
        proof {
            assert(sorted(arr@));
        }
        return Ok(Vec::new());
    }
    let mut steps = vec![step(lit("Starting Bubble Sort"), vec![], vec![], vec![state_entry(arr)])];
    let mut i: usize = 0;
    while i < n
        invariant
            n >= 2,
            arr@.len() == n,
            i <= n,
            permutes(arr@, old(arr)@),
            steps@.len() > 0,
            forall|a: int, b: int| n - i <= a <= b < n ==> arr@[a] <= arr@[b],
            forall|a: int, b: int| 0 <= a < n - i <= b < n ==> arr@[a] <= arr@[b],
        decreases n - i,
    {
        let mut swapped = false;
        let mut j: usize = 0;
        let end = n - i - 1;
        while j < end
            invariant
                n >= 2,
                arr@.len() == n,
                i < n,
                end == n - i - 1,
                j <= end,
                permutes(arr@, old(arr)@),
                steps@.len() > 0,
                forall|a: int, b: int| n - i <= a <= b < n ==> arr@[a] <= arr@[b],
                forall|a: int, b: int| 0 <= a < n - i <= b < n ==> arr@[a] <= arr@[b],
                forall|k: int| 0 <= k <= j ==> arr@[k] <= arr@[j as int],
                !swapped ==> forall|a: int, b: int| 0 <= a <= b <= j ==> arr@[a] <= arr@[b],
            decreases end - j,
        {
            let x = arr[j];
            let y = arr[j + 1];
            steps.push(step(
                join(&vec![lit("Comparing "), int_text(x as i64), lit(" and "), int_text(y as i64)]),
                vec![j, j + 1],
                vec![],
                vec![meta_text("operation", "compare"), meta_ints("values", vec![x as i64, y as i64]), state_entry(arr)],
            ));
            if x > y {
                swap_at(arr, j, j + 1);
                steps.push(step(
                    join(&vec![lit("Swapping "), int_text(x as i64), lit(" and "), int_text(y as i64)]),
                    vec![],
                    vec![j, j + 1],
                    vec![meta_text("operation", "swap"), meta_ints("values", vec![y as i64, x as i64]), state_entry(arr)],
                ));
                swapped = true;
            }
            j = j + 1;
        }
        let settled = n - i - 1;
        steps.push(step(
            join(&vec![lit("Element "), int_text(arr[settled] as i64), lit(" is now in final position")]),
            vec![settled],
            vec![],
            vec![meta_text("operation", "sorted"), meta_index("index", settled), state_entry(arr)],
        ));
        if !swapped {
            steps.push(step(lit("Array is sorted, no more swaps needed"), vec![], vec![], vec![state_entry(arr)]));
            i = n;
        } else {
            i = i + 1;
        }
    }
    steps.push(step(lit("Sorting complete"), vec![], index_range(0, n), vec![state_entry(arr)]));
    Ok(steps)
}


/// Insertion sort: each value in turn moves left past the larger values
/// before it, one exchange at a time. Arrays of fewer than two values are left
/// as they are, with no steps.
pub fn insertion_sort_with_steps(arr: &mut Vec<i32>) -> (r: Result<Vec<Step>, DsavError>)
    ensures
        r is Ok,
        sorted(final(arr)@),
        permutes(final(arr)@, old(arr)@),
        old(arr)@.len() <= 1 ==> final(arr)@ == old(arr)@ && r->Ok_0@.len() == 0,
        old(arr)@.len() > 1 ==> r->Ok_0@.len() > 0,
{
    let n = arr.len();
    if n <= 1 {
        return Ok(Vec::new());
    }
    let mut steps = vec![step(lit("Starting Insertion Sort"), vec![], vec![], vec![state_entry(arr)])];
    let mut i: usize = 1;
    while i < n
        invariant
            n >= 2,
            arr@.len() == n,
            1 <= i <= n,
            permutes(arr@, old(arr)@),
            steps@.len() > 0,
            forall|a: int, b: int| 0 <= a <= b < i ==> arr@[a] <= arr@[b],
        decreases n - i,
    {
        let key = arr[i];
        steps.push(step(
            join(&vec![lit("Selecting "), int_text(key as i64), lit(" to insert into sorted portion")]),
            vec![i],
            vec![],
            vec![meta_text("operation", "select"), meta_int("value", key as i64), meta_index("index", i), state_entry(arr)],
        ));
        let mut j: usize = i;
        while j > 0 && arr[j - 1] > key
            invariant
                n >= 2,
                arr@.len() == n,
                1 <= i < n,
                j <= i,
                arr@[j as int] == key,
                permutes(arr@, old(arr)@),
                steps@.len() > 0,
                forall|a: int, b: int| 0 <= a <= b < j ==> arr@[a] <= arr@[b],
                forall|a: int, b: int| j < a <= b <= i ==> arr@[a] <= arr@[b],
                forall|a: int| j < a <= i ==> key < arr@[a],
                forall|a: int, b: int| 0 <= a < j && j < b <= i ==> arr@[a] <= arr@[b],
            decreases j,
        {
            let before = arr[j - 1];
            steps.push(step(
                join(&vec![lit("Comparing "), int_text(before as i64), lit(" with "), int_text(key as i64)]),
                vec![j - 1, j],
                vec![],
                vec![meta_text("operation", "compare"), meta_ints("values", vec![before as i64, key as i64]), state_entry(arr)],
            ));
            swap_at(arr, j - 1, j);
            j = j - 1;
            steps.push(step(
                lit("Shifting element to the right"),
                vec![],
                vec![j, j + 1],
                vec![meta_text("operation", "shift"), state_entry(arr)],
            ));
        }
        steps.push(step(
            join(&vec![lit("Inserted "), int_text(key as i64), lit(" at position "), index_text(j)]),
            vec![j],
            vec![],
            vec![meta_text("operation", "insert"), meta_int("value", key as i64), meta_index("index", j), state_entry(arr)],
        ));
        steps.push(step(
            join(&vec![lit("Elements 0..="), index_text(i), lit(" are now sorted")]),
            index_range(0, i + 1),
            vec![],
            vec![state_entry(arr)],
        ));
        i = i + 1;
    }
    steps.push(step(lit("Insertion sort complete"), vec![], index_range(0, n), vec![state_entry(arr)]));
    Ok(steps)
}

/// Binary search for `target`: halves the range around the middle value until
/// the value is found or the range is empty. On a sorted array the steps end
/// with a found marker exactly when the value is there.
pub fn binary_search_with_steps(arr: &Vec<i32>, target: i32) -> (r: Result<Vec<Step>, DsavError>)
    ensures
        r is Ok,
        r->Ok_0@.len() > 0,
        !arr@.contains(target) ==> flagged(r->Ok_0@.last(), "found"@, false),
        sorted(arr@) && arr@.contains(target) ==> flagged(r->Ok_0@.last(), "found"@, true),
{
    let n = arr.len();
    if n == 0 {
        let last = step(lit("Array is empty, cannot search"), vec![], vec![], vec![meta_flag("found", false)]);
        assert(last.metadata@[0].key@ == "found"@);
        return Ok(vec![last]);
    }
    let mut steps = vec![step(
        join(&vec![lit("Starting binary search for "), int_text(target as i64)]),
        vec![],
        vec![],
        vec![meta_text("operation", "binary_search"), meta_int("target", target as i64), state_entry(arr)],
    )];
    let mut left: usize = 0;
    let mut right: usize = n - 1;
    let mut open = true;
    while open && left <= right
        invariant
            n == arr@.len(),
            n > 0,
            right < n,
            left <= n,
            steps@.len() > 0,
            sorted(arr@) ==> forall|k: int| 0 <= k < left ==> arr@[k] < target,
            sorted(arr@) ==> forall|k: int| right < k < n ==> arr@[k] > target,
            !open ==> sorted(arr@) ==> forall|k: int| 0 <= k < n ==> arr@[k] > target,
        decreases (if open { 1int } else { 0int }) + right - left + 1,
    {
        let mid = left + (right - left) / 2;
        let mid_value = arr[mid];
        steps.push(step(
            join(&vec![lit("Checking middle element at index "), index_text(mid)]),
            vec![left, mid, right],
            vec![],
            vec![meta_index("left", left), meta_index("mid", mid), meta_index("right", right), meta_int("mid_value", mid_value as i64), state_entry(arr)],
        ));
        if mid_value == target {
            let last = step(
                join(&vec![lit("Found "), int_text(target as i64), lit(" at index "), index_text(mid)]),
                vec![],
                vec![mid],
                vec![meta_flag("found", true), meta_index("index", mid), state_entry(arr)],
            );
            assert(last.metadata@[0].key@ == "found"@);
            assert(arr@[mid as int] == target);
            steps.push(last);
            return Ok(steps);
        }
        if mid_value < target {
            steps.push(step(
                join(&vec![int_text(mid_value as i64), lit(" < "), int_text(target as i64), lit(", searching right half")]),
                vec![mid + 1, right],
                vec![],
                vec![state_entry(arr)],
            ));
            left = mid + 1;
        } else if mid == 0 {
            open = false;
        } else {
            steps.push(step(
                join(&vec![int_text(mid_value as i64), lit(" > "), int_text(target as i64), lit(", searching left half")]),
                vec![left, mid - 1],
                vec![],
                vec![state_entry(arr)],
            ));
            right = mid - 1;
        }
    }
    let last = step(
        join(&vec![lit("Value "), int_text(target as i64), lit(" not found in array")]),
        vec![],
        vec![],
        vec![meta_flag("found", false), state_entry(arr)],
    );
    assert(last.metadata@[0].key@ == "found"@);
    proof {
        if sorted(arr@) && arr@.contains(target) {
            let k = choose|k: int| 0 <= k < n && arr@[k] == target;
            assert(arr@[k] == target);
        }
    }
    steps.push(last);
    Ok(steps)
}


/// Selection sort: for each position in turn, the smallest remaining value is
/// found and exchanged into it. Arrays of fewer than two values are left as
/// they are, with no steps.
pub fn selection_sort_with_steps(arr: &mut Vec<i32>) -> (r: Result<Vec<Step>, DsavError>)
    ensures
        r is Ok,
        sorted(final(arr)@),
        permutes(final(arr)@, old(arr)@),
        old(arr)@.len() <= 1 ==> final(arr)@ == old(arr)@ && r->Ok_0@.len() == 0,
        old(arr)@.len() > 1 ==> r->Ok_0@.len() > 0,
{
    let n = arr.len();
    if n <= 1 {
        return Ok(Vec::new());
    }
    let mut steps = vec![step(lit("Starting Selection Sort"), vec![], vec![], vec![state_entry(arr)])];
    let mut i: usize = 0;
    while i < n - 1
        invariant
            n >= 2,
            arr@.len() == n,
            i <= n - 1,
            permutes(arr@, old(arr)@),
            steps@.len() > 0,
            forall|a: int, b: int| 0 <= a <= b < i ==> arr@[a] <= arr@[b],
            forall|a: int, b: int| 0 <= a < i <= b < n ==> arr@[a] <= arr@[b],
        decreases n - 1 - i,
    {
        let mut min_idx = i;
        steps.push(step(
            join(&vec![lit("Finding minimum in unsorted portion (from index "), index_text(i), lit(")")]),
            vec![i],
            vec![],
            vec![meta_text("operation", "select"), meta_index("index", i), state_entry(arr)],
        ));
        let mut j = i + 1;
        while j < n
            invariant
                n >= 2,
                arr@.len() == n,
                i < n - 1,
                i < j <= n,
                i <= min_idx < n,
                steps@.len() > 0,
                forall|k: int| i <= k < j ==> arr@[min_idx as int] <= arr@[k],
            decreases n - j,
        {
            let candidate = arr[j];
            let current = arr[min_idx];
            steps.push(step(
                join(&vec![lit("Comparing "), int_text(candidate as i64), lit(" with current minimum "), int_text(current as i64)]),
                vec![j, min_idx],
                vec![],
                vec![meta_text("operation", "compare"), meta_ints("values", vec![candidate as i64, current as i64]), state_entry(arr)],
            ));
            if candidate < current {
                min_idx = j;
                steps.push(step(
                    join(&vec![lit("New minimum found: "), int_text(candidate as i64), lit(" at index "), index_text(j)]),
                    vec![j],
                    vec![],
                    vec![meta_text("operation", "new_min"), meta_int("min_value", candidate as i64), meta_index("min_index", j), state_entry(arr)],
                ));
            }
            j = j + 1;
        }
        if min_idx != i {
            swap_at(arr, i, min_idx);
            steps.push(step(
                join(&vec![
                    lit("Swapping "), int_text(arr[min_idx] as i64), lit(" at index "), index_text(min_idx),
                    lit(" with "), int_text(arr[i] as i64), lit(" at index "), index_text(i),
                ]),
                vec![],
                vec![i, min_idx],
                vec![meta_text("operation", "swap"), meta_ints("values", vec![arr[i] as i64, arr[min_idx] as i64]), state_entry(arr)],
            ));
        }
        steps.push(step(
            join(&vec![lit("Element "), int_text(arr[i] as i64), lit(" is now in final position at index "), index_text(i)]),
            vec![i],
            vec![],
            vec![meta_text("operation", "sorted"), meta_index("index", i), state_entry(arr)],
        ));
        i = i + 1;
    }
    steps.push(step(lit("Selection sort complete"), vec![], index_range(0, n), vec![state_entry(arr)]));
    Ok(steps)
}


proof fn lemma_bounds_carry(s1: Seq<i32>, s2: Seq<i32>, v: i32)
    requires
        permutes(s1, s2),
    ensures
        (forall|k: int| 0 <= k < s2.len() ==> s2[k] < v) ==> forall|k: int| 0 <= k < s1.len() ==> s1[k] < v,
        (forall|k: int| 0 <= k < s2.len() ==> v <= s2[k]) ==> forall|k: int| 0 <= k < s1.len() ==> v <= s1[k],
{
    assert forall|k: int| 0 <= k < s1.len() implies s2.contains(#[trigger] s1[k]) by {
        assert(s1.contains(s1[k]));
        assert(s1.to_multiset().count(s1[k]) > 0);
        assert(s2.to_multiset().count(s1[k]) > 0);
    }
}

proof fn lemma_three_parts(s: Seq<i32>, t: Seq<i32>, lo: int, p: int, hi: int)
    requires
        0 <= lo <= p < hi <= s.len(),
        s.len() == t.len(),
        s[p] == t[p],
        permutes(s.subrange(lo, p), t.subrange(lo, p)),
        permutes(s.subrange(p + 1, hi), t.subrange(p + 1, hi)),
    ensures
        permutes(s.subrange(lo, hi), t.subrange(lo, hi)),
{
    broadcast use vstd::seq_lib::lemma_multiset_commutative;
    assert(s.subrange(lo, hi) =~= s.subrange(lo, p) + s.subrange(p, p + 1) + s.subrange(p + 1, hi));
    assert(t.subrange(lo, hi) =~= t.subrange(lo, p) + t.subrange(p, p + 1) + t.subrange(p + 1, hi));
    assert(s.subrange(p, p + 1) =~= t.subrange(p, p + 1));
}

/// Lomuto partition of `arr[low..=high]` around its last value: smaller
/// values end up before the pivot, the others after it. Returns the pivot's
/// final index.
fn partition(arr: &mut Vec<i32>, low: usize, high: usize, steps: &mut Vec<Step>) -> (p: usize)
    requires
        low < high < old(arr)@.len(),
    ensures
        final(arr)@.len() == old(arr)@.len(),
        low <= p <= high,
        forall|k: int| 0 <= k < final(arr)@.len() && (k < low || high < k) ==> #[trigger] final(arr)@[k] == old(arr)@[k],
        permutes(final(arr)@, old(arr)@),
        permutes(final(arr)@.subrange(low as int, high + 1), old(arr)@.subrange(low as int, high + 1)),
        forall|k: int| low <= k < p ==> #[trigger] final(arr)@[k] < final(arr)@[p as int],
        forall|k: int| p < k <= high ==> final(arr)@[p as int] <= #[trigger] final(arr)@[k],
{
    let pivot = arr[high];
    steps.push(step(
        join(&vec![lit("Choosing "), int_text(pivot as i64), lit(" as pivot (index "), index_text(high), lit(")")]),
        vec![high],
        vec![],
        vec![meta_text("operation", "pivot"), meta_int("value", pivot as i64), meta_index("index", high), state_entry(arr)],
    ));
    let mut i = low;
    let mut j = low;
    while j < high
        invariant
            low <= i <= j <= high,
            high < arr@.len(),
            arr@.len() == old(arr)@.len(),
            arr@[high as int] == pivot,
            forall|k: int| 0 <= k < arr@.len() && (k < low || high < k) ==> #[trigger] arr@[k] == old(arr)@[k],
            permutes(arr@, old(arr)@),
            permutes(arr@.subrange(low as int, high + 1), old(arr)@.subrange(low as int, high + 1)),
            forall|k: int| low <= k < i ==> #[trigger] arr@[k] < pivot,
            forall|k: int| i <= k < j ==> pivot <= #[trigger] arr@[k],
        decreases high - j,
    {
        let value = arr[j];
        steps.push(step(
            join(&vec![lit("Comparing "), int_text(value as i64), lit(" with pivot "), int_text(pivot as i64)]),
            vec![j, high],
            vec![],
            vec![meta_text("operation", "compare"), meta_ints("values", vec![value as i64, pivot as i64]), state_entry(arr)],
        ));
        if value < pivot {
            if i != j {
                let ghost before = arr@;
                swap_at(arr, i, j);
                assert(permutes(arr@.subrange(low as int, high + 1), before.subrange(low as int, high + 1)));
                steps.push(step(
                    join(&vec![lit("Swapping "), int_text(arr[j] as i64), lit(" and "), int_text(arr[i] as i64)]),
                    vec![],
                    vec![i, j],
                    vec![meta_text("operation", "swap"), meta_ints("values", vec![arr[i] as i64, arr[j] as i64]), state_entry(arr)],
                ));
            }
            i = i + 1;
        }
        j = j + 1;
    }
    let ghost before = arr@;
    swap_at(arr, i, high);
    assert(permutes(arr@.subrange(low as int, high + 1), before.subrange(low as int, high + 1)));
    steps.push(step(
        join(&vec![lit("Placing pivot "), int_text(pivot as i64), lit(" at final position "), index_text(i)]),
        vec![],
        vec![i, high],
        vec![meta_text("operation", "swap"), meta_ints("values", vec![arr[i] as i64, arr[high] as i64]), state_entry(arr)],
    ));
    steps.push(step(
        join(&vec![lit("Pivot "), int_text(pivot as i64), lit(" is now in correct position")]),
        vec![i],
        vec![],
        vec![meta_text("operation", "sorted"), meta_index("index", i), state_entry(arr)],
    ));
    i
}

/// Sorts `arr[low..=high]` in place, leaving the rest of the array alone.
fn quick_sort_helper(arr: &mut Vec<i32>, low: usize, high: usize, steps: &mut Vec<Step>)
    requires
        high < old(arr)@.len(),
        low <= high,
    ensures
        final(arr)@.len() == old(arr)@.len(),
        forall|k: int| 0 <= k < final(arr)@.len() && (k < low || high < k) ==> #[trigger] final(arr)@[k] == old(arr)@[k],
        permutes(final(arr)@, old(arr)@),
        permutes(final(arr)@.subrange(low as int, high + 1), old(arr)@.subrange(low as int, high + 1)),
        sorted(final(arr)@.subrange(low as int, high + 1)),
    decreases high - low,
{
    if low >= high {
        assert(sorted(arr@.subrange(low as int, high + 1)));
        return;
    }
    let p = partition(arr, low, high, steps);
    let ghost parted = arr@;
    let pivot = arr[p];
    if p > low {
        quick_sort_helper(arr, low, p - 1, steps);
    } else {
        assert(arr@.subrange(low as int, p as int) =~= parted.subrange(low as int, p as int));
    }
    let ghost left_done = arr@;
    if p < high {
        quick_sort_helper(arr, p + 1, high, steps);
    } else {
        assert(arr@.subrange(p + 1, high + 1) =~= left_done.subrange(p + 1, high + 1));
    }
    proof {
        let fin = arr@;
        assert(fin[p as int] == pivot);
        assert(fin.subrange(low as int, p as int) =~= left_done.subrange(low as int, p as int));
        assert(left_done.subrange(p + 1, high + 1) =~= parted.subrange(p + 1, high + 1));
        let l0 = parted.subrange(low as int, p as int);
        let r0 = parted.subrange(p + 1, high + 1);
        let l1 = fin.subrange(low as int, p as int);
        let r1 = fin.subrange(p + 1, high + 1);
        assert forall|k: int| 0 <= k < l0.len() implies l0[k] < pivot by {
            assert(parted[low + k] < parted[p as int]);
        }
        assert forall|k: int| 0 <= k < r0.len() implies pivot <= r0[k] by {
            assert(parted[p + 1 + k] >= parted[p as int]);
        }
        lemma_bounds_carry(l1, l0, pivot);
        lemma_bounds_carry(r1, r0, pivot);
        lemma_three_parts(fin, parted, low as int, p as int, high + 1);
        let whole = fin.subrange(low as int, high + 1);
        assert forall|a: int, b: int| 0 <= a <= b < whole.len() implies whole[a] <= whole[b] by {
            let x = low + a;
            let y = low + b;
            if y < p {
                assert(l1[a] <= l1[b]);
            } else if x > p {
                assert(r1[a - (p + 1 - low)] <= r1[b - (p + 1 - low)]);
            } else {
                if x < p {
                    assert(l1[a] < pivot);
                }
                if y > p {
                    assert(pivot <= r1[b - (p + 1 - low)]);
                }
            }
        }
    }
}

/// Quick sort with Lomuto partitioning around the last value of each range.
/// Arrays of fewer than two values are left as they are, with no steps.
pub fn quick_sort_with_steps(arr: &mut Vec<i32>) -> (r: Result<Vec<Step>, DsavError>)
    ensures
        r is Ok,
        sorted(final(arr)@),
        permutes(final(arr)@, old(arr)@),
        old(arr)@.len() <= 1 ==> final(arr)@ == old(arr)@ && r->Ok_0@.len() == 0,
        old(arr)@.len() > 1 ==> r->Ok_0@.len() > 0,
{
    let n = arr.len();
    if n <= 1 {
        return Ok(Vec::new());
    }
    let mut steps = vec![step(lit("Starting Quick Sort"), vec![], vec![], vec![state_entry(arr)])];
    quick_sort_helper(arr, 0, n - 1, &mut steps);
    assert(arr@.subrange(0, n as int) =~= arr@);
    steps.push(step(lit("Quick sort complete"), vec![], index_range(0, n), vec![state_entry(arr)]));
    Ok(steps)
}


/// A copy of `arr[from..to]`.
fn copy_range(arr: &Vec<i32>, from: usize, to: usize) -> (r: Vec<i32>)
    requires
        from <= to <= arr@.len(),
    ensures
        r@ == arr@.subrange(from as int, to as int),
{
    let mut r: Vec<i32> = Vec::new();
    let mut k = from;
    while k < to
        invariant
            from <= k <= to <= arr@.len(),
            r@ == arr@.subrange(from as int, k as int),
        decreases to - k,
    {
        r.push(arr[k]);
        k = k + 1;
        assert(r@ =~= arr@.subrange(from as int, k as int));
    }
    r
}

/// The state of a merge once `i` values of `lh` and `j` of `rh` have been
/// placed from `left` on.
spec fn merged_so_far(a: Seq<i32>, lh: Seq<i32>, rh: Seq<i32>, left: int, i: int, j: int) -> bool {
    let k = left + i + j;
    &&& 0 <= i <= lh.len()
    &&& 0 <= j <= rh.len()
    &&& k <= a.len()
    &&& a.subrange(left, k).to_multiset() == lh.subrange(0, i).to_multiset().add(rh.subrange(0, j).to_multiset())
    &&& sorted(a.subrange(left, k))
    &&& k > left && i < lh.len() ==> a[k - 1] <= lh[i]
    &&& k > left && j < rh.len() ==> a[k - 1] <= rh[j]
}

proof fn lemma_place(a0: Seq<i32>, a1: Seq<i32>, lh: Seq<i32>, rh: Seq<i32>, left: int, i: int, j: int, from_left: bool)
    requires
        0 <= left,
        sorted(lh),
        sorted(rh),
        merged_so_far(a0, lh, rh, left, i, j),
        left + i + j < a0.len(),
        from_left ==> i < lh.len() && (j < rh.len() ==> lh[i] <= rh[j]),
        !from_left ==> j < rh.len() && (i < lh.len() ==> rh[j] < lh[i]),
        a1 == a0.update(left + i + j, if from_left { lh[i] } else { rh[j] }),
    ensures
        if from_left { merged_so_far(a1, lh, rh, left, i + 1, j) } else { merged_so_far(a1, lh, rh, left, i, j + 1) },
{
    broadcast use vstd::multiset::group_multiset_axioms;
    let k = left + i + j;
    let x = if from_left { lh[i] } else { rh[j] };
    assert(a1.subrange(left, k + 1) =~= a0.subrange(left, k).push(x));
    vstd::seq_lib::to_multiset_build(a0.subrange(left, k), x);
    if from_left {
        assert(lh.subrange(0, i + 1) =~= lh.subrange(0, i).push(x));
        vstd::seq_lib::to_multiset_build(lh.subrange(0, i), x);
        assert(a1.subrange(left, k + 1).to_multiset() =~= lh.subrange(0, i + 1).to_multiset().add(rh.subrange(0, j).to_multiset()));
    } else {
        assert(rh.subrange(0, j + 1) =~= rh.subrange(0, j).push(x));
        vstd::seq_lib::to_multiset_build(rh.subrange(0, j), x);
        assert(a1.subrange(left, k + 1).to_multiset() =~= lh.subrange(0, i).to_multiset().add(rh.subrange(0, j + 1).to_multiset()));
    }
    let m = a1.subrange(left, k + 1);
    assert forall|p: int, q: int| 0 <= p <= q < m.len() implies m[p] <= m[q] by {
        if q < m.len() - 1 {
            assert(m[p] == a0.subrange(left, k)[p]);
            assert(m[q] == a0.subrange(left, k)[q]);
        } else if p < q {
            assert(m[p] == a0.subrange(left, k)[p]);
            assert(a0.subrange(left, k)[k - 1 - left] == a0[k - 1]);
            assert(a0.subrange(left, k)[p] <= a0.subrange(left, k)[k - 1 - left]);
        }
    }
}

/// Merges the sorted ranges `arr[left..=mid]` and `arr[mid+1..=right]`.
fn merge(arr: &mut Vec<i32>, left: usize, mid: usize, right: usize, steps: &mut Vec<Step>)
    requires
        left <= mid < right < old(arr)@.len(),
        sorted(old(arr)@.subrange(left as int, mid + 1)),
        sorted(old(arr)@.subrange(mid + 1, right + 1)),
    ensures
        final(arr)@.len() == old(arr)@.len(),
        forall|k: int| 0 <= k < final(arr)@.len() && (k < left || right < k) ==> #[trigger] final(arr)@[k] == old(arr)@[k],
        permutes(final(arr)@.subrange(left as int, right + 1), old(arr)@.subrange(left as int, right + 1)),
        sorted(final(arr)@.subrange(left as int, right + 1)),
{
    broadcast use vstd::seq_lib::lemma_multiset_commutative;
    let n = arr.len();
    let lh = copy_range(arr, left, mid + 1);
    let rh = copy_range(arr, mid + 1, right + 1);
    steps.push(step(
        join(&vec![
            lit("Merging subarrays ["), index_text(left), lit(".."), index_text(mid), lit("] and ["),
            index_text(mid + 1), lit(".."), index_text(right), lit("]"),
        ]),
        index_range(left, right + 1),
        vec![],
        vec![meta_text("operation", "merge_start"), meta_index("left", left), meta_index("mid", mid), meta_index("right", right), state_entry(arr)],
    ));
    let mut i: usize = 0;
    let mut j: usize = 0;
    let mut k: usize = left;
    proof {
        assert(arr@.subrange(left as int, left as int) =~= Seq::<i32>::empty());
        assert(lh@.subrange(0, 0) =~= Seq::<i32>::empty());
        assert(rh@.subrange(0, 0) =~= Seq::<i32>::empty());
        assert(Seq::<i32>::empty().to_multiset().add(Seq::<i32>::empty().to_multiset()) =~= Seq::<i32>::empty().to_multiset());
    }
    while i < lh.len() || j < rh.len()
        invariant
            lh@ == old(arr)@.subrange(left as int, mid + 1),
            rh@ == old(arr)@.subrange(mid + 1, right + 1),
            sorted(lh@),
            sorted(rh@),
            left <= mid < right < arr@.len(),
            arr@.len() == old(arr)@.len(),
            n == arr@.len(),
            lh@.len() == mid + 1 - left,
            rh@.len() == right - mid,
            k == left + i + j,
            forall|q: int| 0 <= q < arr@.len() && (q < left || right < q) ==> #[trigger] arr@[q] == old(arr)@[q],
            merged_so_far(arr@, lh@, rh@, left as int, i as int, j as int),
        decreases lh@.len() + rh@.len() - i - j,
    {
        let ghost a0 = arr@;
        if i < lh.len() && j < rh.len() {
            steps.push(step(
                join(&vec![lit("Comparing "), int_text(lh[i] as i64), lit(" and "), int_text(rh[j] as i64)]),
                vec![k],
                vec![],
                vec![meta_text("operation", "compare"), meta_ints("values", vec![lh[i] as i64, rh[j] as i64]), state_entry(arr)],
            ));
        }
        let take_left = i < lh.len() && (j >= rh.len() || lh[i] <= rh[j]);
        let x = if take_left { lh[i] } else { rh[j] };
        arr.set(k, x);
        proof { lemma_place(a0, arr@, lh@, rh@, left as int, i as int, j as int, take_left); }
        let both = i < lh.len() && j < rh.len();
        steps.push(step(
            join(&vec![
                lit(if both { "Placing " } else { "Copying remaining element " }), int_text(x as i64),
                lit(" at index "), index_text(k),
            ]),
            vec![],
            vec![k],
            vec![
                meta_text("operation", if both { "place" } else { "copy" }),
                meta_int("value", x as i64),
                meta_index("index", k),
                state_entry(arr),
            ],
        ));
        if take_left {
            i = i + 1;
        } else {
            j = j + 1;
        }
        k = k + 1;
    }
    proof {
        assert(lh@.subrange(0, lh@.len() as int) =~= lh@);
        assert(rh@.subrange(0, rh@.len() as int) =~= rh@);
        assert(old(arr)@.subrange(left as int, right + 1) =~= lh@ + rh@);
    }
    steps.push(step(
        join(&vec![lit("Merge complete for range ["), index_text(left), lit(".."), index_text(right), lit("]")]),
        index_range(left, right + 1),
        vec![],
        vec![meta_text("operation", "merge_complete"), state_entry(arr)],
    ));
}


/// Sorts `arr[left..=right]` in place by halving, sorting each half and
/// merging, leaving the rest of the array alone.
fn merge_sort_helper(arr: &mut Vec<i32>, left: usize, right: usize, steps: &mut Vec<Step>)
    requires
        left <= right < old(arr)@.len(),
    ensures
        final(arr)@.len() == old(arr)@.len(),
        forall|k: int| 0 <= k < final(arr)@.len() && (k < left || right < k) ==> #[trigger] final(arr)@[k] == old(arr)@[k],
        permutes(final(arr)@.subrange(left as int, right + 1), old(arr)@.subrange(left as int, right + 1)),
        sorted(final(arr)@.subrange(left as int, right + 1)),
    decreases right - left,
{
    if left >= right {
        return;
    }
    let len = arr.len();
    assert(right < len);
    let mid = left + (right - left) / 2;
    steps.push(step(
        join(&vec![lit("Dividing array from index "), index_text(left), lit(" to "), index_text(right), lit(" at mid "), index_text(mid)]),
        index_range(left, right + 1),
        vec![mid],
        vec![meta_text("operation", "divide"), meta_index("left", left), meta_index("mid", mid), meta_index("right", right), state_entry(arr)],
    ));
    let ghost a0 = arr@;
    merge_sort_helper(arr, left, mid, steps);
    let ghost a1 = arr@;
    merge_sort_helper(arr, mid + 1, right, steps);
    let ghost a2 = arr@;
    proof {
        assert(a2.subrange(left as int, mid + 1) =~= a1.subrange(left as int, mid + 1));
        assert(a1.subrange(mid + 1, right + 1) =~= a0.subrange(mid + 1, right + 1));
        broadcast use vstd::seq_lib::lemma_multiset_commutative;
        assert(a2.subrange(left as int, right + 1) =~= a2.subrange(left as int, mid + 1) + a2.subrange(mid + 1, right + 1));
        assert(a0.subrange(left as int, right + 1) =~= a0.subrange(left as int, mid + 1) + a0.subrange(mid + 1, right + 1));
    }
    merge(arr, left, mid, right, steps);
}

/// Merge sort: halves sorted recursively, then merged. Arrays of fewer than
/// two values are left as they are, with no steps.
pub fn merge_sort_with_steps(arr: &mut Vec<i32>) -> (r: Result<Vec<Step>, DsavError>)
    ensures
        r is Ok,
        sorted(final(arr)@),
        permutes(final(arr)@, old(arr)@),
        old(arr)@.len() <= 1 ==> final(arr)@ == old(arr)@ && r->Ok_0@.len() == 0,
        old(arr)@.len() > 1 ==> r->Ok_0@.len() > 0,
{
    let n = arr.len();
    if n <= 1 {
        return Ok(Vec::new());
    }
    let mut steps = vec![step(lit("Starting Merge Sort"), vec![], vec![], vec![state_entry(arr)])];
    merge_sort_helper(arr, 0, n - 1, &mut steps);
    proof {
        assert(arr@.subrange(0, n as int) =~= arr@);
        assert(old(arr)@.subrange(0, n as int) =~= old(arr)@);
    }
    steps.push(step(lit("Merge sort complete"), vec![], index_range(0, n), vec![state_entry(arr)]));
    Ok(steps)
}

} // verus!
