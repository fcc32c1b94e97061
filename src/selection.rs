use vstd::prelude::*;

use crate::random::index_in;

verus! {

/// Number of elements of `s` strictly below `v`.
pub open spec fn count_below(s: Seq<u32>, v: int) -> nat
    decreases s.len(),
{
    if s.len() == 0 {
        0
    } else {
        count_below(s.drop_last(), v) + if (s.last() as int) < v { 1nat } else { 0nat }
    }
}

/// `v` is the element at rank `r` (0-based) of `s` once sorted ascending:
/// at most `r` elements lie below it and more than `r` lie at or below it.
pub open spec fn has_rank(s: Seq<u32>, r: int, v: u32) -> bool {
    count_below(s, v as int) <= r < count_below(s, v as int + 1)
}

/// `a` and `b` hold the same values the same number of times, as far as
/// ranks can tell.
pub open spec fn same_counts(a: Seq<u32>, b: Seq<u32>) -> bool {
    forall|v: int| #[trigger] count_below(a, v) == count_below(b, v)
}

/// Every value of `a` in `[lo, hi)` was somewhere in `b` in `[lo, hi)`.
pub open spec fn drawn_from(a: Seq<u32>, b: Seq<u32>, lo: int, hi: int) -> bool {
    forall|j: int|
        lo <= j < hi ==> exists|j2: int| lo <= j2 < hi && #[trigger] a[j] == b[j2]
}

proof fn lemma_count_bound(s: Seq<u32>, v: int)
    ensures
        count_below(s, v) <= s.len(),
    decreases s.len(),
{
    if s.len() > 0 {
        lemma_count_bound(s.drop_last(), v);
    }
}

proof fn lemma_count_all_above(s: Seq<u32>, v: int)
    requires
        forall|i: int| 0 <= i < s.len() ==> v <= #[trigger] s[i],
    ensures
        count_below(s, v) == 0,
    decreases s.len(),
{
    if s.len() > 0 {
        lemma_count_all_above(s.drop_last(), v);
    }
}

proof fn lemma_count_all_below(s: Seq<u32>, v: int)
    requires
        forall|i: int| 0 <= i < s.len() ==> #[trigger] s[i] < v,
    ensures
        count_below(s, v) == s.len(),
    decreases s.len(),
{
    if s.len() > 0 {
        lemma_count_all_below(s.drop_last(), v);
    }
}

proof fn lemma_count_concat(a: Seq<u32>, b: Seq<u32>, v: int)
    ensures
        count_below(a + b, v) == count_below(a, v) + count_below(b, v),
    decreases b.len(),
{
    if b.len() == 0 {
        assert(a + b =~= a);
    } else {
        lemma_count_concat(a, b.drop_last(), v);
        assert((a + b).drop_last() =~= a + b.drop_last());
    }
}

proof fn lemma_count_update(s: Seq<u32>, i: int, x: u32, v: int)
    requires
        0 <= i < s.len(),
    ensures
        count_below(s.update(i, x), v) + (if (s[i] as int) < v { 1int } else { 0int })
            == count_below(s, v) + (if (x as int) < v { 1int } else { 0int }),
    decreases s.len(),
{
    if i == s.len() - 1 {
        assert(s.update(i, x).drop_last() =~= s.drop_last());
    } else {
        lemma_count_update(s.drop_last(), i, x, v);
        assert(s.update(i, x).drop_last() =~= s.drop_last().update(i, x));
    }
}

proof fn lemma_swap_counts(s: Seq<u32>, i: int, j: int)
    requires
        0 <= i < s.len(),
        0 <= j < s.len(),
    ensures
        same_counts(s.update(i, s[j]).update(j, s[i]), s),
{
    assert forall|v: int| #[trigger]
        count_below(s.update(i, s[j]).update(j, s[i]), v) == count_below(s, v) by {
        lemma_count_update(s, i, s[j], v);
        lemma_count_update(s.update(i, s[j]), j, s[i], v);
    }
}

/// An element that no earlier element exceeds and no later element undercuts
/// stands at its own rank.
proof fn lemma_rank_of_split(s: Seq<u32>, k: int)
    requires
        0 <= k < s.len(),
        forall|i: int| 0 <= i < k ==> #[trigger] s[i] <= s[k],
        forall|j: int| k < j < s.len() ==> s[k] <= #[trigger] s[j],
    ensures
        has_rank(s, k, s[k]),
{
    let v = s[k] as int;
    let pre = s.subrange(0, k);
    let post = s.subrange(k, s.len() as int);
    assert(s =~= pre + post);
    lemma_count_concat(pre, post, v);
    lemma_count_bound(pre, v);
    lemma_count_all_above(post, v);
    let upto = s.subrange(0, k + 1);
    let rest = s.subrange(k + 1, s.len() as int);
    assert(s =~= upto + rest);
    lemma_count_concat(upto, rest, v + 1);
    lemma_count_all_below(upto, v + 1);
}

fn swap_at(arr: &mut Vec<u32>, i: usize, j: usize)
    requires
        i < old(arr).len(),
        j < old(arr).len(),
    ensures
        final(arr)@ == old(arr)@.update(i as int, old(arr)@[j as int]).update(
            j as int,
            old(arr)@[i as int],
        ),
{
    let a = arr[i];
    let b = arr[j];
    arr.set(i, b);
    arr.set(j, a);
}

/// Partitions `arr[lo..hi)` around the value at `pivot_index`: the values
/// strictly below the pivot move to the front of the range, the pivot goes to
/// the returned position and the values not below it follow.
fn partition(arr: &mut Vec<u32>, lo: usize, hi: usize, pivot_index: usize) -> (s: usize)
    requires
        lo <= pivot_index < hi <= old(arr).len(),
    ensures
        lo <= s < hi,
        final(arr).len() == old(arr).len(),
        final(arr)@[s as int] == old(arr)@[pivot_index as int],
        forall|i: int| lo <= i < s ==> #[trigger] final(arr)@[i] < final(arr)@[s as int],
        forall|j: int| s < j < hi ==> final(arr)@[s as int] <= #[trigger] final(arr)@[j],
        forall|i: int|
            0 <= i < final(arr).len() && !(lo <= i < hi) ==> #[trigger] final(arr)@[i]
                == old(arr)@[i],
        same_counts(final(arr)@, old(arr)@),
        drawn_from(final(arr)@, old(arr)@, lo as int, hi as int),
{
    let ghost orig = arr@;
    let pivot_value = arr[pivot_index];
    let last = hi - 1;
    swap_at(arr, pivot_index, last);
    proof {
        lemma_swap_counts(orig, pivot_index as int, last as int);
        assert forall|j: int| lo <= j < hi implies exists|j2: int|
            lo <= j2 < hi && #[trigger] arr@[j] == orig[j2] by {
            if j == pivot_index {
                assert(arr@[j] == orig[last as int]);
            } else if j == last {
                assert(arr@[j] == orig[pivot_index as int]);
            } else {
                assert(arr@[j] == orig[j]);
            }
        }
    }
    let mut store: usize = lo;
    let mut i: usize = lo;
    while i < last
        invariant
            lo <= store <= i <= last,
            last + 1 == hi <= arr.len(),
            arr.len() == orig.len(),
            arr@[last as int] == pivot_value,
            pivot_value == orig[pivot_index as int],
            forall|t: int| lo <= t < store ==> #[trigger] arr@[t] < pivot_value,
            forall|t: int| store <= t < i ==> pivot_value <= #[trigger] arr@[t],
            forall|t: int|
                0 <= t < arr.len() && !(lo <= t < hi) ==> #[trigger] arr@[t] == orig[t],
            same_counts(arr@, orig),
            drawn_from(arr@, orig, lo as int, hi as int),
        decreases last - i,
    {
        if arr[i] < pivot_value {
            let ghost prev = arr@;
            swap_at(arr, i, store);
            proof {
                lemma_swap_counts(prev, i as int, store as int);
                assert forall|j: int| lo <= j < hi implies exists|j2: int|
                    lo <= j2 < hi && #[trigger] arr@[j] == orig[j2] by {
                    let src = if j == i {
                        store as int
                    } else if j == store {
                        i as int
                    } else {
                        j
                    };
                    assert(arr@[j] == prev[src]);
                    assert(exists|j2: int| lo <= j2 < hi && prev[src] == orig[j2]);
                }
            }
            store = store + 1;
        }
        i = i + 1;
    }
    let ghost prev = arr@;
    swap_at(arr, store, last);
    proof {
        lemma_swap_counts(prev, store as int, last as int);
        assert forall|j: int| lo <= j < hi implies exists|j2: int|
            lo <= j2 < hi && #[trigger] arr@[j] == orig[j2] by {
            let src = if j == store {
                last as int
            } else if j == last {
                store as int
            } else {
                j
            };
            assert(arr@[j] == prev[src]);
            assert(exists|j2: int| lo <= j2 < hi && prev[src] == orig[j2]);
        }
    }
    store
}

/// The order facts that quickselect keeps about its active range
/// `[left, right)`: nothing before it exceeds anything from `left` on, and
/// nothing before `right` exceeds anything from `right` on.
spec fn fenced(a: Seq<u32>, left: int, right: int) -> bool {
    &&& forall|i: int, j: int|
        0 <= i < left <= j < a.len() ==> #[trigger] a[i] <= #[trigger] a[j]
    &&& forall|i: int, j: int|
        0 <= i < right <= j < a.len() ==> #[trigger] a[i] <= #[trigger] a[j]
}

/// Rearranges `arr` and returns its element at rank `k` (0-based), found by
/// randomized selection: the pivot is drawn uniformly from the active range,
/// the range is partitioned around it, and the search goes on in the side that
/// holds rank `k`.
pub fn quickselect(arr: &mut Vec<u32>, k: usize, rng: &mut rand::rngs::StdRng) -> (v: u32)
    requires
        k < old(arr).len(),
    ensures
        has_rank(old(arr)@, k as int, v),
        final(arr).len() == old(arr).len(),
        same_counts(final(arr)@, old(arr)@),
{
    let ghost orig = arr@;
    let mut left: usize = 0;
    let mut right: usize = arr.len();
    loop
        invariant
            left <= k < right <= arr.len(),
            orig == old(arr)@,
            arr.len() == orig.len(),
            same_counts(arr@, orig),
            fenced(arr@, left as int, right as int),
        decreases right - left,
    {
        let pivot_index = index_in(rng, left, right);
        let ghost prev = arr@;
        let s = partition(arr, left, right, pivot_index);
        proof {
            let a = arr@;
            assert forall|i: int, j: int|
                0 <= i < left <= j < a.len() implies #[trigger] a[i] <= #[trigger] a[j] by {
                assert(a[i] == prev[i]);
                if j < right {
                    let j2 = choose|j2: int| left <= j2 < right && a[j] == prev[j2];
                    assert(prev[i] <= prev[j2]);
                } else {
                    assert(a[j] == prev[j]);
                }
            }
            assert forall|i: int, j: int|
                0 <= i < right <= j < a.len() implies #[trigger] a[i] <= #[trigger] a[j] by {
                assert(a[j] == prev[j]);
                if i >= left {
                    let i2 = choose|i2: int| left <= i2 < right && a[i] == prev[i2];
                    assert(prev[i2] <= prev[j]);
                } else {
                    assert(a[i] == prev[i]);
                }
            }
        }
        if s == k {
            proof {
                let a = arr@;
                assert forall|i: int| 0 <= i < k implies #[trigger] a[i] <= a[k as int] by {
                    if i < left {
                        assert(a[i] <= a[k as int]);
                    }
                }
                assert forall|j: int| k < j < a.len() implies a[k as int] <= #[trigger] a[j] by {
                    if j >= right {
                        assert(a[k as int] <= a[j]);
                    }
                }
                lemma_rank_of_split(a, k as int);
                assert(count_below(a, a[k as int] as int) == count_below(orig, a[k as int] as int));
                assert(count_below(a, a[k as int] as int + 1) == count_below(
                    orig,
                    a[k as int] as int + 1,
                ));
            }
            return arr[s];
        } else if s > k {
            proof {
                let a = arr@;
                assert forall|i: int, j: int|
                    0 <= i < s <= j < a.len() implies #[trigger] a[i] <= #[trigger] a[j] by {
                    if i >= left && j < right {
                        assert(a[i] < a[s as int]);
                    }
                }
            }
            right = s;
        } else {
            proof {
                let a = arr@;
                assert forall|i: int, j: int|
                    0 <= i < s + 1 <= j < a.len() implies #[trigger] a[i] <= #[trigger] a[j] by {
                    if i >= left && j < right {
                        assert(a[s as int] <= a[j]);
                    }
                }
            }
            left = s + 1;
        }
    }
}

/// The median of one coordinate column: the middle element when the column
/// has odd length, or the two middle elements, whose mean is the median, when
/// it has even length.
#[derive(Clone, Copy, Debug, PartialEq, Eq, Structural)]
pub enum ColumnMedian {
    Single(u32),
    Between(u32, u32),
}

/// `m` is the median of the non-empty column `col`.
pub open spec fn is_median(col: Seq<u32>, m: ColumnMedian) -> bool {
    let n = col.len() as int;
    if n % 2 == 1 {
        m matches ColumnMedian::Single(v) && has_rank(col, n / 2, v)
    } else {
        m matches ColumnMedian::Between(lo, hi) && has_rank(col, n / 2 - 1, lo) && has_rank(
            col,
            n / 2,
            hi,
        )
    }
}

/// Every vector of `m` has `dim` coordinates.
pub open spec fn uniform(m: Seq<Seq<u32>>, dim: int) -> bool {
    forall|i: int| 0 <= i < m.len() ==> (#[trigger] m[i]).len() == dim
}

/// Coordinate `j` of every vector of `m`, in order.
pub open spec fn column(m: Seq<Seq<u32>>, j: int) -> Seq<u32> {
    Seq::new(m.len(), |i: int| m[i][j])
}

/// `r` holds, for each coordinate of the vectors of `m` (all of dimension
/// `dim`), the median of that coordinate's column.
pub open spec fn medians_of(m: Seq<Seq<u32>>, dim: int, r: Seq<ColumnMedian>) -> bool {
    &&& r.len() == dim
    &&& forall|j: int| 0 <= j < dim ==> is_median(column(m, j), #[trigger] r[j])
}

/// The median of `column`, by randomized selection on a copy of it (a fresh
/// copy for each of the two ranks of an even-length column).
pub fn median_with_quickselect(column: &Vec<u32>, rng: &mut rand::rngs::StdRng) -> (m:
    ColumnMedian)
    requires
        column.len() > 0,
    ensures
        is_median(column@, m),
{
    let len = column.len();
    let mid = len / 2;
    let mut arr = column.clone();
    assert(arr@ =~= column@);
    if len % 2 == 0 {
        let lo = quickselect(&mut arr, mid - 1, rng);
        let mut again = column.clone();
        assert(again@ =~= column@);
        let hi = quickselect(&mut again, mid, rng);
        ColumnMedian::Between(lo, hi)
    } else {
        ColumnMedian::Single(quickselect(&mut arr, mid, rng))
    }
}

/// Rows become columns: entry `[j][i]` of the result is entry `[i][j]` of
/// `matrix`, whose rows all have the length of the first.
pub fn transpose(matrix: &Vec<Vec<u32>>) -> (t: Vec<Vec<u32>>)
    requires
        matrix.len() > 0 ==> uniform(matrix@.map_values(|r: Vec<u32>| r@), matrix[0].len() as int),
    ensures
        matrix.len() == 0 ==> t.len() == 0,
        matrix.len() > 0 ==> t.len() == matrix[0].len(),
        forall|j: int|
            0 <= j < t.len() ==> (#[trigger] t[j])@ == column(
                matrix@.map_values(|r: Vec<u32>| r@),
                j,
            ),
{
    let ghost m = matrix@.map_values(|r: Vec<u32>| r@);
    let mut t: Vec<Vec<u32>> = Vec::new();
    if matrix.len() == 0 {
        return t;
    }
    let rows = matrix.len();
    let cols = matrix[0].len();
    let mut j: usize = 0;
    while j < cols
        invariant
            j <= cols,
            rows == matrix.len(),
            cols == matrix[0].len(),
            m == matrix@.map_values(|r: Vec<u32>| r@),
            uniform(m, cols as int),
            t.len() == j,
            forall|c: int| 0 <= c < j ==> (#[trigger] t[c])@ == column(m, c),
        decreases cols - j,
    {
        let mut col: Vec<u32> = Vec::new();
        let mut i: usize = 0;
        while i < rows
            invariant
                i <= rows,
                j < cols,
                rows == matrix.len(),
                m == matrix@.map_values(|r: Vec<u32>| r@),
                uniform(m, cols as int),
                col.len() == i,
                forall|r: int| 0 <= r < i ==> col@[r] == m[r][j as int],
            decreases rows - i,
        {
            assert(m[i as int].len() == cols);
            col.push(matrix[i][j]);
            i = i + 1;
        }
        assert(col@ =~= column(m, j as int));
        t.push(col);
        j = j + 1;
    }
    t
}

/// The coordinate-wise median of `vectors`, which all have the dimension of
/// the first: one median per coordinate, each found by randomized selection.
/// No vectors give no coordinates.
pub fn median_vector(vectors: &Vec<Vec<u32>>, rng: &mut rand::rngs::StdRng) -> (r: Vec<
    ColumnMedian,
>)
    requires
        vectors.len() > 0 ==> uniform(
            vectors@.map_values(|v: Vec<u32>| v@),
            vectors[0].len() as int,
        ),
    ensures
        vectors.len() == 0 ==> r.len() == 0,
        vectors.len() > 0 ==> medians_of(
            vectors@.map_values(|v: Vec<u32>| v@),
            vectors[0].len() as int,
            r@,
        ),
{
    let ghost m = vectors@.map_values(|v: Vec<u32>| v@);
    let columns = transpose(vectors);
    let mut r: Vec<ColumnMedian> = Vec::new();
    let mut j: usize = 0;
    while j < columns.len()
        invariant
            j <= columns.len(),
            m == vectors@.map_values(|v: Vec<u32>| v@),
            vectors.len() == 0 ==> columns.len() == 0,
            vectors.len() > 0 ==> columns.len() == vectors[0].len(),
            forall|c: int| 0 <= c < columns.len() ==> (#[trigger] columns[c])@ == column(m, c),
            r.len() == j,
            forall|c: int| 0 <= c < j ==> is_median(column(m, c), #[trigger] r@[c]),
        decreases columns.len() - j,
    {
        assert(columns[j as int]@ == column(m, j as int));
        let med = median_with_quickselect(&columns[j], rng);
        r.push(med);
        j = j + 1;
    }
    r
}

/// A rank names one value: two values at the same rank of a column are equal.
pub proof fn lemma_rank_unique(s: Seq<u32>, r: int, v: u32, w: u32)
    requires
        has_rank(s, r, v),
        has_rank(s, r, w),
    ensures
        v == w,
{
    if v < w {
        lemma_count_monotone(s, v as int + 1, w as int);
    } else if w < v {
        lemma_count_monotone(s, w as int + 1, v as int);
    }
}

proof fn lemma_count_monotone(s: Seq<u32>, a: int, b: int)
    requires
        a <= b,
    ensures
        count_below(s, a) <= count_below(s, b),
    decreases s.len(),
{
    if s.len() > 0 {
        lemma_count_monotone(s.drop_last(), a, b);
    }
}

proof fn lemma_multiset_counts(a: Seq<u32>, b: Seq<u32>, v: int)
    requires
        a.to_multiset() =~= b.to_multiset(),
    ensures
        count_below(a, v) == count_below(b, v),
    decreases a.len(),
{
    broadcast use vstd::seq_lib::group_to_multiset_ensures;

    if a.len() == 0 {
        assert(b.to_multiset().len() == b.len());
        assert(b.len() == 0);
    } else {
        let x = a.last();
        let rest = a.drop_last();
        assert(rest.push(x) =~= a);
        assert(a.contains(x)) by {
            assert(a[a.len() - 1] == x);
        }
        assert(b.to_multiset().count(x) > 0);
        assert(b.contains(x));
        let j = choose|j: int| 0 <= j < b.len() && b[j] == x;
        let b2 = b.remove(j);
        assert(b2.to_multiset() =~= b.to_multiset().remove(x));
        assert(rest.to_multiset() =~= a.to_multiset().remove(x));
        lemma_multiset_counts(rest, b2, v);
        let pre = b.subrange(0, j);
        let post = b.subrange(j + 1, b.len() as int);
        assert(b =~= pre + seq![x] + post);
        assert(b2 =~= pre + post);
        lemma_count_concat(pre + seq![x], post, v);
        lemma_count_concat(pre, seq![x], v);
        lemma_count_concat(pre, post, v);
        let one = seq![x];
        assert(one.drop_last() =~= Seq::<u32>::empty());
        assert(count_below(Seq::<u32>::empty(), v) == 0);
        assert(count_below(one, v) == if (x as int) < v { 1nat } else { 0nat });
        assert(count_below(a, v) == count_below(rest, v) + if (x as int) < v { 1nat } else { 0nat });
    }
}

/// Randomized selection agrees with sorting: whatever value stands at rank
/// `r` of a column is the element at position `r` of any ascending sorted
/// copy of that column.
pub proof fn lemma_rank_matches_sorted(s: Seq<u32>, sorted: Seq<u32>, r: int, v: u32)
    requires
        sorted.to_multiset() =~= s.to_multiset(),
        forall|i: int, j: int| 0 <= i <= j < sorted.len() ==> sorted[i] <= sorted[j],
        0 <= r < s.len(),
        has_rank(s, r, v),
    ensures
        sorted[r] == v,
{
    broadcast use vstd::seq_lib::group_to_multiset_ensures;

    assert(sorted.len() == s.len()) by {
        assert(sorted.to_multiset().len() == s.to_multiset().len());
    }
    lemma_rank_of_split(sorted, r);
    lemma_multiset_counts(sorted, s, sorted[r] as int);
    lemma_multiset_counts(sorted, s, sorted[r] as int + 1);
    lemma_rank_unique(s, r, v, sorted[r]);
}

/// The median of a single vector is that vector: each coordinate's median is
/// the coordinate itself.
pub proof fn lemma_median_of_one(v: Seq<u32>, r: Seq<ColumnMedian>)
    requires
        medians_of(seq![v], v.len() as int, r),
    ensures
        r == v.map_values(|x: u32| ColumnMedian::Single(x)),
{
    assert forall|j: int| 0 <= j < v.len() implies r[j] == ColumnMedian::Single(v[j]) by {
        let col = column(seq![v], j);
        assert(col =~= seq![v[j]]);
        assert(is_median(col, r[j]));
        let m = r[j];
        assert(col.len() == 1);
        assert(col.drop_last() =~= Seq::<u32>::empty());
        assert(count_below(Seq::<u32>::empty(), 0) == 0);
        if let ColumnMedian::Single(x) = m {
            assert(has_rank(col, 0, x));
            assert(count_below(col, x as int) == count_below(Seq::<u32>::empty(), x as int) + if (
            v[j] as int) < (x as int) { 1nat } else { 0nat });
            assert(count_below(col, x as int + 1) == count_below(Seq::<u32>::empty(), x as int + 1)
                + if (v[j] as int) < (x as int + 1) { 1nat } else { 0nat });
        }
    }
    assert(r =~= v.map_values(|x: u32| ColumnMedian::Single(x)));
}

} // verus!
