use vstd::prelude::*;

use core::cmp::Ordering;
use vstd::std_specs::cmp::PartialOrdSpec;

verus! {

/// `a < b` under the ordering that `PartialOrd` gives `D`.
pub open spec fn less<D: PartialOrd>(a: D, b: D) -> bool {
    a.partial_cmp_spec(&b) == Some(Ordering::Less)
}

/// The elements of `s[lo..hi]` that are greater than `x` form a suffix of
/// that range: once an element exceeds `x`, every later one does too. Every
/// ascending range has this shape.
pub open spec fn split_by<D: PartialOrd>(s: Seq<D>, x: D, lo: int, hi: int) -> bool {
    forall|i: int, j: int|
        lo <= i <= j < hi && #[trigger] less(x, s[i]) ==> #[trigger] less(x, s[j])
}

/// `s` is ascending (each element at most every later one).
pub open spec fn ascending(s: Seq<u32>) -> bool {
    forall|i: int, j: int| 0 <= i <= j < s.len() ==> s[i] <= s[j]
}

/// The lower bound of the searched range, `0` by default.
pub open spec fn lo_or_default(lo: Option<usize>) -> int {
    match lo {
        Some(n) => n as int,
        None => 0,
    }
}

/// The upper bound of the searched range, the length by default.
pub open spec fn hi_or_default(hi: Option<usize>, len: int) -> int {
    match hi {
        Some(n) => n as int,
        None => len,
    }
}

/// `i` is the insertion point of `x` in `s[lo..hi]` to the right of any
/// elements equal to it: nothing before `i` is greater than `x`, and
/// everything from `i` on is.
pub open spec fn is_right_insertion_point<D: PartialOrd>(
    s: Seq<D>,
    x: D,
    lo: int,
    hi: int,
    i: int,
) -> bool {
    &&& lo <= i <= hi
    &&& forall|j: int| lo <= j < i ==> !less(x, #[trigger] s[j])
    &&& forall|j: int| i <= j < hi ==> less(x, #[trigger] s[j])
}

/// Returns the index at which `search_key` would be inserted into
/// `sorted_key[lo..hi]` to keep it sorted, after any elements equal to it.
///
/// `lo` defaults to 0 and `hi` to the length of `sorted_key`. An empty or
/// reversed range (`lo >= hi`) returns `lo`.
pub fn bisect_right<D: PartialOrd>(
    sorted_key: &Vec<D>,
    search_key: D,
    lo: Option<usize>,
    hi: Option<usize>,
) -> (r: usize)
    requires
        D::obeys_partial_cmp_spec(),
        hi_or_default(hi, sorted_key@.len() as int) <= sorted_key@.len(),
        split_by(
            sorted_key@,
            search_key,
            lo_or_default(lo),
            hi_or_default(hi, sorted_key@.len() as int),
        ),
    ensures
        lo_or_default(lo) < hi_or_default(hi, sorted_key@.len() as int) ==> is_right_insertion_point(
            sorted_key@,
            search_key,
            lo_or_default(lo),
            hi_or_default(hi, sorted_key@.len() as int),
            r as int,
        ),
        lo_or_default(lo) >= hi_or_default(hi, sorted_key@.len() as int) ==> r == lo_or_default(lo),
{
    let mut hi: usize = match hi {
        Some(num) => num,
        None => sorted_key.len(),
    };
    let mut lo: usize = match lo {
        Some(num) => num,
        None => 0,
    };
    let ghost lo0: int = lo as int;
    let ghost hi0: int = hi as int;
    while lo < hi
        invariant
            D::obeys_partial_cmp_spec(),
            hi0 <= sorted_key@.len(),
            split_by(sorted_key@, search_key, lo0, hi0),
            lo0 < hi0 ==> lo0 <= lo <= hi <= hi0,
            lo0 >= hi0 ==> lo == lo0 && hi == hi0,
            forall|j: int| lo0 <= j < lo ==> !less(search_key, #[trigger] sorted_key@[j]),
            forall|j: int| hi <= j < hi0 ==> less(search_key, #[trigger] sorted_key@[j]),
        decreases hi - lo,
    {
        let mid: usize = lo + (hi - lo) / 2;
        if search_key < sorted_key[mid] {
            assert forall|j: int| mid <= j < hi0 implies less(search_key, #[trigger] sorted_key@[j]) by {
                assert(less(search_key, sorted_key@[mid as int]));
            }
            hi = mid;
        } else {
            assert forall|j: int| lo0 <= j <= mid implies !less(search_key, #[trigger] sorted_key@[j]) by {
                if less(search_key, sorted_key@[j]) {
                    assert(less(search_key, sorted_key@[mid as int]));
                }
            }
            lo = mid + 1;
        }
    }
    lo
}

/// Every value splits an ascending sequence, so `bisect_right` can search
/// any ascending sequence for any value.
pub proof fn lemma_ascending_split(s: Seq<u32>, x: u32)
    requires
        ascending(s),
    ensures
        split_by(s, x, 0, s.len() as int),
{
    assert forall|i: int, j: int|
        0 <= i <= j < s.len() && #[trigger] less(x, s[i]) implies #[trigger] less(x, s[j]) by {
        assert(s[i] <= s[j]);
    }
}

/// Bisection is correct on every ascending sequence: the result `i` of
/// `bisect_right` leaves exactly the elements at most `x` before `i` and
/// exactly those greater than `x` from `i` on.
pub proof fn lemma_bisect_right_ascending(s: Seq<u32>, x: u32, i: int)
    requires
        ascending(s),
        is_right_insertion_point(s, x, 0, s.len() as int, i),
    ensures
        0 <= i <= s.len(),
        forall|j: int| 0 <= j < i ==> s[j] <= x,
        forall|j: int| i <= j < s.len() ==> s[j] > x,
{
    assert forall|j: int| 0 <= j < i implies s[j] <= x by {
        assert(!less(x, s[j]));
    }
    assert forall|j: int| i <= j < s.len() implies s[j] > x by {
        assert(less(x, s[j]));
    }
}

} // verus!
