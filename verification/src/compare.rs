//! Generic extrema scan over a slice: minimum and maximum values together
//! with the index of their first occurrence. Elements only need a partial
//! order; elements that do not compare equal to themselves are treated as
//! invalid and skipped, and a scan that sees no valid element reports no
//! result.

use vstd::prelude::*;
use vstd::std_specs::cmp::{PartialEqSpec, PartialOrdSpec};
use core::cmp::Ordering;

verus! {

/// Namespace for the extrema-scan entry points.
pub struct ArrayExtrema;

/// Holds exactly when the runtime comparisons of `T` are pinned down by
/// their specifications; integers satisfy this, floating point does not.
pub open spec fn cmp_follows_spec<T: PartialOrd>() -> bool {
    &&& T::obeys_eq_spec()
    &&& T::obeys_partial_cmp_spec()
}

/// A value is valid when it compares equal to itself; this is how the scan
/// skips elements without a consistent order (such as a floating-point NaN).
pub open spec fn valid_spec<T: PartialEq>(v: T) -> bool {
    v.eq_spec(&v)
}

/// Total tie-breaking comparison: the partial order where it answers, and
/// otherwise the side that is not even equal to itself loses.
pub open spec fn compare_spec<T: PartialOrd>(a: T, b: T) -> Ordering {
    match a.partial_cmp_spec(&b) {
        Some(o) => o,
        None => if !a.eq_spec(&a) {
            Ordering::Less
        } else if !b.eq_spec(&b) {
            Ordering::Greater
        } else {
            Ordering::Equal
        },
    }
}

/// Extremum result, containing value and index of its first occurrence.
#[derive(Debug, PartialEq)]
pub struct Extremum<T> {
    pub value: T,
    pub index: usize,
}

/// Extremum pair, containing min and max results.
#[derive(Debug, PartialEq)]
pub struct ExtremumPair<T> {
    pub min: Extremum<T>,
    pub max: Extremum<T>,
}

/// Result of scanning the first `n` elements of `s` for the smallest valid
/// element; on ties the earliest index wins, and `None` means the prefix
/// holds no valid element.
pub open spec fn min_scan<T: PartialOrd>(s: Seq<T>, n: int) -> Option<Extremum<T>>
    decreases n,
{
    if n <= 0 {
        None
    } else {
        let prev = min_scan(s, n - 1);
        let v = s[n - 1];
        if !valid_spec(v) {
            prev
        } else {
            match prev {
                None => Some(Extremum { value: v, index: (n - 1) as usize }),
                Some(m) => if compare_spec(v, m.value) == Ordering::Less {
                    Some(Extremum { value: v, index: (n - 1) as usize })
                } else {
                    Some(m)
                },
            }
        }
    }
}

/// Result of scanning the first `n` elements of `s` for the largest valid
/// element; on ties the earliest index wins.
pub open spec fn max_scan<T: PartialOrd>(s: Seq<T>, n: int) -> Option<Extremum<T>>
    decreases n,
{
    if n <= 0 {
        None
    } else {
        let prev = max_scan(s, n - 1);
        let v = s[n - 1];
        if !valid_spec(v) {
            prev
        } else {
            match prev {
                None => Some(Extremum { value: v, index: (n - 1) as usize }),
                Some(m) => if compare_spec(v, m.value) == Ordering::Greater {
                    Some(Extremum { value: v, index: (n - 1) as usize })
                } else {
                    Some(m)
                },
            }
        }
    }
}

/// Both scan results paired up; they report a result on exactly the same
/// inputs.
pub open spec fn min_max_scan<T: PartialOrd>(s: Seq<T>, n: int) -> Option<ExtremumPair<T>> {
    match (min_scan(s, n), max_scan(s, n)) {
        (Some(mn), Some(mx)) => Some(ExtremumPair { min: mn, max: mx }),
        _ => None,
    }
}

/// The tie-breaking comparison behaves as a total order: `Less` seen from
/// one side is `Greater` seen from the other, and being no smaller (or no
/// larger) carries over chains, also against a strict step.
pub open spec fn compare_total<T: PartialOrd>() -> bool {
    &&& forall|a: T, b: T|
        #![trigger compare_spec(a, b)]
        compare_spec(a, b) == Ordering::Less <==> compare_spec(b, a) == Ordering::Greater
    &&& forall|a: T, b: T, c: T|
        #[trigger] compare_spec(a, b) != Ordering::Less && #[trigger] compare_spec(b, c)
            != Ordering::Less ==> compare_spec(a, c) != Ordering::Less
    &&& forall|a: T, b: T, c: T|
        #[trigger] compare_spec(a, b) != Ordering::Less && #[trigger] compare_spec(b, c)
            == Ordering::Greater ==> compare_spec(a, c) == Ordering::Greater
    &&& forall|a: T, b: T, c: T|
        #[trigger] compare_spec(a, b) != Ordering::Greater && #[trigger] compare_spec(b, c)
            == Ordering::Less ==> compare_spec(a, c) == Ordering::Less
}

/// The scan reports no result exactly when the prefix holds no valid
/// element.
pub proof fn lemma_min_scan_none<T: PartialOrd>(s: Seq<T>, n: int)
    requires
        0 <= n <= s.len(),
    ensures
        min_scan(s, n) is None <==> (forall|j: int| 0 <= j < n ==> !valid_spec(#[trigger] s[j])),
    decreases n,
{
    if n > 0 {
        lemma_min_scan_none(s, n - 1);
    }
}

/// The scan reports no result exactly when the prefix holds no valid
/// element.
pub proof fn lemma_max_scan_none<T: PartialOrd>(s: Seq<T>, n: int)
    requires
        0 <= n <= s.len(),
    ensures
        max_scan(s, n) is None <==> (forall|j: int| 0 <= j < n ==> !valid_spec(#[trigger] s[j])),
    decreases n,
{
    if n > 0 {
        lemma_max_scan_none(s, n - 1);
    }
}

/// When the comparison behaves as a total order, the minimum scan returns a
/// valid element of the prefix that no valid element undercuts, and every
/// valid element before the reported index is strictly larger: ties go to
/// the first occurrence.
pub proof fn lemma_min_scan_minimal<T: PartialOrd>(s: Seq<T>, n: int)
    requires
        compare_total::<T>(),
        0 <= n <= s.len(),
        n <= usize::MAX,
        min_scan(s, n) is Some,
    ensures
        ({
            let m = min_scan(s, n)->0;
            &&& 0 <= m.index < n
            &&& s[m.index as int] == m.value
            &&& valid_spec(m.value)
            &&& forall|j: int|
                0 <= j < n && valid_spec(#[trigger] s[j]) ==> compare_spec(s[j], m.value)
                    != Ordering::Less
            &&& forall|j: int|
                0 <= j < m.index && valid_spec(#[trigger] s[j]) ==> compare_spec(s[j], m.value)
                    == Ordering::Greater
        }),
    decreases n,
{
    let m = min_scan(s, n)->0;
    let v = s[n - 1];
    let prev = min_scan(s, n - 1);
    if !valid_spec(v) {
        lemma_min_scan_minimal(s, n - 1);
    } else {
        match prev {
            None => {
                lemma_min_scan_none(s, n - 1);
                assert(compare_spec(v, v) != Ordering::Less);
            },
            Some(m0) => {
                lemma_min_scan_minimal(s, n - 1);
                assert(compare_spec(v, v) != Ordering::Less);
                if compare_spec(v, m0.value) == Ordering::Less {
                    assert(compare_spec(m0.value, v) == Ordering::Greater);
                    assert forall|j: int| 0 <= j < n - 1 && valid_spec(#[trigger] s[j]) implies
                        compare_spec(s[j], v) == Ordering::Greater by {
                        assert(compare_spec(s[j], m0.value) != Ordering::Less);
                    };
                }
            },
        }
    }
}

/// When the comparison behaves as a total order, the maximum scan returns a
/// valid element of the prefix that no valid element tops, and every valid
/// element before the reported index is strictly smaller: ties go to the
/// first occurrence.
pub proof fn lemma_max_scan_maximal<T: PartialOrd>(s: Seq<T>, n: int)
    requires
        compare_total::<T>(),
        0 <= n <= s.len(),
        n <= usize::MAX,
        max_scan(s, n) is Some,
    ensures
        ({
            let m = max_scan(s, n)->0;
            &&& 0 <= m.index < n
            &&& s[m.index as int] == m.value
            &&& valid_spec(m.value)
            &&& forall|j: int|
                0 <= j < n && valid_spec(#[trigger] s[j]) ==> compare_spec(s[j], m.value)
                    != Ordering::Greater
            &&& forall|j: int|
                0 <= j < m.index && valid_spec(#[trigger] s[j]) ==> compare_spec(s[j], m.value)
                    == Ordering::Less
        }),
    decreases n,
{
    let m = max_scan(s, n)->0;
    let v = s[n - 1];
    let prev = max_scan(s, n - 1);
    if !valid_spec(v) {
        lemma_max_scan_maximal(s, n - 1);
    } else {
        match prev {
            None => {
                lemma_max_scan_none(s, n - 1);
                assert(compare_spec(v, v) != Ordering::Greater);
            },
            Some(m0) => {
                lemma_max_scan_maximal(s, n - 1);
                assert(compare_spec(v, v) != Ordering::Greater);
                if compare_spec(v, m0.value) == Ordering::Greater {
                    assert(compare_spec(m0.value, v) == Ordering::Less);
                    assert forall|j: int| 0 <= j < n - 1 && valid_spec(#[trigger] s[j]) implies
                        compare_spec(s[j], v) == Ordering::Less by {
                        assert(compare_spec(s[j], m0.value) != Ordering::Greater);
                    };
                }
            },
        }
    }
}

/// Check if the value is valid (a value that is not equal to itself, such as
/// a floating-point NaN, is not).
fn is_valid<T: PartialOrd>(value: T) -> (r: bool)
    ensures
        T::obeys_eq_spec() ==> r == valid_spec(value),
{
    value.eq(&value)
}

/// Totalized comparison matching `compare_spec`.
fn compare_items<T: PartialOrd>(a: T, b: T) -> (r: Ordering)
    ensures
        cmp_follows_spec::<T>() ==> r == compare_spec(a, b),
{
    match a.partial_cmp(&b) {
        Some(ordering) => ordering,
        None => {
            if !a.eq(&a) {
                Ordering::Less
            } else if !b.eq(&b) {
                Ordering::Greater
            } else {
                Ordering::Equal
            }
        },
    }
}

impl ArrayExtrema {
    /// Find both the minimum and the maximum valid element of the slice and
    /// the index of their first occurrence; `None` for an empty slice or one
    /// without any valid element.
    pub fn min_max_with_indices<T>(arr: &[T]) -> (r: Option<ExtremumPair<T>>) where
        T: PartialOrd + Copy,

        ensures
            cmp_follows_spec::<T>() ==> r == min_max_scan(arr@, arr@.len() as int),
            arr@.len() == 0 ==> r is None,
            r matches Some(p) ==> p.min.index < arr@.len() && p.min.value == arr@[p.min.index as int]
                && p.max.index < arr@.len() && p.max.value == arr@[p.max.index as int],
    {
        if arr.len() == 0 {
            return None;
        }

        let mut min = Extremum { value: arr[0], index: 0 };
        let mut max = Extremum { value: arr[0], index: 0 };
        let mut found_valid = false;
        let mut i: usize = 0;

        while i < arr.len()
            invariant
                i <= arr@.len(),
                arr@.len() > 0,
                cmp_follows_spec::<T>() ==> min_scan(arr@, i as int) == (if found_valid {
                    Some(Extremum { value: min.value, index: min.index })
                } else {
                    Option::<Extremum<T>>::None
                }),
                cmp_follows_spec::<T>() ==> max_scan(arr@, i as int) == (if found_valid {
                    Some(Extremum { value: max.value, index: max.index })
                } else {
                    Option::<Extremum<T>>::None
                }),
                found_valid ==> min.index < i && min.value == arr@[min.index as int],
                found_valid ==> max.index < i && max.value == arr@[max.index as int],
            decreases arr@.len() - i,
        {
            let item = arr[i];
            if is_valid(item) {
                if !found_valid {
                    min.value = item;
                    min.index = i;
                    max.value = item;
                    max.index = i;
                    found_valid = true;
                } else {
                    match compare_items(item, min.value) {
                        Ordering::Less => {
                            min.value = item;
                            min.index = i;
                        },
                        _ => (),
                    }
                    match compare_items(item, max.value) {
                        Ordering::Greater => {
                            max.value = item;
                            max.index = i;
                        },
                        _ => (),
                    }
                }
            }
            i = i + 1;
        }

        if found_valid {
            Some(ExtremumPair { min, max })
        } else {
            None
        }
    }

    /// Find the minimum valid element of the slice and the index of its
    /// first occurrence; `None` for an empty slice or one without any valid
    /// element.
    pub fn min_with_index<T>(arr: &[T]) -> (r: Option<Extremum<T>>) where T: PartialOrd + Copy
        ensures
            cmp_follows_spec::<T>() ==> r == min_scan(arr@, arr@.len() as int),
            arr@.len() == 0 ==> r is None,
            r matches Some(m) ==> m.index < arr@.len() && m.value == arr@[m.index as int],
    {
        if arr.len() == 0 {
            return None;
        }

        let mut min = Extremum { value: arr[0], index: 0 };
        let mut found_valid = false;
        let mut i: usize = 0;

        while i < arr.len()
            invariant
                i <= arr@.len(),
                arr@.len() > 0,
                cmp_follows_spec::<T>() ==> min_scan(arr@, i as int) == (if found_valid {
                    Some(Extremum { value: min.value, index: min.index })
                } else {
                    Option::<Extremum<T>>::None
                }),
                found_valid ==> min.index < i && min.value == arr@[min.index as int],
            decreases arr@.len() - i,
        {
            let item = arr[i];
            if is_valid(item) {
                if !found_valid {
                    min.value = item;
                    min.index = i;
                    found_valid = true;
                } else {
                    match compare_items(item, min.value) {
                        Ordering::Less => {
                            min.value = item;
                            min.index = i;
                        },
                        _ => (),
                    }
                }
            }
            i = i + 1;
        }

        if found_valid {
            Some(min)
        } else {
            None
        }
    }

    /// Find the maximum valid element of the slice and the index of its
    /// first occurrence; `None` for an empty slice or one without any valid
    /// element.
    pub fn max_with_index<T>(arr: &[T]) -> (r: Option<Extremum<T>>) where T: PartialOrd + Copy
        ensures
            cmp_follows_spec::<T>() ==> r == max_scan(arr@, arr@.len() as int),
            arr@.len() == 0 ==> r is None,
            r matches Some(m) ==> m.index < arr@.len() && m.value == arr@[m.index as int],
    {
        if arr.len() == 0 {
            return None;
        }

        let mut max = Extremum { value: arr[0], index: 0 };
        let mut found_valid = false;
        let mut i: usize = 0;

        while i < arr.len()
            invariant
                i <= arr@.len(),
                arr@.len() > 0,
                cmp_follows_spec::<T>() ==> max_scan(arr@, i as int) == (if found_valid {
                    Some(Extremum { value: max.value, index: max.index })
                } else {
                    Option::<Extremum<T>>::None
                }),
                found_valid ==> max.index < i && max.value == arr@[max.index as int],
            decreases arr@.len() - i,
        {
            let item = arr[i];
            if is_valid(item) {
                if !found_valid {
                    max.value = item;
                    max.index = i;
                    found_valid = true;
                } else {
                    match compare_items(item, max.value) {
                        Ordering::Greater => {
                            max.value = item;
                            max.index = i;
                        },
                        _ => (),
                    }
                }
            }
            i = i + 1;
        }

        if found_valid {
            Some(max)
        } else {
            None
        }
    }
}

} // verus!
