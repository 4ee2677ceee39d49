//! Range location in sorted slices by dual binary search.
//!
//! Given a slice that is sorted with respect to an asymmetric comparison
//! `lt(element, key)` ("the element's key is strictly less than `key`") and a
//! half-open key range `[start, end)`, [`search_by`] returns the borrowed,
//! contiguous sub-slice holding exactly the elements whose keys lie in the
//! range, in logarithmic time and constant auxiliary space, without
//! allocating or mutating anything.
//!
//! The comparison is an arbitrary function value, so its meaning enters the
//! specification as an abstract relation: a spec function `rel` *describes*
//! the comparison when every outcome a call can produce is the value of
//! `rel` on the same element and key.  [`search_by`] promises, for every
//! describing relation that partitions the slice at both ends of the range,
//! that the returned view is exactly [`located_range`] under that relation.
//! A comparison that no such relation describes — one that is not a pure,
//! consistent predicate — still gets a memory-safe, terminating call, but no
//! particular view is promised, which is all that can be said for it.

use core::ops::Range;
use vstd::prelude::*;
use vstd::slice::slice_index_get;
use vstd::slice::slice_subrange;

verus! {

/// The relation `rel` describes the comparison `lt`: whenever a call of
/// `lt` on element `x` and key `k` can return `b`, then `b` is `rel(x, k)`.
/// A comparison that behaves as a pure predicate is described by that
/// predicate; one that can answer two ways on the same pair is described by
/// no relation at all.
pub open spec fn describes<T, K, L: Fn(&T, &K) -> bool>(lt: L, rel: spec_fn(T, K) -> bool) -> bool {
    forall|x: T, k: K, b: bool| #[trigger] call_ensures(lt, (&x, &k), b) ==> b == rel(x, k)
}

/// Element `x` lies in the half-open range `[start, end)` under `rel`: not
/// less than `start`, and less than `end`.
pub open spec fn in_range<T, K>(rel: spec_fn(T, K) -> bool, x: T, start: K, end: K) -> bool {
    &&& !rel(x, start)
    &&& rel(x, end)
}

/// The sequence is partitioned by key `k` under `rel`: the elements less
/// than `k` form a prefix, the rest the complementary suffix.  This is the
/// monotonicity that sortedness gives to every fixed key, and all that
/// binary search needs.
pub open spec fn partitioned_by<T, K>(s: Seq<T>, rel: spec_fn(T, K) -> bool, k: K) -> bool {
    forall|i: int, j: int|
        #![trigger s[i], s[j]]
        0 <= i <= j < s.len() && rel(s[j], k) ==> rel(s[i], k)
}

/// The number of elements of `s` that are less than `k` under `rel`.  On a
/// sequence partitioned by `k` this is the partition point: the index where
/// `rel(element, k)` switches from true to false.
pub open spec fn count_lt<T, K>(s: Seq<T>, rel: spec_fn(T, K) -> bool, k: K) -> int
    decreases s.len(),
{
    if s.len() == 0 {
        0
    } else {
        count_lt(s.drop_last(), rel, k) + if rel(s.last(), k) {
            1int
        } else {
            0int
        }
    }
}

/// The view that a range search must return: the elements from the
/// partition point of `start` up to the partition point of `end`, or
/// nothing when the two cross (as they do when `start` lies beyond `end` in
/// the element order).
pub open spec fn located_range<T, K>(s: Seq<T>, rel: spec_fn(T, K) -> bool, start: K, end: K) -> Seq<
    T,
> {
    let lo = count_lt(s, rel, start);
    let hi = count_lt(s, rel, end);
    if lo <= hi {
        s.subrange(lo, hi)
    } else {
        Seq::empty()
    }
}

/// The relation `rel` is a model of searching `s` for `[start, end)` with
/// the comparison `lt`: it describes `lt`, and it partitions `s` at both
/// ends of the range.  [`search_by`]'s result is pinned down under every
/// model at once.
pub open spec fn valid_model<T, K, L: Fn(&T, &K) -> bool>(
    lt: L,
    s: Seq<T>,
    start: K,
    end: K,
    rel: spec_fn(T, K) -> bool,
) -> bool {
    &&& describes(lt, rel)
    &&& partitioned_by(s, rel, start)
    &&& partitioned_by(s, rel, end)
}

/// The count of elements below a key never leaves `[0, len]`.
pub proof fn lemma_count_lt_bounds<T, K>(s: Seq<T>, rel: spec_fn(T, K) -> bool, k: K)
    ensures
        0 <= count_lt(s, rel, k) <= s.len(),
    decreases s.len(),
{
    if s.len() > 0 {
        lemma_count_lt_bounds(s.drop_last(), rel, k);
    }
}

/// On a sequence partitioned by `k`, the elements less than `k` are exactly
/// those before index `count_lt(s, rel, k)`: the count is the partition
/// point.
pub proof fn lemma_count_lt_is_partition_point<T, K>(s: Seq<T>, rel: spec_fn(T, K) -> bool, k: K)
    requires
        partitioned_by(s, rel, k),
    ensures
        0 <= count_lt(s, rel, k) <= s.len(),
        forall|i: int| 0 <= i < s.len() ==> (rel(#[trigger] s[i], k) <==> i < count_lt(s, rel, k)),
    decreases s.len(),
{
    lemma_count_lt_bounds(s, rel, k);
    if s.len() > 0 {
        let s0 = s.drop_last();
        let last = s.len() - 1;
        assert forall|i: int, j: int|
            #![trigger s0[i], s0[j]]
            0 <= i <= j < s0.len() && rel(s0[j], k) implies rel(s0[i], k) by {
            assert(s0[i] == s[i]);
            assert(s0[j] == s[j]);
        }
        lemma_count_lt_is_partition_point(s0, rel, k);
        lemma_count_lt_bounds(s0, rel, k);
        if rel(s.last(), k) {
            assert forall|i: int| 0 <= i < last implies rel(#[trigger] s0[i], k) by {
                assert(s0[i] == s[i]);
                assert(rel(s[last], k));
            }
            assert(count_lt(s0, rel, k) == last);
            assert forall|i: int| 0 <= i < s.len() implies (rel(#[trigger] s[i], k) <==> i
                < count_lt(s, rel, k)) by {
                if i < last {
                    assert(s0[i] == s[i]);
                }
            }
        } else {
            assert forall|i: int| 0 <= i < s.len() implies (rel(#[trigger] s[i], k) <==> i
                < count_lt(s, rel, k)) by {
                if i < last {
                    assert(s0[i] == s[i]);
                } else {
                    assert(count_lt(s, rel, k) == count_lt(s0, rel, k) <= last);
                }
            }
        }
    }
}

/// The located view is exactly the maximal contiguous run of in-range
/// elements: an index holds an in-range element iff it lies between the two
/// partition points, the view is the subrange between those points, and the
/// neighbours just outside the view — at `lo - 1` and at `hi` — fail
/// membership in the range.
pub proof fn lemma_located_range_exact<T, K>(s: Seq<T>, rel: spec_fn(T, K) -> bool, start: K, end: K)
    requires
        partitioned_by(s, rel, start),
        partitioned_by(s, rel, end),
    ensures
        ({
            let lo = count_lt(s, rel, start);
            let hi = count_lt(s, rel, end);
            let v = located_range(s, rel, start, end);
            &&& 0 <= lo <= s.len()
            &&& 0 <= hi <= s.len()
            &&& forall|i: int|
                0 <= i < s.len() ==> (in_range(rel, #[trigger] s[i], start, end) <==> lo <= i < hi)
            &&& lo <= hi ==> v == s.subrange(lo, hi)
            &&& v.len() == if lo < hi {
                hi - lo
            } else {
                0
            }
            &&& forall|j: int| 0 <= j < v.len() ==> #[trigger] v[j] == s[lo + j]
            &&& forall|j: int| 0 <= j < v.len() ==> in_range(rel, #[trigger] v[j], start, end)
            &&& 0 <= lo - 1 < s.len() ==> !in_range(rel, s[lo - 1], start, end)
            &&& hi < s.len() ==> !in_range(rel, s[hi], start, end)
        }),
{
    lemma_count_lt_is_partition_point(s, rel, start);
    lemma_count_lt_is_partition_point(s, rel, end);
}

/// An empty input locates to the empty view, whatever the range.
pub proof fn lemma_empty_input<T, K>(s: Seq<T>, rel: spec_fn(T, K) -> bool, start: K, end: K)
    requires
        s.len() == 0,
    ensures
        located_range(s, rel, start, end) == Seq::<T>::empty(),
{
    assert(located_range(s, rel, start, end) =~= Seq::<T>::empty());
}

/// A range that no element satisfies — for instance one lying wholly below
/// the minimum or wholly above the maximum key — locates to the empty view.
pub proof fn lemma_range_covers_none<T, K>(s: Seq<T>, rel: spec_fn(T, K) -> bool, start: K, end: K)
    requires
        partitioned_by(s, rel, start),
        partitioned_by(s, rel, end),
        forall|i: int| 0 <= i < s.len() ==> !in_range(rel, #[trigger] s[i], start, end),
    ensures
        located_range(s, rel, start, end) == Seq::<T>::empty(),
{
    lemma_located_range_exact(s, rel, start, end);
    let lo = count_lt(s, rel, start);
    let hi = count_lt(s, rel, end);
    if lo < hi {
        assert(in_range(rel, s[lo], start, end));
    }
    assert(located_range(s, rel, start, end) =~= Seq::<T>::empty());
}

/// A singleton sequence locates to itself when its sole element's key lies
/// in `[start, end)`, and to the empty view otherwise.
pub proof fn lemma_singleton<T, K>(s: Seq<T>, rel: spec_fn(T, K) -> bool, start: K, end: K)
    requires
        s.len() == 1,
    ensures
        in_range(rel, s[0], start, end) ==> located_range(s, rel, start, end) == s,
        !in_range(rel, s[0], start, end) ==> located_range(s, rel, start, end) == Seq::<T>::empty(),
{
    assert(s.last() == s[0]);
    assert(s.drop_last().len() == 0);
    assert(count_lt(s.drop_last(), rel, start) == 0);
    assert(count_lt(s.drop_last(), rel, end) == 0);
    if in_range(rel, s[0], start, end) {
        assert(located_range(s, rel, start, end) =~= s);
    } else {
        assert(located_range(s, rel, start, end) =~= Seq::<T>::empty());
    }
}

/// Locating is a function of the sequence, the relation and the range
/// alone: two results of identical arguments are the identical view, so
/// repeating a search changes nothing.
pub proof fn lemma_locate_deterministic<T, K>(
    s: Seq<T>,
    rel: spec_fn(T, K) -> bool,
    start: K,
    end: K,
    v1: Seq<T>,
    v2: Seq<T>,
)
    requires
        v1 == located_range(s, rel, start, end),
        v2 == located_range(s, rel, start, end),
    ensures
        v1 == v2,
{
}

/// Search a sorted slice for the run of elements whose keys lie in the
/// half-open range `[r.start, r.end)`.
///
/// For every relation that describes `lt` and partitions the slice at both
/// ends of the range — for a pure comparison over a sorted slice, the
/// comparison's own predicate — the result is the borrowed, contiguous
/// sub-slice [`located_range`] picks out: the elements from the first one
/// not less than `r.start` up to the first one not less than `r.end`, which
/// is empty whenever no element qualifies, an inverted range included.  An
/// inconsistent comparison or an unsorted slice admits no such relation and
/// gets an unspecified view, but never a panic, an out-of-bounds read or a
/// non-terminating call.  Worst-case time is logarithmic in `ts.len()`.
pub fn search_by<K, T, L: Fn(&T, &K) -> bool>(ts: &[T], r: Range<K>, lt: L) -> (res: &[T])
    requires
        forall|i: int|
            0 <= i < ts@.len() ==> call_requires(lt, (&ts@[i], &r.start)) && call_requires(
                lt,
                (&ts@[i], &r.end),
            ),
    ensures
        exists|lo: int, hi: int|
            0 <= lo <= hi <= ts@.len() && res@ == ts@.subrange(lo, hi),
        forall|rel: spec_fn(T, K) -> bool|
            #[trigger] valid_model(lt, ts@, r.start, r.end, rel) ==> res@ == located_range(
                ts@,
                rel,
                r.start,
                r.end,
            ),
{
    let mut size = ts.len();
    if size == 0 {
        proof {
            assert(ts@ == ts@.subrange(0, ts@.len() as int)) by {
                assert(ts@ =~= ts@.subrange(0, ts@.len() as int));
            }
            assert forall|rel: spec_fn(T, K) -> bool|
                #[trigger] valid_model(lt, ts@, r.start, r.end, rel) implies ts@ == located_range(
                ts@,
                rel,
                r.start,
                r.end,
            ) by {
                assert(ts@ =~= located_range(ts@, rel, r.start, r.end));
            }
        }
        return ts;
    }
    let mut base: usize = 0;
    proof {
        assert forall|rel: spec_fn(T, K) -> bool|
            #[trigger] valid_model(lt, ts@, r.start, r.end, rel) implies 0 <= count_lt(
            ts@,
            rel,
            r.start,
        ) && count_lt(ts@, rel, r.end) <= ts@.len() by {
            lemma_count_lt_bounds(ts@, rel, r.start);
            lemma_count_lt_bounds(ts@, rel, r.end);
        }
    }
    while size > 1
        invariant
            forall|i: int|
                0 <= i < ts@.len() ==> call_requires(lt, (&ts@[i], &r.start)) && call_requires(
                    lt,
                    (&ts@[i], &r.end),
                ),
            1 <= size,
            base + size <= ts@.len() <= usize::MAX,
            forall|rel: spec_fn(T, K) -> bool|
                #[trigger] valid_model(lt, ts@, r.start, r.end, rel) ==> base <= count_lt(
                    ts@,
                    rel,
                    r.start,
                ) && count_lt(ts@, rel, r.end) <= base + size,
        decreases size,
    {
        let half = size / 2;
        let mid = base + half;
        let cmp = slice_index_get(ts, mid);
        let below_start = lt(cmp, &r.start);
        if below_start {
            proof {
                assert forall|rel: spec_fn(T, K) -> bool|
                    #[trigger] valid_model(lt, ts@, r.start, r.end, rel) implies mid <= count_lt(
                    ts@,
                    rel,
                    r.start,
                ) && count_lt(ts@, rel, r.end) <= base + size by {
                    lemma_count_lt_is_partition_point(ts@, rel, r.start);
                    assert(rel(ts@[mid as int], r.start));
                }
            }
            base = mid;
        } else {
            let below_end = lt(cmp, &r.end);
            if below_end {
                // The window straddles both boundaries: refine each one with
                // its own partition-point bisection, the lower in
                // `base..mid`, the upper in `mid..base + size`.
                proof {
                    assert forall|rel: spec_fn(T, K) -> bool|
                        #[trigger] valid_model(lt, ts@, r.start, r.end, rel) implies base
                        <= count_lt(ts@, rel, r.start) <= mid && mid < count_lt(ts@, rel, r.end)
                        <= base + size by {
                        lemma_count_lt_is_partition_point(ts@, rel, r.start);
                        lemma_count_lt_is_partition_point(ts@, rel, r.end);
                        assert(!rel(ts@[mid as int], r.start));
                        assert(rel(ts@[mid as int], r.end));
                    }
                }
                let mut lbase = base;
                let mut lsize = half;
                while lsize > 1
                    invariant
                        forall|i: int|
                            0 <= i < ts@.len() ==> call_requires(lt, (&ts@[i], &r.start))
                                && call_requires(lt, (&ts@[i], &r.end)),
                        1 <= lsize,
                        lbase + lsize <= mid,
                        mid < ts@.len(),
                        forall|rel: spec_fn(T, K) -> bool|
                            #[trigger] valid_model(lt, ts@, r.start, r.end, rel) ==> lbase
                                <= count_lt(ts@, rel, r.start) <= lbase + lsize,
                    decreases lsize,
                {
                    let lhalf = lsize / 2;
                    let lmid = lbase + lhalf;
                    let c = slice_index_get(ts, lmid);
                    let b = lt(c, &r.start);
                    proof {
                        assert forall|rel: spec_fn(T, K) -> bool|
                            #[trigger] valid_model(lt, ts@, r.start, r.end, rel) implies (if b {
                            lmid <= count_lt(ts@, rel, r.start)
                        } else {
                            count_lt(ts@, rel, r.start) <= lmid
                        }) by {
                            lemma_count_lt_is_partition_point(ts@, rel, r.start);
                            assert(b == rel(ts@[lmid as int], r.start));
                        }
                    }
                    if b {
                        lbase = lmid;
                    }
                    lsize -= lhalf;
                }
                let c = slice_index_get(ts, lbase);
                let b0 = lt(c, &r.start);
                let lstart = if b0 {
                    lbase + 1
                } else {
                    lbase
                };
                proof {
                    assert forall|rel: spec_fn(T, K) -> bool|
                        #[trigger] valid_model(lt, ts@, r.start, r.end, rel) implies lstart
                        == count_lt(ts@, rel, r.start) by {
                        lemma_count_lt_is_partition_point(ts@, rel, r.start);
                        assert(b0 == rel(ts@[lbase as int], r.start));
                    }
                }
                let mut rbase = mid;
                let mut rsize = size - half;
                while rsize > 1
                    invariant
                        forall|i: int|
                            0 <= i < ts@.len() ==> call_requires(lt, (&ts@[i], &r.start))
                                && call_requires(lt, (&ts@[i], &r.end)),
                        1 <= rsize,
                        mid <= rbase,
                        rbase + rsize <= ts@.len() <= usize::MAX,
                        forall|rel: spec_fn(T, K) -> bool|
                            #[trigger] valid_model(lt, ts@, r.start, r.end, rel) ==> rbase
                                < count_lt(ts@, rel, r.end) <= rbase + rsize,
                    decreases rsize,
                {
                    let rhalf = rsize / 2;
                    let rmid = rbase + rhalf;
                    let c = slice_index_get(ts, rmid);
                    let b = lt(c, &r.end);
                    proof {
                        assert forall|rel: spec_fn(T, K) -> bool|
                            #[trigger] valid_model(lt, ts@, r.start, r.end, rel) implies (if b {
                            rmid < count_lt(ts@, rel, r.end)
                        } else {
                            count_lt(ts@, rel, r.end) <= rmid
                        }) by {
                            lemma_count_lt_is_partition_point(ts@, rel, r.end);
                            assert(b == rel(ts@[rmid as int], r.end));
                        }
                    }
                    if b {
                        rbase = rmid;
                    }
                    rsize -= rhalf;
                }
                let c = slice_index_get(ts, rbase);
                let b1 = lt(c, &r.end);
                let rend = if b1 {
                    rbase + 1
                } else {
                    rbase
                };
                proof {
                    assert forall|rel: spec_fn(T, K) -> bool|
                        #[trigger] valid_model(lt, ts@, r.start, r.end, rel) implies rend
                        == count_lt(ts@, rel, r.end) by {
                        lemma_count_lt_is_partition_point(ts@, rel, r.end);
                        assert(b1 == rel(ts@[rbase as int], r.end));
                    }
                }
                let res = slice_subrange(ts, lstart, rend);
                proof {
                    assert forall|rel: spec_fn(T, K) -> bool|
                        #[trigger] valid_model(lt, ts@, r.start, r.end, rel) implies res@
                        == located_range(ts@, rel, r.start, r.end) by {
                        assert(lstart == count_lt(ts@, rel, r.start));
                        assert(rend == count_lt(ts@, rel, r.end));
                    }
                }
                return res;
            } else {
                proof {
                    assert forall|rel: spec_fn(T, K) -> bool|
                        #[trigger] valid_model(lt, ts@, r.start, r.end, rel) implies base
                        <= count_lt(ts@, rel, r.start) && count_lt(ts@, rel, r.end) <= base + (size
                        - half) by {
                        lemma_count_lt_is_partition_point(ts@, rel, r.end);
                        assert(!rel(ts@[mid as int], r.end));
                    }
                }
            }
        }
        size -= half;
    }
    let c = slice_index_get(ts, base);
    let below_end = lt(c, &r.end);
    let at_or_above_start = !lt(c, &r.start);
    if below_end && at_or_above_start {
        let res = slice_subrange(ts, base, base + 1);
        proof {
            assert forall|rel: spec_fn(T, K) -> bool|
                #[trigger] valid_model(lt, ts@, r.start, r.end, rel) implies res@ == located_range(
                ts@,
                rel,
                r.start,
                r.end,
            ) by {
                lemma_count_lt_is_partition_point(ts@, rel, r.start);
                lemma_count_lt_is_partition_point(ts@, rel, r.end);
                assert(rel(ts@[base as int], r.end));
                assert(!rel(ts@[base as int], r.start));
                assert(count_lt(ts@, rel, r.start) == base);
                assert(count_lt(ts@, rel, r.end) == base + 1);
            }
        }
        res
    } else {
        let res = slice_subrange(ts, base, base);
        proof {
            assert forall|rel: spec_fn(T, K) -> bool|
                #[trigger] valid_model(lt, ts@, r.start, r.end, rel) implies res@ == located_range(
                ts@,
                rel,
                r.start,
                r.end,
            ) by {
                lemma_count_lt_is_partition_point(ts@, rel, r.start);
                lemma_count_lt_is_partition_point(ts@, rel, r.end);
                assert(below_end == rel(ts@[base as int], r.end));
                if below_end {
                    assert(rel(ts@[base as int], r.start));
                }
                assert(count_lt(ts@, rel, r.end) <= count_lt(ts@, rel, r.start));
                assert(res@ =~= located_range(ts@, rel, r.start, r.end));
            }
        }
        res
    }
}

} // verus!
