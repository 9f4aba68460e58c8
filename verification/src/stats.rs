//! Per-group statistics: minimum, maximum and median over decoded values.
//!
//! A group's value spans are decoded to fixed-point integers, placed in
//! ascending order, and summarized. The median is kept at twice the
//! fixed-point scale so the mean of the two middle values of an even-sized
//! group stays exact.

use vstd::prelude::*;
use vstd::relations::{sorted_by, total_ordering};
use vstd::seq_lib::lemma_sorted_unique;

use crate::Error;
use crate::fixed::{decoded, fits_i64, is_value, spec_decode_err, to_decimal_int};
use crate::scan::{span_bytes, span_in, Span};

verus! {

/// The ascending order on fixed-point values.
pub open spec fn le64_fn() -> spec_fn(i64, i64) -> bool {
    |x: i64, y: i64| x <= y
}

/// A sequence that never descends.
pub open spec fn ascending(s: Seq<i64>) -> bool {
    forall|a: int, b: int| 0 <= a < b < s.len() ==> s[a] <= s[b]
}

/// The values of a sequence, rearranged in ascending order.
pub open spec fn sorted64(s: Seq<i64>) -> Seq<i64> {
    s.sort_by(le64_fn())
}

pub proof fn lemma_le64_total()
    ensures
        total_ordering(le64_fn()),
{
    let r = le64_fn();
    assert forall|x: i64| #[trigger] r(x, x) by {}
    assert forall|x: i64, y: i64| #[trigger] r(x, y) && #[trigger] r(y, x) implies x == y by {}
    assert forall|x: i64, y: i64, z: i64| #[trigger] r(x, y) && #[trigger] r(y, z) implies r(
        x,
        z,
    ) by {}
    assert forall|x: i64, y: i64| #[trigger] r(x, y) || #[trigger] r(y, x) by {}
}

pub proof fn lemma_sorted64_ensures(s: Seq<i64>)
    ensures
        sorted64(s).to_multiset() == s.to_multiset(),
        sorted64(s).len() == s.len(),
        sorted_by(sorted64(s), le64_fn()),
        ascending(sorted64(s)),
{
    broadcast use vstd::seq_lib::to_multiset_len;

    s.lemma_sort_by_ensures(le64_fn());
    let t = sorted64(s);
    assert(t.to_multiset() == s.to_multiset());
    assert(t.len() == t.to_multiset().len());
    assert(s.len() == s.to_multiset().len());
    assert forall|a: int, b: int| 0 <= a < b < t.len() implies t[a] <= t[b] by {
        assert(le64_fn()(t[a], t[b]));
    }
}

/// An ascending sequence with the same values as `s` is the one and only
/// ascending rearrangement of `s`.
pub proof fn lemma_sorted64_unique(s: Seq<i64>, t: Seq<i64>)
    requires
        sorted_by(t, le64_fn()),
        t.to_multiset() == s.to_multiset(),
    ensures
        t == sorted64(s),
{
    lemma_le64_total();
    lemma_sorted64_ensures(s);
    lemma_sorted_unique(t, sorted64(s), le64_fn());
    assert(t =~= sorted64(s));
}

/// Place fixed-point values in ascending order.
///
/// The result is the unique ascending rearrangement of the input.
#[verifier::loop_isolation(false)]
pub fn sort_values(vals: &Vec<i64>) -> (r: Vec<i64>)
    ensures
        r@ == sorted64(vals@),
{
    let mut out: Vec<i64> = Vec::new();
    proof {
        assert(vals@.subrange(0, 0) =~= Seq::<i64>::empty());
    }
    let mut i: usize = 0;
    while i < vals.len()
        invariant
            i <= vals@.len(),
            ascending(out@),
            out@.to_multiset() == vals@.subrange(0, i as int).to_multiset(),
        decreases vals@.len() - i,
    {
        let x = vals[i];
        let mut p: usize = 0;
        while p < out.len() && out[p] <= x
            invariant
                p <= out@.len(),
                forall|q: int| 0 <= q < p ==> out@[q] <= x,
            decreases out@.len() - p,
        {
            p += 1;
        }
        let ghost prev = out@;
        proof {
            assert(p == prev.len() || prev[p as int] > x);
        }
        out.insert(p, x);
        proof {
            prev.insert_ensures(p as int, x);
            assert forall|a: int, b: int| 0 <= a < b < out@.len() implies out@[a] <= out@[b] by {
                if b < p {
                } else if a < p && b == p {
                } else if a < p && b > p {
                    assert(out@[b] == prev[b - 1]);
                    if b - 1 > a {
                        assert(prev[a] <= prev[b - 1]);
                    }
                } else if a == p {
                    assert(out@[b] == prev[b - 1]);
                    if b - 1 > p {
                        assert(prev[p as int] <= prev[b - 1]);
                    }
                } else {
                    assert(out@[a] == prev[a - 1] && out@[b] == prev[b - 1]);
                }
            }
            vstd::seq_lib::to_multiset_insert(prev, p as int, x);
            assert(vals@.subrange(0, i + 1) =~= vals@.subrange(0, i as int).push(
                vals@[i as int],
            ));
            vstd::seq_lib::to_multiset_build(vals@.subrange(0, i as int), vals@[i as int]);
        }
        i += 1;
    }
    proof {
        assert(vals@.subrange(0, vals@.len() as int) =~= vals@);
        assert(sorted_by(out@, le64_fn())) by {
            assert forall|a: int, b: int| 0 <= a < b < out@.len() implies le64_fn()(
                out@[a],
                out@[b],
            ) by {
                assert(out@[a] <= out@[b]);
            }
        }
        lemma_sorted64_unique(vals@, out@);
    }
    out
}

/// The sum of the two middle values of a sequence: twice its median.
pub open spec fn median_x2_of(s: Seq<i64>) -> int {
    s[(s.len() as int - 1) / 2] + s[s.len() as int / 2]
}

/// Twice the median of a non-empty ascending sequence of fixed-point values:
/// the sum of the two middle values, which for an odd count are one and the
/// same. At twice the scale the even-count mean stays exact.
pub fn median(sorted: &Vec<i64>) -> (m: i128)
    requires
        sorted@.len() >= 1,
        ascending(sorted@),
    ensures
        m == median_x2_of(sorted@),
{
    let n = sorted.len();
    let lo = sorted[(n - 1) / 2];
    let hi = sorted[n / 2];
    lo as i128 + hi as i128
}

/// The span decodes to a fixed-point value that the machine representation
/// holds.
pub open spec fn value_ok(buf: Seq<u8>, s: Span) -> bool {
    is_value(span_bytes(buf, s)) && fits_i64(decoded(span_bytes(buf, s)))
}

pub open spec fn all_values_ok(buf: Seq<u8>, vals: Seq<Span>) -> bool {
    forall|i: int| 0 <= i < vals.len() ==> value_ok(buf, #[trigger] vals[i])
}

/// The position of the first value from `i` on whose decode fails; the length
/// of the sequence when every value decodes.
pub open spec fn first_bad(buf: Seq<u8>, vals: Seq<Span>, i: int) -> int
    decreases vals.len() - i,
{
    if i < 0 || i >= vals.len() {
        i
    } else if !value_ok(buf, vals[i]) {
        i
    } else {
        first_bad(buf, vals, i + 1)
    }
}

/// The error the first failing value of the group reports.
pub open spec fn spec_group_err(buf: Seq<u8>, vals: Seq<Span>) -> Error {
    spec_decode_err(span_bytes(buf, vals[first_bad(buf, vals, 0)]))
}

proof fn lemma_first_bad_from(buf: Seq<u8>, vals: Seq<Span>, j: int, i: int)
    requires
        0 <= j <= i < vals.len(),
        forall|k: int| j <= k < i ==> value_ok(buf, #[trigger] vals[k]),
        !value_ok(buf, vals[i]),
    ensures
        first_bad(buf, vals, j) == i,
    decreases i - j,
{
    if j < i {
        lemma_first_bad_from(buf, vals, j + 1, i);
    }
}

/// The decoded values of a group, in file order.
pub open spec fn group_decoded(buf: Seq<u8>, vals: Seq<Span>) -> Seq<i64> {
    Seq::new(vals.len(), |i: int| decoded(span_bytes(buf, vals[i])) as i64)
}

/// The (min, max, median) triple of one group, in fixed point; `median_x2`
/// carries twice the median so an even group's mean is exact.
#[derive(Clone, Copy, Debug, PartialEq, Eq, Structural)]
pub struct Statistic {
    pub min: i64,
    pub max: i64,
    pub median_x2: i128,
}

/// The statistic a group's decoded values determine: the least and greatest
/// value and twice the median, read off the ascending rearrangement.
pub open spec fn stat_of(buf: Seq<u8>, vals: Seq<Span>) -> Statistic {
    let t = sorted64(group_decoded(buf, vals));
    Statistic { min: t[0], max: t[t.len() as int - 1], median_x2: median_x2_of(t) as i128 }
}

/// Decode a non-empty group's values and compute its statistic.
///
/// Succeeds exactly when every value of the group decodes; otherwise reports
/// the error of the first value that does not, and no partial result.
#[verifier::loop_isolation(false)]
pub fn summarize(buf: &[u8], vals: &Vec<Span>) -> (r: Result<Statistic, Error>)
    requires
        vals@.len() >= 1,
        forall|i: int| 0 <= i < vals@.len() ==> span_in(buf@, #[trigger] vals@[i]),
    ensures
        match r {
            Ok(st) => all_values_ok(buf@, vals@) && st == stat_of(buf@, vals@),
            Err(e) => !all_values_ok(buf@, vals@) && e == spec_group_err(buf@, vals@),
        },
{
    let mut ds: Vec<i64> = Vec::new();
    let mut i: usize = 0;
    while i < vals.len()
        invariant
            i <= vals@.len(),
            ds@.len() == i,
            forall|k: int| 0 <= k < i ==> value_ok(buf@, #[trigger] vals@[k]),
            forall|k: int| 0 <= k < i ==> ds@[k] == group_decoded(buf@, vals@)[k],
        decreases vals@.len() - i,
    {
        let sp = vals[i];
        proof {
            vstd::slice::axiom_spec_len::<u8>(buf);
            assert(span_in(buf@, vals@[i as int]));
        }
        let sub = vstd::slice::slice_subrange(buf, sp.start, sp.start + sp.len);
        proof {
            assert(sub@ == span_bytes(buf@, sp));
        }
        match to_decimal_int(sub) {
            Ok(v) => {
                ds.push(v);
            },
            Err(e) => {
                proof {
                    lemma_first_bad_from(buf@, vals@, 0, i as int);
                }
                return Err(e);
            },
        }
        i += 1;
    }
    proof {
        assert(ds@ =~= group_decoded(buf@, vals@));
    }
    let sorted = sort_values(&ds);
    proof {
        lemma_sorted64_ensures(ds@);
    }
    let n = sorted.len();
    let m = median(&sorted);
    proof {
        assert(stat_of(buf@, vals@).median_x2 == m);
    }
    Ok(Statistic { min: sorted[0], max: sorted[n - 1], median_x2: m })
}

/// For any non-empty group, the minimum is at most the median and the median
/// at most the maximum, in fixed-point order: at the doubled scale of
/// `median_x2`, twice the minimum bounds it below and twice the maximum
/// above.
pub proof fn lemma_min_le_median_le_max(buf: Seq<u8>, vals: Seq<Span>)
    requires
        vals.len() >= 1,
    ensures
        ({
            let st = stat_of(buf, vals);
            2 * st.min <= st.median_x2 <= 2 * st.max && st.min <= st.max
        }),
{
    let ds = group_decoded(buf, vals);
    lemma_sorted64_ensures(ds);
    let t = sorted64(ds);
    let n = t.len() as int;
    assert(t[0] <= t[(n - 1) / 2] && t[(n - 1) / 2] <= t[n - 1]);
    assert(t[0] <= t[n / 2] && t[n / 2] <= t[n - 1]);
}

/// A key seen exactly once: its single decoded value is the minimum, the
/// maximum, and the median alike.
pub proof fn lemma_singleton_statistic(buf: Seq<u8>, vals: Seq<Span>)
    requires
        vals.len() == 1,
    ensures
        ({
            let st = stat_of(buf, vals);
            let v = decoded(span_bytes(buf, vals[0])) as i64;
            st.min == v && st.max == v && st.median_x2 == 2 * v
        }),
{
    let ds = group_decoded(buf, vals);
    let v = decoded(span_bytes(buf, vals[0])) as i64;
    assert(ds =~= seq![v]);
    assert(sorted_by(ds, le64_fn()));
    lemma_sorted64_unique(ds, ds);
}

} // verus!
