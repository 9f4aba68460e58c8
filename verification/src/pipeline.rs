//! The full run over a buffer: scan, group, summarize.
//!
//! The outcome of a run is a mathematical function of the buffer alone, so
//! re-running the pipeline over an unchanged buffer yields an identical
//! key-to-statistic table. A run fails as a whole on the first malformed line
//! or undecodable value; no partial table is handed out.

use vstd::prelude::*;

use crate::aggregate::{aggregate, grouped, lemma_grouped_wf, spec_groups, Group};
use crate::scan::{lemma_scan_wf, scan_records, spec_scan, Span};
use crate::stats::{all_values_ok, spec_group_err, stat_of, summarize, Statistic};
use crate::Error;

verus! {

/// One key's row of the final table: the key span of its first record and
/// the statistic of its group.
#[derive(Clone, Copy, Debug, PartialEq, Eq, Structural)]
pub struct KeyStat {
    pub key: Span,
    pub stat: Statistic,
}

/// The position of the first group from `i` on with a value that does not
/// decode; the number of groups when every value decodes.
pub open spec fn first_bad_group(buf: Seq<u8>, sg: Seq<(Span, Seq<Span>)>, i: int) -> int
    decreases sg.len() - i,
{
    if i < 0 || i >= sg.len() {
        i
    } else if !all_values_ok(buf, sg[i].1) {
        i
    } else {
        first_bad_group(buf, sg, i + 1)
    }
}

/// The whole pipeline as one function of the buffer: one row per distinct
/// key, in order of first occurrence, each with the statistic of its group;
/// or the error of the first malformed line or first undecodable value.
pub open spec fn spec_process(buf: Seq<u8>) -> Result<Seq<KeyStat>, Error> {
    match spec_scan(buf, 0) {
        None => Err(Error::MalformedRecord),
        Some(recs) => {
            let sg = spec_groups(buf, recs);
            if forall|i: int| 0 <= i < sg.len() ==> all_values_ok(buf, (#[trigger] sg[i]).1) {
                Ok(
                    Seq::new(
                        sg.len(),
                        |i: int| KeyStat { key: sg[i].0, stat: stat_of(buf, sg[i].1) },
                    ),
                )
            } else {
                Err(spec_group_err(buf, sg[first_bad_group(buf, sg, 0)].1))
            }
        },
    }
}

/// The result a run over `buf` may report, as the pipeline's contract states
/// it.
pub open spec fn process_post(buf: Seq<u8>, r: Result<Seq<KeyStat>, Error>) -> bool {
    match r {
        Ok(o) => spec_process(buf) == Ok::<Seq<KeyStat>, Error>(o),
        Err(e) => spec_process(buf) == Err::<Seq<KeyStat>, Error>(e),
    }
}

/// The view of an exec pipeline result.
pub open spec fn res_view(r: Result<Vec<KeyStat>, Error>) -> Result<Seq<KeyStat>, Error> {
    match r {
        Ok(v) => Ok(v@),
        Err(e) => Err(e),
    }
}

proof fn lemma_first_bad_group_from(buf: Seq<u8>, sg: Seq<(Span, Seq<Span>)>, j: int, i: int)
    requires
        0 <= j <= i < sg.len(),
        forall|k: int| j <= k < i ==> all_values_ok(buf, (#[trigger] sg[k]).1),
        !all_values_ok(buf, sg[i].1),
    ensures
        first_bad_group(buf, sg, j) == i,
    decreases i - j,
{
    if j < i {
        lemma_first_bad_group_from(buf, sg, j + 1, i);
    }
}

/// Scan a buffer and group its records by key content.
///
/// Succeeds exactly when the buffer matches the record grammar, and then
/// yields the grouping of its records; otherwise reports `MalformedRecord`.
pub fn scan_data(buf: &[u8]) -> (r: Result<Vec<Group>, Error>)
    ensures
        match r {
            Ok(gs) => spec_scan(buf@, 0) is Some && grouped(
                buf@,
                spec_scan(buf@, 0)->Some_0,
                gs@,
            ),
            Err(e) => e == Error::MalformedRecord && spec_scan(buf@, 0) is None,
        },
{
    let recs = match scan_records(buf) {
        Ok(recs) => recs,
        Err(e) => {
            return Err(e);
        },
    };
    proof {
        vstd::slice::axiom_spec_len::<u8>(buf);
        lemma_scan_wf(buf@, 0, recs@);
    }
    Ok(aggregate(buf, &recs))
}

/// Run the full pipeline over a buffer.
///
/// Succeeds exactly when the buffer matches the record grammar and every
/// value decodes, and then yields one row per distinct key in order of first
/// occurrence; the outcome is in every case the one `spec_process` gives.
#[verifier::loop_isolation(false)]
pub fn process(buf: &[u8]) -> (r: Result<Vec<KeyStat>, Error>)
    ensures
        process_post(buf@, res_view(r)),
{
    let recs = match scan_records(buf) {
        Ok(recs) => recs,
        Err(e) => {
            return Err(e);
        },
    };
    proof {
        vstd::slice::axiom_spec_len::<u8>(buf);
        lemma_scan_wf(buf@, 0, recs@);
    }
    let gs = aggregate(buf, &recs);
    proof {
        lemma_grouped_wf(buf@, recs@, gs@);
    }
    let ghost sg = spec_groups(buf@, recs@);
    let mut out: Vec<KeyStat> = Vec::new();
    let mut gi: usize = 0;
    while gi < gs.len()
        invariant
            gi <= gs@.len(),
            out@.len() == gi,
            forall|q: int| 0 <= q < gi ==> all_values_ok(buf@, (#[trigger] sg[q]).1),
            forall|q: int|
                0 <= q < gi ==> (#[trigger] out@[q]).key == sg[q].0 && out@[q].stat == stat_of(
                    buf@,
                    sg[q].1,
                ),
        decreases gs@.len() - gi,
    {
        match summarize(buf, &gs[gi].vals) {
            Ok(st) => {
                let row = KeyStat { key: gs[gi].key, stat: st };
                out.push(row);
            },
            Err(e) => {
                proof {
                    lemma_first_bad_group_from(buf@, sg, 0, gi as int);
                }
                return Err(e);
            },
        }
        gi += 1;
    }
    proof {
        assert(out@ =~= Seq::new(
            sg.len(),
            |i: int| KeyStat { key: sg[i].0, stat: stat_of(buf@, sg[i].1) },
        ));
    }
    Ok(out)
}

/// Re-running the pipeline over an unchanged buffer yields an identical
/// key-to-statistic table: any two results a run may report are equal.
pub proof fn lemma_process_deterministic(
    buf: Seq<u8>,
    r1: Result<Seq<KeyStat>, Error>,
    r2: Result<Seq<KeyStat>, Error>,
)
    requires
        process_post(buf, r1),
        process_post(buf, r2),
    ensures
        r1 == r2,
{
}

} // verus!
