//! Single-pass record scanner.
//!
//! The scanner walks the input buffer once, left to right, and splits it into
//! `key;value` lines without copying: each record is a pair of spans into the
//! buffer. A missing trailing newline is accepted (the end of the buffer
//! terminates the last value); a line with no `;` before its end, or with an
//! empty key, aborts the scan with `MalformedRecord`. A newline standing
//! where a key would start ends the scan early, as a defensive end-of-input
//! marker.

use vstd::prelude::*;

use crate::Error;

verus! {

/// ASCII `';'`, the key/value delimiter.
pub const SEMI: u8 = 59;

/// ASCII `'\n'`, the record terminator.
pub const NL: u8 = 10;

/// A `(start, length)` view into the shared input buffer.
#[derive(Clone, Copy, Debug, PartialEq, Eq, Structural)]
pub struct Span {
    pub start: usize,
    pub len: usize,
}

/// The bytes a span selects from a buffer.
pub open spec fn span_bytes(buf: Seq<u8>, s: Span) -> Seq<u8> {
    buf.subrange(s.start as int, s.start + s.len)
}

/// The span lies inside the buffer.
pub open spec fn span_in(buf: Seq<u8>, s: Span) -> bool {
    s.start + s.len <= buf.len()
}

/// One record: the key span and the value span of a line.
#[derive(Clone, Copy, Debug, PartialEq, Eq, Structural)]
pub struct Rec {
    pub key: Span,
    pub val: Span,
}

/// The first position at or after `from` holding the delimiter or a newline.
pub open spec fn find_delim(buf: Seq<u8>, from: int) -> Option<int>
    decreases buf.len() - from,
{
    if from < 0 || from >= buf.len() {
        None
    } else if buf[from] == SEMI || buf[from] == NL {
        Some(from)
    } else {
        find_delim(buf, from + 1)
    }
}

/// The first position at or after `from` holding a newline.
pub open spec fn find_nl(buf: Seq<u8>, from: int) -> Option<int>
    decreases buf.len() - from,
{
    if from < 0 || from >= buf.len() {
        None
    } else if buf[from] == NL {
        Some(from)
    } else {
        find_nl(buf, from + 1)
    }
}

/// The records of the buffer from position `from` on: `None` when the rest of
/// the buffer is malformed, otherwise the sequence of records up to the end
/// of the buffer or up to a newline standing where a key would start.
///
/// A key runs to the first `;` of its line and must be non-empty; a newline
/// before the `;` makes the line malformed. A value runs to the next newline,
/// or to the end of the buffer.
pub open spec fn spec_scan(buf: Seq<u8>, from: int) -> Option<Seq<Rec>>
    decreases buf.len() - from,
{
    if from < 0 || from >= buf.len() {
        Some(Seq::empty())
    } else if buf[from] == NL {
        Some(Seq::empty())
    } else {
        match find_delim(buf, from) {
            None => None,
            Some(d) => {
                if d <= from || buf[d] == NL {
                    None
                } else {
                    let vstart = d + 1;
                    let vend = match find_nl(buf, vstart) {
                        Some(e) => e,
                        None => buf.len() as int,
                    };
                    if vend < vstart || vend > buf.len() {
                        None
                    } else {
                        let r = Rec {
                            key: Span { start: from as usize, len: (d - from) as usize },
                            val: Span { start: vstart as usize, len: (vend - vstart) as usize },
                        };
                        let next = if vend < buf.len() {
                            vend + 1
                        } else {
                            buf.len() as int
                        };
                        match spec_scan(buf, next) {
                            None => None,
                            Some(rest) => Some(seq![r] + rest),
                        }
                    }
                }
            },
        }
    }
}

/// A well-formed record of a buffer: a non-empty key followed by the
/// delimiter and a value that stops before any newline, all inside bounds.
pub open spec fn wf_rec(buf: Seq<u8>, r: Rec) -> bool {
    &&& 1 <= r.key.len
    &&& r.key.start + r.key.len + 1 == r.val.start
    &&& r.val.start + r.val.len <= buf.len()
    &&& buf[r.key.start + r.key.len] == SEMI
    &&& forall|k: int|
        r.key.start <= k < r.key.start + r.key.len ==> buf[k] != SEMI && buf[k] != NL
    &&& forall|k: int| r.val.start <= k < r.val.start + r.val.len ==> buf[k] != NL
}

proof fn lemma_find_delim_correct(buf: Seq<u8>, from: int, j: int)
    requires
        0 <= from <= j <= buf.len(),
        forall|k: int| from <= k < j ==> buf[k] != SEMI && buf[k] != NL,
        j < buf.len() ==> (buf[j] == SEMI || buf[j] == NL),
    ensures
        find_delim(buf, from) == if j == buf.len() {
            None
        } else {
            Some(j)
        },
    decreases j - from,
{
    if from < j {
        lemma_find_delim_correct(buf, from + 1, j);
    }
}

proof fn lemma_find_nl_correct(buf: Seq<u8>, from: int, j: int)
    requires
        0 <= from <= j <= buf.len(),
        forall|k: int| from <= k < j ==> buf[k] != NL,
        j < buf.len() ==> buf[j] == NL,
    ensures
        find_nl(buf, from) == if j == buf.len() {
            None
        } else {
            Some(j)
        },
    decreases j - from,
{
    if from < j {
        lemma_find_nl_correct(buf, from + 1, j);
    }
}

proof fn lemma_find_delim_props(buf: Seq<u8>, from: int, d: int)
    requires
        0 <= from,
        find_delim(buf, from) == Some(d),
    ensures
        from <= d < buf.len(),
        buf[d] == SEMI || buf[d] == NL,
        forall|k: int| from <= k < d ==> buf[k] != SEMI && buf[k] != NL,
    decreases buf.len() - from,
{
    if from >= buf.len() {
    } else if buf[from] == SEMI || buf[from] == NL {
    } else {
        lemma_find_delim_props(buf, from + 1, d);
    }
}

proof fn lemma_find_nl_props(buf: Seq<u8>, from: int, e: int)
    requires
        0 <= from,
        find_nl(buf, from) == Some(e),
    ensures
        from <= e < buf.len(),
        buf[e] == NL,
        forall|k: int| from <= k < e ==> buf[k] != NL,
    decreases buf.len() - from,
{
    if from >= buf.len() {
    } else if buf[from] == NL {
    } else {
        lemma_find_nl_props(buf, from + 1, e);
    }
}

proof fn lemma_find_nl_none(buf: Seq<u8>, from: int)
    requires
        0 <= from,
        find_nl(buf, from) is None,
    ensures
        forall|k: int| from <= k < buf.len() ==> buf[k] != NL,
    decreases buf.len() - from,
{
    if from < buf.len() {
        lemma_find_nl_none(buf, from + 1);
    }
}

/// Every record a successful scan yields is well formed against the buffer.
pub proof fn lemma_scan_wf(buf: Seq<u8>, from: int, recs: Seq<Rec>)
    requires
        0 <= from,
        buf.len() <= usize::MAX,
        spec_scan(buf, from) == Some(recs),
    ensures
        forall|idx: int| 0 <= idx < recs.len() ==> wf_rec(buf, #[trigger] recs[idx]),
    decreases buf.len() - from,
{
    if from >= buf.len() || buf[from] == NL {
    } else {
        match find_delim(buf, from) {
            None => {},
            Some(d) => {
                if d <= from || buf[d] == NL {
                } else {
                    lemma_find_delim_props(buf, from, d);
                    let vstart = d + 1;
                    let vend = match find_nl(buf, vstart) {
                        Some(e) => e,
                        None => buf.len() as int,
                    };
                    if vend < vstart || vend > buf.len() {
                    } else {
                        if find_nl(buf, vstart) is Some {
                            lemma_find_nl_props(buf, vstart, vend);
                        } else {
                            lemma_find_nl_none(buf, vstart);
                        }
                        let r = Rec {
                            key: Span { start: from as usize, len: (d - from) as usize },
                            val: Span { start: vstart as usize, len: (vend - vstart) as usize },
                        };
                        let next = if vend < buf.len() {
                            vend + 1
                        } else {
                            buf.len() as int
                        };
                        match spec_scan(buf, next) {
                            None => {},
                            Some(rest) => {
                                lemma_scan_wf(buf, next, rest);
                                assert(wf_rec(buf, r));
                                assert forall|idx: int| 0 <= idx < recs.len() implies wf_rec(
                                    buf,
                                    #[trigger] recs[idx],
                                ) by {
                                    if idx == 0 {
                                        assert(recs[0] == r);
                                    } else {
                                        assert(recs[idx] == rest[idx - 1]);
                                    }
                                }
                            },
                        }
                    }
                }
            },
        }
    }
}

spec fn merge_scan(prefix: Seq<Rec>, rest: Option<Seq<Rec>>) -> Option<Seq<Rec>> {
    match rest {
        None => None,
        Some(t) => Some(prefix + t),
    }
}

/// Scan the whole buffer into its records.
///
/// Succeeds exactly when the buffer matches the record grammar, and then
/// yields the records in file order; otherwise reports `MalformedRecord`.
/// The scan never reads outside the buffer, and a buffer without a trailing
/// newline has its last value closed by the end of the buffer.
#[verifier::loop_isolation(false)]
pub fn scan_records(buf: &[u8]) -> (r: Result<Vec<Rec>, Error>)
    ensures
        match r {
            Ok(recs) => spec_scan(buf@, 0) == Some(recs@),
            Err(e) => e == Error::MalformedRecord && spec_scan(buf@, 0) is None,
        },
{
    let n = buf.len();
    let mut recs: Vec<Rec> = Vec::new();
    let mut i: usize = 0;
    let mut done = false;
    while !done && i < n
        invariant
            i <= n,
            done ==> spec_scan(buf@, 0) == Some(recs@),
            !done ==> merge_scan(recs@, spec_scan(buf@, i as int)) == spec_scan(buf@, 0),
        decreases n - i, (if done { 0int } else { 1int }),
    {
        if buf[i] == NL {
            proof {
                assert(recs@ + Seq::<Rec>::empty() =~= recs@);
            }
            done = true;
        } else {
            let mut j: usize = i;
            while j < n && buf[j] != SEMI && buf[j] != NL
                invariant
                    i <= j <= n,
                    forall|k: int| i <= k < j ==> buf@[k] != SEMI && buf@[k] != NL,
                decreases n - j,
            {
                j += 1;
            }
            proof {
                lemma_find_delim_correct(buf@, i as int, j as int);
            }
            if j == n || buf[j] == NL || j == i {
                return Err(Error::MalformedRecord);
            }
            let vstart = j + 1;
            let mut k: usize = vstart;
            while k < n && buf[k] != NL
                invariant
                    vstart <= k <= n,
                    forall|t: int| vstart <= t < k ==> buf@[t] != NL,
                decreases n - k,
            {
                k += 1;
            }
            proof {
                lemma_find_nl_correct(buf@, vstart as int, k as int);
            }
            let r = Rec {
                key: Span { start: i, len: j - i },
                val: Span { start: vstart, len: k - vstart },
            };
            let ghost next: int = if k < n {
                k as int + 1
            } else {
                n as int
            };
            proof {
                assert(spec_scan(buf@, i as int) == merge_scan(seq![r], spec_scan(buf@, next)));
                if spec_scan(buf@, next) is Some {
                    let rest = spec_scan(buf@, next)->Some_0;
                    assert(recs@ + (seq![r] + rest) =~= recs@.push(r) + rest);
                }
            }
            recs.push(r);
            if k == n {
                proof {
                    assert(recs@ + Seq::<Rec>::empty() =~= recs@);
                }
                done = true;
            } else {
                i = k + 1;
            }
        }
    }
    proof {
        if !done {
            assert(recs@ + Seq::<Rec>::empty() =~= recs@);
        }
    }
    Ok(recs)
}

} // verus!
