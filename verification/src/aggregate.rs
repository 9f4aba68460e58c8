//! Grouping of scanned records by key content.
//!
//! Records are folded, in file order, into one group per distinct key: keys
//! are compared by the bytes they select, never by their offsets, so two
//! spans over byte-identical content meet in the same group. Groups appear in
//! order of first occurrence and each keeps its value spans in file order.

use vstd::prelude::*;

use crate::scan::{span_bytes, span_in, wf_rec, Rec, Span};

verus! {

broadcast use vstd::seq_lib::group_seq_properties;

/// One key's group: the key span of its first record and every value span of
/// the key, in file order.
#[derive(Debug)]
pub struct Group {
    pub key: Span,
    pub vals: Vec<Span>,
}

/// The key bytes of a record.
pub open spec fn key_bytes_of(buf: Seq<u8>, r: Rec) -> Seq<u8> {
    span_bytes(buf, r.key)
}

/// The key contents of the records, in file order.
pub open spec fn keys_of(buf: Seq<u8>, recs: Seq<Rec>) -> Seq<Seq<u8>> {
    recs.map_values(|r: Rec| key_bytes_of(buf, r))
}

/// The distinct elements of a sequence, in order of first occurrence.
pub open spec fn first_occurrences(s: Seq<Seq<u8>>) -> Seq<Seq<u8>>
    decreases s.len(),
{
    if s.len() == 0 {
        Seq::empty()
    } else {
        let p = first_occurrences(s.drop_last());
        if p.contains(s.last()) {
            p
        } else {
            p.push(s.last())
        }
    }
}

/// The records whose key selects the given bytes, in file order.
pub open spec fn matching(buf: Seq<u8>, recs: Seq<Rec>, k: Seq<u8>) -> Seq<Rec> {
    recs.filter(|r: Rec| key_bytes_of(buf, r) == k)
}

/// The value spans of the records.
pub open spec fn vals_of(recs: Seq<Rec>) -> Seq<Span> {
    recs.map_values(|r: Rec| r.val)
}

/// The grouping the records determine: one entry per distinct key content, in
/// order of first occurrence; each holds the first matching record's key span
/// and all matching value spans in file order.
pub open spec fn spec_groups(buf: Seq<u8>, recs: Seq<Rec>) -> Seq<(Span, Seq<Span>)> {
    let ks = first_occurrences(keys_of(buf, recs));
    Seq::new(
        ks.len(),
        |i: int|
            (matching(buf, recs, ks[i])[0].key, vals_of(matching(buf, recs, ks[i]))),
    )
}

/// `gs` carries exactly the grouping of `recs` over `buf`.
pub open spec fn grouped(buf: Seq<u8>, recs: Seq<Rec>, gs: Seq<Group>) -> bool {
    let sg = spec_groups(buf, recs);
    &&& gs.len() == sg.len()
    &&& forall|i: int|
        0 <= i < gs.len() ==> (#[trigger] gs[i]).key == sg[i].0 && gs[i].vals@ == sg[i].1
}

proof fn lemma_matching_push(buf: Seq<u8>, recs: Seq<Rec>, r: Rec, k: Seq<u8>)
    ensures
        matching(buf, recs.push(r), k) == if key_bytes_of(buf, r) == k {
            matching(buf, recs, k).push(r)
        } else {
            matching(buf, recs, k)
        },
{
    reveal_with_fuel(Seq::<Rec>::filter, 2);
    assert(recs.push(r).drop_last() =~= recs);
    assert(recs.push(r).last() == r);
}

proof fn lemma_matching_empty(buf: Seq<u8>, recs: Seq<Rec>, k: Seq<u8>)
    requires
        forall|i: int| 0 <= i < recs.len() ==> key_bytes_of(buf, #[trigger] recs[i]) != k,
    ensures
        matching(buf, recs, k).len() == 0,
    decreases recs.len(),
{
    if recs.len() == 0 {
        assert(matching(buf, recs, k) =~= Seq::<Rec>::empty());
    } else {
        let dl = recs.drop_last();
        assert(dl.push(recs.last()) =~= recs);
        lemma_matching_push(buf, dl, recs.last(), k);
        assert(forall|i: int| 0 <= i < dl.len() ==> key_bytes_of(buf, #[trigger] dl[i]) != k);
        lemma_matching_empty(buf, dl, k);
    }
}

proof fn lemma_matching_nonempty(buf: Seq<u8>, recs: Seq<Rec>, k: Seq<u8>)
    requires
        exists|i: int| 0 <= i < recs.len() && key_bytes_of(buf, #[trigger] recs[i]) == k,
    ensures
        matching(buf, recs, k).len() > 0,
    decreases recs.len(),
{
    let wi = choose|wi: int| 0 <= wi < recs.len() && key_bytes_of(buf, #[trigger] recs[wi]) == k;
    let dl = recs.drop_last();
    assert(dl.push(recs.last()) =~= recs);
    lemma_matching_push(buf, dl, recs.last(), k);
    if key_bytes_of(buf, recs.last()) != k {
        assert(wi < dl.len() && key_bytes_of(buf, dl[wi]) == k);
        lemma_matching_nonempty(buf, dl, k);
    }
}

proof fn lemma_matching_props(buf: Seq<u8>, recs: Seq<Rec>, k: Seq<u8>)
    ensures
        forall|j: int|
            0 <= j < matching(buf, recs, k).len() ==> {
                &&& key_bytes_of(buf, #[trigger] matching(buf, recs, k)[j]) == k
                &&& recs.contains(matching(buf, recs, k)[j])
            },
    decreases recs.len(),
{
    if recs.len() == 0 {
        assert(matching(buf, recs, k) =~= Seq::<Rec>::empty());
    } else {
        let dl = recs.drop_last();
        assert(dl.push(recs.last()) =~= recs);
        lemma_matching_push(buf, dl, recs.last(), k);
        lemma_matching_props(buf, dl, k);
        let m = matching(buf, recs, k);
        let md = matching(buf, dl, k);
        assert forall|j: int| 0 <= j < m.len() implies {
            &&& key_bytes_of(buf, #[trigger] m[j]) == k
            &&& recs.contains(m[j])
        } by {
            if j < md.len() {
                assert(m[j] == md[j]);
                assert(dl.contains(md[j]));
                let wi = choose|wi: int| 0 <= wi < dl.len() && dl[wi] == md[j];
                assert(recs[wi] == dl[wi]);
            } else {
                assert(m[j] == recs.last());
            }
        }
    }
}

proof fn lemma_fo_push(s: Seq<Seq<u8>>, x: Seq<u8>)
    ensures
        first_occurrences(s.push(x)) == if first_occurrences(s).contains(x) {
            first_occurrences(s)
        } else {
            first_occurrences(s).push(x)
        },
{
    assert(s.push(x).drop_last() =~= s);
    assert(s.push(x).last() == x);
}

proof fn lemma_fo_props(s: Seq<Seq<u8>>)
    ensures
        forall|x: Seq<u8>| #[trigger] first_occurrences(s).contains(x) <==> s.contains(x),
        forall|i: int, j: int|
            0 <= i < j < first_occurrences(s).len() ==> first_occurrences(s)[i]
                != first_occurrences(s)[j],
    decreases s.len(),
{
    if s.len() > 0 {
        let dl = s.drop_last();
        lemma_fo_props(dl);
        assert forall|x: Seq<u8>| #[trigger] first_occurrences(s).contains(x) <==> s.contains(
            x,
        ) by {
            if first_occurrences(s).contains(x) {
                if first_occurrences(dl).contains(x) {
                    assert(dl.contains(x));
                    let wi = choose|wi: int| 0 <= wi < dl.len() && dl[wi] == x;
                    assert(s[wi] == x);
                } else {
                    assert(x == s.last());
                    assert(s.contains(x));
                }
            }
            if s.contains(x) {
                let wi = choose|wi: int| 0 <= wi < s.len() && s[wi] == x;
                if wi < dl.len() {
                    assert(dl[wi] == x);
                    assert(dl.contains(x));
                    assert(first_occurrences(dl).contains(x));
                    let p = first_occurrences(dl);
                    let wj = choose|wj: int| 0 <= wj < p.len() && p[wj] == x;
                    assert(first_occurrences(s)[wj] == x);
                    assert(first_occurrences(s).contains(x));
                } else {
                    assert(x == s.last());
                    if first_occurrences(dl).contains(x) {
                        let p = first_occurrences(dl);
                        let wj = choose|wj: int| 0 <= wj < p.len() && p[wj] == x;
                        assert(first_occurrences(s)[wj] == x);
                    } else {
                        assert(first_occurrences(s).last() == x);
                    }
                    assert(first_occurrences(s).contains(x));
                }
            }
        }
    }
}

/// Compare the bytes two spans select.
#[verifier::loop_isolation(false)]
fn span_eq(buf: &[u8], a: Span, b: Span) -> (r: bool)
    requires
        span_in(buf@, a),
        span_in(buf@, b),
    ensures
        r == (span_bytes(buf@, a) == span_bytes(buf@, b)),
{
    proof {
        vstd::slice::axiom_spec_len::<u8>(buf);
    }
    if a.len != b.len {
        proof {
            assert(span_bytes(buf@, a).len() == a.len);
            assert(span_bytes(buf@, b).len() == b.len);
        }
        return false;
    }
    let mut i: usize = 0;
    while i < a.len
        invariant
            i <= a.len,
            forall|q: int| 0 <= q < i ==> #[trigger] buf@[a.start + q] == buf@[b.start + q],
        decreases a.len - i,
    {
        if buf[a.start + i] != buf[b.start + i] {
            proof {
                assert(span_bytes(buf@, a)[i as int] != span_bytes(buf@, b)[i as int]);
            }
            return false;
        }
        i += 1;
    }
    proof {
        assert forall|q: int| 0 <= q < a.len implies span_bytes(buf@, a)[q] == span_bytes(
            buf@,
            b,
        )[q] by {
            assert(buf@[a.start + q] == buf@[b.start + q]);
        }
        assert(span_bytes(buf@, a) =~= span_bytes(buf@, b));
    }
    true
}

/// Fold the records into their groups: look each key up by byte content,
/// append to its group or open a new one.
///
/// The result is exactly the grouping of the records: one group per distinct
/// key content in order of first occurrence, values in file order, no value
/// dropped or duplicated.
#[verifier::loop_isolation(false)]
pub fn aggregate(buf: &[u8], recs: &Vec<Rec>) -> (gs: Vec<Group>)
    requires
        forall|i: int| 0 <= i < recs@.len() ==> span_in(buf@, (#[trigger] recs@[i]).key),
    ensures
        grouped(buf@, recs@, gs@),
{
    let mut gs: Vec<Group> = Vec::new();
    proof {
        assert(recs@.subrange(0, 0) =~= Seq::<Rec>::empty());
        assert(keys_of(buf@, Seq::<Rec>::empty()) =~= Seq::<Seq<u8>>::empty());
    }
    let mut ri: usize = 0;
    while ri < recs.len()
        invariant
            ri <= recs@.len(),
            grouped(buf@, recs@.subrange(0, ri as int), gs@),
            forall|q: int| 0 <= q < gs@.len() ==> span_in(buf@, (#[trigger] gs@[q]).key),
            forall|q: int|
                0 <= q < gs@.len() ==> span_bytes(buf@, (#[trigger] gs@[q]).key)
                    == first_occurrences(keys_of(buf@, recs@.subrange(0, ri as int)))[q],
        decreases recs@.len() - ri,
    {
        let r = recs[ri];
        let ghost prefix = recs@.subrange(0, ri as int);
        let ghost k = key_bytes_of(buf@, r);
        let ghost ks = keys_of(buf@, prefix);
        let ghost fo = first_occurrences(ks);
        let mut gi: usize = 0;
        let mut found = false;
        while !found && gi < gs.len()
            invariant
                gi <= gs@.len(),
                found ==> gi < gs@.len() && span_bytes(buf@, gs@[gi as int].key) == k,
                !found ==> forall|q: int|
                    0 <= q < gi ==> span_bytes(buf@, (#[trigger] gs@[q]).key) != k,
            decreases gs@.len() - gi, (if found { 0int } else { 1int }),
        {
            if span_eq(buf, gs[gi].key, r.key) {
                found = true;
            } else {
                gi += 1;
            }
        }
        let ghost prefix2 = recs@.subrange(0, ri as int + 1);
        proof {
            assert(prefix2 =~= prefix.push(recs@[ri as int]));
            assert(keys_of(buf@, prefix2) =~= ks.push(k));
            lemma_fo_push(ks, k);
            lemma_fo_props(ks);
        }
        if found {
            let mut g = gs.remove(gi);
            let ghost old_gs = gs@.insert(gi as int, g);
            g.vals.push(r.val);
            gs.insert(gi, g);
            proof {
                assert(old_gs.remove(gi as int).insert(gi as int, g) =~= old_gs.update(
                    gi as int,
                    g,
                ));
                assert(gs@ =~= old_gs.update(gi as int, g));
                // The found key already stands among the first occurrences, so
                // the key list is unchanged and only group `gi` grows.
                assert(fo[gi as int] == k);
                assert(fo.contains(k));
                assert(first_occurrences(ks.push(k)) == fo);
                assert forall|q: int| 0 <= q < gs@.len() implies (#[trigger] gs@[q]).key
                    == spec_groups(buf@, prefix2)[q].0 && gs@[q].vals@ == spec_groups(
                    buf@,
                    prefix2,
                )[q].1 by {
                    lemma_matching_push(buf@, prefix, recs@[ri as int], fo[q]);
                    if q == gi {
                        assert(prefix2[ri as int] == recs@[ri as int]);
                        assert(key_bytes_of(buf@, prefix2[ri as int]) == k);
                        lemma_matching_nonempty(buf@, prefix2, k);
                        assert(matching(buf@, prefix2, k) == matching(buf@, prefix, k).push(
                            recs@[ri as int],
                        ));
                        assert(vals_of(matching(buf@, prefix2, k)) =~= vals_of(
                            matching(buf@, prefix, k),
                        ).push(recs@[ri as int].val));
                        assert(matching(buf@, prefix, k).len() > 0) by {
                            assert(old_gs[q].vals@ == vals_of(matching(buf@, prefix, k)));
                            assert(ks.contains(k));
                            let wi = choose|wi: int| 0 <= wi < ks.len() && ks[wi] == k;
                            assert(key_bytes_of(buf@, prefix[wi]) == k);
                            lemma_matching_nonempty(buf@, prefix, k);
                        }
                        assert(matching(buf@, prefix2, k)[0] == matching(buf@, prefix, k)[0]);
                    } else {
                        assert(fo[q] != k);
                        assert(matching(buf@, prefix2, fo[q]) == matching(buf@, prefix, fo[q]));
                    }
                }
                assert(grouped(buf@, prefix2, gs@));
            }
        } else {
            let mut vs: Vec<Span> = Vec::new();
            vs.push(r.val);
            let ghost old_gs = gs@;
            gs.push(Group { key: r.key, vals: vs });
            proof {
                // The key is new: it joins the first occurrences at the end and
                // its group holds exactly this one record's value.
                assert(forall|q: int|
                    0 <= q < old_gs.len() ==> span_bytes(buf@, (#[trigger] old_gs[q]).key)
                        == fo[q]);
                assert(!fo.contains(k)) by {
                    if fo.contains(k) {
                        let wi = choose|wi: int| 0 <= wi < fo.len() && fo[wi] == k;
                        assert(span_bytes(buf@, old_gs[wi].key) == k);
                    }
                }
                assert(first_occurrences(ks.push(k)) == fo.push(k));
                assert(!ks.contains(k));
                assert forall|q: int| 0 <= q < gs@.len() implies (#[trigger] gs@[q]).key
                    == spec_groups(buf@, prefix2)[q].0 && gs@[q].vals@ == spec_groups(
                    buf@,
                    prefix2,
                )[q].1 by {
                    if q < old_gs.len() {
                        lemma_matching_push(buf@, prefix, recs@[ri as int], fo[q]);
                        assert(fo[q] != k) by {
                            if fo[q] == k {
                                assert(fo.contains(k));
                            }
                        }
                        assert(matching(buf@, prefix2, fo[q]) == matching(buf@, prefix, fo[q]));
                    } else {
                        lemma_matching_push(buf@, prefix, recs@[ri as int], k);
                        assert(forall|i: int|
                            0 <= i < prefix.len() ==> key_bytes_of(buf@, #[trigger] prefix[i])
                                != k) by {
                            assert forall|i: int| 0 <= i < prefix.len() implies key_bytes_of(
                                buf@,
                                #[trigger] prefix[i],
                            ) != k by {
                                if key_bytes_of(buf@, prefix[i]) == k {
                                    assert(ks[i] == k);
                                    assert(ks.contains(k));
                                }
                            }
                        }
                        lemma_matching_empty(buf@, prefix, k);
                        assert(matching(buf@, prefix, k) =~= Seq::<Rec>::empty());
                        assert(matching(buf@, prefix2, k) =~= seq![recs@[ri as int]]);
                        assert(vals_of(matching(buf@, prefix2, k)) =~= seq![
                            recs@[ri as int].val,
                        ]);
                        assert(gs@[q].vals@ =~= seq![recs@[ri as int].val]);
                    }
                }
                assert(grouped(buf@, prefix2, gs@));
            }
        }
        ri += 1;
    }
    proof {
        assert(recs@.subrange(0, recs@.len() as int) =~= recs@);
    }
    gs
}

/// In a grouping of well-formed records, every group has at least one value
/// and every value span lies inside the buffer.
pub proof fn lemma_grouped_wf(buf: Seq<u8>, recs: Seq<Rec>, gs: Seq<Group>)
    requires
        grouped(buf, recs, gs),
        forall|i: int| 0 <= i < recs.len() ==> wf_rec(buf, #[trigger] recs[i]),
    ensures
        forall|gi: int| 0 <= gi < gs.len() ==> (#[trigger] gs[gi]).vals@.len() >= 1,
        forall|gi: int, vj: int|
            0 <= gi < gs.len() && 0 <= vj < gs[gi].vals@.len() ==> span_in(
                buf,
                #[trigger] gs[gi].vals@[vj],
            ),
{
    let ks = first_occurrences(keys_of(buf, recs));
    lemma_fo_props(keys_of(buf, recs));
    assert forall|gi: int| 0 <= gi < gs.len() implies (#[trigger] gs[gi]).vals@.len() >= 1 by {
        assert(ks.contains(ks[gi]));
        assert(keys_of(buf, recs).contains(ks[gi]));
        let wi = choose|wi: int|
            0 <= wi < keys_of(buf, recs).len() && keys_of(buf, recs)[wi] == ks[gi];
        assert(key_bytes_of(buf, recs[wi]) == ks[gi]);
        lemma_matching_nonempty(buf, recs, ks[gi]);
        assert(gs[gi].vals@ == vals_of(matching(buf, recs, ks[gi])));
    }
    assert forall|gi: int, vj: int|
        0 <= gi < gs.len() && 0 <= vj < gs[gi].vals@.len() implies span_in(
        buf,
        #[trigger] gs[gi].vals@[vj],
    ) by {
        lemma_matching_props(buf, recs, ks[gi]);
        let m = matching(buf, recs, ks[gi]);
        assert(gs[gi].vals@ == vals_of(m));
        assert(gs[gi].vals@[vj] == m[vj].val);
        assert(recs.contains(m[vj]));
        let wi = choose|wi: int| 0 <= wi < recs.len() && recs[wi] == m[vj];
        assert(wf_rec(buf, recs[wi]));
    }
}

} // verus!
