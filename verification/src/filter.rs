//! The filter/count engine: conjunctive equality predicates over a record
//! collection, evaluated in parallel across records and recombined in input
//! order, producing either the matching subsequence or its cardinality.

use vstd::prelude::*;
use crate::record::{Record, all_wf, conds_match, record_matches, rec_get, col_find,
    lemma_col_find_props};
use rayon::iter::{IntoParallelRefIterator, ParallelIterator};

verus! {

/// The ordered subsequence of `rs` whose records satisfy every condition.
pub open spec fn matching(rs: Seq<Record>, conds: Seq<(String, String)>) -> Seq<Record> {
    rs.filter(|r: Record| conds_match(r, conds))
}

/// One step of `matching` over a growing prefix: the next record is kept
/// exactly when it satisfies the conditions.
pub proof fn lemma_matching_step(s: Seq<Record>, conds: Seq<(String, String)>, j: int)
    requires
        0 <= j < s.len(),
    ensures
        conds_match(s[j], conds) ==> matching(s.take(j + 1), conds) == matching(
            s.take(j),
            conds,
        ).push(s[j]),
        !conds_match(s[j], conds) ==> matching(s.take(j + 1), conds) == matching(s.take(j), conds),
{
    reveal(Seq::filter);
    let t1 = s.take(j + 1);
    assert(t1.last() == s[j]);
    assert(t1.drop_last() =~= s.take(j));
}

/// Relies on rayon: a parallel `map` over a vector, collected into a vector,
/// evaluates the closure on every element and keeps input order. The closure
/// only calls the verified `record_matches`.
#[verifier::external_body]
fn par_match_flags(records: &Vec<Record>, conds: &Vec<(String, String)>) -> (flags: Vec<bool>)
    requires
        all_wf(records@),
    ensures
        flags@.len() == records@.len(),
        forall|i: int| 0 <= i < records@.len() ==> flags@[i] == conds_match(records@[i], conds@),
{
    records.par_iter().map(|r| record_matches(r, conds)).collect()
}

/// Filtering with an empty condition set keeps the whole collection: the
/// result equals the input, same records in the same order.
pub proof fn theorem_filter_empty_conditions(rs: Seq<Record>, conds: Seq<(String, String)>)
    requires
        conds.len() == 0,
    ensures
        matching(rs, conds) == rs,
    decreases rs.len(),
{
    reveal(Seq::filter);
    if rs.len() > 0 {
        theorem_filter_empty_conditions(rs.drop_last(), conds);
        assert(conds_match(rs.last(), conds));
        assert(matching(rs, conds) =~= rs);
    }
}

/// The ordered subsequence of records satisfying the conjunction of all
/// conditions, preserving the input's relative order; an empty condition set
/// keeps every record. Matches are found in parallel across records and
/// recombined in input order.
pub fn filter_records_fast(records: Vec<Record>, conditions: &Vec<(String, String)>) -> (res: Vec<
    Record,
>)
    requires
        all_wf(records@),
    ensures
        res@ == matching(records@, conditions@),
{
    let ghost orig = records@;
    if conditions.is_empty() {
        proof {
            theorem_filter_empty_conditions(orig, conditions@);
        }
        return records;
    }
    let flags = par_match_flags(&records, conditions);
    let mut records = records;
    let mut rev: Vec<Record> = Vec::new();
    while records.len() > 0
        invariant
            records@.len() + rev@.len() == orig.len(),
            forall|i: int| 0 <= i < records@.len() ==> records@[i] == orig[i],
            forall|i: int| 0 <= i < rev@.len() ==> rev@[i] == orig[orig.len() - 1 - i],
        decreases records@.len(),
    {
        let r = records.pop().unwrap();
        rev.push(r);
    }
    let mut res: Vec<Record> = Vec::new();
    let mut jx: usize = 0;
    let n = flags.len();
    proof {
        assert(orig.take(0) =~= Seq::<Record>::empty());
        reveal(Seq::filter);
    }
    while rev.len() > 0
        invariant
            n == orig.len(),
            flags@.len() == orig.len(),
            forall|i: int| 0 <= i < orig.len() ==> flags@[i] == conds_match(orig[i], conditions@),
            rev@.len() <= orig.len(),
            jx == orig.len() - rev@.len(),
            forall|i: int| 0 <= i < rev@.len() ==> rev@[i] == orig[orig.len() - 1 - i],
            res@ == matching(orig.take(jx as int), conditions@),
        decreases rev@.len(),
    {
        let r = rev.pop().unwrap();
        proof {
            assert(r == orig[jx as int]);
            lemma_matching_step(orig, conditions@, jx as int);
        }
        if flags[jx] {
            res.push(r);
        }
        jx = jx + 1;
    }
    proof {
        assert(orig.take(orig.len() as int) =~= orig);
    }
    res
}

/// The number of records satisfying the conjunction of all conditions,
/// without materializing the filtered collection: always exactly the length
/// of `filter_records_fast` on the same input and conditions.
pub fn count_matching_fast(records: &Vec<Record>, conditions: &Vec<(String, String)>) -> (c: usize)
    requires
        all_wf(records@),
    ensures
        c == matching(records@, conditions@).len(),
{
    let flags = par_match_flags(records, conditions);
    let mut c: usize = 0;
    let mut i: usize = 0;
    proof {
        assert(records@.take(0) =~= Seq::<Record>::empty());
        reveal(Seq::filter);
    }
    while i < flags.len()
        invariant
            flags@.len() == records@.len(),
            forall|k: int| 0 <= k < records@.len() ==> flags@[k] == conds_match(
                records@[k],
                conditions@,
            ),
            i <= records@.len(),
            c <= i,
            c == matching(records@.take(i as int), conditions@).len(),
        decreases flags@.len() - i,
    {
        proof {
            lemma_matching_step(records@, conditions@, i as int);
        }
        if flags[i] {
            c = c + 1;
        }
        i = i + 1;
    }
    proof {
        assert(records@.take(records@.len() as int) =~= records@);
    }
    c
}

/// Counting with a condition set returns exactly the length of filtering
/// with the same condition set: both are pinned to the same specification.
pub proof fn theorem_count_is_filter_len(
    records: Seq<Record>,
    conds: Seq<(String, String)>,
    c: usize,
    res: Seq<Record>,
)
    requires
        c == matching(records, conds).len(),
        res == matching(records, conds),
    ensures
        c == res.len(),
{
}

/// The exact column/value pairs of a record: each of its column names with
/// the value the record associates to that name.
pub open spec fn own_pairs(r: Record) -> Seq<(String, String)> {
    Seq::new(r.cols@.len(), |i: int| (r.cols@[i], r.vals@[col_find(r.cols@, r.cols@[i]@)->0]))
}

/// Every record satisfies its own exact column/value pairs.
pub proof fn lemma_matches_own_pairs(r: Record)
    requires
        r.wf(),
    ensures
        conds_match(r, own_pairs(r)),
{
    assert forall|j: int| 0 <= j < own_pairs(r).len() implies rec_get(
        r,
        own_pairs(r)[j].0@,
    ) == Some(own_pairs(r)[j].1@) by {
        lemma_col_find_props(r.cols@, r.cols@[j]@);
        if col_find(r.cols@, r.cols@[j]@) is None {
            assert(r.cols@[j]@ == r.cols@[j]@);
            assert(false);
        }
    }
}

/// Filtering a collection with the exact column/value pairs of one of its
/// own records keeps that record in the result.
pub proof fn theorem_filter_keeps_own_record(records: Seq<Record>, p: int)
    requires
        0 <= p < records.len(),
        records[p].wf(),
    ensures
        matching(records, own_pairs(records[p])).contains(records[p]),
{
    lemma_matches_own_pairs(records[p]);
    lemma_matching_contains(records, own_pairs(records[p]), p);
}

/// Any record of the collection that satisfies the conditions appears in the
/// filtered result.
pub proof fn lemma_matching_contains(records: Seq<Record>, conds: Seq<(String, String)>, p: int)
    requires
        0 <= p < records.len(),
        conds_match(records[p], conds),
    ensures
        matching(records, conds).contains(records[p]),
    decreases records.len(),
{
    reveal(Seq::filter);
    let sub = records.drop_last();
    if p == records.len() - 1 {
        assert(records.last() == records[p]);
        let m = matching(sub, conds);
        assert(matching(records, conds) == m.push(records[p]));
        assert(m.push(records[p])[m.len() as int] == records[p]);
    } else {
        assert(sub[p] == records[p]);
        lemma_matching_contains(sub, conds, p);
        let m = matching(sub, conds);
        let i = choose|i: int| 0 <= i < m.len() && m[i] == records[p];
        if conds_match(records.last(), conds) {
            assert(matching(records, conds) == m.push(records.last()));
            assert(m.push(records.last())[i] == records[p]);
        }
    }
}

} // verus!
