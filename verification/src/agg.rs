//! The aggregation engine: distinct values of a column, grouped counts, and
//! the grouping step behind grouped numeric sums — which records contribute,
//! to which group, in which order.

use vstd::prelude::*;
use vstd::pervasive::VecAdditionalExecFns;
use crate::record::{Record, all_wf, rec_get, names_distinct, str_views};
use crate::index::{posns, key_present, observed, find_name, lemma_posns_step, lemma_posns_absent,
    lemma_posns_len_le, lemma_observed_step, lemma_key_push};
use rayon::iter::{IntoParallelRefIterator, ParallelIterator};

verus! {

/// Relies on rayon: a parallel `map` over a vector, collected into a vector,
/// applies the closure to every element and keeps input order. The closure
/// only calls the verified `Record::get` and clones the found value.
#[verifier::external_body]
fn par_column_values(records: &Vec<Record>, column: &String) -> (vs: Vec<Option<String>>)
    requires
        all_wf(records@),
    ensures
        vs@.len() == records@.len(),
        forall|i: int| 0 <= i < records@.len() ==> match #[trigger] vs@[i] {
            Some(s) => rec_get(records@[i], column@) == Some(s@),
            None => rec_get(records@[i], column@) is None,
        },
{
    records.par_iter().map(|r| r.get(column).cloned()).collect()
}

/// The distinct values observed in `column` across all records having that
/// column: every observed value exactly once and no other value. The result
/// is a set materialization; its order carries no meaning.
pub fn unique_values(records: &Vec<Record>, column: &String) -> (vs: Vec<String>)
    requires
        all_wf(records@),
    ensures
        names_distinct(vs@),
        forall|v: Seq<char>| key_present(vs@, v) <==> observed(records@, column@, v),
{
    let ghost col = column@;
    let raw = par_column_values(records, column);
    let mut vs: Vec<String> = Vec::new();
    let mut i: usize = 0;
    proof {
        assert(records@.take(0) =~= Seq::<Record>::empty());
    }
    while i < raw.len()
        invariant
            col == column@,
            raw@.len() == records@.len(),
            forall|k: int| 0 <= k < records@.len() ==> match #[trigger] raw@[k] {
                Some(s) => rec_get(records@[k], col) == Some(s@),
                None => rec_get(records@[k], col) is None,
            },
            i <= raw@.len(),
            names_distinct(vs@),
            forall|v: Seq<char>| key_present(vs@, v) <==> observed(records@.take(i as int), col, v),
        decreases raw@.len() - i,
    {
        proof {
            lemma_observed_step(records@, col, i as int);
        }
        let cur = &raw[i];
        match cur {
            Some(s) => {
                match find_name(&vs, s) {
                    Some(_) => {
                    },
                    None => {
                        let sc = s.clone();
                        let ghost old_vs = vs@;
                        proof {
                            lemma_key_push(old_vs, sc);
                        }
                        vs.push(sc);
                        proof {
                            assert(s@ == sc@);
                            assert forall|j: int| 0 <= j < vs@.len() - 1 implies (
                            #[trigger] vs@[j])@ != s@ by {
                                assert(vs@[j] == old_vs[j]);
                            }
                            assert(names_distinct(vs@));
                        }
                    },
                }
            },
            None => {
            },
        }
        i = i + 1;
    }
    proof {
        assert(records@.take(records@.len() as int) =~= records@);
    }
    vs
}

/// A value-to-count mapping: `keys[j]` is a distinct column value and
/// `counts[j]` the number of records holding it.
pub struct GroupCounts {
    pub keys: Vec<String>,
    pub counts: Vec<usize>,
}

impl GroupCounts {
    /// Well-formedness: one count per key, no key twice.
    pub open spec fn wf(&self) -> bool {
        self.keys@.len() == self.counts@.len() && names_distinct(self.keys@)
    }
}

/// Group records by the values of one column and count each group: for every
/// value observed in the column — and for no other value — the number of
/// records whose column value equals it. Records lacking the column are
/// excluded from all counts.
pub fn group_by_count(records: &Vec<Record>, column: &String) -> (g: GroupCounts)
    requires
        all_wf(records@),
    ensures
        g.wf(),
        forall|j: int| 0 <= j < g.keys@.len() ==> (#[trigger] g.counts@[j]) as int == posns(
            records@,
            column@,
            g.keys@[j]@,
        ).len(),
        forall|v: Seq<char>| key_present(g.keys@, v) <==> observed(records@, column@, v),
{
    let ghost col = column@;
    let mut keys: Vec<String> = Vec::new();
    let mut counts: Vec<usize> = Vec::new();
    let mut i: usize = 0;
    proof {
        assert(records@.take(0) =~= Seq::<Record>::empty());
    }
    while i < records.len()
        invariant
            all_wf(records@),
            col == column@,
            i <= records@.len(),
            keys@.len() == counts@.len(),
            names_distinct(keys@),
            forall|j: int| 0 <= j < keys@.len() ==> (#[trigger] counts@[j]) as int == posns(
                records@.take(i as int),
                col,
                keys@[j]@,
            ).len(),
            forall|v: Seq<char>| key_present(keys@, v) <==> observed(records@.take(i as int), col, v),
        decreases records@.len() - i,
    {
        let ghost pre = records@.take(i as int);
        let ghost post = records@.take(i + 1);
        proof {
            assert(records@[i as int].wf());
            lemma_observed_step(records@, col, i as int);
        }
        match records[i].get(column) {
            Some(vref) => {
                let v = vref.clone();
                proof {
                    lemma_posns_step(records@, col, v@, i as int);
                }
                match find_name(&keys, &v) {
                    Some(k) => {
                        let c = counts[k];
                        proof {
                            assert(c as int == posns(pre, col, keys@[k as int]@).len());
                            lemma_posns_len_le(pre, col, keys@[k as int]@);
                        }
                        counts.set(k, c + 1);
                        proof {
                            assert(keys@[k as int]@ == v@);
                            assert forall|j: int| 0 <= j < keys@.len() implies (
                            #[trigger] counts@[j]) as int == posns(post, col, keys@[j]@).len() by {
                                if j != k {
                                    assert(keys@[j]@ != v@);
                                }
                                lemma_posns_step(records@, col, keys@[j]@, i as int);
                            }
                        }
                    },
                    None => {
                        let ghost old_keys = keys@;
                        proof {
                            lemma_posns_absent(pre, col, v@);
                            lemma_key_push(old_keys, v);
                        }
                        keys.push(v);
                        counts.push(1);
                        proof {
                            let ghost nk = keys@.len() - 1;
                            assert forall|j: int| 0 <= j < keys@.len() - 1 implies (
                            #[trigger] keys@[j])@ != keys@[nk]@ by {
                                assert(keys@[j] == old_keys[j]);
                            }
                            assert(names_distinct(keys@));
                            assert forall|j: int| 0 <= j < keys@.len() implies (
                            #[trigger] counts@[j]) as int == posns(post, col, keys@[j]@).len() by {
                                if j < keys@.len() - 1 {
                                    assert(keys@[j] == old_keys[j]);
                                    assert(keys@[j]@ != keys@[nk]@);
                                }
                                lemma_posns_step(records@, col, keys@[j]@, i as int);
                            }
                        }
                    },
                }
            },
            None => {
                proof {
                    assert forall|j: int| 0 <= j < keys@.len() implies (
                    #[trigger] counts@[j]) as int == posns(post, col, keys@[j]@).len() by {
                        lemma_posns_step(records@, col, keys@[j]@, i as int);
                    }
                }
            },
        }
        i = i + 1;
    }
    proof {
        assert(records@.take(records@.len() as int) =~= records@);
    }
    GroupCounts { keys, counts }
}

/// Whether some record holds `v` in the group column and has the value
/// column at all — the condition for contributing to `v`'s group.
pub open spec fn group_observed(recs: Seq<Record>, gcol: Seq<char>, vcol: Seq<char>, v: Seq<char>)
    -> bool {
    exists|i: int| 0 <= i < recs.len() && rec_get(#[trigger] recs[i], gcol) == Some(v) && rec_get(
        recs[i],
        vcol,
    ) is Some
}

/// The value-column strings of the records in `v`'s group, in record order.
pub open spec fn group_vals(recs: Seq<Record>, gcol: Seq<char>, vcol: Seq<char>, v: Seq<char>)
    -> Seq<Seq<char>>
    decreases recs.len(),
{
    if recs.len() == 0 {
        Seq::empty()
    } else {
        let rest = group_vals(recs.drop_last(), gcol, vcol, v);
        if rec_get(recs.last(), gcol) == Some(v) && rec_get(recs.last(), vcol) is Some {
            rest.push(rec_get(recs.last(), vcol)->0)
        } else {
            rest
        }
    }
}

/// One grouping step: extending the prefix by record `i` appends its
/// value-column string to its own group (when it has both columns) and
/// leaves every other group unchanged.
pub proof fn lemma_group_vals_step(
    recs: Seq<Record>,
    gcol: Seq<char>,
    vcol: Seq<char>,
    v: Seq<char>,
    i: int,
)
    requires
        0 <= i < recs.len(),
    ensures
        (rec_get(recs[i], gcol) == Some(v) && rec_get(recs[i], vcol) is Some) ==> group_vals(
            recs.take(i + 1),
            gcol,
            vcol,
            v,
        ) == group_vals(recs.take(i), gcol, vcol, v).push(rec_get(recs[i], vcol)->0),
        !(rec_get(recs[i], gcol) == Some(v) && rec_get(recs[i], vcol) is Some) ==> group_vals(
            recs.take(i + 1),
            gcol,
            vcol,
            v,
        ) == group_vals(recs.take(i), gcol, vcol, v),
{
    let t1 = recs.take(i + 1);
    assert(t1.last() == recs[i]);
    assert(t1.drop_last() =~= recs.take(i));
}

/// A value never group-observed has an empty group.
pub proof fn lemma_group_vals_absent(
    recs: Seq<Record>,
    gcol: Seq<char>,
    vcol: Seq<char>,
    v: Seq<char>,
)
    requires
        !group_observed(recs, gcol, vcol, v),
    ensures
        group_vals(recs, gcol, vcol, v) == Seq::<Seq<char>>::empty(),
    decreases recs.len(),
{
    if recs.len() > 0 {
        let sub = recs.drop_last();
        assert(forall|i: int| 0 <= i < sub.len() ==> #[trigger] sub[i] == recs[i]);
        assert(recs.last() == recs[recs.len() - 1]);
        lemma_group_vals_absent(sub, gcol, vcol, v);
    }
}

/// Extending a prefix by one record adds exactly its group value (when the
/// record has both columns) to the group-observed values.
pub proof fn lemma_group_observed_step(recs: Seq<Record>, gcol: Seq<char>, vcol: Seq<char>, i: int)
    requires
        0 <= i < recs.len(),
    ensures
        forall|w: Seq<char>|
            #![trigger group_observed(recs.take(i + 1), gcol, vcol, w)]
            group_observed(recs.take(i + 1), gcol, vcol, w) <==> (group_observed(
                recs.take(i),
                gcol,
                vcol,
                w,
            ) || (rec_get(recs[i], gcol) == Some(w) && rec_get(recs[i], vcol) is Some)),
{
    let pre = recs.take(i);
    let post = recs.take(i + 1);
    assert(forall|x: int| 0 <= x < pre.len() ==> pre[x] == #[trigger] post[x]);
    assert(post[i] == recs[i]);
    assert forall|w: Seq<char>| group_observed(post, gcol, vcol, w) implies (group_observed(
        pre,
        gcol,
        vcol,
        w,
    ) || (rec_get(recs[i], gcol) == Some(w) && rec_get(recs[i], vcol) is Some)) by {
        let wit = choose|x: int|
            0 <= x < post.len() && rec_get(#[trigger] post[x], gcol) == Some(w) && rec_get(
                post[x],
                vcol,
            ) is Some;
        if wit != i {
            assert(rec_get(pre[wit], gcol) == Some(w) && rec_get(pre[wit], vcol) is Some);
        }
    }
    assert forall|w: Seq<char>| (group_observed(pre, gcol, vcol, w) || (rec_get(
        recs[i],
        gcol,
    ) == Some(w) && rec_get(recs[i], vcol) is Some)) implies group_observed(
        post,
        gcol,
        vcol,
        w,
    ) by {
        if group_observed(pre, gcol, vcol, w) {
            let x = choose|x: int|
                0 <= x < pre.len() && rec_get(#[trigger] pre[x], gcol) == Some(w) && rec_get(
                    pre[x],
                    vcol,
                ) is Some;
            assert(rec_get(post[x], gcol) == Some(w) && rec_get(post[x], vcol) is Some);
        } else {
            assert(rec_get(post[i], gcol) == Some(w) && rec_get(post[i], vcol) is Some);
        }
    }
}

/// The groups of a grouped numeric sum: `keys[j]` is a distinct group-column
/// value and `vals[j]` the value-column strings of its records, in record
/// order — the exact multiset of candidate contributions each group sums.
pub struct Grouped {
    pub keys: Vec<String>,
    pub vals: Vec<Vec<String>>,
}

impl Grouped {
    /// Well-formedness: one value list per key, no key twice.
    pub open spec fn wf(&self) -> bool {
        self.keys@.len() == self.vals@.len() && names_distinct(self.keys@)
    }
}

/// Group records by the values of `group_column` and collect, for each group
/// in record order, the raw strings of `value_column`: exactly the records
/// holding the group's value and having the value column contribute, and a
/// group exists for exactly the values so observed. Records missing either
/// column are excluded entirely.
pub fn group_values(records: &Vec<Record>, group_column: &String, value_column: &String) -> (g:
    Grouped)
    requires
        all_wf(records@),
    ensures
        g.wf(),
        forall|j: int| 0 <= j < g.keys@.len() ==> str_views((#[trigger] g.vals@[j])@) == group_vals(
            records@,
            group_column@,
            value_column@,
            g.keys@[j]@,
        ),
        forall|v: Seq<char>| key_present(g.keys@, v) <==> group_observed(
            records@,
            group_column@,
            value_column@,
            v,
        ),
{
    let ghost gcol = group_column@;
    let ghost vcol = value_column@;
    let mut keys: Vec<String> = Vec::new();
    let mut vals: Vec<Vec<String>> = Vec::new();
    let mut i: usize = 0;
    proof {
        assert(records@.take(0) =~= Seq::<Record>::empty());
    }
    while i < records.len()
        invariant
            all_wf(records@),
            gcol == group_column@,
            vcol == value_column@,
            i <= records@.len(),
            keys@.len() == vals@.len(),
            names_distinct(keys@),
            forall|j: int| 0 <= j < keys@.len() ==> str_views((#[trigger] vals@[j])@) == group_vals(
                records@.take(i as int),
                gcol,
                vcol,
                keys@[j]@,
            ),
            forall|v: Seq<char>| key_present(keys@, v) <==> group_observed(
                records@.take(i as int),
                gcol,
                vcol,
                v,
            ),
        decreases records@.len() - i,
    {
        let ghost pre = records@.take(i as int);
        let ghost post = records@.take(i + 1);
        proof {
            assert(records@[i as int].wf());
            lemma_group_observed_step(records@, gcol, vcol, i as int);
        }
        let gv_opt: Option<String> = match records[i].get(group_column) {
            Some(gref) => Some(gref.clone()),
            None => None,
        };
        let sv_opt: Option<String> = match records[i].get(value_column) {
            Some(sref) => Some(sref.clone()),
            None => None,
        };
        match (gv_opt, sv_opt) {
            (Some(gv), Some(sv)) => {
                proof {
                    assert(rec_get(records@[i as int], gcol) == Some(gv@));
                    assert(rec_get(records@[i as int], vcol) == Some(sv@));
                    lemma_group_vals_step(records@, gcol, vcol, gv@, i as int);
                }
                match find_name(&keys, &gv) {
                    Some(k) => {
                        let mut tmp: Vec<String> = Vec::new();
                        vals.set_and_swap(k, &mut tmp);
                        tmp.push(sv);
                        vals.set_and_swap(k, &mut tmp);
                        proof {
                            assert(keys@[k as int]@ == gv@);
                            assert(str_views(vals@[k as int]@) =~= group_vals(
                                pre,
                                gcol,
                                vcol,
                                gv@,
                            ).push(rec_get(records@[i as int], vcol)->0));
                            assert forall|j: int| 0 <= j < keys@.len() && j != k implies str_views(
                                (#[trigger] vals@[j])@,
                            ) == group_vals(post, gcol, vcol, keys@[j]@) by {
                                assert(keys@[j]@ != gv@);
                                lemma_group_vals_step(records@, gcol, vcol, keys@[j]@, i as int);
                            }
                        }
                    },
                    None => {
                        let ghost old_keys = keys@;
                        proof {
                            lemma_group_vals_absent(pre, gcol, vcol, gv@);
                            lemma_key_push(old_keys, gv);
                        }
                        keys.push(gv);
                        let mut nv: Vec<String> = Vec::new();
                        nv.push(sv);
                        vals.push(nv);
                        proof {
                            let ghost nk = keys@.len() - 1;
                            assert forall|j: int| 0 <= j < keys@.len() - 1 implies (
                            #[trigger] keys@[j])@ != keys@[nk]@ by {
                                assert(keys@[j] == old_keys[j]);
                            }
                            assert(names_distinct(keys@));
                            assert(str_views(vals@[nk]@) =~= group_vals(pre, gcol, vcol, keys@[nk]@)
                                .push(rec_get(records@[i as int], vcol)->0));
                            assert forall|j: int| 0 <= j < keys@.len() implies str_views(
                                (#[trigger] vals@[j])@,
                            ) == group_vals(post, gcol, vcol, keys@[j]@) by {
                                if j < keys@.len() - 1 {
                                    assert(keys@[j] == old_keys[j]);
                                    assert(keys@[j]@ != keys@[nk]@);
                                }
                                lemma_group_vals_step(records@, gcol, vcol, keys@[j]@, i as int);
                            }
                        }
                    },
                }
            },
            _ => {
                proof {
                    assert forall|j: int| 0 <= j < keys@.len() implies str_views(
                        (#[trigger] vals@[j])@,
                    ) == group_vals(post, gcol, vcol, keys@[j]@) by {
                        lemma_group_vals_step(records@, gcol, vcol, keys@[j]@, i as int);
                    }
                }
            },
        }
        i = i + 1;
    }
    proof {
        assert(records@.take(records@.len() as int) =~= records@);
    }
    Grouped { keys, vals }
}

} // verus!
