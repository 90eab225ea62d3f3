//! The index builder: a mapping from each value observed in one column to
//! the ascending list of row positions where it occurs, accumulated
//! sequentially over the collection.

use vstd::prelude::*;
use vstd::pervasive::VecAdditionalExecFns;
use crate::record::{Record, all_wf, rec_get, names_distinct};

verus! {

/// A value-to-row-positions mapping. `keys[j]` is a distinct column value and
/// `rows[j]` the positions of the records holding it, in ascending order;
/// keys appear in first-occurrence order.
pub struct Index {
    pub keys: Vec<String>,
    pub rows: Vec<Vec<usize>>,
}

impl Index {
    /// Well-formedness: one row list per key, no key twice.
    pub open spec fn wf(&self) -> bool {
        self.keys@.len() == self.rows@.len() && names_distinct(self.keys@)
    }
}

/// The positions as mathematical integers.
pub open spec fn as_ints(s: Seq<usize>) -> Seq<int> {
    Seq::new(s.len(), |k: int| s[k] as int)
}

/// The row positions, in ascending order, of the records whose `col` value
/// is exactly `v`.
pub open spec fn posns(recs: Seq<Record>, col: Seq<char>, v: Seq<char>) -> Seq<int>
    decreases recs.len(),
{
    if recs.len() == 0 {
        Seq::empty()
    } else if rec_get(recs.last(), col) == Some(v) {
        posns(recs.drop_last(), col, v).push(recs.len() - 1)
    } else {
        posns(recs.drop_last(), col, v)
    }
}

/// Whether one of the keys is the value `v`.
pub open spec fn key_present(keys: Seq<String>, v: Seq<char>) -> bool {
    exists|j: int| 0 <= j < keys.len() && (#[trigger] keys[j])@ == v
}

/// Whether some record's `col` value is exactly `v`.
pub open spec fn observed(recs: Seq<Record>, col: Seq<char>, v: Seq<char>) -> bool {
    exists|i: int| 0 <= i < recs.len() && rec_get(#[trigger] recs[i], col) == Some(v)
}

/// The positions listed for a value are exactly the positions of the records
/// whose indexed column holds that value, strictly ascending — so with no
/// duplicate — and with no omission.
pub proof fn lemma_posns_exact(recs: Seq<Record>, col: Seq<char>, v: Seq<char>)
    ensures
        forall|k: int| 0 <= k < posns(recs, col, v).len() ==> 0 <= #[trigger] posns(
            recs,
            col,
            v,
        )[k] < recs.len() && rec_get(recs[posns(recs, col, v)[k]], col) == Some(v),
        forall|k1: int, k2: int| 0 <= k1 < k2 < posns(recs, col, v).len() ==> posns(
            recs,
            col,
            v,
        )[k1] < posns(recs, col, v)[k2],
        forall|p: int| 0 <= p < recs.len() && rec_get(#[trigger] recs[p], col) == Some(v)
            ==> posns(recs, col, v).contains(p),
    decreases recs.len(),
{
    if recs.len() > 0 {
        let sub = recs.drop_last();
        lemma_posns_exact(sub, col, v);
        assert(forall|i: int| 0 <= i < sub.len() ==> #[trigger] sub[i] == recs[i]);
        let ps = posns(recs, col, v);
        let psub = posns(sub, col, v);
        assert forall|p: int| 0 <= p < recs.len() && rec_get(
            #[trigger] recs[p],
            col,
        ) == Some(v) implies ps.contains(p) by {
            if p < recs.len() - 1 {
                assert(sub[p] == recs[p]);
                assert(rec_get(sub[p], col) == Some(v));
                assert(psub.contains(p));
                let k = choose|k: int| 0 <= k < psub.len() && psub[k] == p;
                assert(ps[k] == p);
            } else {
                assert(recs.last() == recs[p]);
                assert(ps.last() == p);
            }
        }
    }
}

/// A value never observed has no positions.
pub proof fn lemma_posns_absent(recs: Seq<Record>, col: Seq<char>, v: Seq<char>)
    requires
        !observed(recs, col, v),
    ensures
        posns(recs, col, v) == Seq::<int>::empty(),
    decreases recs.len(),
{
    if recs.len() > 0 {
        let sub = recs.drop_last();
        assert(forall|i: int| 0 <= i < sub.len() ==> #[trigger] sub[i] == recs[i]);
        assert(rec_get(recs[recs.len() - 1], col) != Some(v));
        lemma_posns_absent(sub, col, v);
    }
}

/// One accumulation step: extending the prefix by record `i` appends `i` to
/// the positions of its column value and leaves every other value's
/// positions unchanged.
pub proof fn lemma_posns_step(recs: Seq<Record>, col: Seq<char>, v: Seq<char>, i: int)
    requires
        0 <= i < recs.len(),
    ensures
        rec_get(recs[i], col) == Some(v) ==> posns(recs.take(i + 1), col, v) == posns(
            recs.take(i),
            col,
            v,
        ).push(i),
        rec_get(recs[i], col) != Some(v) ==> posns(recs.take(i + 1), col, v) == posns(
            recs.take(i),
            col,
            v,
        ),
{
    let t1 = recs.take(i + 1);
    assert(t1.last() == recs[i]);
    assert(t1.drop_last() =~= recs.take(i));
}

/// No value has more positions than there are records.
pub proof fn lemma_posns_len_le(recs: Seq<Record>, col: Seq<char>, v: Seq<char>)
    ensures
        posns(recs, col, v).len() <= recs.len(),
    decreases recs.len(),
{
    if recs.len() > 0 {
        lemma_posns_len_le(recs.drop_last(), col, v);
    }
}

/// Extending a prefix by one record adds exactly that record's column value
/// (when it has one) to the observed values.
pub proof fn lemma_observed_step(recs: Seq<Record>, col: Seq<char>, i: int)
    requires
        0 <= i < recs.len(),
    ensures
        forall|w: Seq<char>|
            #![trigger observed(recs.take(i + 1), col, w)]
            observed(recs.take(i + 1), col, w) <==> (observed(recs.take(i), col, w) || rec_get(
                recs[i],
                col,
            ) == Some(w)),
{
    let pre = recs.take(i);
    let post = recs.take(i + 1);
    assert(forall|x: int| 0 <= x < pre.len() ==> pre[x] == #[trigger] post[x]);
    assert(post[i] == recs[i]);
    assert forall|w: Seq<char>| observed(post, col, w) implies (observed(pre, col, w) || rec_get(
        recs[i],
        col,
    ) == Some(w)) by {
        let wit = choose|x: int| 0 <= x < post.len() && rec_get(#[trigger] post[x], col) == Some(
            w,
        );
        if wit != i {
            assert(rec_get(pre[wit], col) == Some(w));
        }
    }
    assert forall|w: Seq<char>| (observed(pre, col, w) || rec_get(recs[i], col) == Some(
        w,
    )) implies observed(post, col, w) by {
        if observed(pre, col, w) {
            let x = choose|x: int| 0 <= x < pre.len() && rec_get(#[trigger] pre[x], col) == Some(
                w,
            );
            assert(rec_get(post[x], col) == Some(w));
        } else {
            assert(rec_get(post[i], col) == Some(w));
        }
    }
}

/// Pushing one more key adds exactly its value to the present keys.
pub proof fn lemma_key_push(keys: Seq<String>, x: String)
    ensures
        forall|w: Seq<char>|
            #![trigger key_present(keys.push(x), w)]
            key_present(keys.push(x), w) <==> (key_present(keys, w) || w == x@),
{
    let ks = keys.push(x);
    assert(ks[keys.len() as int] == x);
    assert forall|w: Seq<char>| key_present(ks, w) implies (key_present(keys, w) || w == x@) by {
        let j = choose|j: int| 0 <= j < ks.len() && (#[trigger] ks[j])@ == w;
        if j < keys.len() {
            assert(keys[j]@ == w);
        }
    }
    assert forall|w: Seq<char>| (key_present(keys, w) || w == x@) implies key_present(ks, w) by {
        if key_present(keys, w) {
            let j = choose|j: int| 0 <= j < keys.len() && (#[trigger] keys[j])@ == w;
            assert(ks[j]@ == w);
        }
    }
}

/// The first key equal to `v`, if one is present.
pub fn find_name(keys: &Vec<String>, v: &String) -> (res: Option<usize>)
    ensures
        match res {
            Some(k) => k < keys@.len() && keys@[k as int]@ == v@,
            None => !key_present(keys@, v@),
        },
{
    let mut i: usize = 0;
    while i < keys.len()
        invariant
            i <= keys@.len(),
            forall|j: int| 0 <= j < i ==> (#[trigger] keys@[j])@ != v@,
        decreases keys@.len() - i,
    {
        if keys[i] == *v {
            return Some(i);
        }
        i = i + 1;
    }
    None
}

/// Build the index of one column: for every value observed in that column —
/// and for no other value — a key whose row list holds, in ascending order,
/// exactly the positions of the records whose column value equals it.
/// Records lacking the column contribute nothing.
pub fn build_index(records: &Vec<Record>, index_column: &String) -> (ix: Index)
    requires
        all_wf(records@),
    ensures
        ix.wf(),
        forall|j: int| 0 <= j < ix.keys@.len() ==> as_ints((#[trigger] ix.rows@[j])@) == posns(
            records@,
            index_column@,
            ix.keys@[j]@,
        ),
        forall|v: Seq<char>| key_present(ix.keys@, v) <==> observed(records@, index_column@, v),
{
    let ghost col = index_column@;
    let mut keys: Vec<String> = Vec::new();
    let mut rows: Vec<Vec<usize>> = Vec::new();
    let mut i: usize = 0;
    proof {
        assert(records@.take(0) =~= Seq::<Record>::empty());
    }
    while i < records.len()
        invariant
            all_wf(records@),
            col == index_column@,
            i <= records@.len(),
            keys@.len() == rows@.len(),
            names_distinct(keys@),
            forall|j: int| 0 <= j < keys@.len() ==> as_ints((#[trigger] rows@[j])@) == posns(
                records@.take(i as int),
                col,
                keys@[j]@,
            ),
            forall|v: Seq<char>| key_present(keys@, v) <==> observed(
                records@.take(i as int),
                col,
                v,
            ),
        decreases records@.len() - i,
    {
        let ghost pre = records@.take(i as int);
        let ghost post = records@.take(i + 1);
        proof {
            assert(records@[i as int].wf());
            assert(post.last() == records@[i as int]);
            assert(post.drop_last() =~= pre);
        }
        match records[i].get(index_column) {
            Some(vref) => {
                let v = vref.clone();
                proof {
                    lemma_posns_step(records@, col, v@, i as int);
                }
                match find_name(&keys, &v) {
                    Some(k) => {
                        let mut tmp: Vec<usize> = Vec::new();
                        rows.set_and_swap(k, &mut tmp);
                        tmp.push(i);
                        rows.set_and_swap(k, &mut tmp);
                        proof {
                            assert(keys@[k as int]@ == v@);
                            assert(as_ints(rows@[k as int]@) =~= posns(pre, col, v@).push(i as int));
                            assert forall|j: int| 0 <= j < keys@.len() && j != k implies as_ints(
                                (#[trigger] rows@[j])@,
                            ) == posns(post, col, keys@[j]@) by {
                                assert(keys@[j]@ != v@);
                                lemma_posns_step(records@, col, keys@[j]@, i as int);
                            }
                            assert forall|w: Seq<char>| key_present(keys@, w) <==> observed(
                                post,
                                col,
                                w,
                            ) by {
                                if observed(post, col, w) && !observed(pre, col, w) {
                                    let wit = choose|x: int| 0 <= x < post.len() && rec_get(
                                        #[trigger] post[x],
                                        col,
                                    ) == Some(w);
                                    assert(wit == i);
                                    assert(w == v@);
                                }
                                if key_present(keys@, w) {
                                    assert(observed(pre, col, w));
                                    let x = choose|x: int| 0 <= x < pre.len() && rec_get(
                                        #[trigger] pre[x],
                                        col,
                                    ) == Some(w);
                                    assert(rec_get(post[x], col) == Some(w));
                                }
                            }
                        }
                    },
                    None => {
                        let ghost old_keys = keys@;
                        proof {
                            lemma_posns_absent(pre, col, v@);
                        }
                        keys.push(v);
                        let mut nr: Vec<usize> = Vec::new();
                        nr.push(i);
                        rows.push(nr);
                        proof {
                            let ghost nk = keys@.len() - 1;
                            assert(keys@[nk]@ == v@);
                            assert(as_ints(rows@[nk]@) =~= posns(pre, col, v@).push(i as int));
                            assert forall|j: int| 0 <= j < keys@.len() - 1 implies (
                            #[trigger] keys@[j])@ != v@ by {
                                assert(keys@[j] == keys@.drop_last()[j]);
                            }
                            assert(names_distinct(keys@));
                            assert forall|j: int| 0 <= j < keys@.len() implies as_ints(
                                (#[trigger] rows@[j])@,
                            ) == posns(post, col, keys@[j]@) by {
                                if j < keys@.len() - 1 {
                                    assert(keys@[j]@ != v@);
                                    lemma_posns_step(records@, col, keys@[j]@, i as int);
                                }
                            }
                            assert forall|w: Seq<char>| key_present(keys@, w) <==> observed(
                                post,
                                col,
                                w,
                            ) by {
                                assert(rec_get(post[i as int], col) == Some(v@));
                                if observed(post, col, w) {
                                    let wit = choose|x: int| 0 <= x < post.len() && rec_get(
                                        #[trigger] post[x],
                                        col,
                                    ) == Some(w);
                                    if wit == i {
                                        assert(w == v@);
                                        assert(keys@[nk]@ == w);
                                    } else {
                                        assert(pre[wit] == post[wit]);
                                        assert(rec_get(pre[wit], col) == Some(w));
                                        assert(observed(pre, col, w));
                                        assert(key_present(old_keys, w));
                                        let j = choose|j: int| 0 <= j < old_keys.len() && (
                                        #[trigger] old_keys[j])@ == w;
                                        assert(keys@[j]@ == w);
                                    }
                                }
                                if key_present(keys@, w) {
                                    let j = choose|j: int| 0 <= j < keys@.len() && (
                                    #[trigger] keys@[j])@ == w;
                                    if j == nk {
                                        assert(w == v@);
                                        assert(observed(post, col, w));
                                    } else {
                                        assert(old_keys[j]@ == w);
                                        assert(key_present(old_keys, w));
                                        assert(observed(pre, col, w));
                                        let x = choose|x: int| 0 <= x < pre.len() && rec_get(
                                            #[trigger] pre[x],
                                            col,
                                        ) == Some(w);
                                        assert(rec_get(post[x], col) == Some(w));
                                    }
                                }
                            }
                        }
                    },
                }
            },
            None => {
                proof {
                    assert forall|j: int| 0 <= j < keys@.len() implies as_ints(
                        (#[trigger] rows@[j])@,
                    ) == posns(post, col, keys@[j]@) by {
                        lemma_posns_step(records@, col, keys@[j]@, i as int);
                    }
                    assert forall|w: Seq<char>| observed(post, col, w) implies observed(
                        pre,
                        col,
                        w,
                    ) by {
                        let wit = choose|x: int| 0 <= x < post.len() && rec_get(
                            #[trigger] post[x],
                            col,
                        ) == Some(w);
                        assert(wit != i);
                        assert(rec_get(pre[wit], col) == Some(w));
                    }
                    assert forall|w: Seq<char>| observed(pre, col, w) implies observed(
                        post,
                        col,
                        w,
                    ) by {
                        let x = choose|x: int| 0 <= x < pre.len() && rec_get(
                            #[trigger] pre[x],
                            col,
                        ) == Some(w);
                        assert(rec_get(post[x], col) == Some(w));
                    }
                }
            },
        }
        i = i + 1;
    }
    proof {
        assert(records@.take(records@.len() as int) =~= records@);
    }
    Index { keys, rows }
}

impl Index {
    /// The row positions recorded for `value`, when it was observed.
    pub fn get<'a>(&'a self, value: &String) -> (res: Option<&'a Vec<usize>>)
        requires
            self.wf(),
        ensures
            match res {
                Some(r) => exists|j: int| 0 <= j < self.keys@.len() && (
                #[trigger] self.keys@[j])@ == value@ && r == self.rows@[j],
                None => !key_present(self.keys@, value@),
            },
    {
        match find_name(&self.keys, value) {
            Some(k) => Some(&self.rows[k]),
            None => None,
        }
    }
}

} // verus!
