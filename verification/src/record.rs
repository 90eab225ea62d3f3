//! The record representation shared by every operation: one parsed row as an
//! ordered association from column name to field value, together with the
//! conjunctive equality predicate used by filtering and counting.

use vstd::prelude::*;

verus! {

/// One parsed row. `cols[i]` names the value `vals[i]`; both vectors have the
/// same length. When a name occurs more than once, lookup returns the value of
/// the last occurrence, matching insertion into a mapping in column order
/// (last write wins).
#[derive(Debug, PartialEq, Eq)]
pub struct Record {
    pub cols: Vec<String>,
    pub vals: Vec<String>,
}

impl Record {
    /// Well-formedness: every column name is aligned with a value.
    pub open spec fn wf(&self) -> bool {
        self.cols@.len() == self.vals@.len()
    }
}

/// All records of a collection are well formed.
pub open spec fn all_wf(rs: Seq<Record>) -> bool {
    forall|i: int| 0 <= i < rs.len() ==> (#[trigger] rs[i]).wf()
}

/// The character sequences of a vector of strings, in order.
pub open spec fn str_views(xs: Seq<String>) -> Seq<Seq<char>> {
    Seq::new(xs.len(), |i: int| xs[i]@)
}

/// No two columns share a name.
pub open spec fn names_distinct(cols: Seq<String>) -> bool {
    forall|i: int, j: int| 0 <= i < j < cols.len() ==> (#[trigger] cols[i])@ != (
    #[trigger] cols[j])@
}

/// The index of the last column named `name`, if any column has that name.
pub open spec fn col_find(cols: Seq<String>, name: Seq<char>) -> Option<int>
    decreases cols.len(),
{
    if cols.len() == 0 {
        None
    } else if cols.last()@ == name {
        Some(cols.len() - 1)
    } else {
        col_find(cols.drop_last(), name)
    }
}

/// The value a record associates with column `name`: the value aligned with
/// the last column of that name, or `None` when no column is named `name`.
pub open spec fn rec_get(r: Record, name: Seq<char>) -> Option<Seq<char>> {
    match col_find(r.cols@, name) {
        Some(i) => Some(r.vals@[i]@),
        None => None,
    }
}

/// `col_find` returns a valid index of a column with the asked-for name,
/// beyond which no column has that name; `None` means no column has it.
pub proof fn lemma_col_find_props(cols: Seq<String>, name: Seq<char>)
    ensures
        match col_find(cols, name) {
            Some(i) => 0 <= i < cols.len() && cols[i]@ == name && forall|j: int|
                i < j < cols.len() ==> (#[trigger] cols[j])@ != name,
            None => forall|j: int| 0 <= j < cols.len() ==> (#[trigger] cols[j])@ != name,
        },
    decreases cols.len(),
{
    if cols.len() == 0 {
    } else if cols.last()@ == name {
        assert(cols[cols.len() - 1]@ == name);
    } else {
        let sub = cols.drop_last();
        lemma_col_find_props(sub, name);
        assert(forall|j: int| 0 <= j < sub.len() ==> #[trigger] cols[j] == sub[j]);
        assert(cols[cols.len() - 1]@ != name);
    }
}

impl Record {
    /// The value for column `name`, when the record has such a column; the
    /// last column of that name decides.
    pub fn get<'a>(&'a self, name: &String) -> (res: Option<&'a String>)
        requires
            self.wf(),
        ensures
            match res {
                Some(v) => rec_get(*self, name@) == Some(v@),
                None => rec_get(*self, name@) is None,
            },
    {
        proof {
            assert(self.cols@.take(self.cols@.len() as int) =~= self.cols@);
        }
        let mut i: usize = self.cols.len();
        while i > 0
            invariant
                self.wf(),
                i <= self.cols@.len(),
                col_find(self.cols@, name@) == col_find(self.cols@.take(i as int), name@),
            decreases i,
        {
            i = i - 1;
            if self.cols[i] == *name {
                proof {
                    let pre = self.cols@.take(i + 1);
                    assert(pre.last() == self.cols@[i as int]);
                }
                return Some(&self.vals[i]);
            }
            proof {
                let pre = self.cols@.take(i + 1);
                assert(pre.last() == self.cols@[i as int]);
                assert(pre.drop_last() =~= self.cols@.take(i as int));
            }
        }
        None
    }
}

/// Every (column, expected value) pair of `conds` holds of `r`: the record
/// has the column and its value is exactly the expected one. An empty
/// condition set matches every record.
pub open spec fn conds_match(r: Record, conds: Seq<(String, String)>) -> bool {
    forall|j: int| 0 <= j < conds.len() ==> rec_get(r, (#[trigger] conds[j]).0@) == Some(
        conds[j].1@,
    )
}

/// Whether `r` satisfies the conjunction of all conditions.
pub fn record_matches(r: &Record, conds: &Vec<(String, String)>) -> (b: bool)
    requires
        r.wf(),
    ensures
        b == conds_match(*r, conds@),
{
    let mut j: usize = 0;
    while j < conds.len()
        invariant
            r.wf(),
            j <= conds@.len(),
            forall|k: int| 0 <= k < j ==> rec_get(*r, (#[trigger] conds@[k]).0@) == Some(
                conds@[k].1@,
            ),
        decreases conds@.len() - j,
    {
        let ok = match r.get(&conds[j].0) {
            Some(v) => *v == conds[j].1,
            None => false,
        };
        if !ok {
            return false;
        }
        j = j + 1;
    }
    true
}

} // verus!
