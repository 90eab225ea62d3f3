//! The line parser: the spec model of splitting a line on tab characters,
//! and the executable parser that aligns fields with an ordered schema.

use vstd::prelude::*;
use vstd::string::StrSliceExecFns;
use crate::record::Record;

verus! {

/// Index of the first tab character of `l`, or `l.len()` when none occurs.
pub open spec fn first_tab(l: Seq<char>) -> int
    decreases l.len(),
{
    if l.len() == 0 {
        0
    } else if l[0] == '\t' {
        0
    } else {
        1 + first_tab(l.drop_first())
    }
}

/// `first_tab` points at the first tab of the line, or just past its end.
pub proof fn lemma_first_tab_bounds(l: Seq<char>)
    ensures
        0 <= first_tab(l) <= l.len(),
        first_tab(l) < l.len() ==> l[first_tab(l)] == '\t',
        forall|k: int| 0 <= k < first_tab(l) ==> l[k] != '\t',
    decreases l.len(),
{
    if l.len() > 0 && l[0] != '\t' {
        let d = l.drop_first();
        lemma_first_tab_bounds(d);
        if first_tab(l) < l.len() {
            assert(l[first_tab(l)] == d[first_tab(d)]);
        }
        assert forall|k: int| 0 <= k < first_tab(l) implies l[k] != '\t' by {
            if k > 0 {
                assert(l[k] == d[k - 1]);
            }
        }
    }
}

/// A position before which no tab occurs, and which holds a tab or is the
/// line's end, is exactly `first_tab`.
pub proof fn lemma_first_tab_is(l: Seq<char>, m: int)
    requires
        0 <= m <= l.len(),
        forall|k: int| 0 <= k < m ==> l[k] != '\t',
        m < l.len() ==> l[m] == '\t',
    ensures
        first_tab(l) == m,
    decreases m,
{
    if m == 0 {
    } else {
        let d = l.drop_first();
        assert(l[0] != '\t');
        assert forall|k: int| 0 <= k < m - 1 implies d[k] != '\t' by {
            assert(d[k] == l[k + 1]);
        }
        if m - 1 < d.len() {
            assert(d[m - 1] == l[m]);
        }
        lemma_first_tab_is(d, m - 1);
    }
}

/// The fields of a line: the maximal tab-free segments, in order. A line
/// without a tab is a single field, so a line always has at least one field.
pub open spec fn fields_of(l: Seq<char>) -> Seq<Seq<char>>
    decreases l.len(),
{
    let i = first_tab(l);
    if 0 <= i < l.len() {
        seq![l.take(i)] + fields_of(l.skip(i + 1))
    } else {
        seq![l]
    }
}

/// The j-th field of `l`, or the empty string beyond the last field.
pub open spec fn field_or_empty(l: Seq<char>, j: int) -> Seq<char> {
    if 0 <= j < fields_of(l).len() {
        fields_of(l)[j]
    } else {
        Seq::empty()
    }
}

/// What parsing `l` against the schema `cols` yields: the same columns in
/// order, and for each position the aligned field of the line — empty when
/// the line has fewer fields than columns, extra fields discarded.
pub open spec fn is_parse_of(r: Record, l: Seq<char>, cols: Seq<String>) -> bool {
    &&& r.wf()
    &&& r.cols@ == cols
    &&& r.vals@.len() == cols.len()
    &&& forall|j: int| 0 <= j < cols.len() ==> (#[trigger] r.vals@[j])@ == field_or_empty(l, j)
}

/// First tab of `line` at or after `from`, or `n` (the length) when none.
fn find_tab(line: &str, from: usize, n: usize) -> (res: usize)
    requires
        n == line@.len(),
        from <= n,
    ensures
        from <= res <= n,
        res < n ==> line@[res as int] == '\t',
        forall|k: int| from <= k < res ==> line@[k] != '\t',
{
    let mut i = from;
    while i < n
        invariant
            from <= i <= n,
            n == line@.len(),
            forall|k: int| from <= k < i ==> line@[k] != '\t',
        decreases n - i,
    {
        let c = line.get_char(i);
        if c == '\t' {
            return i;
        }
        i = i + 1;
    }
    n
}

/// A copy of a vector of strings, equal element by element.
pub fn clone_strings(xs: &Vec<String>) -> (r: Vec<String>)
    ensures
        r@ == xs@,
{
    let mut r: Vec<String> = Vec::new();
    let mut i: usize = 0;
    while i < xs.len()
        invariant
            i <= xs@.len(),
            r@ =~= xs@.take(i as int),
        decreases xs@.len() - i,
    {
        r.push(xs[i].clone());
        i = i + 1;
    }
    proof {
        assert(r@ =~= xs@);
    }
    r
}

/// Parse one raw line against an ordered schema: split on the tab character,
/// align the i-th field with the i-th column, set columns beyond the last
/// field to the empty string, and silently discard extra trailing fields.
/// Parsing never fails.
pub fn parse_tsv_line_fast(line: &str, columns: &Vec<String>) -> (r: Record)
    ensures
        is_parse_of(r, line@, columns@),
{
    let ghost l = line@;
    let n = line.unicode_len();
    let cols = clone_strings(columns);
    let mut vals: Vec<String> = Vec::new();
    let mut start: usize = 0;
    let mut done = false;
    proof {
        assert(l.skip(0) =~= l);
        assert(fields_of(l).skip(0) =~= fields_of(l));
    }
    while vals.len() < columns.len()
        invariant
            l == line@,
            n == l.len(),
            vals@.len() <= columns@.len(),
            forall|j: int| 0 <= j < vals@.len() ==> (#[trigger] vals@[j])@ == field_or_empty(l, j),
            !done ==> start <= n && fields_of(l).skip(vals@.len() as int) == fields_of(
                l.skip(start as int),
            ) && vals@.len() + fields_of(l.skip(start as int)).len() == fields_of(l).len(),
            done ==> vals@.len() >= fields_of(l).len(),
        decreases columns@.len() - vals@.len(),
    {
        if !done {
            let ghost suffix = l.skip(start as int);
            let ghost k = vals@.len() as int;
            let t = find_tab(line, start, n);
            proof {
                assert forall|k2: int| 0 <= k2 < t - start implies suffix[k2] != '\t' by {
                    assert(suffix[k2] == l[start + k2]);
                }
                if t < n {
                    assert(suffix[t - start] == l[t as int]);
                }
                lemma_first_tab_is(suffix, t - start);
                assert(fields_of(l)[k] == fields_of(l).skip(k)[0]);
            }
            let piece = line.substring_char(start, t).to_owned();
            proof {
                assert(piece@ =~= suffix.take(t - start));
            }
            if t < n {
                proof {
                    // The suffix starts with the field up to its first tab.
                    assert(fields_of(suffix) == seq![suffix.take(t - start)] + fields_of(
                        suffix.skip(t - start + 1),
                    ));
                    assert(fields_of(l)[k] == suffix.take(t - start));
                    assert(l.skip(t + 1) =~= suffix.skip(t - start + 1));
                    assert(fields_of(l).skip(k + 1) =~= fields_of(suffix).skip(1));
                    assert(fields_of(suffix).skip(1) =~= fields_of(suffix.skip(t - start + 1)));
                }
                vals.push(piece);
                start = t + 1;
            } else {
                proof {
                    // No tab remains: the whole suffix is the last field.
                    assert(fields_of(suffix) == seq![suffix]);
                    assert(piece@ =~= suffix);
                    assert(fields_of(l)[k] == suffix);
                    assert(fields_of(l).len() == k + 1);
                }
                vals.push(piece);
                done = true;
            }
        } else {
            vals.push(String::new());
        }
    }
    Record { cols, vals }
}

} // verus!
