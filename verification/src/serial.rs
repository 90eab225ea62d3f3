//! The write logic behind bulk output: joining a record's values in schema
//! order into one tab-delimited line, the header line, and the proof that
//! parsing and re-serializing a line round-trips.

use vstd::prelude::*;
use vstd::string::StringExecFns;
use crate::record::{Record, rec_get, all_wf, names_distinct, str_views, lemma_col_find_props};
use crate::parse::{fields_of, field_or_empty, first_tab, lemma_first_tab_bounds, is_parse_of};

verus! {

/// The single line obtained by joining fields with the tab character.
pub open spec fn join_fields(vs: Seq<Seq<char>>) -> Seq<char>
    decreases vs.len(),
{
    if vs.len() == 0 {
        Seq::empty()
    } else if vs.len() == 1 {
        vs[0]
    } else {
        vs[0] + seq!['\t'] + join_fields(vs.drop_first())
    }
}

/// Appending one more field appends a tab and the field (no tab when it is
/// the first field).
pub proof fn lemma_join_push(vs: Seq<Seq<char>>, x: Seq<char>)
    ensures
        vs.len() == 0 ==> join_fields(vs.push(x)) == x,
        vs.len() > 0 ==> join_fields(vs.push(x)) == join_fields(vs) + seq!['\t'] + x,
    decreases vs.len(),
{
    let w = vs.push(x);
    if vs.len() == 0 {
        assert(w[0] == x);
    } else {
        assert(w[0] == vs[0]);
        assert(w.drop_first() =~= vs.drop_first().push(x));
        lemma_join_push(vs.drop_first(), x);
        if vs.len() == 1 {
            assert(join_fields(w) == w[0] + seq!['\t'] + join_fields(w.drop_first()));
        } else {
            assert(join_fields(w) =~= join_fields(vs) + seq!['\t'] + x);
        }
    }
}

/// The value a record shows for a column on output: its stored value, or the
/// empty string when the record lacks the column.
pub open spec fn out_val(r: Record, name: Seq<char>) -> Seq<char> {
    match rec_get(r, name) {
        Some(v) => v,
        None => Seq::empty(),
    }
}

/// The fields a record contributes to its output line, in schema order.
pub open spec fn row_fields(cols: Seq<String>, r: Record) -> Seq<Seq<char>> {
    Seq::new(cols.len(), |i: int| out_val(r, cols[i]@))
}

/// One output line for `r`: the record's value for each schema column in
/// order, empty when absent, joined with tabs.
pub fn join_row(columns: &Vec<String>, r: &Record) -> (s: String)
    requires
        r.wf(),
    ensures
        s@ == join_fields(row_fields(columns@, *r)),
{
    let ghost rf = row_fields(columns@, *r);
    proof {
        reveal_strlit("\t");
        assert(rf.take(0) =~= Seq::<Seq<char>>::empty());
    }
    let mut s = String::new();
    let mut i: usize = 0;
    while i < columns.len()
        invariant
            r.wf(),
            i <= columns@.len(),
            rf == row_fields(columns@, *r),
            s@ == join_fields(rf.take(i as int)),
        decreases columns@.len() - i,
    {
        if i > 0 {
            s.append("\t");
        }
        match r.get(&columns[i]) {
            Some(v) => {
                s.append(v.as_str());
            },
            None => {},
        }
        proof {
            reveal_strlit("\t");
            assert("\t"@ =~= seq!['\t']);
            lemma_join_push(rf.take(i as int), rf[i as int]);
            assert(rf.take(i + 1) =~= rf.take(i as int).push(rf[i as int]));
            assert(s@ =~= join_fields(rf.take(i + 1)));
        }
        i = i + 1;
    }
    proof {
        assert(rf.take(columns@.len() as int) =~= rf);
    }
    s
}

/// The header line: the schema's column names joined with tabs.
pub fn header_line(columns: &Vec<String>) -> (s: String)
    ensures
        s@ == join_fields(str_views(columns@)),
{
    let ghost nv = str_views(columns@);
    proof {
        assert(nv.take(0) =~= Seq::<Seq<char>>::empty());
    }
    let mut s = String::new();
    let mut i: usize = 0;
    while i < columns.len()
        invariant
            i <= columns@.len(),
            nv == str_views(columns@),
            s@ == join_fields(nv.take(i as int)),
        decreases columns@.len() - i,
    {
        if i > 0 {
            s.append("\t");
        }
        s.append(columns[i].as_str());
        proof {
            reveal_strlit("\t");
            assert("\t"@ =~= seq!['\t']);
            lemma_join_push(nv.take(i as int), nv[i as int]);
            assert(nv.take(i + 1) =~= nv.take(i as int).push(nv[i as int]));
            assert(s@ =~= join_fields(nv.take(i + 1)));
        }
        i = i + 1;
    }
    proof {
        assert(nv.take(columns@.len() as int) =~= nv);
    }
    s
}

/// How many lines precede the data rows in an output file: one header line
/// when not appending, none when appending.
pub open spec fn hdr_off(append: bool) -> int {
    if append {
        0
    } else {
        1
    }
}

/// The lines of a bulk write: when not appending, the header line first,
/// then one line per record in input order.
pub fn render_tsv(columns: &Vec<String>, records: &Vec<Record>, append: bool) -> (lines: Vec<
    String,
>)
    requires
        all_wf(records@),
    ensures
        lines@.len() == records@.len() + hdr_off(append),
        !append ==> lines@[0]@ == join_fields(str_views(columns@)),
        forall|i: int| hdr_off(append) <= i < lines@.len() ==> (#[trigger] lines@[i])@
            == join_fields(row_fields(columns@, records@[i - hdr_off(append)])),
{
    let mut lines: Vec<String> = Vec::new();
    if !append {
        lines.push(header_line(columns));
    }
    let ghost off = hdr_off(append);
    let mut i: usize = 0;
    while i < records.len()
        invariant
            all_wf(records@),
            i <= records@.len(),
            off == hdr_off(append),
            lines@.len() == i + off,
            !append ==> lines@[0]@ == join_fields(str_views(columns@)),
            forall|j: int| off <= j < lines@.len() ==> (#[trigger] lines@[j])@ == join_fields(
                row_fields(columns@, records@[j - off]),
            ),
        decreases records@.len() - i,
    {
        assert(records@[i as int].wf());
        lines.push(join_row(columns, &records[i]));
        i = i + 1;
    }
    lines
}

/// A run of `m` tab characters.
pub open spec fn tab_pad(m: nat) -> Seq<char> {
    Seq::new(m, |i: int| '\t')
}

/// A run of `m` empty fields.
pub open spec fn empty_fields(m: nat) -> Seq<Seq<char>> {
    Seq::new(m, |i: int| Seq::<char>::empty())
}

/// Joining the fields of a line reconstructs the line.
pub proof fn lemma_join_fields_of(l: Seq<char>)
    ensures
        join_fields(fields_of(l)) == l,
    decreases l.len(),
{
    let i = first_tab(l);
    lemma_first_tab_bounds(l);
    if 0 <= i < l.len() {
        let rest = l.skip(i + 1);
        lemma_join_fields_of(rest);
        let fs = fields_of(l);
        assert(fs[0] == l.take(i));
        assert(fs.drop_first() =~= fields_of(rest));
        assert(join_fields(fs) == l.take(i) + seq!['\t'] + rest);
        assert(l.take(i) + seq!['\t'] + rest =~= l);
    }
}

/// Joining with trailing empty fields appends one tab per empty field.
pub proof fn lemma_join_pad(vs: Seq<Seq<char>>, m: nat)
    requires
        vs.len() >= 1,
    ensures
        join_fields(vs + empty_fields(m)) == join_fields(vs) + tab_pad(m),
    decreases m,
{
    if m == 0 {
        assert(vs + empty_fields(0) =~= vs);
        assert(join_fields(vs) + tab_pad(0) =~= join_fields(vs));
    } else {
        let prev = vs + empty_fields((m - 1) as nat);
        lemma_join_pad(vs, (m - 1) as nat);
        assert(vs + empty_fields(m) =~= prev.push(Seq::<char>::empty()));
        lemma_join_push(prev, Seq::<char>::empty());
        assert(join_fields(vs) + tab_pad((m - 1) as nat) + seq!['\t'] + Seq::<char>::empty()
            =~= join_fields(vs) + tab_pad(m));
    }
}

/// Parsing a line and re-serializing the record with the same schema
/// round-trips: the output line is the input line padded with one trailing
/// tab per missing trailing field, and is the input line itself when the
/// line has exactly as many fields as the schema has columns. Extra fields
/// beyond the schema are lost by design, and a schema with duplicate column
/// names realigns values, so both are left out here.
pub proof fn theorem_parse_write_round_trip(l: Seq<char>, columns: Seq<String>, r: Record)
    requires
        is_parse_of(r, l, columns),
        names_distinct(columns),
        fields_of(l).len() <= columns.len(),
    ensures
        join_fields(row_fields(columns, r)) == l + tab_pad(
            (columns.len() - fields_of(l).len()) as nat,
        ),
        fields_of(l).len() == columns.len() ==> join_fields(row_fields(columns, r)) == l,
{
    let k = fields_of(l).len() as int;
    let n = columns.len() as int;
    assert forall|i: int| 0 <= i < n implies row_fields(columns, r)[i] == field_or_empty(l, i) by {
        lemma_col_find_props(r.cols@, columns[i]@);
        match crate::record::col_find(r.cols@, columns[i]@) {
            Some(j) => {
                if j != i {
                    assert(r.cols@[j]@ == columns[i]@);
                    assert(false);
                }
            },
            None => {
                assert(r.cols@[i]@ == columns[i]@);
                assert(false);
            },
        }
        assert(rec_get(r, columns[i]@) == Some(r.vals@[i]@));
    }
    let padded = fields_of(l) + empty_fields((n - k) as nat);
    assert forall|i: int| 0 <= i < n implies padded[i] == field_or_empty(l, i) by {
        if i >= k {
            assert(padded[i] == empty_fields((n - k) as nat)[i - k]);
        }
    }
    assert(row_fields(columns, r) =~= padded);
    lemma_join_pad(fields_of(l), (n - k) as nat);
    lemma_join_fields_of(l);
    if k == n {
        assert(l + tab_pad(0) =~= l);
    }
}

} // verus!
