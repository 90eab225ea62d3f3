//! The batch parser: the line parser applied across many lines with
//! data-parallel workers, order preserved, and the row-reading logic of a
//! bulk file read (header skipping, optional row limit).

use vstd::prelude::*;
use crate::record::{Record, all_wf};
use crate::parse::{parse_tsv_line_fast, is_parse_of};
use rayon::iter::{IntoParallelRefIterator, ParallelIterator};

verus! {

/// Relies on rayon: a parallel `map` over a vector, collected into a vector,
/// applies the closure to every element and keeps input order, whatever the
/// number of workers or their scheduling. The closure only calls the
/// verified `parse_tsv_line_fast`.
#[verifier::external_body]
fn par_parse_lines(lines: &Vec<String>, columns: &Vec<String>) -> (rs: Vec<Record>)
    ensures
        rs@.len() == lines@.len(),
        forall|i: int| 0 <= i < lines@.len() ==> is_parse_of(#[trigger] rs@[i], lines@[i]@, columns@),
{
    lines.par_iter().map(|l| parse_tsv_line_fast(l.as_str(), columns)).collect()
}

/// Parse many raw lines against one schema across parallel workers,
/// producing exactly one record per line, in an order that matches the input
/// order; a malformed line degrades only its own fields and never aborts the
/// batch.
pub fn parse_tsv_batch_fast(lines: &Vec<String>, columns: &Vec<String>) -> (rs: Vec<Record>)
    ensures
        rs@.len() == lines@.len(),
        forall|i: int| 0 <= i < lines@.len() ==> is_parse_of(#[trigger] rs@[i], lines@[i]@, columns@),
        all_wf(rs@),
{
    let rs = par_parse_lines(lines, columns);
    proof {
        assert forall|i: int| 0 <= i < rs@.len() implies (#[trigger] rs@[i]).wf() by {
            assert(is_parse_of(rs@[i], lines@[i]@, columns@));
        }
    }
    rs
}

/// How many data rows a read returns: every line after the header, capped by
/// the limit when one is given.
pub open spec fn rows_to_read(n_lines: int, limit: Option<usize>) -> int {
    let avail = if n_lines > 0 {
        n_lines - 1
    } else {
        0
    };
    match limit {
        Some(m) => if (m as int) < avail {
            m as int
        } else {
            avail
        },
        None => avail,
    }
}

/// The row-reading logic of a bulk file read: skip the first line
/// unconditionally (it is the header), then parse each following line
/// against the schema, stopping without error once `limit` rows were parsed
/// when a limit is given.
pub fn read_tsv_lines(lines: &Vec<String>, columns: &Vec<String>, limit: Option<usize>) -> (rs:
    Vec<Record>)
    ensures
        rs@.len() == rows_to_read(lines@.len() as int, limit),
        forall|i: int| 0 <= i < rs@.len() ==> is_parse_of(
            #[trigger] rs@[i],
            lines@[i + 1]@,
            columns@,
        ),
        all_wf(rs@),
{
    let avail: usize = if lines.len() > 0 {
        lines.len() - 1
    } else {
        0
    };
    let rows: usize = match limit {
        Some(m) => if m < avail {
            m
        } else {
            avail
        },
        None => avail,
    };
    let mut rs: Vec<Record> = Vec::new();
    let mut j: usize = 0;
    while j < rows
        invariant
            rows == rows_to_read(lines@.len() as int, limit),
            rows < lines@.len() || rows == 0,
            j <= rows,
            rs@.len() == j,
            forall|i: int| 0 <= i < rs@.len() ==> is_parse_of(
                #[trigger] rs@[i],
                lines@[i + 1]@,
                columns@,
            ),
        decreases rows - j,
    {
        rs.push(parse_tsv_line_fast(lines[j + 1].as_str(), columns));
        j = j + 1;
    }
    proof {
        assert forall|i: int| 0 <= i < rs@.len() implies (#[trigger] rs@[i]).wf() by {
            assert(is_parse_of(rs@[i], lines@[i + 1]@, columns@));
        }
    }
    rs
}

} // verus!
