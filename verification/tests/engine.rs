//! Tests of the record engine: parsing, filtering, counting, indexing,
//! aggregation, and the serialize/parse round trip.

use dbbasic_rust::record::Record;
use dbbasic_rust::parse::parse_tsv_line_fast;
use dbbasic_rust::batch::{parse_tsv_batch_fast, read_tsv_lines};
use dbbasic_rust::filter::{filter_records_fast, count_matching_fast};
use dbbasic_rust::index::build_index;
use dbbasic_rust::agg::{unique_values, group_by_count, group_values};
use dbbasic_rust::serial::{join_row, header_line, render_tsv};

fn cols(names: &[&str]) -> Vec<String> {
    names.iter().map(|s| s.to_string()).collect()
}

fn get<'a>(r: &'a Record, name: &str) -> Option<&'a String> {
    r.get(&name.to_string())
}

#[test]
fn parse_aligns_fields_with_columns() {
    let r = parse_tsv_line_fast("a\tb", &cols(&["x", "y"]));
    assert_eq!(get(&r, "x"), Some(&"a".to_string()));
    assert_eq!(get(&r, "y"), Some(&"b".to_string()));
}

#[test]
fn parse_pads_missing_trailing_fields() {
    let r = parse_tsv_line_fast("a", &cols(&["x", "y", "z"]));
    assert_eq!(get(&r, "x"), Some(&"a".to_string()));
    assert_eq!(get(&r, "y"), Some(&String::new()));
    assert_eq!(get(&r, "z"), Some(&String::new()));
}

#[test]
fn parse_discards_extra_fields() {
    let r = parse_tsv_line_fast("a\tb\tc\td", &cols(&["x", "y"]));
    assert_eq!(r.vals, vec!["a".to_string(), "b".to_string()]);
}

#[test]
fn parse_empty_line_gives_all_empty() {
    let r = parse_tsv_line_fast("", &cols(&["x", "y"]));
    assert_eq!(get(&r, "x"), Some(&String::new()));
    assert_eq!(get(&r, "y"), Some(&String::new()));
}

#[test]
fn parse_trailing_tab_gives_empty_last_field() {
    let r = parse_tsv_line_fast("a\t", &cols(&["x", "y"]));
    assert_eq!(get(&r, "x"), Some(&"a".to_string()));
    assert_eq!(get(&r, "y"), Some(&String::new()));
}

#[test]
fn parse_keeps_carriage_return() {
    let r = parse_tsv_line_fast("a\r", &cols(&["x"]));
    assert_eq!(get(&r, "x"), Some(&"a\r".to_string()));
}

#[test]
fn duplicate_column_names_last_occurrence_wins() {
    let r = parse_tsv_line_fast("a\tb", &cols(&["x", "x"]));
    assert_eq!(r.vals, vec!["a".to_string(), "b".to_string()]);
    assert_eq!(get(&r, "x"), Some(&"b".to_string()));
}

#[test]
fn parse_absent_column_lookup_is_none() {
    let r = parse_tsv_line_fast("a", &cols(&["x"]));
    assert_eq!(get(&r, "y"), None);
}

#[test]
fn batch_parse_preserves_input_order() {
    let lines: Vec<String> = (0..100).map(|i| format!("{}\trow", i)).collect();
    let rs = parse_tsv_batch_fast(&lines, &cols(&["id", "kind"]));
    assert_eq!(rs.len(), 100);
    for (i, r) in rs.iter().enumerate() {
        assert_eq!(get(r, "id"), Some(&i.to_string()));
        assert_eq!(get(r, "kind"), Some(&"row".to_string()));
    }
}

fn sample_records() -> Vec<Record> {
    let schema = cols(&["status", "city"]);
    vec![
        parse_tsv_line_fast("ok\tparis", &schema),
        parse_tsv_line_fast("fail\tparis", &schema),
        parse_tsv_line_fast("ok\tlyon", &schema),
        parse_tsv_line_fast("ok\tparis", &schema),
    ]
}

fn conds(pairs: &[(&str, &str)]) -> Vec<(String, String)> {
    pairs.iter().map(|(k, v)| (k.to_string(), v.to_string())).collect()
}

#[test]
fn filter_empty_conditions_returns_input_unchanged() {
    let rs = sample_records();
    let expect = sample_records();
    let out = filter_records_fast(rs, &conds(&[]));
    assert_eq!(out, expect);
}

#[test]
fn filter_keeps_matching_records_in_order() {
    let out = filter_records_fast(sample_records(), &conds(&[("status", "ok"), ("city", "paris")]));
    assert_eq!(out.len(), 2);
    for r in &out {
        assert_eq!(get(r, "status"), Some(&"ok".to_string()));
        assert_eq!(get(r, "city"), Some(&"paris".to_string()));
    }
}

#[test]
fn filter_with_own_pairs_keeps_the_record() {
    let rs = sample_records();
    let m = parse_tsv_line_fast("fail\tparis", &cols(&["status", "city"]));
    let out = filter_records_fast(rs, &conds(&[("status", "fail"), ("city", "paris")]));
    assert!(out.contains(&m));
}

#[test]
fn filter_missing_column_never_matches() {
    let out = filter_records_fast(sample_records(), &conds(&[("country", "fr")]));
    assert_eq!(out.len(), 0);
}

#[test]
fn count_equals_filter_length() {
    let cases = [
        conds(&[]),
        conds(&[("status", "ok")]),
        conds(&[("status", "ok"), ("city", "paris")]),
        conds(&[("status", "nope")]),
    ];
    for c in &cases {
        let n = count_matching_fast(&sample_records(), c);
        let filtered = filter_records_fast(sample_records(), c);
        assert_eq!(n, filtered.len());
    }
}

#[test]
fn index_lists_ascending_positions_per_value() {
    let ix = build_index(&sample_records(), &"status".to_string());
    assert_eq!(ix.get(&"ok".to_string()), Some(&vec![0usize, 2, 3]));
    assert_eq!(ix.get(&"fail".to_string()), Some(&vec![1usize]));
    assert_eq!(ix.get(&"missing".to_string()), None);
}

#[test]
fn index_skips_records_lacking_the_column() {
    let rs = vec![
        Record { cols: cols(&["a"]), vals: cols(&["1"]) },
        Record { cols: cols(&["b"]), vals: cols(&["2"]) },
        Record { cols: cols(&["a"]), vals: cols(&["1"]) },
    ];
    let ix = build_index(&rs, &"a".to_string());
    assert_eq!(ix.keys, vec!["1".to_string()]);
    assert_eq!(ix.get(&"1".to_string()), Some(&vec![0usize, 2]));
}

#[test]
fn unique_values_are_the_distinct_observed_set() {
    let schema = cols(&["status"]);
    let rs = vec![
        parse_tsv_line_fast("ok", &schema),
        parse_tsv_line_fast("ok", &schema),
        parse_tsv_line_fast("fail", &schema),
        parse_tsv_line_fast("ok", &schema),
    ];
    let mut vs = unique_values(&rs, &"status".to_string());
    vs.sort();
    assert_eq!(vs, vec!["fail".to_string(), "ok".to_string()]);
}

#[test]
fn group_by_count_counts_each_value() {
    let g = group_by_count(&sample_records(), &"city".to_string());
    let mut pairs: Vec<(String, usize)> =
        g.keys.into_iter().zip(g.counts.into_iter()).collect();
    pairs.sort();
    assert_eq!(pairs, vec![("lyon".to_string(), 1), ("paris".to_string(), 3)]);
}

#[test]
fn group_values_collects_raw_strings_in_record_order() {
    let schema = cols(&["g", "n"]);
    let rs = vec![
        parse_tsv_line_fast("a\t10", &schema),
        parse_tsv_line_fast("a\tabc", &schema),
        parse_tsv_line_fast("b\t7", &schema),
        parse_tsv_line_fast("a\t5", &schema),
    ];
    let g = group_values(&rs, &"g".to_string(), &"n".to_string());
    assert_eq!(g.keys, vec!["a".to_string(), "b".to_string()]);
    assert_eq!(g.vals[0], vec!["10".to_string(), "abc".to_string(), "5".to_string()]);
    assert_eq!(g.vals[1], vec!["7".to_string()]);
}

#[test]
fn group_sum_skips_unparseable_values() {
    let schema = cols(&["g", "n"]);
    let rs = vec![
        parse_tsv_line_fast("a\t10", &schema),
        parse_tsv_line_fast("a\tabc", &schema),
        parse_tsv_line_fast("a\t5", &schema),
    ];
    let g = group_values(&rs, &"g".to_string(), &"n".to_string());
    let mut sum = 0.0f64;
    for v in &g.vals[0] {
        if let Ok(x) = v.parse::<f64>() {
            sum += x;
        }
    }
    assert_eq!(sum, 15.0);
}

#[test]
fn parse_then_serialize_round_trips() {
    let schema = cols(&["x", "y"]);
    let r = parse_tsv_line_fast("a\tb", &schema);
    assert_eq!(join_row(&schema, &r), "a\tb".to_string());
}

#[test]
fn parse_then_serialize_pads_short_lines_with_tabs() {
    let schema = cols(&["x", "y", "z"]);
    let r = parse_tsv_line_fast("a\tb", &schema);
    assert_eq!(join_row(&schema, &r), "a\tb\t".to_string());
}

#[test]
fn header_line_joins_column_names() {
    assert_eq!(header_line(&cols(&["id", "name"])), "id\tname".to_string());
}

#[test]
fn write_then_read_round_trips_and_limit_truncates() {
    let schema = cols(&["id", "name"]);
    let rs = vec![
        parse_tsv_line_fast("1\tann", &schema),
        parse_tsv_line_fast("2\tbob", &schema),
        parse_tsv_line_fast("3\tcid", &schema),
    ];
    let lines = render_tsv(&schema, &rs, false);
    assert_eq!(lines.len(), 4);
    assert_eq!(lines[0], "id\tname".to_string());
    assert_eq!(lines[1], "1\tann".to_string());
    assert_eq!(lines[2], "2\tbob".to_string());
    assert_eq!(lines[3], "3\tcid".to_string());

    let back = read_tsv_lines(&lines, &schema, None);
    assert_eq!(back, rs);

    let two = read_tsv_lines(&lines, &schema, Some(2));
    assert_eq!(two.len(), 2);
    assert_eq!(two[0], rs[0]);
    assert_eq!(two[1], rs[1]);
}

#[test]
fn render_append_emits_no_header() {
    let schema = cols(&["id"]);
    let rs = vec![parse_tsv_line_fast("7", &schema)];
    let lines = render_tsv(&schema, &rs, true);
    assert_eq!(lines, vec!["7".to_string()]);
}

#[test]
fn read_of_header_only_lines_is_empty() {
    let schema = cols(&["id"]);
    let lines = vec!["id".to_string()];
    assert_eq!(read_tsv_lines(&lines, &schema, None).len(), 0);
    assert_eq!(read_tsv_lines(&Vec::new(), &schema, None).len(), 0);
}
