use linediff::compare_map_results;
use linediff::count_lines;
use linediff::Comparison;
use linediff::FrequencyTable;
use linediff::Kind;

fn counted(lines: &[&str]) -> FrequencyTable {
    count_lines(lines.iter().map(|line| line.to_string()).collect())
}

fn table_of(entries: &[(&str, u32, Kind)]) -> FrequencyTable {
    let mut table = FrequencyTable::new();
    for (line, count, kind) in entries {
        table.insert(line.to_string(), Comparison { count: *count, kind: *kind });
    }
    table
}

fn entries_of(table: &FrequencyTable) -> Vec<(String, u32, Kind)> {
    let mut entries = Vec::new();
    let mut i = 0;
    while i < table.len() {
        let record = table.record_at(i);
        entries.push((table.line_at(i).to_string(), record.count, record.kind));
        i += 1;
    }
    entries
}

fn entry(line: &str, count: u32, kind: Kind) -> (String, u32, Kind) {
    (line.to_string(), count, kind)
}

fn count_in(table: &FrequencyTable, line: &str) -> u32 {
    table.get(line).map_or(0, |record| record.count)
}

const A: [&str; 12] = ["r", "s", "r", "t", "u", "r", "s", "v", "v", "w", "x", "x"];
const B: [&str; 11] = ["s", "r", "y", "u", "u", "u", "s", "s", "v", "v", "x"];
const LINES: [&str; 9] = ["r", "s", "t", "u", "v", "w", "x", "y", "z"];

#[test]
fn residuals_of_two_sources() {
    let mut a = counted(&A);
    let mut b = counted(&B);
    compare_map_results(&mut a, &mut b);
    assert_eq!(
        entries_of(&a),
        vec![
            entry("r", 2, Kind::More),
            entry("t", 1, Kind::Only),
            entry("w", 1, Kind::Only),
            entry("x", 1, Kind::More),
        ]
    );
    assert_eq!(
        entries_of(&b),
        vec![entry("s", 1, Kind::More), entry("y", 1, Kind::Only), entry("u", 2, Kind::More)]
    );
}

#[test]
fn differencing_the_other_way_round_swaps_the_residuals() {
    let mut a = counted(&A);
    let mut b = counted(&B);
    compare_map_results(&mut a, &mut b);
    let mut a_again = counted(&A);
    let mut b_again = counted(&B);
    compare_map_results(&mut b_again, &mut a_again);
    assert_eq!(entries_of(&a), entries_of(&a_again));
    assert_eq!(entries_of(&b), entries_of(&b_again));
    assert_eq!(a.get("r"), Some(Comparison { count: 2, kind: Kind::More }));
    assert_eq!(a_again.get("r"), Some(Comparison { count: 2, kind: Kind::More }));
    assert_eq!(b.get("u"), Some(Comparison { count: 2, kind: Kind::More }));
    assert_eq!(b_again.get("u"), Some(Comparison { count: 2, kind: Kind::More }));
}

#[test]
fn common_occurrences_are_cancelled_on_both_sides() {
    let before_a = counted(&A);
    let before_b = counted(&B);
    let mut a = counted(&A);
    let mut b = counted(&B);
    compare_map_results(&mut a, &mut b);
    for line in LINES {
        let in_a = count_in(&before_a, line);
        let in_b = count_in(&before_b, line);
        let common = in_a.min(in_b);
        assert_eq!(count_in(&a, line) + common, in_a);
        assert_eq!(count_in(&b, line) + common, in_b);
        if in_a >= in_b {
            assert_eq!(count_in(&a, line), in_a - in_b);
            assert_eq!(b.get(line), None);
        }
        if in_b >= in_a {
            assert_eq!(count_in(&b, line), in_b - in_a);
            assert_eq!(a.get(line), None);
        }
    }
}

#[test]
fn no_residual_count_is_zero() {
    let mut a = counted(&A);
    let mut b = counted(&B);
    compare_map_results(&mut a, &mut b);
    for (_, count, _) in entries_of(&a) {
        assert!(count > 0);
    }
    for (_, count, _) in entries_of(&b) {
        assert!(count > 0);
    }
    for line in LINES {
        assert_ne!(a.get(line).map(|record| record.count), Some(0));
        assert_ne!(b.get(line).map(|record| record.count), Some(0));
    }
}

#[test]
fn no_line_is_left_on_both_sides() {
    let mut a = counted(&A);
    let mut b = counted(&B);
    compare_map_results(&mut a, &mut b);
    for line in LINES {
        assert!(a.get(line).is_none() || b.get(line).is_none());
    }
    for (line, _, _) in entries_of(&a) {
        assert_eq!(b.get(&line), None);
    }
    for (line, _, _) in entries_of(&b) {
        assert_eq!(a.get(&line), None);
    }
}

#[test]
fn tables_without_common_lines_stay_as_they_are() {
    let mut a = counted(&["l", "m", "l"]);
    let mut b = counted(&["n", "o", "o", "o"]);
    compare_map_results(&mut a, &mut b);
    assert_eq!(entries_of(&a), vec![entry("l", 2, Kind::Only), entry("m", 1, Kind::Only)]);
    assert_eq!(entries_of(&b), vec![entry("n", 1, Kind::Only), entry("o", 3, Kind::Only)]);
}

#[test]
fn empty_tables_stay_empty() {
    let mut a = FrequencyTable::new();
    let mut b = FrequencyTable::new();
    compare_map_results(&mut a, &mut b);
    assert!(a.is_empty());
    assert!(b.is_empty());
    let mut c = counted(&["c", "c"]);
    compare_map_results(&mut c, &mut b);
    assert_eq!(entries_of(&c), vec![entry("c", 2, Kind::Only)]);
    assert!(b.is_empty());
}

#[test]
fn what_is_left_keeps_its_place_in_the_listing() {
    let mut a = counted(&["5", "4", "3", "2", "1", "5", "3", "1"]);
    let mut b = counted(&["4", "2", "1", "6", "1", "1"]);
    compare_map_results(&mut a, &mut b);
    assert_eq!(entries_of(&a), vec![entry("5", 2, Kind::Only), entry("3", 2, Kind::Only)]);
    assert_eq!(entries_of(&b), vec![entry("1", 1, Kind::More), entry("6", 1, Kind::Only)]);
}

#[test]
fn entries_with_a_count_of_zero_are_pruned() {
    let mut a = table_of(&[
        ("gone", 0, Kind::Only),
        ("kept", 1, Kind::Only),
        ("nothing here", 0, Kind::Only),
        ("nothing anywhere", 0, Kind::More),
    ]);
    let mut b = table_of(&[
        ("nothing here", 3, Kind::Only),
        ("nothing anywhere", 0, Kind::Only),
        ("gone too", 0, Kind::More),
        ("held", 2, Kind::Only),
    ]);
    compare_map_results(&mut a, &mut b);
    assert_eq!(entries_of(&a), vec![entry("kept", 1, Kind::Only)]);
    assert_eq!(
        entries_of(&b),
        vec![entry("nothing here", 3, Kind::More), entry("held", 2, Kind::Only)]
    );
}

#[test]
fn a_line_of_one_table_keeps_its_record() {
    let mut a = table_of(&[("mine", 7, Kind::More), ("ours", 4, Kind::Only)]);
    let mut b = table_of(&[("ours", 4, Kind::More), ("theirs", 9, Kind::More)]);
    compare_map_results(&mut a, &mut b);
    assert_eq!(entries_of(&a), vec![entry("mine", 7, Kind::More)]);
    assert_eq!(entries_of(&b), vec![entry("theirs", 9, Kind::More)]);
}

#[test]
fn largest_counts_are_subtracted_exactly() {
    let mut a = table_of(&[("big", u32::MAX, Kind::Only), ("small", 1, Kind::Only)]);
    let mut b = table_of(&[("big", 1, Kind::Only), ("small", u32::MAX, Kind::Only)]);
    compare_map_results(&mut a, &mut b);
    assert_eq!(entries_of(&a), vec![entry("big", u32::MAX - 1, Kind::More)]);
    assert_eq!(entries_of(&b), vec![entry("small", u32::MAX - 1, Kind::More)]);
    let mut c = table_of(&[("same", u32::MAX, Kind::Only)]);
    let mut d = table_of(&[("same", u32::MAX, Kind::Only)]);
    compare_map_results(&mut c, &mut d);
    assert!(c.is_empty());
    assert!(d.is_empty());
}

#[test]
fn differencing_residuals_again_changes_nothing() {
    let mut a = counted(&A);
    let mut b = counted(&B);
    compare_map_results(&mut a, &mut b);
    let first_a = entries_of(&a);
    let first_b = entries_of(&b);
    compare_map_results(&mut a, &mut b);
    assert_eq!(entries_of(&a), first_a);
    assert_eq!(entries_of(&b), first_b);
}

#[test]
fn lines_that_differ_in_case_or_blanks_do_not_cancel() {
    let mut a = counted(&["Line", "line ", "line"]);
    let mut b = counted(&["line", " line", "LINE"]);
    compare_map_results(&mut a, &mut b);
    assert_eq!(entries_of(&a), vec![entry("Line", 1, Kind::Only), entry("line ", 1, Kind::Only)]);
    assert_eq!(entries_of(&b), vec![entry(" line", 1, Kind::Only), entry("LINE", 1, Kind::Only)]);
}

#[test]
fn a_table_can_be_counted_into_after_differencing() {
    let mut a = counted(&["g", "g", "h"]);
    let mut b = counted(&["g", "h"]);
    compare_map_results(&mut a, &mut b);
    assert_eq!(entries_of(&a), vec![entry("g", 1, Kind::More)]);
    a.record("h".to_string());
    a.record("g".to_string());
    assert_eq!(entries_of(&a), vec![entry("g", 2, Kind::More), entry("h", 1, Kind::Only)]);
    assert_eq!(b.get("h"), None);
    b.record("h".to_string());
    assert_eq!(entries_of(&b), vec![entry("h", 1, Kind::Only)]);
}
