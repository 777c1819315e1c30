use csvtool::align::{header_positions, project_row, reconcile_headers, ProjectError};

fn strs(v: &[&str]) -> Vec<String> {
    v.iter().map(|s| s.to_string()).collect()
}

#[test]
fn union_threshold_excludes_singletons() {
    // Columns that appear in exactly one file are excluded at the default
    // threshold of 1, since the filter is strictly greater-than.
    let headers = vec![strs(&["id", "name"]), strs(&["id", "age"])];
    let r = reconcile_headers(&headers, 1);
    assert_eq!(r, strs(&["id"]));
}

#[test]
fn scenario_two_files_only_shared_column() {
    let headers = vec![strs(&["id", "name"]), strs(&["id", "age"])];
    let out_header = reconcile_headers(&headers, 1);
    assert_eq!(out_header, strs(&["id"]));

    let pos_a = header_positions(&out_header, &headers[0]);
    assert_eq!(pos_a, vec![Some(0)]);
    let row_a = project_row(&strs(&["1", "Alice"]), &pos_a).unwrap();
    assert_eq!(row_a, strs(&["1"]));

    let pos_b = header_positions(&out_header, &headers[1]);
    let row_b = project_row(&strs(&["2", "30"]), &pos_b).unwrap();
    assert_eq!(row_b, strs(&["2"]));
}

#[test]
fn reconcile_is_deterministic() {
    let headers = vec![
        strs(&["b", "a", "c"]),
        strs(&["c", "a", "b"]),
        strs(&["a", "b"]),
    ];
    let r1 = reconcile_headers(&headers, 1);
    let r2 = reconcile_headers(&headers, 1);
    assert_eq!(r1, r2);
    assert_eq!(r1, strs(&["a", "b", "c"]));
}

#[test]
fn threshold_zero_keeps_every_name_sorted() {
    let headers = vec![strs(&["pear", "apple"]), strs(&["plum"])];
    let r = reconcile_headers(&headers, 0);
    assert_eq!(r, strs(&["apple", "pear", "plum"]));
}

#[test]
fn duplicate_name_within_one_header_counts_twice() {
    // A name repeated inside a single file's header row increments the
    // counter once per occurrence.
    let headers = vec![strs(&["x", "x", "y"])];
    let r = reconcile_headers(&headers, 1);
    assert_eq!(r, strs(&["x"]));
}

#[test]
fn names_are_trimmed_before_counting() {
    let headers = vec![strs(&[" id ", "name"]), strs(&["id"])];
    let r = reconcile_headers(&headers, 1);
    assert_eq!(r, strs(&["id"]));
}

#[test]
fn empty_header_when_nothing_clears_threshold() {
    // No column appears in more than one file, so the reconciled header is
    // empty and the operation has nothing to write.
    let headers = vec![strs(&["a"]), strs(&["b"]), strs(&["c"])];
    let r = reconcile_headers(&headers, 1);
    assert!(r.is_empty());
}

#[test]
fn no_input_files_give_empty_header() {
    let headers: Vec<Vec<String>> = vec![];
    let r = reconcile_headers(&headers, 1);
    assert!(r.is_empty());
}

#[test]
fn missing_column_emits_empty_field() {
    let out_header = strs(&["id", "zz"]);
    let file_header = strs(&["id"]);
    let pos = header_positions(&out_header, &file_header);
    assert_eq!(pos, vec![Some(0), None]);
    let row = project_row(&strs(&["7"]), &pos).unwrap();
    assert_eq!(row, strs(&["7", ""]));
}

#[test]
fn positions_match_by_trimmed_names() {
    let out_header = strs(&["id", "name"]);
    let file_header = strs(&[" name ", "id"]);
    let pos = header_positions(&out_header, &file_header);
    assert_eq!(pos, vec![Some(1), Some(0)]);
}

#[test]
fn first_matching_position_wins() {
    let out_header = strs(&["id"]);
    let file_header = strs(&["other", "id", "id"]);
    let pos = header_positions(&out_header, &file_header);
    assert_eq!(pos, vec![Some(1)]);
}

#[test]
fn data_cells_are_emitted_verbatim() {
    // Re-projection never trims data cells, only header names.
    let out_header = strs(&["id"]);
    let file_header = strs(&["id"]);
    let pos = header_positions(&out_header, &file_header);
    let row = project_row(&strs(&[" spaced "]), &pos).unwrap();
    assert_eq!(row, strs(&[" spaced "]));
}

#[test]
fn short_row_fails_with_lookup_error() {
    let out_header = strs(&["a", "b"]);
    let file_header = strs(&["a", "b"]);
    let pos = header_positions(&out_header, &file_header);
    let r = project_row(&strs(&["only"]), &pos);
    assert_eq!(r, Err(ProjectError { column: 1, position: 1 }));
}
