use csvtool::fixwidth::{fixwidth_rows, pad_row, scan_widths};

fn strs(v: &[&str]) -> Vec<String> {
    v.iter().map(|s| s.to_string()).collect()
}

#[test]
fn widths_are_max_trimmed_lengths() {
    let rows = vec![strs(&["a", "bb"]), strs(&["ccc", "d"])];
    assert_eq!(scan_widths(&rows), vec![3, 2]);
}

#[test]
fn widths_ignore_surrounding_whitespace() {
    let rows = vec![strs(&["  a  ", " bbbb "])];
    assert_eq!(scan_widths(&rows), vec![1, 4]);
}

#[test]
fn widths_grow_to_widest_row() {
    let rows = vec![strs(&["a"]), strs(&["b", "cc", "d"]), strs(&["ee", "f"])];
    assert_eq!(scan_widths(&rows), vec![2, 2, 1]);
}

#[test]
fn widths_of_empty_table_are_empty() {
    let rows: Vec<Vec<String>> = vec![];
    assert!(scan_widths(&rows).is_empty());
}

#[test]
fn scenario_two_rows_both_branches() {
    // widths = [3, 2]; "bb" exactly fills its column, taking the
    // double-padded branch, while "d" leaves slack and takes the plain
    // prefix branch.
    let rows = vec![strs(&["a", "bb"]), strs(&["ccc", "d"])];
    let out = fixwidth_rows(&rows);
    assert_eq!(out.len(), 2);
    assert_eq!(out[0], strs(&["a", "     bb"]));
    assert_eq!(out[1], strs(&["ccc", " d"]));
}

#[test]
fn first_column_is_only_trimmed() {
    // Column 0 is never padded, whatever the width table says.
    let rows = vec![strs(&["  x  ", "y"]), strs(&["wwwww", "z"])];
    let out = fixwidth_rows(&rows);
    assert_eq!(out[0][0], "x");
    assert_eq!(out[1][0], "wwwww");
}

#[test]
fn empty_cell_gets_full_column_of_spaces() {
    // An empty trimmed cell has padding zero, so it takes the double-padded
    // branch: previous slack plus one, then the whole column width.
    let rows = vec![strs(&["aa", ""]), strs(&["bb", "ccc"])];
    let out = fixwidth_rows(&rows);
    // previous padding 0 + 1 separator space, then width 3 of spaces.
    assert_eq!(out[0][1], "    ");
    // "ccc" fills its column exactly: 1 + 3 spaces before the text.
    assert_eq!(out[1][1], "    ccc");
}

#[test]
fn pad_row_against_explicit_widths() {
    let row = strs(&["a", "b"]);
    let widths = vec![4usize, 3usize];
    let out = pad_row(&row, &widths);
    // col 0: trimmed only; col 1: padding 3-1=2>0, prefix = previous
    // slack (4-1=3) + 1 = 4 spaces.
    assert_eq!(out, strs(&["a", "    b"]));
}

#[test]
fn row_and_column_counts_are_kept() {
    let rows = vec![strs(&["a", "b", "c"]), strs(&["dd"])];
    let out = fixwidth_rows(&rows);
    assert_eq!(out.len(), 2);
    assert_eq!(out[0].len(), 3);
    assert_eq!(out[1].len(), 1);
}
