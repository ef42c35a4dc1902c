use size_scanner::export::{build_csv, build_txt, esc_csv};

fn row(cells: &[&str]) -> Vec<String> {
    cells.iter().map(|c| c.to_string()).collect()
}

#[test]
fn a_field_is_quoted() {
    assert_eq!(esc_csv("plain"), "\"plain\"");
    assert_eq!(esc_csv(""), "\"\"");
    assert_eq!(esc_csv("a,b\r\nc"), "\"a,b\r\nc\"");
}

#[test]
fn quotation_marks_are_doubled() {
    assert_eq!(esc_csv("say \"hi\""), "\"say \"\"hi\"\"\"");
    assert_eq!(esc_csv("\""), "\"\"\"\"");
    assert_eq!(esc_csv("\"\"é"), "\"\"\"\"\"é\"");
}

#[test]
fn csv_has_a_line_per_row() {
    let headers = row(&["Name", "Size"]);
    let rows = vec![row(&["a.txt", "1,5"]), row(&["\"b\"", "2"]), row(&[])];
    assert_eq!(
        build_csv(&headers, &rows),
        "\"Name\",\"Size\"\r\n\"a.txt\",\"1,5\"\r\n\"\"\"b\"\"\",\"2\"\r\n"
    );
}

#[test]
fn csv_of_nothing() {
    assert_eq!(build_csv(&[], &[]), "");
    assert_eq!(build_csv(&row(&["h"]), &[]), "\"h\"");
    assert_eq!(build_csv(&[], &[row(&[]), row(&[""])]), "\r\n\r\n\"\"");
}

#[test]
fn csv_tells_similar_tables_apart() {
    let one = build_csv(&row(&["a", "b"]), &[]);
    let two = build_csv(&row(&["a\",\"b"]), &[]);
    let three = build_csv(&row(&["a"]), &[row(&["b"])]);
    assert_ne!(one, two);
    assert_ne!(one, three);
    assert_ne!(two, three);
}

#[test]
fn txt_columns_align() {
    let headers = row(&["Name", "Size"]);
    let rows = vec![row(&["longer name", "1"]), row(&["x", "123456"])];
    assert_eq!(
        build_txt(&headers, &rows),
        "Name         Size  \r\n-----------  ------\r\nlonger name  1     \r\nx            123456"
    );
}

#[test]
fn txt_lines_are_equally_long() {
    let headers = row(&["Größe", "Pfad"]);
    let rows = vec![row(&["1", "ä"]), row(&["", "日本語のパス"])];
    let txt = build_txt(&headers, &rows);
    let lengths: Vec<usize> = txt.split("\r\n").map(|line| line.chars().count()).collect();
    assert_eq!(lengths, vec![13, 13, 13, 13]);
}

#[test]
fn txt_widths_count_characters() {
    assert_eq!(build_txt(&row(&["éé"]), &[row(&["abc"])]), "éé \r\n---\r\nabc");
}

#[test]
fn txt_fills_short_rows_and_cuts_long_ones() {
    let headers = row(&["a", "b"]);
    let rows = vec![row(&["1"]), row(&["1", "2", "this cell is beyond the headers"])];
    assert_eq!(build_txt(&headers, &rows), "a  b\r\n-  -\r\n1   \r\n1  2");
}

#[test]
fn txt_of_nothing() {
    assert_eq!(build_txt(&[], &[]), "\r\n");
    assert_eq!(build_txt(&[], &[row(&["x"])]), "\r\n\r\n");
}

#[test]
fn txt_takes_a_missing_cell_for_an_empty_one() {
    let headers = row(&["a", "bb"]);
    assert_eq!(
        build_txt(&headers, &[row(&["1"]), row(&[])]),
        build_txt(&headers, &[row(&["1", "", "beyond"]), row(&["", ""])])
    );
}
