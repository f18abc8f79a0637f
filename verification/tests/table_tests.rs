use port_scan_rs::table::{render_row, render_table};

fn s(v: &[&str]) -> Vec<String> {
    v.iter().map(|x| x.to_string()).collect()
}

#[test]
fn table_is_aligned_by_display_width() {
    let header = s(&["名称", "端口"]);
    let rows = vec![s(&["ssh", "22"]), s(&["http-proxy", "8080"])];
    let out = render_table(&header, &rows);
    let sep = format!("+{}+{}+", "-".repeat(12), "-".repeat(6));
    let expected = format!(
        "{sep}\n| 名称{} | 端口 |\n{sep}\n| ssh{} | 22{} |\n| http-proxy | 8080 |\n{sep}",
        " ".repeat(6),
        " ".repeat(7),
        " ".repeat(2),
        sep = sep
    );
    assert_eq!(out, expected);
}

#[test]
fn missing_cells_are_blank_and_extra_cells_ignored() {
    let header = s(&["a", "bb"]);
    let rows = vec![s(&["x"]), s(&["y", "z", "ignored"])];
    let out = render_table(&header, &rows);
    let lines: Vec<&str> = out.lines().collect();
    assert_eq!(lines[0], "+---+----+");
    assert_eq!(lines[1], "| a | bb |");
    assert_eq!(lines[3], "| x |    |");
    assert_eq!(lines[4], "| y | z  |");
    assert_eq!(lines.len(), 6);
}

#[test]
fn empty_table() {
    let out = render_table(&[], &[]);
    assert_eq!(out, "++\n|\n++\n++");
}

#[test]
fn row_padding() {
    let widths = vec![3usize, 1];
    assert_eq!(render_row(&s(&["ab", "long"]), &widths), "| ab  | long |");
    assert_eq!(render_row(&[], &widths), "|     |   |");
}

#[test]
fn table_lines_and_separators() {
    let header = s(&["名字", "n"]);
    let rows = vec![s(&["a", "1", "extra"]), s(&["bbbb"]), s(&[])];
    let t = render_table(&header, &rows);
    assert!(!t.ends_with('\n'));
    let lines: Vec<&str> = t.split('\n').collect();
    assert_eq!(lines.len(), rows.len() + 4);
    assert_eq!(lines[0], lines[2]);
    assert_eq!(lines[0], lines[lines.len() - 1]);
    assert!(!t.contains("extra"));
    let width = |l: &str| unicode_width::UnicodeWidthStr::width(l);
    for l in &lines {
        assert_eq!(width(l), width(lines[0]));
    }
}
