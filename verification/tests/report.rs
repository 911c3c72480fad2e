use typesize::aggregate::Aggregate;
use typesize::report::{render_report, sorted_rows};

fn expected_table(rows: &[(&str, &str, f64)], total: &str) -> String {
    let sep = "=".repeat(70);
    let mut s = String::new();
    s.push('\n');
    s.push_str(&sep);
    s.push('\n');
    s.push_str(&format!(
        "{:<30} {:<20} {:>10}\n",
        "File Type", "Size", "Percentage"
    ));
    s.push_str(&sep);
    s.push('\n');
    for (label, size, pct) in rows {
        s.push_str(&format!("{:<30} {:<20} {:>9.2}%\n", label, size, pct));
    }
    s.push_str(&sep);
    s.push('\n');
    s.push_str(&format!(
        "{:<30} {:<20} {:>9.2}%\n",
        "Total", total, 100.0
    ));
    s.push_str(&sep);
    s.push('\n');
    s.push('\n');
    s
}

#[test]
fn empty_tally_renders_the_no_files_message() {
    let agg = Aggregate::new();
    assert_eq!(render_report(&agg), "No files found.\n");
}

#[test]
fn single_row_table() {
    let mut agg = Aggregate::new();
    agg.add("text".to_string(), 1024);
    let expected = expected_table(&[("text", "1.00 KB", 100.0)], "1.00 KB");
    assert_eq!(render_report(&agg), expected);
}

#[test]
fn rows_are_sorted_by_descending_size() {
    let mut agg = Aggregate::new();
    agg.add("image".to_string(), 100);
    agg.add("text".to_string(), 200);
    agg.add("pdf".to_string(), 100);
    let rows = sorted_rows(&agg);
    let counts: Vec<u64> = rows.iter().map(|r| r.1).collect();
    assert_eq!(counts, vec![200, 100, 100]);
    assert_eq!(rows[0].0, "text");
}

#[test]
fn equal_sizes_keep_first_seen_order() {
    // The tie-break is first-seen (insertion) order of the labels: "image"
    // was recorded before "pdf", so it stands first among the equal rows.
    let mut agg = Aggregate::new();
    agg.add("image".to_string(), 100);
    agg.add("text".to_string(), 200);
    agg.add("pdf".to_string(), 100);
    let expected = expected_table(
        &[
            ("text", "200.00 B", 50.0),
            ("image", "100.00 B", 25.0),
            ("pdf", "100.00 B", 25.0),
        ],
        "400.00 B",
    );
    assert_eq!(render_report(&agg), expected);
}

#[test]
fn rendering_is_deterministic_on_unchanged_input() {
    let mut agg = Aggregate::new();
    agg.add("image".to_string(), 100);
    agg.add("text".to_string(), 100);
    let first = render_report(&agg);
    let second = render_report(&agg);
    assert_eq!(first, second);
}

#[test]
fn long_labels_widen_their_column() {
    let mut agg = Aggregate::new();
    let long = "a-rather-long-content-type-label-indeed";
    agg.add(long.to_string(), 2048);
    let expected = expected_table(&[(long, "2.00 KB", 100.0)], "2.00 KB");
    assert_eq!(render_report(&agg), expected);
}

#[test]
fn percentages_come_from_the_grand_total() {
    let mut agg = Aggregate::new();
    agg.add("a".to_string(), 300);
    agg.add("b".to_string(), 100);
    let expected = expected_table(
        &[("a", "300.00 B", 75.0), ("b", "100.00 B", 25.0)],
        "400.00 B",
    );
    assert_eq!(render_report(&agg), expected);
}
