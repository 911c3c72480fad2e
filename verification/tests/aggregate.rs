use typesize::aggregate::Aggregate;

#[test]
fn new_tally_is_empty() {
    let agg = Aggregate::new();
    assert!(agg.is_empty());
    assert_eq!(agg.len(), 0);
    assert_eq!(agg.total(), 0);
    assert_eq!(agg.size_for(&"text".to_string()), None);
}

#[test]
fn add_creates_a_row_per_label() {
    let mut agg = Aggregate::new();
    agg.add("text".to_string(), 100);
    agg.add("image".to_string(), 40);
    assert_eq!(agg.len(), 2);
    assert!(!agg.is_empty());
    assert_eq!(agg.size_for(&"text".to_string()), Some(100));
    assert_eq!(agg.size_for(&"image".to_string()), Some(40));
    assert_eq!(agg.size_for(&"pdf".to_string()), None);
    assert_eq!(agg.total(), 140);
}

#[test]
fn add_merges_repeated_labels() {
    let mut agg = Aggregate::new();
    agg.add("text".to_string(), 100);
    agg.add("text".to_string(), 250);
    agg.add("text".to_string(), 0);
    assert_eq!(agg.len(), 1);
    assert_eq!(agg.size_for(&"text".to_string()), Some(350));
    assert_eq!(agg.total(), 350);
}

#[test]
fn zero_byte_rows_are_legal() {
    let mut agg = Aggregate::new();
    agg.add("empty".to_string(), 0);
    assert_eq!(agg.len(), 1);
    assert_eq!(agg.size_for(&"empty".to_string()), Some(0));
    assert_eq!(agg.total(), 0);
}

#[test]
fn total_sums_every_row() {
    let mut agg = Aggregate::new();
    agg.add("a".to_string(), 1);
    agg.add("b".to_string(), 2);
    agg.add("c".to_string(), 3);
    agg.add("b".to_string(), 10);
    assert_eq!(agg.total(), 16);
}
