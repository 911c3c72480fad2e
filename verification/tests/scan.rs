use typesize::aggregate::Aggregate;
use typesize::scan::{
    aggregate_entries, check_root, root_error_message, scan_step, EntryEvent, InvalidRoot,
};

fn classified(label: &str, size: u64) -> EntryEvent {
    EntryEvent::Classified {
        label: label.to_string(),
        size,
    }
}

#[test]
fn fold_counts_only_classified_files() {
    let events = vec![
        EntryEvent::NotAFile,
        classified("text", 100),
        EntryEvent::Symlink,
        EntryEvent::ClassificationFailed { size: 50 },
        classified("text", 200),
        classified("image", 10),
        EntryEvent::Unreadable,
    ];
    let agg = aggregate_entries(events);
    assert_eq!(agg.len(), 2);
    assert_eq!(agg.size_for(&"text".to_string()), Some(300));
    assert_eq!(agg.size_for(&"image".to_string()), Some(10));
    assert_eq!(agg.total(), 310);
}

#[test]
fn failed_classification_counts_nowhere() {
    // The 50-byte file whose classification failed appears in no row and
    // not in the grand total.
    let events = vec![
        classified("text", 100),
        EntryEvent::ClassificationFailed { size: 50 },
    ];
    let agg = aggregate_entries(events);
    assert_eq!(agg.len(), 1);
    assert_eq!(agg.total(), 100);
}

#[test]
fn symlinks_count_nowhere() {
    let events = vec![
        EntryEvent::Symlink,
        classified("text", 7),
        EntryEvent::Symlink,
    ];
    let agg = aggregate_entries(events);
    assert_eq!(agg.len(), 1);
    assert_eq!(agg.total(), 7);
}

#[test]
fn skipping_events_leaves_the_tally_untouched() {
    let mut agg = Aggregate::new();
    scan_step(&mut agg, classified("text", 12));
    scan_step(&mut agg, EntryEvent::NotAFile);
    scan_step(&mut agg, EntryEvent::Symlink);
    scan_step(&mut agg, EntryEvent::Unreadable);
    scan_step(&mut agg, EntryEvent::ClassificationFailed { size: 99 });
    assert_eq!(agg.len(), 1);
    assert_eq!(agg.size_for(&"text".to_string()), Some(12));
    assert_eq!(agg.total(), 12);
}

#[test]
fn totals_do_not_depend_on_visitation_order() {
    let forward = vec![
        classified("text", 100),
        classified("image", 40),
        EntryEvent::ClassificationFailed { size: 8 },
        classified("text", 5),
    ];
    let backward = vec![
        classified("text", 5),
        EntryEvent::ClassificationFailed { size: 8 },
        classified("image", 40),
        classified("text", 100),
    ];
    let a = aggregate_entries(forward);
    let b = aggregate_entries(backward);
    assert_eq!(a.total(), b.total());
    assert_eq!(
        a.size_for(&"text".to_string()),
        b.size_for(&"text".to_string())
    );
    assert_eq!(
        a.size_for(&"image".to_string()),
        b.size_for(&"image".to_string())
    );
}

#[test]
fn empty_event_stream_gives_an_empty_tally() {
    let agg = aggregate_entries(Vec::new());
    assert!(agg.is_empty());
    assert_eq!(agg.total(), 0);
}

#[test]
fn check_root_accepts_only_existing_directories() {
    assert!(check_root(true, true).is_ok());
    assert!(matches!(check_root(false, false), Err(InvalidRoot::DoesNotExist)));
    assert!(matches!(check_root(true, false), Err(InvalidRoot::NotADirectory)));
}

#[test]
fn root_error_messages_name_the_path() {
    assert_eq!(
        root_error_message("/no/such/dir", &InvalidRoot::DoesNotExist),
        "Error: Directory '/no/such/dir' does not exist."
    );
    assert_eq!(
        root_error_message("notes.txt", &InvalidRoot::NotADirectory),
        "Error: 'notes.txt' is not a directory."
    );
}
