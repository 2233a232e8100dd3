use clipboard_history::entry::ClipboardEntry;
use clipboard_history::history::{
    get, insert_after_pins, pinned_count, remove, toggle_pin, trim_history, HistoryItem,
    MAX_HISTORY, MAX_PINNED,
};
use clipboard_history::ingest::{ingest, HistoryAction};

fn text_entry(s: &str) -> ClipboardEntry {
    ClipboardEntry::Text(String::from(s))
}

fn text_item(s: &str, pinned: bool) -> HistoryItem {
    HistoryItem { entry: text_entry(s), pinned }
}

fn snapshot(history: &Vec<HistoryItem>) -> Vec<(String, bool)> {
    let mut out = Vec::new();
    for item in history {
        match &item.entry {
            ClipboardEntry::Text(t) => out.push((t.clone(), item.pinned)),
            ClipboardEntry::Image { mime, .. } => out.push((mime.clone(), item.pinned)),
        }
    }
    out
}

fn ingest_distinct(history: &mut Vec<HistoryItem>, count: usize) {
    for i in 0..count {
        let action = ingest(history, text_entry(&format!("entry number {}", i)));
        assert_eq!(action, HistoryAction::Inserted);
    }
}

#[test]
fn insert_after_pins_lands_after_pinned_prefix() {
    let mut history = vec![
        text_item("pinned one", true),
        text_item("pinned two", true),
        text_item("loose one", false),
    ];
    insert_after_pins(&mut history, text_item("fresh", false));
    assert_eq!(
        snapshot(&history),
        vec![
            (String::from("pinned one"), true),
            (String::from("pinned two"), true),
            (String::from("fresh"), false),
            (String::from("loose one"), false),
        ]
    );
}

#[test]
fn pinned_count_counts_only_pins() {
    let history = vec![
        text_item("a", true),
        text_item("b", false),
        text_item("c", true),
    ];
    assert_eq!(pinned_count(&history), 2);
}

#[test]
fn capacity_is_kept_over_many_ingestions() {
    let mut history: Vec<HistoryItem> = Vec::new();
    for i in 0..100 {
        ingest(&mut history, text_entry(&format!("clip text {}", i)));
        assert!(history.len() <= MAX_HISTORY);
    }
    assert_eq!(history.len(), MAX_HISTORY);
}

#[test]
fn eviction_takes_the_oldest_unpinned_item() {
    let mut history: Vec<HistoryItem> = Vec::new();
    ingest_distinct(&mut history, MAX_HISTORY);
    assert_eq!(history.len(), MAX_HISTORY);
    // The oldest entry sits at the back.
    let action = ingest(&mut history, text_entry("the newcomer"));
    assert_eq!(action, HistoryAction::Inserted);
    assert_eq!(history.len(), MAX_HISTORY);
    let shot = snapshot(&history);
    assert_eq!(shot[0], (String::from("the newcomer"), false));
    // "entry number 0" was the oldest and is gone.
    assert!(shot.iter().all(|(t, _)| t != "entry number 0"));
    // The previous second-oldest is now at the back.
    assert_eq!(shot[MAX_HISTORY - 1].0, "entry number 1");
}

#[test]
fn trimming_never_evicts_pinned_items() {
    let mut history: Vec<HistoryItem> = Vec::new();
    ingest_distinct(&mut history, MAX_HISTORY);
    // Pin the two oldest items, at the back.
    toggle_pin(&mut history, MAX_HISTORY - 1);
    toggle_pin(&mut history, MAX_HISTORY - 1);
    assert_eq!(pinned_count(&history), 2);
    for i in 0..10 {
        ingest(&mut history, text_entry(&format!("later clip {}", i)));
    }
    assert_eq!(history.len(), MAX_HISTORY);
    let shot = snapshot(&history);
    assert_eq!(shot[0].0, "entry number 0");
    assert_eq!(shot[1].0, "entry number 1");
    assert!(shot[0].1 && shot[1].1);
}

#[test]
fn trim_history_cuts_to_capacity_from_the_back() {
    let mut history: Vec<HistoryItem> = Vec::new();
    for i in 0..(MAX_HISTORY + 3) {
        history.push(text_item(&format!("row {}", i), false));
    }
    trim_history(&mut history);
    assert_eq!(history.len(), MAX_HISTORY);
    let shot = snapshot(&history);
    assert_eq!(shot[MAX_HISTORY - 1].0, format!("row {}", MAX_HISTORY - 1));
}

#[test]
fn pin_prefix_holds_after_mixed_operations() {
    let mut history: Vec<HistoryItem> = Vec::new();
    ingest_distinct(&mut history, 10);
    toggle_pin(&mut history, 3);
    toggle_pin(&mut history, 7);
    remove(&mut history, 4);
    ingest(&mut history, text_entry("another clip"));
    toggle_pin(&mut history, 5);
    let shot = snapshot(&history);
    let pins = pinned_count(&history);
    for (i, (_, pinned)) in shot.iter().enumerate() {
        assert_eq!(*pinned, i < pins);
    }
}

#[test]
fn toggle_pin_moves_item_to_back_of_pinned_prefix() {
    let mut history: Vec<HistoryItem> = Vec::new();
    ingest_distinct(&mut history, 5);
    // Front-to-back: 4, 3, 2, 1, 0.
    toggle_pin(&mut history, 2);
    let shot = snapshot(&history);
    assert_eq!(shot[0], (String::from("entry number 2"), true));
    toggle_pin(&mut history, 3);
    let shot = snapshot(&history);
    // The most recent pin lands at the back of the pinned prefix.
    assert_eq!(shot[0], (String::from("entry number 2"), true));
    assert_eq!(shot[1], (String::from("entry number 1"), true));
}

#[test]
fn sixth_pin_is_rejected_without_any_change() {
    let mut history: Vec<HistoryItem> = Vec::new();
    ingest_distinct(&mut history, 8);
    for _ in 0..MAX_PINNED {
        toggle_pin(&mut history, MAX_PINNED);
    }
    assert_eq!(pinned_count(&history), MAX_PINNED);
    let before = snapshot(&history);
    toggle_pin(&mut history, 6);
    assert_eq!(snapshot(&history), before);
    assert_eq!(pinned_count(&history), MAX_PINNED);
}

#[test]
fn toggle_round_trip_returns_to_front_of_unpinned_partition() {
    let mut history: Vec<HistoryItem> = Vec::new();
    ingest_distinct(&mut history, 6);
    toggle_pin(&mut history, 0);
    toggle_pin(&mut history, 1);
    // Pins: 5, 4; unpinned: 3, 2, 1, 0.
    toggle_pin(&mut history, 4);
    let shot = snapshot(&history);
    assert_eq!(shot[2], (String::from("entry number 1"), true));
    toggle_pin(&mut history, 2);
    let shot = snapshot(&history);
    // Back out of the pins, at the front of the unpinned partition.
    assert_eq!(shot[2], (String::from("entry number 1"), false));
    assert_eq!(pinned_count(&history), 2);
}

#[test]
fn toggle_pin_out_of_range_is_a_no_op() {
    let mut history: Vec<HistoryItem> = Vec::new();
    ingest_distinct(&mut history, 3);
    let before = snapshot(&history);
    toggle_pin(&mut history, 3);
    toggle_pin(&mut history, 1000);
    assert_eq!(snapshot(&history), before);
}

#[test]
fn remove_takes_out_exactly_the_indexed_item() {
    let mut history: Vec<HistoryItem> = Vec::new();
    ingest_distinct(&mut history, 4);
    remove(&mut history, 1);
    let shot = snapshot(&history);
    assert_eq!(shot.len(), 3);
    assert_eq!(shot[0].0, "entry number 3");
    assert_eq!(shot[1].0, "entry number 1");
    assert_eq!(shot[2].0, "entry number 0");
}

#[test]
fn remove_out_of_range_is_a_no_op() {
    let mut history: Vec<HistoryItem> = Vec::new();
    ingest_distinct(&mut history, 2);
    let before = snapshot(&history);
    remove(&mut history, 2);
    remove(&mut history, 99);
    assert_eq!(snapshot(&history), before);
}

#[test]
fn operations_on_an_empty_history_do_nothing() {
    let mut history: Vec<HistoryItem> = Vec::new();
    toggle_pin(&mut history, 0);
    remove(&mut history, 0);
    trim_history(&mut history);
    assert!(history.is_empty());
    assert!(get(&history, 0).is_none());
    assert_eq!(pinned_count(&history), 0);
}

#[test]
fn get_looks_up_in_range_only() {
    let mut history: Vec<HistoryItem> = Vec::new();
    ingest_distinct(&mut history, 2);
    match get(&history, 0) {
        Some(item) => match &item.entry {
            ClipboardEntry::Text(t) => assert_eq!(t, "entry number 1"),
            _ => panic!("expected a text entry"),
        },
        None => panic!("index 0 is in range"),
    }
    assert!(get(&history, 2).is_none());
}
