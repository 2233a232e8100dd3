use clipboard_history::entry::{
    clone_entry, entry_eq, should_emit, ClipboardEntry, ClipboardFingerprint,
};
use clipboard_history::history::HistoryItem;
use clipboard_history::ingest::{ingest, should_ignore_clipboard_entry, HistoryAction};
use clipboard_history::model::{update, AppModel, Message};
use clipboard_history::summary::{image_size_kb, summarize_one_line};

fn text_entry(s: &str) -> ClipboardEntry {
    ClipboardEntry::Text(String::from(s))
}

fn image_entry(mime: &str, bytes: Vec<u8>, thumbnail: Option<Vec<u8>>) -> ClipboardEntry {
    ClipboardEntry::Image {
        mime: String::from(mime),
        bytes,
        thumbnail_png: thumbnail,
    }
}

fn snapshot(history: &Vec<HistoryItem>) -> Vec<(String, bool)> {
    let mut out = Vec::new();
    for item in history {
        match &item.entry {
            ClipboardEntry::Text(t) => out.push((t.clone(), item.pinned)),
            ClipboardEntry::Image { mime, .. } => out.push((mime.clone(), item.pinned)),
        }
    }
    out
}

#[test]
fn short_timestamp_is_noise() {
    assert!(should_ignore_clipboard_entry("12:34"));
    let mut history: Vec<HistoryItem> = Vec::new();
    let action = ingest(&mut history, text_entry("12:34"));
    assert_eq!(action, HistoryAction::Ignored);
    assert_eq!(history.len(), 0);
}

#[test]
fn long_timestamp_is_not_noise() {
    assert!(!should_ignore_clipboard_entry("12:34:56:78:90"));
    let mut history: Vec<HistoryItem> = Vec::new();
    let action = ingest(&mut history, text_entry("12:34:56:78:90"));
    assert_eq!(action, HistoryAction::Inserted);
    assert_eq!(history.len(), 1);
}

#[test]
fn noise_filter_cases() {
    assert!(should_ignore_clipboard_entry(""));
    assert!(should_ignore_clipboard_entry("   \t \n "));
    assert!(should_ignore_clipboard_entry("12345678"));
    assert!(!should_ignore_clipboard_entry("123456789"));
    assert!(should_ignore_clipboard_entry(" 1,2.3-4 "));
    assert!(should_ignore_clipboard_entry("_/\\;"));
    assert!(!should_ignore_clipboard_entry("a"));
    assert!(!should_ignore_clipboard_entry("12:34a"));
}

#[test]
fn trimming_happens_before_the_length_check() {
    // Sixteen characters in all, eight after trimming: noise only if the
    // whitespace at both ends is really trimmed away.
    assert!(should_ignore_clipboard_entry("    12345678    "));
    // Unicode whitespace is trimmed too.
    assert!(should_ignore_clipboard_entry("\u{a0}\u{a0}12:34\u{a0}"));
}

#[test]
fn images_are_never_noise() {
    let mut history: Vec<HistoryItem> = Vec::new();
    let action = ingest(&mut history, image_entry("image/png", vec![1, 2], None));
    assert_eq!(action, HistoryAction::Inserted);
    assert_eq!(history.len(), 1);
}

#[test]
fn repeated_head_is_suppressed() {
    let mut history: Vec<HistoryItem> = Vec::new();
    assert_eq!(
        ingest(&mut history, text_entry("hello world")),
        HistoryAction::Inserted
    );
    assert_eq!(
        ingest(&mut history, text_entry("hello world")),
        HistoryAction::Ignored
    );
    assert_eq!(history.len(), 1);
}

#[test]
fn dedup_merge_preserves_pin_and_refreshes_position() {
    let mut history: Vec<HistoryItem> = Vec::new();
    ingest(&mut history, text_entry("hello"));
    ingest(&mut history, text_entry("world"));
    // Front-to-back: world, hello. Pin "world", then "hello": the newest
    // pin lands at the back of the pinned prefix.
    clipboard_history::history::toggle_pin(&mut history, 0);
    clipboard_history::history::toggle_pin(&mut history, 1);
    assert_eq!(snapshot(&history)[1], (String::from("hello"), true));
    // A fresh observation of an equal entry merges into the pinned item.
    let action = ingest(&mut history, text_entry("hello"));
    assert_eq!(action, HistoryAction::Merged);
    let shot = snapshot(&history);
    assert_eq!(shot.len(), 2);
    assert_eq!(shot[1], (String::from("hello"), true));
    assert_eq!(shot.iter().filter(|(t, _)| t == "hello").count(), 1);
}

#[test]
fn observation_equal_to_a_pinned_head_is_suppressed() {
    let mut history: Vec<HistoryItem> = Vec::new();
    ingest(&mut history, text_entry("hello"));
    ingest(&mut history, text_entry("world"));
    clipboard_history::history::toggle_pin(&mut history, 1);
    assert_eq!(snapshot(&history)[0], (String::from("hello"), true));
    let action = ingest(&mut history, text_entry("hello"));
    assert_eq!(action, HistoryAction::Ignored);
    let shot = snapshot(&history);
    assert_eq!(shot.len(), 2);
    assert_eq!(shot[0], (String::from("hello"), true));
    assert_eq!(shot.iter().filter(|(t, _)| t == "hello").count(), 1);
}

#[test]
fn dedup_merge_refreshes_an_unpinned_entry() {
    let mut history: Vec<HistoryItem> = Vec::new();
    ingest(&mut history, text_entry("first clip"));
    ingest(&mut history, text_entry("second clip"));
    ingest(&mut history, text_entry("third clip"));
    let action = ingest(&mut history, text_entry("first clip"));
    assert_eq!(action, HistoryAction::Merged);
    let shot = snapshot(&history);
    assert_eq!(shot.len(), 3);
    assert_eq!(shot[0].0, "first clip");
    assert_eq!(shot[1].0, "third clip");
    assert_eq!(shot[2].0, "second clip");
}

#[test]
fn entry_equality_is_structural() {
    assert!(entry_eq(&text_entry("abc"), &text_entry("abc")));
    assert!(!entry_eq(&text_entry("abc"), &text_entry("abd")));
    assert!(!entry_eq(
        &text_entry("image/png"),
        &image_entry("image/png", vec![], None)
    ));
    let a = image_entry("image/png", vec![1, 2, 3], Some(vec![9]));
    let b = image_entry("image/png", vec![1, 2, 3], Some(vec![9]));
    assert!(entry_eq(&a, &b));
    assert!(!entry_eq(&a, &image_entry("image/jpeg", vec![1, 2, 3], Some(vec![9]))));
    assert!(!entry_eq(&a, &image_entry("image/png", vec![1, 2], Some(vec![9]))));
    assert!(!entry_eq(&a, &image_entry("image/png", vec![1, 2, 3], Some(vec![8]))));
    assert!(!entry_eq(&a, &image_entry("image/png", vec![1, 2, 3], None)));
}

#[test]
fn clone_entry_copies_the_value() {
    let a = image_entry("image/png", vec![4, 5], Some(vec![6]));
    let b = clone_entry(&a);
    assert!(entry_eq(&a, &b));
    let t = text_entry("copied text");
    assert!(entry_eq(&t, &clone_entry(&t)));
}

#[test]
fn fingerprint_suppression() {
    let fp1 = ClipboardFingerprint { digest: 7 };
    let fp2 = ClipboardFingerprint { digest: 8 };
    assert!(should_emit(&None, &fp1));
    assert!(!should_emit(&Some(fp1), &ClipboardFingerprint { digest: 7 }));
    assert!(should_emit(&Some(fp1), &fp2));
}

#[test]
fn update_dispatches_all_messages() {
    let mut app = AppModel::new();
    assert!(update(&mut app, Message::ClipboardChanged(text_entry("one clip"))).is_none());
    assert!(update(&mut app, Message::ClipboardChanged(text_entry("two clips"))).is_none());
    assert_eq!(app.history.len(), 2);

    assert!(update(&mut app, Message::TogglePin(1)).is_none());
    assert_eq!(snapshot(&app.history)[0], (String::from("one clip"), true));

    let copied = update(&mut app, Message::CopyFromHistory(1));
    match copied {
        Some(ClipboardEntry::Text(t)) => assert_eq!(t, "two clips"),
        _ => panic!("expected the text entry back"),
    }
    assert_eq!(app.history.len(), 2);
    assert!(update(&mut app, Message::CopyFromHistory(5)).is_none());

    assert!(update(&mut app, Message::RemoveHistory(0)).is_none());
    assert_eq!(app.history.len(), 1);
    assert_eq!(snapshot(&app.history)[0], (String::from("two clips"), false));
}

#[test]
fn summarize_takes_first_nonblank_line_trimmed() {
    assert_eq!(summarize_one_line("hello world"), "hello world");
    assert_eq!(summarize_one_line("  \n \t \n  first line  \nsecond"), "first line");
    assert_eq!(summarize_one_line("\r\nabc\r\ndef"), "abc");
    assert_eq!(summarize_one_line("   "), "");
    assert_eq!(summarize_one_line(""), "");
}

#[test]
fn summarize_truncates_with_an_ellipsis() {
    let long = "abcdefghijklmnopqrstuvwxyz123";
    let summary = summarize_one_line(long);
    assert_eq!(summary.chars().count(), 25);
    assert_eq!(summary, "abcdefghijklmnopqrstuvwx\u{2026}");
    let exact = "abcdefghijklmnopqrstuvwxy";
    assert_eq!(summarize_one_line(exact), exact);
}

#[test]
fn image_size_is_rounded_up_to_kilobytes() {
    assert_eq!(image_size_kb(0), 0);
    assert_eq!(image_size_kb(1), 1);
    assert_eq!(image_size_kb(1024), 1);
    assert_eq!(image_size_kb(1025), 2);
    assert_eq!(image_size_kb(usize::MAX), usize::MAX / 1024);
}
