use notes_app::codec::{decode_note, encode_note};
use notes_app::note::Note;
use notes_app::timestamp::Timestamp;

fn ts(year: u32, month: u32, day: u32, hour: u32, minute: u32, second: u32, nanos: u32) -> Timestamp {
    Timestamp { year, month, day, hour, minute, second, nanos }
}

fn sample_note(id: &str, title: &str, content: &str) -> Note {
    Note::from_data(
        id.to_string(),
        title.to_string(),
        content.to_string(),
        ts(2025, 2, 8, 14, 30, 5, 123_456_789),
        ts(2025, 2, 8, 14, 30, 5, 123_456_789),
    )
}

#[test]
fn new_note_has_defaults() {
    let n = Note::new();
    assert_eq!(n.title, "Untitled");
    assert_eq!(n.content, "");
    assert_eq!(n.created_at, n.updated_at);
    assert_eq!(n.id.chars().count(), 36);
}

#[test]
fn fresh_identities_differ() {
    let a = Note::new();
    let b = Note::new();
    assert_ne!(a.id, b.id);
}

#[test]
fn default_matches_new() {
    let n: Note = Default::default();
    assert_eq!(n.title, "Untitled");
    assert_eq!(n.content, "");
}

#[test]
fn now_is_in_range() {
    let t = Timestamp::now();
    assert!(t.year <= 9999);
    assert!((1..=12).contains(&t.month));
    assert!((1..=31).contains(&t.day));
    assert!(t.hour <= 23);
    assert!(t.minute <= 59);
    assert!(t.second <= 59);
    assert!(t.nanos <= 999_999_999);
}

#[test]
fn timestamp_order_and_later() {
    let a = ts(2024, 12, 31, 23, 59, 59, 999_999_999);
    let b = ts(2025, 1, 1, 0, 0, 0, 0);
    assert!(a.le(&b));
    assert!(!b.le(&a));
    assert_eq!(a.later(&b), b);
    assert_eq!(b.later(&a), b);
    assert!(a.le(&a));
}

#[test]
fn clamped_keeps_fields_in_range() {
    let t = Timestamp::clamped(2025, 6, 15, 12, 30, 45, 500);
    assert_eq!(t, ts(2025, 6, 15, 12, 30, 45, 500));
    let c = Timestamp::clamped(-5, 0, 99, 99, 99, 99, 1_999_999_999);
    assert_eq!(c.year, 0);
    assert_eq!(c.month, 1);
    assert_eq!(c.day, 31);
    assert_eq!(c.hour, 23);
    assert_eq!(c.minute, 59);
    assert_eq!(c.second, 59);
    assert_eq!(c.nanos, 999_999_999);
}

#[test]
fn preview_empty_content_uses_placeholder() {
    let n = sample_note("a", "t", "");
    assert_eq!(n.preview(), "no content");
}

#[test]
fn preview_short_content_is_unchanged() {
    let text = "exactly this text";
    let n = sample_note("a", "t", text);
    assert_eq!(n.preview(), text);
}

#[test]
fn preview_at_threshold_has_no_ellipsis() {
    let text: String = "x".repeat(50);
    let n = sample_note("a", "t", &text);
    assert_eq!(n.preview(), text);
}

#[test]
fn preview_long_content_is_truncated_with_ellipsis() {
    let text: String = "ab".repeat(30);
    let n = sample_note("a", "t", &text);
    let expected: String = text.chars().take(50).collect::<String>() + "...";
    assert_eq!(n.preview(), expected);
    assert_eq!(n.preview().chars().count(), 53);
}

#[test]
fn preview_counts_characters_not_bytes() {
    let text: String = "漢".repeat(51);
    let n = sample_note("a", "t", &text);
    let expected: String = "漢".repeat(50) + "...";
    assert_eq!(n.preview(), expected);
}

#[test]
fn formatted_time_renders_minutes() {
    let mut n = sample_note("a", "t", "c");
    n.updated_at = ts(2025, 2, 8, 14, 30, 0, 0);
    assert_eq!(n.formatted_time(), "2025-02-08 14:30");
}

#[test]
fn formatted_time_zero_pads() {
    let mut n = sample_note("a", "t", "c");
    n.updated_at = ts(987, 1, 2, 3, 4, 0, 0);
    assert_eq!(n.formatted_time(), "0987-01-02 03:04");
}

#[test]
fn set_title_at_refreshes_updated_at() {
    let mut n = sample_note("a", "old title", "c");
    let later = ts(2025, 3, 1, 9, 0, 0, 0);
    n.set_title_at("new title".to_string(), later);
    assert_eq!(n.title, "new title");
    assert_eq!(n.updated_at, later);
    assert_eq!(n.created_at, ts(2025, 2, 8, 14, 30, 5, 123_456_789));
}

#[test]
fn set_title_at_never_moves_before_creation() {
    let mut n = sample_note("a", "t", "c");
    let earlier = ts(2020, 1, 1, 0, 0, 0, 0);
    n.set_title_at("t2".to_string(), earlier);
    assert_eq!(n.updated_at, n.created_at);
}

#[test]
fn set_content_at_refreshes_updated_at() {
    let mut n = sample_note("a", "t", "old");
    let later = ts(2026, 1, 1, 0, 0, 0, 1);
    n.set_content_at("new".to_string(), later);
    assert_eq!(n.content, "new");
    assert_eq!(n.updated_at, later);
}

#[test]
fn update_title_keeps_other_fields() {
    let mut n = sample_note("a", "t", "c");
    n.update_title("renamed".to_string());
    assert_eq!(n.title, "renamed");
    assert_eq!(n.id, "a");
    assert_eq!(n.content, "c");
    assert!(n.created_at.le(&n.updated_at));
}

#[test]
fn encode_produces_the_expected_document() {
    let n = sample_note("id-1", "A title", "line one\nline two");
    let doc = encode_note(&n);
    let expected = "{\n  \"id\": \"id-1\",\n  \"title\": \"A title\",\n  \"content\": \"line one\\u000aline two\",\n  \"created_at\": \"2025-02-08T14:30:05.123456789\",\n  \"updated_at\": \"2025-02-08T14:30:05.123456789\"\n}";
    assert_eq!(doc, expected);
}

#[test]
fn decode_undoes_encode() {
    let n = sample_note(
        "7b2e1c9a-0f1d-4e5f-9a3b-1c2d3e4f5a6b",
        "quotes \" and \\ backslashes",
        "controls: \t tab, \r cr, \u{1} one; 漢字 and emoji ✨",
    );
    let doc = encode_note(&n);
    let back = decode_note(&doc).expect("the encoding must parse");
    assert_eq!(back.id, n.id);
    assert_eq!(back.title, n.title);
    assert_eq!(back.content, n.content);
    assert_eq!(back.created_at, n.created_at);
    assert_eq!(back.updated_at, n.updated_at);
}

#[test]
fn decode_undoes_encode_for_empty_fields() {
    let n = sample_note("", "", "");
    let doc = encode_note(&n);
    let back = decode_note(&doc).expect("the encoding must parse");
    assert_eq!(back.id, "");
    assert_eq!(back.title, "");
    assert_eq!(back.content, "");
}

#[test]
fn decode_rejects_malformed_documents() {
    assert!(decode_note("").is_none());
    assert!(decode_note("{}").is_none());
    assert!(decode_note("not json at all").is_none());
    assert!(decode_note("{\n  \"id\": \"x\"").is_none());
    let fields_reordered = "{\n  \"title\": \"t\",\n  \"id\": \"x\",\n  \"content\": \"c\",\n  \"created_at\": \"2025-02-08T14:30:05.123456789\",\n  \"updated_at\": \"2025-02-08T14:30:05.123456789\"\n}";
    assert!(decode_note(fields_reordered).is_none());
}

#[test]
fn decode_rejects_bad_timestamps() {
    let bad_month = "{\n  \"id\": \"x\",\n  \"title\": \"t\",\n  \"content\": \"c\",\n  \"created_at\": \"2025-13-08T14:30:05.123456789\",\n  \"updated_at\": \"2025-12-08T14:30:05.123456789\"\n}";
    assert!(decode_note(bad_month).is_none());
    let updated_before_created = "{\n  \"id\": \"x\",\n  \"title\": \"t\",\n  \"content\": \"c\",\n  \"created_at\": \"2025-02-08T14:30:05.000000000\",\n  \"updated_at\": \"2025-02-08T14:30:04.000000000\"\n}";
    assert!(decode_note(updated_before_created).is_none());
}

#[test]
fn decode_accepts_a_handwritten_document() {
    let doc = "{\n  \"id\": \"abc\",\n  \"title\": \"hello\",\n  \"content\": \"a \\\"quoted\\\" word\",\n  \"created_at\": \"2024-06-01T08:00:00.000000000\",\n  \"updated_at\": \"2024-06-02T09:30:00.500000000\"\n}";
    let n = decode_note(doc).expect("valid document");
    assert_eq!(n.id, "abc");
    assert_eq!(n.title, "hello");
    assert_eq!(n.content, "a \"quoted\" word");
    assert_eq!(n.created_at.year, 2024);
    assert_eq!(n.updated_at.nanos, 500_000_000);
}
