use notes_app::codec::encode_note;
use notes_app::note::Note;
use notes_app::storage::{sort_notes_by_updated_desc, DirModel, Storage};
use notes_app::timestamp::Timestamp;

fn ts(year: u32, month: u32, day: u32, hour: u32, minute: u32, second: u32, nanos: u32) -> Timestamp {
    Timestamp { year, month, day, hour, minute, second, nanos }
}

fn note(id: &str, title: &str, content: &str, minute: u32) -> Note {
    Note::from_data(
        id.to_string(),
        title.to_string(),
        content.to_string(),
        ts(2025, 2, 8, 14, minute, 0, 0),
        ts(2025, 2, 8, 14, minute, 0, 0),
    )
}

#[test]
fn paths_and_file_names() {
    let storage = Storage::new("/home/user/.config/notes-app".to_string());
    assert_eq!(storage.data_dir().as_str(), "/home/user/.config/notes-app");
    assert_eq!(Storage::note_file_name("abc"), "abc.json");
    assert_eq!(storage.note_path("abc"), "/home/user/.config/notes-app/abc.json");
}

#[test]
fn save_then_load_round_trips_every_field() {
    let storage = Storage::new("/tmp/notes".to_string());
    let mut dir = DirModel::new();
    let n = note("id-1", "First", "some text with \"quotes\"\nand a second line", 1);
    storage.save_note(&mut dir, &n);
    let loaded = storage.load_all_notes(&dir);
    assert_eq!(loaded.len(), 1);
    assert_eq!(loaded[0].id, n.id);
    assert_eq!(loaded[0].title, n.title);
    assert_eq!(loaded[0].content, n.content);
    assert_eq!(loaded[0].created_at, n.created_at);
    assert_eq!(loaded[0].updated_at, n.updated_at);
}

#[test]
fn save_overwrites_the_same_identity() {
    let storage = Storage::new("/tmp/notes".to_string());
    let mut dir = DirModel::new();
    storage.save_note(&mut dir, &note("id-1", "Old", "old body", 1));
    storage.save_note(&mut dir, &note("id-1", "New", "new body", 2));
    let loaded = storage.load_all_notes(&dir);
    assert_eq!(loaded.len(), 1);
    assert_eq!(loaded[0].title, "New");
    assert_eq!(loaded[0].content, "new body");
}

#[test]
fn load_keeps_the_valid_file_and_skips_the_malformed_one() {
    let storage = Storage::new("/tmp/notes".to_string());
    let mut dir = DirModel::new();
    let good = note("good-id", "Valid", "valid body", 1);
    storage.save_note(&mut dir, &good);
    dir.push_file("broken.json".to_string(), "{ this is not a note }".to_string());
    let loaded = storage.load_all_notes(&dir);
    assert_eq!(loaded.len(), 1);
    assert_eq!(loaded[0].id, "good-id");
    assert_eq!(loaded[0].title, "Valid");
}

#[test]
fn load_skips_files_without_json_suffix() {
    let storage = Storage::new("/tmp/notes".to_string());
    let mut dir = DirModel::new();
    let n = note("id-1", "T", "C", 1);
    dir.push_file("readme.txt".to_string(), encode_note(&n));
    dir.push_file("id-1.json".to_string(), encode_note(&n));
    let loaded = storage.load_all_notes(&dir);
    assert_eq!(loaded.len(), 1);
}

#[test]
fn load_of_empty_directory_is_empty() {
    let storage = Storage::new("/tmp/notes".to_string());
    let dir = DirModel::new();
    assert_eq!(storage.load_all_notes(&dir).len(), 0);
}

#[test]
fn delete_removes_only_the_named_note() {
    let storage = Storage::new("/tmp/notes".to_string());
    let mut dir = DirModel::new();
    storage.save_note(&mut dir, &note("keep", "Keep", "k", 1));
    storage.save_note(&mut dir, &note("drop", "Drop", "d", 2));
    storage.delete_note(&mut dir, "drop");
    let loaded = storage.load_all_notes(&dir);
    assert_eq!(loaded.len(), 1);
    assert_eq!(loaded[0].id, "keep");
}

#[test]
fn sort_puts_the_most_recently_updated_first() {
    let notes = vec![
        note("a", "Oldest", "", 1),
        note("c", "Newest", "", 30),
        note("b", "Middle", "", 15),
    ];
    let sorted = sort_notes_by_updated_desc(notes);
    let titles: Vec<&str> = sorted.iter().map(|n| n.title.as_str()).collect();
    assert_eq!(titles, vec!["Newest", "Middle", "Oldest"]);
}

#[test]
fn delete_is_idempotent_and_tolerates_unknown_ids() {
    let storage = Storage::new("/tmp/notes".to_string());
    let mut dir = DirModel::new();
    storage.save_note(&mut dir, &note("id-1", "T", "C", 1));
    storage.delete_note(&mut dir, "never-existed");
    assert_eq!(storage.load_all_notes(&dir).len(), 1);
    storage.delete_note(&mut dir, "id-1");
    storage.delete_note(&mut dir, "id-1");
    assert_eq!(storage.load_all_notes(&dir).len(), 0);
}
