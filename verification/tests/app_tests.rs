use notes_app::app::AppView;
use notes_app::editor::EditorView;
use notes_app::note::Note;
use notes_app::note_list::NoteList;
use notes_app::sidebar::SidebarView;
use notes_app::storage::{DirModel, Storage};
use notes_app::timestamp::Timestamp;

fn ts(year: u32, month: u32, day: u32, hour: u32, minute: u32, second: u32, nanos: u32) -> Timestamp {
    Timestamp { year, month, day, hour, minute, second, nanos }
}

fn note(id: &str, title: &str, minute: u32) -> Note {
    Note::from_data(
        id.to_string(),
        title.to_string(),
        String::new(),
        ts(2025, 2, 8, 14, minute, 0, 0),
        ts(2025, 2, 8, 14, minute, 0, 0),
    )
}

fn fresh_app() -> AppView {
    AppView::new(Vec::new(), Storage::new("/tmp/notes".to_string()))
}

#[test]
fn new_app_selects_the_first_loaded_note() {
    let loaded = vec![note("a", "A", 1), note("b", "B", 2)];
    let app = AppView::new(loaded, Storage::new("/tmp/notes".to_string()));
    assert_eq!(app.selected_note_id.as_deref(), Some("a"));
    assert_eq!(app.editor.current_note_id().as_deref(), Some("a"));
    assert_eq!(app.notes.len(), 2);
}

#[test]
fn new_app_keeps_the_first_of_duplicate_identities() {
    let loaded = vec![note("a", "First", 1), note("a", "Second", 2), note("b", "B", 3)];
    let app = AppView::new(loaded, Storage::new("/tmp/notes".to_string()));
    assert_eq!(app.notes.len(), 2);
    assert_eq!(app.notes[0].title, "First");
}

#[test]
fn create_selects_and_displays_the_new_note() {
    let mut app = fresh_app();
    let n = note("new-id", "Untitled", 1);
    app.create_new_note(n, true);
    assert_eq!(app.notes.len(), 1);
    assert_eq!(app.selected_note_id.as_deref(), Some("new-id"));
    assert_eq!(app.editor.current_note_id().as_deref(), Some("new-id"));
    assert_eq!(app.sidebar.selected_note_id.as_deref(), Some("new-id"));
}

#[test]
fn create_inserts_at_the_front() {
    let mut app = fresh_app();
    app.create_new_note(note("first", "A", 1), true);
    app.create_new_note(note("second", "B", 2), true);
    assert_eq!(app.notes[0].id, "second");
    assert_eq!(app.notes[1].id, "first");
}

#[test]
fn failed_create_changes_nothing() {
    let mut app = fresh_app();
    app.create_new_note(note("x", "X", 1), false);
    assert_eq!(app.notes.len(), 0);
    assert!(app.selected_note_id.is_none());
    assert!(app.editor.current_note.is_none());
}

#[test]
fn delete_of_selected_clears_selection_and_editor() {
    let mut app = fresh_app();
    app.create_new_note(note("a", "A", 1), true);
    app.create_new_note(note("b", "B", 2), true);
    assert_eq!(app.selected_note_id.as_deref(), Some("b"));
    app.delete_note("b".to_string(), true);
    assert!(app.selected_note_id.is_none());
    assert!(app.editor.current_note.is_none());
    assert_eq!(app.notes.len(), 1);
}

#[test]
fn delete_of_non_selected_leaves_selection_and_editor() {
    let mut app = fresh_app();
    app.create_new_note(note("a", "A", 1), true);
    app.create_new_note(note("b", "B", 2), true);
    app.delete_note("a".to_string(), true);
    assert_eq!(app.selected_note_id.as_deref(), Some("b"));
    assert_eq!(app.editor.current_note_id().as_deref(), Some("b"));
    assert_eq!(app.notes.len(), 1);
}

#[test]
fn delete_clears_a_rename_targeting_the_deleted_note() {
    let mut app = fresh_app();
    app.create_new_note(note("a", "A", 1), true);
    app.sidebar.start_editing("a".to_string());
    assert!(app.sidebar.is_editing("a"));
    app.delete_note("a".to_string(), true);
    assert!(app.sidebar.editing_note_id.is_none());
}

#[test]
fn select_switches_editor_and_selection() {
    let mut app = fresh_app();
    app.create_new_note(note("a", "A", 1), true);
    app.create_new_note(note("b", "B", 2), true);
    app.select_note("a".to_string());
    assert_eq!(app.selected_note_id.as_deref(), Some("a"));
    assert_eq!(app.editor.current_note_id().as_deref(), Some("a"));
}

#[test]
fn select_of_stale_identity_is_a_no_op() {
    let mut app = fresh_app();
    app.create_new_note(note("a", "A", 1), true);
    app.select_note("ghost".to_string());
    assert_eq!(app.selected_note_id.as_deref(), Some("a"));
}

#[test]
fn rename_updates_title_and_refreshes_editor() {
    let mut app = fresh_app();
    app.create_new_note(note("a", "Old", 1), true);
    let now = ts(2025, 2, 9, 10, 0, 0, 0);
    let renamed = app.renamed_note(&"a".to_string(), "New".to_string(), now);
    assert!(renamed.is_some());
    app.rename_note("a".to_string(), "New".to_string(), now, true);
    assert_eq!(app.notes[0].title, "New");
    assert_eq!(app.notes[0].updated_at, now);
    let shown = app.editor.current_note.as_ref().unwrap();
    assert_eq!(shown.title, "New");
}

#[test]
fn rename_of_stale_identity_is_a_no_op() {
    let mut app = fresh_app();
    app.create_new_note(note("a", "A", 1), true);
    let now = ts(2025, 2, 9, 10, 0, 0, 0);
    assert!(app.renamed_note(&"ghost".to_string(), "X".to_string(), now).is_none());
    app.rename_note("ghost".to_string(), "X".to_string(), now, true);
    assert_eq!(app.notes[0].title, "A");
}

#[test]
fn create_rename_reload_scenario() {
    let storage = Storage::new("/tmp/notes".to_string());
    let mut dir = DirModel::new();
    let mut app = AppView::new(Vec::new(), storage.clone());

    let n = note("shopping-id", "Untitled", 1);
    storage.save_note(&mut dir, &n);
    app.create_new_note(n, true);

    let later = ts(2025, 2, 8, 15, 0, 0, 0);
    let renamed = app
        .renamed_note(&"shopping-id".to_string(), "Shopping List".to_string(), later)
        .expect("the note is present");
    storage.save_note(&mut dir, &renamed);
    app.rename_note("shopping-id".to_string(), "Shopping List".to_string(), later, true);

    let reloaded = storage.load_all_notes(&dir);
    assert_eq!(reloaded.len(), 1);
    assert_eq!(reloaded[0].title, "Shopping List");
    assert!(reloaded[0].created_at.le(&reloaded[0].updated_at));
    assert_ne!(reloaded[0].created_at, reloaded[0].updated_at);
}

#[test]
fn editor_loads_and_clears() {
    let mut editor = EditorView::new();
    assert!(editor.current_note_id().is_none());
    editor.load_note(note("a", "A", 1));
    assert_eq!(editor.current_note_id().as_deref(), Some("a"));
    editor.clear();
    assert!(editor.current_note_id().is_none());
}

#[test]
fn sidebar_rename_flow_confirms_with_draft() {
    let mut sidebar = SidebarView::new(vec![note("a", "Groceries", 1)]);
    sidebar.start_editing("a".to_string());
    assert!(sidebar.is_editing("a"));
    assert!(!sidebar.is_editing("b"));
    assert_eq!(sidebar.rename_title, "Groceries");
    sidebar.rename_title = "Shopping List".to_string();
    let intent = sidebar.confirm_rename();
    assert_eq!(intent, Some(("a".to_string(), "Shopping List".to_string())));
    assert!(sidebar.editing_note_id.is_none());
    assert_eq!(sidebar.rename_title, "");
}

#[test]
fn sidebar_confirm_with_empty_draft_is_a_cancel() {
    let mut sidebar = SidebarView::new(vec![note("a", "A", 1)]);
    sidebar.start_editing("a".to_string());
    sidebar.rename_title = String::new();
    assert_eq!(sidebar.confirm_rename(), None);
    assert!(sidebar.editing_note_id.is_none());
}

#[test]
fn sidebar_cancel_clears_target_and_draft() {
    let mut sidebar = SidebarView::new(vec![note("a", "A", 1)]);
    sidebar.start_editing("a".to_string());
    sidebar.cancel_rename();
    assert!(sidebar.editing_note_id.is_none());
    assert_eq!(sidebar.rename_title, "");
}

#[test]
fn sidebar_start_editing_ignores_stale_identity() {
    let mut sidebar = SidebarView::new(vec![note("a", "A", 1)]);
    sidebar.start_editing("ghost".to_string());
    assert!(sidebar.editing_note_id.is_none());
}

#[test]
fn note_list_add_get_and_remove() {
    let mut dir = DirModel::new();
    let mut list = NoteList::new(Storage::new("/tmp/notes".to_string()), Vec::new());
    list.add(&mut dir, note("a", "A", 1));
    list.add(&mut dir, note("b", "B", 2));
    assert_eq!(list.get_all().len(), 2);
    assert_eq!(list.get(&"a".to_string()).unwrap().title, "A");
    assert!(list.get(&"ghost".to_string()).is_none());
    list.add(&mut dir, note("a", "A2", 3));
    assert_eq!(list.get_all().len(), 2);
    assert_eq!(list.get(&"a".to_string()).unwrap().title, "A2");
    list.remove(&mut dir, &"a".to_string());
    assert!(list.get(&"a".to_string()).is_none());
    assert_eq!(list.get_all().len(), 1);
    list.remove(&mut dir, &"a".to_string());
    assert_eq!(list.get_all().len(), 1);
}
