//! The editor pane's state: at most one note on display.
//!
//! The editor holds a copy of the note it shows, not a live reference;
//! edits elsewhere appear only when the root controller reloads it.

use vstd::prelude::*;

use crate::note::Note;

verus! {

/// Display-only: what the editor is showing right now.
pub struct EditorView {
    pub current_note: Option<Note>,
}

impl EditorView {
    /// The identity of the displayed note, if any.
    pub open spec fn spec_current_id(self) -> Option<Seq<char>> {
        match self.current_note {
            Some(n) => Some(n@.id),
            None => None,
        }
    }

    /// An empty editor.
    pub fn new() -> (e: EditorView)
        ensures
            e.current_note is None,
    {
        EditorView { current_note: None }
    }

    /// Replaces the display with this note.
    pub fn load_note(&mut self, note: Note)
        ensures
            final(self).current_note == Some(note),
    {
        self.current_note = Some(note);
    }

    /// Empties the display.
    pub fn clear(&mut self)
        ensures
            final(self).current_note is None,
    {
        self.current_note = None;
    }

    /// The identity of the displayed note.
    pub fn current_note_id(&self) -> (r: Option<String>)
        ensures
            match self.current_note {
                Some(n) => r matches Some(s) && s@ == n@.id,
                None => r is None,
            },
    {
        match &self.current_note {
            Some(n) => Some(n.id.clone()),
            None => None,
        }
    }
}

} // verus!
