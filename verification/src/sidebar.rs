//! The sidebar's state: the rendered note list, the selection, and the
//! rename state machine.
//!
//! The sidebar is `Browsing` (no note in rename mode) or `Renaming` one
//! note with a draft title; at most one note is ever in rename mode.
//! Confirming with a non-empty draft hands the intent to the caller;
//! confirming with an empty draft is a silent cancel.  Both clear the
//! rename target and the draft.

use vstd::prelude::*;
use vstd::string::*;

use crate::note::{has_id, views_of, Note};

verus! {

/// Intent: select the note with this identity.
pub struct SidebarEvent(pub String);

/// Intent: create a new note.
pub struct SidebarNewNote;

/// Intent: delete the note with this identity.
pub struct SidebarDeleteNote(pub String);

/// Intent: rename the note with this identity to this title.
pub struct SidebarRenameNote(pub String, pub String);

/// The sidebar's local state.
pub struct SidebarView {
    pub notes: Vec<Note>,
    pub selected_note_id: Option<String>,
    pub editing_note_id: Option<String>,
    pub rename_title: String,
}

impl SidebarView {
    /// A sidebar over these notes, nothing selected and nothing being
    /// renamed.
    pub fn new(notes: Vec<Note>) -> (s: SidebarView)
        ensures
            s.notes == notes,
            s.selected_note_id is None,
            s.editing_note_id is None,
            s.rename_title@ == Seq::<char>::empty(),
    {
        SidebarView {
            notes,
            selected_note_id: None,
            editing_note_id: None,
            rename_title: String::new(),
        }
    }

    /// Replaces the rendered note list.
    pub fn update_notes(&mut self, notes: Vec<Note>)
        ensures
            final(self).notes == notes,
            final(self).selected_note_id == old(self).selected_note_id,
            final(self).editing_note_id == old(self).editing_note_id,
            final(self).rename_title == old(self).rename_title,
    {
        self.notes = notes;
    }

    /// Sets which note is highlighted.
    pub fn set_selected(&mut self, note_id: Option<String>)
        ensures
            final(self).selected_note_id == note_id,
            final(self).notes == old(self).notes,
            final(self).editing_note_id == old(self).editing_note_id,
            final(self).rename_title == old(self).rename_title,
    {
        self.selected_note_id = note_id;
    }

    /// Sets which note is in rename mode.
    pub fn set_editing(&mut self, note_id: Option<String>)
        ensures
            final(self).editing_note_id == note_id,
            final(self).notes == old(self).notes,
            final(self).selected_note_id == old(self).selected_note_id,
            final(self).rename_title == old(self).rename_title,
    {
        self.editing_note_id = note_id;
    }

    /// Enters rename mode for this note, seeding the draft with its
    /// current title; a stale identity is ignored.
    pub fn start_editing(&mut self, note_id: String)
        ensures
            final(self).notes == old(self).notes,
            final(self).selected_note_id == old(self).selected_note_id,
            has_id(views_of(old(self).notes@), note_id@) ==> {
                &&& final(self).editing_note_id matches Some(e) && e@ == note_id@
                &&& exists|i: int|
                    0 <= i < old(self).notes@.len() && (#[trigger] old(self).notes@[i])@.id
                        == note_id@ && final(self).rename_title@ == old(self).notes@[i]@.title
            },
            !has_id(views_of(old(self).notes@), note_id@) ==> *final(self) == *old(self),
    {
        let n = self.notes.len();
        let mut k: usize = 0;
        while k < n
            invariant
                n == self.notes@.len(),
                k <= n,
                self == old(self),
                forall|j: int| 0 <= j < k ==> (#[trigger] self.notes@[j])@.id != note_id@,
            decreases n - k,
        {
            if self.notes[k].id.eq(&note_id) {
                proof {
                    assert((old(self).notes@[k as int])@.id == note_id@);
                    assert(views_of(old(self).notes@)[k as int].id == note_id@);
                }
                self.rename_title = self.notes[k].title.clone();
                self.editing_note_id = Some(note_id);
                return ;
            }
            k = k + 1;
        }
        proof {
            if has_id(views_of(self.notes@), note_id@) {
                let i = choose|i: int|
                    0 <= i < views_of(self.notes@).len() && views_of(self.notes@)[i].id
                        == note_id@;
                assert(self.notes@[i]@.id == note_id@);
            }
        }
    }

    /// Whether this note is the one in rename mode.
    pub fn is_editing(&self, note_id: &str) -> (r: bool)
        ensures
            r == (match self.editing_note_id {
                Some(e) => e@ == note_id@,
                None => false,
            }),
    {
        match &self.editing_note_id {
            Some(e) => e.eq(&String::from_str(note_id)),
            None => false,
        }
    }

    /// Leaves rename mode without emitting anything; the target and the
    /// draft are both cleared.
    pub fn cancel_rename(&mut self)
        ensures
            final(self).notes == old(self).notes,
            final(self).selected_note_id == old(self).selected_note_id,
            final(self).editing_note_id is None,
            final(self).rename_title@ == Seq::<char>::empty(),
    {
        self.editing_note_id = None;
        self.rename_title = String::new();
    }

    /// Confirms the rename: with a note in rename mode and a non-empty
    /// draft it returns the rename intent, otherwise nothing.  Either
    /// way the target and the draft are cleared.
    pub fn confirm_rename(&mut self) -> (r: Option<(String, String)>)
        ensures
            final(self).notes == old(self).notes,
            final(self).selected_note_id == old(self).selected_note_id,
            final(self).editing_note_id is None,
            match old(self).editing_note_id {
                Some(e) => final(self).rename_title@ == Seq::<char>::empty() && (if old(
                    self,
                ).rename_title@.len() > 0 {
                    r matches Some((id, title)) && id@ == e@ && title@ == old(self).rename_title@
                } else {
                    r is None
                }),
                None => r is None && final(self).rename_title == old(self).rename_title,
            },
    {
        let editing = self.editing_note_id.take();
        match editing {
            Some(note_id) => {
                if self.rename_title.as_str().unicode_len() > 0 {
                    let title = self.rename_title.clone();
                    self.rename_title = String::new();
                    Some((note_id, title))
                } else {
                    self.rename_title = String::new();
                    None
                }
            },
            None => None,
        }
    }
}

} // verus!
