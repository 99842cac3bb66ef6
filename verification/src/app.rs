//! The root controller: the note collection, the selection, and the
//! handling of the four sidebar intents.
//!
//! The controller owns the single writable collection and keeps the
//! sidebar and the editor in step with it.  Each intent handler takes
//! the outcome of the disk operation (`saved` / `deleted`) from the
//! caller that performs the actual write, and commits the in-memory
//! half only when the disk half succeeded — on failure every piece of
//! state is left exactly as it was.

use vstd::prelude::*;
use vstd::string::*;

use crate::editor::EditorView;
use crate::note::{
    dedup_notes, dedup_spec, distinct_ids, duplicate_notes, find_note, has_id, id_index, lemma_note_at,
    lemma_remove_note_absent, lemma_remove_note_found, note_at, opt_id_view, remove_note_spec,
    rename_note_spec, views_of, Note, NoteView,
};
use crate::sidebar::SidebarView;
use crate::storage::Storage;
use crate::timestamp::Timestamp;

verus! {

/// The root of the application: owns the storage handle, the
/// collection, the selection, and the two panes.
pub struct AppView {
    pub storage: Storage,
    pub notes: Vec<Note>,
    pub selected_note_id: Option<String>,
    pub sidebar: SidebarView,
    pub editor: EditorView,
}

impl AppView {
    /// The abstract collection the controller maintains.
    pub open spec fn collection(self) -> Seq<NoteView> {
        views_of(self.notes@)
    }

    /// The controller's invariant: identities are distinct, every note
    /// is well-formed, the selection refers to a note of the collection
    /// (and the editor shows a copy of exactly that note) or is empty
    /// (and the editor shows nothing), and the sidebar renders the
    /// collection and the selection as they are.
    pub open spec fn wf(self) -> bool {
        &&& distinct_ids(self.collection())
        &&& (forall|i: int| 0 <= i < self.notes@.len() ==> (#[trigger] self.notes@[i])@.wf())
        &&& (match self.selected_note_id {
            Some(id) => has_id(self.collection(), id@) && (self.editor.current_note matches Some(n)
                && n@ == note_at(self.collection(), id@)),
            None => self.editor.current_note is None,
        })
        &&& views_of(self.sidebar.notes@) == self.collection()
        &&& opt_id_view(self.sidebar.selected_note_id) == opt_id_view(self.selected_note_id)
    }

    /// Builds the root controller from the loaded notes, keeping the
    /// first note of each identity; the first note, if any, is selected
    /// and shown in the editor.
    pub fn new(loaded: Vec<Note>, storage: Storage) -> (app: AppView)
        requires
            forall|i: int| 0 <= i < loaded@.len() ==> (#[trigger] loaded@[i]).wf(),
        ensures
            app.wf(),
            app.collection() == dedup_spec(views_of(loaded@)),
            app.storage == storage,
            app.sidebar.editing_note_id is None,
            app.collection().len() > 0 ==> opt_id_view(app.selected_note_id) == Some(
                app.collection()[0].id,
            ),
            app.collection().len() == 0 ==> app.selected_note_id is None,
    {
        let notes = dedup_notes(&loaded);
        let mut editor = EditorView::new();
        let mut selected: Option<String> = None;
        if notes.len() > 0 {
            editor.load_note(notes[0].duplicate());
            selected = Some(notes[0].id.clone());
            proof {
                lemma_note_at(views_of(notes@), 0);
            }
        }
        let mut sidebar = SidebarView::new(duplicate_notes(&notes));
        match &selected {
            Some(id) => sidebar.set_selected(Some(id.clone())),
            None => {},
        }
        AppView { storage, notes, selected_note_id: selected, sidebar, editor }
    }

    /// Handles the create intent.  The caller has already tried to
    /// persist the fresh note; on success it is inserted at the front,
    /// selected, and shown in the editor.  On failure — or for an
    /// identity already present — nothing changes.
    pub fn create_new_note(&mut self, note: Note, saved: bool)
        requires
            old(self).wf(),
            note.wf(),
        ensures
            final(self).wf(),
            final(self).storage == old(self).storage,
            (!saved || has_id(old(self).collection(), note@.id)) ==> *final(self) == *old(self),
            (saved && !has_id(old(self).collection(), note@.id)) ==> {
                &&& final(self).collection() == seq![note@] + old(self).collection()
                &&& opt_id_view(final(self).selected_note_id) == Some(note@.id)
                &&& final(self).editor.spec_current_id() == Some(note@.id)
                &&& (final(self).editor.current_note matches Some(n) && n@ == note@)
                &&& final(self).sidebar.editing_note_id == old(self).sidebar.editing_note_id
            },
    {
        if !saved {
            return ;
        }
        match find_note(&self.notes, &note.id) {
            Some(k) => {
                proof {
                    assert(views_of(self.notes@)[k as int].id == note@.id);
                }
                return ;
            },
            None => {},
        }
        let ghost oldc = self.collection();
        let id = note.id.clone();
        self.editor.load_note(note.duplicate());
        self.notes.insert(0, note);
        let dup = duplicate_notes(&self.notes);
        self.sidebar.update_notes(dup);
        self.sidebar.set_selected(Some(id.clone()));
        self.selected_note_id = Some(id);
        proof {
            assert(self.collection() =~= seq![note@] + oldc);
            assert forall|i: int, j: int|
                0 <= i < j < self.collection().len() implies self.collection()[i].id
                != self.collection()[j].id by {
                if i == 0 {
                    assert(!(0 <= j - 1 < oldc.len() && oldc[j - 1].id == note@.id));
                    assert(self.collection()[j] == oldc[j - 1]);
                }
            }
            lemma_note_at(self.collection(), 0);
        }
    }

    /// Handles the delete intent.  The caller has already removed the
    /// note's file; on success the note leaves the collection, a
    /// selection pointing at it is cleared together with the editor,
    /// and a rename in progress on it is abandoned.  Deleting a
    /// non-selected note leaves selection and editor untouched.
    pub fn delete_note(&mut self, note_id: String, deleted: bool)
        requires
            old(self).wf(),
        ensures
            final(self).wf(),
            final(self).storage == old(self).storage,
            !deleted ==> *final(self) == *old(self),
            deleted ==> {
                &&& final(self).collection() == remove_note_spec(old(self).collection(), note_id@)
                &&& (opt_id_view(old(self).selected_note_id) == Some(note_id@) ==> final(self).selected_note_id is None && final(self).editor.current_note is None)
                &&& (opt_id_view(old(self).selected_note_id) != Some(note_id@) ==> final(self).selected_note_id == old(self).selected_note_id && final(self).editor == old(self).editor)
                &&& (opt_id_view(old(self).sidebar.editing_note_id) == Some(note_id@) ==> final(self).sidebar.editing_note_id is None)
                &&& (opt_id_view(old(self).sidebar.editing_note_id) != Some(note_id@) ==> final(self).sidebar.editing_note_id == old(self).sidebar.editing_note_id)
            },
    {
        if !deleted {
            return ;
        }
        let ghost oldc = self.collection();
        match find_note(&self.notes, &note_id) {
            Some(k) => {
                self.notes.remove(k);
                proof {
                    lemma_note_at(oldc, k as int);
                    lemma_remove_note_found(oldc, note_id@, k as int);
                    assert(self.collection() =~= oldc.subrange(0, k as int) + oldc.subrange(
                        k as int + 1,
                        oldc.len() as int,
                    ));
                    assert forall|i: int, j: int|
                        0 <= i < j < self.collection().len() implies self.collection()[i].id
                        != self.collection()[j].id by {
                        let i0 = if i < k { i } else { i + 1 };
                        let j0 = if j < k { j } else { j + 1 };
                        assert(self.collection()[i] == oldc[i0]);
                        assert(self.collection()[j] == oldc[j0]);
                    }
                }
            },
            None => {
                proof {
                    lemma_remove_note_absent(oldc, note_id@);
                }
            },
        }
        let dup = duplicate_notes(&self.notes);
        self.sidebar.update_notes(dup);
        let clear_sel = match &self.selected_note_id {
            Some(s) => s.eq(&note_id),
            None => false,
        };
        if clear_sel {
            self.selected_note_id = None;
            self.editor.clear();
            self.sidebar.set_selected(None);
        }
        let clear_edit = match &self.sidebar.editing_note_id {
            Some(e) => e.eq(&note_id),
            None => false,
        };
        if clear_edit {
            self.sidebar.set_editing(None);
        }
        proof {
            if !clear_sel {
                match old(self).selected_note_id {
                    Some(sel) => {
                        let i = id_index(oldc, sel@);
                        lemma_note_at(oldc, i);
                        let k0 = if has_id(oldc, note_id@) {
                            id_index(oldc, note_id@)
                        } else {
                            oldc.len() as int
                        };
                        let i2 = if i < k0 {
                            i
                        } else {
                            i - 1
                        };
                        assert(self.collection()[i2] == oldc[i]);
                        lemma_note_at(self.collection(), i2);
                    },
                    None => {},
                }
            }
        }
    }

    /// The note as it will stand after the rename, for the caller to
    /// persist before the in-memory state changes; `None` when the
    /// identity is absent (the rename is then a no-op).
    pub fn renamed_note(&self, note_id: &String, new_title: String, now: Timestamp) -> (r: Option<
        Note,
    >)
        requires
            self.wf(),
            now.wf(),
        ensures
            match r {
                Some(n) => has_id(self.collection(), note_id@) && n.wf() && n@ == note_at(
                    self.collection(),
                    note_id@,
                ).with_title(new_title@, now),
                None => !has_id(self.collection(), note_id@),
            },
    {
        match find_note(&self.notes, note_id) {
            Some(k) => {
                let mut n = self.notes[k].duplicate();
                n.set_title_at(new_title, now);
                proof {
                    lemma_note_at(self.collection(), k as int);
                }
                Some(n)
            },
            None => None,
        }
    }

    /// Handles the rename intent.  The caller has already persisted the
    /// renamed note (see [`AppView::renamed_note`]); only then is the
    /// in-memory title updated and its timestamp refreshed.  A stale
    /// identity or a failed write changes nothing.
    pub fn rename_note(&mut self, note_id: String, new_title: String, now: Timestamp, saved: bool)
        requires
            old(self).wf(),
            now.wf(),
        ensures
            final(self).wf(),
            final(self).storage == old(self).storage,
            !has_id(old(self).collection(), note_id@) ==> *final(self) == *old(self),
            (has_id(old(self).collection(), note_id@) && !saved) ==> *final(self) == *old(self),
            (has_id(old(self).collection(), note_id@) && saved) ==> {
                &&& final(self).collection() == rename_note_spec(
                    old(self).collection(),
                    note_id@,
                    new_title@,
                    now,
                )
                &&& final(self).selected_note_id == old(self).selected_note_id
                &&& final(self).sidebar.editing_note_id is None
                &&& (opt_id_view(old(self).selected_note_id) != Some(note_id@) ==> final(self).editor == old(self).editor)
            },
    {
        let ghost oldc = self.collection();
        let k = match find_note(&self.notes, &note_id) {
            Some(k) => k,
            None => {
                return ;
            },
        };
        proof {
            assert(views_of(self.notes@)[k as int].id == note_id@);
        }
        if !saved {
            return ;
        }
        let mut n = self.notes.remove(k);
        n.set_title_at(new_title, now);
        let refreshed = n.duplicate();
        self.notes.insert(k, n);
        proof {
            lemma_note_at(oldc, k as int);
            assert(self.collection() =~= rename_note_spec(oldc, note_id@, new_title@, now)) by {
                assert forall|i: int| 0 <= i < oldc.len() implies self.collection()[i]
                    == rename_note_spec(oldc, note_id@, new_title@, now)[i] by {
                    if i != k {
                        assert(self.collection()[i] == oldc[i]);
                        assert(oldc[i].id != oldc[k as int].id);
                    }
                }
            }
            assert forall|i: int, j: int|
                0 <= i < j < self.collection().len() implies self.collection()[i].id
                != self.collection()[j].id by {
                assert(self.collection()[i].id == oldc[i].id);
                assert(self.collection()[j].id == oldc[j].id);
            }
        }
        let dup = duplicate_notes(&self.notes);
        self.sidebar.update_notes(dup);
        self.sidebar.set_editing(None);
        let is_sel = match &self.selected_note_id {
            Some(s) => s.eq(&note_id),
            None => false,
        };
        if is_sel {
            self.editor.load_note(refreshed);
        }
        proof {
            match &self.selected_note_id {
                Some(sel) => {
                    let i = id_index(oldc, sel@);
                    lemma_note_at(oldc, i);
                    lemma_note_at(self.collection(), i);
                },
                None => {},
            }
        }
    }

    /// Handles the select intent: a present note becomes the selection
    /// and is shown in the editor; a stale identity changes nothing (in
    /// particular it does not clear the current selection).
    pub fn select_note(&mut self, note_id: String)
        requires
            old(self).wf(),
        ensures
            final(self).wf(),
            final(self).storage == old(self).storage,
            !has_id(old(self).collection(), note_id@) ==> *final(self) == *old(self),
            has_id(old(self).collection(), note_id@) ==> {
                &&& final(self).collection() == old(self).collection()
                &&& opt_id_view(final(self).selected_note_id) == Some(note_id@)
                &&& (final(self).editor.current_note matches Some(n) && n@ == note_at(
                    old(self).collection(),
                    note_id@,
                ))
                &&& final(self).sidebar.editing_note_id == old(self).sidebar.editing_note_id
            },
    {
        let k = match find_note(&self.notes, &note_id) {
            Some(k) => k,
            None => {
                return ;
            },
        };
        proof {
            lemma_note_at(self.collection(), k as int);
        }
        self.editor.load_note(self.notes[k].duplicate());
        self.sidebar.set_selected(Some(note_id.clone()));
        self.selected_note_id = Some(note_id);
    }
}

} // verus!
