//! An identity-keyed note collection kept in step with storage.
//!
//! `NoteList` owns the in-memory notes and a [`Storage`]; every
//! mutation goes through storage first, against the caller's
//! [`DirModel`] mirror of the directory, so memory never claims
//! durability the listing does not have.

use vstd::prelude::*;
use vstd::string::*;

use crate::codec;
use crate::note::{
    dedup_notes, dedup_spec, distinct_ids, find_note, has_id, lemma_note_at,
    lemma_remove_note_absent, lemma_remove_note_found, note_at, remove_note_spec, views_of, Note,
    NoteView,
};
use crate::storage::{delete_spec, save_spec, DirModel, Storage};

verus! {

/// The collection after inserting a note: an existing note with the
/// same identity is replaced, a new one appended.
pub open spec fn upsert_spec(vs: Seq<NoteView>, nv: NoteView) -> Seq<NoteView> {
    if has_id(vs, nv.id) {
        vs.map_values(
            |v: NoteView|
                if v.id == nv.id {
                    nv
                } else {
                    v
                },
        )
    } else {
        vs.push(nv)
    }
}

/// The note collection with its durability sink.
pub struct NoteList {
    pub notes: Vec<Note>,
    pub storage: Storage,
}

impl NoteList {
    /// The abstract collection.
    pub open spec fn collection(self) -> Seq<NoteView> {
        views_of(self.notes@)
    }

    /// Identities are distinct and every note is well-formed.
    pub open spec fn wf(self) -> bool {
        &&& distinct_ids(self.collection())
        &&& forall|i: int| 0 <= i < self.notes@.len() ==> (#[trigger] self.notes@[i])@.wf()
    }

    /// A collection over the loaded notes, keeping the first note of
    /// each identity.
    pub fn new(storage: Storage, loaded: Vec<Note>) -> (l: NoteList)
        requires
            forall|i: int| 0 <= i < loaded@.len() ==> (#[trigger] loaded@[i]).wf(),
        ensures
            l.wf(),
            l.collection() == dedup_spec(views_of(loaded@)),
            l.storage == storage,
    {
        NoteList { notes: dedup_notes(&loaded), storage }
    }

    /// Persists the note's document into the listing, then inserts the
    /// note, replacing any note with the same identity.  Returns the
    /// document text for the caller to write out.
    pub fn add(&mut self, dir: &mut DirModel, note: Note) -> (doc: String)
        requires
            old(self).wf(),
            old(dir).wf(),
            note.wf(),
        ensures
            final(self).wf(),
            final(dir).wf(),
            final(self).collection() == upsert_spec(old(self).collection(), note@),
            final(dir)@ == save_spec(old(dir)@, note@.id + ".json"@, codec::encode_spec(note@)),
            final(self).storage == old(self).storage,
            doc@ == codec::encode_spec(note@),
    {
        let doc = self.storage.save_note(dir, &note);
        let ghost oldc = self.collection();
        let ghost nv = note@;
        match find_note(&self.notes, &note.id) {
            Some(k) => {
                proof {
                    assert(oldc[k as int].id == nv.id);
                    lemma_note_at(oldc, k as int);
                }
                self.notes.remove(k);
                self.notes.insert(k, note);
                proof {
                    let mapped = oldc.map_values(
                        |v: NoteView|
                            if v.id == nv.id {
                                nv
                            } else {
                                v
                            },
                    );
                    assert(self.collection() =~= mapped) by {
                        assert forall|i: int| 0 <= i < self.collection().len() implies self
                            .collection()[i] == mapped[i] by {
                            if i != k {
                                assert(self.collection()[i] == oldc[i]);
                                assert(oldc[i].id != oldc[k as int].id);
                            }
                        }
                    }
                    assert forall|i: int, j: int|
                        0 <= i < j < self.collection().len() implies self.collection()[i].id
                        != self.collection()[j].id by {
                        assert(self.collection()[i].id == oldc[i].id);
                        assert(self.collection()[j].id == oldc[j].id);
                    }
                }
            },
            None => {
                self.notes.push(note);
                proof {
                    assert(self.collection() =~= oldc.push(nv));
                    assert forall|i: int, j: int|
                        0 <= i < j < self.collection().len() implies self.collection()[i].id
                        != self.collection()[j].id by {
                        if j < self.collection().len() - 1 {
                        } else {
                            assert(!(0 <= i < oldc.len() && oldc[i].id == nv.id));
                        }
                    }
                }
            },
        }
        doc
    }

    /// Removes the note's file from the listing and the note from
    /// memory; an absent identity is a no-op in both, never an error.
    pub fn remove(&mut self, dir: &mut DirModel, id: &String)
        requires
            old(self).wf(),
            old(dir).wf(),
        ensures
            final(self).wf(),
            final(dir).wf(),
            final(self).collection() == remove_note_spec(old(self).collection(), id@),
            final(dir)@ == delete_spec(old(dir)@, id@ + ".json"@),
            final(self).storage == old(self).storage,
    {
        self.storage.delete_note(dir, id.as_str());
        let ghost oldc = self.collection();
        match find_note(&self.notes, id) {
            Some(k) => {
                proof {
                    assert(oldc[k as int].id == id@);
                }
                self.notes.remove(k);
                proof {
                    lemma_remove_note_found(oldc, id@, k as int);
                    assert(self.collection() =~= oldc.subrange(0, k as int) + oldc.subrange(
                        k as int + 1,
                        oldc.len() as int,
                    ));
                    assert forall|i: int, j: int|
                        0 <= i < j < self.collection().len() implies self.collection()[i].id
                        != self.collection()[j].id by {
                        let i0 = if i < k {
                            i
                        } else {
                            i + 1
                        };
                        let j0 = if j < k {
                            j
                        } else {
                            j + 1
                        };
                        assert(self.collection()[i] == oldc[i0]);
                        assert(self.collection()[j] == oldc[j0]);
                    }
                }
            },
            None => {
                proof {
                    lemma_remove_note_absent(oldc, id@);
                }
            },
        }
    }

    /// The note with this identity, if present.
    pub fn get(&self, id: &String) -> (r: Option<&Note>)
        requires
            self.wf(),
        ensures
            match r {
                Some(n) => has_id(self.collection(), id@) && n@ == note_at(
                    self.collection(),
                    id@,
                ),
                None => !has_id(self.collection(), id@),
            },
    {
        match find_note(&self.notes, id) {
            Some(k) => {
                proof {
                    lemma_note_at(self.collection(), k as int);
                }
                Some(&self.notes[k])
            },
            None => None,
        }
    }

    /// Every note, in collection order.
    pub fn get_all(&self) -> (r: &Vec<Note>)
        ensures
            r@ == self.notes@,
    {
        &self.notes
    }
}

} // verus!
