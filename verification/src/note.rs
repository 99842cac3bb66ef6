//! The note entity: identity, title, content and the two timestamps,
//! together with the derived preview string and the formatted time.
//!
//! Fresh identities come from the `uuid` crate through a trusted
//! wrapper; the current time comes from [`Timestamp::now`].  Everything
//! else here is verified: every mutation refreshes `updated_at` while
//! keeping the invariant `created_at <= updated_at`.

use vstd::prelude::*;
use vstd::string::*;

use crate::timestamp::Timestamp;

verus! {

/// The abstract value of a [`Note`]: its fields, with strings viewed
/// as character sequences.
#[verifier::ext_equal]
pub ghost struct NoteView {
    pub id: Seq<char>,
    pub title: Seq<char>,
    pub content: Seq<char>,
    pub created_at: Timestamp,
    pub updated_at: Timestamp,
}

impl NoteView {
    pub open spec fn wf(self) -> bool {
        &&& self.created_at.wf()
        &&& self.updated_at.wf()
        &&& self.created_at.spec_le(self.updated_at)
    }

    /// The view after replacing the title at instant `now`.
    pub open spec fn with_title(self, title: Seq<char>, now: Timestamp) -> NoteView {
        NoteView {
            title,
            updated_at: Timestamp::spec_later(now, self.created_at),
            ..self
        }
    }

    /// The view after replacing the content at instant `now`.
    pub open spec fn with_content(self, content: Seq<char>, now: Timestamp) -> NoteView {
        NoteView {
            content,
            updated_at: Timestamp::spec_later(now, self.created_at),
            ..self
        }
    }
}

/// One note: an opaque unique identity, free-text title and content,
/// and the creation and last-update instants.
#[derive(Clone, Debug)]
pub struct Note {
    pub id: String,
    pub title: String,
    pub content: String,
    pub created_at: Timestamp,
    pub updated_at: Timestamp,
}

impl View for Note {
    type V = NoteView;

    open spec fn view(&self) -> NoteView {
        NoteView {
            id: self.id@,
            title: self.title@,
            content: self.content@,
            created_at: self.created_at,
            updated_at: self.updated_at,
        }
    }
}

impl Note {
    /// Timestamps are in range and the note was not updated before it
    /// was created.
    pub open spec fn wf(self) -> bool {
        self@.wf()
    }

    /// A fresh note: generated identity, default title, empty content,
    /// created and updated at the current instant.
    pub fn new() -> (n: Note)
        ensures
            n.wf(),
            n@.title == "Untitled"@,
            n@.content == Seq::<char>::empty(),
            n@.created_at == n@.updated_at,
            n@.id.len() == 36,
    {
        let now = Timestamp::now();
        proof {
            crate::timestamp::lemma_le_refl(now);
        }
        Note {
            id: fresh_note_id(),
            title: String::from_str("Untitled"),
            content: String::new(),
            created_at: now,
            updated_at: now,
        }
    }

    /// Rebuilds a note from stored fields.
    pub fn from_data(
        id: String,
        title: String,
        content: String,
        created_at: Timestamp,
        updated_at: Timestamp,
    ) -> (n: Note)
        requires
            created_at.wf(),
            updated_at.wf(),
            created_at.spec_le(updated_at),
        ensures
            n.wf(),
            n@ == (NoteView {
                id: id@,
                title: title@,
                content: content@,
                created_at,
                updated_at,
            }),
    {
        Note { id, title, content, created_at, updated_at }
    }

    /// Replaces the content and refreshes `updated_at` to the given
    /// instant (never moving it before `created_at`).
    pub fn set_content_at(&mut self, new_content: String, now: Timestamp)
        requires
            old(self).wf(),
            now.wf(),
        ensures
            final(self).wf(),
            final(self)@ == old(self)@.with_content(new_content@, now),
    {
        self.content = new_content;
        self.updated_at = now.later(&self.created_at);
    }

    /// Replaces the title and refreshes `updated_at` to the given
    /// instant (never moving it before `created_at`).
    pub fn set_title_at(&mut self, new_title: String, now: Timestamp)
        requires
            old(self).wf(),
            now.wf(),
        ensures
            final(self).wf(),
            final(self)@ == old(self)@.with_title(new_title@, now),
    {
        self.title = new_title;
        self.updated_at = now.later(&self.created_at);
    }

    /// Replaces the content and refreshes `updated_at` to the current
    /// time.
    pub fn update_content(&mut self, new_content: String)
        requires
            old(self).wf(),
        ensures
            final(self).wf(),
            exists|now: Timestamp|
                now.wf() && final(self)@ == old(self)@.with_content(new_content@, now),
    {
        let now = Timestamp::now();
        self.set_content_at(new_content, now);
    }

    /// Replaces the title and refreshes `updated_at` to the current
    /// time.
    pub fn update_title(&mut self, new_title: String)
        requires
            old(self).wf(),
        ensures
            final(self).wf(),
            exists|now: Timestamp|
                now.wf() && final(self)@ == old(self)@.with_title(new_title@, now),
    {
        let now = Timestamp::now();
        self.set_title_at(new_title, now);
    }

    /// A short snippet for the sidebar: the first 50 characters of the
    /// content, an ellipsis marker appended when the content is longer,
    /// and a fixed placeholder when the content is empty.
    pub fn preview(&self) -> (r: String)
        ensures
            self@.content.len() == 0 ==> r@ == "no content"@,
            0 < self@.content.len() <= 50 ==> r@ == self@.content,
            self@.content.len() > 50 ==> r@ == self@.content.subrange(0, 50) + "..."@,
    {
        let n = self.content.as_str().unicode_len();
        if n == 0 {
            String::from_str("no content")
        } else if n <= 50 {
            self.content.clone()
        } else {
            let head = self.content.as_str().substring_char(0, 50);
            String::from_str(head).concat("...")
        }
    }

    /// A copy with the same value in every field (unlike `clone`, the
    /// contract says so).
    pub fn duplicate(&self) -> (n: Note)
        ensures
            n@ == self@,
    {
        let n = Note {
            id: self.id.clone(),
            title: self.title.clone(),
            content: self.content.clone(),
            created_at: self.created_at,
            updated_at: self.updated_at,
        };
        proof {
            assert(n@ =~= self@);
        }
        n
    }

    /// The last-update instant rendered as `YYYY-MM-DD HH:MM`.
    pub fn formatted_time(&self) -> (r: String)
        requires
            self.wf(),
        ensures
            r@ == crate::codec::minute_chars(self@.updated_at),
    {
        crate::codec::render_minute_time(&self.updated_at)
    }
}

impl Default for Note {
    /// A fresh note, exactly as [`Note::new`] builds it.
    fn default() -> (n: Note)
        ensures
            n.wf(),
            n@.title == "Untitled"@,
            n@.content == Seq::<char>::empty(),
            n@.created_at == n@.updated_at,
    {
        Note::new()
    }
}

/// A copy of a note vector, value-equal note by note.
pub fn duplicate_notes(notes: &Vec<Note>) -> (r: Vec<Note>)
    ensures
        views_of(r@) == views_of(notes@),
{
    let n = notes.len();
    let mut out: Vec<Note> = Vec::new();
    let mut i: usize = 0;
    while i < n
        invariant
            n == notes@.len(),
            i <= n,
            out@.len() == i,
            forall|j: int| 0 <= j < i ==> (#[trigger] out@[j])@ == notes@[j]@,
        decreases n - i,
    {
        out.push(notes[i].duplicate());
        i = i + 1;
    }
    proof {
        assert(views_of(out@) =~= views_of(notes@));
    }
    out
}

/// The abstract values of a sequence of notes.
pub open spec fn views_of(notes: Seq<Note>) -> Seq<NoteView> {
    notes.map_values(|n: Note| n@)
}

/// No two notes share an identity.
pub open spec fn distinct_ids(vs: Seq<NoteView>) -> bool {
    forall|i: int, j: int| 0 <= i < j < vs.len() ==> vs[i].id != vs[j].id
}

/// Some note has this identity.
pub open spec fn has_id(vs: Seq<NoteView>, id: Seq<char>) -> bool {
    exists|i: int| 0 <= i < vs.len() && vs[i].id == id
}

/// The position of the note with this identity (unique when ids are
/// distinct).
pub open spec fn id_index(vs: Seq<NoteView>, id: Seq<char>) -> int {
    choose|i: int| 0 <= i < vs.len() && vs[i].id == id
}

/// The note with this identity.
pub open spec fn note_at(vs: Seq<NoteView>, id: Seq<char>) -> NoteView {
    vs[id_index(vs, id)]
}

/// The collection after removing the note with this identity (no
/// change when it is absent).
pub open spec fn remove_note_spec(vs: Seq<NoteView>, id: Seq<char>) -> Seq<NoteView>
    decreases vs.len(),
{
    if vs.len() == 0 {
        Seq::empty()
    } else {
        let rest = remove_note_spec(vs.drop_last(), id);
        if vs.last().id == id {
            rest
        } else {
            rest.push(vs.last())
        }
    }
}

/// The collection after renaming the note with this identity at
/// instant `now`.
pub open spec fn rename_note_spec(
    vs: Seq<NoteView>,
    id: Seq<char>,
    title: Seq<char>,
    now: Timestamp,
) -> Seq<NoteView> {
    vs.map_values(
        |v: NoteView|
            if v.id == id {
                v.with_title(title, now)
            } else {
                v
            },
    )
}

/// The collection keeping only the first note of each identity.
pub open spec fn dedup_spec(vs: Seq<NoteView>) -> Seq<NoteView>
    decreases vs.len(),
{
    if vs.len() == 0 {
        Seq::empty()
    } else {
        let rest = dedup_spec(vs.drop_last());
        if has_id(rest, vs.last().id) {
            rest
        } else {
            rest.push(vs.last())
        }
    }
}

/// Removing an absent identity changes nothing.
pub proof fn lemma_remove_note_absent(vs: Seq<NoteView>, id: Seq<char>)
    requires
        !has_id(vs, id),
    ensures
        remove_note_spec(vs, id) == vs,
    decreases vs.len(),
{
    if vs.len() > 0 {
        assert(!has_id(vs.drop_last(), id)) by {
            if has_id(vs.drop_last(), id) {
                let i = choose|i: int|
                    0 <= i < vs.drop_last().len() && vs.drop_last()[i].id == id;
                assert(vs[i].id == id);
            }
        }
        lemma_remove_note_absent(vs.drop_last(), id);
        assert(vs.last().id != id) by {
            assert(vs[vs.len() - 1] == vs.last());
        }
        assert(remove_note_spec(vs, id) =~= vs);
    } else {
        assert(remove_note_spec(vs, id) =~= vs);
    }
}

/// With distinct identities, removing takes out exactly the one match.
pub proof fn lemma_remove_note_found(vs: Seq<NoteView>, id: Seq<char>, k: int)
    requires
        distinct_ids(vs),
        0 <= k < vs.len(),
        vs[k].id == id,
    ensures
        remove_note_spec(vs, id) == vs.subrange(0, k) + vs.subrange(k + 1, vs.len() as int),
    decreases vs.len(),
{
    if k == vs.len() - 1 {
        assert(vs.last().id == id);
        assert(!has_id(vs.drop_last(), id)) by {
            if has_id(vs.drop_last(), id) {
                let i = choose|i: int|
                    0 <= i < vs.drop_last().len() && vs.drop_last()[i].id == id;
                assert(vs[i].id == vs[k].id);
            }
        }
        lemma_remove_note_absent(vs.drop_last(), id);
        assert(remove_note_spec(vs, id) =~= vs.subrange(0, k) + vs.subrange(
            k + 1,
            vs.len() as int,
        ));
    } else {
        assert(vs.last().id != id) by {
            assert(vs[vs.len() - 1] == vs.last());
            assert(vs[k].id != vs[vs.len() - 1].id);
        }
        assert(distinct_ids(vs.drop_last())) by {
            assert forall|i: int, j: int|
                0 <= i < j < vs.drop_last().len() implies vs.drop_last()[i].id
                != vs.drop_last()[j].id by {
                assert(vs[i].id != vs[j].id);
            }
        }
        assert(vs.drop_last()[k] == vs[k]);
        lemma_remove_note_found(vs.drop_last(), id, k);
        assert(remove_note_spec(vs, id) =~= vs.subrange(0, k) + vs.subrange(
            k + 1,
            vs.len() as int,
        ));
    }
}

/// A copy of the notes keeping only the first of each identity.
pub fn dedup_notes(loaded: &Vec<Note>) -> (r: Vec<Note>)
    requires
        forall|i: int| 0 <= i < loaded@.len() ==> (#[trigger] loaded@[i]).wf(),
    ensures
        views_of(r@) == dedup_spec(views_of(loaded@)),
        distinct_ids(views_of(r@)),
        forall|i: int| 0 <= i < r@.len() ==> (#[trigger] r@[i]).wf(),
{
    let n = loaded.len();
    let mut notes: Vec<Note> = Vec::new();
    let mut k: usize = 0;
    proof {
        assert(views_of(loaded@.subrange(0, 0)) =~= Seq::<NoteView>::empty());
        assert(views_of(notes@) =~= dedup_spec(views_of(loaded@.subrange(0, 0))));
    }
    while k < n
        invariant
            n == loaded@.len(),
            k <= n,
            forall|i: int| 0 <= i < loaded@.len() ==> (#[trigger] loaded@[i]).wf(),
            views_of(notes@) == dedup_spec(views_of(loaded@.subrange(0, k as int))),
            distinct_ids(views_of(notes@)),
            forall|i: int| 0 <= i < notes@.len() ==> (#[trigger] notes@[i])@.wf(),
        decreases n - k,
    {
        let ghost prefix = views_of(loaded@.subrange(0, k as int));
        let ghost cur = loaded@[k as int]@;
        match find_note(&notes, &loaded[k].id) {
            Some(i) => {
                proof {
                    assert(views_of(notes@)[i as int].id == cur.id);
                    assert(has_id(dedup_spec(prefix), cur.id));
                }
            },
            None => {
                let ghost before = views_of(notes@);
                notes.push(loaded[k].duplicate());
                proof {
                    assert(views_of(notes@) =~= before.push(cur));
                    assert forall|i: int, j: int|
                        0 <= i < j < views_of(notes@).len() implies views_of(notes@)[i].id
                        != views_of(notes@)[j].id by {
                        if j < views_of(notes@).len() - 1 {
                        } else {
                            assert(!(0 <= i < before.len() && before[i].id == cur.id));
                        }
                    }
                }
            },
        }
        k = k + 1;
        proof {
            let stepped = views_of(loaded@.subrange(0, k as int));
            assert(stepped.drop_last() =~= prefix);
            assert(stepped.last() == cur);
            assert(views_of(notes@) =~= dedup_spec(stepped));
        }
    }
    proof {
        assert(loaded@.subrange(0, n as int) =~= loaded@);
    }
    notes
}

/// With distinct identities, looking a note up by its own identity
/// finds exactly it.
pub proof fn lemma_note_at(vs: Seq<NoteView>, i: int)
    requires
        distinct_ids(vs),
        0 <= i < vs.len(),
    ensures
        has_id(vs, vs[i].id),
        id_index(vs, vs[i].id) == i,
        note_at(vs, vs[i].id) == vs[i],
{
    assert(has_id(vs, vs[i].id));
    let j = id_index(vs, vs[i].id);
    assert(0 <= j < vs.len() && vs[j].id == vs[i].id);
    if j != i {
        assert(false);
    }
}

/// The position of the note with this identity, or `None`.
pub fn find_note(notes: &Vec<Note>, id: &String) -> (r: Option<usize>)
    ensures
        r matches Some(k) ==> k < notes@.len() && notes@[k as int]@.id == id@,
        r is None ==> !has_id(views_of(notes@), id@),
{
    let n = notes.len();
    let mut k: usize = 0;
    while k < n
        invariant
            n == notes@.len(),
            k <= n,
            forall|j: int| 0 <= j < k ==> (#[trigger] notes@[j])@.id != id@,
        decreases n - k,
    {
        if notes[k].id.eq(id) {
            return Some(k);
        }
        k = k + 1;
    }
    proof {
        if has_id(views_of(notes@), id@) {
            let i = choose|i: int|
                0 <= i < views_of(notes@).len() && views_of(notes@)[i].id == id@;
            assert(notes@[i]@.id == id@);
        }
    }
    None
}

/// The identity an optional selection refers to.
pub open spec fn opt_id_view(o: Option<String>) -> Option<Seq<char>> {
    match o {
        Some(s) => Some(s@),
        None => None,
    }
}

/// Relies on `uuid::Uuid::new_v4` and its `Display` impl: the identity
/// is rendered in the hyphenated form, which is 36 characters long.
#[verifier::external_body]
fn fresh_note_id() -> (r: String)
    ensures
        r@.len() == 36,
{
    uuid::Uuid::new_v4().to_string()
}

} // verus!
