//! One-file-per-note persistence.
//!
//! `Storage` knows the data directory and the naming rule — each note
//! lives in `<data_dir>/<identity>.json` — and works against a
//! [`DirModel`], the in-memory mirror of the directory listing.  The
//! caller that owns the real directory keeps the two in step: it writes
//! the document text that [`Storage::save_note`] hands back, removes
//! the file that [`Storage::delete_note`] removed from the model, and
//! fills a fresh model from the real listing before
//! [`Storage::load_all_notes`].
//!
//! The contracts are exact over the listing: saving writes the note's
//! document under its file name, loading returns the notes of exactly
//! the decodable `.json` files in listing order (a malformed file is
//! skipped, never an error), and deleting removes the note's file and
//! is idempotent.

use vstd::prelude::*;
use vstd::string::*;

use crate::codec;
use crate::note::{views_of, Note, NoteView};

verus! {

/// One file of the storage directory: its name and its text.
pub struct FileEntry {
    pub name: String,
    pub data: String,
}

/// The abstract value of a [`FileEntry`].
#[verifier::ext_equal]
pub ghost struct FileEntryView {
    pub name: Seq<char>,
    pub data: Seq<char>,
}

impl View for FileEntry {
    type V = FileEntryView;

    open spec fn view(&self) -> FileEntryView {
        FileEntryView { name: self.name@, data: self.data@ }
    }
}

/// No two files share a name.
pub open spec fn distinct_names(files: Seq<FileEntryView>) -> bool {
    forall|i: int, j: int| 0 <= i < j < files.len() ==> files[i].name != files[j].name
}

/// Some file has this name.
pub open spec fn has_file(files: Seq<FileEntryView>, name: Seq<char>) -> bool {
    exists|i: int| 0 <= i < files.len() && files[i].name == name
}

/// The listing after writing `data` under `name`: the existing file is
/// overwritten, or a new one appended.
pub open spec fn save_spec(files: Seq<FileEntryView>, name: Seq<char>, data: Seq<char>) -> Seq<
    FileEntryView,
> {
    if has_file(files, name) {
        files.map_values(
            |e: FileEntryView|
                if e.name == name {
                    FileEntryView { name, data }
                } else {
                    e
                },
        )
    } else {
        files.push(FileEntryView { name, data })
    }
}

/// The listing after deleting `name`; deleting an absent name changes
/// nothing.
pub open spec fn delete_spec(files: Seq<FileEntryView>, name: Seq<char>) -> Seq<FileEntryView>
    decreases files.len(),
{
    if files.len() == 0 {
        Seq::empty()
    } else {
        let rest = delete_spec(files.drop_last(), name);
        if files.last().name == name {
            rest
        } else {
            rest.push(files.last())
        }
    }
}

/// A file name that the loader reads: it ends in `.json`.
pub open spec fn is_json_name(name: Seq<char>) -> bool {
    name.len() >= 5 && name.subrange(name.len() - 5, name.len() as int) == ".json"@
}

/// The text is the document of some well-formed note value.
pub open spec fn decodes(data: Seq<char>, nv: NoteView) -> bool {
    nv.wf() && data == codec::encode_spec(nv)
}

pub open spec fn decodable(data: Seq<char>) -> bool {
    exists|nv: NoteView| #[trigger] decodes(data, nv)
}

/// The note value a decodable text holds (unique, since the encoding
/// is injective).
pub open spec fn decoded_note(data: Seq<char>) -> NoteView {
    choose|nv: NoteView| decodes(data, nv)
}

/// The notes read from a listing: one for each decodable `.json` file,
/// in listing order; every other file is skipped.
pub open spec fn load_spec(files: Seq<FileEntryView>) -> Seq<NoteView>
    decreases files.len(),
{
    if files.len() == 0 {
        Seq::empty()
    } else {
        let rest = load_spec(files.drop_last());
        let e = files.last();
        if is_json_name(e.name) && decodable(e.data) {
            rest.push(decoded_note(e.data))
        } else {
            rest
        }
    }
}

/// The in-memory mirror of the storage directory: its file listing.
pub struct DirModel {
    pub files: Vec<FileEntry>,
}

impl View for DirModel {
    type V = Seq<FileEntryView>;

    open spec fn view(&self) -> Seq<FileEntryView> {
        self.files@.map_values(|e: FileEntry| e@)
    }
}

impl DirModel {
    pub open spec fn wf(self) -> bool {
        distinct_names(self@)
    }

    /// An empty directory.
    pub fn new() -> (d: DirModel)
        ensures
            d.wf(),
            d@ == Seq::<FileEntryView>::empty(),
    {
        let d = DirModel { files: Vec::new() };
        proof {
            assert(d@ =~= Seq::<FileEntryView>::empty());
        }
        d
    }

    /// Appends a file; the caller keeps names distinct.
    pub fn push_file(&mut self, name: String, data: String)
        requires
            old(self).wf(),
            !has_file(old(self)@, name@),
        ensures
            final(self).wf(),
            final(self)@ == old(self)@.push(FileEntryView { name: name@, data: data@ }),
    {
        let ghost oldv = self@;
        let ghost nv = FileEntryView { name: name@, data: data@ };
        self.files.push(FileEntry { name, data });
        proof {
            assert(self@ =~= oldv.push(nv));
            assert forall|i: int, j: int| 0 <= i < j < self@.len() implies self@[i].name
                != self@[j].name by {
                if j < self@.len() - 1 {
                } else {
                    assert(!(0 <= i < oldv.len() && oldv[i].name == nv.name));
                }
            }
        }
    }

    fn find(&self, name: &String) -> (r: Option<usize>)
        ensures
            r matches Some(k) ==> k < self@.len() && self@[k as int].name == name@,
            r is None ==> !has_file(self@, name@),
    {
        let n = self.files.len();
        let mut k: usize = 0;
        while k < n
            invariant
                n == self@.len(),
                k <= n,
                forall|j: int| 0 <= j < k ==> self@[j].name != name@,
            decreases n - k,
        {
            if self.files[k].name.eq(name) {
                return Some(k);
            }
            k = k + 1;
        }
        None
    }
}

/// The persistence manager: knows where note files live and how each
/// operation changes the directory listing.
#[derive(Clone)]
pub struct Storage {
    pub data_dir: String,
}

impl Storage {
    /// A storage rooted at the given data directory (the caller has
    /// already resolved and created it).
    pub fn new(data_dir: String) -> (s: Storage)
        ensures
            s.data_dir@ == data_dir@,
    {
        Storage { data_dir }
    }

    /// The directory that holds the note files.
    pub fn data_dir(&self) -> (r: &String)
        ensures
            r@ == self.data_dir@,
    {
        &self.data_dir
    }

    /// The file name for a note identity.
    pub fn note_file_name(id: &str) -> (r: String)
        ensures
            r@ == id@ + ".json"@,
    {
        String::from_str(id).concat(".json")
    }

    /// The full path of a note's file.
    pub fn note_path(&self, id: &str) -> (r: String)
        ensures
            r@ == self.data_dir@ + "/"@ + id@ + ".json"@,
    {
        self.data_dir.clone().concat("/").concat(id).concat(".json")
    }

    /// Writes the note's document into the listing, overwriting any
    /// file already under its name, and returns the document text for
    /// the caller to persist.
    pub fn save_note(&self, dir: &mut DirModel, note: &Note) -> (doc: String)
        requires
            old(dir).wf(),
            note.wf(),
        ensures
            final(dir).wf(),
            final(dir)@ == save_spec(old(dir)@, note@.id + ".json"@, codec::encode_spec(note@)),
            doc@ == codec::encode_spec(note@),
    {
        let ghost oldv = dir@;
        let name = Self::note_file_name(note.id.as_str());
        let doc = codec::encode_note(note);
        let ghost target = FileEntryView { name: name@, data: doc@ };
        match dir.find(&name) {
            Some(k) => {
                dir.files.remove(k);
                dir.files.insert(k, FileEntry { name, data: doc.clone() });
                proof {
                    assert(has_file(oldv, target.name));
                    let mapped = oldv.map_values(
                        |e: FileEntryView|
                            if e.name == target.name {
                                FileEntryView { name: target.name, data: target.data }
                            } else {
                                e
                            },
                    );
                    assert(dir@ =~= mapped) by {
                        assert forall|i: int| 0 <= i < dir@.len() implies dir@[i] == mapped[i] by {
                            if i != k {
                                assert(oldv[i].name != oldv[k as int].name);
                            }
                        }
                    }
                    assert forall|i: int, j: int| 0 <= i < j < dir@.len() implies dir@[i].name
                        != dir@[j].name by {
                        assert(dir@[i].name == oldv[i].name);
                        assert(dir@[j].name == oldv[j].name);
                    }
                }
            },
            None => {
                dir.files.push(FileEntry { name, data: doc.clone() });
                proof {
                    assert(!has_file(oldv, target.name));
                    assert(dir@ =~= oldv.push(target));
                    assert forall|i: int, j: int| 0 <= i < j < dir@.len() implies dir@[i].name
                        != dir@[j].name by {
                        if j < dir@.len() - 1 {
                        } else {
                            assert(!(0 <= i < oldv.len() && oldv[i].name == target.name));
                        }
                    }
                }
            },
        }
        doc
    }

    /// Reads every note back from the listing: exactly the decodable
    /// `.json` files, in listing order.  A file that fails to parse is
    /// skipped and never aborts the load.
    pub fn load_all_notes(&self, dir: &DirModel) -> (notes: Vec<Note>)
        ensures
            notes@.map_values(|n: Note| n@) == load_spec(dir@),
            forall|i: int| 0 <= i < notes@.len() ==> (#[trigger] notes@[i]).wf(),
    {
        let n = dir.files.len();
        let mut out: Vec<Note> = Vec::new();
        let mut k: usize = 0;
        proof {
            assert(dir@.subrange(0, 0) =~= Seq::<FileEntryView>::empty());
            assert(out@.map_values(|x: Note| x@) =~= load_spec(dir@.subrange(0, 0)));
        }
        while k < n
            invariant
                n == dir@.len(),
                k <= n,
                out@.map_values(|x: Note| x@) == load_spec(dir@.subrange(0, k as int)),
                forall|i: int| 0 <= i < out@.len() ==> (#[trigger] out@[i]).wf(),
            decreases n - k,
        {
            let ghost prefix = dir@.subrange(0, k as int);
            let ghost e = dir@[k as int];
            let entry = &dir.files[k];
            if is_json_name_exec(&entry.name) {
                match codec::decode_note(entry.data.as_str()) {
                    Some(note) => {
                        proof {
                            assert(decodes(e.data, note@));
                            assert(decodable(e.data));
                            crate::codec::lemma_encode_injective(decoded_note(e.data), note@);
                        }
                        out.push(note);
                    },
                    None => {
                        proof {
                            if decodable(e.data) {
                                let nv = decoded_note(e.data);
                                assert(decodes(e.data, nv));
                                assert(false);
                            }
                        }
                    },
                }
            }
            k = k + 1;
            proof {
                let stepped = dir@.subrange(0, k as int);
                assert(stepped.drop_last() =~= prefix);
                assert(stepped.last() == e);
                assert(out@.map_values(|x: Note| x@) =~= load_spec(stepped));
            }
        }
        proof {
            assert(dir@.subrange(0, n as int) =~= dir@);
        }
        out
    }

    /// Removes the note's file from the listing; an absent file is not
    /// an error, and the operation never fails.
    pub fn delete_note(&self, dir: &mut DirModel, id: &str)
        requires
            old(dir).wf(),
        ensures
            final(dir).wf(),
            final(dir)@ == delete_spec(old(dir)@, id@ + ".json"@),
    {
        let ghost oldv = dir@;
        let name = Self::note_file_name(id);
        match dir.find(&name) {
            Some(k) => {
                dir.files.remove(k);
                proof {
                    assert(dir@ =~= oldv.subrange(0, k as int) + oldv.subrange(
                        k as int + 1,
                        oldv.len() as int,
                    ));
                    lemma_delete_spec_found(oldv, name@, k as int);
                    assert forall|i: int, j: int| 0 <= i < j < dir@.len() implies dir@[i].name
                        != dir@[j].name by {
                        let i0 = if i < k { i } else { i + 1 };
                        let j0 = if j < k { j } else { j + 1 };
                        assert(dir@[i] == oldv[i0]);
                        assert(dir@[j] == oldv[j0]);
                    }
                }
            },
            None => {
                proof {
                    lemma_delete_spec_absent(oldv, name@);
                }
            },
        }
    }
}

/// Whether the name ends in `.json`.
fn is_json_name_exec(name: &String) -> (r: bool)
    ensures
        r == is_json_name(name@),
{
    proof {
        reveal_strlit(".json");
    }
    let s = name.as_str();
    let n = s.unicode_len();
    if n < 5 {
        return false;
    }
    let ok = s.get_char(n - 5) == '.' && s.get_char(n - 4) == 'j' && s.get_char(n - 3) == 's'
        && s.get_char(n - 2) == 'o' && s.get_char(n - 1) == 'n';
    proof {
        let tail = name@.subrange(name@.len() - 5, name@.len() as int);
        if ok {
            assert(tail =~= ".json"@);
        } else {
            if tail == ".json"@ {
                assert(tail[0] == '.' && tail[1] == 'j' && tail[2] == 's' && tail[3] == 'o'
                    && tail[4] == 'n');
            }
        }
    }
    ok
}

/// Reorders notes most-recently-updated first: a presentation
/// convenience for the sidebar.  The result holds exactly the same
/// notes.
pub fn sort_notes_by_updated_desc(notes: Vec<Note>) -> (r: Vec<Note>)
    ensures
        views_of(r@).to_multiset() == views_of(notes@).to_multiset(),
        forall|i: int, j: int|
            0 <= i < j < r@.len() ==> (#[trigger] r@[j])@.updated_at.spec_le(
                (#[trigger] r@[i])@.updated_at,
            ),
        (forall|i: int| 0 <= i < notes@.len() ==> (#[trigger] notes@[i])@.wf()) ==> (forall|i: int|
            0 <= i < r@.len() ==> (#[trigger] r@[i])@.wf()),
{
    broadcast use vstd::seq_lib::group_to_multiset_ensures;

    let ghost orig = views_of(notes@);
    let ghost all_wf = forall|i: int| 0 <= i < orig.len() ==> (#[trigger] orig[i]).wf();
    let mut rest = notes;
    let mut out: Vec<Note> = Vec::new();
    proof {
        assert(views_of(out@) =~= Seq::<NoteView>::empty());
        assert(views_of(out@).to_multiset().add(views_of(rest@).to_multiset())
            =~= orig.to_multiset());
        if all_wf {
            assert forall|i: int| 0 <= i < rest@.len() implies (#[trigger] rest@[i])@.wf() by {
                assert(orig[i] == rest@[i]@);
            }
        }
    }
    while rest.len() > 0
        invariant
            views_of(out@).to_multiset().add(views_of(rest@).to_multiset())
                == orig.to_multiset(),
            forall|i: int, j: int|
                0 <= i < j < out@.len() ==> (#[trigger] out@[j])@.updated_at.spec_le(
                    (#[trigger] out@[i])@.updated_at,
                ),
            forall|i: int, j: int|
                0 <= i < out@.len() && 0 <= j < rest@.len() ==> (#[trigger] rest@[j])@.updated_at
                    .spec_le((#[trigger] out@[i])@.updated_at),
            all_wf ==> (forall|i: int| 0 <= i < out@.len() ==> (#[trigger] out@[i])@.wf()),
            all_wf ==> (forall|i: int| 0 <= i < rest@.len() ==> (#[trigger] rest@[i])@.wf()),
            all_wf == (forall|i: int| 0 <= i < orig.len() ==> (#[trigger] orig[i]).wf()),
        decreases rest@.len(),
    {
        let n = rest.len();
        let mut best: usize = 0;
        let mut k: usize = 1;
        while k < n
            invariant
                n == rest@.len(),
                best < k <= n,
                forall|m: int|
                    0 <= m < k ==> (#[trigger] rest@[m])@.updated_at.spec_le(
                        rest@[best as int]@.updated_at,
                    ),
            decreases n - k,
        {
            proof {
                crate::timestamp::lemma_le_total(
                    rest@[k as int]@.updated_at,
                    rest@[best as int]@.updated_at,
                );
            }
            if !rest[k].updated_at.le(&rest[best].updated_at) {
                proof {
                    assert forall|m: int|
                        0 <= m < k + 1 implies (#[trigger] rest@[m])@.updated_at.spec_le(
                        rest@[k as int]@.updated_at,
                    ) by {
                        crate::timestamp::lemma_le_refl(rest@[k as int]@.updated_at);
                        if m < k {
                            crate::timestamp::lemma_le_trans(
                                rest@[m]@.updated_at,
                                rest@[best as int]@.updated_at,
                                rest@[k as int]@.updated_at,
                            );
                        }
                    }
                }
                best = k;
            } else {
                proof {
                    crate::timestamp::lemma_le_refl(rest@[k as int]@.updated_at);
                }
            }
            k = k + 1;
        }
        proof {
            crate::timestamp::lemma_le_refl(rest@[0int]@.updated_at);
        }
        let ghost old_out = views_of(out@);
        let ghost old_rest = views_of(rest@);
        let ghost picked = rest@[best as int]@;
        let chosen = rest.remove(best);
        out.push(chosen);
        proof {
            old_out.to_multiset_ensures();
            old_rest.to_multiset_ensures();
            assert(views_of(rest@) =~= old_rest.remove(best as int));
            assert(views_of(out@) =~= old_out.push(picked));
            assert(old_out.push(picked).to_multiset() =~= old_out.to_multiset().insert(picked));
            assert(old_rest.remove(best as int).to_multiset() =~= old_rest.to_multiset().remove(
                old_rest[best as int],
            ));
            assert(old_rest.to_multiset().count(picked) > 0) by {
                assert(old_rest[best as int] == picked);
                assert(old_rest.contains(picked));
            }
            assert(views_of(out@).to_multiset().add(views_of(rest@).to_multiset()) =~= orig
                .to_multiset());
            assert forall|i: int, j: int|
                0 <= i < out@.len() && 0 <= j < rest@.len() implies (#[trigger] rest@[j])@.updated_at.spec_le(
                (#[trigger] out@[i])@.updated_at,
            ) by {
                let j0 = if j < best {
                    j
                } else {
                    j + 1
                };
                assert(views_of(rest@)[j] == old_rest[j0]);
                if i < out@.len() - 1 {
                    crate::timestamp::lemma_le_trans(
                        rest@[j]@.updated_at,
                        picked.updated_at,
                        out@[i]@.updated_at,
                    );
                }
            }
        }
    }
    out
}

/// Deleting a name that is absent leaves the listing unchanged.
pub proof fn lemma_delete_spec_absent(files: Seq<FileEntryView>, name: Seq<char>)
    requires
        !has_file(files, name),
    ensures
        delete_spec(files, name) == files,
    decreases files.len(),
{
    if files.len() == 0 {
        assert(delete_spec(files, name) =~= files);
    } else {
        assert(!has_file(files.drop_last(), name)) by {
            if has_file(files.drop_last(), name) {
                let i = choose|i: int|
                    0 <= i < files.drop_last().len() && files.drop_last()[i].name == name;
                assert(files[i].name == name);
            }
        }
        lemma_delete_spec_absent(files.drop_last(), name);
        assert(files.last().name != name) by {
            assert(files[files.len() - 1] == files.last());
        }
        assert(delete_spec(files, name) =~= files);
    }
}

/// With distinct names, deleting removes exactly the one matching file.
pub proof fn lemma_delete_spec_found(files: Seq<FileEntryView>, name: Seq<char>, k: int)
    requires
        distinct_names(files),
        0 <= k < files.len(),
        files[k].name == name,
    ensures
        delete_spec(files, name) == files.subrange(0, k) + files.subrange(
            k + 1,
            files.len() as int,
        ),
    decreases files.len(),
{
    let rest = delete_spec(files.drop_last(), name);
    if k == files.len() - 1 {
        assert(files.last().name == name);
        assert(!has_file(files.drop_last(), name)) by {
            if has_file(files.drop_last(), name) {
                let i = choose|i: int|
                    0 <= i < files.drop_last().len() && files.drop_last()[i].name == name;
                assert(files[i].name == files[k].name);
            }
        }
        lemma_delete_spec_absent(files.drop_last(), name);
        assert(delete_spec(files, name) =~= files.subrange(0, k) + files.subrange(
            k + 1,
            files.len() as int,
        ));
    } else {
        assert(files.last().name != name) by {
            assert(files[files.len() - 1] == files.last());
            assert(files[k].name != files[files.len() - 1].name);
        }
        assert(distinct_names(files.drop_last())) by {
            assert forall|i: int, j: int|
                0 <= i < j < files.drop_last().len() implies files.drop_last()[i].name
                != files.drop_last()[j].name by {
                assert(files[i].name != files[j].name);
            }
        }
        assert(files.drop_last()[k] == files[k]);
        lemma_delete_spec_found(files.drop_last(), name, k);
        assert(delete_spec(files, name) =~= files.subrange(0, k) + files.subrange(
            k + 1,
            files.len() as int,
        ));
    }
}

/// Deleting twice is the same as deleting once: the second delete finds
/// nothing left to remove.
pub proof fn lemma_delete_idempotent(files: Seq<FileEntryView>, name: Seq<char>)
    ensures
        delete_spec(delete_spec(files, name), name) == delete_spec(files, name),
    decreases files.len(),
{
    lemma_delete_spec_no_name(files, name);
    lemma_delete_spec_absent(delete_spec(files, name), name);
}

/// After a delete, no file of that name remains.
pub proof fn lemma_delete_spec_no_name(files: Seq<FileEntryView>, name: Seq<char>)
    ensures
        !has_file(delete_spec(files, name), name),
    decreases files.len(),
{
    if files.len() > 0 {
        lemma_delete_spec_no_name(files.drop_last(), name);
        let rest = delete_spec(files.drop_last(), name);
        let whole = delete_spec(files, name);
        if has_file(whole, name) {
            let i = choose|i: int| 0 <= i < whole.len() && whole[i].name == name;
            if files.last().name == name {
                assert(whole == rest);
                assert(rest[i].name == name);
            } else {
                assert(whole == rest.push(files.last()));
                if i < rest.len() {
                    assert(rest[i].name == name);
                } else {
                    assert(whole[i] == files.last());
                }
            }
        }
    }
}

/// A decodable `.json` file shows up in the loaded notes.
pub proof fn lemma_load_contains(files: Seq<FileEntryView>, i: int)
    requires
        0 <= i < files.len(),
        is_json_name(files[i].name),
        decodable(files[i].data),
    ensures
        exists|j: int|
            0 <= j < load_spec(files).len() && load_spec(files)[j] == decoded_note(files[i].data),
    decreases files.len(),
{
    let rest = load_spec(files.drop_last());
    let whole = load_spec(files);
    if i == files.len() - 1 {
        assert(files.last() == files[i]);
        assert(whole == rest.push(decoded_note(files[i].data)));
        assert(whole[rest.len() as int] == decoded_note(files[i].data));
    } else {
        assert(files.drop_last()[i] == files[i]);
        lemma_load_contains(files.drop_last(), i);
        let j = choose|j: int| 0 <= j < rest.len() && rest[j] == decoded_note(files[i].data);
        assert(whole[j] == rest[j]) by {
            if is_json_name(files.last().name) && decodable(files.last().data) {
                assert(whole == rest.push(decoded_note(files.last().data)));
            } else {
                assert(whole == rest);
            }
        }
    }
}

/// Round trip: after saving a note, loading the directory yields a note
/// equal to it in every field.
pub proof fn lemma_save_then_load(files: Seq<FileEntryView>, nv: NoteView)
    requires
        nv.wf(),
    ensures
        ({
            let saved = save_spec(files, nv.id + ".json"@, codec::encode_spec(nv));
            exists|j: int| 0 <= j < load_spec(saved).len() && load_spec(saved)[j] == nv
        }),
{
    let name = nv.id + ".json"@;
    let data = codec::encode_spec(nv);
    let saved = save_spec(files, name, data);
    assert(is_json_name(name)) by {
        reveal_strlit(".json");
        assert(name.subrange(name.len() - 5, name.len() as int) =~= ".json"@);
    }
    assert(decodes(data, nv));
    assert(decodable(data));
    assert(decoded_note(data) == nv) by {
        let other = decoded_note(data);
        assert(decodes(data, other));
        codec::lemma_encode_injective(other, nv);
    }
    if has_file(files, name) {
        let k = choose|k: int| 0 <= k < files.len() && files[k].name == name;
        assert(saved[k] == FileEntryView { name, data });
        lemma_load_contains(saved, k);
    } else {
        assert(saved[files.len() as int] == FileEntryView { name, data });
        lemma_load_contains(saved, files.len() as int);
    }
}

} // verus!
