//! A vault: the notes found under a root directory, sorted, with the stems
//! that name them and the times they were created.
use vstd::prelude::*;

use crate::path::{
    is_note_path, lemma_path_order_strict_total, path_less, path_order, path_stem, NotePath,
};
use crate::text::{lemma_insert_sorted, sorted_by, trim, trimmed};

verus! {

broadcast use vstd::string::group_string_axioms;

/// A moment in time, in nanoseconds since the Unix epoch (negative before it).
pub type Timestamp = i128;

/// A file that a walk of the vault found: its path relative to the root, and
/// when it was created (or last modified, where the creation time is not
/// known), if either could be read.
pub struct FileEntry {
    pub path: NotePath,
    pub created: Option<Timestamp>,
}

/// A file as the contracts see it.
pub type EntryModel = (Seq<Seq<char>>, Option<Timestamp>);

impl View for FileEntry {
    type V = EntryModel;

    open spec fn view(&self) -> EntryModel {
        (self.path@, self.created)
    }
}

/// The files of a listing, as the contracts see them.
pub open spec fn entry_models(listing: Seq<FileEntry>) -> Seq<EntryModel> {
    listing.map_values(|e: FileEntry| e@)
}

pub open spec fn entry_is_note() -> spec_fn(EntryModel) -> bool {
    |e: EntryModel| is_note_path(e.0)
}

pub open spec fn entry_path() -> spec_fn(EntryModel) -> Seq<Seq<char>> {
    |e: EntryModel| e.0
}

/// The notes of a listing, in listing order.
pub open spec fn notes_of(entries: Seq<EntryModel>) -> Seq<EntryModel> {
    entries.filter(entry_is_note())
}

/// Whether an entry is the file at `p`.
pub open spec fn with_path(p: Seq<Seq<char>>) -> spec_fn(EntryModel) -> bool {
    |e: EntryModel| e.0 == p
}

/// A vault as the contracts see it: its root, and its notes in sorted order,
/// each with its creation time.
pub struct VaultModel {
    pub root: Seq<char>,
    pub entries: Seq<EntryModel>,
}

/// The stems of the vault's notes: the names under which notes exist.
pub open spec fn stem_set(m: VaultModel) -> Set<Seq<char>> {
    Set::new(|s: Seq<char>| exists|i: int| 0 <= i < m.entries.len() && path_stem(#[trigger] m.entries[i].0) == s)
}

/// Whether a link to `page` reaches a note: its text, without surrounding
/// white space, is the stem of one of the vault's notes.
pub open spec fn page_exists(m: VaultModel, page: Seq<char>) -> bool {
    stem_set(m).contains(trimmed(page))
}

/// The creation time recorded for `p` among the first `n` entries: that of
/// the last of them whose path is `p`.
pub open spec fn date_among(entries: Seq<EntryModel>, p: Seq<Seq<char>>, n: int) -> Option<Timestamp>
    decreases n,
{
    if n <= 0 {
        None
    } else if entries[n - 1].0 == p {
        entries[n - 1].1
    } else {
        date_among(entries, p, n - 1)
    }
}

/// The creation time recorded for the note at `p`; `None` for a path that is
/// not one of the vault's notes.
pub open spec fn date_of(m: VaultModel, p: Seq<Seq<char>>) -> Option<Timestamp> {
    date_among(m.entries, p, m.entries.len() as int)
}

/// The notes found under a root directory.
pub struct Vault {
    root: String,
    files: Vec<NotePath>,
    created: Vec<Option<Timestamp>>,
    stems: Vec<String>,
}

impl View for Vault {
    type V = VaultModel;

    closed spec fn view(&self) -> VaultModel {
        VaultModel {
            root: self.root@,
            entries: Seq::new(
                self.files@.len(),
                |i: int| (self.files@[i]@, self.created@[i]),
            ),
        }
    }
}

impl Vault {
    #[verifier::type_invariant]
    closed spec fn well_formed(&self) -> bool {
        &&& self.files@.len() == self.created@.len()
        &&& self.files@.len() == self.stems@.len()
        &&& forall|i: int|
            0 <= i < self.stems@.len() ==> #[trigger] self.stems@[i]@ == path_stem(self.files@[i]@)
    }

    /// The vault of the notes in `listing`, the files that a walk of `root`
    /// found. Hidden files, files under hidden directories and files whose
    /// extension is not `md` are left out; the rest are sorted by path, and
    /// entries for the same path keep their order in the listing.
    pub fn scan(root: String, listing: Vec<FileEntry>) -> (r: Vault)
        ensures
            r@.root == root@,
            sorted_by(r@.entries, entry_path(), path_order()),
            r@.entries.to_multiset() == notes_of(entry_models(listing@)).to_multiset(),
            forall|p: Seq<Seq<char>>|
                #[trigger] r@.entries.filter(with_path(p)) == notes_of(entry_models(listing@)).filter(
                    with_path(p),
                ),
            forall|i: int| 0 <= i < r@.entries.len() ==> is_note_path(#[trigger] r@.entries[i].0),
    {
        broadcast use vstd::seq_lib::group_to_multiset_ensures;
        broadcast use vstd::seq_lib::group_filter_ensures, vstd::seq::Seq::lemma_filter_push;

        let mut files: Vec<NotePath> = Vec::new();
        let mut created: Vec<Option<Timestamp>> = Vec::new();
        let mut stems: Vec<String> = Vec::new();
        let ghost models = entry_models(listing@);
        let ghost key = entry_path();
        let ghost lt = path_order();
        proof {
            lemma_path_order_strict_total();
        }
        let mut i: usize = 0;
        while i < listing.len()
            invariant
                i <= listing.len(),
                models == entry_models(listing@),
                key == entry_path(),
                lt == path_order(),
                crate::text::strict_total(lt),
                files@.len() == created@.len(),
                files@.len() == stems@.len(),
                forall|k: int|
                    0 <= k < stems@.len() ==> #[trigger] stems@[k]@ == path_stem(files@[k]@),
                ({
                    let es = Seq::new(files@.len(), |k: int| (files@[k]@, created@[k]));
                    &&& sorted_by(es, key, lt)
                    &&& es.to_multiset() == notes_of(models.take(i as int)).to_multiset()
                    &&& forall|q: Seq<Seq<char>>|
                        #[trigger] es.filter(with_path(q)) == notes_of(models.take(i as int)).filter(
                            with_path(q),
                        )
                    &&& forall|k: int| 0 <= k < es.len() ==> is_note_path(#[trigger] es[k].0)
                }),
            decreases listing.len() - i,
        {
            let ghost old_es = Seq::new(files@.len(), |k: int| (files@[k]@, created@[k]));
            let e = &listing[i];
            assert(models[i as int] == e@);
            assert(models.take(i + 1) =~= models.take(i as int).push(e@));
            if e.path.is_note() {
                let mut p = files.len();
                while p > 0 && e.path.sorts_before(&files[p - 1])
                    invariant
                        p <= files@.len(),
                        forall|k: int| p <= k < files@.len() ==> path_less(e.path@, #[trigger] files@[k]@),
                    decreases p,
                {
                    p = p - 1;
                }
                let ghost x = e@;
                proof {
                    assert forall|k: int| p <= k < old_es.len() implies lt(key(x), #[trigger] key(old_es[k])) by {
                        assert(old_es[k].0 == files@[k]@);
                    }
                    if p > 0 {
                        assert(old_es[p - 1].0 == files@[p - 1]@);
                    }
                    lemma_insert_sorted(old_es, p as int, x, key, lt);
                }
                let ghost old_files = files@;
                let ghost old_stems = stems@;
                files.insert(p, e.path.duplicate());
                created.insert(p, e.created);
                stems.insert(p, e.path.file_stem());
                proof {
                    let es = Seq::new(files@.len(), |k: int| (files@[k]@, created@[k]));
                    assert(es =~= old_es.insert(p as int, x));
                    assert(entry_is_note()(x));
                    models.take(i as int).lemma_filter_push(x, entry_is_note());
                    assert(notes_of(models.take(i + 1)) == notes_of(models.take(i as int)).push(x));
                    vstd::seq_lib::to_multiset_insert(old_es, p as int, x);
                    assert(es.to_multiset() == old_es.to_multiset().insert(x));
                    vstd::seq_lib::to_multiset_build(notes_of(models.take(i as int)), x);
                    assert(notes_of(models.take(i + 1)).to_multiset() == notes_of(models.take(i as int)).to_multiset().insert(x));
                    assert forall|q: Seq<Seq<char>>|
                        #[trigger] es.filter(with_path(q)) == notes_of(models.take(i + 1)).filter(
                            with_path(q),
                        ) by {
                        if with_path(q)(x) {
                            assert forall|k: int| p <= k < old_es.len() implies !with_path(q)(#[trigger] old_es[k]) by {
                                assert(lt(key(x), key(old_es[k])));
                                assert(path_less(x.0, old_es[k].0));
                                crate::text::lemma_text_order_strict_total();
                                crate::text::lemma_lex_irreflexive(x.0, crate::text::text_order());
                            }
                        }
                        crate::text::lemma_filter_insert(old_es, p as int, x, with_path(q));
                        notes_of(models.take(i as int)).lemma_filter_push(x, with_path(q));
                    }
                    assert forall|k: int| 0 <= k < es.len() implies is_note_path(#[trigger] es[k].0) by {
                        if k < p {
                            assert(es[k] == old_es[k]);
                        } else if k > p {
                            assert(es[k] == old_es[k - 1]);
                        }
                    }
                    assert forall|k: int| 0 <= k < stems@.len() implies #[trigger] stems@[k]@ == path_stem(files@[k]@) by {
                        if k < p {
                        } else if k > p {
                            assert(stems@[k] == old_stems[k - 1]);
                            assert(files@[k] == old_files[k - 1]);
                        }
                    }
                }
            } else {
                proof {
                    let es = Seq::new(files@.len(), |k: int| (files@[k]@, created@[k]));
                    assert(es =~= old_es);
                    assert(!entry_is_note()(e@));
                    models.take(i as int).lemma_filter_push(e@, entry_is_note());
                    assert(notes_of(models.take(i + 1)) == notes_of(models.take(i as int)));
                }
            }
            i = i + 1;
        }
        assert(models.take(listing@.len() as int) =~= models);
        let r = Vault { root, files, created, stems };
        proof {
            assert(r@.entries =~= Seq::new(r.files@.len(), |k: int| (r.files@[k]@, r.created@[k])));
        }
        r
    }

    /// The root directory the notes were found under.
    pub fn root(&self) -> (r: &String)
        ensures
            r@ == self@.root,
    {
        &self.root
    }

    /// The notes, sorted by path.
    pub fn files(&self) -> (r: &[NotePath])
        ensures
            r@.len() == self@.entries.len(),
            forall|i: int| 0 <= i < r@.len() ==> (#[trigger] r@[i])@ == self@.entries[i].0,
    {
        self.files.as_slice()
    }

    /// Whether a link to `page` reaches a note: `page`, without surrounding
    /// white space, is the stem of one of the notes. Case matters.
    pub fn note_exists(&self, page: &str) -> (r: bool)
        ensures
            r == page_exists(self@, page@),
    {
        proof {
            use_type_invariant(self);
        }
        let t = trim(page);
        let mut i: usize = 0;
        while i < self.stems.len()
            invariant
                i <= self.stems@.len(),
                self.stems@.len() == self.files@.len(),
                self.files@.len() == self.created@.len(),
                forall|k: int|
                    0 <= k < self.stems@.len() ==> #[trigger] self.stems@[k]@ == path_stem(
                        self.files@[k]@,
                    ),
                forall|k: int| 0 <= k < i ==> path_stem(self@.entries[k].0) != t@,
                t@ == trimmed(page@),
            decreases self.stems@.len() - i,
        {
            assert(self@.entries[i as int].0 == self.files@[i as int]@);
            assert(self.stems@[i as int]@ == path_stem(self.files@[i as int]@));
            if self.stems[i] == t {
                assert(path_stem(self@.entries[i as int].0) == t@);
                assert(stem_set(self@).contains(t@));
                return true;
            }
            i = i + 1;
        }
        assert(!stem_set(self@).contains(t@));
        false
    }

    /// When the note at `path` was created; `None` where that is not known or
    /// `path` is not one of the notes.
    pub fn date_created(&self, path: &NotePath) -> (r: Option<Timestamp>)
        ensures
            r == date_of(self@, path@),
    {
        proof {
            use_type_invariant(self);
        }
        let mut n = self.files.len();
        let ghost es = self@.entries;
        while n > 0
            invariant
                n <= self.files@.len(),
                self.files@.len() == self.created@.len(),
                es == self@.entries,
                date_of(self@, path@) == date_among(es, path@, n as int),
            decreases n,
        {
            assert(es[n - 1] == (self.files@[n - 1]@, self.created@[n - 1]));
            if self.files[n - 1].same_as(path) {
                return self.created[n - 1];
            }
            n = n - 1;
        }
        None
    }
}

} // verus!
