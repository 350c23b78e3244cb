//! The storage manager. Its state — whether the storage root exists, the
//! regular files in it, and the metadata document — is held explicitly, so
//! each operation is a function of the state it is given rather than of
//! ambient process state. The unverified shell around the library binds
//! this state to a real directory; the decisions all happen here.
//!
//! The metadata index is not a field of its own: it is whatever the
//! metadata document currently says, read leniently (an absent or
//! ill-formed document reads as the empty index), exactly as a fresh
//! process would read it back from disk.

use vstd::prelude::*;
use crate::codec::{
    lemma_parse_render_doc, lenient_recs, parse_index_lenient, render_doc, render_index,
};
use crate::meta::{recs_of, FileMeta, RecV, StorageError};
use crate::naming::{candidate_of, chosen_name, get_file_name, names_of};
use crate::strings::str_eq;
use vstd::pervasive::VecAdditionalExecFns;

verus! {

/// One regular file: its name and its bytes. Stands both for a file in
/// the storage root and for a file in a download destination.
pub struct DiskFile {
    pub name: String,
    pub content: Vec<u8>,
}

/// Mathematical value of a file.
#[verifier::ext_equal]
pub ghost struct DiskFileV {
    pub name: Seq<char>,
    pub bytes: Seq<u8>,
}

impl View for DiskFile {
    type V = DiskFileV;

    open spec fn view(&self) -> DiskFileV {
        DiskFileV { name: self.name@, bytes: self.content@ }
    }
}

/// The file values of a sequence of files.
pub open spec fn files_of(fs: Seq<DiskFile>) -> Seq<DiskFileV> {
    fs.map_values(|f: DiskFile| f@)
}

/// The names of a sequence of file values.
pub open spec fn disk_names(fs: Seq<DiskFileV>) -> Seq<Seq<char>> {
    fs.map_values(|f: DiskFileV| f.name)
}

/// A source file offered for upload: the file-name component of its path,
/// absent when the path has none, and its bytes.
pub struct SourceFile {
    pub name: Option<String>,
    pub content: Vec<u8>,
}

/// Mathematical value of a source file.
#[verifier::ext_equal]
pub ghost struct SourceFileV {
    pub name: Option<Seq<char>>,
    pub bytes: Seq<u8>,
}

impl View for SourceFile {
    type V = SourceFileV;

    open spec fn view(&self) -> SourceFileV {
        SourceFileV {
            name: match self.name {
                Some(n) => Some(n@),
                None => None,
            },
            bytes: self.content@,
        }
    }
}

/// A download destination: whether the path is an existing directory, and
/// the files in it.
pub struct DestDir {
    pub is_dir: bool,
    pub entries: Vec<DiskFile>,
}

/// Mathematical value of a destination.
#[verifier::ext_equal]
pub ghost struct DestDirV {
    pub is_dir: bool,
    pub entries: Seq<DiskFileV>,
}

impl View for DestDir {
    type V = DestDirV;

    open spec fn view(&self) -> DestDirV {
        DestDirV { is_dir: self.is_dir, entries: files_of(self.entries@) }
    }
}

// ---------------------------------------------------------------------------
// Finding an element by a predicate.
// ---------------------------------------------------------------------------
/// The first position satisfying `p`, or `-1`.
pub open spec fn find_index<T>(s: Seq<T>, p: spec_fn(T) -> bool) -> int
    decreases s.len(),
{
    if s.len() == 0 {
        -1
    } else if p(s[0]) {
        0
    } else if find_index(s.skip(1), p) == -1 {
        -1
    } else {
        find_index(s.skip(1), p) + 1
    }
}

/// What `find_index` returns: the first position satisfying `p`, and `-1`
/// exactly when no position does.
pub proof fn lemma_find_index_props<T>(s: Seq<T>, p: spec_fn(T) -> bool)
    ensures
        find_index(s, p) == -1 ==> forall|k: int| 0 <= k < s.len() ==> !p(#[trigger] s[k]),
        find_index(s, p) != -1 ==> {
            let k = find_index(s, p);
            &&& 0 <= k < s.len()
            &&& p(s[k])
            &&& forall|j: int| 0 <= j < k ==> !p(#[trigger] s[j])
        },
    decreases s.len(),
{
    if s.len() == 0 {
    } else if p(s[0]) {
    } else {
        lemma_find_index_props(s.skip(1), p);
        if find_index(s, p) == -1 {
            assert forall|k: int| 0 <= k < s.len() implies !p(#[trigger] s[k]) by {
                if k > 0 {
                    assert(s.skip(1)[k - 1] == s[k]);
                }
            }
        } else {
            let k = find_index(s, p);
            assert(s.skip(1)[k - 1] == s[k]);
            assert forall|j: int| 0 <= j < k implies !p(#[trigger] s[j]) by {
                if j > 0 {
                    assert(s.skip(1)[j - 1] == s[j]);
                }
            }
        }
    }
}

/// If the first `k` positions fail `p`, the find lands at `k` when `p`
/// holds there, and reports `-1` when `k` is the whole length.
pub proof fn lemma_find_index_at<T>(s: Seq<T>, p: spec_fn(T) -> bool, k: int)
    requires
        0 <= k <= s.len(),
        forall|j: int| 0 <= j < k ==> !p(#[trigger] s[j]),
    ensures
        k == s.len() ==> find_index(s, p) == -1,
        k < s.len() && p(s[k]) ==> find_index(s, p) == k,
    decreases s.len(),
{
    if s.len() == 0 {
    } else if k == 0 {
        lemma_find_index_props(s, p);
    } else {
        assert(!p(s[0]));
        assert forall|j: int| 0 <= j < k - 1 implies !p(#[trigger] s.skip(1)[j]) by {
            assert(s.skip(1)[j] == s[j + 1]);
        }
        lemma_find_index_at(s.skip(1), p, k - 1);
        if k < s.len() {
            assert(s.skip(1)[k - 1] == s[k]);
        }
    }
}

/// The first position in the files whose name is `name`, or `-1`.
pub open spec fn find_name(fs: Seq<DiskFileV>, name: Seq<char>) -> int {
    find_index(fs, |f: DiskFileV| f.name == name)
}

/// The first position in the index whose record is for `name`, or `-1`.
pub open spec fn find_rec(rs: Seq<RecV>, name: Seq<char>) -> int {
    find_index(rs, |r: RecV| r.name == name)
}

/// Finds the first file with the given name.
fn find_file(files: &Vec<DiskFile>, name: &str) -> (r: Option<usize>)
    ensures
        match r {
            Some(k) => k < files.len() && find_name(files_of(files@), name@) == k as int,
            None => find_name(files_of(files@), name@) == -1,
        },
{
    let ghost fs = files_of(files@);
    let ghost p = |f: DiskFileV| f.name == name@;
    let mut i: usize = 0;
    while i < files.len()
        invariant
            i <= files.len(),
            fs == files_of(files@),
            p == (|f: DiskFileV| f.name == name@),
            forall|j: int| 0 <= j < i ==> !p(#[trigger] fs[j]),
        decreases files.len() - i,
    {
        if str_eq(files[i].name.as_str(), name) {
            proof {
                assert(p(fs[i as int]));
                lemma_find_index_at(fs, p, i as int);
            }
            return Some(i);
        }
        proof {
            assert(!p(fs[i as int]));
        }
        i += 1;
    }
    proof {
        lemma_find_index_at(fs, p, files.len() as int);
    }
    None
}

/// Finds the first record with the given name.
pub fn find_record(recs: &Vec<FileMeta>, name: &str) -> (r: Option<usize>)
    ensures
        match r {
            Some(k) => k < recs.len() && find_rec(recs_of(recs@), name@) == k as int,
            None => find_rec(recs_of(recs@), name@) == -1,
        },
{
    let ghost rs = recs_of(recs@);
    let ghost p = |r: RecV| r.name == name@;
    let mut i: usize = 0;
    while i < recs.len()
        invariant
            i <= recs.len(),
            rs == recs_of(recs@),
            p == (|r: RecV| r.name == name@),
            forall|j: int| 0 <= j < i ==> !p(#[trigger] rs[j]),
        decreases recs.len() - i,
    {
        if str_eq(recs[i].filename.as_str(), name) {
            proof {
                assert(p(rs[i as int]));
                lemma_find_index_at(rs, p, i as int);
            }
            return Some(i);
        }
        proof {
            assert(!p(rs[i as int]));
        }
        i += 1;
    }
    proof {
        lemma_find_index_at(rs, p, recs.len() as int);
    }
    None
}

// ---------------------------------------------------------------------------
// The storage manager.
// ---------------------------------------------------------------------------
/// The storage manager's state.
pub struct Storage {
    root_exists: bool,
    files: Vec<DiskFile>,
    meta_doc: Option<String>,
}

/// Mathematical value of the storage state.
#[verifier::ext_equal]
pub ghost struct StorageV {
    pub root_exists: bool,
    pub files: Seq<DiskFileV>,
    pub meta_doc: Option<Seq<char>>,
}

impl View for Storage {
    type V = StorageV;

    closed spec fn view(&self) -> StorageV {
        StorageV {
            root_exists: self.root_exists,
            files: files_of(self.files@),
            meta_doc: match self.meta_doc {
                Some(d) => Some(d@),
                None => None,
            },
        }
    }
}

/// The metadata index a storage state holds: the lenient reading of its
/// metadata document. An absent document reads as the empty index.
pub open spec fn index_of(s: StorageV) -> Seq<RecV> {
    match s.meta_doc {
        None => Seq::<RecV>::empty(),
        Some(text) => lenient_recs(text),
    }
}

/// What upload does: the state afterwards and the result. A missing or
/// non-regular source is rejected with the state unchanged; otherwise the
/// storage root exists afterwards, the bytes are stored under the chosen
/// name, and the new record is appended to the index, which is rewritten
/// in full.
pub open spec fn spec_upload(s: StorageV, src: Option<SourceFileV>) -> (StorageV, Result<
    RecV,
    StorageError,
>) {
    match src {
        None => (s, Err(StorageError::InvalidInput)),
        Some(f) => {
            let name = chosen_name(candidate_of(f.name), disk_names(s.files));
            let rec = RecV { name, size: f.bytes.len() as u64 };
            let idx2 = index_of(s).push(rec);
            (
                StorageV {
                    root_exists: true,
                    files: s.files.push(DiskFileV { name, bytes: f.bytes }),
                    meta_doc: Some(render_doc(idx2)),
                },
                Ok(rec),
            )
        },
    }
}

/// What writing one file into a directory does: the first entry of that
/// name is overwritten, or the file is appended.
pub open spec fn write_entry(entries: Seq<DiskFileV>, name: Seq<char>, bytes: Seq<u8>) -> Seq<
    DiskFileV,
> {
    let k = find_name(entries, name);
    if k == -1 {
        entries.push(DiskFileV { name, bytes })
    } else {
        entries.update(k, DiskFileV { name, bytes })
    }
}

/// What deleting a batch of names does: the remaining files, the remaining
/// index, and whether every name was found. Names are processed in order;
/// the first missing name stops the batch, keeping the deletions made so
/// far.
pub open spec fn spec_delete(files: Seq<DiskFileV>, idx: Seq<RecV>, names: Seq<Seq<char>>) -> (
    Seq<DiskFileV>,
    Seq<RecV>,
    bool,
)
    decreases names.len(),
{
    if names.len() == 0 {
        (files, idx, true)
    } else {
        let k = find_name(files, names[0]);
        if k == -1 {
            (files, idx, false)
        } else {
            let j = find_rec(idx, names[0]);
            spec_delete(
                files.remove(k),
                if j == -1 {
                    idx
                } else {
                    idx.remove(j)
                },
                names.skip(1),
            )
        }
    }
}

impl Storage {
    /// A manager for a storage root that does not exist yet: no files, no
    /// metadata document.
    pub fn new() -> (r: Storage)
        ensures
            r@ == (StorageV {
                root_exists: false,
                files: Seq::<DiskFileV>::empty(),
                meta_doc: None::<Seq<char>>,
            }),
    {
        let r = Storage { root_exists: false, files: Vec::new(), meta_doc: None };
        proof {
            assert(r@ =~= StorageV {
                root_exists: false,
                files: Seq::<DiskFileV>::empty(),
                meta_doc: None::<Seq<char>>,
            });
        }
        r
    }

    /// The current metadata index, read leniently from the document.
    fn get_files_from_meta_file(&self) -> (r: Vec<FileMeta>)
        ensures
            recs_of(r@) == index_of(self@),
    {
        match &self.meta_doc {
            None => {
                let r: Vec<FileMeta> = Vec::new();
                proof {
                    assert(recs_of(r@) =~= Seq::<RecV>::empty());
                }
                r
            },
            Some(doc) => parse_index_lenient(doc.as_str()),
        }
    }

    /// Rewrites the metadata document in full to hold the given index.
    fn set_meta_to_meta_file(&mut self, file_meta: Vec<FileMeta>)
        ensures
            final (self)@.root_exists == old(self)@.root_exists,
            final (self)@.files == old(self)@.files,
            final (self)@.meta_doc == Some(render_doc(recs_of(file_meta@))),
    {
        let doc = render_index(&file_meta);
        self.meta_doc = Some(doc);
    }

    /// Appends one record to the metadata index and rewrites the document
    /// in full. Returns the new record.
    pub fn add_file_name_to_metadata(&mut self, filename: String, file_size: u64) -> (r: FileMeta)
        ensures
            final (self)@.root_exists == old(self)@.root_exists,
            final (self)@.files == old(self)@.files,
            index_of(final (self)@) == index_of(old(self)@).push(
                RecV { name: filename@, size: file_size },
            ),
            final (self)@.meta_doc == Some(
                render_doc(index_of(old(self)@).push(RecV { name: filename@, size: file_size })),
            ),
            r@ == (RecV { name: filename@, size: file_size }),
    {
        let ghost idx2 = index_of(self@).push(RecV { name: filename@, size: file_size });
        let mut idx = self.get_files_from_meta_file();
        let stored_name = filename.clone();
        idx.push(FileMeta { filename, size: file_size });
        proof {
            assert(recs_of(idx@) =~= idx2);
        }
        self.set_meta_to_meta_file(idx);
        proof {
            lemma_parse_render_doc(idx2);
        }
        FileMeta { filename: stored_name, size: file_size }
    }

    /// The names of the files in the storage root.
    fn file_names(&self) -> (r: Vec<String>)
        ensures
            names_of(r@) == disk_names(self@.files),
            r.len() == self@.files.len(),
    {
        let mut r: Vec<String> = Vec::new();
        let mut i: usize = 0;
        while i < self.files.len()
            invariant
                i <= self.files.len(),
                r@.len() == i,
                forall|k: int| 0 <= k < i ==> #[trigger] r@[k]@ == self.files@[k].name@,
            decreases self.files.len() - i,
        {
            r.push(self.files[i].name.clone());
            i += 1;
        }
        proof {
            assert(names_of(r@) =~= disk_names(files_of(self.files@)));
        }
        r
    }

    /// Uploads a source file: rejects a missing or non-regular source;
    /// otherwise makes the storage root exist, stores the bytes under the
    /// chosen name, appends the new record to the index, and returns it.
    pub fn upload(&mut self, source: Option<&SourceFile>) -> (r: Result<FileMeta, StorageError>)
        requires
            old(self)@.files.len() < usize::MAX,
        ensures
            ({
                let (s2, res) = spec_upload(
                    old(self)@,
                    match source {
                        Some(f) => Some(f@),
                        None => None,
                    },
                );
                &&& final (self)@ == s2
                &&& match (r, res) {
                    (Ok(m), Ok(rv)) => m@ == rv,
                    (Err(e1), Err(e2)) => e1 == e2,
                    _ => false,
                }
            }),
    {
        let f = match source {
            None => {
                return Err(StorageError::InvalidInput);
            },
            Some(f) => f,
        };
        self.root_exists = true;
        let names = self.file_names();
        let stored = get_file_name(
            match &f.name {
                Some(n) => Some(n.as_str()),
                None => None,
            },
            &names,
        );
        let size: u64 = f.content.len() as u64;
        let content = clone_bytes(&f.content);
        let stored_name = stored.clone();
        self.files.push(DiskFile { name: stored_name, content });
        proof {
            assert(self@.files =~= old(self)@.files.push(
                DiskFileV { name: stored@, bytes: f.content@ },
            ));
        }
        let ghost s_pre = self@;
        proof {
            assert(index_of(s_pre) == index_of(old(self)@));
        }
        let rec = self.add_file_name_to_metadata(stored, size);
        proof {
            let (s2, res) = spec_upload(old(self)@, Some(f@));
            assert(self@ =~= s2);
        }
        Ok(rec)
    }

    /// The current metadata index, verbatim, in the order it was written.
    /// An absent or ill-formed document gives the empty index, not an
    /// error.
    pub fn get_files(&self) -> (r: Vec<FileMeta>)
        ensures
            recs_of(r@) == index_of(self@),
    {
        self.get_files_from_meta_file()
    }

    /// Downloads a stored file into a destination directory, overwriting a
    /// file of the same name there. Fails with `NotFound` when the storage
    /// root or the stored file is absent, and with `InvalidInput` when the
    /// destination is not a directory. The metadata index is not consulted
    /// and not changed.
    pub fn download(&self, filename: &str, dest: &mut DestDir) -> (r: Result<(), StorageError>)
        ensures
            ({
                let k = find_name(self@.files, filename@);
                if !self@.root_exists {
                    r == Err::<(), StorageError>(StorageError::NotFound) && final (dest)@ == old(
                        dest,
                    )@
                } else if k == -1 {
                    r == Err::<(), StorageError>(StorageError::NotFound) && final (dest)@ == old(
                        dest,
                    )@
                } else if !old(dest)@.is_dir {
                    r == Err::<(), StorageError>(StorageError::InvalidInput) && final (dest)@
                        == old(dest)@
                } else {
                    &&& r == Ok::<(), StorageError>(())
                    &&& final (dest)@.is_dir
                    &&& final (dest)@.entries == write_entry(
                        old(dest)@.entries,
                        filename@,
                        self@.files[k].bytes,
                    )
                }
            }),
    {
        if !self.root_exists {
            return Err(StorageError::NotFound);
        }
        let k = match find_file(&self.files, filename) {
            None => {
                return Err(StorageError::NotFound);
            },
            Some(k) => k,
        };
        if !dest.is_dir {
            return Err(StorageError::InvalidInput);
        }
        let content = clone_bytes(&self.files[k].content);
        let name = filename.to_owned();
        match find_file(&dest.entries, filename) {
            Some(j) => {
                dest.entries.set(j, DiskFile { name, content });
                proof {
                    assert(dest@.entries =~= old(dest)@.entries.update(
                        j as int,
                        DiskFileV { name: filename@, bytes: self@.files[k as int].bytes },
                    ));
                }
            },
            None => {
                dest.entries.push(DiskFile { name, content });
                proof {
                    assert(dest@.entries =~= old(dest)@.entries.push(
                        DiskFileV { name: filename@, bytes: self@.files[k as int].bytes },
                    ));
                }
            },
        }
        Ok(())
    }

    /// Deletes the named files, in order. A name with no file in storage
    /// fails the batch with `NotFound` at that point: earlier deletions
    /// stay, later names are not touched, and the index as edited so far
    /// is still written out in full.
    pub fn delete_files(&mut self, file_names: &Vec<String>) -> (r: Result<(), StorageError>)
        ensures
            ({
                let (files2, idx2, ok) = spec_delete(
                    old(self)@.files,
                    index_of(old(self)@),
                    names_of(file_names@),
                );
                &&& final (self)@.root_exists == old(self)@.root_exists
                &&& final (self)@.files == files2
                &&& final (self)@.meta_doc == Some(render_doc(idx2))
                &&& index_of(final (self)@) == idx2
                &&& r == (if ok {
                    Ok::<(), StorageError>(())
                } else {
                    Err::<(), StorageError>(StorageError::NotFound)
                })
            }),
    {
        let ghost gfiles0 = self@.files;
        let ghost gidx0 = index_of(self@);
        let ghost gnames = names_of(file_names@);
        let ghost groot0 = self@.root_exists;
        let mut idx = self.get_files_from_meta_file();
        let mut i: usize = 0;
        let mut ok = true;
        proof {
            assert(gnames.skip(0) =~= gnames);
        }
        while ok && i < file_names.len()
            invariant
                i <= file_names.len(),
                gnames == names_of(file_names@),
                self@.root_exists == groot0,
                ok ==> spec_delete(gfiles0, gidx0, gnames) == spec_delete(
                    self@.files,
                    recs_of(idx@),
                    gnames.skip(i as int),
                ),
                !ok ==> spec_delete(gfiles0, gidx0, gnames).0 == self@.files && spec_delete(
                    gfiles0,
                    gidx0,
                    gnames,
                ).1 == recs_of(idx@) && spec_delete(gfiles0, gidx0, gnames).2 == false,
            decreases (if ok {
                1int
            } else {
                0int
            }), file_names.len() - i,
        {
            let name = &file_names[i];
            proof {
                assert(gnames.skip(i as int)[0] == name@);
            }
            let ghost pf = self@.files;
            let ghost pi = recs_of(idx@);
            match find_file(&self.files, name.as_str()) {
                None => {
                    ok = false;
                },
                Some(k) => {
                    self.files.remove(k);
                    proof {
                        assert(self@.files =~= pf.remove(k as int));
                    }
                    match find_record(&idx, name.as_str()) {
                        Some(j) => {
                            idx.remove(j);
                            proof {
                                assert(recs_of(idx@) =~= pi.remove(j as int));
                            }
                        },
                        None => {},
                    }
                    proof {
                        assert(gnames.skip(i as int).skip(1) =~= gnames.skip(i as int + 1));
                    }
                    i += 1;
                },
            }
        }
        proof {
            if ok {
                assert(gnames.skip(i as int) =~= Seq::<Seq<char>>::empty());
            }
        }
        self.set_meta_to_meta_file(idx);
        proof {
            let (files2, idx2, sok) = spec_delete(gfiles0, gidx0, gnames);
            lemma_parse_render_doc(idx2);
        }
        if ok {
            Ok(())
        } else {
            Err(StorageError::NotFound)
        }
    }
}

/// A copy of the bytes.
fn clone_bytes(v: &Vec<u8>) -> (r: Vec<u8>)
    ensures
        r@ == v@,
{
    let mut r: Vec<u8> = Vec::new();
    let mut i: usize = 0;
    while i < v.len()
        invariant
            i <= v.len(),
            r@ == v@.take(i as int),
        decreases v.len() - i,
    {
        r.push(v[i]);
        proof {
            assert(v@.take(i as int).push(v@[i as int]) =~= v@.take(i as int + 1));
        }
        i += 1;
    }
    proof {
        assert(v@.take(v@.len() as int) =~= v@);
    }
    r
}

} // verus!
