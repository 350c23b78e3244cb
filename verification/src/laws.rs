//! Laws of the storage manager, stated and proved over the operations'
//! functional specifications.

use vstd::prelude::*;
use crate::codec::lemma_parse_render_doc;
use crate::meta::RecV;
use crate::naming::candidate_of;
use crate::store::{disk_names, find_name, index_of, lemma_find_index_at, spec_delete,
    spec_upload, DiskFileV, SourceFileV, StorageV};

verus! {

/// The state after uploading each source in turn.
pub open spec fn upload_all(s: StorageV, srcs: Seq<SourceFileV>) -> StorageV
    decreases srcs.len(),
{
    if srcs.len() == 0 {
        s
    } else {
        upload_all(spec_upload(s, Some(srcs[0])).0, srcs.skip(1))
    }
}

/// One upload appends exactly its record to the index.
pub proof fn lemma_upload_index(s: StorageV, f: SourceFileV)
    ensures
        index_of(spec_upload(s, Some(f)).0) == index_of(s).push(
            spec_upload(s, Some(f)).1.unwrap(),
        ),
        spec_upload(s, Some(f)).1.unwrap().size == f.bytes.len() as u64,
{
    let rec = spec_upload(s, Some(f)).1.unwrap();
    lemma_parse_render_doc(index_of(s).push(rec));
}

/// Law: after any sequence of uploads, the metadata index has grown by
/// exactly one record per upload, the records already present are kept in
/// place, and each new record's size is the byte length of its source. In
/// particular, after uploading N sources into a fresh storage root the
/// index holds exactly N records.
pub proof fn lemma_upload_sequence(s: StorageV, srcs: Seq<SourceFileV>)
    ensures
        index_of(upload_all(s, srcs)).len() == index_of(s).len() + srcs.len(),
        forall|j: int|
            0 <= j < index_of(s).len() ==> index_of(upload_all(s, srcs))[j] == index_of(s)[j],
        forall|k: int|
            0 <= k < srcs.len() ==> index_of(upload_all(s, srcs))[index_of(s).len() + k].size
                == srcs[k].bytes.len() as u64,
    decreases srcs.len(),
{
    if srcs.len() > 0 {
        let s1 = spec_upload(s, Some(srcs[0])).0;
        let rec = spec_upload(s, Some(srcs[0])).1.unwrap();
        lemma_upload_index(s, srcs[0]);
        lemma_upload_sequence(s1, srcs.skip(1));
        assert(upload_all(s, srcs) == upload_all(s1, srcs.skip(1)));
        let fin = index_of(upload_all(s, srcs));
        let base = index_of(s);
        let base1 = index_of(s1);
        assert(base1 == base.push(rec));
        assert(base1.len() == base.len() + 1);
        assert forall|j: int| 0 <= j < base.len() implies fin[j] == base[j] by {
            assert(fin[j] == base1[j]);
            assert(base1[j] == base[j]);
        }
        assert forall|k: int| 0 <= k < srcs.len() implies fin[base.len() + k].size == srcs[k]
            .bytes.len() as u64 by {
            if k == 0 {
                let b = base.len() as int;
                assert(b < base1.len());
                assert(fin[b] == base1[b]);
                assert(base1[b] == rec);
            } else {
                assert(fin[base1.len() + (k - 1)].size == srcs.skip(1)[k - 1].bytes.len()
                    as u64);
                assert(srcs.skip(1)[k - 1] == srcs[k]);
            }
        }
    }
}

/// Law: an upload stores exactly the source's bytes under the name of the
/// record it returns, and that name names no earlier stored file — so the
/// lookup that download performs finds the new file and its bytes.
pub proof fn lemma_upload_stores_bytes(s: StorageV, f: SourceFileV)
    ensures
        ({
            let (s2, res) = spec_upload(s, Some(f));
            let rec = res.unwrap();
            &&& find_name(s2.files, rec.name) == s.files.len()
            &&& s2.files[find_name(s2.files, rec.name)].bytes == f.bytes
        }),
{
    let (s2, res) = spec_upload(s, Some(f));
    let rec = res.unwrap();
    let name = rec.name;
    crate::naming::lemma_chosen_free(candidate_of(f.name), disk_names(s.files));
    let p = |g: DiskFileV| g.name == name;
    assert forall|j: int| 0 <= j < s.files.len() implies !p(#[trigger] s2.files[j]) by {
        assert(s2.files[j] == s.files[j]);
        if s.files[j].name == name {
            assert(disk_names(s.files)[j] == name);
            assert(disk_names(s.files).contains(name));
        }
    }
    assert(p(s2.files[s.files.len() as int]));
    lemma_find_index_at(s2.files, p, s.files.len() as int);
}

/// Law: deleting one name that has no file in storage fails with
/// `NotFound` and leaves the files and the metadata index unchanged.
pub proof fn lemma_delete_missing(files: Seq<DiskFileV>, idx: Seq<RecV>, name: Seq<char>)
    requires
        find_name(files, name) == -1,
    ensures
        spec_delete(files, idx, seq![name]) == (files, idx, false),
{
    assert(seq![name][0] == name);
}

} // verus!
