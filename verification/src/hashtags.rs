//! The first inverted index: each tag maps to the files carrying it,
//! stored whole.  A file is filed once per tag, so a file without any
//! tag is accepted but stored nowhere.

use crate::fdb_trait::FileDB;
use crate::fdb_trait::FileVecIterator;
use crate::fdb_trait::GetFileError;
use crate::fdb_trait::matches_of;
use crate::fdb_trait::multi_match;
use crate::fdb_trait::no_match;
use crate::fdb_trait::unique_match;
use crate::file::File;
use crate::filequery::FileKey;
use crate::filequery::FileQuery;
use crate::filequery::key_matches;
use vstd::prelude::*;

verus! {

/// One tag of the index and the files filed under it.
pub(crate) struct FileEntry {
    pub(crate) tag: String,
    pub(crate) files: Vec<File>,
}

/// Whether some entry carries tag `t` with a file denoting `k`.
pub(crate) open spec fn ht_pair(s: Seq<FileEntry>, t: Seq<char>, k: FileKey) -> bool {
    exists|x: int, y: int|
        0 <= x < s.len() && 0 <= y < s[x].files@.len() && s[x].tag@ == t && (
        #[trigger] s[x].files@[y])@ == k
}

/// The files the index denotes: everything filed under any tag.
pub(crate) open spec fn ht_files(s: Seq<FileEntry>) -> Set<FileKey> {
    Set::new(|k: FileKey| exists|t: Seq<char>| ht_pair(s, t, k))
}

/// The files a set of tag/file pairings denotes: everything paired
/// with any tag.
pub open spec fn file_pairs_files(ps: Set<(Seq<char>, FileKey)>) -> Set<FileKey> {
    Set::new(|k: FileKey| exists|t: Seq<char>| ps.contains((t, k)))
}

/// The file filed at position `y0` of entry `x0` already has a copy
/// in `out`.
pub(crate) open spec fn covered(es: Seq<FileEntry>, out: Seq<File>, x0: int, y0: int) -> bool {
    exists|z: int| #![trigger out[z]] 0 <= z < out.len() && out[z]@ == es[x0].files@[y0]@
}

/// Every file of the first `x` entries has a copy in `out`.
pub(crate) open spec fn gathered_upto(es: Seq<FileEntry>, out: Seq<File>, x: int) -> bool {
    forall|x0: int, y0: int|
        0 <= x0 < x && 0 <= y0 < es[x0].files@.len() ==> #[trigger] covered(es, out, x0, y0)
}

/// The first `y` files of entry `x` have copies in `out`.
pub(crate) open spec fn gathered_row(es: Seq<FileEntry>, out: Seq<File>, x: int, y: int) -> bool {
    forall|y0: int| 0 <= y0 < y ==> #[trigger] covered(es, out, x, y0)
}

/// An inverted-index file database that files each stored file whole,
/// once under every one of its tags.
pub struct HashTagsDBFS {
    entries: Vec<FileEntry>,
}

impl HashTagsDBFS {
    /// The tag/file pairings the index holds.
    pub closed spec fn db_pairs(&self) -> Set<(Seq<char>, FileKey)> {
        Set::new(|p: (Seq<char>, FileKey)| ht_pair(self.entries@, p.0, p.1))
    }

    /// The stored files are determined by the tag/file pairings:
    /// everything paired with any tag.  This is the bridge from what
    /// `add_file` states about the pairings to what the queries state
    /// about the stored files.
    pub proof fn lemma_files_from_pairs(&self)
        ensures
            self.db_files() == file_pairs_files(self.db_pairs()),
    {
        assert forall|k: FileKey|
            self.db_files().contains(k) == file_pairs_files(self.db_pairs()).contains(k) by {
            if self.db_files().contains(k) {
                let t = choose|t: Seq<char>| ht_pair(self.entries@, t, k);
                assert(self.db_pairs().contains((t, k)));
            }
            if file_pairs_files(self.db_pairs()).contains(k) {
                let t = choose|t: Seq<char>| self.db_pairs().contains((t, k));
                assert(ht_pair(self.entries@, t, k));
            }
        }
        assert(self.db_files() =~= file_pairs_files(self.db_pairs()));
    }

    /// A fresh, empty database.
    pub fn new() -> (db: HashTagsDBFS)
        ensures
            db.db_inv(),
            db.db_files() == Set::<FileKey>::empty(),
            db.db_pairs() == Set::<(Seq<char>, FileKey)>::empty(),
    {
        let db = HashTagsDBFS { entries: Vec::new() };
        proof {
            assert(db.db_files() =~= Set::<FileKey>::empty());
            assert(db.db_pairs() =~= Set::<(Seq<char>, FileKey)>::empty());
        }
        db
    }

    /// Whether the entry at `x` files a copy of `f`.
    fn entry_has_file(&self, x: usize, f: &File) -> (r: bool)
        requires
            x < self.entries@.len(),
            f.inv(),
        ensures
            r == exists|y: int|
                0 <= y < self.entries@[x as int].files@.len() && (
                #[trigger] self.entries@[x as int].files@[y])@ == f@,
    {
        let e = &self.entries[x];
        let len = e.files.len();
        let mut y: usize = 0;
        while y < len
            invariant
                y <= len,
                f.inv(),
                len == e.files@.len(),
                e == &self.entries@[x as int],
                forall|z: int| 0 <= z < y ==> (#[trigger] e.files@[z])@ != f@,
            decreases len - y,
        {
            let stored = &e.files[y];
            if stored.name_ref().eq(f.name_ref()) && stored.tags_eq(f) {
                proof {
                    assert((e.files@[y as int])@ =~= f@);
                }
                return true;
            }
            proof {
                if (e.files@[y as int])@ == f@ {
                    assert(false);
                }
            }
            y = y + 1;
        }
        false
    }

    /// Whether the index holds a file denoting exactly `f`.
    fn holds_exactly(&self, f: &File) -> (r: bool)
        requires
            f.inv(),
        ensures
            r == ht_files(self.entries@).contains(f@),
    {
        let len = self.entries.len();
        let mut x: usize = 0;
        while x < len
            invariant
                x <= len,
                f.inv(),
                len == self.entries@.len(),
                forall|x0: int, y0: int|
                    0 <= x0 < x && 0 <= y0 < self.entries@[x0].files@.len() ==> (
                    #[trigger] self.entries@[x0].files@[y0])@ != f@,
            decreases len - x,
        {
            if self.entry_has_file(x, f) {
                proof {
                    let y = choose|y: int|
                        0 <= y < self.entries@[x as int].files@.len() && (
                        #[trigger] self.entries@[x as int].files@[y])@ == f@;
                    assert(ht_pair(self.entries@, self.entries@[x as int].tag@, f@));
                }
                return true;
            }
            x = x + 1;
        }
        proof {
            if ht_files(self.entries@).contains(f@) {
                let t = choose|t: Seq<char>| ht_pair(self.entries@, t, f@);
                let (x0, y0) = choose|x0: int, y0: int|
                    0 <= x0 < self.entries@.len() && 0 <= y0 < self.entries@[x0].files@.len()
                        && self.entries@[x0].tag@ == t && (#[trigger] self.entries@[x0].files@[y0])@
                        == f@;
            }
        }
        false
    }

    /// Gather every stored file, each once.
    fn gather_all(&self) -> (out: Vec<File>)
        requires
            forall|x: int, y: int|
                0 <= x < self.entries@.len() && 0 <= y < self.entries@[x].files@.len() ==> (
                #[trigger] self.entries@[x].files@[y]).inv(),
        ensures
            forall|z: int| 0 <= z < out@.len() ==> (#[trigger] out@[z]).inv(),
            forall|z: int|
                0 <= z < out@.len() ==> ht_files(self.entries@).contains((#[trigger] out@[z])@),
            forall|k: FileKey|
                ht_files(self.entries@).contains(k) ==> exists|z: int|
                    0 <= z < out@.len() && (#[trigger] out@[z])@ == k,
            forall|z1: int, z2: int| 0 <= z1 < z2 < out@.len() ==> out@[z1]@ != out@[z2]@,
    {
        let mut out: Vec<File> = Vec::new();
        let len = self.entries.len();
        let mut x: usize = 0;
        while x < len
            invariant
                x <= len,
                len == self.entries@.len(),
                forall|x1: int, y1: int|
                    0 <= x1 < self.entries@.len() && 0 <= y1 < self.entries@[x1].files@.len()
                        ==> (#[trigger] self.entries@[x1].files@[y1]).inv(),
                forall|z: int| 0 <= z < out@.len() ==> (#[trigger] out@[z]).inv(),
                forall|z: int|
                    0 <= z < out@.len() ==> ht_files(self.entries@).contains(
                        (#[trigger] out@[z])@,
                    ),
                gathered_upto(self.entries@, out@, x as int),
                forall|z1: int, z2: int| 0 <= z1 < z2 < out@.len() ==> out@[z1]@ != out@[z2]@,
            decreases len - x,
        {
            let nlen = self.entries[x].files.len();
            let mut y: usize = 0;
            while y < nlen
                invariant
                    y <= nlen,
                    x < len,
                    len == self.entries@.len(),
                    nlen == self.entries@[x as int].files@.len(),
                    forall|x1: int, y1: int|
                        0 <= x1 < self.entries@.len() && 0 <= y1 < self.entries@[x1].files@.len()
                            ==> (#[trigger] self.entries@[x1].files@[y1]).inv(),
                    forall|z: int| 0 <= z < out@.len() ==> (#[trigger] out@[z]).inv(),
                    forall|z: int|
                        0 <= z < out@.len() ==> ht_files(self.entries@).contains(
                            (#[trigger] out@[z])@,
                        ),
                    gathered_upto(self.entries@, out@, x as int),
                    gathered_row(self.entries@, out@, x as int, y as int),
                    forall|z1: int, z2: int| 0 <= z1 < z2 < out@.len() ==> out@[z1]@ != out@[z2]@,
                decreases nlen - y,
            {
                let f = &self.entries[x].files[y];
                let ghost fkey = f@;
                proof {
                    assert(ht_pair(self.entries@, self.entries@[x as int].tag@, fkey));
                }
                let ghost scan_start = out@;
                let mut dup = false;
                let olen = out.len();
                let mut z: usize = 0;
                while z < olen && !dup
                    invariant
                        z <= olen,
                        olen == out@.len(),
                        out@ == scan_start,
                        fkey == f@,
                        dup ==> exists|z0: int| 0 <= z0 < out@.len() && (#[trigger] out@[z0])@
                            == fkey,
                        !dup ==> forall|z0: int| 0 <= z0 < z ==> (#[trigger] out@[z0])@ != fkey,
                    decreases olen - z + (if dup {
                        0int
                    } else {
                        1int
                    }),
                {
                    let cand = &out[z];
                    if cand.name_ref().eq(f.name_ref()) && cand.tags_eq(f) {
                        proof {
                            assert((out@[z as int])@ =~= fkey);
                        }
                        dup = true;
                    } else {
                        proof {
                            if (out@[z as int])@ == fkey {
                                assert(false);
                            }
                        }
                        z = z + 1;
                    }
                }
                let ghost preout = out@;
                if !dup {
                    proof {
                        assert(z == olen);
                        assert(forall|z0: int|
                            0 <= z0 < preout.len() ==> (#[trigger] preout[z0])@ != fkey);
                    }
                    let copy = self.entries[x].files[y].duplicate();
                    out.push(copy);
                    proof {
                        assert(out@[preout.len() as int]@ == fkey);
                        assert forall|z1: int, z2: int|
                            0 <= z1 < z2 < out@.len() implies out@[z1]@ != out@[z2]@ by {
                            if z2 == preout.len() {
                                assert(out@[z1] == preout[z1]);
                                assert(preout[z1]@ != fkey);
                            } else {
                                assert(out@[z1] == preout[z1]);
                                assert(out@[z2] == preout[z2]);
                            }
                        }
                    }
                }
                proof {
                    assert forall|y0: int| 0 <= y0 < y + 1 implies #[trigger] covered(
                        self.entries@,
                        out@,
                        x as int,
                        y0,
                    ) by {
                        if y0 == y {
                            assert(exists|z0: int| #![trigger out@[z0]]
                                0 <= z0 < out@.len() && out@[z0]@ == self.entries@[
                                    x as int
                                ].files@[y0]@);
                        } else {
                            assert(covered(self.entries@, preout, x as int, y0));
                            let z0 = choose|z0: int| #![trigger preout[z0]]
                                0 <= z0 < preout.len() && preout[z0]@ == self.entries@[
                                    x as int
                                ].files@[y0]@;
                            assert(out@[z0]@ == self.entries@[x as int].files@[y0]@);
                        }
                    }
                    assert(gathered_row(self.entries@, out@, x as int, y as int + 1));
                    assert forall|x0: int, y0: int|
                        0 <= x0 < x && 0 <= y0 < self.entries@[x0].files@.len()
                            implies #[trigger] covered(self.entries@, out@, x0, y0) by {
                        assert(covered(self.entries@, preout, x0, y0));
                        let z0 = choose|z0: int| #![trigger preout[z0]]
                            0 <= z0 < preout.len() && preout[z0]@ == self.entries@[x0].files@[y0]@;
                        assert(out@[z0]@ == self.entries@[x0].files@[y0]@);
                    }
                    assert(gathered_upto(self.entries@, out@, x as int));
                }
                y = y + 1;
            }
            proof {
                assert forall|x0: int, y0: int|
                    0 <= x0 < x + 1 && 0 <= y0 < self.entries@[x0].files@.len()
                        implies #[trigger] covered(self.entries@, out@, x0, y0) by {
                    if x0 == x {
                        assert(covered(self.entries@, out@, x as int, y0));
                    }
                }
                assert(gathered_upto(self.entries@, out@, x as int + 1));
            }
            x = x + 1;
        }
        proof {
            assert forall|k: FileKey|
                ht_files(self.entries@).contains(k) implies exists|z: int|
                0 <= z < out@.len() && (#[trigger] out@[z])@ == k by {
                let t = choose|t: Seq<char>| ht_pair(self.entries@, t, k);
                let (x0, y0) = choose|x0: int, y0: int|
                    0 <= x0 < self.entries@.len() && 0 <= y0 < self.entries@[x0].files@.len()
                        && self.entries@[x0].tag@ == t && (#[trigger] self.entries@[x0].files@[y0])@
                        == k;
                assert(covered(self.entries@, out@, x0, y0));
                let z0 = choose|z0: int| #![trigger out@[z0]]
                    0 <= z0 < out@.len() && out@[z0]@ == self.entries@[x0].files@[y0]@;
                assert(out@[z0]@ == k);
            }
        }
        out
    }

    /// Find the entry filed for `tag`, if any.
    fn find_entry(&self, tag: &String) -> (r: Option<usize>)
        ensures
            match r {
                Some(x) => x < self.entries@.len() && self.entries@[x as int].tag@ == tag@,
                None => forall|x: int|
                    0 <= x < self.entries@.len() ==> (#[trigger] self.entries@[x]).tag@ != tag@,
            },
    {
        let len = self.entries.len();
        let mut x: usize = 0;
        while x < len
            invariant
                x <= len,
                len == self.entries@.len(),
                forall|x0: int| 0 <= x0 < x ==> (#[trigger] self.entries@[x0]).tag@ != tag@,
            decreases len - x,
        {
            if self.entries[x].tag.eq(tag) {
                return Some(x);
            }
            x = x + 1;
        }
        None
    }
}

impl FileDB for HashTagsDBFS {
    type FileIterator = FileVecIterator;

    closed spec fn db_inv(&self) -> bool {
        forall|x: int, y: int|
            0 <= x < self.entries@.len() && 0 <= y < self.entries@[x].files@.len() ==> (
            #[trigger] self.entries@[x].files@[y]).inv()
    }

    closed spec fn db_files(&self) -> Set<FileKey> {
        ht_files(self.entries@)
    }

    /// File a copy of the new file under every one of its tags;
    /// refuse, changing nothing, a file already filed.  A file with no
    /// tags is accepted but filed nowhere.
    fn add_file(&mut self, new_file: &File) -> (r: Option<()>)
        ensures
            r is Some <==> !old(self).db_files().contains(new_file@),
            r is None ==> final(self).db_files() == old(self).db_files(),
            r is None ==> final(self).db_pairs() == old(self).db_pairs(),
            r is Some ==> forall|t: Seq<char>, k: FileKey|
                final(self).db_pairs().contains((t, k)) == (old(self).db_pairs().contains((t, k))
                    || (new_file@.tags.contains(t) && k == new_file@)),
    {
        if self.holds_exactly(new_file) {
            return None;
        }
        let tags = new_file.tag_set();
        let tlen = tags.len();
        let mut i: usize = 0;
        while i < tlen
            invariant
                i <= tlen,
                new_file.inv(),
                tlen == tags.sview().len(),
                tags@ == new_file@.tags,
                forall|x1: int, y1: int|
                    0 <= x1 < self.entries@.len() && 0 <= y1 < self.entries@[x1].files@.len()
                        ==> (#[trigger] self.entries@[x1].files@[y1]).inv(),
                forall|t: Seq<char>, k: FileKey|
                    ht_pair(self.entries@, t, k) == (ht_pair(old(self).entries@, t, k) || (
                    exists|y0: int|
                        0 <= y0 < i && #[trigger] tags.sview()[y0] == t && k == new_file@)),
            decreases tlen - i,
        {
            let tag = tags.get(i);
            let ghost pre = self.entries@;
            let found = self.find_entry(tag);
            match found {
                Some(x) => {
                    self.entries[x].files.push(new_file.duplicate());
                    proof {
                        lemma_ht_pair_after_file_push(pre, self.entries@, x as int, tag@, new_file@);
                        assert forall|x1: int, y1: int|
                            0 <= x1 < self.entries@.len() && 0 <= y1
                                < self.entries@[x1].files@.len() implies (
                        #[trigger] self.entries@[x1].files@[y1]).inv() by {
                            if x1 == x {
                                if y1 < pre[x1].files@.len() {
                                    assert(self.entries@[x1].files@[y1] == pre[x1].files@[y1]);
                                }
                            } else {
                                assert(self.entries@[x1] == pre[x1]);
                            }
                        }
                    }
                },
                None => {
                    let mut files: Vec<File> = Vec::new();
                    files.push(new_file.duplicate());
                    self.entries.push(FileEntry { tag: tag.clone(), files });
                    proof {
                        lemma_ht_pair_after_entry_push(pre, self.entries@, tag@, new_file@);
                        assert forall|x1: int, y1: int|
                            0 <= x1 < self.entries@.len() && 0 <= y1
                                < self.entries@[x1].files@.len() implies (
                        #[trigger] self.entries@[x1].files@[y1]).inv() by {
                            if x1 < pre.len() {
                                assert(self.entries@[x1] == pre[x1]);
                            }
                        }
                    }
                },
            }
            proof {
                assert forall|t: Seq<char>, k: FileKey|
                    ht_pair(self.entries@, t, k) == (ht_pair(old(self).entries@, t, k) || (
                    exists|y0: int|
                        0 <= y0 < i + 1 && #[trigger] tags.sview()[y0] == t && k
                            == new_file@)) by {
                    if ht_pair(self.entries@, t, k) && !ht_pair(pre, t, k) {
                        assert(t == tag@ && k == new_file@);
                        assert(tags.sview()[i as int] == t);
                    }
                    if exists|y0: int|
                        0 <= y0 < i + 1 && #[trigger] tags.sview()[y0] == t && k == new_file@ {
                        let y0 = choose|y0: int|
                            0 <= y0 < i + 1 && #[trigger] tags.sview()[y0] == t && k == new_file@;
                        if y0 < i {
                            assert(ht_pair(pre, t, k));
                        } else {
                            assert(t == tag@);
                        }
                        assert(ht_pair(self.entries@, t, k));
                    }
                    if ht_pair(old(self).entries@, t, k) {
                        assert(ht_pair(pre, t, k));
                        assert(ht_pair(self.entries@, t, k));
                    }
                }
            }
            i = i + 1;
        }
        proof {
            tags.lemma_sview_view();
            assert forall|t: Seq<char>, k: FileKey|
                ht_pair(self.entries@, t, k) == (ht_pair(old(self).entries@, t, k) || (
                new_file@.tags.contains(t) && k == new_file@)) by {
                if exists|y0: int|
                    0 <= y0 < tlen && #[trigger] tags.sview()[y0] == t && k == new_file@ {
                    let y0 = choose|y0: int|
                        0 <= y0 < tlen && #[trigger] tags.sview()[y0] == t && k == new_file@;
                    assert(tags@.contains(t));
                }
                if new_file@.tags.contains(t) && k == new_file@ {
                    let y0 = choose|y0: int|
                        0 <= y0 < tags.sview().len() && #[trigger] tags.sview()[y0] == t;
                }
            }
        }
        Some(())
    }

    /// Gather every stored file matching the query; the result holds
    /// exactly the matching files, each once.
    fn get_files<F: FileQuery>(&self, query: &F) -> (it: FileVecIterator)
        ensures
            it.inv(),
            forall|k: FileKey|
                it.remaining().contains(k) == matches_of(
                    self.db_files(),
                    query.q_tags(),
                    query.q_name(),
                ).contains(k),
            forall|x: int, y: int|
                0 <= x < y < it.remaining().len() ==> it.remaining()[x] != it.remaining()[y],
    {
        let all = self.gather_all();
        let n = all.len();
        let mut out: Vec<File> = Vec::new();
        let mut x: usize = 0;
        while x < n
            invariant
                x <= n,
                n == all@.len(),
                query.q_inv(),
                forall|z: int| 0 <= z < all@.len() ==> (#[trigger] all@[z]).inv(),
                forall|z: int|
                    0 <= z < all@.len() ==> ht_files(self.entries@).contains((#[trigger] all@[z])@),
                forall|z1: int, z2: int| 0 <= z1 < z2 < all@.len() ==> all@[z1]@ != all@[z2]@,
                forall|z: int| 0 <= z < out@.len() ==> (#[trigger] out@[z]).inv(),
                forall|z: int|
                    0 <= z < out@.len() ==> key_matches(
                        query.q_tags(),
                        query.q_name(),
                        (#[trigger] out@[z])@,
                    ) && ht_files(self.entries@).contains(out@[z]@),
                forall|y0: int|
                    0 <= y0 < x && key_matches(
                        query.q_tags(),
                        query.q_name(),
                        (#[trigger] all@[y0])@,
                    ) ==> exists|z: int| 0 <= z < out@.len() && (#[trigger] out@[z])@ == all@[y0]@,
                forall|z1: int, z2: int| 0 <= z1 < z2 < out@.len() ==> out@[z1]@ != out@[z2]@,
                forall|z: int|
                    0 <= z < out@.len() ==> exists|y0: int|
                        0 <= y0 < x && (#[trigger] out@[z])@ == all@[y0]@,
            decreases n - x,
        {
            let is_match = query.could_match(&all[x]);
            let ghost preout = out@;
            if is_match {
                out.push(all[x].duplicate());
            }
            proof {
                if is_match {
                    assert(out@[preout.len() as int]@ == all@[x as int]@);
                    assert forall|z1: int, z2: int|
                        0 <= z1 < z2 < out@.len() implies out@[z1]@ != out@[z2]@ by {
                        if z2 == preout.len() {
                            let y0 = choose|y0: int|
                                0 <= y0 < x && (#[trigger] preout[z1])@ == all@[y0]@;
                            assert(all@[y0]@ != all@[x as int]@);
                            assert(out@[z1] == preout[z1]);
                        } else {
                            assert(out@[z1] == preout[z1]);
                            assert(out@[z2] == preout[z2]);
                        }
                    }
                }
                assert forall|y0: int|
                    0 <= y0 < x + 1 && key_matches(
                        query.q_tags(),
                        query.q_name(),
                        (#[trigger] all@[y0])@,
                    ) implies exists|z: int| 0 <= z < out@.len() && (#[trigger] out@[z])@
                    == all@[y0]@ by {
                    if y0 == x {
                        assert(out@[preout.len() as int]@ == all@[y0]@);
                    } else {
                        let z = choose|z: int|
                            0 <= z < preout.len() && (#[trigger] preout[z])@ == all@[y0]@;
                        assert(out@[z]@ == all@[y0]@);
                    }
                }
            }
            x = x + 1;
        }
        let ghost outv = out@;
        let it = FileVecIterator::from_vec(out);
        proof {
            let m = matches_of(self.db_files(), query.q_tags(), query.q_name());
            assert(it.remaining() == outv.map_values(|f: File| f@));
            assert forall|k: FileKey| it.remaining().contains(k) implies m.contains(k) by {
                let z = choose|z: int| 0 <= z < it.remaining().len() && it.remaining()[z] == k;
                assert(outv[z]@ == k);
            }
            assert forall|k: FileKey| m.contains(k) implies it.remaining().contains(k) by {
                let y0 = choose|y0: int| 0 <= y0 < all@.len() && (#[trigger] all@[y0])@ == k;
                let z = choose|z: int| 0 <= z < outv.len() && (#[trigger] outv[z])@ == all@[y0]@;
                assert(it.remaining()[z] == outv[z]@);
            }
            assert forall|x1: int, y1: int|
                0 <= x1 < y1 < it.remaining().len() implies it.remaining()[x1]
                != it.remaining()[y1] by {
                assert(it.remaining()[x1] == outv[x1]@);
                assert(it.remaining()[y1] == outv[y1]@);
            }
        }
        it
    }

    /// The single matching file, or which way the lookup failed.
    fn get_file<F: FileQuery>(&self, query: &F) -> (r: Result<File, GetFileError>)
        ensures
            ({
                let m = matches_of(self.db_files(), query.q_tags(), query.q_name());
                &&& (r == Result::<File, GetFileError>::Err(GetFileError::NoSuchFile)) <==> no_match(
                    m,
                )
                &&& (r matches Ok(f) ==> f.inv() && unique_match(m, f@))
                &&& (r == Result::<File, GetFileError>::Err(GetFileError::TooManyFiles))
                    <==> multi_match(m)
            }),
    {
        let ghost m = matches_of(self.db_files(), query.q_tags(), query.q_name());
        let all = self.gather_all();
        let n = all.len();
        let mut found: Option<File> = None;
        let mut x: usize = 0;
        while x < n
            invariant
                x <= n,
                n == all@.len(),
                query.q_inv(),
                m == matches_of(self.db_files(), query.q_tags(), query.q_name()),
                forall|z: int| 0 <= z < all@.len() ==> (#[trigger] all@[z]).inv(),
                forall|z: int|
                    0 <= z < all@.len() ==> ht_files(self.entries@).contains((#[trigger] all@[z])@),
                forall|k: FileKey|
                    ht_files(self.entries@).contains(k) ==> exists|z: int|
                        0 <= z < all@.len() && (#[trigger] all@[z])@ == k,
                forall|z1: int, z2: int| 0 <= z1 < z2 < all@.len() ==> all@[z1]@ != all@[z2]@,
                match found {
                    Some(f) => {
                        &&& f.inv()
                        &&& m.contains(f@)
                        &&& exists|z: int| 0 <= z < x && (#[trigger] all@[z])@ == f@
                        &&& forall|z: int|
                            0 <= z < x && m.contains((#[trigger] all@[z])@) ==> all@[z]@ == f@
                    },
                    None => forall|z: int| 0 <= z < x ==> !m.contains((#[trigger] all@[z])@),
                },
            decreases n - x,
        {
            if query.could_match(&all[x]) {
                proof {
                    assert(m.contains(all@[x as int]@));
                }
                match &found {
                    Some(prior) => {
                        proof {
                            let z = choose|z: int| 0 <= z < x && (#[trigger] all@[z])@ == prior@;
                            assert(all@[z]@ != all@[x as int]@);
                            assert(multi_match(m));
                        }
                        return Err(GetFileError::TooManyFiles);
                    },
                    None => {
                        found = Some(all[x].duplicate());
                    },
                }
            }
            x = x + 1;
        }
        match found {
            Some(f) => {
                proof {
                    assert forall|k2: FileKey| m.contains(k2) implies k2 == f@ by {
                        let z = choose|z: int| 0 <= z < all@.len() && (#[trigger] all@[z])@ == k2;
                        assert(m.contains(all@[z]@));
                    }
                    assert(unique_match(m, f@));
                    crate::tagtree::endnode::lemma_unique_not_multi(m, f@);
                }
                Ok(f)
            },
            None => {
                proof {
                    assert forall|k2: FileKey| !m.contains(k2) by {
                        if m.contains(k2) {
                            let z = choose|z: int|
                                0 <= z < all@.len() && (#[trigger] all@[z])@ == k2;
                            assert(!m.contains(all@[z]@));
                        }
                    }
                    crate::tagtree::endnode::lemma_empty_not_multi(m);
                }
                Err(GetFileError::NoSuchFile)
            },
        }
    }
}

/// Pushing a file onto the entry at `x` adds exactly one tag/file
/// pairing.
proof fn lemma_ht_pair_after_file_push(
    pre: Seq<FileEntry>,
    post: Seq<FileEntry>,
    x: int,
    t0: Seq<char>,
    k0: FileKey,
)
    requires
        0 <= x < pre.len(),
        post.len() == pre.len(),
        pre[x].tag@ == t0,
        post[x].tag == pre[x].tag,
        post[x].files@ == pre[x].files@.push(post[x].files@[post[x].files@.len() - 1]),
        post[x].files@[post[x].files@.len() - 1]@ == k0,
        forall|x0: int| 0 <= x0 < pre.len() && x0 != x ==> post[x0] == pre[x0],
    ensures
        forall|t: Seq<char>, k: FileKey|
            ht_pair(post, t, k) == (ht_pair(pre, t, k) || (t == t0 && k == k0)),
{
    assert forall|t: Seq<char>, k: FileKey|
        ht_pair(post, t, k) == (ht_pair(pre, t, k) || (t == t0 && k == k0)) by {
        if ht_pair(post, t, k) {
            let (x1, y1) = choose|x1: int, y1: int|
                0 <= x1 < post.len() && 0 <= y1 < post[x1].files@.len() && post[x1].tag@ == t && (
                #[trigger] post[x1].files@[y1])@ == k;
            if x1 == x {
                if y1 < pre[x].files@.len() {
                    assert((pre[x1].files@[y1])@ == k);
                    assert(ht_pair(pre, t, k));
                } else {
                    assert(t == t0 && k == k0);
                }
            } else {
                assert((pre[x1].files@[y1])@ == k);
                assert(ht_pair(pre, t, k));
            }
        }
        if ht_pair(pre, t, k) {
            let (x1, y1) = choose|x1: int, y1: int|
                0 <= x1 < pre.len() && 0 <= y1 < pre[x1].files@.len() && pre[x1].tag@ == t && (
                #[trigger] pre[x1].files@[y1])@ == k;
            assert((post[x1].files@[y1])@ == k);
            assert(ht_pair(post, t, k));
        }
        if t == t0 && k == k0 {
            assert((post[x].files@[post[x].files@.len() - 1])@ == k);
            assert(ht_pair(post, t, k));
        }
    }
}

/// Appending a fresh one-file entry adds exactly one tag/file pairing.
proof fn lemma_ht_pair_after_entry_push(
    pre: Seq<FileEntry>,
    post: Seq<FileEntry>,
    t0: Seq<char>,
    k0: FileKey,
)
    requires
        post.len() == pre.len() + 1,
        forall|x0: int| 0 <= x0 < pre.len() ==> post[x0] == pre[x0],
        post[pre.len() as int].tag@ == t0,
        post[pre.len() as int].files@.len() == 1,
        post[pre.len() as int].files@[0]@ == k0,
    ensures
        forall|t: Seq<char>, k: FileKey|
            ht_pair(post, t, k) == (ht_pair(pre, t, k) || (t == t0 && k == k0)),
{
    assert forall|t: Seq<char>, k: FileKey|
        ht_pair(post, t, k) == (ht_pair(pre, t, k) || (t == t0 && k == k0)) by {
        if ht_pair(post, t, k) {
            let (x1, y1) = choose|x1: int, y1: int|
                0 <= x1 < post.len() && 0 <= y1 < post[x1].files@.len() && post[x1].tag@ == t && (
                #[trigger] post[x1].files@[y1])@ == k;
            if x1 < pre.len() {
                assert((pre[x1].files@[y1])@ == k);
                assert(ht_pair(pre, t, k));
            } else {
                assert(t == t0 && k == k0);
            }
        }
        if ht_pair(pre, t, k) {
            let (x1, y1) = choose|x1: int, y1: int|
                0 <= x1 < pre.len() && 0 <= y1 < pre[x1].files@.len() && pre[x1].tag@ == t && (
                #[trigger] pre[x1].files@[y1])@ == k;
            assert((post[x1].files@[y1])@ == k);
            assert(ht_pair(post, t, k));
        }
        if t == t0 && k == k0 {
            assert((post[pre.len() as int].files@[0])@ == k);
            assert(ht_pair(post, t, k));
        }
    }
}

} // verus!
