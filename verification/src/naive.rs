//! The simplest index: a flat list of files scanned in full for every
//! operation.  It serves as the reference point the cleverer indices
//! are compared against.

use crate::fdb_trait::FileDB;
use crate::fdb_trait::FileVecIterator;
use crate::fdb_trait::GetFileError;
use crate::fdb_trait::matches_of;
use crate::fdb_trait::multi_match;
use crate::fdb_trait::no_match;
use crate::fdb_trait::unique_match;
use crate::file::File;
use crate::filequery::FileKey;
use crate::filequery::FileQuery;
use crate::filequery::key_matches;
use vstd::prelude::*;

verus! {

/// A linear-scan file database.
pub struct NaiveDBFS {
    files: Vec<File>,
}

impl NaiveDBFS {
    /// A fresh, empty database.
    pub fn new() -> (db: NaiveDBFS)
        ensures
            db.db_inv(),
            db.db_files() == Set::<FileKey>::empty(),
    {
        let db = NaiveDBFS { files: Vec::new() };
        proof {
            assert(db.db_files() =~= Set::<FileKey>::empty());
        }
        db
    }

    /// Whether an identical file is already stored.
    fn holds_exactly(&self, f: &File) -> (r: bool)
        requires
            self.db_inv(),
            f.inv(),
        ensures
            r == self.db_files().contains(f@),
    {
        let n = self.files.len();
        let mut x: usize = 0;
        while x < n
            invariant
                x <= n,
                n == self.files@.len(),
                self.db_inv(),
                f.inv(),
                forall|y: int| 0 <= y < x ==> (#[trigger] self.files@[y])@ != f@,
            decreases n - x,
        {
            let stored = &self.files[x];
            if stored.name_ref().eq(f.name_ref()) && stored.tags_eq(f) {
                proof {
                    assert(self.files@[x as int]@ =~= f@);
                }
                return true;
            }
            proof {
                if self.files@[x as int]@ == f@ {
                    assert(false);
                }
            }
            x = x + 1;
        }
        proof {
            if self.db_files().contains(f@) {
                let y = choose|y: int| 0 <= y < self.files@.len() && self.files@[y]@ == f@;
                assert(self.files@[y]@ != f@);
            }
        }
        false
    }
}

impl FileDB for NaiveDBFS {
    type FileIterator = FileVecIterator;

    closed spec fn db_inv(&self) -> bool {
        &&& forall|x: int| 0 <= x < self.files@.len() ==> (#[trigger] self.files@[x]).inv()
        &&& forall|x: int, y: int|
            0 <= x < y < self.files@.len() ==> self.files@[x]@ != self.files@[y]@
    }

    closed spec fn db_files(&self) -> Set<FileKey> {
        Set::new(
            |k: FileKey| exists|x: int| 0 <= x < self.files@.len() && self.files@[x]@ == k,
        )
    }

    /// Store a copy of `new_file`; an exact duplicate is refused and
    /// nothing changes.
    fn add_file(&mut self, new_file: &File) -> (r: Option<()>)
        ensures
            r is Some <==> !old(self).db_files().contains(new_file@),
            r is Some ==> final(self).db_files() == old(self).db_files().insert(new_file@),
            r is None ==> final(self).db_files() == old(self).db_files(),
    {
        if self.holds_exactly(new_file) {
            None
        } else {
            let ghost oldv = self.files@;
            self.files.push(new_file.duplicate());
            proof {
                assert forall|k: FileKey| self.db_files().contains(k) implies old(
                    self,
                ).db_files().insert(new_file@).contains(k) by {
                    let x = choose|x: int| 0 <= x < self.files@.len() && self.files@[x]@ == k;
                    if x < oldv.len() {
                        assert(oldv[x]@ == k);
                    }
                }
                assert forall|k: FileKey|
                    old(self).db_files().insert(new_file@).contains(k) implies self.db_files()
                    .contains(k) by {
                    if k == new_file@ {
                        assert(self.files@[oldv.len() as int]@ == k);
                    } else {
                        let x = choose|x: int| 0 <= x < oldv.len() && oldv[x]@ == k;
                        assert(self.files@[x]@ == k);
                    }
                }
                assert(self.db_files() =~= old(self).db_files().insert(new_file@));
            }
            Some(())
        }
    }

    /// Gather every stored file matching the query; the result holds
    /// exactly the matching files, each once.
    fn get_files<F: FileQuery>(&self, query: &F) -> (it: FileVecIterator)
        ensures
            it.inv(),
            forall|k: FileKey|
                it.remaining().contains(k) == matches_of(
                    self.db_files(),
                    query.q_tags(),
                    query.q_name(),
                ).contains(k),
            forall|x: int, y: int|
                0 <= x < y < it.remaining().len() ==> it.remaining()[x] != it.remaining()[y],
    {
        let n = self.files.len();
        let mut out: Vec<File> = Vec::new();
        let mut x: usize = 0;
        while x < n
            invariant
                x <= n,
                n == self.files@.len(),
                self.db_inv(),
                query.q_inv(),
                forall|z: int| 0 <= z < out@.len() ==> (#[trigger] out@[z]).inv(),
                forall|z: int|
                    0 <= z < out@.len() ==> key_matches(
                        query.q_tags(),
                        query.q_name(),
                        (#[trigger] out@[z])@,
                    ),
                forall|z: int|
                    0 <= z < out@.len() ==> exists|y: int|
                        0 <= y < x && self.files@[y]@ == (#[trigger] out@[z])@,
                forall|y: int|
                    0 <= y < x && key_matches(
                        query.q_tags(),
                        query.q_name(),
                        (#[trigger] self.files@[y])@,
                    ) ==> exists|z: int| 0 <= z < out@.len() && out@[z]@ == self.files@[y]@,
                forall|z1: int, z2: int| 0 <= z1 < z2 < out@.len() ==> out@[z1]@ != out@[z2]@,
            decreases n - x,
        {
            let is_match = query.could_match(&self.files[x]);
            let ghost oldout = out@;
            if is_match {
                out.push(self.files[x].duplicate());
            }
            proof {
                if is_match {
                    assert(out@[oldout.len() as int]@ == self.files@[x as int]@);
                    assert forall|z1: int, z2: int|
                        0 <= z1 < z2 < out@.len() implies out@[z1]@ != out@[z2]@ by {
                        if z2 == oldout.len() {
                            let y = choose|y: int| 0 <= y < x && self.files@[y]@ == oldout[z1]@;
                            assert(out@[z1] == oldout[z1]);
                            assert(self.files@[y]@ != self.files@[x as int]@);
                        } else {
                            assert(out@[z1] == oldout[z1]);
                            assert(out@[z2] == oldout[z2]);
                        }
                    }
                }
                assert forall|y: int|
                    0 <= y < x + 1 && key_matches(
                        query.q_tags(),
                        query.q_name(),
                        (#[trigger] self.files@[y])@,
                    ) implies exists|z: int| 0 <= z < out@.len() && out@[z]@
                    == self.files@[y]@ by {
                    if y == x {
                        assert(out@[oldout.len() as int]@ == self.files@[y]@);
                    } else {
                        let z = choose|z: int|
                            0 <= z < oldout.len() && oldout[z]@ == self.files@[y]@;
                        assert(out@[z]@ == self.files@[y]@);
                    }
                }
            }
            x = x + 1;
        }
        let ghost outv = out@;
        let it = FileVecIterator::from_vec(out);
        proof {
            let m = matches_of(self.db_files(), query.q_tags(), query.q_name());
            assert(it.remaining() == outv.map_values(|f: File| f@));
            assert forall|k: FileKey| it.remaining().contains(k) implies m.contains(k) by {
                let z = choose|z: int| 0 <= z < it.remaining().len() && it.remaining()[z] == k;
                assert(outv[z]@ == k);
                let y = choose|y: int| 0 <= y < self.files@.len() && self.files@[y]@ == outv[z]@;
                assert(self.db_files().contains(k));
            }
            assert forall|k: FileKey| m.contains(k) implies it.remaining().contains(k) by {
                let y = choose|y: int| 0 <= y < self.files@.len() && self.files@[y]@ == k;
                let z = choose|z: int| 0 <= z < outv.len() && outv[z]@ == self.files@[y]@;
                assert(it.remaining()[z] == outv[z]@);
            }
            assert forall|z1: int, z2: int|
                0 <= z1 < z2 < it.remaining().len() implies it.remaining()[z1]
                != it.remaining()[z2] by {
                assert(it.remaining()[z1] == outv[z1]@);
                assert(it.remaining()[z2] == outv[z2]@);
            }
        }
        it
    }

    /// The single matching file, or which way the lookup failed.
    fn get_file<F: FileQuery>(&self, query: &F) -> (r: Result<File, GetFileError>)
        ensures
            ({
                let m = matches_of(self.db_files(), query.q_tags(), query.q_name());
                &&& (r == Result::<File, GetFileError>::Err(GetFileError::NoSuchFile)) <==> no_match(
                    m,
                )
                &&& (r matches Ok(f) ==> unique_match(m, f@))
                &&& (r == Result::<File, GetFileError>::Err(GetFileError::TooManyFiles))
                    <==> multi_match(m)
            }),
    {
        let ghost m = matches_of(self.db_files(), query.q_tags(), query.q_name());
        let n = self.files.len();
        let mut found: Option<File> = None;
        let mut x: usize = 0;
        while x < n
            invariant
                x <= n,
                n == self.files@.len(),
                self.db_inv(),
                query.q_inv(),
                m == matches_of(self.db_files(), query.q_tags(), query.q_name()),
                match found {
                    Some(f) => {
                        &&& f.inv()
                        &&& m.contains(f@)
                        &&& exists|y: int| 0 <= y < x && self.files@[y]@ == f@
                        &&& forall|y: int|
                            0 <= y < x && m.contains((#[trigger] self.files@[y])@)
                                ==> self.files@[y]@ == f@
                    },
                    None => forall|y: int|
                        0 <= y < x ==> !m.contains((#[trigger] self.files@[y])@),
                },
            decreases n - x,
        {
            if query.could_match(&self.files[x]) {
                proof {
                    assert(m.contains(self.files@[x as int]@));
                }
                match &found {
                    Some(prior) => {
                        proof {
                            let y = choose|y: int|
                                0 <= y < x && self.files@[y]@ == prior@;
                            assert(self.files@[y]@ != self.files@[x as int]@);
                            assert(multi_match(m));
                        }
                        return Err(GetFileError::TooManyFiles);
                    },
                    None => {
                        found = Some(self.files[x].duplicate());
                    },
                }
            }
            x = x + 1;
        }
        match found {
            Some(f) => {
                proof {
                    assert forall|k2: FileKey| m.contains(k2) implies k2 == f@ by {
                        let y = choose|y: int|
                            0 <= y < self.files@.len() && self.files@[y]@ == k2;
                        assert(m.contains(self.files@[y]@));
                    }
                    assert(unique_match(m, f@));
                    if multi_match(m) {
                        let (a, b) = choose|a: FileKey, b: FileKey|
                            m.contains(a) && m.contains(b) && a != b;
                        assert(a == f@ && b == f@);
                    }
                }
                Ok(f)
            },
            None => {
                proof {
                    assert forall|k2: FileKey| !m.contains(k2) by {
                        if m.contains(k2) {
                            let y = choose|y: int|
                                0 <= y < self.files@.len() && self.files@[y]@ == k2;
                            assert(!m.contains(self.files@[y]@));
                        }
                    }
                    if multi_match(m) {
                        let (a, b) = choose|a: FileKey, b: FileKey|
                            m.contains(a) && m.contains(b) && a != b;
                    }
                }
                Err(GetFileError::NoSuchFile)
            },
        }
    }
}

} // verus!
