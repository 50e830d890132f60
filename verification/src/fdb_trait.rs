//! The contract every index implementation honours: add a file unless
//! an identical one is stored, enumerate every file matching a query,
//! or fetch the one file matching a query.

use crate::file::File;
use crate::filequery::FileKey;
use crate::filequery::FileQuery;
use crate::filequery::key_matches;
use vstd::prelude::*;

verus! {

/// Failure of a single-file lookup.
#[derive(Debug, PartialEq, Eq, Structural, Clone, Copy)]
pub enum GetFileError {
    /// The lookup matched no stored file.
    NoSuchFile,
    /// The lookup matched more than one stored file.
    TooManyFiles,
}

/// The stored files that satisfy a query.
pub open spec fn matches_of(
    files: Set<FileKey>,
    qtags: Set<Seq<char>>,
    qname: Option<Seq<char>>,
) -> Set<FileKey> {
    Set::new(|k: FileKey| files.contains(k) && key_matches(qtags, qname, k))
}

/// The match set is empty.
pub open spec fn no_match(m: Set<FileKey>) -> bool {
    forall|k: FileKey| !m.contains(k)
}

/// `k` is the one and only member of the match set.
pub open spec fn unique_match(m: Set<FileKey>, k: FileKey) -> bool {
    m.contains(k) && forall|k2: FileKey| m.contains(k2) ==> k2 == k
}

/// The match set holds at least two distinct files.
pub open spec fn multi_match(m: Set<FileKey>) -> bool {
    exists|a: FileKey, b: FileKey| m.contains(a) && m.contains(b) && a != b
}

/// No false negatives: a stored file carrying tag `t` satisfies every
/// query that requires only `t`, so an enumeration or lookup whose
/// contract is stated over `matches_of` must surface it.
pub proof fn lemma_single_tag_query_finds(files: Set<FileKey>, k: FileKey, t: Seq<char>)
    requires
        files.contains(k),
        k.tags.contains(t),
    ensures
        matches_of(files, Set::<Seq<char>>::empty().insert(t), None).contains(k),
{
    assert(Set::<Seq<char>>::empty().insert(t).subset_of(k.tags));
}

/// Superset semantics: a query that fixes no name matches exactly the
/// stored files whose tag set holds every required tag; and since the
/// required tags form a set, the order they were supplied in cannot
/// matter.
pub proof fn lemma_superset_semantics(files: Set<FileKey>, qtags: Set<Seq<char>>, k: FileKey)
    ensures
        matches_of(files, qtags, None).contains(k) <==> (files.contains(k) && qtags.subset_of(
            k.tags,
        )),
{
}

/// Exactness: when a stored file is queried by its own name and tag
/// set and no other stored file satisfies that query, the file is the
/// unique match, so a lookup whose contract is stated over
/// `matches_of` must hand back exactly that file.
pub proof fn lemma_exact_query_unique(files: Set<FileKey>, k: FileKey)
    requires
        files.contains(k),
        forall|k2: FileKey|
            files.contains(k2) && key_matches(k.tags, Some(k.name), k2) ==> k2 == k,
    ensures
        unique_match(matches_of(files, k.tags, Some(k.name)), k),
{
    assert(k.tags.subset_of(k.tags));
    assert(matches_of(files, k.tags, Some(k.name)).contains(k));
}

/// A file database: an abstract set of stored files, consulted through
/// queries.  Each implementation describes its stored set with
/// `db_files` and states its own, stronger, contracts on top of these.
pub trait FileDB: Sized {
    /// The enumeration type `get_files` hands back.
    type FileIterator;

    /// Validity of the implementation's internal structure.
    spec fn db_inv(&self) -> bool;

    /// The abstract set of files stored.
    spec fn db_files(&self) -> Set<FileKey>;

    /// Add a file to the database; fail, leaving the stored set alone,
    /// if it collides exactly with a stored file.
    fn add_file(&mut self, new_file: &File) -> (r: Option<()>)
        requires
            old(self).db_inv(),
            new_file.inv(),
        ensures
            final(self).db_inv(),
    ;

    /// Enumerate every stored file that matches the query.
    fn get_files<F: FileQuery>(&self, query: &F) -> (it: Self::FileIterator)
        requires
            self.db_inv(),
            query.q_inv(),
    ;

    /// The single stored file matching the query; `NoSuchFile` when
    /// none matches and `TooManyFiles` when more than one does.
    fn get_file<F: FileQuery>(&self, query: &F) -> (r: Result<File, GetFileError>)
        requires
            self.db_inv(),
            query.q_inv(),
        ensures
            r matches Ok(f) ==> f.inv(),
    ;
}

/// An enumeration over an already-gathered list of files, handed out
/// one file at a time.
pub struct FileVecIterator {
    files: Vec<File>,
    current: usize,
}

impl FileVecIterator {
    /// The files not yet handed out, in order.
    pub closed spec fn remaining(&self) -> Seq<FileKey> {
        self.files@.map_values(|f: File| f@).subrange(
            self.current as int,
            self.files@.len() as int,
        )
    }

    /// Validity: the cursor is in range and every file is well formed.
    pub closed spec fn inv(&self) -> bool {
        &&& self.current <= self.files@.len()
        &&& forall|x: int| 0 <= x < self.files@.len() ==> (#[trigger] self.files@[x]).inv()
    }

    /// Wrap a gathered list of files.
    pub(crate) fn from_vec(files: Vec<File>) -> (it: FileVecIterator)
        requires
            forall|x: int| 0 <= x < files@.len() ==> (#[trigger] files@[x]).inv(),
        ensures
            it.inv(),
            it.remaining() == files@.map_values(|f: File| f@),
    {
        let it = FileVecIterator { files, current: 0 };
        proof {
            assert(it.remaining() =~= it.files@.map_values(|f: File| f@));
        }
        it
    }

    /// Hand out the next file, or nothing once every file is out.
    pub fn next(&mut self) -> (r: Option<File>)
        requires
            old(self).inv(),
        ensures
            final(self).inv(),
            old(self).remaining().len() > 0 ==> (r matches Some(f) && f.inv() && f@ == old(
                self,
            ).remaining()[0] && final(self).remaining() == old(self).remaining().drop_first()),
            old(self).remaining().len() == 0 ==> r is None && final(self).remaining() == old(
                self,
            ).remaining(),
    {
        if self.current < self.files.len() {
            let f = self.files[self.current].duplicate();
            self.current = self.current + 1;
            proof {
                assert(self.remaining() =~= old(self).remaining().drop_first());
            }
            Some(f)
        } else {
            None
        }
    }

    /// How many files are still to come.
    pub fn len(&self) -> (n: usize)
        requires
            self.inv(),
        ensures
            n == self.remaining().len(),
    {
        self.files.len() - self.current
    }
}

} // verus!
