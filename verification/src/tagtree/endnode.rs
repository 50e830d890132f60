//! The leaf of the mask tree: one pinned tag set, and the names of the
//! files that carry exactly that tag set.

use super::endnodeiterator::EndNodeIterator;
use crate::fdb_trait::GetFileError;
use crate::fdb_trait::matches_of;
use crate::fdb_trait::multi_match;
use crate::fdb_trait::no_match;
use crate::fdb_trait::unique_match;
use crate::file::File;
use crate::filequery::FileKey;
use crate::filequery::FileQuery;
use crate::filequery::key_matches;
use crate::tagset::TagSet;
use vstd::prelude::*;

verus! {

/// A leaf node: every stored name denotes a file whose tags equal the
/// pinned tag set exactly.
#[derive(Debug, Clone)]
pub struct EndNode {
    file_names: Vec<String>,
    tags: TagSet,
}

impl EndNode {
    /// The pinned tag set.
    pub closed spec fn pinned(&self) -> Set<Seq<char>> {
        self.tags@
    }

    /// The stored names, in storage order.
    pub closed spec fn names(&self) -> Seq<Seq<char>> {
        self.file_names@.map_values(|n: String| n@)
    }

    /// The files this leaf holds: each name, with the pinned tags.
    pub open spec fn files(&self) -> Set<FileKey> {
        Set::new(
            |k: FileKey|
                k.tags == self.pinned() && exists|x: int|
                    0 <= x < self.names().len() && self.names()[x] == k.name,
        )
    }

    /// Validity: no name is stored twice, and the tag set is well
    /// formed.
    pub closed spec fn inv(&self) -> bool {
        &&& forall|x: int, y: int|
            0 <= x < y < self.file_names@.len() ==> self.file_names@[x]@ != self.file_names@[y]@
        &&& self.tags.inv()
    }

    /// A valid leaf stores each name once: distinct positions of the
    /// name list spell distinct names.
    pub proof fn lemma_names_distinct(&self)
        requires
            self.inv(),
        ensures
            forall|x: int, y: int|
                0 <= x < y < self.names().len() ==> self.names()[x] != self.names()[y],
    {
        assert forall|x: int, y: int|
            0 <= x < y < self.names().len() implies self.names()[x] != self.names()[y] by {
            assert(self.names()[x] == self.file_names@[x]@);
            assert(self.names()[y] == self.file_names@[y]@);
        }
    }

    /// The exact sequence a query draws from this leaf: nothing unless
    /// the pinned tags hold every required tag; with a required name,
    /// at most the one file of that name; otherwise every stored name
    /// in storage order, each paired with the pinned tags.  A branch
    /// concatenates these leaf sequences in ascending slot order.
    pub closed spec fn matches_seq(&self, qt: Set<Seq<char>>, qn: Option<Seq<char>>) -> Seq<
        FileKey,
    > {
        if !qt.subset_of(self.pinned()) {
            Seq::<FileKey>::empty()
        } else {
            match qn {
                Some(n) => if self.names().contains(n) {
                    seq![FileKey { name: n, tags: self.pinned() }]
                } else {
                    Seq::<FileKey>::empty()
                },
                None => self.names().map_values(
                    |n: Seq<char>| FileKey { name: n, tags: self.pinned() },
                ),
            }
        }
    }

    /// A fresh leaf pinned to `tags`, holding no file yet.
    pub fn new(tags: TagSet) -> (node: Self)
        requires
            tags.inv(),
        ensures
            node.inv(),
            node.pinned() == tags@,
            node.files() == Set::<FileKey>::empty(),
    {
        let node = Self { file_names: Vec::new(), tags };
        proof {
            assert(node.files() =~= Set::<FileKey>::empty());
        }
        node
    }

    /// A copy of the pinned tag set.
    pub(crate) fn all_tags(&self) -> (r: TagSet)
        requires
            self.inv(),
        ensures
            r@ == self.pinned(),
            r.inv(),
    {
        self.tags.duplicate()
    }

    /// Whether `name` is one of the stored names.
    fn contains_name(&self, name: &String) -> (r: bool)
        ensures
            r == self.names().contains(name@),
    {
        let n = self.file_names.len();
        let mut x: usize = 0;
        while x < n
            invariant
                x <= n,
                n == self.file_names@.len(),
                forall|y: int| 0 <= y < x ==> self.file_names@[y]@ != name@,
            decreases n - x,
        {
            if self.file_names[x].eq(name) {
                proof {
                    assert(self.names()[x as int] == name@);
                }
                return true;
            }
            x = x + 1;
        }
        proof {
            if self.names().contains(name@) {
                let y = choose|y: int| 0 <= y < self.names().len() && self.names()[y] == name@;
                assert(self.file_names@[y]@ == name@);
            }
        }
        false
    }

    /// Whether this leaf holds exactly `f`: same pinned tags, name
    /// recorded.
    pub(crate) fn holds_file(&self, f: &File) -> (r: bool)
        requires
            self.inv(),
            f.inv(),
        ensures
            r == self.files().contains(f@),
    {
        let r = self.tags.set_eq(f.tag_set()) && self.contains_name(f.name_ref());
        proof {
            if r {
                assert(self.files().contains(f@));
            } else {
                if self.files().contains(f@) {
                    assert(f@.tags == self.pinned());
                    assert(self.names().contains(f@.name));
                }
            }
        }
        r
    }

    /// Accept a file whose tags equal the pinned set exactly and whose
    /// name is new; refuse, changing nothing, any other file.
    pub fn add_file(&mut self, new_file: &File) -> (r: Option<()>)
        requires
            old(self).inv(),
            new_file.inv(),
        ensures
            final(self).inv(),
            final(self).pinned() == old(self).pinned(),
            r is Some <==> (new_file@.tags == old(self).pinned() && !old(self).files().contains(
                new_file@,
            )),
            r is Some ==> final(self).files() == old(self).files().insert(new_file@),
            r is None ==> final(self).files() == old(self).files(),
    {
        let tags_match = self.tags.set_eq(new_file.tag_set());
        if !tags_match {
            proof {
                if old(self).files().contains(new_file@) {
                    assert(new_file@.tags == old(self).pinned());
                }
            }
            return None;
        }
        if self.contains_name(new_file.name_ref()) {
            proof {
                assert(old(self).files().contains(new_file@));
            }
            return None;
        }
        let ghost oldn = self.file_names@;
        self.file_names.push(new_file.name_ref().clone());
        proof {
            assert(self.names() =~= old(self).names().push(new_file@.name));
            assert forall|x: int, y: int|
                0 <= x < y < self.file_names@.len() implies self.file_names@[x]@
                != self.file_names@[y]@ by {
                if y == oldn.len() {
                    assert(self.file_names@[x]@ == oldn[x]@);
                    if oldn[x]@ == new_file@.name {
                        assert(old(self).names()[x] == new_file@.name);
                        assert(old(self).names().contains(new_file@.name));
                    }
                } else {
                    assert(self.file_names@[x]@ == oldn[x]@);
                    assert(self.file_names@[y]@ == oldn[y]@);
                }
            }
            assert forall|k: FileKey| self.files().contains(k) implies old(
                self,
            ).files().insert(new_file@).contains(k) by {
                let x = choose|x: int| 0 <= x < self.names().len() && self.names()[x] == k.name;
                if x < oldn.len() {
                    assert(old(self).names()[x] == k.name);
                    assert(old(self).files().contains(k));
                } else {
                    assert(k.name == new_file@.name);
                    assert(k =~= new_file@);
                }
            }
            assert forall|k: FileKey|
                old(self).files().insert(new_file@).contains(k) implies self.files().contains(
                k,
            ) by {
                if k == new_file@ {
                    assert(self.names()[oldn.len() as int] == k.name);
                } else {
                    let x = choose|x: int|
                        0 <= x < old(self).names().len() && old(self).names()[x] == k.name;
                    assert(self.names()[x] == k.name);
                }
            }
            assert(self.files() =~= old(self).files().insert(new_file@));
            if old(self).files().contains(new_file@) {
                assert(old(self).names().contains(new_file@.name));
            }
        }
        Some(())
    }

    /// Enumerate the stored files matching the query: none unless the
    /// pinned tags hold every required tag; with a required name, at
    /// most the one file of that name.
    pub fn get_files<F: FileQuery>(&self, query: &F) -> (it: EndNodeIterator)
        requires
            self.inv(),
            query.q_inv(),
        ensures
            it.inv(),
            it.remaining() == self.matches_seq(query.q_tags(), query.q_name()),
            forall|k: FileKey|
                it.remaining().contains(k) == matches_of(
                    self.files(),
                    query.q_tags(),
                    query.q_name(),
                ).contains(k),
            forall|x: int, y: int|
                0 <= x < y < it.remaining().len() ==> it.remaining()[x] != it.remaining()[y],
    {
        let ghost m = matches_of(self.files(), query.q_tags(), query.q_name());
        if self.tags.is_superset(query.tags()) {
            match query.name() {
                Some(file_name) => {
                    if self.contains_name(file_name) {
                        let single: Vec<String> = vec![file_name.clone()];
                        let it = EndNodeIterator::new(&single, &self.tags);
                        proof {
                            let k0 = FileKey { name: file_name@, tags: self.pinned() };
                            assert(it.remaining()[0] == k0);
                            assert(self.files().contains(k0));
                            assert forall|k: FileKey| it.remaining().contains(k) implies m.contains(
                                k,
                            ) by {
                                let z = choose|z: int|
                                    0 <= z < it.remaining().len() && it.remaining()[z] == k;
                                assert(k == k0);
                            }
                            assert forall|k: FileKey| m.contains(k) implies it.remaining().contains(
                                k,
                            ) by {
                                assert(k.tags == self.pinned());
                                assert(k.name == file_name@);
                                assert(k =~= k0);
                                assert(it.remaining()[0] == k);
                            }
                        }
                        it
                    } else {
                        let it = EndNodeIterator::empty();
                        proof {
                            assert forall|k: FileKey| !m.contains(k) by {
                                if m.contains(k) {
                                    assert(self.names().contains(k.name));
                                }
                            }
                        }
                        it
                    }
                },
                None => {
                    let it = EndNodeIterator::new(&self.file_names, &self.tags);
                    proof {
                        assert forall|k: FileKey| it.remaining().contains(k) implies m.contains(
                            k,
                        ) by {
                            let z = choose|z: int|
                                0 <= z < it.remaining().len() && it.remaining()[z] == k;
                            assert(it.remaining()[z] == (FileKey {
                                name: self.file_names@[z]@,
                                tags: self.tags@,
                            }));
                            assert(self.names()[z] == k.name);
                        }
                        assert forall|k: FileKey| m.contains(k) implies it.remaining().contains(
                            k,
                        ) by {
                            let x = choose|x: int|
                                0 <= x < self.names().len() && self.names()[x] == k.name;
                            assert(it.remaining()[x] == (FileKey {
                                name: self.file_names@[x]@,
                                tags: self.tags@,
                            }));
                            assert(it.remaining()[x] =~= k);
                        }
                        assert forall|x: int, y: int|
                            0 <= x < y < it.remaining().len() implies it.remaining()[x]
                            != it.remaining()[y] by {
                            assert(it.remaining()[x].name == self.file_names@[x]@);
                            assert(it.remaining()[y].name == self.file_names@[y]@);
                        }
                    }
                    it
                },
            }
        } else {
            let it = EndNodeIterator::empty();
            proof {
                assert forall|k: FileKey| !m.contains(k) by {
                    if m.contains(k) {
                        assert(k.tags == self.pinned());
                        assert(query.q_tags().subset_of(k.tags));
                    }
                }
            }
            it
        }
    }

    /// The single stored file matching the query, or which way the
    /// lookup failed.
    pub fn get_file<F: FileQuery>(&self, query: &F) -> (r: Result<File, GetFileError>)
        requires
            self.inv(),
            query.q_inv(),
        ensures
            ({
                let m = matches_of(self.files(), query.q_tags(), query.q_name());
                &&& (r == Result::<File, GetFileError>::Err(GetFileError::NoSuchFile)) <==> no_match(
                    m,
                )
                &&& (r matches Ok(f) ==> f.inv() && unique_match(m, f@))
                &&& (r == Result::<File, GetFileError>::Err(GetFileError::TooManyFiles))
                    <==> multi_match(m)
            }),
    {
        let ghost m = matches_of(self.files(), query.q_tags(), query.q_name());
        if !self.tags.is_superset(query.tags()) {
            proof {
                assert forall|k: FileKey| !m.contains(k) by {
                    if m.contains(k) {
                        assert(k.tags == self.pinned());
                        assert(query.q_tags().subset_of(k.tags));
                    }
                }
                lemma_empty_not_multi(m);
            }
            return Err(GetFileError::NoSuchFile);
        }
        match query.name() {
            Some(file_name) => {
                if self.contains_name(file_name) {
                    let f = File::new(file_name.clone(), self.tags.duplicate());
                    proof {
                        assert(self.files().contains(f@));
                        assert(m.contains(f@));
                        assert forall|k: FileKey| m.contains(k) implies k == f@ by {
                            assert(k.tags == self.pinned());
                            assert(k.name == file_name@);
                            assert(k =~= f@);
                        }
                        lemma_unique_not_multi(m, f@);
                    }
                    Ok(f)
                } else {
                    proof {
                        assert forall|k: FileKey| !m.contains(k) by {
                            if m.contains(k) {
                                assert(self.names().contains(k.name));
                            }
                        }
                        lemma_empty_not_multi(m);
                    }
                    Err(GetFileError::NoSuchFile)
                }
            },
            None => {
                if self.file_names.len() == 1 {
                    let f = File::new(self.file_names[0].clone(), self.tags.duplicate());
                    proof {
                        assert(self.names()[0] == f@.name);
                        assert(self.files().contains(f@));
                        assert(m.contains(f@));
                        assert forall|k: FileKey| m.contains(k) implies k == f@ by {
                            let x = choose|x: int|
                                0 <= x < self.names().len() && self.names()[x] == k.name;
                            assert(x == 0);
                            assert(k =~= f@);
                        }
                        lemma_unique_not_multi(m, f@);
                    }
                    Ok(f)
                } else if self.file_names.len() == 0 {
                    proof {
                        assert forall|k: FileKey| !m.contains(k) by {
                            if m.contains(k) {
                                let x = choose|x: int|
                                    0 <= x < self.names().len() && self.names()[x] == k.name;
                            }
                        }
                        lemma_empty_not_multi(m);
                    }
                    Err(GetFileError::NoSuchFile)
                } else {
                    proof {
                        let ka = FileKey { name: self.names()[0], tags: self.pinned() };
                        let kb = FileKey { name: self.names()[1], tags: self.pinned() };
                        assert(self.files().contains(ka));
                        assert(self.files().contains(kb));
                        assert(m.contains(ka));
                        assert(m.contains(kb));
                        assert(self.file_names@[0]@ != self.file_names@[1]@);
                        assert(ka != kb);
                    }
                    Err(GetFileError::TooManyFiles)
                }
            },
        }
    }
}

/// An empty match set is neither unique nor plural.
pub(crate) proof fn lemma_empty_not_multi(m: Set<FileKey>)
    requires
        no_match(m),
    ensures
        !multi_match(m),
{
    if multi_match(m) {
        let (a, b) = choose|a: FileKey, b: FileKey| m.contains(a) && m.contains(b) && a != b;
    }
}

/// A match set with one designated sole member is not plural.
pub(crate) proof fn lemma_unique_not_multi(m: Set<FileKey>, k: FileKey)
    requires
        unique_match(m, k),
    ensures
        !multi_match(m),
        !no_match(m),
{
    if multi_match(m) {
        let (a, b) = choose|a: FileKey, b: FileKey| m.contains(a) && m.contains(b) && a != b;
        assert(a == k && b == k);
    }
}

} // verus!
