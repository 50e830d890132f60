//! Lazy enumeration of a leaf's files: each stored name is paired with
//! the leaf's pinned tag set as it is handed out.

use crate::file::File;
use crate::filequery::FileKey;
use crate::tagset::TagSet;
use vstd::prelude::*;

verus! {

/// Enumerates the files of one leaf: a list of names, each yielded
/// together with one shared tag set.
#[derive(Debug)]
pub struct EndNodeIterator {
    file_names: Vec<String>,
    tags: TagSet,
    current: usize,
}

impl EndNodeIterator {
    /// The files not yet handed out, in name order.
    pub closed spec fn remaining(&self) -> Seq<FileKey> {
        self.file_names@.map_values(|n: String| FileKey { name: n@, tags: self.tags@ }).subrange(
            self.current as int,
            self.file_names@.len() as int,
        )
    }

    /// Validity: the cursor is in range and the tag set is well formed.
    pub closed spec fn inv(&self) -> bool {
        &&& self.current <= self.file_names@.len()
        &&& self.tags.inv()
    }

    /// An enumeration with nothing to yield.
    pub fn empty() -> (it: EndNodeIterator)
        ensures
            it.inv(),
            it.remaining().len() == 0,
    {
        let it = EndNodeIterator { file_names: Vec::new(), tags: TagSet::new(), current: 0 };
        proof {
            assert(it.remaining() =~= Seq::<FileKey>::empty());
        }
        it
    }

    /// Pair each of the given names with the given tag set.
    pub fn new(file_names: &Vec<String>, tags: &TagSet) -> (it: EndNodeIterator)
        requires
            tags.inv(),
        ensures
            it.inv(),
            it.remaining().len() == file_names@.len(),
            forall|x: int|
                0 <= x < file_names@.len() ==> it.remaining()[x] == (FileKey {
                    name: file_names@[x]@,
                    tags: tags@,
                }),
    {
        let names = file_names.clone();
        proof {
            assert forall|x: int| 0 <= x < names@.len() implies names@[x] == file_names@[x] by {
                assert(vstd::pervasive::cloned(file_names@[x], names@[x]));
            }
            assert(names@ =~= file_names@);
        }
        let it = EndNodeIterator { file_names: names, tags: tags.duplicate(), current: 0 };
        proof {
            assert(it.remaining() =~= it.file_names@.map_values(
                |n: String| FileKey { name: n@, tags: it.tags@ },
            ));
        }
        it
    }

    /// Hand out the next file, or nothing once every file is out.
    pub fn next(&mut self) -> (r: Option<File>)
        requires
            old(self).inv(),
        ensures
            final(self).inv(),
            old(self).remaining().len() > 0 ==> (r matches Some(f) && f.inv() && f@ == old(
                self,
            ).remaining()[0] && final(self).remaining() == old(self).remaining().drop_first()),
            old(self).remaining().len() == 0 ==> r is None && final(self).remaining() == old(
                self,
            ).remaining(),
    {
        if self.current < self.file_names.len() {
            let f = File::new(self.file_names[self.current].clone(), self.tags.duplicate());
            self.current = self.current + 1;
            proof {
                assert(self.remaining() =~= old(self).remaining().drop_first());
                assert(f@ =~= old(self).remaining()[0]);
            }
            Some(f)
        } else {
            None
        }
    }

    /// How many files are still to come.
    pub fn len(&self) -> (n: usize)
        requires
            self.inv(),
        ensures
            n == self.remaining().len(),
    {
        self.file_names.len() - self.current
    }
}

} // verus!
