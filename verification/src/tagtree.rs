//! The mask-routed tree index: a fixed fan-out tree whose interior
//! nodes use 32-bit tag masks to decide which subtrees can possibly
//! hold a match, and which restructures itself as files accumulate.

pub(crate) mod branchnode;
pub(crate) mod endnode;
pub(crate) mod endnodeiterator;
pub(crate) mod multiendnodeiterator;
pub(crate) mod nodeiterator;
pub(crate) mod tagmaskbits;

use crate::fdb_trait::FileDB;
use crate::fdb_trait::GetFileError;
use crate::fdb_trait::matches_of;
use crate::fdb_trait::multi_match;
use crate::fdb_trait::no_match;
use crate::fdb_trait::unique_match;
use crate::file::File;
use crate::filequery::FileKey;
use crate::filequery::FileQuery;
use branchnode::BranchNode;
use branchnode::node_files;
use branchnode::node_wf;
use endnode::EndNode;
use multiendnodeiterator::MultiNodeIterator;
use nodeiterator::NodeIterator;
use vstd::prelude::*;

verus! {

/// One position in the tree.  A node starts life `Empty`, becomes an
/// `End` leaf on its first accepted file, and is promoted to a
/// `Branch` when it must hold files with differing tag sets.
#[derive(Debug)]
pub enum Node {
    Branch(BranchNode),
    End(EndNode),
    Empty,
}

/// Facade that owns the root of the mask tree and retries an insert
/// once after forcing a root split.
#[derive(Debug)]
pub struct TagTreeDBFS {
    root: Node,
}

impl TagTreeDBFS {
    /// A fresh tree: a root branch with every slot still empty.
    pub fn new() -> (db: TagTreeDBFS)
        ensures
            db.db_inv(),
            db.db_files() == Set::<FileKey>::empty(),
    {
        TagTreeDBFS { root: Node::Branch(BranchNode::new()) }
    }

    /// Replace the root branch by its half-split form: the same stored
    /// files, with the root's former children pushed one level down
    /// and fresh capacity beside them.
    fn replace_node(&mut self)
        requires
            old(self).db_inv(),
        ensures
            final(self).db_inv(),
            final(self).db_files() == old(self).db_files(),
            final(self).root is Branch && final(self).root->Branch_0.has_empty_slot(),
    {
        match &mut self.root {
            Node::Branch(b) => {
                let replacement = b.make_half_split_node();
                *b = replacement;
            },
            _ => {
                proof {
                    assert(false);
                }
            },
        }
    }
}

impl FileDB for TagTreeDBFS {
    type FileIterator = NodeIterator;

    closed spec fn db_inv(&self) -> bool {
        node_wf(self.root) && self.root is Branch
    }

    closed spec fn db_files(&self) -> Set<FileKey> {
        node_files(self.root)
    }

    /// Store a copy of `new_file`; an exact duplicate is refused and
    /// nothing changes.  A fresh file is always accepted: if the root
    /// is saturated it is split once and the insert retried.
    fn add_file(&mut self, new_file: &File) -> (r: Option<()>)
        ensures
            r is Some <==> !old(self).db_files().contains(new_file@),
            r is Some ==> final(self).db_files() == old(self).db_files().insert(new_file@),
            r is None ==> final(self).db_files() == old(self).db_files(),
    {
        let is_dup = match &self.root {
            Node::Branch(b) => b.contains_file(new_file),
            _ => {
                proof {
                    assert(false);
                }
                false
            },
        };
        if is_dup {
            return None;
        }
        let first = match &mut self.root {
            Node::Branch(b) => b.add_file(new_file),
            _ => {
                proof {
                    assert(false);
                }
                None
            },
        };
        if first.is_some() {
            return Some(());
        }
        self.replace_node();
        let second = match &mut self.root {
            Node::Branch(b) => {
                let r2 = b.add_file(new_file);
                proof {
                    assert(r2 is Some);
                }
                r2
            },
            _ => {
                proof {
                    assert(false);
                }
                None
            },
        };
        proof {
            assert(second is Some);
        }
        Some(())
    }

    /// Enumerate every stored file that matches the query, lazily, in
    /// slot order at each level.
    fn get_files<F: FileQuery>(&self, query: &F) -> (it: NodeIterator)
        ensures
            it.inv(),
            forall|k: FileKey|
                it.views().contains(k) == matches_of(
                    self.db_files(),
                    query.q_tags(),
                    query.q_name(),
                ).contains(k),
            forall|x: int, y: int| 0 <= x < y < it.views().len() ==> it.views()[x] != it.views()[y],
    {
        match &self.root {
            Node::Branch(b) => NodeIterator::MultiNodeIter(b.get_files(query)),
            Node::End(e) => NodeIterator::EndNodeIter(e.get_files(query)),
            Node::Empty => {
                let it = NodeIterator::MultiNodeIter(MultiNodeIterator::empty());
                proof {
                    assert(node_files(self.root) == Set::<FileKey>::empty());
                }
                it
            },
        }
    }

    /// The single stored file matching the query, or which way the
    /// lookup failed.
    fn get_file<F: FileQuery>(&self, query: &F) -> (r: Result<File, GetFileError>)
        ensures
            ({
                let m = matches_of(self.db_files(), query.q_tags(), query.q_name());
                &&& (r == Result::<File, GetFileError>::Err(GetFileError::NoSuchFile)) <==> no_match(
                    m,
                )
                &&& (r matches Ok(f) ==> unique_match(m, f@))
                &&& (r == Result::<File, GetFileError>::Err(GetFileError::TooManyFiles))
                    <==> multi_match(m)
            }),
    {
        match &self.root {
            Node::Branch(b) => b.get_file(query),
            Node::End(e) => e.get_file(query),
            Node::Empty => {
                proof {
                    assert(forall|k: FileKey|
                        !matches_of(
                            self.db_files(),
                            query.q_tags(),
                            query.q_name(),
                        ).contains(k));
                    crate::tagtree::endnode::lemma_empty_not_multi(
                        matches_of(self.db_files(), query.q_tags(), query.q_name()),
                    );
                }
                Err(GetFileError::NoSuchFile)
            },
        }
    }
}

} // verus!

