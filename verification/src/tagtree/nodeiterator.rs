//! The node-level enumeration: a tagged union over the leaf form and
//! the composite form, nested recursively to match tree depth.

use super::endnodeiterator::EndNodeIterator;
use super::multiendnodeiterator::MultiNodeIterator;
use super::multiendnodeiterator::nit_height;
use super::multiendnodeiterator::nit_inv;
use super::multiendnodeiterator::nit_views;
use crate::file::File;
use crate::filequery::FileKey;
use vstd::prelude::*;

verus! {

/// Whichever enumeration a node hands back: the leaf form for an end
/// node, the composite form for a branch.
#[derive(Debug)]
pub enum NodeIterator {
    EndNodeIter(EndNodeIterator),
    MultiNodeIter(MultiNodeIterator),
}

impl NodeIterator {
    /// The files not yet handed out.
    pub open spec fn views(&self) -> Seq<FileKey> {
        nit_views(*self)
    }

    /// Validity of whichever form is active.
    pub open spec fn inv(&self) -> bool {
        nit_inv(*self)
    }

    /// Hand out the next file, or nothing once every file is out.
    pub fn next(&mut self) -> (r: Option<File>)
        requires
            old(self).inv(),
        ensures
            final(self).inv(),
            old(self).views().len() > 0 ==> (r matches Some(f) && f.inv() && f@ == old(
                self,
            ).views()[0] && final(self).views() == old(self).views().drop_first()),
            old(self).views().len() == 0 ==> r is None && final(self).views() == old(self).views(),
        decreases nit_height(*old(self)), 1int,
    {
        match self {
            NodeIterator::EndNodeIter(it) => it.next(),
            NodeIterator::MultiNodeIter(it) => it.next(),
        }
    }

    /// How many files are still to come.
    pub fn len(&self) -> (n: usize)
        requires
            self.inv(),
            self.views().len() <= usize::MAX,
        ensures
            n == self.views().len(),
        decreases nit_height(*self), 1int,
    {
        match self {
            NodeIterator::EndNodeIter(it) => it.len(),
            NodeIterator::MultiNodeIter(it) => it.len(),
        }
    }
}

} // verus!
