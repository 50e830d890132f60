//! The composite enumeration: an ordered list of child enumerations,
//! one per matched slot, exhausted left to right.

use super::nodeiterator::NodeIterator;
use crate::file::File;
use crate::filequery::FileKey;
use vstd::prelude::*;

verus! {

/// The files a node-level enumeration still has to hand out.
pub open spec fn nit_views(it: NodeIterator) -> Seq<FileKey>
    decreases it, 2int,
{
    match it {
        NodeIterator::EndNodeIter(e) => e.remaining(),
        NodeIterator::MultiNodeIter(m) => m.remaining(),
    }
}

/// Validity of a node-level enumeration.
pub open spec fn nit_inv(it: NodeIterator) -> bool
    decreases it, 2int,
{
    match it {
        NodeIterator::EndNodeIter(e) => e.inv(),
        NodeIterator::MultiNodeIter(m) => m.inv(),
    }
}

/// Nesting depth of a node-level enumeration.
pub open spec fn nit_height(it: NodeIterator) -> nat
    decreases it, 2int,
{
    match it {
        NodeIterator::EndNodeIter(e) => 0,
        NodeIterator::MultiNodeIter(m) => m.height(),
    }
}

/// The files still to come from the children from position `b` on,
/// concatenated in order.
pub open spec fn concat_from(s: Seq<NodeIterator>, b: int) -> Seq<FileKey>
    decreases s, s.len() - b,
{
    if b < 0 || b >= s.len() {
        Seq::<FileKey>::empty()
    } else {
        nit_views(s[b]) + concat_from(s, b + 1)
    }
}

/// The deepest nesting among the children from position `k` down.
pub open spec fn iters_height_upto(s: Seq<NodeIterator>, k: int) -> nat
    decreases s, k,
{
    if k <= 0 || k > s.len() {
        0
    } else {
        let rest = iters_height_upto(s, k - 1);
        let h = nit_height(s[k - 1]);
        if h > rest {
            h
        } else {
            rest
        }
    }
}

/// Membership in a concatenation is membership in some child.
pub(crate) proof fn lemma_concat_iff(s: Seq<NodeIterator>, b: int)
    requires
        0 <= b,
    ensures
        forall|k: FileKey|
            concat_from(s, b).contains(k) <==> exists|z: int|
                b <= z < s.len() && nit_views(#[trigger] s[z]).contains(k),
    decreases s.len() - b,
{
    if b < s.len() {
        lemma_concat_iff(s, b + 1);
        assert forall|k: FileKey| concat_from(s, b).contains(k) implies exists|z: int|
            b <= z < s.len() && nit_views(#[trigger] s[z]).contains(k) by {
            let x = choose|x: int| 0 <= x < concat_from(s, b).len() && concat_from(s, b)[x] == k;
            if x < nit_views(s[b]).len() {
                assert(nit_views(s[b]).contains(k));
            } else {
                assert(concat_from(s, b + 1).contains(k));
            }
        }
        assert forall|k: FileKey|
            (exists|z: int| b <= z < s.len() && nit_views(#[trigger] s[z]).contains(k))
                implies concat_from(s, b).contains(k) by {
            let z = choose|z: int| b <= z < s.len() && nit_views(#[trigger] s[z]).contains(k);
            if z == b {
                let x = choose|x: int|
                    0 <= x < nit_views(s[b]).len() && nit_views(s[b])[x] == k;
                assert(concat_from(s, b)[x] == k);
            } else {
                assert(concat_from(s, b + 1).contains(k));
                let x = choose|x: int|
                    0 <= x < concat_from(s, b + 1).len() && #[trigger] concat_from(s, b + 1)[x]
                        == k;
                assert(concat_from(s, b)[x + nit_views(s[b]).len()] == k);
            }
        }
    }
}

/// Children that agree from `b` on produce the same concatenation.
pub(crate) proof fn lemma_concat_agree(s1: Seq<NodeIterator>, s2: Seq<NodeIterator>, b: int)
    requires
        s1.len() == s2.len(),
        forall|z: int| b <= z < s1.len() ==> s1[z] == s2[z],
    ensures
        concat_from(s1, b) == concat_from(s2, b),
    decreases s1.len() - b,
{
    if 0 <= b && b < s1.len() {
        lemma_concat_agree(s1, s2, b + 1);
        assert(concat_from(s1, b) =~= concat_from(s2, b));
    } else {
        assert(concat_from(s1, b) =~= concat_from(s2, b));
    }
}

/// A concatenation of repeat-free children whose contents are pairwise
/// disjoint is itself repeat-free.
pub(crate) proof fn lemma_concat_nodup(s: Seq<NodeIterator>, b: int)
    requires
        0 <= b,
        forall|z: int, x: int, y: int|
            b <= z < s.len() && 0 <= x < y < nit_views(s[z]).len() ==> #[trigger] nit_views(
                s[z],
            )[x] != #[trigger] nit_views(s[z])[y],
        forall|z1: int, z2: int, k: FileKey|
            b <= z1 < s.len() && b <= z2 < s.len() && z1 != z2 && #[trigger] nit_views(
                s[z1],
            ).contains(k) ==> !(#[trigger] nit_views(s[z2]).contains(k)),
    ensures
        forall|x: int, y: int|
            0 <= x < y < concat_from(s, b).len() ==> concat_from(s, b)[x] != concat_from(s, b)[y],
    decreases s.len() - b,
{
    if b < s.len() {
        lemma_concat_nodup(s, b + 1);
        lemma_concat_iff(s, b + 1);
        let hd = nit_views(s[b]);
        let tl = concat_from(s, b + 1);
        assert forall|x: int, y: int|
            0 <= x < y < concat_from(s, b).len() implies concat_from(s, b)[x] != concat_from(
            s,
            b,
        )[y] by {
            if y < hd.len() {
            } else if x >= hd.len() {
                assert(concat_from(s, b)[x] == tl[x - hd.len()]);
                assert(concat_from(s, b)[y] == tl[y - hd.len()]);
            } else {
                assert(concat_from(s, b)[x] == hd[x]);
                assert(concat_from(s, b)[y] == tl[y - hd.len()]);
                if hd[x] == tl[y - hd.len()] {
                    assert(nit_views(s[b]).contains(hd[x]));
                    assert(tl.contains(hd[x]));
                    let z = choose|z: int|
                        b + 1 <= z < s.len() && nit_views(#[trigger] s[z]).contains(hd[x]);
                    assert(false);
                }
            }
        }
    }
}

/// A composite enumeration: child enumerations drained left to right.
#[derive(Debug)]
pub struct MultiNodeIterator {
    pub(crate) backing: Vec<NodeIterator>,
    pub(crate) current: usize,
}

impl MultiNodeIterator {
    /// The files not yet handed out.
    pub closed spec fn remaining(&self) -> Seq<FileKey>
        decreases self, 1int,
    {
        concat_from(self.backing@, self.current as int)
    }

    /// Validity: the cursor is in range and every child enumeration
    /// is valid.
    pub closed spec fn inv(&self) -> bool
        decreases self, 1int,
    {
        &&& self.current <= self.backing@.len()
        &&& forall|z: int| 0 <= z < self.backing@.len() ==> nit_inv(#[trigger] self.backing@[z])
    }

    /// Nesting depth: one above the deepest child.
    pub closed spec fn height(&self) -> nat
        decreases self, 1int,
    {
        (1 + iters_height_upto(self.backing@, self.backing@.len() as int)) as nat
    }

    /// Wrap an ordered list of child enumerations.
    pub fn new(backing: Vec<NodeIterator>) -> (it: MultiNodeIterator)
        requires
            forall|z: int| 0 <= z < backing@.len() ==> nit_inv(#[trigger] backing@[z]),
        ensures
            it.inv(),
            it.remaining() == concat_from(backing@, 0),
    {
        MultiNodeIterator { backing, current: 0 }
    }

    /// An enumeration with nothing to yield.
    pub fn empty() -> (it: MultiNodeIterator)
        ensures
            it.inv(),
            it.remaining().len() == 0,
    {
        MultiNodeIterator { backing: Vec::new(), current: 0 }
    }

    /// Hand out the next file, drawn from the leftmost child that
    /// still has one; nothing once every child is drained.
    pub fn next(&mut self) -> (r: Option<File>)
        requires
            old(self).inv(),
        ensures
            final(self).inv(),
            old(self).remaining().len() > 0 ==> (r matches Some(f) && f.inv() && f@ == old(
                self,
            ).remaining()[0] && final(self).remaining() == old(self).remaining().drop_first()),
            old(self).remaining().len() == 0 ==> r is None && final(self).remaining() == old(
                self,
            ).remaining(),
        decreases old(self).height(), 0int,
    {
        loop
            invariant
                self.inv(),
                self.current <= self.backing@.len(),
                self.backing@.len() == old(self).backing@.len(),
                forall|z: int|
                    self.current <= z < self.backing@.len() ==> self.backing@[z] == old(
                        self,
                    ).backing@[z],
                self.remaining() == old(self).remaining(),
                old(self).height() == (1 + iters_height_upto(
                    old(self).backing@,
                    old(self).backing@.len() as int,
                )) as nat,
            decreases self.backing@.len() - self.current,
        {
            if self.current >= self.backing.len() {
                proof {
                    assert(self.remaining() =~= Seq::<FileKey>::empty());
                }
                return None;
            }
            let ghost pre = self.backing@;
            let ghost cur = self.current as int;
            proof {
                lemma_height_child(old(self).backing@, cur);
                assert(self.backing@[cur] == old(self).backing@[cur]);
            }
            let r = self.backing[self.current].next();
            proof {
                assert(self.backing@ == pre.update(cur, self.backing@[cur]));
                lemma_concat_agree(self.backing@, pre, cur + 1);
            }
            match r {
                Some(f) => {
                    proof {
                        let child_old = pre[cur];
                        let child_new = self.backing@[cur];
                        assert(nit_views(child_old).len() > 0);
                        assert(self.remaining() == nit_views(child_new) + concat_from(
                            self.backing@,
                            cur + 1,
                        ));
                        assert(old(self).remaining() == concat_from(pre, cur));
                        assert(concat_from(pre, cur) == nit_views(child_old) + concat_from(
                            pre,
                            cur + 1,
                        ));
                        assert(f@ == old(self).remaining()[0]);
                        assert(self.remaining() =~= old(self).remaining().drop_first());
                    }
                    return Some(f);
                },
                None => {
                    proof {
                        let child_old = pre[cur];
                        assert(nit_views(child_old).len() == 0);
                        assert(self.remaining() == nit_views(self.backing@[cur]) + concat_from(
                            self.backing@,
                            cur + 1,
                        ));
                        assert(self.remaining() =~= concat_from(self.backing@, cur + 1));
                    }
                    self.current = self.current + 1;
                },
            }
        }
    }

    /// How many files are still to come, over all children.
    pub fn len(&self) -> (n: usize)
        requires
            self.inv(),
            self.remaining().len() <= usize::MAX,
        ensures
            n == self.remaining().len(),
        decreases self.height(), 0int,
    {
        let mut acc: usize = 0;
        let mut z: usize = self.current;
        while z < self.backing.len()
            invariant
                self.inv(),
                self.current as int <= z <= self.backing@.len(),
                acc as int + concat_from(self.backing@, z as int).len() == self.remaining().len(),
                self.remaining().len() <= usize::MAX,
            decreases self.backing@.len() - z,
        {
            proof {
                lemma_height_child(self.backing@, z as int);
                assert(concat_from(self.backing@, z as int) == nit_views(self.backing@[z as int])
                    + concat_from(self.backing@, z as int + 1));
            }
            let c = self.backing[z].len();
            acc = acc + c;
            z = z + 1;
        }
        acc
    }
}

/// A child's nesting stays strictly below its composite's.
pub(crate) proof fn lemma_height_child(s: Seq<NodeIterator>, z: int)
    requires
        0 <= z < s.len(),
    ensures
        nit_height(s[z]) < (1 + iters_height_upto(s, s.len() as int)) as nat,
{
    lemma_iters_height_ge(s, s.len() as int, z);
}

proof fn lemma_iters_height_ge(s: Seq<NodeIterator>, k: int, i: int)
    requires
        0 <= i < k <= s.len(),
    ensures
        iters_height_upto(s, k) >= nit_height(s[i]),
    decreases k,
{
    if i < k - 1 {
        lemma_iters_height_ge(s, k - 1, i);
    }
}

} // verus!
