//! The interior node of the mask tree: 32 child slots, a per-tag map
//! of 32-bit masks recording which slots may hold a file carrying the
//! tag, and the insertion, lookup and restructuring algorithms.

use super::super::tagtree::Node;
use super::endnode::EndNode;
use super::multiendnodeiterator::MultiNodeIterator;
use super::multiendnodeiterator::concat_from;
use super::multiendnodeiterator::lemma_concat_iff;
use super::multiendnodeiterator::lemma_concat_nodup;
use super::multiendnodeiterator::nit_inv;
use super::multiendnodeiterator::nit_views;
use super::nodeiterator::NodeIterator;
use crate::fdb_trait::GetFileError;
use crate::fdb_trait::matches_of;
use crate::fdb_trait::multi_match;
use crate::fdb_trait::no_match;
use crate::fdb_trait::unique_match;
use super::tagmaskbits::TagMaskBits;
use super::tagmaskbits::bit32;
use crate::file::File;
use crate::filequery::FileKey;
use crate::filequery::FileQuery;
use crate::tagset::TagSet;
use vstd::pervasive::VecAdditionalExecFns;
use vstd::prelude::*;

verus! {

/// The files stored anywhere under a node.
pub open spec fn node_files(n: Node) -> Set<FileKey>
    decreases n, 2int,
{
    match n {
        Node::Empty => Set::<FileKey>::empty(),
        Node::End(e) => e.files(),
        Node::Branch(b) => b.files(),
    }
}

/// The files stored under the first `k` nodes of a child list.
pub open spec fn nodes_files_upto(s: Seq<Node>, k: int) -> Set<FileKey>
    decreases s, k,
{
    if k <= 0 || k > s.len() {
        Set::<FileKey>::empty()
    } else {
        nodes_files_upto(s, k - 1).union(node_files(s[k - 1]))
    }
}

/// Well-formedness of a node and of everything under it.
pub open spec fn node_wf(n: Node) -> bool
    decreases n, 2int,
{
    match n {
        Node::Empty => true,
        Node::End(e) => e.inv(),
        Node::Branch(b) => b.wf(),
    }
}

/// Well-formedness of the first `k` nodes of a child list.
pub open spec fn nodes_wf_upto(s: Seq<Node>, k: int) -> bool
    decreases s, k,
{
    if k <= 0 || k > s.len() {
        true
    } else {
        nodes_wf_upto(s, k - 1) && node_wf(s[k - 1])
    }
}

/// Height of a node: leaves sit at zero, a branch one above its
/// tallest child.
pub open spec fn node_height(n: Node) -> nat
    decreases n, 2int,
{
    match n {
        Node::Empty => 0,
        Node::End(e) => 0,
        Node::Branch(b) => b.height(),
    }
}

/// The tallest of the first `k` nodes of a child list.
pub open spec fn nodes_height_upto(s: Seq<Node>, k: int) -> nat
    decreases s, k,
{
    if k <= 0 || k > s.len() {
        0
    } else {
        let rest = nodes_height_upto(s, k - 1);
        let h = node_height(s[k - 1]);
        if h > rest {
            h
        } else {
            rest
        }
    }
}

/// The stored set under a child list is the union of what each child
/// stores.
#[verifier::spinoff_prover]
pub(crate) proof fn lemma_files_upto_iff(s: Seq<Node>, k: int)
    requires
        k <= s.len(),
    ensures
        forall|key: FileKey|
            nodes_files_upto(s, k).contains(key) <==> exists|j: int|
                0 <= j < k && node_files(#[trigger] s[j]).contains(key),
    decreases k,
{
    if k > 0 {
        lemma_files_upto_iff(s, k - 1);
        assert forall|key: FileKey| nodes_files_upto(s, k).contains(key) implies exists|j: int|
            0 <= j < k && node_files(#[trigger] s[j]).contains(key) by {
            if nodes_files_upto(s, k - 1).contains(key) {
                let j = choose|j: int| 0 <= j < k - 1 && node_files(#[trigger] s[j]).contains(key);
                assert(node_files(s[j]).contains(key));
            } else {
                assert(node_files(s[k - 1]).contains(key));
            }
        }
        assert forall|key: FileKey|
            (exists|j: int| 0 <= j < k && node_files(#[trigger] s[j]).contains(key))
                implies nodes_files_upto(s, k).contains(key) by {
            let j = choose|j: int| 0 <= j < k && node_files(#[trigger] s[j]).contains(key);
            if j < k - 1 {
                assert(nodes_files_upto(s, k - 1).contains(key));
            }
        }
    }
}

/// Well-formedness of a child list is well-formedness of each child.
#[verifier::spinoff_prover]
pub(crate) proof fn lemma_wf_upto_iff(s: Seq<Node>, k: int)
    requires
        k <= s.len(),
    ensures
        nodes_wf_upto(s, k) <==> (forall|j: int| 0 <= j < k ==> node_wf(#[trigger] s[j])),
    decreases k,
{
    if k > 0 {
        lemma_wf_upto_iff(s, k - 1);
    }
}

/// No child of a list out-grows the list's recorded height.
#[verifier::spinoff_prover]
pub(crate) proof fn lemma_height_upto_ge(s: Seq<Node>, k: int, i: int)
    requires
        0 <= i < k <= s.len(),
    ensures
        nodes_height_upto(s, k) >= node_height(s[i]),
    decreases k,
{
    if i < k - 1 {
        lemma_height_upto_ge(s, k - 1, i);
    }
}

/// One entry of a branch's tag map: a tag and the mask of child slots
/// whose subtrees may hold files carrying it.
#[derive(Debug)]
pub(crate) struct MaskEntry {
    pub(crate) tag: String,
    pub(crate) mask: TagMaskBits,
}

/// The mask recorded for tag `t` among the entries from `x` on, if
/// any entry carries `t`.
pub(crate) open spec fn lookup_from(ms: Seq<MaskEntry>, t: Seq<char>, x: int) -> Option<u32>
    decreases ms.len() - x,
{
    if x < 0 || x >= ms.len() {
        None
    } else if ms[x].tag@ == t {
        Some(ms[x].mask.0)
    } else {
        lookup_from(ms, t, x + 1)
    }
}

/// The mask recorded for tag `t`, if any entry carries `t`.
pub(crate) open spec fn lookup(ms: Seq<MaskEntry>, t: Seq<char>) -> Option<u32> {
    lookup_from(ms, t, 0)
}

/// The tag map points slot `i` out as a possible holder of tag `t`.
pub(crate) open spec fn covers(ms: Seq<MaskEntry>, t: Seq<char>, i: int) -> bool {
    match lookup(ms, t) {
        Some(m) => bit32(m, i as u32),
        None => false,
    }
}

/// No tag is recorded twice.
pub(crate) open spec fn keys_unique(ms: Seq<MaskEntry>) -> bool {
    forall|x: int, y: int| 0 <= x < y < ms.len() ==> ms[x].tag@ != ms[y].tag@
}

/// Every entry of `hms` is an entry of `om` (below `bound`) with its
/// mask cut down to the slots of `hm`.
pub(crate) open spec fn masks_from(
    hms: Seq<MaskEntry>,
    om: Seq<MaskEntry>,
    hm: u32,
    bound: int,
) -> bool {
    forall|z: int| #![trigger hms[z]]
        0 <= z < hms.len() ==> exists|y: int| #![trigger om[y]]
            0 <= y < bound && hms[z].tag@ == om[y].tag@ && hms[z].mask.0 == om[y].mask.0 & hm
}

/// Every entry of `om` (below `bound`) whose mask survives the cut to
/// the slots of `hm` reappears in `hms`.
pub(crate) open spec fn masks_onto(
    hms: Seq<MaskEntry>,
    om: Seq<MaskEntry>,
    hm: u32,
    bound: int,
) -> bool {
    forall|y: int| #![trigger om[y]]
        0 <= y < bound && om[y].mask.0 & hm != 0 ==> exists|z: int| #![trigger hms[z]]
            0 <= z < hms.len() && hms[z].tag@ == om[y].tag@ && hms[z].mask.0 == om[y].mask.0 & hm
}

/// Under unique keys, a lookup result is witnessed by the one entry
/// that carries the tag.
#[verifier::spinoff_prover]
pub(crate) proof fn lemma_lookup_at(ms: Seq<MaskEntry>, t: Seq<char>, x: int)
    requires
        keys_unique(ms),
        0 <= x < ms.len(),
        ms[x].tag@ == t,
    ensures
        lookup(ms, t) == Some(ms[x].mask.0),
{
    lemma_lookup_from_at(ms, t, x, 0);
}

#[verifier::spinoff_prover]
proof fn lemma_lookup_from_at(ms: Seq<MaskEntry>, t: Seq<char>, x: int, b: int)
    requires
        keys_unique(ms),
        0 <= b <= x < ms.len(),
        ms[x].tag@ == t,
    ensures
        lookup_from(ms, t, b) == Some(ms[x].mask.0),
    decreases x - b,
{
    if b < x {
        assert(ms[b].tag@ != ms[x].tag@);
        lemma_lookup_from_at(ms, t, x, b + 1);
    }
}

/// The interior node: exactly 32 child slots, the per-tag slot masks,
/// and a mask of the slots never yet occupied.
#[derive(Debug)]
pub struct BranchNode {
    pub(crate) masks: Vec<MaskEntry>,
    pub(crate) nodes: Vec<Node>,
    pub(crate) empty: TagMaskBits,
}

impl BranchNode {
    /// The files stored anywhere under this branch.
    pub closed spec fn files(&self) -> Set<FileKey>
        decreases self, 1int,
    {
        nodes_files_upto(self.nodes@, 32)
    }

    /// Height: one above the tallest child.
    pub closed spec fn height(&self) -> nat
        decreases self, 1int,
    {
        (1 + nodes_height_upto(self.nodes@, 32)) as nat
    }

    /// Some child slot is still `Empty`: an insert of any fresh file
    /// is guaranteed to succeed.
    pub closed spec fn has_empty_slot(&self) -> bool {
        exists|i: int| 0 <= i < 32 && self.nodes@[i] is Empty
    }

    /// The tag map points slot `i` out as a possible holder of `t`.
    pub closed spec fn mask_covers(&self, t: Seq<char>, i: int) -> bool {
        covers(self.masks@, t, i)
    }

    /// Every one of the 32 child slots is still `Empty`.
    pub closed spec fn all_children_empty(&self) -> bool {
        self.nodes@.len() == 32 && forall|i: int| 0 <= i < 32 ==> self.nodes@[i] is Empty
    }

    /// `half` stores exactly the files of this branch's slots `lo`
    /// (inclusive) to `hi` (exclusive).
    pub closed spec fn half_holds_slots(&self, half: Node, lo: int, hi: int) -> bool {
        forall|k: FileKey|
            node_files(half).contains(k) <==> (exists|j: int|
                lo <= j < hi && node_files(#[trigger] self.nodes@[j]).contains(k))
    }

    /// The shape a half-split hands back: a two-branch node whose slot
    /// 0 holds exactly the files of this branch's lower sixteen slots,
    /// slot 1 those of the upper sixteen, and every other slot `Empty`.
    pub closed spec fn split_shape(&self, r: BranchNode) -> bool {
        &&& r.nodes@.len() == 32
        &&& r.nodes@[0] is Branch
        &&& r.nodes@[1] is Branch
        &&& (forall|j: int| 2 <= j < 32 ==> r.nodes@[j] is Empty)
        &&& self.half_holds_slots(r.nodes@[0], 0, 16)
        &&& self.half_holds_slots(r.nodes@[1], 16, 32)
    }

    /// Well-formedness: 32 slots, well-formed children, unique mask
    /// keys, no false negatives in the masks, the empty mask covering
    /// every `Empty` child, and no file stored under two slots.
    pub closed spec fn wf(&self) -> bool
        decreases self, 1int,
    {
        &&& self.nodes@.len() == 32
        &&& nodes_wf_upto(self.nodes@, 32)
        &&& keys_unique(self.masks@)
        &&& forall|i: int, k: FileKey, t: Seq<char>|
            0 <= i < 32 && #[trigger] node_files(self.nodes@[i]).contains(k)
                && #[trigger] k.tags.contains(t) ==> covers(self.masks@, t, i)
        &&& forall|i: int| 0 <= i < 32 && self.nodes@[i] is Empty ==> bit32(self.empty.0, i as u32)
        &&& forall|i: int, j: int, k: FileKey|
            0 <= i < 32 && 0 <= j < 32 && i != j && #[trigger] node_files(
                self.nodes@[i],
            ).contains(k) ==> !(#[trigger] node_files(self.nodes@[j]).contains(k))
    }

    /// A child's subtree stays strictly below the branch.
    pub(crate) proof fn lemma_child_height(&self, i: int)
        requires
            0 <= i < self.nodes@.len(),
            self.nodes@.len() == 32,
        ensures
            node_height(self.nodes@[i]) < self.height(),
    {
        lemma_height_upto_ge(self.nodes@, 32, i);
    }

    /// Every stored file sits under exactly one child.
    pub(crate) proof fn lemma_files_decompose(&self)
        requires
            self.nodes@.len() == 32,
        ensures
            forall|key: FileKey|
                self.files().contains(key) <==> exists|j: int|
                    0 <= j < 32 && node_files(#[trigger] self.nodes@[j]).contains(key),
    {
        lemma_files_upto_iff(self.nodes@, 32);
        assert(self.files() == nodes_files_upto(self.nodes@, 32));
    }

    /// Children of a well-formed branch are well formed.
    pub(crate) proof fn lemma_children_wf(&self)
        requires
            self.wf(),
        ensures
            forall|j: int| 0 <= j < 32 ==> node_wf(#[trigger] self.nodes@[j]),
    {
        lemma_wf_upto_iff(self.nodes@, 32);
    }

    /// A fresh branch: every slot empty, no tag recorded.
    #[verifier::spinoff_prover]
    pub fn new() -> (node: Self)
        ensures
            node.wf(),
            node.files() == Set::<FileKey>::empty(),
            node.has_empty_slot(),
            node.all_children_empty(),
            node.height() == 1,
    {
        Self::new_inner()
    }

    /// The fresh branch, with its private shape spelled out for the
    /// restructuring code of this module.
    #[verifier::spinoff_prover]
    pub(crate) fn new_inner() -> (node: Self)
        ensures
            node.wf(),
            node.files() == Set::<FileKey>::empty(),
            node.has_empty_slot(),
            node.height() == 1,
            node.masks@.len() == 0,
            node.nodes@.len() == 32,
            forall|j: int| 0 <= j < 32 ==> node.nodes@[j] is Empty,
            node.empty.0 == 0xffff_ffffu32,
    {
        let mut nodes: Vec<Node> = Vec::new();
        let mut i: usize = 0;
        while i < 32
            invariant
                i <= 32,
                nodes@.len() == i,
                forall|j: int| 0 <= j < i ==> nodes@[j] is Empty,
            decreases 32 - i,
        {
            nodes.push(Node::Empty);
            i = i + 1;
        }
        let node = BranchNode { masks: Vec::new(), nodes, empty: TagMaskBits(0xffff_ffff) };
        proof {
            lemma_wf_upto_iff(node.nodes@, 32);
            lemma_files_upto_iff(node.nodes@, 32);
            assert(node.files() == nodes_files_upto(node.nodes@, 32));
            assert forall|key: FileKey| !node.files().contains(key) by {
                if node.files().contains(key) {
                    let j = choose|j: int|
                        0 <= j < 32 && node_files(#[trigger] node.nodes@[j]).contains(key);
                    assert(node.nodes@[j] is Empty);
                    assert(node_files(node.nodes@[j]) == Set::<FileKey>::empty());
                }
            }
            assert(node.files() =~= Set::<FileKey>::empty());
            assert(bit32(0xffff_ffffu32, 0u32)) by (bit_vector);
            assert forall|i2: u32| i2 < 32 implies bit32(0xffff_ffffu32, i2) by {
                assert(i2 < 32 ==> ((0xffff_ffffu32 >> i2) & 1u32) == 1u32) by (bit_vector);
            }
            assert(node.nodes@[0] is Empty);
            lemma_heights_all_zero(node.nodes@, 32);
        }
        node
    }

    /// The recorded mask for a tag, if the tag is known here.
    #[verifier::spinoff_prover]
    fn find_mask(&self, tag: &String) -> (r: Option<TagMaskBits>)
        ensures
            match r {
                Some(m) => lookup(self.masks@, tag@) == Some(m.0),
                None => lookup(self.masks@, tag@) is None,
            },
    {
        let n = self.masks.len();
        let mut x: usize = 0;
        while x < n
            invariant
                x <= n,
                n == self.masks@.len(),
                lookup(self.masks@, tag@) == lookup_from(self.masks@, tag@, x as int),
            decreases n - x,
        {
            if self.masks[x].tag.eq(tag) {
                return Some(self.masks[x].mask);
            }
            x = x + 1;
        }
        None
    }

    /// Whether `file` is stored anywhere under this branch.
    #[verifier::spinoff_prover]
    pub(crate) fn contains_file(&self, file: &File) -> (r: bool)
        requires
            self.wf(),
            file.inv(),
        ensures
            r == self.files().contains(file@),
        decreases self.height(), 0int,
    {
        let mut i: usize = 0;
        while i < 32
            invariant
                i <= 32,
                self.wf(),
                file.inv(),
                forall|j: int|
                    0 <= j < i ==> !node_files(#[trigger] self.nodes@[j]).contains(file@),
            decreases 32 - i,
        {
            proof {
                self.lemma_children_wf();
                self.lemma_child_height(i as int);
            }
            let found = match &self.nodes[i] {
                Node::Branch(b) => b.contains_file(file),
                Node::End(e) => e.holds_file(file),
                Node::Empty => false,
            };
            if found {
                proof {
                    self.lemma_files_decompose();
                }
                return true;
            }
            i = i + 1;
        }
        proof {
            self.lemma_files_decompose();
            if self.files().contains(file@) {
                let j = choose|j: int|
                    0 <= j < 32 && node_files(#[trigger] self.nodes@[j]).contains(file@);
            }
        }
        false
    }
}


/// A branch whose every slot is `Empty` stores nothing.
#[verifier::spinoff_prover]
proof fn lemma_empty_children_files(s: Seq<Node>)
    requires
        s.len() == 32,
        forall|j: int| 0 <= j < 32 ==> s[j] is Empty,
    ensures
        nodes_files_upto(s, 32) == Set::<FileKey>::empty(),
{
    lemma_files_upto_iff(s, 32);
    assert forall|key: FileKey| !nodes_files_upto(s, 32).contains(key) by {
        if nodes_files_upto(s, 32).contains(key) {
            let j = choose|j: int| 0 <= j < 32 && node_files(#[trigger] s[j]).contains(key);
            assert(s[j] is Empty);
        }
    }
    assert(nodes_files_upto(s, 32) =~= Set::<FileKey>::empty());
}

/// A list of childless nodes has height zero everywhere.
#[verifier::spinoff_prover]
proof fn lemma_heights_all_zero(s: Seq<Node>, k: int)
    requires
        k <= s.len(),
        forall|j: int| 0 <= j < k ==> s[j] is Empty,
    ensures
        nodes_height_upto(s, k) == 0,
    decreases k,
{
    if k > 0 {
        lemma_heights_all_zero(s, k - 1);
        assert(s[k - 1] is Empty);
        assert(node_height(s[k - 1]) == 0);
        assert(nodes_height_upto(s, k - 1) == 0);
        assert(nodes_height_upto(s, k) == 0);
    }
}


/// A tag no entry carries covers no slot.
#[verifier::spinoff_prover]
proof fn lemma_lookup_none_all(ms: Seq<MaskEntry>, t: Seq<char>)
    requires
        lookup(ms, t) is None,
    ensures
        forall|i: int| !covers(ms, t, i),
{
}

/// A lookup that finds something is witnessed by an entry.
#[verifier::spinoff_prover]
pub(crate) proof fn lemma_lookup_some(ms: Seq<MaskEntry>, t: Seq<char>, b: int)
    requires
        0 <= b,
        lookup_from(ms, t, b) is Some,
    ensures
        exists|y: int|
            b <= y < ms.len() && (#[trigger] ms[y]).tag@ == t && lookup_from(ms, t, b) == Some(
                ms[y].mask.0,
            ),
    decreases ms.len() - b,
{
    if b < ms.len() {
        if ms[b].tag@ == t {
            assert(ms[b].tag@ == t && lookup_from(ms, t, b) == Some(ms[b].mask.0));
        } else {
            lemma_lookup_some(ms, t, b + 1);
        }
    }
}

impl BranchNode {
    /// Record slot `idx` as a possible holder of `tag`: the tag's mask
    /// gains bit `idx` and every previously recorded pairing stays.
    #[verifier::spinoff_prover]
    fn register_tag(&mut self, tag: &String, idx: usize)
        requires
            idx < 32,
            keys_unique(old(self).masks@),
        ensures
            keys_unique(final(self).masks@),
            final(self).nodes == old(self).nodes,
            final(self).empty == old(self).empty,
            covers(final(self).masks@, tag@, idx as int),
            forall|t: Seq<char>, j: int|
                covers(old(self).masks@, t, j) ==> covers(final(self).masks@, t, j),
    {
        let ghost oldms = self.masks@;
        let n = self.masks.len();
        let mut x: usize = 0;
        while x < n
            invariant
                x <= n,
                idx < 32,
                n == self.masks@.len(),
                self.masks@ == oldms,
                oldms == old(self).masks@,
                keys_unique(oldms),
                self.nodes == old(self).nodes,
                self.empty == old(self).empty,
                forall|y: int| 0 <= y < x ==> (#[trigger] self.masks@[y]).tag@ != tag@,
            decreases n - x,
        {
            if self.masks[x].tag.eq(tag) {
                self.masks[x].mask.set_bit(idx);
                proof {
                    let newms = self.masks@;
                    assert(newms == oldms.update(x as int, newms[x as int]));
                    assert(newms[x as int].tag == oldms[x as int].tag);
                    assert forall|y: int| 0 <= y < newms.len() implies (#[trigger] newms[y]).tag
                        == oldms[y].tag by {}
                    assert(keys_unique(newms));
                    lemma_lookup_at(newms, tag@, x as int);
                    assert(bit32(newms[x as int].mask.0, idx as u32));
                    assert forall|t: Seq<char>, j: int|
                        covers(oldms, t, j) implies covers(newms, t, j) by {
                        lemma_lookup_some(oldms, t, 0);
                        let y = choose|y: int|
                            0 <= y < oldms.len() && (#[trigger] oldms[y]).tag@ == t && lookup(
                                oldms,
                                t,
                            ) == Some(oldms[y].mask.0);
                        lemma_lookup_at(newms, t, y);
                        if y == x {
                        } else {
                            assert(newms[y] == oldms[y]);
                        }
                    }
                }
                return ;
            }
            x = x + 1;
        }
        let mut mb = TagMaskBits(0);
        mb.set_bit(idx);
        self.masks.push(MaskEntry { tag: tag.clone(), mask: mb });
        proof {
            let newms = self.masks@;
            assert(newms == oldms.push(newms[oldms.len() as int]));
            assert(newms[oldms.len() as int].tag@ == tag@);
            assert forall|y: int| 0 <= y < oldms.len() implies newms[y] == oldms[y] by {}
            assert(keys_unique(newms));
            lemma_lookup_at(newms, tag@, oldms.len() as int);
            assert(covers(newms, tag@, idx as int));
            assert forall|t: Seq<char>, j: int|
                covers(oldms, t, j) implies covers(newms, t, j) by {
                lemma_lookup_some(oldms, t, 0);
                let y = choose|y: int|
                    0 <= y < oldms.len() && (#[trigger] oldms[y]).tag@ == t && lookup(oldms, t)
                        == Some(oldms[y].mask.0);
                lemma_lookup_at(newms, t, y);
            }
        }
    }

    /// Record slot `idx` as a possible holder of every tag of `tags`.
    #[verifier::spinoff_prover]
    fn set_index_for_tags(&mut self, idx: usize, tags: &TagSet)
        requires
            idx < 32,
            keys_unique(old(self).masks@),
        ensures
            keys_unique(final(self).masks@),
            final(self).nodes == old(self).nodes,
            final(self).empty == old(self).empty,
            forall|t: Seq<char>| tags@.contains(t) ==> covers(final(self).masks@, t, idx as int),
            forall|t: Seq<char>, j: int|
                covers(old(self).masks@, t, j) ==> covers(final(self).masks@, t, j),
    {
        let n = tags.len();
        let mut x: usize = 0;
        while x < n
            invariant
                x <= n,
                idx < 32,
                n == tags.sview().len(),
                keys_unique(self.masks@),
                self.nodes == old(self).nodes,
                self.empty == old(self).empty,
                forall|y: int|
                    0 <= y < x ==> covers(self.masks@, #[trigger] tags.sview()[y], idx as int),
                forall|t: Seq<char>, j: int|
                    covers(old(self).masks@, t, j) ==> covers(self.masks@, t, j),
            decreases n - x,
        {
            self.register_tag(tags.get(x), idx);
            x = x + 1;
        }
        proof {
            tags.lemma_sview_view();
            assert forall|t: Seq<char>| tags@.contains(t) implies covers(
                self.masks@,
                t,
                idx as int,
            ) by {
                let y = choose|y: int|
                    0 <= y < tags.sview().len() && #[trigger] tags.sview()[y] == t;
                assert(covers(self.masks@, tags.sview()[y], idx as int));
            }
        }
    }

    /// Record slot `idx` as a possible holder of every tag another tag
    /// map knows.
    #[verifier::spinoff_prover]
    fn register_all(&mut self, idx: usize, other: &Vec<MaskEntry>)
        requires
            idx < 32,
            keys_unique(old(self).masks@),
        ensures
            keys_unique(final(self).masks@),
            final(self).nodes == old(self).nodes,
            final(self).empty == old(self).empty,
            forall|t: Seq<char>|
                lookup(other@, t) is Some ==> covers(final(self).masks@, t, idx as int),
            forall|t: Seq<char>, j: int|
                covers(old(self).masks@, t, j) ==> covers(final(self).masks@, t, j),
    {
        let n = other.len();
        let mut x: usize = 0;
        while x < n
            invariant
                x <= n,
                idx < 32,
                n == other@.len(),
                keys_unique(self.masks@),
                self.nodes == old(self).nodes,
                self.empty == old(self).empty,
                forall|y: int|
                    0 <= y < x ==> covers(
                        self.masks@,
                        (#[trigger] other@[y]).tag@,
                        idx as int,
                    ),
                forall|t: Seq<char>, j: int|
                    covers(old(self).masks@, t, j) ==> covers(self.masks@, t, j),
            decreases n - x,
        {
            self.register_tag(&other[x].tag, idx);
            x = x + 1;
        }
        proof {
            assert forall|t: Seq<char>| lookup(other@, t) is Some implies covers(
                self.masks@,
                t,
                idx as int,
            ) by {
                lemma_lookup_some(other@, t, 0);
                let y = choose|y: int|
                    0 <= y < other@.len() && (#[trigger] other@[y]).tag@ == t && lookup(other@, t)
                        == Some(other@[y].mask.0);
                assert(covers(self.masks@, other@[y].tag@, idx as int));
            }
        }
    }

    /// Move the child at `to_take` out, leaving an `Empty` slot.
    #[verifier::spinoff_prover]
    fn take_child(&mut self, to_take: usize) -> (c: Node)
        requires
            to_take < old(self).nodes@.len(),
        ensures
            c == old(self).nodes@[to_take as int],
            final(self).nodes@ == old(self).nodes@.update(to_take as int, Node::Empty),
            final(self).masks == old(self).masks,
            final(self).empty == old(self).empty,
    {
        let mut tmp = Node::Empty;
        core::mem::swap(&mut self.nodes[to_take], &mut tmp);
        tmp
    }

    /// Split this saturated branch in half: hand back a replacement
    /// whose slot 0 holds the lower sixteen former children and slot 1
    /// the upper sixteen, with masks routed accordingly.  The same
    /// files are stored, and fresh capacity sits beside them; this
    /// branch itself is left gutted for the caller to discard or
    /// overwrite.
    #[verifier::spinoff_prover]
    #[verifier::rlimit(100)]
    pub(crate) fn make_half_split_node(&mut self) -> (r: Self)
        requires
            old(self).wf(),
        ensures
            r.wf(),
            r.files() == old(self).files(),
            r.has_empty_slot(),
            old(self).split_shape(r),
            final(self).all_children_empty(),
            final(self).files() == Set::<FileKey>::empty(),
    {
        let ghost oldnodes = old(self).nodes@;
        let ghost oldmasks = old(self).masks@;
        proof {
            old(self).lemma_children_wf();
            old(self).lemma_files_decompose();
        }
        let mut lower = BranchNode::new_inner();
        let mut upper = BranchNode::new_inner();
        let mut i: usize = 0;
        while i < 32
            invariant
                i <= 32,
                self.nodes@.len() == 32,
                self.masks@ == oldmasks,
                lower.nodes@.len() == 32,
                upper.nodes@.len() == 32,
                lower.masks@.len() == 0,
                upper.masks@.len() == 0,
                lower.empty.0 == 0xffff_ffffu32,
                upper.empty.0 == 0xffff_ffffu32,
                forall|j: int| i <= j < 32 ==> self.nodes@[j] == oldnodes[j],
                forall|j: int| 0 <= j < i ==> self.nodes@[j] is Empty,
                forall|j: int| 0 <= j < i && j < 16 ==> lower.nodes@[j] == oldnodes[j],
                forall|j: int| 0 <= j < i && j >= 16 ==> upper.nodes@[j] == oldnodes[j],
                forall|j: int| 0 <= j < 32 && (j >= 16 || j >= i) ==> lower.nodes@[j] is Empty,
                forall|j: int| 0 <= j < 32 && (j < 16 || j >= i) ==> upper.nodes@[j] is Empty,
            decreases 32 - i,
        {
            let c = self.take_child(i);
            if i < 16 {
                lower.nodes.set(i, c);
            } else {
                upper.nodes.set(i, c);
            }
            i = i + 1;
        }
        let halves = self.split_masks();
        lower.masks = halves.0;
        upper.masks = halves.1;
        proof {
            TagMaskBits::lemma_half_bits();
            lemma_branch_half_wf(&lower, oldnodes, oldmasks, 0x0000_ffffu32, 0, 16);
            lemma_branch_half_wf(&upper, oldnodes, oldmasks, 0xffff_0000u32, 16, 32);
        }
        let mut top = BranchNode::new_inner();
        top.register_all(0, &lower.masks);
        top.register_all(1, &upper.masks);
        let ghost lowerg = lower;
        let ghost upperg = upper;
        top.nodes.set(0, Node::Branch(lower));
        top.nodes.set(1, Node::Branch(upper));
        proof {
            lemma_top_split_wf(&top, lowerg, upperg, oldnodes, oldmasks);
            lemma_empty_children_files(self.nodes@);
            assert(self.files() == Set::<FileKey>::empty());
            assert(old(self).split_shape(top)) by {
                assert(node_files(top.nodes@[0]) == lowerg.files());
                assert(node_files(top.nodes@[1]) == upperg.files());
                assert(old(self).half_holds_slots(top.nodes@[0], 0, 16));
                assert(old(self).half_holds_slots(top.nodes@[1], 16, 32));
            }
        }
        top
    }
}

/// Bits of an intersection come from both operands.
#[verifier::spinoff_prover]
proof fn lemma_mask_and_bits(a: u32, b: u32, c: u32)
    requires
        c == a & b,
    ensures
        forall|j: u32| bit32(c, j) == (bit32(a, j) && bit32(b, j)),
{
    assert forall|j: u32| bit32(a & b, j) == (bit32(a, j) && bit32(b, j)) by {
        assert(j < 32 ==> ((((a & b) >> j) & 1u32) == 1u32) == (((a >> j) & 1u32) == 1u32 && ((b
            >> j) & 1u32) == 1u32)) by (bit_vector);
    }
}

/// A freshly built half node is well formed and holds exactly the
/// files its sixteen copied slots held.
#[verifier::rlimit(60)]
proof fn lemma_branch_half_wf(
    half: &BranchNode,
    oldnodes: Seq<Node>,
    oldmasks: Seq<MaskEntry>,
    hm: u32,
    lo: int,
    hi: int,
)
    requires
        oldnodes.len() == 32,
        nodes_wf_upto(oldnodes, 32),
        keys_unique(oldmasks),
        0 <= lo < hi <= 32,
        forall|j: u32| bit32(hm, j) <==> lo <= j < hi,
        forall|i: int, k: FileKey, t: Seq<char>|
            0 <= i < 32 && #[trigger] node_files(oldnodes[i]).contains(k)
                && #[trigger] k.tags.contains(t) ==> covers(oldmasks, t, i),
        forall|i: int, j: int, k: FileKey|
            0 <= i < 32 && 0 <= j < 32 && i != j && #[trigger] node_files(oldnodes[i]).contains(k)
                ==> !(#[trigger] node_files(oldnodes[j]).contains(k)),
        half.nodes@.len() == 32,
        half.empty.0 == 0xffff_ffffu32,
        keys_unique(half.masks@),
        forall|j: int|
            0 <= j < 32 ==> half.nodes@[j] == (if lo <= j < hi {
                oldnodes[j]
            } else {
                Node::Empty
            }),
        masks_from(half.masks@, oldmasks, hm, oldmasks.len() as int),
        masks_onto(half.masks@, oldmasks, hm, oldmasks.len() as int),
    ensures
        half.wf(),
        forall|k: FileKey|
            half.files().contains(k) <==> exists|j: int|
                0 <= j < 32 && lo <= j < hi && node_files(#[trigger] oldnodes[j]).contains(k),
        forall|t: Seq<char>| lookup(half.masks@, t) is Some ==> lookup(oldmasks, t) is Some,
{
    TagMaskBits::lemma_all_bits();
    lemma_wf_upto_iff(oldnodes, 32);
    lemma_wf_upto_iff(half.nodes@, 32);
    lemma_files_upto_iff(half.nodes@, 32);
    assert(half.files() == nodes_files_upto(half.nodes@, 32));
    assert forall|j: int| 0 <= j < 32 implies node_wf(#[trigger] half.nodes@[j]) by {
        if lo <= j < hi {
            assert(half.nodes@[j] == oldnodes[j]);
        } else {
            assert(half.nodes@[j] is Empty);
        }
    }
    assert forall|i: int, k: FileKey, t: Seq<char>|
        0 <= i < 32 && #[trigger] node_files(half.nodes@[i]).contains(k)
            && #[trigger] k.tags.contains(t) implies covers(half.masks@, t, i) by {
        if lo <= i < hi {
            assert(node_files(oldnodes[i]).contains(k));
            assert(covers(oldmasks, t, i));
            lemma_lookup_some(oldmasks, t, 0);
            let y = choose|y: int|
                0 <= y < oldmasks.len() && (#[trigger] oldmasks[y]).tag@ == t && lookup(oldmasks, t)
                    == Some(oldmasks[y].mask.0);
            lemma_mask_and_bits(oldmasks[y].mask.0, hm, oldmasks[y].mask.0 & hm);
            assert(bit32(hm, i as u32));
            assert(bit32(oldmasks[y].mask.0 & hm, i as u32));
            assert(oldmasks[y].mask.0 & hm != 0) by {
                TagMaskBits::lemma_zero_iff_no_bits(oldmasks[y].mask.0 & hm);
            }
            assert(0 <= y < oldmasks.len() && oldmasks[y].mask.0 & hm != 0);
            let z = choose|z: int| #![trigger half.masks@[z]]
                0 <= z < half.masks@.len() && half.masks@[z].tag@ == oldmasks[y].tag@
                    && half.masks@[z].mask.0 == oldmasks[y].mask.0 & hm;
            lemma_lookup_at(half.masks@, t, z);
        } else {
            assert(half.nodes@[i] is Empty);
            assert(node_files(half.nodes@[i]) == Set::<FileKey>::empty());
        }
    }
    assert forall|t: Seq<char>| lookup(half.masks@, t) is Some implies lookup(
        oldmasks,
        t,
    ) is Some by {
        lemma_lookup_some(half.masks@, t, 0);
        let z = choose|z: int|
            0 <= z < half.masks@.len() && (#[trigger] half.masks@[z]).tag@ == t && lookup(
                half.masks@,
                t,
            ) == Some(half.masks@[z].mask.0);
        let y = choose|y: int| #![trigger oldmasks[y]]
            0 <= y < oldmasks.len() && half.masks@[z].tag@ == oldmasks[y].tag@
                && half.masks@[z].mask.0 == oldmasks[y].mask.0 & hm;
        lemma_lookup_at(oldmasks, t, y);
    }
    assert forall|i: int, j: int, k: FileKey|
        0 <= i < 32 && 0 <= j < 32 && i != j && #[trigger] node_files(half.nodes@[i]).contains(k)
            implies !(#[trigger] node_files(half.nodes@[j]).contains(k)) by {
        if node_files(half.nodes@[j]).contains(k) {
            assert(lo <= i < hi);
            assert(lo <= j < hi);
            assert(node_files(oldnodes[i]).contains(k));
            assert(node_files(oldnodes[j]).contains(k));
        }
    }
    assert forall|k: FileKey| half.files().contains(k) implies exists|j: int|
        0 <= j < 32 && lo <= j < hi && node_files(#[trigger] oldnodes[j]).contains(k) by {
        let j = choose|j: int| 0 <= j < 32 && node_files(#[trigger] half.nodes@[j]).contains(k);
        assert(lo <= j < hi);
        assert(node_files(oldnodes[j]).contains(k));
    }
    assert forall|k: FileKey|
        (exists|j: int| 0 <= j < 32 && lo <= j < hi && node_files(#[trigger] oldnodes[j]).contains(
            k,
        )) implies half.files().contains(k) by {
        let j = choose|j: int|
            0 <= j < 32 && lo <= j < hi && node_files(#[trigger] oldnodes[j]).contains(k);
        assert(half.nodes@[j] == oldnodes[j]);
        assert(node_files(half.nodes@[j]).contains(k));
    }
}

/// The two-slot node above the halves is well formed and stores every
/// file the original branch stored.
#[verifier::rlimit(60)]
proof fn lemma_top_split_wf(
    top: &BranchNode,
    lower: BranchNode,
    upper: BranchNode,
    oldnodes: Seq<Node>,
    oldmasks: Seq<MaskEntry>,
)
    requires
        oldnodes.len() == 32,
        nodes_wf_upto(oldnodes, 32),
        lower.wf(),
        upper.wf(),
        forall|k: FileKey|
            lower.files().contains(k) <==> exists|j: int|
                0 <= j < 32 && 0 <= j < 16 && node_files(#[trigger] oldnodes[j]).contains(k),
        forall|k: FileKey|
            upper.files().contains(k) <==> exists|j: int|
                0 <= j < 32 && 16 <= j < 32 && node_files(#[trigger] oldnodes[j]).contains(k),
        forall|i: int, j: int, k: FileKey|
            0 <= i < 32 && 0 <= j < 32 && i != j && #[trigger] node_files(oldnodes[i]).contains(k)
                ==> !(#[trigger] node_files(oldnodes[j]).contains(k)),
        top.nodes@.len() == 32,
        top.nodes@[0] == Node::Branch(lower),
        top.nodes@[1] == Node::Branch(upper),
        forall|j: int| 2 <= j < 32 ==> top.nodes@[j] is Empty,
        top.empty.0 == 0xffff_ffffu32,
        keys_unique(top.masks@),
        forall|t: Seq<char>| lookup(lower.masks@, t) is Some ==> covers(top.masks@, t, 0),
        forall|t: Seq<char>| lookup(upper.masks@, t) is Some ==> covers(top.masks@, t, 1),
        forall|i: int, k: FileKey, t: Seq<char>|
            0 <= i < 32 && #[trigger] node_files(lower.nodes@[i]).contains(k)
                && #[trigger] k.tags.contains(t) ==> covers(lower.masks@, t, i),
        forall|i: int, k: FileKey, t: Seq<char>|
            0 <= i < 32 && #[trigger] node_files(upper.nodes@[i]).contains(k)
                && #[trigger] k.tags.contains(t) ==> covers(upper.masks@, t, i),
        lower.nodes@.len() == 32,
        upper.nodes@.len() == 32,
    ensures
        top.wf(),
        forall|k: FileKey|
            top.files().contains(k) <==> nodes_files_upto(oldnodes, 32).contains(k),
        top.has_empty_slot(),
{
    TagMaskBits::lemma_all_bits();
    lemma_wf_upto_iff(top.nodes@, 32);
    lemma_files_upto_iff(top.nodes@, 32);
    lemma_files_upto_iff(oldnodes, 32);
    assert(top.files() == nodes_files_upto(top.nodes@, 32));
    assert(node_files(top.nodes@[0]) == lower.files());
    assert(node_files(top.nodes@[1]) == upper.files());
    assert(lower.files() == nodes_files_upto(lower.nodes@, 32));
    assert(upper.files() == nodes_files_upto(upper.nodes@, 32));
    assert forall|i: int, k: FileKey, t: Seq<char>|
        0 <= i < 32 && #[trigger] node_files(top.nodes@[i]).contains(k)
            && #[trigger] k.tags.contains(t) implies covers(top.masks@, t, i) by {
        if i == 0 {
            assert(lower.files().contains(k));
            lemma_files_upto_iff(lower.nodes@, 32);
            let j = choose|j: int|
                0 <= j < 32 && node_files(#[trigger] lower.nodes@[j]).contains(k);
            assert(covers(lower.masks@, t, j));
            assert(lookup(lower.masks@, t) is Some);
        } else if i == 1 {
            assert(upper.files().contains(k));
            lemma_files_upto_iff(upper.nodes@, 32);
            let j = choose|j: int|
                0 <= j < 32 && node_files(#[trigger] upper.nodes@[j]).contains(k);
            assert(covers(upper.masks@, t, j));
            assert(lookup(upper.masks@, t) is Some);
        } else {
            assert(top.nodes@[i] is Empty);
        }
    }
    assert forall|i: int, j: int, k: FileKey|
        0 <= i < 32 && 0 <= j < 32 && i != j && #[trigger] node_files(top.nodes@[i]).contains(k)
            implies !(#[trigger] node_files(top.nodes@[j]).contains(k)) by {
        if node_files(top.nodes@[j]).contains(k) {
            assert(i < 2 && j < 2);
            assert(lower.files().contains(k));
            assert(upper.files().contains(k));
            let z1 = choose|z: int|
                0 <= z < 32 && 0 <= z < 16 && node_files(#[trigger] oldnodes[z]).contains(k);
            let z2 = choose|z: int|
                0 <= z < 32 && 16 <= z < 32 && node_files(#[trigger] oldnodes[z]).contains(k);
            assert(node_files(oldnodes[z1]).contains(k));
            assert(node_files(oldnodes[z2]).contains(k));
            assert(false);
        }
    }
    assert forall|k: FileKey| top.files().contains(k) implies nodes_files_upto(
        oldnodes,
        32,
    ).contains(k) by {
        let j = choose|j: int| 0 <= j < 32 && node_files(#[trigger] top.nodes@[j]).contains(k);
        if j == 0 {
            let z = choose|z: int|
                0 <= z < 32 && 0 <= z < 16 && node_files(#[trigger] oldnodes[z]).contains(k);
        } else if j == 1 {
            let z = choose|z: int|
                0 <= z < 32 && 16 <= z < 32 && node_files(#[trigger] oldnodes[z]).contains(k);
        } else {
            assert(top.nodes@[j] is Empty);
        }
    }
    assert forall|k: FileKey| nodes_files_upto(oldnodes, 32).contains(k) implies top.files()
        .contains(k) by {
        let z = choose|z: int| 0 <= z < 32 && node_files(#[trigger] oldnodes[z]).contains(k);
        if z < 16 {
            assert(lower.files().contains(k));
            assert(node_files(top.nodes@[0]).contains(k));
        } else {
            assert(upper.files().contains(k));
            assert(node_files(top.nodes@[1]).contains(k));
        }
    }
    assert(top.nodes@[2] is Empty);
}

impl BranchNode {
    /// A fresh leaf for a slot that held nothing: pinned to the tags
    /// of the file about to be stored there.
    #[verifier::spinoff_prover]
    pub(crate) fn turn_empty_into_end(tags: &TagSet) -> (e: EndNode)
        requires
            tags.inv(),
        ensures
            e.inv(),
            e.pinned() == tags@,
            e.files() == Set::<FileKey>::empty(),
    {
        EndNode::new(tags.duplicate())
    }

    /// Promote a leaf that declined a structurally different file:
    /// build a branch whose slot 0 keeps the old leaf and whose slot 1
    /// is a fresh leaf holding the new file, with masks routed to
    /// both.
    #[verifier::spinoff_prover]
    #[verifier::rlimit(60)]
    pub(crate) fn make_branch_from_end(end: EndNode, file: &File) -> (r: BranchNode)
        requires
            end.inv(),
            file.inv(),
            file@.tags != end.pinned(),
            !end.files().contains(file@),
        ensures
            r.wf(),
            r.files() == end.files().insert(file@),
    {
        let ghost endfiles = end.files();
        let ghost endpinned = end.pinned();
        let end_tags = end.all_tags();
        let mut r = BranchNode::new_inner();
        r.set_index_for_tags(0, &end_tags);
        r.set_index_for_tags(1, file.tag_set());
        let mut newend = EndNode::new(file.tag_set().duplicate());
        let added = newend.add_file(file);
        proof {
            assert(added is Some);
        }
        r.nodes.set(0, Node::End(end));
        r.nodes.set(1, Node::End(newend));
        r.empty.unset_bit(0);
        r.empty.unset_bit(1);
        proof {
            TagMaskBits::lemma_all_bits();
            lemma_wf_upto_iff(r.nodes@, 32);
            lemma_files_upto_iff(r.nodes@, 32);
            assert(r.files() == nodes_files_upto(r.nodes@, 32));
            assert(node_files(r.nodes@[0]) == endfiles);
            assert(node_files(r.nodes@[1]) == newend.files());
            assert(newend.files() =~= Set::<FileKey>::empty().insert(file@));
            assert forall|i: int, k: FileKey, t: Seq<char>|
                0 <= i < 32 && #[trigger] node_files(r.nodes@[i]).contains(k)
                    && #[trigger] k.tags.contains(t) implies covers(r.masks@, t, i) by {
                if i == 0 {
                    assert(k.tags == endpinned);
                    assert(end_tags@.contains(t));
                } else if i == 1 {
                    assert(k == file@);
                    assert(file@.tags.contains(t));
                } else {
                    assert(r.nodes@[i] is Empty);
                }
            }
            assert forall|i: int, j: int, k: FileKey|
                0 <= i < 32 && 0 <= j < 32 && i != j && #[trigger] node_files(
                    r.nodes@[i],
                ).contains(k) implies !(#[trigger] node_files(r.nodes@[j]).contains(k)) by {
                if node_files(r.nodes@[j]).contains(k) {
                    assert(i < 2 && j < 2);
                    assert(k.tags == endpinned && k.tags == file@.tags);
                }
            }
            assert forall|i: int| 0 <= i < 32 && r.nodes@[i] is Empty implies bit32(
                r.empty.0,
                i as u32,
            ) by {}
            assert(r.files() =~= endfiles.insert(file@));
        }
        r
    }

    /// Split the saturated branch child at `to_replace` in place,
    /// doubling its capacity; the stored files do not change.
    #[verifier::spinoff_prover]
    #[verifier::rlimit(60)]
    pub(crate) fn replace_node(&mut self, to_replace: usize)
        requires
            old(self).wf(),
            to_replace < 32,
            old(self).nodes@[to_replace as int] is Branch,
        ensures
            final(self).wf(),
            final(self).files() == old(self).files(),
            final(self).nodes@.len() == 32,
            forall|j: int|
                0 <= j < 32 && j != to_replace ==> final(self).nodes@[j] == old(self).nodes@[j],
            final(self).nodes@[to_replace as int] is Branch,
            final(self).masks == old(self).masks,
            forall|j: int|
                0 <= j < 32 && old(self).nodes@[j] is Empty ==> final(self).nodes@[j] is Empty,
            forall|j: u32|
                bit32(final(self).empty.0, j) == (bit32(old(self).empty.0, j) && j != to_replace
                    as u32),
    {
        let ghost oldnodes = old(self).nodes@;
        proof {
            self.lemma_children_wf();
            self.lemma_files_decompose();
        }
        match &mut self.nodes[to_replace] {
            Node::Branch(b) => {
                let split = b.make_half_split_node();
                *b = split;
            },
            _ => {
                proof {
                    assert(false);
                }
            },
        }
        self.empty.unset_bit(to_replace);
        proof {
            let newnodes = self.nodes@;
            assert(newnodes == oldnodes.update(to_replace as int, newnodes[to_replace as int]));
            assert(node_files(newnodes[to_replace as int]) == node_files(
                oldnodes[to_replace as int],
            ));
            assert(node_wf(newnodes[to_replace as int]));
            lemma_wf_upto_iff(newnodes, 32);
            lemma_files_upto_iff(newnodes, 32);
            lemma_files_upto_iff(oldnodes, 32);
            assert forall|i: int, k: FileKey, t: Seq<char>|
                0 <= i < 32 && #[trigger] node_files(newnodes[i]).contains(k)
                    && #[trigger] k.tags.contains(t) implies covers(self.masks@, t, i) by {
                assert(node_files(oldnodes[i]).contains(k));
            }
            assert forall|i: int, j: int, k: FileKey|
                0 <= i < 32 && 0 <= j < 32 && i != j && #[trigger] node_files(
                    newnodes[i],
                ).contains(k) implies !(#[trigger] node_files(newnodes[j]).contains(k)) by {
                assert(node_files(oldnodes[i]).contains(k));
                if node_files(newnodes[j]).contains(k) {
                    assert(node_files(oldnodes[j]).contains(k));
                }
            }
            assert(self.files() == nodes_files_upto(newnodes, 32));
            assert(old(self).files() == nodes_files_upto(oldnodes, 32));
            assert forall|key: FileKey|
                nodes_files_upto(newnodes, 32).contains(key) == nodes_files_upto(
                    oldnodes,
                    32,
                ).contains(key) by {
                if nodes_files_upto(newnodes, 32).contains(key) {
                    let j = choose|j: int|
                        0 <= j < 32 && node_files(#[trigger] newnodes[j]).contains(key);
                    assert(node_files(oldnodes[j]).contains(key));
                }
                if nodes_files_upto(oldnodes, 32).contains(key) {
                    let j = choose|j: int|
                        0 <= j < 32 && node_files(#[trigger] oldnodes[j]).contains(key);
                    assert(node_files(newnodes[j]).contains(key));
                }
            }
            assert(self.files() =~= old(self).files());
        }
    }

    /// The AND of the masks of the given tags: slots whose subtrees
    /// already claim every one of the tags.  A tag unknown here forces
    /// the empty mask; no required tags allow every slot.
    #[verifier::spinoff_prover]
    #[verifier::rlimit(60)]
    pub(crate) fn get_intersect(&self, tags: &TagSet) -> (r: TagMaskBits)
        requires
            keys_unique(self.masks@),
        ensures
            forall|i: u32|
                bit32(r.0, i) <==> (i < 32 && forall|t: Seq<char>|
                    tags@.contains(t) ==> covers(self.masks@, t, i as int)),
    {
        let ghost ms = self.masks@;
        let n = tags.len();
        let mut result = TagMaskBits(0xffff_ffffu32);
        let mut x: usize = 0;
        proof {
            TagMaskBits::lemma_all_bits();
            tags.lemma_sview_view();
        }
        while x < n
            invariant
                x <= n,
                n == tags.sview().len(),
                ms == self.masks@,
                keys_unique(ms),
                forall|i: u32|
                    bit32(result.0, i) <==> (i < 32 && forall|y: int|
                        0 <= y < x ==> covers(ms, #[trigger] tags.sview()[y], i as int)),
            decreases n - x,
        {
            let found = self.find_mask(tags.get(x));
            match found {
                Some(m) => {
                    let ghost pre = result.0;
                    let newr = result.intersect(&m);
                    result = newr;
                    proof {
                        assert forall|i: u32|
                            bit32(result.0, i) <==> (i < 32 && forall|y: int|
                                0 <= y < x + 1 ==> covers(
                                    ms,
                                    #[trigger] tags.sview()[y],
                                    i as int,
                                )) by {
                            if bit32(result.0, i) {
                                assert(bit32(pre, i) && bit32(m.0, i));
                                assert forall|y: int| 0 <= y < x + 1 implies covers(
                                    ms,
                                    #[trigger] tags.sview()[y],
                                    i as int,
                                ) by {
                                    if y < x {
                                        assert(covers(ms, tags.sview()[y], i as int));
                                    } else {
                                        assert(covers(ms, tags.sview()[x as int], i as int));
                                    }
                                }
                            } else {
                                if i < 32 && (forall|y: int|
                                    0 <= y < x + 1 ==> covers(
                                        ms,
                                        #[trigger] tags.sview()[y],
                                        i as int,
                                    )) {
                                    assert(covers(ms, tags.sview()[x as int], i as int));
                                    assert(bit32(m.0, i));
                                    assert(bit32(pre, i));
                                }
                            }
                        }
                    }
                },
                None => {
                    let ghost badt = tags.sview()[x as int];
                    result = TagMaskBits(0);
                    proof {
                        assert forall|i: u32| !bit32(result.0, i) by {
                            TagMaskBits::lemma_zero_iff_no_bits(0u32);
                        }
                        assert forall|i: u32|
                            bit32(result.0, i) <==> (i < 32 && forall|t: Seq<char>|
                                tags@.contains(t) ==> covers(ms, t, i as int)) by {
                            if i < 32 && (forall|t: Seq<char>|
                                tags@.contains(t) ==> covers(ms, t, i as int)) {
                                assert(tags@.contains(badt));
                                assert(covers(ms, badt, i as int));
                            }
                        }
                    }
                    return result;
                },
            }
            x = x + 1;
        }
        proof {
            assert forall|i: u32|
                bit32(result.0, i) <==> (i < 32 && forall|t: Seq<char>|
                    tags@.contains(t) ==> covers(ms, t, i as int)) by {
                if bit32(result.0, i) {
                    assert forall|t: Seq<char>| tags@.contains(t) implies covers(
                        ms,
                        t,
                        i as int,
                    ) by {
                        let y = choose|y: int|
                            0 <= y < tags.sview().len() && #[trigger] tags.sview()[y] == t;
                        assert(covers(ms, tags.sview()[y], i as int));
                    }
                } else {
                    if i < 32 && (forall|t: Seq<char>|
                        tags@.contains(t) ==> covers(ms, t, i as int)) {
                        assert forall|y: int| 0 <= y < x implies covers(
                            ms,
                            #[trigger] tags.sview()[y],
                            i as int,
                        ) by {
                            assert(tags@.contains(tags.sview()[y]));
                        }
                    }
                }
            }
        }
        result
    }

    /// The OR of the masks of the given tags: slots whose subtrees
    /// claim at least one of them.  A tag unknown here is simply
    /// skipped, so no required tags yield the empty mask.
    #[verifier::spinoff_prover]
    #[verifier::rlimit(60)]
    pub(crate) fn get_union(&self, tags: &TagSet) -> (r: TagMaskBits)
        requires
            keys_unique(self.masks@),
        ensures
            forall|i: u32|
                bit32(r.0, i) <==> (exists|t: Seq<char>|
                    tags@.contains(t) && covers(self.masks@, t, i as int)),
    {
        let ghost ms = self.masks@;
        let n = tags.len();
        let mut result = TagMaskBits(0);
        let mut x: usize = 0;
        proof {
            TagMaskBits::lemma_zero_iff_no_bits(0u32);
            tags.lemma_sview_view();
        }
        while x < n
            invariant
                x <= n,
                n == tags.sview().len(),
                ms == self.masks@,
                keys_unique(ms),
                forall|y: int| 0 <= y < n ==> tags@.contains(#[trigger] tags.sview()[y]),
                forall|i: u32|
                    bit32(result.0, i) <==> (exists|y: int|
                        0 <= y < x && covers(ms, #[trigger] tags.sview()[y], i as int)),
            decreases n - x,
        {
            let found = self.find_mask(tags.get(x));
            let ghost pre = result.0;
            match found {
                Some(m) => {
                    result.set_union(&m);
                    proof {
                        assert forall|i: u32|
                            bit32(result.0, i) <==> (exists|y: int|
                                0 <= y < x + 1 && covers(
                                    ms,
                                    #[trigger] tags.sview()[y],
                                    i as int,
                                )) by {
                            if bit32(result.0, i) {
                                if bit32(pre, i) {
                                    let y = choose|y: int|
                                        0 <= y < x && covers(
                                            ms,
                                            #[trigger] tags.sview()[y],
                                            i as int,
                                        );
                                    assert(covers(ms, tags.sview()[y], i as int));
                                } else {
                                    assert(bit32(m.0, i));
                                    assert(covers(ms, tags.sview()[x as int], i as int));
                                }
                            } else {
                                if exists|y: int|
                                    0 <= y < x + 1 && covers(
                                        ms,
                                        #[trigger] tags.sview()[y],
                                        i as int,
                                    ) {
                                    let y = choose|y: int|
                                        0 <= y < x + 1 && covers(
                                            ms,
                                            #[trigger] tags.sview()[y],
                                            i as int,
                                        );
                                    if y < x {
                                        assert(bit32(pre, i));
                                    } else {
                                        assert(covers(ms, tags.sview()[x as int], i as int));
                                        assert(bit32(m.0, i));
                                    }
                                    assert(false);
                                }
                            }
                        }
                    }
                },
                None => {
                    proof {
                        lemma_lookup_none_all(ms, tags.sview()[x as int]);
                        assert forall|i: u32|
                            bit32(result.0, i) <==> (exists|y: int|
                                0 <= y < x + 1 && covers(
                                    ms,
                                    #[trigger] tags.sview()[y],
                                    i as int,
                                )) by {
                            if !bit32(result.0, i) {
                                if exists|y: int|
                                    0 <= y < x + 1 && covers(
                                        ms,
                                        #[trigger] tags.sview()[y],
                                        i as int,
                                    ) {
                                    let y = choose|y: int|
                                        0 <= y < x + 1 && covers(
                                            ms,
                                            #[trigger] tags.sview()[y],
                                            i as int,
                                        );
                                    if y < x {
                                        assert(bit32(pre, i));
                                    } else {
                                        assert(covers(ms, tags.sview()[x as int], i as int));
                                    }
                                    assert(false);
                                }
                            }
                        }
                    }
                },
            }
            x = x + 1;
        }
        proof {
            assert forall|i: u32|
                bit32(result.0, i) <==> (exists|t: Seq<char>|
                    tags@.contains(t) && covers(ms, t, i as int)) by {
                if bit32(result.0, i) {
                    let y = choose|y: int|
                        0 <= y < x && covers(ms, #[trigger] tags.sview()[y], i as int);
                    assert(tags@.contains(tags.sview()[y]) && covers(
                        ms,
                        tags.sview()[y],
                        i as int,
                    ));
                } else {
                    if exists|t: Seq<char>| tags@.contains(t) && covers(ms, t, i as int) {
                        let t = choose|t: Seq<char>| tags@.contains(t) && covers(ms, t, i as int);
                        let y = choose|y: int|
                            0 <= y < tags.sview().len() && #[trigger] tags.sview()[y] == t;
                        assert(covers(ms, tags.sview()[y], i as int));
                        assert(false);
                    }
                }
            }
        }
        result
    }
}

impl BranchNode {
    /// After a child accepted `file`, record the file's tags for that
    /// slot and mark the slot occupied; every prior mask pairing is
    /// kept, so the invariants of the whole branch are restored.
    #[verifier::spinoff_prover]
    #[verifier::rlimit(60)]
    fn register_success(&mut self, idx: usize, file: &File)
        requires
            idx < 32,
            file.inv(),
            old(self).nodes@.len() == 32,
            nodes_wf_upto(old(self).nodes@, 32),
            keys_unique(old(self).masks@),
            forall|i: int|
                0 <= i < 32 && old(self).nodes@[i] is Empty ==> bit32(
                    old(self).empty.0,
                    i as u32,
                ),
            forall|i: int, j: int, k: FileKey|
                0 <= i < 32 && 0 <= j < 32 && i != j && #[trigger] node_files(
                    old(self).nodes@[i],
                ).contains(k) ==> !(#[trigger] node_files(old(self).nodes@[j]).contains(k)),
            forall|i: int, k: FileKey, t: Seq<char>|
                0 <= i < 32 && #[trigger] node_files(old(self).nodes@[i]).contains(k)
                    && #[trigger] k.tags.contains(t) ==> covers(old(self).masks@, t, i) || (i
                    == idx && k == file@),
            !(old(self).nodes@[idx as int] is Empty),
        ensures
            final(self).wf(),
            final(self).nodes == old(self).nodes,
            final(self).files() == old(self).files(),
            forall|t: Seq<char>, j: int|
                covers(old(self).masks@, t, j) ==> covers(final(self).masks@, t, j),
    {
        self.set_index_for_tags(idx, file.tag_set());
        self.empty.unset_bit(idx);
        proof {
            assert forall|i: int, k: FileKey, t: Seq<char>|
                0 <= i < 32 && #[trigger] node_files(self.nodes@[i]).contains(k)
                    && #[trigger] k.tags.contains(t) implies covers(self.masks@, t, i) by {
                if covers(old(self).masks@, t, i) {
                } else {
                    assert(i == idx && k == file@);
                    assert(file@.tags.contains(t));
                }
            }
            assert forall|i: int| 0 <= i < 32 && self.nodes@[i] is Empty implies bit32(
                self.empty.0,
                i as u32,
            ) by {
                assert(i != idx);
            }
        }
    }

    /// Try to place `file` in one child.  An `Empty` child becomes a
    /// fresh leaf and always accepts; a leaf accepts an exact tag
    /// match, and may be promoted to a branch when `do_end_replace`
    /// permits destroying it; a branch child is tried recursively.
    /// The caller is left to record the masks of an accepted file.
    #[verifier::spinoff_prover]
    #[verifier::rlimit(60)]
    pub(crate) fn add_file_to_child(child: &mut Node, file: &File, do_end_replace: bool) -> (r:
        Option<()>)
        requires
            node_wf(*old(child)),
            file.inv(),
            !node_files(*old(child)).contains(file@),
        ensures
            node_wf(*final(child)),
            r is Some ==> node_files(*final(child)) == node_files(*old(child)).insert(file@),
            r is None ==> node_files(*final(child)) == node_files(*old(child)),
            (*old(child)) is Empty ==> r is Some,
            (do_end_replace && (*old(child)) is End) ==> r is Some,
            r is Some ==> !((*final(child)) is Empty),
            r is None ==> (((*final(child)) is Branch) == ((*old(child)) is Branch)),
            r is None ==> !((*final(child)) is Empty),
        decreases node_height(*old(child)), 1int,
    {
        let quick: Option<Option<()>> = match child {
            Node::Empty => {
                let mut e = Self::turn_empty_into_end(file.tag_set());
                let added = e.add_file(file);
                proof {
                    assert(added is Some);
                    assert(e.files() =~= Set::<FileKey>::empty().insert(file@));
                }
                *child = Node::End(e);
                proof {
                    assert(node_files(*child) =~= node_files(*old(child)).insert(file@));
                }
                Some(Some(()))
            },
            Node::End(e) => {
                let added = e.add_file(file);
                if added.is_some() {
                    proof {
                        assert(node_files(*child) =~= node_files(*old(child)).insert(file@));
                    }
                    Some(Some(()))
                } else if do_end_replace {
                    None
                } else {
                    Some(None)
                }
            },
            Node::Branch(b) => {
                proof {
                    assert(node_files(*old(child)) == b.files());
                }
                let res = b.add_file(file);
                Some(res)
            },
        };
        match quick {
            Some(r) => {
                proof {
                    if r is None {
                        assert(node_files(*final(child)) == node_files(*old(child)));
                    }
                }
                r
            },
            None => {
                // The leaf declined a structurally different file and this
                // is the last candidate: promote it to a branch.
                let mut tmp = Node::Empty;
                core::mem::swap(child, &mut tmp);
                match tmp {
                    Node::End(end_owned) => {
                        proof {
                            assert(end_owned.files() == node_files(*old(child)));
                            assert(!end_owned.files().contains(file@));
                            if file@.tags == end_owned.pinned() {
                                assert(false);
                            }
                        }
                        let nb = Self::make_branch_from_end(end_owned, file);
                        *child = Node::Branch(nb);
                        proof {
                            assert(node_files(*child) =~= node_files(*old(child)).insert(
                                file@,
                            ));
                        }
                        Some(())
                    },
                    _ => {
                        proof {
                            assert(false);
                        }
                        None
                    },
                }
            },
        }
    }

    /// Insert a file that is not yet stored anywhere under this
    /// branch.  Candidate slots are tried in strict priority order:
    /// slots whose masks claim every tag of the file, then slots
    /// claiming at least one tag, then slots never yet occupied; only
    /// the last candidate of a round may destroy a leaf to make room.
    /// Failure means every slot is occupied and saturated; the
    /// declined branch children are split so that the caller's retry
    /// will find room.
    #[verifier::spinoff_prover]
    #[verifier::rlimit(100)]
    pub fn add_file(&mut self, file: &File) -> (r: Option<()>)
        requires
            old(self).wf(),
            file.inv(),
            !old(self).files().contains(file@),
        ensures
            final(self).wf(),
            r is Some ==> final(self).files() == old(self).files().insert(file@),
            r is None ==> final(self).files() == old(self).files(),
            r is None ==> !final(self).has_empty_slot(),
            r is None ==> !old(self).has_empty_slot(),
            forall|t: Seq<char>, j: int|
                old(self).mask_covers(t, j) ==> final(self).mask_covers(t, j),
        decreases old(self).height(), 0int,
    {
        proof {
            self.lemma_children_wf();
            self.lemma_files_decompose();
        }
        let mut tried = TagMaskBits(0);
        let mut pending = TagMaskBits(0);
        proof {
            TagMaskBits::lemma_zero_iff_no_bits(0u32);
        }
        let mut all_match = self.get_intersect(file.tag_set());
        let last1 = all_match.last_idx();
        loop
            invariant
                self.wf(),
                file.inv(),
                self.nodes@.len() == 32,
                old(self).wf(),
                old(self).nodes@.len() == 32,
                self.files() == old(self).files(),
                !self.files().contains(file@),
                self.empty == old(self).empty,
                self.masks == old(self).masks,
                forall|i: u32|
                    i < 32 && !bit32(tried.0, i) ==> self.nodes@[i as int] == old(
                        self,
                    ).nodes@[i as int],
                forall|i: u32| bit32(tried.0, i) ==> !(self.nodes@[i as int] is Empty),
                forall|i: u32| bit32(tried.0, i) ==> !(old(self).nodes@[i as int] is Empty),
                forall|i: u32| bit32(all_match.0, i) ==> !bit32(tried.0, i),
                forall|i: u32|
                    bit32(pending.0, i) ==> bit32(tried.0, i) && self.nodes@[i as int] is Branch,
            decreases all_match.0,
        {
            let next_idx = all_match.next();
            match next_idx {
                Some(idx) => {
                    let promote = match last1 {
                        Some(l) => l == idx,
                        None => false,
                    };
                    let ghost pre_state = *self;
                    proof {
                        self.lemma_files_decompose();
                        assert(self.nodes@[idx as int] == old(self).nodes@[idx as int]);
                        BranchNode::lemma_child_height(&old(self), idx as int);
                        self.lemma_children_wf();
                    }
                    let res = Self::add_file_to_child(&mut self.nodes[idx], file, promote);
                    if res.is_some() {
                        proof {
                            lemma_after_child_accept(&self, &pre_state, idx as int, file);
                        }
                        let ghost mid_state = *self;
                        self.register_success(idx, file);
                        proof {
                            assert(self.nodes == mid_state.nodes);
                            lemma_files_insert_at(&self, &pre_state, idx as int, file);
                        }
                        return Some(());
                    }
                    proof {
                        lemma_after_child_decline(&self, &pre_state, idx as int);
                    }
                    let is_branch = match &self.nodes[idx] {
                        Node::Branch(_) => true,
                        _ => false,
                    };
                    if is_branch {
                        pending.set_bit(idx);
                    }
                    tried.set_bit(idx);
                },
                None => {
                    break ;
                },
            }
        }
        let mut any_match = self.get_union(file.tag_set());
        any_match.set_subtract(&tried);
        let last2 = any_match.last_idx();
        loop
            invariant
                self.wf(),
                file.inv(),
                self.nodes@.len() == 32,
                old(self).wf(),
                old(self).nodes@.len() == 32,
                self.files() == old(self).files(),
                !self.files().contains(file@),
                self.empty == old(self).empty,
                self.masks == old(self).masks,
                forall|i: u32|
                    i < 32 && !bit32(tried.0, i) ==> self.nodes@[i as int] == old(
                        self,
                    ).nodes@[i as int],
                forall|i: u32| bit32(tried.0, i) ==> !(self.nodes@[i as int] is Empty),
                forall|i: u32| bit32(tried.0, i) ==> !(old(self).nodes@[i as int] is Empty),
                forall|i: u32| bit32(any_match.0, i) ==> !bit32(tried.0, i),
                forall|i: u32|
                    bit32(pending.0, i) ==> bit32(tried.0, i) && self.nodes@[i as int] is Branch,
            decreases any_match.0,
        {
            let next_idx = any_match.next();
            match next_idx {
                Some(idx) => {
                    let promote = match last2 {
                        Some(l) => l == idx,
                        None => false,
                    };
                    let ghost pre_state = *self;
                    proof {
                        self.lemma_files_decompose();
                        assert(self.nodes@[idx as int] == old(self).nodes@[idx as int]);
                        BranchNode::lemma_child_height(&old(self), idx as int);
                        self.lemma_children_wf();
                    }
                    let res = Self::add_file_to_child(&mut self.nodes[idx], file, promote);
                    if res.is_some() {
                        proof {
                            lemma_after_child_accept(&self, &pre_state, idx as int, file);
                        }
                        let ghost mid_state = *self;
                        self.register_success(idx, file);
                        proof {
                            assert(self.nodes == mid_state.nodes);
                            lemma_files_insert_at(&self, &pre_state, idx as int, file);
                        }
                        return Some(());
                    }
                    proof {
                        lemma_after_child_decline(&self, &pre_state, idx as int);
                    }
                    let is_branch = match &self.nodes[idx] {
                        Node::Branch(_) => true,
                        _ => false,
                    };
                    if is_branch {
                        pending.set_bit(idx);
                    }
                    tried.set_bit(idx);
                },
                None => {
                    break ;
                },
            }
        }
        let mut empty_items = self.empty;
        empty_items.set_subtract(&tried);
        let last3 = empty_items.last_idx();
        loop
            invariant_except_break
                self.wf(),
                file.inv(),
                self.nodes@.len() == 32,
                old(self).wf(),
                old(self).nodes@.len() == 32,
                self.files() == old(self).files(),
                !self.files().contains(file@),
                self.empty == old(self).empty,
                self.masks == old(self).masks,
                forall|i: u32|
                    i < 32 && !bit32(tried.0, i) ==> self.nodes@[i as int] == old(
                        self,
                    ).nodes@[i as int],
                forall|i: u32| bit32(tried.0, i) ==> !(self.nodes@[i as int] is Empty),
                forall|i: u32| bit32(tried.0, i) ==> !(old(self).nodes@[i as int] is Empty),
                forall|i: u32| bit32(empty_items.0, i) ==> !bit32(tried.0, i),
                forall|i: u32|
                    bit32(pending.0, i) ==> bit32(tried.0, i) && self.nodes@[i as int] is Branch,
                forall|i: u32|
                    bit32(self.empty.0, i) && !bit32(tried.0, i) ==> bit32(empty_items.0, i),
            ensures
                self.wf(),
                self.nodes@.len() == 32,
                self.files() == old(self).files(),
                forall|i: u32| bit32(tried.0, i) ==> !(self.nodes@[i as int] is Empty),
                forall|i: u32| bit32(tried.0, i) ==> !(old(self).nodes@[i as int] is Empty),
                forall|i: u32|
                    bit32(pending.0, i) ==> bit32(tried.0, i) && self.nodes@[i as int] is Branch,
                forall|i: u32| bit32(self.empty.0, i) ==> bit32(tried.0, i),
                self.masks == old(self).masks,
                forall|i: u32| bit32(tried.0, i) ==> !(old(self).nodes@[i as int] is Empty),
                forall|i: u32|
                    i < 32 && !bit32(tried.0, i) ==> self.nodes@[i as int] == old(
                        self,
                    ).nodes@[i as int],
                self.empty == old(self).empty,
            decreases empty_items.0,
        {
            let next_idx = empty_items.next();
            match next_idx {
                Some(idx) => {
                    let promote = match last3 {
                        Some(l) => l == idx,
                        None => false,
                    };
                    let ghost pre_state = *self;
                    proof {
                        self.lemma_files_decompose();
                        assert(self.nodes@[idx as int] == old(self).nodes@[idx as int]);
                        BranchNode::lemma_child_height(&old(self), idx as int);
                        self.lemma_children_wf();
                    }
                    let res = Self::add_file_to_child(&mut self.nodes[idx], file, promote);
                    if res.is_some() {
                        proof {
                            lemma_after_child_accept(&self, &pre_state, idx as int, file);
                        }
                        let ghost mid_state = *self;
                        self.register_success(idx, file);
                        proof {
                            assert(self.nodes == mid_state.nodes);
                            lemma_files_insert_at(&self, &pre_state, idx as int, file);
                        }
                        return Some(());
                    }
                    proof {
                        lemma_after_child_decline(&self, &pre_state, idx as int);
                    }
                    let is_branch = match &self.nodes[idx] {
                        Node::Branch(_) => true,
                        _ => false,
                    };
                    if is_branch {
                        pending.set_bit(idx);
                    }
                    tried.set_bit(idx);
                },
                None => {
                    proof {
                        TagMaskBits::lemma_zero_iff_no_bits(empty_items.0);
                        assert forall|i2: u32| bit32(self.empty.0, i2) implies bit32(
                            tried.0,
                            i2,
                        ) by {
                            if !bit32(tried.0, i2) {
                                assert(bit32(empty_items.0, i2));
                            }
                        }
                    }
                    break ;
                },
            }
        }
        proof {
            assert forall|i: int| 0 <= i < 32 implies !(self.nodes@[i] is Empty) by {
                if self.nodes@[i] is Empty {
                    assert(bit32(self.empty.0, i as u32));
                    assert(bit32(tried.0, i as u32));
                }
            }
            assert forall|i: int| 0 <= i < 32 implies !(old(self).nodes@[i] is Empty) by {
                if old(self).nodes@[i] is Empty {
                    if bit32(tried.0, i as u32) {
                    } else {
                        assert(self.nodes@[i] == old(self).nodes@[i]);
                    }
                }
            }
            assert(!old(self).has_empty_slot());
        }
        let mut p = pending;
        loop
            invariant
                self.wf(),
                self.nodes@.len() == 32,
                self.files() == old(self).files(),
                self.masks == old(self).masks,
                forall|i: u32| bit32(p.0, i) ==> self.nodes@[i as int] is Branch,
                forall|i: int| 0 <= i < 32 ==> !(self.nodes@[i] is Empty),
            decreases p.0,
        {
            let next_idx = p.next();
            match next_idx {
                Some(idx) => {
                    proof {
                        assert(self.nodes@[idx as int] is Branch);
                    }
                    let ghost pre = self.nodes@;
                    self.replace_node(idx);
                    proof {
                        assert forall|i: u32| bit32(p.0, i) implies self.nodes@[i as int]
                            is Branch by {
                            assert(i != idx as u32);
                        }
                        assert forall|i: int| 0 <= i < 32 implies !(self.nodes@[i] is Empty) by {
                            if i != idx {
                                assert(self.nodes@[i] == pre[i]);
                            }
                        }
                    }
                },
                None => {
                    break ;
                },
            }
        }
        None
    }
}

/// After a child at `idx` accepted a file, the rest of the branch is
/// untouched and the masks cover everything except the new file at
/// `idx`.
#[verifier::spinoff_prover]
proof fn lemma_after_child_accept(cur: &BranchNode, prev: &BranchNode, idx: int, file: &File)
    requires
        prev.wf(),
        0 <= idx < 32,
        cur.nodes@.len() == 32,
        cur.masks == prev.masks,
        cur.empty == prev.empty,
        forall|j: int| 0 <= j < 32 && j != idx ==> cur.nodes@[j] == prev.nodes@[j],
        node_wf(cur.nodes@[idx]),
        !(cur.nodes@[idx] is Empty),
        node_files(cur.nodes@[idx]) == node_files(prev.nodes@[idx]).insert(file@),
        !prev.files().contains(file@),
    ensures
        cur.nodes@.len() == 32,
        nodes_wf_upto(cur.nodes@, 32),
        keys_unique(cur.masks@),
        forall|i: int|
            0 <= i < 32 && cur.nodes@[i] is Empty ==> bit32(cur.empty.0, i as u32),
        forall|i: int, j: int, k: FileKey|
            0 <= i < 32 && 0 <= j < 32 && i != j && #[trigger] node_files(
                cur.nodes@[i],
            ).contains(k) ==> !(#[trigger] node_files(cur.nodes@[j]).contains(k)),
        forall|i: int, k: FileKey, t: Seq<char>|
            0 <= i < 32 && #[trigger] node_files(cur.nodes@[i]).contains(k)
                && #[trigger] k.tags.contains(t) ==> covers(cur.masks@, t, i) || (i == idx && k
                == file@),
        !(cur.nodes@[idx] is Empty),
{
    prev.lemma_children_wf();
    prev.lemma_files_decompose();
    lemma_wf_upto_iff(cur.nodes@, 32);
    assert forall|i: int, j: int, k: FileKey|
        0 <= i < 32 && 0 <= j < 32 && i != j && #[trigger] node_files(cur.nodes@[i]).contains(k)
            implies !(#[trigger] node_files(cur.nodes@[j]).contains(k)) by {
        if node_files(cur.nodes@[j]).contains(k) {
            if i == idx {
                if k == file@ {
                    assert(node_files(prev.nodes@[j]).contains(k));
                    assert(prev.files().contains(file@));
                } else {
                    assert(node_files(prev.nodes@[i]).contains(k));
                    assert(node_files(prev.nodes@[j]).contains(k));
                }
            } else if j == idx {
                if k == file@ {
                    assert(node_files(prev.nodes@[i]).contains(k));
                    assert(prev.files().contains(file@));
                } else {
                    assert(node_files(prev.nodes@[i]).contains(k));
                    assert(node_files(prev.nodes@[j]).contains(k));
                }
            } else {
                assert(node_files(prev.nodes@[i]).contains(k));
                assert(node_files(prev.nodes@[j]).contains(k));
            }
        }
    }
    assert forall|i: int, k: FileKey, t: Seq<char>|
        0 <= i < 32 && #[trigger] node_files(cur.nodes@[i]).contains(k)
            && #[trigger] k.tags.contains(t) implies covers(cur.masks@, t, i) || (i == idx && k
            == file@) by {
        if i == idx {
            if k != file@ {
                assert(node_files(prev.nodes@[i]).contains(k));
            }
        } else {
            assert(node_files(prev.nodes@[i]).contains(k));
        }
    }
}

/// With the masks restored after an accepted insert at `idx`, the
/// whole branch stores exactly one more file.
#[verifier::spinoff_prover]
proof fn lemma_files_insert_at(cur: &BranchNode, prev: &BranchNode, idx: int, file: &File)
    requires
        0 <= idx < 32,
        cur.nodes@.len() == 32,
        prev.nodes@.len() == 32,
        forall|j: int| 0 <= j < 32 && j != idx ==> cur.nodes@[j] == prev.nodes@[j],
        node_files(cur.nodes@[idx]) == node_files(prev.nodes@[idx]).insert(file@),
    ensures
        cur.files() == prev.files().insert(file@),
{
    lemma_files_upto_iff(cur.nodes@, 32);
    lemma_files_upto_iff(prev.nodes@, 32);
    assert(cur.files() == nodes_files_upto(cur.nodes@, 32));
    assert(prev.files() == nodes_files_upto(prev.nodes@, 32));
    assert forall|key: FileKey| cur.files().contains(key) implies prev.files().insert(
        file@,
    ).contains(key) by {
        let j = choose|j: int| 0 <= j < 32 && node_files(#[trigger] cur.nodes@[j]).contains(key);
        if j == idx {
            if key != file@ {
                assert(node_files(prev.nodes@[j]).contains(key));
            }
        } else {
            assert(node_files(prev.nodes@[j]).contains(key));
        }
    }
    assert forall|key: FileKey|
        prev.files().insert(file@).contains(key) implies cur.files().contains(key) by {
        if key == file@ {
            assert(node_files(cur.nodes@[idx]).contains(key));
        } else {
            let j = choose|j: int|
                0 <= j < 32 && node_files(#[trigger] prev.nodes@[j]).contains(key);
            if j == idx {
                assert(node_files(cur.nodes@[j]).contains(key));
            } else {
                assert(node_files(cur.nodes@[j]).contains(key));
            }
        }
    }
    assert(cur.files() =~= prev.files().insert(file@));
}

/// After a child at `idx` declined a file, the branch stores the same
/// files and stays well formed.
#[verifier::spinoff_prover]
proof fn lemma_after_child_decline(cur: &BranchNode, prev: &BranchNode, idx: int)
    requires
        prev.wf(),
        0 <= idx < 32,
        cur.nodes@.len() == 32,
        cur.masks == prev.masks,
        cur.empty == prev.empty,
        forall|j: int| 0 <= j < 32 && j != idx ==> cur.nodes@[j] == prev.nodes@[j],
        node_wf(cur.nodes@[idx]),
        !(cur.nodes@[idx] is Empty),
        node_files(cur.nodes@[idx]) == node_files(prev.nodes@[idx]),
    ensures
        cur.wf(),
        cur.files() == prev.files(),
{
    prev.lemma_children_wf();
    lemma_wf_upto_iff(cur.nodes@, 32);
    assert forall|i: int| 0 <= i < 32 && cur.nodes@[i] is Empty implies bit32(
        cur.empty.0,
        i as u32,
    ) by {
        assert(i != idx);
        assert(prev.nodes@[i] is Empty);
    }
    lemma_files_upto_iff(cur.nodes@, 32);
    lemma_files_upto_iff(prev.nodes@, 32);
    assert(cur.files() == nodes_files_upto(cur.nodes@, 32));
    assert(prev.files() == nodes_files_upto(prev.nodes@, 32));
    assert forall|i: int, k: FileKey, t: Seq<char>|
        0 <= i < 32 && #[trigger] node_files(cur.nodes@[i]).contains(k)
            && #[trigger] k.tags.contains(t) implies covers(cur.masks@, t, i) by {
        assert(node_files(prev.nodes@[i]).contains(k));
    }
    assert forall|i: int, j: int, k: FileKey|
        0 <= i < 32 && 0 <= j < 32 && i != j && #[trigger] node_files(cur.nodes@[i]).contains(k)
            implies !(#[trigger] node_files(cur.nodes@[j]).contains(k)) by {
        assert(node_files(prev.nodes@[i]).contains(k));
        if node_files(cur.nodes@[j]).contains(k) {
            assert(node_files(prev.nodes@[j]).contains(k));
        }
    }
    assert forall|key: FileKey|
        cur.files().contains(key) == prev.files().contains(key) by {
        if cur.files().contains(key) {
            let j = choose|j: int|
                0 <= j < 32 && node_files(#[trigger] cur.nodes@[j]).contains(key);
            assert(node_files(prev.nodes@[j]).contains(key));
        }
        if prev.files().contains(key) {
            let j = choose|j: int|
                0 <= j < 32 && node_files(#[trigger] prev.nodes@[j]).contains(key);
            assert(node_files(cur.nodes@[j]).contains(key));
        }
    }
    assert(cur.files() =~= prev.files());
}

/// The stored files under child `i` of `s` that satisfy a query.
pub(crate) open spec fn child_matches(
    s: Seq<Node>,
    i: int,
    qt: Set<Seq<char>>,
    qn: Option<Seq<char>>,
) -> Set<FileKey> {
    matches_of(node_files(s[i]), qt, qn)
}

impl BranchNode {
    /// Every stored file that satisfies the query lies under a child
    /// slot named by the AND of the query tags' masks.
    proof fn lemma_prune_sound<F: FileQuery>(&self, query: &F, mask0: u32)
        requires
            self.wf(),
            forall|i: u32|
                bit32(mask0, i) <==> (i < 32 && forall|t: Seq<char>|
                    query.q_tags().contains(t) ==> covers(self.masks@, t, i as int)),
        ensures
            forall|k: FileKey, j: int|
                matches_of(self.files(), query.q_tags(), query.q_name()).contains(k) && 0 <= j < 32
                    && #[trigger] node_files(self.nodes@[j]).contains(k) ==> bit32(
                    mask0,
                    j as u32,
                ),
    {
        assert forall|k: FileKey, j: int|
            matches_of(self.files(), query.q_tags(), query.q_name()).contains(k) && 0 <= j < 32
                && #[trigger] node_files(self.nodes@[j]).contains(k) implies bit32(
            mask0,
            j as u32,
        ) by {
            assert forall|t: Seq<char>| query.q_tags().contains(t) implies covers(
                self.masks@,
                t,
                j,
            ) by {
                assert(k.tags.contains(t));
            }
        }
    }

    /// The single stored file under this branch matching the query, or
    /// which way the lookup failed.  Candidate children are consulted
    /// in slot order; two hits, or a plural hit inside one child, end
    /// the search at once.
    #[verifier::spinoff_prover]
    #[verifier::rlimit(100)]
    pub fn get_file<F: FileQuery>(&self, query: &F) -> (r: Result<File, GetFileError>)
        requires
            self.wf(),
            query.q_inv(),
        ensures
            ({
                let m = matches_of(self.files(), query.q_tags(), query.q_name());
                &&& (r == Result::<File, GetFileError>::Err(GetFileError::NoSuchFile)) <==> no_match(
                    m,
                )
                &&& (r matches Ok(f) ==> f.inv() && unique_match(m, f@))
                &&& (r == Result::<File, GetFileError>::Err(GetFileError::TooManyFiles))
                    <==> multi_match(m)
            }),
        decreases self.height(), 0int,
    {
        let ghost qt = query.q_tags();
        let ghost qn = query.q_name();
        let ghost m = matches_of(self.files(), qt, qn);
        proof {
            self.lemma_children_wf();
            self.lemma_files_decompose();
        }
        let mut mask = self.get_intersect(query.tags());
        let ghost mask0 = mask.0;
        proof {
            self.lemma_prune_sound(query, mask0);
        }
        let mut found: Option<File> = None;
        loop
            invariant_except_break
                self.wf(),
                query.q_inv(),
                self.nodes@.len() == 32,
                qt == query.q_tags(),
                qn == query.q_name(),
                m == matches_of(self.files(), qt, qn),
                forall|k: FileKey, j: int|
                    m.contains(k) && 0 <= j < 32 && #[trigger] node_files(
                        self.nodes@[j],
                    ).contains(k) ==> bit32(mask0, j as u32),
                forall|i: u32| bit32(mask.0, i) ==> bit32(mask0, i),
                match found {
                    Some(f) => {
                        &&& f.inv()
                        &&& m.contains(f@)
                        &&& exists|j: int|
                            0 <= j < 32 && node_files(#[trigger] self.nodes@[j]).contains(f@)
                                && !bit32(mask.0, j as u32)
                        &&& forall|i: int, k: FileKey|
                            0 <= i < 32 && bit32(mask0, i as u32) && !bit32(mask.0, i as u32)
                                && #[trigger] child_matches(self.nodes@, i, qt, qn).contains(k)
                                ==> k == f@
                    },
                    None => forall|i: int, k: FileKey|
                        0 <= i < 32 && bit32(mask0, i as u32) && !bit32(mask.0, i as u32)
                            ==> !(#[trigger] child_matches(self.nodes@, i, qt, qn).contains(k)),
                },
            ensures
                match found {
                    Some(f) => {
                        &&& f.inv()
                        &&& m.contains(f@)
                        &&& forall|i: int, k: FileKey|
                            0 <= i < 32 && bit32(mask0, i as u32) && #[trigger] child_matches(
                                self.nodes@,
                                i,
                                qt,
                                qn,
                            ).contains(k) ==> k == f@
                    },
                    None => forall|i: int, k: FileKey|
                        0 <= i < 32 && bit32(mask0, i as u32) ==> !(#[trigger] child_matches(
                            self.nodes@,
                            i,
                            qt,
                            qn,
                        ).contains(k)),
                },
            decreases mask.0,
        {
            let next_idx = mask.next();
            match next_idx {
                Some(idx) => {
                    proof {
                        self.lemma_child_height(idx as int);
                        self.lemma_children_wf();
                        self.lemma_files_decompose();
                        assert(node_wf(self.nodes@[idx as int]));
                    }
                    let cr = match &self.nodes[idx] {
                        Node::Branch(bc) => bc.get_file(query),
                        Node::End(ec) => ec.get_file(query),
                        Node::Empty => {
                            proof {
                                assert(node_files(self.nodes@[idx as int]) == Set::<
                                    FileKey,
                                >::empty());
                                assert(forall|k: FileKey|
                                    !child_matches(self.nodes@, idx as int, qt, qn).contains(k));
                            }
                            Err(GetFileError::NoSuchFile)
                        },
                    };
                    proof {
                        assert(child_matches(self.nodes@, idx as int, qt, qn) == matches_of(
                            node_files(self.nodes@[idx as int]),
                            qt,
                            qn,
                        ));
                        assert forall|k: FileKey|
                            child_matches(self.nodes@, idx as int, qt, qn).contains(
                                k,
                            ) implies m.contains(k) by {
                            assert(node_files(self.nodes@[idx as int]).contains(k));
                            assert(self.files().contains(k));
                        }
                    }
                    match cr {
                        Err(GetFileError::TooManyFiles) => {
                            proof {
                                let mc = child_matches(self.nodes@, idx as int, qt, qn);
                                let (a, b2) = choose|a: FileKey, b2: FileKey|
                                    mc.contains(a) && mc.contains(b2) && a != b2;
                                assert(m.contains(a) && m.contains(b2));
                                assert(multi_match(m));
                            }
                            return Err(GetFileError::TooManyFiles);
                        },
                        Err(GetFileError::NoSuchFile) => {
                            proof {
                                assert forall|k: FileKey|
                                    !(child_matches(self.nodes@, idx as int, qt, qn).contains(
                                        k,
                                    )) by {}
                            }
                        },
                        Ok(f) => {
                            match &found {
                                Some(prior) => {
                                    proof {
                                        let jp = choose|j: int|
                                            0 <= j < 32 && node_files(
                                                #[trigger] self.nodes@[j],
                                            ).contains(prior@) && !bit32(mask.0, j as u32);
                                        assert(child_matches(
                                            self.nodes@,
                                            idx as int,
                                            qt,
                                            qn,
                                        ).contains(f@));
                                        assert(node_files(self.nodes@[idx as int]).contains(f@));
                                        assert(jp != idx as int);
                                        assert(f@ != prior@);
                                        assert(m.contains(f@) && m.contains(prior@));
                                        assert(multi_match(m));
                                    }
                                    return Err(GetFileError::TooManyFiles);
                                },
                                None => {
                                    found = Some(f);
                                },
                            }
                        },
                    }
                },
                None => {
                    proof {
                        TagMaskBits::lemma_zero_iff_no_bits(mask.0);
                    }
                    break ;
                },
            }
        }
        match found {
            Some(f) => {
                proof {
                    assert forall|k: FileKey| m.contains(k) implies k == f@ by {
                        let j = choose|j: int|
                            0 <= j < 32 && node_files(#[trigger] self.nodes@[j]).contains(k);
                        assert(bit32(mask0, j as u32));
                        assert(child_matches(self.nodes@, j, qt, qn).contains(k));
                    }
                    assert(unique_match(m, f@));
                    crate::tagtree::endnode::lemma_unique_not_multi(m, f@);
                }
                Ok(f)
            },
            None => {
                proof {
                    assert forall|k: FileKey| !m.contains(k) by {
                        if m.contains(k) {
                            let j = choose|j: int|
                                0 <= j < 32 && node_files(#[trigger] self.nodes@[j]).contains(k);
                            assert(bit32(mask0, j as u32));
                            assert(child_matches(self.nodes@, j, qt, qn).contains(k));
                        }
                    }
                    crate::tagtree::endnode::lemma_empty_not_multi(m);
                }
                Err(GetFileError::NoSuchFile)
            },
        }
    }

    /// Enumerate, lazily and in ascending slot order, every stored
    /// file under this branch that matches the query.
    #[verifier::spinoff_prover]
    #[verifier::rlimit(100)]
    pub fn get_files<F: FileQuery>(&self, query: &F) -> (it: MultiNodeIterator)
        requires
            self.wf(),
            query.q_inv(),
        ensures
            it.inv(),
            forall|k: FileKey|
                it.remaining().contains(k) == matches_of(
                    self.files(),
                    query.q_tags(),
                    query.q_name(),
                ).contains(k),
            forall|x: int, y: int|
                0 <= x < y < it.remaining().len() ==> it.remaining()[x] != it.remaining()[y],
        decreases self.height(), 0int,
    {
        let ghost qt = query.q_tags();
        let ghost qn = query.q_name();
        let ghost m = matches_of(self.files(), qt, qn);
        proof {
            self.lemma_children_wf();
            self.lemma_files_decompose();
        }
        let mut mask = self.get_intersect(query.tags());
        let ghost mask0 = mask.0;
        proof {
            self.lemma_prune_sound(query, mask0);
        }
        let mut subs: Vec<NodeIterator> = Vec::new();
        let ghost mut idxs: Seq<int> = Seq::<int>::empty();
        loop
            invariant_except_break
                self.wf(),
                query.q_inv(),
                self.nodes@.len() == 32,
                qt == query.q_tags(),
                qn == query.q_name(),
                m == matches_of(self.files(), qt, qn),
                subs@.len() == idxs.len(),
                forall|z: int|
                    0 <= z < idxs.len() ==> 0 <= #[trigger] idxs[z] < 32 && bit32(
                        mask0,
                        idxs[z] as u32,
                    ),
                forall|z: int| 0 <= z < subs@.len() ==> nit_inv(#[trigger] subs@[z]),
                forall|z: int, k: FileKey|
                    0 <= z < subs@.len() ==> #[trigger] nit_views(subs@[z]).contains(k)
                        == child_matches(self.nodes@, idxs[z], qt, qn).contains(k),
                forall|z: int, x: int, y: int|
                    0 <= z < subs@.len() && 0 <= x < y < nit_views(subs@[z]).len()
                        ==> #[trigger] nit_views(subs@[z])[x] != #[trigger] nit_views(subs@[z])[y],
                forall|z1: int, z2: int| 0 <= z1 < z2 < idxs.len() ==> idxs[z1] < idxs[z2],
                forall|i: u32| bit32(mask.0, i) ==> bit32(mask0, i),
                forall|i: u32, z: int| #![trigger bit32(mask.0, i), idxs[z]]
                    bit32(mask.0, i) && 0 <= z < idxs.len() ==> idxs[z] < i,
                forall|i: int| #![trigger bit32(mask0, i as u32)]
                    0 <= i < 32 && bit32(mask0, i as u32) && !bit32(mask.0, i as u32)
                        ==> exists|z: int| 0 <= z < idxs.len() && idxs[z] == i,
            ensures
                subs@.len() == idxs.len(),
                forall|z: int|
                    0 <= z < idxs.len() ==> 0 <= #[trigger] idxs[z] < 32 && bit32(
                        mask0,
                        idxs[z] as u32,
                    ),
                forall|z: int| 0 <= z < subs@.len() ==> nit_inv(#[trigger] subs@[z]),
                forall|z: int, k: FileKey|
                    0 <= z < subs@.len() ==> #[trigger] nit_views(subs@[z]).contains(k)
                        == child_matches(self.nodes@, idxs[z], qt, qn).contains(k),
                forall|z: int, x: int, y: int|
                    0 <= z < subs@.len() && 0 <= x < y < nit_views(subs@[z]).len()
                        ==> #[trigger] nit_views(subs@[z])[x] != #[trigger] nit_views(subs@[z])[y],
                forall|z1: int, z2: int| 0 <= z1 < z2 < idxs.len() ==> idxs[z1] < idxs[z2],
                forall|i: int| #![trigger bit32(mask0, i as u32)]
                    0 <= i < 32 && bit32(mask0, i as u32) ==> exists|z: int|
                        0 <= z < idxs.len() && idxs[z] == i,
            decreases mask.0,
        {
            let ghost premask = mask.0;
            let next_idx = mask.next();
            match next_idx {
                Some(idx) => {
                    proof {
                        self.lemma_child_height(idx as int);
                        self.lemma_children_wf();
                        self.lemma_files_decompose();
                        assert(node_wf(self.nodes@[idx as int]));
                    }
                    let sub: NodeIterator = match &self.nodes[idx] {
                        Node::Branch(bc) => NodeIterator::MultiNodeIter(bc.get_files(query)),
                        Node::End(ec) => NodeIterator::EndNodeIter(ec.get_files(query)),
                        Node::Empty => {
                            let e = MultiNodeIterator::empty();
                            proof {
                                assert(node_files(self.nodes@[idx as int]) == Set::<
                                    FileKey,
                                >::empty());
                            }
                            NodeIterator::MultiNodeIter(e)
                        },
                    };
                    proof {
                        assert forall|k: FileKey| nit_views(sub).contains(k)
                            == child_matches(self.nodes@, idx as int, qt, qn).contains(k) by {
                            if nit_views(sub).contains(k) {
                                assert(node_files(self.nodes@[idx as int]).contains(k)
                                    || !nit_views(sub).contains(k));
                            }
                        }
                    }
                    let ghost presubs = subs@;
                    let ghost preidxs = idxs;
                    subs.push(sub);
                    proof {
                        idxs = idxs.push(idx as int);
                        assert(subs@[presubs.len() as int] == sub);
                        assert(idxs[preidxs.len() as int] == idx as int);
                        assert(bit32(premask, idx as u32));
                        assert forall|z: int| 0 <= z < preidxs.len() implies preidxs[z]
                            < idx as int by {
                            let iu: u32 = idx as u32;
                            assert(bit32(premask, iu) && 0 <= z < preidxs.len());
                            assert(preidxs[z] < iu);
                            assert(iu == idx as int);
                        }
                        assert forall|i: u32, z: int| #![trigger bit32(mask.0, i), idxs[z]]
                            bit32(mask.0, i) && 0 <= z < idxs.len() implies idxs[z] < i by {
                            assert(bit32(premask, i));
                            assert(i != idx as u32);
                            assert(!(i < idx as u32));
                            if z < preidxs.len() {
                                assert(preidxs[z] < idx as int);
                            } else {
                                assert(idxs[z] == idx as int);
                            }
                        }
                        assert forall|z: int| 0 <= z < presubs.len() implies subs@[z]
                            == presubs[z] && idxs[z] == preidxs[z] by {}
                        assert forall|i: int| #![trigger bit32(mask0, i as u32)]
                            0 <= i < 32 && bit32(mask0, i as u32) && !bit32(mask.0, i as u32)
                                implies exists|z: int| 0 <= z < idxs.len() && idxs[z] == i by {
                            if i == idx as int {
                                assert(idxs[preidxs.len() as int] == i);
                            } else {
                                if bit32(mask0, i as u32) && !bit32(mask.0, i as u32) && i
                                    != idx as int {
                                    let z = choose|z: int|
                                        0 <= z < preidxs.len() && preidxs[z] == i;
                                    assert(idxs[z] == i);
                                }
                            }
                        }
                    }
                },
                None => {
                    proof {
                        TagMaskBits::lemma_zero_iff_no_bits(mask.0);
                    }
                    break ;
                },
            }
        }
        let ghost subsv = subs@;
        let it = MultiNodeIterator::new(subs);
        proof {
            lemma_concat_iff(subsv, 0);
            assert(it.remaining() == concat_from(subsv, 0));
            assert forall|k: FileKey| it.remaining().contains(k) == m.contains(k) by {
                if it.remaining().contains(k) {
                    let z = choose|z: int|
                        0 <= z < subsv.len() && nit_views(#[trigger] subsv[z]).contains(k);
                    assert(child_matches(self.nodes@, idxs[z], qt, qn).contains(k));
                    assert(node_files(self.nodes@[idxs[z]]).contains(k));
                    assert(self.files().contains(k));
                }
                if m.contains(k) {
                    let j = choose|j: int|
                        0 <= j < 32 && node_files(#[trigger] self.nodes@[j]).contains(k);
                    assert(bit32(mask0, j as u32));
                    let z = choose|z: int| 0 <= z < idxs.len() && #[trigger] idxs[z] == j;
                    assert(child_matches(self.nodes@, j, qt, qn).contains(k));
                    assert(nit_views(subsv[z]).contains(k));
                    assert(it.remaining().contains(k));
                }
            }
            assert forall|z1: int, z2: int, k: FileKey|
                0 <= z1 < subsv.len() && 0 <= z2 < subsv.len() && z1 != z2 && #[trigger] nit_views(
                    subsv[z1],
                ).contains(k) implies !(#[trigger] nit_views(subsv[z2]).contains(k)) by {
                assert(child_matches(self.nodes@, idxs[z1], qt, qn).contains(k));
                if nit_views(subsv[z2]).contains(k) {
                    assert(child_matches(self.nodes@, idxs[z2], qt, qn).contains(k));
                    assert(idxs[z1] != idxs[z2]);
                    assert(node_files(self.nodes@[idxs[z1]]).contains(k));
                    assert(node_files(self.nodes@[idxs[z2]]).contains(k));
                }
            }
            lemma_concat_nodup(subsv, 0);
        }
        it
    }
}


impl BranchNode {
    /// Cut the tag map in two: each entry's mask restricted to the
    /// lower sixteen slots for the first map and to the upper sixteen
    /// for the second, entries whose restriction is empty dropped.
    #[verifier::spinoff_prover]
    #[verifier::rlimit(100)]
    fn split_masks(&self) -> (r: (Vec<MaskEntry>, Vec<MaskEntry>))
        requires
            keys_unique(self.masks@),
        ensures
            keys_unique(r.0@),
            keys_unique(r.1@),
            masks_from(r.0@, self.masks@, 0x0000_ffffu32, self.masks@.len() as int),
            masks_onto(r.0@, self.masks@, 0x0000_ffffu32, self.masks@.len() as int),
            masks_from(r.1@, self.masks@, 0xffff_0000u32, self.masks@.len() as int),
            masks_onto(r.1@, self.masks@, 0xffff_0000u32, self.masks@.len() as int),
    {
        let ghost oldmasks = self.masks@;
        let mut lower_masks: Vec<MaskEntry> = Vec::new();
        let mut upper_masks: Vec<MaskEntry> = Vec::new();
        let n = self.masks.len();
        let mut x: usize = 0;
        while x < n
            invariant
                x <= n,
                n == oldmasks.len(),
                self.masks@ == oldmasks,
                keys_unique(oldmasks),
                keys_unique(lower_masks@),
                keys_unique(upper_masks@),
                masks_from(lower_masks@, oldmasks, 0x0000_ffffu32, x as int),
                masks_from(upper_masks@, oldmasks, 0xffff_0000u32, x as int),
                masks_onto(lower_masks@, oldmasks, 0x0000_ffffu32, x as int),
                masks_onto(upper_masks@, oldmasks, 0xffff_0000u32, x as int),
            decreases n - x,
        {
            let ghost lpre = lower_masks@;
            let ghost upre = upper_masks@;
            let lm = self.masks[x].mask.intersect(&TagMaskBits(0x0000_ffffu32));
            if lm.0 != 0 {
                lower_masks.push(MaskEntry { tag: self.masks[x].tag.clone(), mask: lm });
                proof {
                    assert(lower_masks@[lpre.len() as int].tag@ == oldmasks[x as int].tag@);
                    assert(lower_masks@[lpre.len() as int].mask.0 == oldmasks[x as int].mask.0
                        & 0x0000_ffffu32);
                    assert forall|z1: int, z2: int|
                        0 <= z1 < z2 < lower_masks@.len() implies lower_masks@[z1].tag@
                        != lower_masks@[z2].tag@ by {
                        if z2 == lpre.len() {
                            assert(lpre[z1] == lower_masks@[z1]);
                            let y1 = choose|y: int| #![trigger oldmasks[y]]
                                0 <= y < x && lpre[z1].tag@ == oldmasks[y].tag@ && lpre[z1].mask.0
                                    == oldmasks[y].mask.0 & 0x0000_ffffu32;
                            assert(oldmasks[y1].tag@ != oldmasks[x as int].tag@);
                        }
                    }
                }
            }
            let um = self.masks[x].mask.intersect(&TagMaskBits(0xffff_0000u32));
            if um.0 != 0 {
                upper_masks.push(MaskEntry { tag: self.masks[x].tag.clone(), mask: um });
                proof {
                    assert(upper_masks@[upre.len() as int].tag@ == oldmasks[x as int].tag@);
                    assert(upper_masks@[upre.len() as int].mask.0 == oldmasks[x as int].mask.0
                        & 0xffff_0000u32);
                    assert forall|z1: int, z2: int|
                        0 <= z1 < z2 < upper_masks@.len() implies upper_masks@[z1].tag@
                        != upper_masks@[z2].tag@ by {
                        if z2 == upre.len() {
                            assert(upre[z1] == upper_masks@[z1]);
                            let y1 = choose|y: int| #![trigger oldmasks[y]]
                                0 <= y < x && upre[z1].tag@ == oldmasks[y].tag@ && upre[z1].mask.0
                                    == oldmasks[y].mask.0 & 0xffff_0000u32;
                            assert(oldmasks[y1].tag@ != oldmasks[x as int].tag@);
                        }
                    }
                }
            }
            proof {
                assert forall|z: int| #![trigger lower_masks@[z]]
                    0 <= z < lower_masks@.len() implies exists|y: int| #![trigger oldmasks[y]]
                    0 <= y < x + 1 && lower_masks@[z].tag@ == oldmasks[y].tag@
                        && lower_masks@[z].mask.0 == oldmasks[y].mask.0 & 0x0000_ffffu32 by {
                    if z < lpre.len() {
                        assert(lower_masks@[z] == lpre[z]);
                        let y = choose|y: int| #![trigger oldmasks[y]]
                            0 <= y < x && lpre[z].tag@ == oldmasks[y].tag@ && lpre[z].mask.0
                                == oldmasks[y].mask.0 & 0x0000_ffffu32;
                        assert(0 <= y < x + 1 && lower_masks@[z].tag@ == oldmasks[y].tag@
                            && lower_masks@[z].mask.0 == oldmasks[y].mask.0 & 0x0000_ffffu32);
                    } else {
                        assert(0 <= x < x + 1 && lower_masks@[z].tag@ == oldmasks[x as int].tag@
                            && lower_masks@[z].mask.0 == oldmasks[x as int].mask.0
                            & 0x0000_ffffu32);
                    }
                }
                assert(masks_from(lower_masks@, oldmasks, 0x0000_ffffu32, x as int + 1));
                assert forall|z: int| #![trigger upper_masks@[z]]
                    0 <= z < upper_masks@.len() implies exists|y: int| #![trigger oldmasks[y]]
                    0 <= y < x + 1 && upper_masks@[z].tag@ == oldmasks[y].tag@
                        && upper_masks@[z].mask.0 == oldmasks[y].mask.0 & 0xffff_0000u32 by {
                    if z < upre.len() {
                        assert(upper_masks@[z] == upre[z]);
                        let y = choose|y: int| #![trigger oldmasks[y]]
                            0 <= y < x && upre[z].tag@ == oldmasks[y].tag@ && upre[z].mask.0
                                == oldmasks[y].mask.0 & 0xffff_0000u32;
                        assert(0 <= y < x + 1 && upper_masks@[z].tag@ == oldmasks[y].tag@
                            && upper_masks@[z].mask.0 == oldmasks[y].mask.0 & 0xffff_0000u32);
                    } else {
                        assert(0 <= x < x + 1 && upper_masks@[z].tag@ == oldmasks[x as int].tag@
                            && upper_masks@[z].mask.0 == oldmasks[x as int].mask.0
                            & 0xffff_0000u32);
                    }
                }
                assert(masks_from(upper_masks@, oldmasks, 0xffff_0000u32, x as int + 1));
                assert forall|y: int| #![trigger oldmasks[y]]
                    0 <= y < x + 1 && oldmasks[y].mask.0 & 0x0000_ffffu32 != 0 implies exists|
                    z: int,
                | #![trigger lower_masks@[z]]
                    0 <= z < lower_masks@.len() && lower_masks@[z].tag@ == oldmasks[y].tag@
                        && lower_masks@[z].mask.0 == oldmasks[y].mask.0 & 0x0000_ffffu32 by {
                    if y == x {
                        assert(0 <= lpre.len() < lower_masks@.len()
                            && lower_masks@[lpre.len() as int].tag@ == oldmasks[y].tag@
                            && lower_masks@[lpre.len() as int].mask.0 == oldmasks[y].mask.0
                            & 0x0000_ffffu32);
                    } else {
                        let z = choose|z: int| #![trigger lpre[z]]
                            0 <= z < lpre.len() && lpre[z].tag@ == oldmasks[y].tag@
                                && lpre[z].mask.0 == oldmasks[y].mask.0 & 0x0000_ffffu32;
                        assert(0 <= z < lower_masks@.len() && lower_masks@[z].tag@
                            == oldmasks[y].tag@ && lower_masks@[z].mask.0 == oldmasks[y].mask.0
                            & 0x0000_ffffu32);
                    }
                }
                assert(masks_onto(lower_masks@, oldmasks, 0x0000_ffffu32, x as int + 1));
                assert forall|y: int| #![trigger oldmasks[y]]
                    0 <= y < x + 1 && oldmasks[y].mask.0 & 0xffff_0000u32 != 0 implies exists|
                    z: int,
                | #![trigger upper_masks@[z]]
                    0 <= z < upper_masks@.len() && upper_masks@[z].tag@ == oldmasks[y].tag@
                        && upper_masks@[z].mask.0 == oldmasks[y].mask.0 & 0xffff_0000u32 by {
                    if y == x {
                        assert(0 <= upre.len() < upper_masks@.len()
                            && upper_masks@[upre.len() as int].tag@ == oldmasks[y].tag@
                            && upper_masks@[upre.len() as int].mask.0 == oldmasks[y].mask.0
                            & 0xffff_0000u32);
                    } else {
                        let z = choose|z: int| #![trigger upre[z]]
                            0 <= z < upre.len() && upre[z].tag@ == oldmasks[y].tag@
                                && upre[z].mask.0 == oldmasks[y].mask.0 & 0xffff_0000u32;
                        assert(0 <= z < upper_masks@.len() && upper_masks@[z].tag@
                            == oldmasks[y].tag@ && upper_masks@[z].mask.0 == oldmasks[y].mask.0
                            & 0xffff_0000u32);
                    }
                }
                assert(masks_onto(upper_masks@, oldmasks, 0xffff_0000u32, x as int + 1));
            }
            x = x + 1;
        }
        (lower_masks, upper_masks)
    }
}

} // verus!
