//! An unordered, duplicate-free collection of tags, and the convention
//! that turns a slash-delimited path string into such a collection.

use crate::file::File;
use crate::filequery::FileQuery;
use crate::filequery::key_matches;
use crate::fromstr::FromStr;
use vstd::prelude::*;
use vstd::string::StrSliceExecFns;

verus! {

/// A maximal run of non-slash characters of `s` fills the index range
/// `[i, j)`: nonempty, bounded by slashes or by the ends of `s`.
pub open spec fn is_seg(s: Seq<char>, i: int, j: int) -> bool {
    &&& 0 <= i < j <= s.len()
    &&& (i == 0 || s[i - 1] == '/')
    &&& (j == s.len() || s[j] == '/')
    &&& forall|k: int| i <= k < j ==> s[k] != '/'
}

/// The tag set a slash-delimited string denotes: every maximal nonempty
/// run of non-slash characters, with repeats collapsing into one tag.
pub open spec fn path_tags(s: Seq<char>) -> Set<Seq<char>> {
    Set::new(|t: Seq<char>| exists|i: int, j: int| is_seg(s, i, j) && t == s.subrange(i, j))
}

/// Tags denoted by the segments that lie, whole, before index `b`.
pub open spec fn path_tags_upto(s: Seq<char>, b: int) -> Set<Seq<char>> {
    Set::new(
        |t: Seq<char>| exists|i: int, j: int| is_seg(s, i, j) && j < b && t == s.subrange(i, j),
    )
}

/// Index where the final segment of `s` begins: the position right
/// after the last slash, or zero when `s` has no slash.
pub open spec fn name_start(s: Seq<char>) -> int
    decreases s.len(),
{
    if s.len() == 0 {
        0
    } else if s[s.len() - 1] == '/' {
        s.len() as int
    } else {
        name_start(s.drop_last())
    }
}

/// The final segment of `s`, possibly empty: a file-shaped path's name.
pub open spec fn file_name_of(s: Seq<char>) -> Seq<char> {
    s.subrange(name_start(s), s.len() as int)
}

/// The tags of a file-shaped path: the segments before the last slash.
pub open spec fn file_tags_of(s: Seq<char>) -> Set<Seq<char>> {
    if name_start(s) == 0 {
        Set::<Seq<char>>::empty()
    } else {
        path_tags(s.subrange(0, name_start(s) - 1))
    }
}

/// A position whose suffix is slash-free and whose left neighbour is a
/// slash (or the string's start) is where the final segment begins.
pub(crate) proof fn lemma_name_start_at(s: Seq<char>, p: int)
    requires
        0 <= p <= s.len(),
        p == 0 || s[p - 1] == '/',
        forall|m: int| p <= m < s.len() ==> s[m] != '/',
    ensures
        name_start(s) == p,
    decreases s.len(),
{
    if s.len() == 0 {
    } else if s[s.len() - 1] == '/' {
        assert(p == s.len());
    } else {
        assert(p < s.len());
        let t = s.drop_last();
        assert(forall|m: int| p <= m < t.len() ==> t[m] == s[m]);
        lemma_name_start_at(t, p);
    }
}

/// Lexicographic order on character sequences; drives the canonical
/// storage order of tags.
pub open spec fn chars_lt(a: Seq<char>, b: Seq<char>) -> bool
    decreases a.len(),
{
    if b.len() == 0 {
        false
    } else if a.len() == 0 {
        true
    } else if a[0] != b[0] {
        (a[0] as u32) < (b[0] as u32)
    } else {
        chars_lt(a.drop_first(), b.drop_first())
    }
}

/// An unordered collection of unique tags.  Two tag sets are equal as
/// values of the model exactly when they hold the same tags, whatever
/// order they were supplied in; the stored vector keeps its entries in
/// byte order so that equal tag sets also compare equal as plain data.
#[derive(Debug, Clone, PartialEq, Eq, PartialOrd, Ord, Hash)]
pub struct TagSet {
    items: Vec<String>,
}

impl View for TagSet {
    type V = Set<Seq<char>>;

    /// The mathematical set of tags held.
    closed spec fn view(&self) -> Set<Seq<char>> {
        Set::new(
            |t: Seq<char>|
                exists|x: int| 0 <= x < self.items@.len() && self.items@[x]@ == t,
        )
    }
}

impl TagSet {
    /// The tags in storage order.
    pub closed spec fn sview(&self) -> Seq<Seq<char>> {
        self.items@.map_values(|s: String| s@)
    }

    /// No two stored entries spell the same tag.
    pub closed spec fn inv(&self) -> bool {
        forall|x: int, y: int|
            0 <= x < y < self.items@.len() ==> self.items@[x]@ != self.items@[y]@
    }

    /// How the ordered form and the set form of a tag set relate: the
    /// set holds exactly the entries of the sequence, and under the
    /// invariant those entries are pairwise distinct.
    pub proof fn lemma_sview_view(&self)
        ensures
            forall|x: int| 0 <= x < self.sview().len() ==> self@.contains(#[trigger] self.sview()[x]),
            forall|t: Seq<char>|
                self@.contains(t) ==> exists|x: int|
                    0 <= x < self.sview().len() && self.sview()[x] == t,
            self.inv() ==> forall|x: int, y: int|
                0 <= x < y < self.sview().len() ==> self.sview()[x] != self.sview()[y],
    {
        assert forall|x: int| 0 <= x < self.sview().len() implies self@.contains(
            #[trigger] self.sview()[x],
        ) by {
            assert(self.items@[x]@ == self.sview()[x]);
        }
        assert forall|t: Seq<char>| self@.contains(t) implies exists|x: int|
            0 <= x < self.sview().len() && self.sview()[x] == t by {
            let x = choose|x: int| 0 <= x < self.items@.len() && self.items@[x]@ == t;
            assert(self.sview()[x] == t);
        }
    }

    /// A fresh, empty tag set.
    pub fn new() -> (ts: TagSet)
        ensures
            ts@ == Set::<Seq<char>>::empty(),
            ts.inv(),
            ts.sview().len() == 0,
    {
        let ts = TagSet { items: Vec::new() };
        proof {
            assert(ts@ =~= Set::<Seq<char>>::empty());
        }
        ts
    }

    /// The number of stored tags.
    pub fn len(&self) -> (n: usize)
        ensures
            n == self.sview().len(),
    {
        self.items.len()
    }

    /// The tag at position `x` of the storage order.
    pub fn get(&self, x: usize) -> (tag: &String)
        requires
            x < self.sview().len(),
        ensures
            tag@ == self.sview()[x as int],
            self@.contains(tag@),
    {
        proof {
            self.lemma_sview_view();
        }
        &self.items[x]
    }

    /// Whether this collection holds `tag`.
    pub fn contains(&self, tag: &String) -> (r: bool)
        ensures
            r == self@.contains(tag@),
    {
        let n = self.items.len();
        let mut x: usize = 0;
        while x < n
            invariant
                x <= n,
                n == self.items@.len(),
                forall|y: int| 0 <= y < x ==> self.items@[y]@ != tag@,
            decreases n - x,
        {
            if self.items[x].eq(tag) {
                assert(self@.contains(tag@));
                return true;
            }
            x = x + 1;
        }
        false
    }

    /// Compare two stored strings in character order.
    fn str_lt(a: &String, b: &String) -> (r: bool)
        ensures
            r == chars_lt(a@, b@),
    {
        let an = a.as_str().unicode_len();
        let bn = b.as_str().unicode_len();
        let ghost abs = a@;
        let ghost bbs = b@;
        let mut x: usize = 0;
        proof {
            assert(abs.skip(0) =~= abs);
            assert(bbs.skip(0) =~= bbs);
        }
        loop
            invariant
                abs == a@,
                bbs == b@,
                x <= abs.len(),
                x <= bbs.len(),
                an == abs.len(),
                bn == bbs.len(),
                chars_lt(abs, bbs) == chars_lt(abs.skip(x as int), bbs.skip(x as int)),
            decreases abs.len() - x,
        {
            proof {
                if x == an {
                    assert(abs.skip(x as int).len() == 0);
                }
                if x == bn {
                    assert(bbs.skip(x as int).len() == 0);
                }
            }
            if x >= an {
                return x < bn;
            }
            if x >= bn {
                return false;
            }
            let ca = a.as_str().get_char(x) as u32;
            let cb = b.as_str().get_char(x) as u32;
            proof {
                assert(abs.skip(x as int)[0] == abs[x as int]);
                assert(bbs.skip(x as int)[0] == bbs[x as int]);
            }
            if ca != cb {
                return ca < cb;
            }
            proof {
                assert(abs.skip(x as int).drop_first() =~= abs.skip(x as int + 1));
                assert(bbs.skip(x as int).drop_first() =~= bbs.skip(x as int + 1));
            }
            x = x + 1;
        }
    }

    /// Add one tag; a tag already present is collapsed into the one
    /// copy already stored.
    pub fn insert(&mut self, tag: String) -> (r: bool)
        requires
            old(self).inv(),
        ensures
            final(self)@ == old(self)@.insert(tag@),
            final(self).inv(),
            r == !old(self)@.contains(tag@),
    {
        if self.contains(&tag) {
            proof {
                assert(self@ =~= old(self)@.insert(tag@));
            }
            return false;
        }
        let n = self.items.len();
        let mut p: usize = 0;
        while p < n && Self::str_lt(&self.items[p], &tag)
            invariant
                p <= n,
                n == self.items@.len(),
            decreases n - p,
        {
            p = p + 1;
        }
        let ghost oldv = self.items@;
        self.items.insert(p, tag);
        proof {
            oldv.insert_ensures(p as int, tag);
            assert forall|x: int, y: int|
                0 <= x < y < self.items@.len() implies self.items@[x]@ != self.items@[y]@ by {
                if x < p && y < p {
                    assert(self.items@[x] == oldv[x]);
                    assert(self.items@[y] == oldv[y]);
                } else if x < p && y == p {
                    assert(self.items@[x] == oldv[x]);
                    assert(!old(self)@.contains(tag@));
                    assert(oldv[x]@ != tag@);
                } else if x < p && y > p {
                    assert(self.items@[x] == oldv[x]);
                    assert(self.items@[y] == oldv[y - 1]);
                } else if x == p {
                    assert(self.items@[y] == oldv[y - 1]);
                    assert(!old(self)@.contains(tag@));
                    assert(oldv[y - 1]@ != tag@);
                } else {
                    assert(self.items@[x] == oldv[x - 1]);
                    assert(self.items@[y] == oldv[y - 1]);
                }
            }
            assert forall|t: Seq<char>| self@.contains(t) implies old(self)@.insert(
                tag@,
            ).contains(t) by {
                let x = choose|x: int| 0 <= x < self.items@.len() && self.items@[x]@ == t;
                if x < p {
                    assert(oldv[x]@ == t);
                } else if x == p {
                } else {
                    assert(oldv[x - 1]@ == t);
                }
            }
            assert forall|t: Seq<char>| old(self)@.insert(tag@).contains(t) implies self@.contains(
                t,
            ) by {
                if t == tag@ {
                    assert(self.items@[p as int]@ == t);
                } else {
                    let x = choose|x: int| 0 <= x < oldv.len() && oldv[x]@ == t;
                    if x < p {
                        assert(self.items@[x]@ == t);
                    } else {
                        assert(self.items@[x + 1]@ == t);
                    }
                }
            }
            assert(self@ =~= old(self)@.insert(tag@));
        }
        true
    }

    /// Whether every tag of `other` is also a tag of this set.
    pub fn is_superset(&self, other: &TagSet) -> (r: bool)
        ensures
            r == other@.subset_of(self@),
    {
        let n = other.items.len();
        let mut x: usize = 0;
        while x < n
            invariant
                x <= n,
                n == other.items@.len(),
                forall|y: int| 0 <= y < x ==> self@.contains(#[trigger] other.items@[y]@),
            decreases n - x,
        {
            if !self.contains(&other.items[x]) {
                assert(other@.contains(other.items@[x as int]@));
                return false;
            }
            x = x + 1;
        }
        proof {
            assert forall|t: Seq<char>| other@.contains(t) implies self@.contains(t) by {
                let y = choose|y: int| 0 <= y < other.items@.len() && other.items@[y]@ == t;
                assert(self@.contains(other.items@[y]@));
            }
        }
        true
    }

    /// Whether two tag sets hold exactly the same tags.
    pub fn set_eq(&self, other: &TagSet) -> (r: bool)
        ensures
            r == (self@ == other@),
    {
        let r = self.is_superset(other) && other.is_superset(self);
        proof {
            if r {
                assert(self@ =~= other@);
            }
        }
        r
    }

    /// A copy that holds the same tags in the same order.
    pub fn duplicate(&self) -> (r: TagSet)
        ensures
            r@ == self@,
            r.sview() == self.sview(),
            r.inv() == self.inv(),
    {
        let v = self.items.clone();
        proof {
            assert forall|x: int| 0 <= x < v@.len() implies v@[x] == self.items@[x] by {
                assert(vstd::pervasive::cloned(self.items@[x], v@[x]));
            }
            assert(v@ =~= self.items@);
        }
        let r = TagSet { items: v };
        proof {
            assert(r@ =~= self@);
            assert(r.sview() =~= self.sview());
        }
        r
    }

    /// Collect into this set every segment of `s`: used both for bare
    /// tag-set strings and for the leading part of file-shaped strings.
    fn add_path_tags(&mut self, s: &str)
        requires
            old(self).inv(),
        ensures
            final(self).inv(),
            final(self)@ == old(self)@.union(path_tags(s@)),
    {
        let n = s.unicode_len();
        let mut start: usize = 0;
        let mut k: usize = 0;
        while k < n
            invariant
                old(self).inv(),
                self.inv(),
                start <= k <= n,
                n == s@.len(),
                start == 0 || (start >= 1 && s@[start as int - 1] == '/'),
                forall|m: int| start <= m < k ==> s@[m] != '/',
                self@ == old(self)@.union(path_tags_upto(s@, k as int)),
            decreases n - k,
        {
            if s.get_char(k) == '/' {
                if start < k {
                    let seg = s.substring_char(start, k);
                    self.insert(seg.to_owned());
                    proof {
                        assert(is_seg(s@, start as int, k as int));
                        assert(seg@ == s@.subrange(start as int, k as int));
                        lemma_tags_upto_step(s@, start as int, k as int);
                        assert(self@ =~= old(self)@.union(path_tags_upto(s@, k as int + 1)));
                    }
                } else {
                    proof {
                        assert forall|i0: int| !is_seg(s@, i0, k as int) by {
                            if is_seg(s@, i0, k as int) {
                                assert(i0 < k);
                                assert(start >= 1 && s@[start as int - 1] == '/');
                                assert(i0 <= start as int - 1 < k);
                            }
                        }
                        lemma_tags_upto_same(s@, k as int);
                        assert(self@ =~= old(self)@.union(path_tags_upto(s@, k as int + 1)));
                    }
                }
                start = k + 1;
            } else {
                proof {
                    assert forall|i0: int| !is_seg(s@, i0, k as int) by {
                        if is_seg(s@, i0, k as int) {
                            assert(s@[k as int] == '/');
                        }
                    }
                    lemma_tags_upto_same(s@, k as int);
                    assert(self@ =~= old(self)@.union(path_tags_upto(s@, k as int + 1)));
                }
            }
            k = k + 1;
        }
        if start < n {
            let seg = s.substring_char(start, n);
            self.insert(seg.to_owned());
            proof {
                assert(is_seg(s@, start as int, n as int));
                assert(seg@ == s@.subrange(start as int, n as int));
                lemma_tags_upto_step(s@, start as int, n as int);
                assert(self@ =~= old(self)@.union(path_tags_upto(s@, n as int + 1)));
            }
        } else {
            proof {
                assert forall|i0: int| !is_seg(s@, i0, n as int) by {
                    if is_seg(s@, i0, n as int) {
                        if start == 0 {
                            assert(i0 < 0);
                        } else {
                            assert(i0 < n);
                            assert(s@[start as int - 1] == '/');
                            assert(i0 <= start as int - 1 < n);
                        }
                    }
                }
                lemma_tags_upto_same(s@, n as int);
                assert(self@ =~= old(self)@.union(path_tags_upto(s@, n as int + 1)));
            }
        }
        proof {
            assert forall|t: Seq<char>| path_tags(s@).contains(t) implies path_tags_upto(
                s@,
                n as int + 1,
            ).contains(t) by {
                let (i, j) = choose|i: int, j: int| is_seg(s@, i, j) && t == s@.subrange(i, j);
                assert(j <= n < n + 1);
            }
            assert(path_tags(s@) =~= path_tags_upto(s@, n as int + 1));
            assert(self@ =~= old(self)@.union(path_tags(s@)));
        }
    }
}

/// A segment ending exactly at boundary `j` is the only segment that
/// `path_tags_upto` gains when the bound moves from `j` to `j + 1`.
proof fn lemma_tags_upto_step(s: Seq<char>, i: int, j: int)
    requires
        is_seg(s, i, j),
    ensures
        path_tags_upto(s, j + 1) =~= path_tags_upto(s, j).insert(s.subrange(i, j)),
{
    assert forall|t: Seq<char>| path_tags_upto(s, j + 1).contains(t) implies path_tags_upto(
        s,
        j,
    ).insert(s.subrange(i, j)).contains(t) by {
        let (i0, j0) = choose|i0: int, j0: int|
            is_seg(s, i0, j0) && j0 < j + 1 && t == s.subrange(i0, j0);
        if j0 == j {
            if i0 < i {
                assert(s[i - 1] == '/');
                assert(i0 <= i - 1 < j0);
                assert(false);
            } else if i0 > i {
                assert(s[i0 - 1] == '/');
                assert(i <= i0 - 1 < j);
                assert(false);
            }
            assert(t == s.subrange(i, j));
        }
    }
    assert forall|t: Seq<char>|
        path_tags_upto(s, j).insert(s.subrange(i, j)).contains(t) implies path_tags_upto(
        s,
        j + 1,
    ).contains(t) by {
        if t == s.subrange(i, j) {
            assert(is_seg(s, i, j) && j < j + 1);
        } else {
            let (i0, j0) = choose|i0: int, j0: int|
                is_seg(s, i0, j0) && j0 < j && t == s.subrange(i0, j0);
            assert(is_seg(s, i0, j0) && j0 < j + 1);
        }
    }
}

/// When no segment ends at `k`, the bound can move past `k` without
/// changing the collected tags.
proof fn lemma_tags_upto_same(s: Seq<char>, k: int)
    requires
        !(exists|i0: int| is_seg(s, i0, k)),
    ensures
        path_tags_upto(s, k + 1) =~= path_tags_upto(s, k),
{
    assert forall|t: Seq<char>| path_tags_upto(s, k + 1).contains(t) implies path_tags_upto(
        s,
        k,
    ).contains(t) by {
        let (i0, j0) = choose|i0: int, j0: int|
            is_seg(s, i0, j0) && j0 < k + 1 && t == s.subrange(i0, j0);
        assert(j0 != k);
    }
}

impl FromStr for TagSet {
    /// Parse a slash-delimited string: every nonempty segment becomes a
    /// tag, repeated segments collapse, and parsing never fails.
    fn from_str(path: &str) -> (r: Option<TagSet>)
        ensures
            r matches Some(ts) && ts.inv() && ts@ == path_tags(path@),
    {
        let mut ts = TagSet::new();
        ts.add_path_tags(path);
        proof {
            assert(ts@ =~= path_tags(path@));
        }
        Some(ts)
    }
}

impl FileQuery for TagSet {
    /// A bare tag set queried against the store requires the tags alone.
    open spec fn q_tags(&self) -> Set<Seq<char>> {
        self.view()
    }

    /// A bare tag set never constrains the file name.
    open spec fn q_name(&self) -> Option<Seq<char>> {
        None
    }

    open spec fn q_inv(&self) -> bool {
        self.inv()
    }

    /// A candidate matches when its tags are a superset of the query's.
    fn could_match(&self, to_match: &File) -> (r: bool) {
        to_match.has_tags(self)
    }

    fn tags(&self) -> (t: &TagSet) {
        self
    }

    fn name(&self) -> (n: Option<&String>) {
        None
    }
}

} // verus!
