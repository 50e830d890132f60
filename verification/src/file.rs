//! The unit the store holds: a file name paired with an unordered set
//! of tags.

use crate::filequery::FileKey;
use crate::filequery::FileQuery;
use crate::fromstr::FromStr;
use crate::tagset::TagSet;
use crate::tagset::file_name_of;
use crate::tagset::file_tags_of;
use crate::tagset::name_start;
use vstd::prelude::*;
use vstd::string::StrSliceExecFns;

verus! {

/// A (name, tag-set) pair.  Two files are the same exactly when both
/// the name and the tag set agree.
#[derive(Debug, Clone, PartialEq, Eq, PartialOrd, Ord, Hash)]
pub struct File {
    pub(crate) name: String,
    pub(crate) tags: TagSet,
}

impl View for File {
    type V = FileKey;

    closed spec fn view(&self) -> FileKey {
        FileKey { name: self.name@, tags: self.tags@ }
    }
}

impl File {
    /// Validity: the tag collection holds no repeated tag.
    pub closed spec fn inv(&self) -> bool {
        self.tags.inv()
    }

    /// Build a file from an owned name and tag set.
    pub fn new(name: String, tags: TagSet) -> (f: Self)
        requires
            tags.inv(),
        ensures
            f.inv(),
            f@.name == name@,
            f@.tags == tags@,
    {
        File { name, tags }
    }

    /// Build a file by copying a name and a list of tags; repeated
    /// entries of the list collapse into one tag.
    pub fn new_cloned(name: &str, tags: &[&str]) -> (f: Self)
        ensures
            f.inv(),
            f@.name == name@,
            forall|x: int| 0 <= x < tags@.len() ==> f@.tags.contains(#[trigger] tags@[x]@),
            forall|t: Seq<char>|
                f@.tags.contains(t) ==> exists|x: int| 0 <= x < tags@.len() && tags@[x]@ == t,
    {
        let mut ts = TagSet::new();
        let n = tags.len();
        let mut x: usize = 0;
        while x < n
            invariant
                x <= n,
                n == tags@.len(),
                ts.inv(),
                forall|y: int| 0 <= y < x ==> ts@.contains(#[trigger] tags@[y]@),
                forall|t: Seq<char>|
                    ts@.contains(t) ==> exists|y: int| 0 <= y < x && tags@[y]@ == t,
            decreases n - x,
        {
            let s: &str = tags[x];
            ts.insert(s.to_owned());
            x = x + 1;
        }
        File { name: name.to_owned(), tags: ts }
    }

    /// Whether this file carries every tag of `tags`.
    pub(crate) fn has_tags(&self, tags: &TagSet) -> (r: bool)
        ensures
            r == tags@.subset_of(self@.tags),
    {
        self.tags.is_superset(&tags)
    }

    /// A copy holding the same name and the same tags.
    pub(crate) fn duplicate(&self) -> (r: File)
        ensures
            r@ == self@,
            r.inv() == self.inv(),
    {
        File { name: self.name.clone(), tags: self.tags.duplicate() }
    }

    /// The stored tag set.
    pub(crate) fn tag_set(&self) -> (t: &TagSet)
        ensures
            t@ == self@.tags,
            self.inv() ==> t.inv(),
    {
        &self.tags
    }

    /// The stored name.
    pub(crate) fn name_ref(&self) -> (n: &String)
        ensures
            n@ == self@.name,
    {
        &self.name
    }

    /// Whether two files carry exactly the same tag set.
    pub(crate) fn tags_eq(&self, other: &File) -> (r: bool)
        ensures
            r == (self@.tags == other@.tags),
    {
        self.tags.set_eq(&other.tags)
    }
}

impl FromStr for File {
    /// Parse a file-shaped path: the part after the last slash is the
    /// name (possibly empty), and every nonempty segment before it
    /// becomes a tag.  Parsing never fails.
    fn from_str(path: &str) -> (r: Option<File>)
        ensures
            r matches Some(f) && f.inv() && f@.name == file_name_of(path@) && f@.tags
                == file_tags_of(path@),
    {
        let n = path.unicode_len();
        let mut k: usize = n;
        let mut found = false;
        while k > 0 && !found
            invariant
                k <= n,
                n == path@.len(),
                found ==> k >= 1 && path@[k as int - 1] == '/',
                forall|m: int| k <= m < n ==> path@[m] != '/',
            decreases k + (if found { 0int } else { 1int }),
        {
            if path.get_char(k - 1) == '/' {
                found = true;
            } else {
                k = k - 1;
            }
        }
        proof {
            crate::tagset::lemma_name_start_at(path@, k as int);
        }
        let name_str = path.substring_char(k, n);
        let name = name_str.to_owned();
        let tags = if k == 0 {
            let ts = TagSet::new();
            proof {
                assert(ts@ =~= file_tags_of(path@));
            }
            ts
        } else {
            let prefix = path.substring_char(0, k - 1);
            let ts = TagSet::from_str(prefix).unwrap();
            proof {
                assert(name_start(path@) == k as int);
                assert(prefix@ == path@.subrange(0, k as int - 1));
                assert(ts@ == file_tags_of(path@));
            }
            ts
        };
        proof {
            assert(name@ == file_name_of(path@));
        }
        Some(File { name, tags })
    }
}

impl FileQuery for File {
    /// A file used as a query requires its own tags.
    open spec fn q_tags(&self) -> Set<Seq<char>> {
        self@.tags
    }

    /// A file used as a query also fixes its own name.
    open spec fn q_name(&self) -> Option<Seq<char>> {
        Some(self@.name)
    }

    open spec fn q_inv(&self) -> bool {
        self.inv()
    }

    /// A candidate matches when its tags are a superset of this file's
    /// tags and the names agree exactly.
    fn could_match(&self, to_match: &File) -> (r: bool) {
        to_match.has_tags(&self.tags) && self.name.eq(&to_match.name)
    }

    fn tags(&self) -> (t: &TagSet) {
        &self.tags
    }

    fn name(&self) -> (n: Option<&String>) {
        Some(&self.name)
    }
}

} // verus!
