//! The query capability: anything that names a set of required tags,
//! an optional exact file name, and a match predicate over files.

use crate::file::File;
use crate::tagset::TagSet;
use vstd::prelude::*;

verus! {

/// The mathematical face of a stored file: its name and its tag set.
#[verifier::ext_equal]
pub struct FileKey {
    pub name: Seq<char>,
    pub tags: Set<Seq<char>>,
}

/// What it means for a file to satisfy a query: the file's tags hold
/// every required tag, and where the query fixes a name, the names
/// agree exactly.
pub open spec fn key_matches(qtags: Set<Seq<char>>, qname: Option<Seq<char>>, f: FileKey) -> bool {
    &&& qtags.subset_of(f.tags)
    &&& match qname {
        Some(n) => f.name == n,
        None => true,
    }
}

/// A query over the store.  `File` and `TagSet` are the two built-in
/// implementations: a file requires its own tags and its exact name,
/// a bare tag set requires its tags and leaves the name free.
pub trait FileQuery: Sized {
    /// The tags every match must carry.
    spec fn q_tags(&self) -> Set<Seq<char>>;

    /// The exact name a match must carry, if the query fixes one.
    spec fn q_name(&self) -> Option<Seq<char>>;

    /// Validity of the query value itself.
    spec fn q_inv(&self) -> bool;

    /// Decide whether `to_match` satisfies this query.
    fn could_match(&self, to_match: &File) -> (r: bool)
        requires
            self.q_inv(),
            to_match.inv(),
        ensures
            r == key_matches(self.q_tags(), self.q_name(), to_match@),
    ;

    /// The required tags, as a tag set.
    fn tags(&self) -> (t: &TagSet)
        requires
            self.q_inv(),
        ensures
            t@ == self.q_tags(),
            t.inv(),
    ;

    /// The required name, where the query fixes one.
    fn name(&self) -> (n: Option<&String>)
        requires
            self.q_inv(),
        ensures
            match n {
                Some(s) => self.q_name() == Some(s@),
                None => self.q_name() is None,
            },
    ;
}

} // verus!
