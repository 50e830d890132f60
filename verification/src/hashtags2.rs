//! An inverted index keyed by tag: each tag maps to the names of the
//! files carrying it.  A stored file is reconstructed by collecting
//! every tag whose name set holds its name, so no two files of the
//! same name can be told apart; the index honours the common contract
//! under that limitation.

use crate::fdb_trait::FileDB;
use crate::fdb_trait::FileVecIterator;
use crate::fdb_trait::GetFileError;
use crate::fdb_trait::matches_of;
use crate::fdb_trait::multi_match;
use crate::fdb_trait::no_match;
use crate::fdb_trait::unique_match;
use crate::file::File;
use crate::filequery::FileKey;
use crate::filequery::FileQuery;
use crate::filequery::key_matches;
use crate::tagset::TagSet;
use vstd::prelude::*;

verus! {

/// One tag of the inverted index and the names filed under it.
pub(crate) struct TagEntry {
    pub(crate) tag: String,
    pub(crate) names: Vec<String>,
}

/// Whether some entry below `s.len()` carries tag `t` with `n` among
/// its names.
pub(crate) open spec fn ht2_pair(s: Seq<TagEntry>, t: Seq<char>, n: Seq<char>) -> bool {
    exists|x: int, y: int|
        0 <= x < s.len() && 0 <= y < s[x].names@.len() && s[x].tag@ == t
            && (#[trigger] s[x].names@[y])@ == n
}

/// Whether any entry files the name `n`.
pub(crate) open spec fn ht2_known(s: Seq<TagEntry>, n: Seq<char>) -> bool {
    exists|t: Seq<char>| ht2_pair(s, t, n)
}

/// The full tag set the index ascribes to the name `n`.
pub(crate) open spec fn ht2_tags_of(s: Seq<TagEntry>, n: Seq<char>) -> Set<Seq<char>> {
    Set::new(|t: Seq<char>| ht2_pair(s, t, n))
}

/// The files the index denotes: each known name, with every tag filed
/// for it.
pub(crate) open spec fn ht2_files(s: Seq<TagEntry>) -> Set<FileKey> {
    Set::new(|k: FileKey| ht2_known(s, k.name) && k.tags == ht2_tags_of(s, k.name))
}

/// Whether a set of tag/name pairings files the name `n` at all.
pub open spec fn name_pairs_known(ps: Set<(Seq<char>, Seq<char>)>, n: Seq<char>) -> bool {
    exists|t: Seq<char>| ps.contains((t, n))
}

/// The tags a set of tag/name pairings ascribes to the name `n`.
pub open spec fn name_pairs_tags_of(ps: Set<(Seq<char>, Seq<char>)>, n: Seq<char>) -> Set<
    Seq<char>,
> {
    Set::new(|t: Seq<char>| ps.contains((t, n)))
}

/// The files a set of tag/name pairings denotes: each known name,
/// with every tag paired with it.
pub open spec fn name_pairs_files(ps: Set<(Seq<char>, Seq<char>)>) -> Set<FileKey> {
    Set::new(
        |k: FileKey| name_pairs_known(ps, k.name) && k.tags == name_pairs_tags_of(ps, k.name),
    )
}

/// An inverted-index file database keyed by tag.
pub struct HashTags2DBFS {
    entries: Vec<TagEntry>,
}

impl HashTags2DBFS {
    /// The tag/name pairings the index holds.
    pub closed spec fn db_pairs(&self) -> Set<(Seq<char>, Seq<char>)> {
        Set::new(|p: (Seq<char>, Seq<char>)| ht2_pair(self.entries@, p.0, p.1))
    }

    /// The stored files are determined by the tag/name pairings: each
    /// known name, with every tag paired with it.  This is the bridge
    /// from what `add_file` states about the pairings to what the
    /// queries state about the stored files.
    pub proof fn lemma_files_from_pairs(&self)
        ensures
            self.db_files() == name_pairs_files(self.db_pairs()),
    {
        assert forall|k: FileKey|
            self.db_files().contains(k) == name_pairs_files(self.db_pairs()).contains(k) by {
            if name_pairs_known(self.db_pairs(), k.name) {
                let t = choose|t: Seq<char>| self.db_pairs().contains((t, k.name));
                assert(ht2_pair(self.entries@, t, k.name));
                assert(ht2_known(self.entries@, k.name));
            }
            if ht2_known(self.entries@, k.name) {
                let t = choose|t: Seq<char>| ht2_pair(self.entries@, t, k.name);
                assert(self.db_pairs().contains((t, k.name)));
                assert(name_pairs_known(self.db_pairs(), k.name));
            }
            assert(name_pairs_tags_of(self.db_pairs(), k.name) =~= ht2_tags_of(
                self.entries@,
                k.name,
            ));
        }
        assert(self.db_files() =~= name_pairs_files(self.db_pairs()));
    }

    /// A fresh, empty database.
    pub fn new() -> (db: HashTags2DBFS)
        ensures
            db.db_inv(),
            db.db_files() == Set::<FileKey>::empty(),
            db.db_pairs() == Set::<(Seq<char>, Seq<char>)>::empty(),
    {
        let db = HashTags2DBFS { entries: Vec::new() };
        proof {
            assert(db.db_files() =~= Set::<FileKey>::empty());
            assert(db.db_pairs() =~= Set::<(Seq<char>, Seq<char>)>::empty());
        }
        db
    }

    /// Whether the entry at `x` files the name `n`.
    fn entry_has_name(&self, x: usize, n: &String) -> (r: bool)
        requires
            x < self.entries@.len(),
        ensures
            r == exists|y: int|
                0 <= y < self.entries@[x as int].names@.len()
                    && self.entries@[x as int].names@[y]@ == n@,
    {
        let e = &self.entries[x];
        let len = e.names.len();
        let mut y: usize = 0;
        while y < len
            invariant
                y <= len,
                len == e.names@.len(),
                e == &self.entries@[x as int],
                forall|z: int| 0 <= z < y ==> e.names@[z]@ != n@,
            decreases len - y,
        {
            if e.names[y].eq(n) {
                return true;
            }
            y = y + 1;
        }
        false
    }

    /// Rebuild the file a stored name denotes: the name, paired with
    /// every tag whose entry files it.
    fn resolve_name(&self, n: &String) -> (f: File)
        ensures
            f.inv(),
            f@.name == n@,
            f@.tags == ht2_tags_of(self.entries@, n@),
    {
        let mut ts = TagSet::new();
        let len = self.entries.len();
        let mut x: usize = 0;
        while x < len
            invariant
                x <= len,
                len == self.entries@.len(),
                ts.inv(),
                forall|t: Seq<char>|
                    ts@.contains(t) <==> exists|x0: int, y: int|
                        0 <= x0 < x && 0 <= y < self.entries@[x0].names@.len()
                            && self.entries@[x0].tag@ == t && (
                        #[trigger] self.entries@[x0].names@[y])@ == n@,
            decreases len - x,
        {
            let ghost pre = ts@;
            if self.entry_has_name(x, n) {
                ts.insert(self.entries[x].tag.clone());
                proof {
                    let y = choose|y: int|
                        0 <= y < self.entries@[x as int].names@.len()
                            && self.entries@[x as int].names@[y]@ == n@;
                    assert forall|t: Seq<char>| ts@.contains(t) implies exists|x0: int, y0: int|
                        0 <= x0 < x + 1 && 0 <= y0 < self.entries@[x0].names@.len()
                            && self.entries@[x0].tag@ == t && (#[trigger] self.entries@[x0].names@[y0])@
                            == n@ by {
                        if pre.contains(t) {
                            let (x0, y0) = choose|x0: int, y0: int|
                                0 <= x0 < x && 0 <= y0 < self.entries@[x0].names@.len()
                                    && self.entries@[x0].tag@ == t && (#[trigger] self.entries@[x0].names@[y0])@
                                    == n@;
                            assert(0 <= x0 < x + 1 && 0 <= y0
                                < self.entries@[x0].names@.len() && self.entries@[x0].tag@ == t
                                && self.entries@[x0].names@[y0]@ == n@);
                        } else {
                            assert(t == self.entries@[x as int].tag@);
                            assert(0 <= x < x + 1 && 0 <= y
                                < self.entries@[x as int].names@.len()
                                && self.entries@[x as int].tag@ == t
                                && self.entries@[x as int].names@[y]@ == n@);
                        }
                    }
                }
            } else {
                proof {
                    assert forall|t: Seq<char>| ts@.contains(t) implies exists|x0: int, y0: int|
                        0 <= x0 < x + 1 && 0 <= y0 < self.entries@[x0].names@.len()
                            && self.entries@[x0].tag@ == t && (#[trigger] self.entries@[x0].names@[y0])@
                            == n@ by {
                        let (x0, y0) = choose|x0: int, y0: int|
                            0 <= x0 < x && 0 <= y0 < self.entries@[x0].names@.len()
                                && self.entries@[x0].tag@ == t && (#[trigger] self.entries@[x0].names@[y0])@
                                == n@;
                        assert(0 <= x0 < x + 1 && 0 <= y0 < self.entries@[x0].names@.len()
                            && self.entries@[x0].tag@ == t && self.entries@[x0].names@[y0]@ == n@);
                    }
                }
            }
            x = x + 1;
        }
        let f = File::new(n.clone(), ts);
        proof {
            assert forall|t: Seq<char>| f@.tags.contains(t) == ht2_tags_of(
                self.entries@,
                n@,
            ).contains(t) by {
                if f@.tags.contains(t) {
                    assert(ht2_pair(self.entries@, t, n@));
                }
                if ht2_pair(self.entries@, t, n@) {
                    let (x0, y0) = choose|x0: int, y0: int|
                        0 <= x0 < self.entries@.len() && 0 <= y0
                            < self.entries@[x0].names@.len() && self.entries@[x0].tag@ == t
                            && (#[trigger] self.entries@[x0].names@[y0])@ == n@;
                }
            }
            assert(f@.tags =~= ht2_tags_of(self.entries@, n@));
        }
        f
    }

    /// Rebuild every stored file, each name once.
    fn resolve_all(&self) -> (out: Vec<File>)
        ensures
            forall|z: int| 0 <= z < out@.len() ==> (#[trigger] out@[z]).inv(),
            forall|z: int|
                0 <= z < out@.len() ==> ht2_files(self.entries@).contains((#[trigger] out@[z])@),
            forall|k: FileKey|
                ht2_files(self.entries@).contains(k) ==> exists|z: int|
                    0 <= z < out@.len() && (#[trigger] out@[z])@ == k,
            forall|z1: int, z2: int| 0 <= z1 < z2 < out@.len() ==> out@[z1]@ != out@[z2]@,
    {
        let mut seen = TagSet::new();
        let mut out: Vec<File> = Vec::new();
        let len = self.entries.len();
        let mut x: usize = 0;
        while x < len
            invariant
                x <= len,
                len == self.entries@.len(),
                seen.inv(),
                forall|z: int| 0 <= z < out@.len() ==> (#[trigger] out@[z]).inv(),
                forall|z: int|
                    0 <= z < out@.len() ==> ht2_files(self.entries@).contains(
                        (#[trigger] out@[z])@,
                    ),
                forall|n: Seq<char>|
                    seen@.contains(n) <==> exists|z: int|
                        0 <= z < out@.len() && (#[trigger] out@[z])@.name == n,
                forall|n: Seq<char>|
                    seen@.contains(n) ==> ht2_known(self.entries@, n),
                forall|x0: int, y0: int|
                    0 <= x0 < x && 0 <= y0 < self.entries@[x0].names@.len() ==> seen@.contains(
                        (#[trigger] self.entries@[x0].names@[y0])@,
                    ),
                forall|z1: int, z2: int| 0 <= z1 < z2 < out@.len() ==> out@[z1]@.name
                    != out@[z2]@.name,
            decreases len - x,
        {
            let nlen = self.entries[x].names.len();
            let mut y: usize = 0;
            while y < nlen
                invariant
                    y <= nlen,
                    x < len,
                    len == self.entries@.len(),
                    nlen == self.entries@[x as int].names@.len(),
                    seen.inv(),
                    forall|z: int| 0 <= z < out@.len() ==> (#[trigger] out@[z]).inv(),
                    forall|z: int|
                        0 <= z < out@.len() ==> ht2_files(self.entries@).contains(
                            (#[trigger] out@[z])@,
                        ),
                    forall|n: Seq<char>|
                        seen@.contains(n) <==> exists|z: int|
                            0 <= z < out@.len() && (#[trigger] out@[z])@.name == n,
                    forall|n: Seq<char>|
                        seen@.contains(n) ==> ht2_known(self.entries@, n),
                    forall|x0: int, y0: int|
                        0 <= x0 < x && 0 <= y0 < self.entries@[x0].names@.len()
                            ==> seen@.contains((#[trigger] self.entries@[x0].names@[y0])@),
                    forall|y0: int|
                        0 <= y0 < y ==> seen@.contains(
                            #[trigger] self.entries@[x as int].names@[y0]@,
                        ),
                    forall|z1: int, z2: int| 0 <= z1 < z2 < out@.len() ==> out@[z1]@.name
                        != out@[z2]@.name,
                decreases nlen - y,
            {
                let name = &self.entries[x].names[y];
                if !seen.contains(name) {
                    let ghost preseen = seen@;
                    let ghost preout = out@;
                    seen.insert(name.clone());
                    let f = self.resolve_name(name);
                    proof {
                        assert(ht2_pair(self.entries@, self.entries@[x as int].tag@, name@));
                        assert(ht2_known(self.entries@, name@));
                        assert(ht2_files(self.entries@).contains(f@));
                    }
                    out.push(f);
                    proof {
                        assert(out@[preout.len() as int]@.name == name@);
                        assert forall|n: Seq<char>| seen@.contains(n) implies exists|z: int|
                            0 <= z < out@.len() && (#[trigger] out@[z])@.name == n by {
                            if n == name@ {
                                assert(out@[preout.len() as int]@.name == n);
                            } else {
                                let z = choose|z: int|
                                    0 <= z < preout.len() && (#[trigger] preout[z])@.name == n;
                                assert(out@[z]@.name == n);
                            }
                        }
                        assert forall|z1: int, z2: int|
                            0 <= z1 < z2 < out@.len() implies out@[z1]@.name
                            != out@[z2]@.name by {
                            if z2 == preout.len() {
                                assert(preseen.contains(out@[z1]@.name));
                            }
                        }
                    }
                }
                y = y + 1;
            }
            x = x + 1;
        }
        proof {
            assert forall|k: FileKey|
                ht2_files(self.entries@).contains(k) implies exists|z: int|
                0 <= z < out@.len() && (#[trigger] out@[z])@ == k by {
                let t0 = choose|t0: Seq<char>| ht2_pair(self.entries@, t0, k.name);
                let (x0, y0) = choose|x0: int, y0: int|
                    0 <= x0 < self.entries@.len() && 0 <= y0 < self.entries@[x0].names@.len()
                        && self.entries@[x0].tag@ == t0 && (#[trigger] self.entries@[x0].names@[y0])@
                        == k.name;
                assert(seen@.contains(k.name));
                let z = choose|z: int| 0 <= z < out@.len() && (#[trigger] out@[z])@.name == k.name;
                assert(ht2_files(self.entries@).contains(out@[z]@));
                assert(out@[z]@.tags == ht2_tags_of(self.entries@, k.name));
                assert(k.tags == ht2_tags_of(self.entries@, k.name));
                assert(out@[z]@ =~= k);
            }
            assert forall|z1: int, z2: int|
                0 <= z1 < z2 < out@.len() implies out@[z1]@ != out@[z2]@ by {
                assert(out@[z1]@.name != out@[z2]@.name);
            }
        }
        out
    }

    /// Find the entry filed for `tag`, if any.
    fn find_entry(&self, tag: &String) -> (r: Option<usize>)
        ensures
            match r {
                Some(x) => x < self.entries@.len() && self.entries@[x as int].tag@ == tag@,
                None => forall|x: int|
                    0 <= x < self.entries@.len() ==> (#[trigger] self.entries@[x]).tag@ != tag@,
            },
    {
        let len = self.entries.len();
        let mut x: usize = 0;
        while x < len
            invariant
                x <= len,
                len == self.entries@.len(),
                forall|x0: int| 0 <= x0 < x ==> (#[trigger] self.entries@[x0]).tag@ != tag@,
            decreases len - x,
        {
            if self.entries[x].tag.eq(tag) {
                return Some(x);
            }
            x = x + 1;
        }
        None
    }
}

impl FileDB for HashTags2DBFS {
    type FileIterator = FileVecIterator;

    closed spec fn db_inv(&self) -> bool {
        true
    }

    closed spec fn db_files(&self) -> Set<FileKey> {
        ht2_files(self.entries@)
    }

    /// File the name under every tag of the new file; refuse, changing
    /// nothing, a file the index already denotes exactly.
    fn add_file(&mut self, new_file: &File) -> (r: Option<()>)
        ensures
            r is Some <==> !old(self).db_files().contains(new_file@),
            r is None ==> final(self).db_files() == old(self).db_files(),
            r is None ==> final(self).db_pairs() == old(self).db_pairs(),
            r is Some ==> forall|t: Seq<char>, n: Seq<char>|
                final(self).db_pairs().contains((t, n)) == (old(self).db_pairs().contains((t, n))
                    || (new_file@.tags.contains(t) && n == new_file@.name)),
    {
        let known = {
            let mut any = false;
            let len = self.entries.len();
            let mut x: usize = 0;
            while x < len
                invariant
                    x <= len,
                    len == self.entries@.len(),
                    any == exists|x0: int, y0: int|
                        0 <= x0 < x && 0 <= y0 < self.entries@[x0].names@.len() && (
                        #[trigger] self.entries@[x0].names@[y0])@ == new_file@.name,
                decreases len - x,
            {
                if !any && self.entry_has_name(x, new_file.name_ref()) {
                    any = true;
                    proof {
                        let y = choose|y: int|
                            0 <= y < self.entries@[x as int].names@.len()
                                && self.entries@[x as int].names@[y]@ == new_file@.name;
                        assert(0 <= x < x + 1 && 0 <= y < self.entries@[x as int].names@.len()
                            && self.entries@[x as int].names@[y]@ == new_file@.name);
                    }
                }
                x = x + 1;
            }
            any
        };
        proof {
            if known {
                let (x0, y0) = choose|x0: int, y0: int|
                    0 <= x0 < self.entries@.len() && 0 <= y0 < self.entries@[x0].names@.len()
                        && (#[trigger] self.entries@[x0].names@[y0])@ == new_file@.name;
                assert(ht2_pair(self.entries@, self.entries@[x0].tag@, new_file@.name));
                assert(ht2_known(self.entries@, new_file@.name));
            } else {
                if ht2_known(self.entries@, new_file@.name) {
                    let t0 = choose|t0: Seq<char>| ht2_pair(self.entries@, t0, new_file@.name);
                    assert(false);
                }
            }
        }
        if known {
            let resolved = self.resolve_name(new_file.name_ref());
            if resolved.tags_eq(new_file) {
                proof {
                    assert(new_file@ =~= resolved@);
                    assert(self.db_files().contains(new_file@));
                }
                return None;
            }
        }
        proof {
            if self.db_files().contains(new_file@) {
                assert(ht2_known(self.entries@, new_file@.name));
            }
        }
        let tags = new_file.tag_set();
        let tlen = tags.len();
        let mut i: usize = 0;
        while i < tlen
            invariant
                i <= tlen,
                tlen == tags.sview().len(),
                tags@ == new_file@.tags,
                forall|t: Seq<char>, n: Seq<char>|
                    ht2_pair(self.entries@, t, n) == (ht2_pair(old(self).entries@, t, n) || (
                    exists|y0: int|
                        0 <= y0 < i && #[trigger] tags.sview()[y0] == t && n == new_file@.name)),
            decreases tlen - i,
        {
            let tag = tags.get(i);
            let ghost pre = self.entries@;
            let found = self.find_entry(tag);
            match found {
                Some(x) => {
                    if !self.entry_has_name(x, new_file.name_ref()) {
                        self.entries[x].names.push(new_file.name_ref().clone());
                        proof {
                            lemma_pair_after_name_push(pre, self.entries@, x as int, tag@, new_file@.name);
                        }
                    } else {
                        proof {
                            assert forall|t: Seq<char>, n: Seq<char>|
                                ht2_pair(self.entries@, t, n) == (ht2_pair(pre, t, n) || (t == tag@
                                    && n == new_file@.name)) by {
                                if t == tag@ && n == new_file@.name {
                                    let y = choose|y: int|
                                        0 <= y < self.entries@[x as int].names@.len()
                                            && self.entries@[x as int].names@[y]@ == new_file@.name;
                                    assert(ht2_pair(self.entries@, t, n));
                                }
                            }
                        }
                    }
                },
                None => {
                    let mut names: Vec<String> = Vec::new();
                    names.push(new_file.name_ref().clone());
                    self.entries.push(TagEntry { tag: tag.clone(), names });
                    proof {
                        lemma_pair_after_entry_push(pre, self.entries@, tag@, new_file@.name);
                    }
                },
            }
            proof {
                assert forall|t: Seq<char>, n: Seq<char>|
                    ht2_pair(self.entries@, t, n) == (ht2_pair(old(self).entries@, t, n) || (
                    exists|y0: int|
                        0 <= y0 < i + 1 && #[trigger] tags.sview()[y0] == t && n
                            == new_file@.name)) by {
                    if ht2_pair(self.entries@, t, n) {
                        if !(ht2_pair(pre, t, n) || (t == tag@ && n == new_file@.name)) {
                            assert(false);
                        }
                        if !ht2_pair(pre, t, n) {
                            assert(tags.sview()[i as int] == tag@);
                        }
                    }
                    if ht2_pair(old(self).entries@, t, n) {
                        assert(ht2_pair(pre, t, n));
                        assert(ht2_pair(self.entries@, t, n));
                    }
                    if exists|y0: int|
                        0 <= y0 < i + 1 && #[trigger] tags.sview()[y0] == t && n
                            == new_file@.name {
                        let y0 = choose|y0: int|
                            0 <= y0 < i + 1 && #[trigger] tags.sview()[y0] == t && n
                                == new_file@.name;
                        if y0 < i {
                            assert(ht2_pair(pre, t, n));
                            assert(ht2_pair(self.entries@, t, n));
                        } else {
                            assert(t == tag@ && n == new_file@.name);
                            assert(ht2_pair(self.entries@, t, n));
                        }
                    }
                }
            }
            i = i + 1;
        }
        proof {
            tags.lemma_sview_view();
            assert forall|t: Seq<char>, n: Seq<char>|
                ht2_pair(self.entries@, t, n) == (ht2_pair(old(self).entries@, t, n) || (
                new_file@.tags.contains(t) && n == new_file@.name)) by {
                if exists|y0: int|
                    0 <= y0 < tlen && #[trigger] tags.sview()[y0] == t && n == new_file@.name {
                    let y0 = choose|y0: int|
                        0 <= y0 < tlen && #[trigger] tags.sview()[y0] == t && n == new_file@.name;
                    assert(tags@.contains(t));
                }
                if new_file@.tags.contains(t) && n == new_file@.name {
                    let y0 = choose|y0: int|
                        0 <= y0 < tags.sview().len() && #[trigger] tags.sview()[y0] == t;
                }
            }
        }
        Some(())
    }

    /// Gather every stored file matching the query; the result holds
    /// exactly the matching files, each once.
    fn get_files<F: FileQuery>(&self, query: &F) -> (it: FileVecIterator)
        ensures
            it.inv(),
            forall|k: FileKey|
                it.remaining().contains(k) == matches_of(
                    self.db_files(),
                    query.q_tags(),
                    query.q_name(),
                ).contains(k),
            forall|x: int, y: int|
                0 <= x < y < it.remaining().len() ==> it.remaining()[x] != it.remaining()[y],
    {
        let all = self.resolve_all();
        let n = all.len();
        let mut out: Vec<File> = Vec::new();
        let mut x: usize = 0;
        while x < n
            invariant
                x <= n,
                n == all@.len(),
                query.q_inv(),
                forall|z: int| 0 <= z < all@.len() ==> (#[trigger] all@[z]).inv(),
                forall|z: int|
                    0 <= z < all@.len() ==> ht2_files(self.entries@).contains(
                        (#[trigger] all@[z])@,
                    ),
                forall|z1: int, z2: int| 0 <= z1 < z2 < all@.len() ==> all@[z1]@ != all@[z2]@,
                forall|z: int| 0 <= z < out@.len() ==> (#[trigger] out@[z]).inv(),
                forall|z: int|
                    0 <= z < out@.len() ==> key_matches(
                        query.q_tags(),
                        query.q_name(),
                        (#[trigger] out@[z])@,
                    ) && ht2_files(self.entries@).contains(out@[z]@),
                forall|y0: int|
                    0 <= y0 < x && key_matches(
                        query.q_tags(),
                        query.q_name(),
                        (#[trigger] all@[y0])@,
                    ) ==> exists|z: int| 0 <= z < out@.len() && (#[trigger] out@[z])@ == all@[y0]@,
                forall|z1: int, z2: int| 0 <= z1 < z2 < out@.len() ==> out@[z1]@ != out@[z2]@,
                forall|z: int|
                    0 <= z < out@.len() ==> exists|y0: int|
                        0 <= y0 < x && (#[trigger] out@[z])@ == all@[y0]@,
            decreases n - x,
        {
            let is_match = query.could_match(&all[x]);
            let ghost preout = out@;
            if is_match {
                out.push(all[x].duplicate());
            }
            proof {
                if is_match {
                    assert(out@[preout.len() as int]@ == all@[x as int]@);
                    assert forall|z1: int, z2: int|
                        0 <= z1 < z2 < out@.len() implies out@[z1]@ != out@[z2]@ by {
                        if z2 == preout.len() {
                            let y0 = choose|y0: int|
                                0 <= y0 < x && (#[trigger] preout[z1])@ == all@[y0]@;
                            assert(all@[y0]@ != all@[x as int]@);
                            assert(out@[z1] == preout[z1]);
                        } else {
                            assert(out@[z1] == preout[z1]);
                            assert(out@[z2] == preout[z2]);
                        }
                    }
                }
                assert forall|y0: int|
                    0 <= y0 < x + 1 && key_matches(
                        query.q_tags(),
                        query.q_name(),
                        (#[trigger] all@[y0])@,
                    ) implies exists|z: int| 0 <= z < out@.len() && (#[trigger] out@[z])@
                    == all@[y0]@ by {
                    if y0 == x {
                        assert(out@[preout.len() as int]@ == all@[y0]@);
                    } else {
                        let z = choose|z: int|
                            0 <= z < preout.len() && (#[trigger] preout[z])@ == all@[y0]@;
                        assert(out@[z]@ == all@[y0]@);
                    }
                }
            }
            x = x + 1;
        }
        let ghost outv = out@;
        let it = FileVecIterator::from_vec(out);
        proof {
            let m = matches_of(self.db_files(), query.q_tags(), query.q_name());
            assert(it.remaining() == outv.map_values(|f: File| f@));
            assert forall|k: FileKey| it.remaining().contains(k) implies m.contains(k) by {
                let z = choose|z: int| 0 <= z < it.remaining().len() && it.remaining()[z] == k;
                assert(outv[z]@ == k);
            }
            assert forall|k: FileKey| m.contains(k) implies it.remaining().contains(k) by {
                let y0 = choose|y0: int| 0 <= y0 < all@.len() && (#[trigger] all@[y0])@ == k;
                let z = choose|z: int| 0 <= z < outv.len() && (#[trigger] outv[z])@ == all@[y0]@;
                assert(it.remaining()[z] == outv[z]@);
            }
            assert forall|x1: int, y1: int|
                0 <= x1 < y1 < it.remaining().len() implies it.remaining()[x1]
                != it.remaining()[y1] by {
                assert(it.remaining()[x1] == outv[x1]@);
                assert(it.remaining()[y1] == outv[y1]@);
            }
        }
        it
    }

    /// The single matching file, or which way the lookup failed.
    fn get_file<F: FileQuery>(&self, query: &F) -> (r: Result<File, GetFileError>)
        ensures
            ({
                let m = matches_of(self.db_files(), query.q_tags(), query.q_name());
                &&& (r == Result::<File, GetFileError>::Err(GetFileError::NoSuchFile)) <==> no_match(
                    m,
                )
                &&& (r matches Ok(f) ==> f.inv() && unique_match(m, f@))
                &&& (r == Result::<File, GetFileError>::Err(GetFileError::TooManyFiles))
                    <==> multi_match(m)
            }),
    {
        let ghost m = matches_of(self.db_files(), query.q_tags(), query.q_name());
        let all = self.resolve_all();
        let n = all.len();
        let mut found: Option<File> = None;
        let mut x: usize = 0;
        while x < n
            invariant
                x <= n,
                n == all@.len(),
                query.q_inv(),
                m == matches_of(self.db_files(), query.q_tags(), query.q_name()),
                forall|z: int| 0 <= z < all@.len() ==> (#[trigger] all@[z]).inv(),
                forall|z: int|
                    0 <= z < all@.len() ==> ht2_files(self.entries@).contains(
                        (#[trigger] all@[z])@,
                    ),
                forall|k: FileKey|
                    ht2_files(self.entries@).contains(k) ==> exists|z: int|
                        0 <= z < all@.len() && (#[trigger] all@[z])@ == k,
                forall|z1: int, z2: int| 0 <= z1 < z2 < all@.len() ==> all@[z1]@ != all@[z2]@,
                match found {
                    Some(f) => {
                        &&& f.inv()
                        &&& m.contains(f@)
                        &&& exists|z: int| 0 <= z < x && (#[trigger] all@[z])@ == f@
                        &&& forall|z: int|
                            0 <= z < x && m.contains((#[trigger] all@[z])@) ==> all@[z]@ == f@
                    },
                    None => forall|z: int| 0 <= z < x ==> !m.contains((#[trigger] all@[z])@),
                },
            decreases n - x,
        {
            if query.could_match(&all[x]) {
                proof {
                    assert(m.contains(all@[x as int]@));
                }
                match &found {
                    Some(prior) => {
                        proof {
                            let z = choose|z: int| 0 <= z < x && (#[trigger] all@[z])@ == prior@;
                            assert(all@[z]@ != all@[x as int]@);
                            assert(multi_match(m));
                        }
                        return Err(GetFileError::TooManyFiles);
                    },
                    None => {
                        found = Some(all[x].duplicate());
                    },
                }
            }
            x = x + 1;
        }
        match found {
            Some(f) => {
                proof {
                    assert forall|k2: FileKey| m.contains(k2) implies k2 == f@ by {
                        let z = choose|z: int| 0 <= z < all@.len() && (#[trigger] all@[z])@ == k2;
                        assert(m.contains(all@[z]@));
                    }
                    assert(unique_match(m, f@));
                    crate::tagtree::endnode::lemma_unique_not_multi(m, f@);
                }
                Ok(f)
            },
            None => {
                proof {
                    assert forall|k2: FileKey| !m.contains(k2) by {
                        if m.contains(k2) {
                            let z = choose|z: int|
                                0 <= z < all@.len() && (#[trigger] all@[z])@ == k2;
                            assert(!m.contains(all@[z]@));
                        }
                    }
                    crate::tagtree::endnode::lemma_empty_not_multi(m);
                }
                Err(GetFileError::NoSuchFile)
            },
        }
    }
}

/// Pushing a name onto the entry at `x` adds exactly one tag/name
/// pairing.
proof fn lemma_pair_after_name_push(
    pre: Seq<TagEntry>,
    post: Seq<TagEntry>,
    x: int,
    t0: Seq<char>,
    n0: Seq<char>,
)
    requires
        0 <= x < pre.len(),
        post.len() == pre.len(),
        pre[x].tag@ == t0,
        post[x].tag == pre[x].tag,
        post[x].names@ == pre[x].names@.push(post[x].names@[post[x].names@.len() - 1]),
        post[x].names@[post[x].names@.len() - 1]@ == n0,
        forall|x0: int| 0 <= x0 < pre.len() && x0 != x ==> post[x0] == pre[x0],
    ensures
        forall|t: Seq<char>, n: Seq<char>|
            ht2_pair(post, t, n) == (ht2_pair(pre, t, n) || (t == t0 && n == n0)),
{
    assert forall|t: Seq<char>, n: Seq<char>|
        ht2_pair(post, t, n) == (ht2_pair(pre, t, n) || (t == t0 && n == n0)) by {
        if ht2_pair(post, t, n) {
            let (x1, y1) = choose|x1: int, y1: int|
                0 <= x1 < post.len() && 0 <= y1 < post[x1].names@.len() && post[x1].tag@ == t
                    && (#[trigger] post[x1].names@[y1])@ == n;
            if x1 == x {
                if y1 < pre[x].names@.len() {
                    assert(pre[x1].names@[y1]@ == n);
                    assert(ht2_pair(pre, t, n));
                } else {
                    assert(t == t0 && n == n0);
                }
            } else {
                assert(pre[x1].names@[y1]@ == n);
                assert(ht2_pair(pre, t, n));
            }
        }
        if ht2_pair(pre, t, n) {
            let (x1, y1) = choose|x1: int, y1: int|
                0 <= x1 < pre.len() && 0 <= y1 < pre[x1].names@.len() && pre[x1].tag@ == t && (
                #[trigger] pre[x1].names@[y1])@ == n;
            if x1 == x {
                assert(post[x1].names@[y1]@ == n);
                assert(ht2_pair(post, t, n));
            } else {
                assert(post[x1].names@[y1]@ == n);
                assert(ht2_pair(post, t, n));
            }
        }
        if t == t0 && n == n0 {
            assert(post[x].names@[post[x].names@.len() - 1]@ == n);
            assert(ht2_pair(post, t, n));
        }
    }
}

/// Appending a fresh one-name entry adds exactly one tag/name pairing.
proof fn lemma_pair_after_entry_push(
    pre: Seq<TagEntry>,
    post: Seq<TagEntry>,
    t0: Seq<char>,
    n0: Seq<char>,
)
    requires
        post.len() == pre.len() + 1,
        forall|x0: int| 0 <= x0 < pre.len() ==> post[x0] == pre[x0],
        post[pre.len() as int].tag@ == t0,
        post[pre.len() as int].names@.len() == 1,
        post[pre.len() as int].names@[0]@ == n0,
    ensures
        forall|t: Seq<char>, n: Seq<char>|
            ht2_pair(post, t, n) == (ht2_pair(pre, t, n) || (t == t0 && n == n0)),
{
    assert forall|t: Seq<char>, n: Seq<char>|
        ht2_pair(post, t, n) == (ht2_pair(pre, t, n) || (t == t0 && n == n0)) by {
        if ht2_pair(post, t, n) {
            let (x1, y1) = choose|x1: int, y1: int|
                0 <= x1 < post.len() && 0 <= y1 < post[x1].names@.len() && post[x1].tag@ == t
                    && (#[trigger] post[x1].names@[y1])@ == n;
            if x1 < pre.len() {
                assert(pre[x1].names@[y1]@ == n);
                assert(ht2_pair(pre, t, n));
            } else {
                assert(t == t0 && n == n0);
            }
        }
        if ht2_pair(pre, t, n) {
            let (x1, y1) = choose|x1: int, y1: int|
                0 <= x1 < pre.len() && 0 <= y1 < pre[x1].names@.len() && pre[x1].tag@ == t && (
                #[trigger] pre[x1].names@[y1])@ == n;
            assert(post[x1].names@[y1]@ == n);
            assert(ht2_pair(post, t, n));
        }
        if t == t0 && n == n0 {
            assert(post[pre.len() as int].names@[0]@ == n);
            assert(ht2_pair(post, t, n));
        }
    }
}

} // verus!
