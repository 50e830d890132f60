use rdb_fs::File;
use rdb_fs::FileDB;
use rdb_fs::FileVecIterator;
use rdb_fs::GetFileError;
use rdb_fs::NaiveDBFS;
use rdb_fs::TagSet;
use rdb_fs::TagTreeDBFS;
use rdb_fs::fromstr::FromStr;
use std::collections::hash_set::HashSet;

fn drain(mut it: FileVecIterator) -> HashSet<File> {
    let mut out = HashSet::new();
    while let Some(f) = it.next() {
        out.insert(f);
    }
    out
}

#[test]
fn adding_same_file_twice_fails_second_time() {
    let mut db = TagTreeDBFS::new();
    let f = File::from_str("/etc/fine/shoes/make.txt").unwrap();

    assert!(db.add_file(&f).is_some());
    assert!(db.add_file(&f).is_none());

    // The stored count is unchanged: the one copy is still there.
    let q = TagSet::from_str("/etc/fine/shoes").unwrap();
    let mut it = db.get_files(&q);
    assert_eq!(1, it.len());
    assert_eq!(Some(f), it.next());
}

#[test]
fn naive_adding_same_file_twice_fails_second_time() {
    let mut db = NaiveDBFS::new();
    let f = File::from_str("/etc/fine/shoes/make.txt").unwrap();

    assert!(db.add_file(&f).is_some());
    assert!(db.add_file(&f).is_none());
}

#[test]
fn single_tag_query_finds_stored_file() {
    let mut db = TagTreeDBFS::new();
    let f = File::from_str("/etc/fine/shoes/make.txt").unwrap();
    db.add_file(&f).unwrap();

    for tag in ["etc", "fine", "shoes"] {
        let q = TagSet::from_str(tag).unwrap();
        let mut it = db.get_files(&q);
        assert_eq!(Some(f.clone()), it.next());
        assert_eq!(None, it.next());
    }
}

#[test]
fn parsing_discards_empty_segments_and_repeats() {
    let a = TagSet::from_str("//etc///fine/").unwrap();
    let b = TagSet::from_str("/fine/etc/fine").unwrap();
    assert_eq!(a, b);
    assert_eq!(2, a.len());
}

#[test]
fn file_with_no_tags_is_stored_and_found() {
    let mut db = TagTreeDBFS::new();
    let f = File::from_str("lonely.txt").unwrap();
    db.add_file(&f).unwrap();

    let actual = db.get_file(&f);
    assert_eq!(Ok(f), actual);
}

#[test]
fn get_file_on_empty_store_reports_no_such_file() {
    let db = TagTreeDBFS::new();
    let q = File::from_str("/etc/missing.txt").unwrap();
    assert_eq!(Err(GetFileError::NoSuchFile), db.get_file(&q));
}

#[test]
fn naive_get_file_reports_each_error() {
    let mut db = NaiveDBFS::new();
    db.add_file(&File::from_str("/etc/fine/shoes/make.txt").unwrap())
        .unwrap();
    db.add_file(&File::from_str("/etc/fine/extra/make.txt").unwrap())
        .unwrap();

    let missing = File::from_str("/fine/etc/luke.txt").unwrap();
    assert_eq!(Err(GetFileError::NoSuchFile), db.get_file(&missing));

    let plural = File::from_str("/fine/etc/make.txt").unwrap();
    assert_eq!(Err(GetFileError::TooManyFiles), db.get_file(&plural));
}

#[test]
fn naive_finds_files_by_superset_query() {
    let mut db = NaiveDBFS::new();
    let a = File::from_str("/etc/fine/shoes/make.txt").unwrap();
    let b = File::from_str("/mnt/partition/fourteen.one").unwrap();
    db.add_file(&a).unwrap();
    db.add_file(&b).unwrap();

    let q = TagSet::from_str("/etc/fine").unwrap();
    let expected: HashSet<File> = [a].into_iter().collect();
    assert_eq!(expected, drain(db.get_files(&q)));
}

#[test]
fn split_preserves_membership_under_exact_queries() {
    // Forty distinct tag sets force the root branch to overflow and
    // half-split; every file must stay retrievable by exact query.
    let mut db = TagTreeDBFS::new();
    let mut files = Vec::new();
    let names = [
        "a", "b", "c", "d", "e", "f", "g", "h", "i", "j", "k", "l", "m", "n", "o", "p", "q", "r",
        "s", "t", "u", "v", "w", "x", "y", "z", "aa", "ab", "ac", "ad", "ae", "af", "ag", "ah",
        "ai", "aj", "ak", "al", "am", "an",
    ];
    for n in names {
        let f = File::new_cloned("stored.txt", &[n, "shared"]);
        db.add_file(&f).unwrap();
        files.push(f);
    }
    for f in &files {
        assert_eq!(Ok(f.clone()), db.get_file(f));
    }
}
