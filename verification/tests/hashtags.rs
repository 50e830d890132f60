use rdb_fs::File;
use rdb_fs::FileDB;
use rdb_fs::FileVecIterator;
use rdb_fs::GetFileError;
use rdb_fs::HashTagsDBFS;
use rdb_fs::TagSet;
use rdb_fs::fromstr::FromStr;
use std::collections::hash_set::HashSet;

fn drain(mut it: FileVecIterator) -> HashSet<File> {
    let mut out = HashSet::new();
    while let Some(f) = it.next() {
        out.insert(f);
    }
    out
}

#[test]
fn hashtags_should_find_files_by_superset_query() {
    let mut db = HashTagsDBFS::new();
    let a = File::from_str("/etc/fine/shoes/make.txt").unwrap();
    let b = File::from_str("/mnt/partition/fourteen.one").unwrap();
    db.add_file(&a).unwrap();
    db.add_file(&b).unwrap();

    let q = TagSet::from_str("/etc/fine").unwrap();
    let expected: HashSet<File> = [a].into_iter().collect();
    assert_eq!(expected, drain(db.get_files(&q)));
}

#[test]
fn hashtags_rejects_exact_duplicate_and_reports_errors() {
    let mut db = HashTagsDBFS::new();
    let a = File::from_str("/etc/fine/shoes/make.txt").unwrap();
    assert!(db.add_file(&a).is_some());
    assert!(db.add_file(&a).is_none());

    assert_eq!(Ok(a.clone()), db.get_file(&a));

    let missing = File::from_str("/etc/fine/luke.txt").unwrap();
    assert_eq!(Err(GetFileError::NoSuchFile), db.get_file(&missing));

    let c = File::from_str("/etc/fine/extra/make.txt").unwrap();
    db.add_file(&c).unwrap();
    let plural = File::from_str("/fine/etc/make.txt").unwrap();
    assert_eq!(Err(GetFileError::TooManyFiles), db.get_file(&plural));
}
