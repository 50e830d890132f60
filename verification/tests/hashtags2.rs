use rdb_fs::File;
use rdb_fs::FileDB;
use rdb_fs::FileQuery;
use rdb_fs::FileVecIterator;
use rdb_fs::GetFileError;
use rdb_fs::HashTags2DBFS;
use rdb_fs::TagSet;
use rdb_fs::fromstr::FromStr;
use std::collections::hash_set::HashSet;

fn file_list_from_iter_str<'a, I>(items: I) -> HashSet<File>
where
    I: IntoIterator<Item = &'a str>,
{
    items
        .into_iter()
        .map(|s| File::from_str(s).unwrap())
        .collect()
}

fn add_files_to_db<DB, I>(db: &mut DB, files: I) -> Option<()>
where
    DB: FileDB,
    I: IntoIterator<Item = File>,
{
    for f in files.into_iter() {
        db.add_file(&f)?;
    }
    Some(())
}

fn drain(mut it: FileVecIterator) -> HashSet<File> {
    let mut out = HashSet::new();
    while let Some(f) = it.next() {
        out.insert(f);
    }
    out
}

#[test]
fn dbfs_should_find_files() {
    let mut db = HashTags2DBFS::new();

    let files = file_list_from_iter_str([
        "/etc/fine/shoes/make.txt",
        "/etc/fine/shoes/blue.png",
        "/mnt/partition/fourteen.one",
    ]);

    add_files_to_db(&mut db, files);

    let query = TagSet::from_str("/etc/fine").unwrap();

    let expected_files: HashSet<File> =
        file_list_from_iter_str(["/etc/fine/shoes/make.txt", "/etc/fine/shoes/blue.png"]);

    let actual = drain(db.get_files(&query));

    assert_eq!(expected_files, actual);
}

#[test]
fn dbfs_should_find_files_with_different_query_order() {
    let mut db = HashTags2DBFS::new();
    let files = file_list_from_iter_str([
        "/etc/fine/shoes/make.txt",
        "/etc/fine/shoes/blue.png",
        "/mnt/partition/fourteen.one",
    ]);

    add_files_to_db(&mut db, files);

    let expected_files = HashSet::from_iter([
        File::new_cloned("make.txt", &["etc", "fine", "shoes"]),
        File::new_cloned("blue.png", &["etc", "fine", "shoes"]),
    ]);

    let query = TagSet::from_str("/fine/etc").unwrap();

    let actual = drain(db.get_files(&query));

    assert_eq!(expected_files, actual);
}

#[test]
fn dbfs_should_get_empty_list_for_file_that_doesnt_exist() {
    let mut db = HashTags2DBFS::new();
    let files = file_list_from_iter_str([
        "/etc/fine/shoes/make.txt",
        "/etc/fine/shoes/blue.png",
        "/mnt/partition/fourteen.one",
    ]);

    add_files_to_db(&mut db, files);

    let query = TagSet::from_str("/fine/etc/red.txt").unwrap();

    let actual = drain(db.get_files(&query));

    let expected: HashSet<File> = HashSet::new();

    assert_eq!(expected, actual);
}

#[test]
fn dbfs_should_get_file_for_file_that_exists() {
    let mut db = HashTags2DBFS::new();
    let files = file_list_from_iter_str(["/etc/fine/shoes/make.txt"]);

    add_files_to_db(&mut db, files);

    let query = File::from_str("/etc/fine/shoes/make.txt").unwrap();

    let actual = db.get_file(&query);

    let expected = Ok(File::from_str("/etc/fine/shoes/make.txt").unwrap());

    assert_eq!(expected, actual);
}

#[test]
fn dbfs_should_get_file_with_more_tags_for_file_that_exists() {
    let mut db = HashTags2DBFS::new();
    let files = file_list_from_iter_str(["/etc/fine/shoes/make.txt"]);

    add_files_to_db(&mut db, files);

    let query = File::from_str("/etc/fine/make.txt").unwrap();

    let actual = db.get_file(&query);

    let expected = Ok(File::from_str("/etc/fine/shoes/make.txt").unwrap());

    assert_eq!(expected, actual);
}

#[test]
fn dbfs_should_get_no_such_file_for_file_that_doesnt_exist() {
    let mut db = HashTags2DBFS::new();
    let files = file_list_from_iter_str([
        "/etc/fine/shoes/make.txt",
        "/etc/fine/shoes/blue.png",
        "/mnt/partition/fourteen.one",
    ]);

    add_files_to_db(&mut db, files);

    let query = File::from_str("/fine/etc/red.txt").unwrap();

    let actual = db.get_file(&query);

    assert_eq!(Err(GetFileError::NoSuchFile), actual);
}

#[test]
fn dbfs_should_get_too_many_files_for_query_with_multiple_matches() {
    let mut db = HashTags2DBFS::new();
    let files = file_list_from_iter_str(["/etc/fine/shoes/make.txt", "/etc/fine/extra/make.txt"]);

    add_files_to_db(&mut db, files);

    let query = File::from_str("/fine/etc/make.txt").unwrap();

    let _actual = db.get_file(&query);
}

#[test]
fn hashtags2_found_files_should_have_all_tags_in_query() {
    let mut db = HashTags2DBFS::new();
    let files = file_list_from_iter_str([
        "/etc/fine/shoes/make.txt",
        "/etc/fine/shoes/blue.png",
        "/mnt/partition/fourteen.one",
    ]);

    add_files_to_db(&mut db, files);

    let query = TagSet::from_str("/fine/etc").unwrap();

    let mut result_files = db.get_files(&query);

    assert_eq!(2, result_files.len());

    while let Some(i) = result_files.next() {
        assert!(query.could_match(&i));
    }
}
