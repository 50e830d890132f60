use rdb_fs::EndNode;
use rdb_fs::EndNodeIterator;
use rdb_fs::File;
use rdb_fs::TagSet;
use rdb_fs::fromstr::FromStr;
use std::collections::hash_set::HashSet;

fn drain(mut it: EndNodeIterator) -> HashSet<File> {
    let mut out = HashSet::new();
    while let Some(f) = it.next() {
        out.insert(f);
    }
    out
}

#[test]
fn endnode_should_find_files() {
    let tags = TagSet::from_str("/one/two/three").unwrap();

    let mut db = EndNode::new(tags.clone());

    let files: HashSet<File> = [
        File::new_cloned("file.txt", &["one", "two", "three"]),
        File::new_cloned("two.txt", &["one", "two", "three"]),
        File::new_cloned("four.txt", &["one", "two", "three"]),
    ]
    .iter()
    .cloned()
    .collect();

    for f in files.iter() {
        db.add_file(f).unwrap();
    }

    let query = TagSet::from_str("/one/two/three").unwrap();

    let actual = drain(db.get_files(&query));

    assert_eq!(files, actual);
}

#[test]
fn endnode_should_find_single_file() {
    let tags = TagSet::from_str("/one/two/three").unwrap();

    let mut db = EndNode::new(tags.clone());

    let files: HashSet<File> = [
        File::new_cloned("file.txt", &["one", "two", "three"]),
        File::new_cloned("two.txt", &["one", "two", "three"]),
        File::new_cloned("four.txt", &["one", "two", "three"]),
    ]
    .iter()
    .cloned()
    .collect();

    for f in files.iter() {
        db.add_file(f).unwrap();
    }

    let query = File::from_str("/one/two/three/file.txt").unwrap();

    let mut expected: HashSet<File> = HashSet::new();
    expected.insert(query.clone());

    let actual = drain(db.get_files(&query));

    assert_eq!(expected, actual);
}

#[test]
fn endnode_should_not_find_unmatched_file_with_matching_tags() {
    let tags = TagSet::from_str("/one/two/three").unwrap();

    let mut db = EndNode::new(tags.clone());

    let files: HashSet<File> = [
        File::new_cloned("file.txt", &["one", "two", "three"]),
        File::new_cloned("two.txt", &["one", "two", "three"]),
        File::new_cloned("four.txt", &["one", "two", "three"]),
    ]
    .iter()
    .cloned()
    .collect();

    for f in files.iter() {
        db.add_file(f).unwrap();
    }

    let query = File::from_str("/one/two/three/blue.txt").unwrap();

    let expected: HashSet<File> = HashSet::new();

    let actual = drain(db.get_files(&query));

    assert_eq!(expected, actual);
}

#[test]
fn endnode_should_find_partial_match_files() {
    let tags = TagSet::from_str("/one/two/three").unwrap();

    let mut db = EndNode::new(tags.clone());

    let files: HashSet<File> = [
        File::new_cloned("file.txt", &["one", "two", "three"]),
        File::new_cloned("two.txt", &["one", "two", "three"]),
        File::new_cloned("four.txt", &["one", "two", "three"]),
    ]
    .iter()
    .cloned()
    .collect();

    for f in files.iter() {
        db.add_file(f).unwrap();
    }

    let query = TagSet::from_str("/one/two").unwrap();

    let actual = drain(db.get_files(&query));

    assert_eq!(files, actual);
}

#[test]
fn endnode_should_not_find_unmatched_files() {
    let tags = TagSet::from_str("/one/two/three").unwrap();

    let mut db = EndNode::new(tags.clone());

    let files: HashSet<File> = [
        File::new_cloned("file.txt", &["one", "two", "three"]),
        File::new_cloned("two.txt", &["one", "two", "three"]),
        File::new_cloned("four.txt", &["one", "two", "three"]),
    ]
    .iter()
    .cloned()
    .collect();

    for f in files.iter() {
        db.add_file(f).unwrap();
    }

    let query = TagSet::from_str("/one/two/four").unwrap();

    let actual = drain(db.get_files(&query));

    let expected: HashSet<File> = HashSet::new();

    assert_eq!(expected, actual);
}
