use rdb_fs::EndNodeIterator;
use rdb_fs::File;
use rdb_fs::TagSet;
use rdb_fs::fromstr::FromStr;

fn drain(mut it: EndNodeIterator) -> Vec<File> {
    let mut out = Vec::new();
    while let Some(f) = it.next() {
        out.push(f);
    }
    out
}

#[test]
fn empty_should_yeild_nothing() {
    let actual = EndNodeIterator::empty();
    let expected = Vec::<File>::new();
    assert_eq!(expected, drain(actual));
}

#[test]
fn non_empty_should_yeild_files() {
    let tags = TagSet::from_str("/one/two").unwrap();
    let actual = EndNodeIterator::new(&vec!["blue".to_string(), "red".to_string()], &tags);
    let expected = vec![
        File::new("blue".to_string(), tags.clone()),
        File::new("red".to_string(), tags.clone()),
    ];
    assert_eq!(expected, drain(actual));
}
