use rdb_fs::EndNodeIterator;
use rdb_fs::File;
use rdb_fs::MultiNodeIterator;
use rdb_fs::NodeIterator;
use rdb_fs::TagSet;
use rdb_fs::fromstr::FromStr;

fn drain(mut it: MultiNodeIterator) -> Vec<File> {
    let mut out = Vec::new();
    while let Some(f) = it.next() {
        out.push(f);
    }
    out
}

#[test]
fn empty_should_yield_nothing() {
    let actual = MultiNodeIterator::empty();
    let expected = Vec::<File>::new();
    assert_eq!(expected, drain(actual));
}

#[test]
fn non_empty_should_yield_files() {
    let tags = TagSet::from_str("/one/two").unwrap();
    let internal = EndNodeIterator::new(&vec!["blue".to_string(), "red".to_string()], &tags);
    let actual = MultiNodeIterator::new(vec![NodeIterator::EndNodeIter(internal)]);

    let expected = vec![
        File::new("blue".to_string(), tags.clone()),
        File::new("red".to_string(), tags.clone()),
    ];
    assert_eq!(expected, drain(actual));
}

#[test]
fn mutliple_sources_should_yield_files() {
    let tags1 = TagSet::from_str("/one/two").unwrap();
    let tags2 = TagSet::from_str("/one/three").unwrap();
    let internal1 = EndNodeIterator::new(&vec!["blue".to_string(), "red".to_string()], &tags1);
    let internal2 = EndNodeIterator::new(&vec!["blue".to_string(), "red".to_string()], &tags2);

    let actual = MultiNodeIterator::new(vec![
        NodeIterator::EndNodeIter(internal1),
        NodeIterator::EndNodeIter(internal2),
    ]);

    let expected = vec![
        File::new("blue".to_string(), tags1.clone()),
        File::new("red".to_string(), tags1.clone()),
        File::new("blue".to_string(), tags2.clone()),
        File::new("red".to_string(), tags2.clone()),
    ];

    assert_eq!(expected, drain(actual));
}
