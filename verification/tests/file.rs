use rdb_fs::File;
use rdb_fs::TagSet;
use rdb_fs::fromstr::FromStr;

#[test]
fn should_convert_str_list_to_set() {
    let input = ["etc", "fine", "shoes", "make.txt"];

    let mut expected = TagSet::new();
    expected.insert("make.txt".to_string());
    expected.insert("shoes".to_string());
    expected.insert("fine".to_string());
    expected.insert("etc".to_string());

    let mut actual = TagSet::new();
    for s in input {
        actual.insert(s.to_string());
    }

    assert_eq!(expected, actual);
}

#[test]
fn should_make_file_from_str() {
    let input = "/etc/fine/shoes/make.txt";

    let expected = File::new_cloned("make.txt", &["etc", "fine", "shoes"]);

    let actual = File::from_str(input);

    assert_eq!(Some(expected), actual);
}
