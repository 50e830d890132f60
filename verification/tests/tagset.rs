use rdb_fs::File;
use rdb_fs::FileQuery;
use rdb_fs::TagSet;
use rdb_fs::fromstr::FromStr;

#[test]
fn tagset_found_files_should_have_all_tags_in_query() {
    let f = File::from_str("/etc/fine/red.txt").unwrap();

    let query = TagSet::from_str("/fine/etc").unwrap();

    assert!(query.could_match(&f));
}
