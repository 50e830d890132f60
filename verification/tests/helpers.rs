use rdb_fs::File;
use rdb_fs::FileDB;
use rdb_fs::FileQuery;
use rdb_fs::GetFileError;
use rdb_fs::fromstr::FromStr;
use std::collections::hash_set::HashSet;
use std::collections::hash_set::IntoIter;

fn file_list_from_iter_str<'a, I>(items: I) -> HashSet<File>
where
    I: IntoIterator<Item = &'a str>,
{
    items
        .into_iter()
        .map(|s| File::from_str(s).unwrap())
        .collect()
}

fn add_files_to_db<DB, I>(db: &mut DB, files: I) -> Option<()>
where
    DB: FileDB,
    I: IntoIterator<Item = File>,
{
    for f in files.into_iter() {
        db.add_file(&f)?;
    }
    Some(())
}

pub struct DummyDBFS {
    files: HashSet<File>,
}

impl DummyDBFS {
    pub fn new() -> DummyDBFS {
        DummyDBFS {
            files: HashSet::new(),
        }
    }
}

// The two ghost members of `FileDB` are erased specification items;
// nothing ever calls them at run time.
impl FileDB for DummyDBFS {
    type FileIterator = IntoIter<File>;

    fn db_inv(&self) -> bool {
        panic!()
    }

    fn db_files(&self) -> vstd::set::Set<rdb_fs::FileKey> {
        panic!()
    }

    fn add_file(&mut self, new_file: &File) -> Option<()> {
        self.files.insert(new_file.clone());
        Some(())
    }

    fn get_files<F: FileQuery>(&self, _query: &F) -> Self::FileIterator {
        self.files.clone().into_iter()
    }

    fn get_file<F: FileQuery>(&self, _query: &F) -> Result<File, GetFileError> {
        Err(GetFileError::NoSuchFile)
    }
}

#[test]
fn should_get_file_list_from_str_list() {
    let input = [
        "/etc/fine/shoes/make.txt",
        "/etc/fine/shoes/blue.png",
        "/mnt/partition/fourteen.one",
    ];

    let actual = file_list_from_iter_str(input);

    let expected: HashSet<File> = HashSet::from([
        File::new_cloned("make.txt", &["etc", "fine", "shoes"]),
        File::new_cloned("blue.png", &["etc", "fine", "shoes"]),
        File::new_cloned("fourteen.one", &["mnt", "partition"]),
    ]);

    assert_eq!(expected, actual);
}

#[test]
fn should_add_files_from_str_list() {
    let input = [
        "/etc/fine/shoes/make.txt",
        "/etc/fine/shoes/blue.png",
        "/mnt/partition/fourteen.one",
    ];

    let mut actual = DummyDBFS::new();
    add_files_to_db(&mut actual, file_list_from_iter_str(input));

    let expected: HashSet<File> = HashSet::from([
        File::new_cloned("make.txt", &["etc", "fine", "shoes"]),
        File::new_cloned("blue.png", &["etc", "fine", "shoes"]),
        File::new_cloned("fourteen.one", &["mnt", "partition"]),
    ]);

    assert_eq!(expected, actual.files);
}
