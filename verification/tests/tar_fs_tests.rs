use std::io::Cursor;
use tar::{Builder, EntryType, Header};
use virtual_fs::error::ErrorKind;
use virtual_fs::file::{File, Metadata, OpenOptions};
use virtual_fs::memory_fs::MemoryFS;
use virtual_fs::tar_fs::{FileSystemFilter, IncludeAll, TarEntry, TarFS};
use virtual_fs::FileSystem;

/// A tarball of the given entries; a name that ends with a slash is a directory.
fn tarball(entries: &[(&str, &str)]) -> Vec<u8> {
    let mut builder = Builder::new(Vec::new());
    for (name, contents) in entries {
        let mut header = Header::new_gnu();
        if name.ends_with('/') {
            header.set_entry_type(EntryType::Directory);
            header.set_size(0);
        } else {
            header.set_entry_type(EntryType::Regular);
            header.set_size(contents.len() as u64);
        }
        header.set_mode(0o644);
        builder
            .append_data(&mut header, name, Cursor::new(contents.as_bytes()))
            .unwrap();
    }
    builder.into_inner().unwrap()
}

/// Keeps out every path below `skip/`.
struct WithoutSkip;

impl FileSystemFilter for WithoutSkip {
    fn should_include(&self, path: &str) -> bool {
        !path.starts_with("skip/")
    }
}

#[test]
fn bad_archive() {
    let bad_archive = TarFS::new(b"abcd".to_vec());
    assert!(bad_archive.is_err());
}

#[test]
fn single_file_empty() {
    let mut archive = TarFS::new(tarball(&[("empty", "")])).unwrap();

    let files = archive.read_dir("").unwrap();
    assert_eq!(files.len(), 1);

    let mut empty_file = archive.open_file("/empty").unwrap();
    let file_contents = empty_file.read_into_vec().unwrap();
    assert_eq!(file_contents.len(), 0);
}

#[test]
fn single_file_not_empty() {
    let mut archive = TarFS::new(tarball(&[("not_empty", "something interesting\n")])).unwrap();

    let files = archive.read_dir("").unwrap();
    assert_eq!(files.len(), 1);

    let mut file = archive.open_file("/not_empty").unwrap();
    let file_contents = file.read_into_string().unwrap();
    assert_eq!(file_contents, "something interesting\n");
}

#[test]
fn deep_fs() {
    let mut archive = TarFS::new(tarball(&[
        ("file", "Lorem ipsum"),
        ("folder/", ""),
        ("folder/desc", "folder\n"),
        ("folder/and/", ""),
        ("folder/and/it/", ""),
        ("folder/and/it/desc", "it\n"),
    ]))
    .unwrap();

    let files = archive.read_dir("folder").unwrap();
    assert_eq!(files.len(), 2);

    let mut file = archive.open_file("/folder/and/it/desc").unwrap();
    let file_contents = file.read_into_string().unwrap();
    assert_eq!(file_contents, "it\n");
}

#[test]
fn tar_filter() {
    let bytes = tarball(&[
        ("a.txt", "a"),
        ("skip/me.txt", "skipped"),
        ("deep/path/file.txt", "deep"),
    ]);
    let mut fs = TarFS::new_filtered(bytes.clone(), WithoutSkip).unwrap();

    assert!(fs.path_exists("a.txt").unwrap());
    assert!(fs.path_exists("deep/path/file.txt").unwrap());
    assert!(fs.path_exists("deep/path").unwrap());
    assert!(!fs.path_exists("skip").unwrap());
    assert!(!fs.path_exists("skip/me.txt").unwrap());
    assert_eq!(fs.metadata("deep/path/file.txt").unwrap(), Metadata::file(4));
    assert_eq!(fs.metadata("deep").unwrap(), Metadata::directory());

    // any subsequent write operation returns `Unsupported`
    assert_eq!(fs.create_dir("x").unwrap_err().kind(), ErrorKind::Unsupported);
    assert_eq!(fs.create_dir_all("x/y").unwrap_err().kind(), ErrorKind::Unsupported);
    assert_eq!(fs.remove_dir("deep").unwrap_err().kind(), ErrorKind::Unsupported);
    assert_eq!(fs.remove_file("a.txt").unwrap_err().kind(), ErrorKind::Unsupported);
    assert_eq!(fs.create_file("b.txt").unwrap_err().kind(), ErrorKind::Unsupported);
    for options in [
        OpenOptions::default().write(true),
        OpenOptions::default().append(true),
        OpenOptions::default().truncate(true),
        OpenOptions::default().create(true),
    ] {
        assert_eq!(
            fs.open_file_options("a.txt", &options).unwrap_err().kind(),
            ErrorKind::Unsupported
        );
    }
    assert_eq!(fs.open_file("a.txt").unwrap().read_into_string().unwrap(), "a");

    // without a filter everything is kept
    let fs = TarFS::new(bytes).unwrap();
    assert!(fs.path_exists("skip/me.txt").unwrap());
}

#[test]
fn entries_are_added_in_order() {
    let entries = vec![
        Ok(TarEntry {
            regular: false,
            path: Ok("dir/".to_owned()),
            contents: Ok(vec![]),
        }),
        Ok(TarEntry {
            regular: true,
            path: Ok("dir/one".to_owned()),
            contents: Ok(b"1".to_vec()),
        }),
        Ok(TarEntry {
            regular: true,
            path: Ok("dir/one".to_owned()),
            contents: Ok(b"second".to_vec()),
        }),
        Ok(TarEntry {
            regular: true,
            path: Ok("dir/one/below".to_owned()),
            contents: Ok(b"blocked".to_vec()),
        }),
        Ok(TarEntry {
            regular: true,
            path: Ok("never".to_owned()),
            contents: Ok(b"x".to_vec()),
        }),
    ];
    // a file stands in the way of the fourth entry
    assert_eq!(
        TarFS::build_fs(&entries, &IncludeAll {}).unwrap_err().kind(),
        ErrorKind::NotFound
    );
    let fs = TarFS::build_fs(&entries[..3].to_vec_lossless(), &IncludeAll {}).unwrap();
    assert_eq!(fs.metadata("dir/one").unwrap(), Metadata::file(6));
    assert_eq!(fs.metadata("dir").unwrap(), Metadata::directory());
}

/// Copies entries, which hold no failure here.
trait Lossless {
    fn to_vec_lossless(&self) -> Vec<Result<TarEntry, virtual_fs::error::Error>>;
}

impl Lossless for [Result<TarEntry, virtual_fs::error::Error>] {
    fn to_vec_lossless(&self) -> Vec<Result<TarEntry, virtual_fs::error::Error>> {
        self.iter()
            .map(|entry| match entry {
                Ok(entry) => Ok(TarEntry {
                    regular: entry.regular,
                    path: entry.path.clone(),
                    contents: entry.contents.clone(),
                }),
                Err(e) => Err(*e),
            })
            .collect()
    }
}

#[test]
fn failures_of_entries_end_the_build() {
    let unreadable = virtual_fs::error::Error::new(ErrorKind::InvalidData);
    let denied = virtual_fs::error::Error::new(ErrorKind::PermissionDenied);

    let entries = vec![Err(unreadable)];
    assert_eq!(
        TarFS::build_fs(&entries, &IncludeAll {}).unwrap_err().kind(),
        ErrorKind::InvalidData
    );

    // the path of an entry that is no regular file is not looked at
    let entries = vec![Ok(TarEntry {
        regular: false,
        path: Err(denied),
        contents: Err(unreadable),
    })];
    assert!(TarFS::build_fs(&entries, &IncludeAll {}).is_ok());

    let entries = vec![Ok(TarEntry {
        regular: true,
        path: Err(denied),
        contents: Ok(vec![]),
    })];
    assert_eq!(
        TarFS::build_fs(&entries, &IncludeAll {}).unwrap_err().kind(),
        ErrorKind::PermissionDenied
    );

    // the bytes of an entry that the filter keeps out are not looked at
    let entries = vec![Ok(TarEntry {
        regular: true,
        path: Ok("skip/x".to_owned()),
        contents: Err(unreadable),
    })];
    assert!(TarFS::build_fs(&entries, &WithoutSkip).is_ok());
    assert_eq!(
        TarFS::build_fs(&entries, &IncludeAll {}).unwrap_err().kind(),
        ErrorKind::InvalidData
    );
}

#[test]
fn add_file_creates_what_is_missing_above() {
    let mut fs = MemoryFS::new();
    TarFS::add_file(&mut fs, "a/b/c.txt", &Ok(b"abc".to_vec())).unwrap();
    assert_eq!(fs.metadata("a").unwrap(), Metadata::directory());
    assert_eq!(fs.metadata("a/b").unwrap(), Metadata::directory());
    assert_eq!(fs.metadata("a/b/c.txt").unwrap(), Metadata::file(3));
    assert_eq!(
        fs.open_file("a/b/c.txt").unwrap().read_into_vec().unwrap(),
        b"abc"
    );

    // a directory cannot take a file, nor can the root
    assert_eq!(
        TarFS::add_file(&mut fs, "a/b", &Ok(vec![])).unwrap_err().kind(),
        ErrorKind::NotFound
    );
    assert_eq!(
        TarFS::add_file(&mut fs, "/", &Ok(vec![])).unwrap_err().kind(),
        ErrorKind::InvalidInput
    );
    // the directories are created before the bytes are looked at
    let failed = Err(virtual_fs::error::Error::new(ErrorKind::Other));
    assert_eq!(
        TarFS::add_file(&mut fs, "x/y/z", &failed).unwrap_err().kind(),
        ErrorKind::Other
    );
    assert_eq!(fs.metadata("x/y").unwrap(), Metadata::directory());
    assert!(!fs.path_exists("x/y/z").unwrap());
}
