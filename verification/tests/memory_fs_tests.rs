use std::collections::BTreeMap;
use virtual_fs::error::ErrorKind;
use virtual_fs::file::{File, FileType, Metadata, OpenOptions};
use virtual_fs::memory_fs::MemoryFS;
use virtual_fs::FileSystem;

/// Creates the file, writes the bytes through its handle and stores the handle.
fn write_file(fs: &mut MemoryFS, path: &str, contents: &str) {
    let mut file = fs.create_file(path).unwrap();
    assert_eq!(file.write(contents.as_bytes()).unwrap(), contents.len());
    fs.persist(path, &file).unwrap();
}

fn memory_fs() -> MemoryFS {
    let mut fs = MemoryFS::default();

    write_file(&mut fs, "file", "something interesting");
    fs.create_dir_all("folder/and/it/goes/deeper").unwrap();
    write_file(&mut fs, "folder/and/it/goes/desc", "goes");

    fs
}

fn read_directory(fs: &MemoryFS, dir: &str) -> BTreeMap<String, Metadata> {
    fs.read_dir(dir)
        .unwrap()
        .into_iter()
        .map(|entry| (entry.path, entry.metadata))
        .collect()
}

#[test]
fn create_file() {
    memory_fs();
}

#[test]
fn mod_metadata() {
    let fs = memory_fs();

    // basic file
    for name in ["file", "/file", "./file", "test/../file"] {
        let md = fs.metadata(name).unwrap();
        assert_eq!(md.file_type, FileType::File);
        assert_eq!(md.len, 21);
    }

    // basic folder
    for name in ["folder", "/folder", "./folder", "test/../folder"] {
        let md = fs.metadata(name).unwrap();
        assert_eq!(md.file_type, FileType::Directory);
        assert_eq!(md.len, 0);
    }

    // nested file
    for name in [
        "folder/and/it/goes/desc",
        "/folder/and/it/goes/desc",
        "./folder/and/it/goes/desc",
        "test/../folder/and/it/goes/desc",
    ] {
        let md = fs.metadata(name).unwrap();
        assert_eq!(md.file_type, FileType::File);
        assert_eq!(md.len, 4);
    }
}

#[test]
fn mod_read_dir() {
    let fs = memory_fs();

    // simple
    for name in ["", "/", "./", "//", "\\"] {
        let files = read_directory(&fs, name);
        itertools::assert_equal(files.keys(), vec!["file", "folder"]);
        itertools::assert_equal(
            files.values(),
            vec![&Metadata::file(21), &Metadata::directory()],
        )
    }

    // nested
    for name in [
        "folder/and/it/goes",
        "/folder/and/it/goes",
        "./folder/and/it/goes/",
        "///folder/and/it/goes///",
        "\\folder\\and\\it\\goes\\",
    ] {
        let files = read_directory(&fs, name);
        itertools::assert_equal(files.keys(), vec!["deeper", "desc"]);
        itertools::assert_equal(
            files.values(),
            vec![&Metadata::directory(), &Metadata::file(4)],
        )
    }

    // traversal
    for name in [
        "folder/and/../..",
        "./folder/and/../..",
        ".//folder/and//../..",
        "\\folder//../folder/and/../..",
    ] {
        let files = read_directory(&fs, name);
        itertools::assert_equal(files.keys(), vec!["file", "folder"]);
        itertools::assert_equal(
            files.values(),
            vec![&Metadata::file(21), &Metadata::directory()],
        )
    }
}

#[test]
fn remove_dir() {
    let mut fs = memory_fs();

    assert!(fs.path_exists("folder/and/it/goes").unwrap());
    fs.remove_dir("folder/and/it").unwrap();
    assert!(!fs.path_exists("folder/and/it/goes").unwrap());
    assert!(!fs.path_exists("/folder/and/it").unwrap());
    assert!(!fs.path_exists("/folder/and/it/goes/desc").unwrap());
}

#[test]
fn remove_file() {
    let mut fs = memory_fs();

    assert!(fs.path_exists("folder/and/it/goes/desc").unwrap());
    fs.remove_file("folder/and/it/goes/desc").unwrap();
    assert!(fs.path_exists("folder/and/it/goes/deeper").unwrap());
    assert!(!fs.path_exists("folder/and/it/goes/desc").unwrap());
}

#[test]
fn memory_round_trip() {
    let mut fs = MemoryFS::new();
    fs.create_dir_all("folder/and/it/goes/deeper").unwrap();
    write_file(&mut fs, "folder/and/it/goes/desc", "goes");

    assert_eq!(
        fs.metadata("test/../folder/and/it/goes/desc").unwrap(),
        Metadata::file(4)
    );
    let listing = read_directory(&fs, "folder/and/it/goes");
    itertools::assert_equal(listing.keys(), vec!["deeper", "desc"]);
    itertools::assert_equal(
        listing.values(),
        vec![&Metadata::directory(), &Metadata::file(4)],
    );
}

#[test]
fn written_bytes_are_read_back() {
    let mut fs = MemoryFS::new();
    write_file(&mut fs, "notes", "what was written");
    let mut file = fs.open_file("notes").unwrap();
    assert_eq!(file.read_into_vec().unwrap(), b"what was written");
    assert_eq!(file.read_into_vec().unwrap(), b"");
    let mut again = fs.open_file("/./notes").unwrap();
    assert_eq!(again.read_into_string().unwrap(), "what was written");
}

#[test]
fn the_root_always_exists() {
    let fs = MemoryFS::new();
    for root in ["", ".", "/", "a/.."] {
        assert!(fs.path_exists(root).unwrap());
        assert_eq!(fs.metadata(root).unwrap(), Metadata::directory());
        assert!(fs.read_dir(root).unwrap().is_empty());
    }
}

#[test]
fn create_dir_all_creates_every_parent() {
    let mut fs = MemoryFS::new();
    fs.create_dir_all("a/b/c").unwrap();
    assert!(fs.path_exists("a").unwrap());
    assert!(fs.path_exists("a/b").unwrap());
    assert!(fs.path_exists("a/b/c").unwrap());
    assert_eq!(fs.metadata("a/b").unwrap(), Metadata::directory());
    // once more changes nothing
    fs.create_dir_all("a/b/c").unwrap();
    assert_eq!(fs.read_dir("a").unwrap().len(), 1);
}

#[test]
fn create_dir_all_stops_at_a_file() {
    let mut fs = MemoryFS::new();
    fs.create_dir_all("a").unwrap();
    write_file(&mut fs, "a/file", "x");
    let err = fs.create_dir_all("a/new/../file/below").unwrap_err();
    assert_eq!(err.kind(), ErrorKind::NotFound);
    let err = fs.create_dir_all("b/c/../../a/file/below").unwrap_err();
    assert_eq!(err.kind(), ErrorKind::NotFound);
    assert!(!fs.path_exists("b").unwrap());
    let err = fs.create_dir_all("a/file").unwrap_err();
    assert_eq!(err.kind(), ErrorKind::NotFound);
}

#[test]
fn create_dir_reports_each_failure() {
    let mut fs = MemoryFS::new();
    assert!(fs.create_dir("a").is_ok());
    assert_eq!(fs.metadata("a").unwrap(), Metadata::directory());
    assert_eq!(
        fs.create_dir("a").unwrap_err().kind(),
        ErrorKind::AlreadyExists
    );
    assert_eq!(fs.create_dir("b/c").unwrap_err().kind(), ErrorKind::NotFound);
    assert_eq!(fs.create_dir("").unwrap_err().kind(), ErrorKind::InvalidInput);
    write_file(&mut fs, "file", "x");
    assert_eq!(
        fs.create_dir("file/below").unwrap_err().kind(),
        ErrorKind::NotFound
    );
    assert_eq!(
        fs.create_dir("file").unwrap_err().kind(),
        ErrorKind::AlreadyExists
    );
}

#[test]
fn open_reports_each_failure() {
    let mut fs = memory_fs();
    assert_eq!(fs.open_file("folder").unwrap_err().kind(), ErrorKind::NotFound);
    assert_eq!(fs.open_file("absent").unwrap_err().kind(), ErrorKind::NotFound);
    assert_eq!(
        fs.open_file("absent/file").unwrap_err().kind(),
        ErrorKind::NotFound
    );
    assert_eq!(fs.open_file("/").unwrap_err().kind(), ErrorKind::InvalidInput);
    assert_eq!(
        fs.metadata("file/below").unwrap_err().kind(),
        ErrorKind::NotFound
    );
    assert_eq!(fs.read_dir("file").unwrap_err().kind(), ErrorKind::NotFound);
    assert_eq!(fs.read_dir("absent").unwrap_err().kind(), ErrorKind::NotFound);
}

#[test]
fn open_options_decide_the_handle() {
    let mut fs = memory_fs();

    // read-only by default: the handle reads and does not write
    let mut file = fs.open_file("file").unwrap();
    assert_eq!(file.write(b"x").unwrap_err().kind(), ErrorKind::Unsupported);
    assert_eq!(file.flush().unwrap_err().kind(), ErrorKind::Unsupported);
    assert_eq!(file.read_into_string().unwrap(), "something interesting");

    // write-only: the handle writes and does not read
    let options = OpenOptions::default().read(false).write(true);
    let mut file = fs.open_file_options("file", &options).unwrap();
    let mut buf = [0u8; 4];
    assert_eq!(file.read(&mut buf).unwrap_err().kind(), ErrorKind::Unsupported);
    assert_eq!(file.write(b"SOME").unwrap(), 4);
    assert!(file.flush().is_ok());
    fs.persist("file", &file).unwrap();
    let mut file = fs.open_file("file").unwrap();
    assert_eq!(file.read_into_string().unwrap(), "SOMEthing interesting");

    // truncation clears what is stored
    let options = OpenOptions::default().truncate(true);
    let file = fs.open_file_options("file", &options).unwrap();
    assert_eq!(file.metadata().unwrap(), Metadata::file(0));
    assert_eq!(fs.metadata("file").unwrap(), Metadata::file(0));

    // creation
    let options = OpenOptions::default().create(true);
    assert!(fs.open_file_options("new", &options).is_ok());
    assert_eq!(fs.metadata("new").unwrap(), Metadata::file(0));
}

#[test]
fn persist_reports_each_failure() {
    let mut fs = memory_fs();
    let reader = fs.open_file("file").unwrap();
    assert_eq!(
        fs.persist("file", &reader).unwrap_err().kind(),
        ErrorKind::Unsupported
    );
    let writer = fs.create_file("other").unwrap();
    assert_eq!(
        fs.persist("folder", &writer).unwrap_err().kind(),
        ErrorKind::NotFound
    );
    assert_eq!(
        fs.persist("absent", &writer).unwrap_err().kind(),
        ErrorKind::NotFound
    );
    assert_eq!(
        fs.persist("", &writer).unwrap_err().kind(),
        ErrorKind::InvalidInput
    );
}

#[test]
fn remove_reports_each_failure() {
    let mut fs = memory_fs();
    assert_eq!(fs.remove_dir("file").unwrap_err().kind(), ErrorKind::NotFound);
    assert_eq!(fs.remove_file("folder").unwrap_err().kind(), ErrorKind::NotFound);
    assert_eq!(fs.remove_file("absent").unwrap_err().kind(), ErrorKind::NotFound);
    assert_eq!(fs.remove_dir("").unwrap_err().kind(), ErrorKind::InvalidInput);
    assert_eq!(fs.remove_file("/").unwrap_err().kind(), ErrorKind::InvalidInput);
    // nothing was removed
    assert!(fs.path_exists("file").unwrap());
    assert!(fs.path_exists("folder/and/it/goes/desc").unwrap());
}

#[test]
fn a_path_and_its_normal_form_give_the_same_outcome() {
    let mut fs = memory_fs();
    for (path, normal) in [
        ("//folder\\and/./it/../it", "folder/and/it"),
        ("../../file", "file"),
        ("folder/../absent", "absent"),
    ] {
        assert_eq!(fs.metadata(path), fs.metadata(normal));
        assert_eq!(fs.path_exists(path), fs.path_exists(normal));
        assert_eq!(
            fs.read_dir(path).map(|l| l.len()).map_err(|e| e.kind()),
            fs.read_dir(normal).map(|l| l.len()).map_err(|e| e.kind())
        );
    }
    fs.create_dir("/./folder/new/").unwrap();
    assert!(fs.path_exists("folder/new").unwrap());
    fs.remove_dir("\\folder\\x\\..\\new").unwrap();
    assert!(!fs.path_exists("folder/new").unwrap());
}
