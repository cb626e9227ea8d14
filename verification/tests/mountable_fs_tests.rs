use std::collections::BTreeMap;
use virtual_fs::error::ErrorKind;
use virtual_fs::file::{File, Metadata};
use virtual_fs::memory_fs::MemoryFS;
use virtual_fs::mountable_fs::MountableFS;
use virtual_fs::FileSystem;

const TEST_PATHS: [&str; 4] = [
    "test/abc",
    "/test/abc",
    "./test//abc",
    "//test\\def//../abc",
];

fn read_directory(fs: &MountableFS<MemoryFS>, dir: &str) -> BTreeMap<String, Metadata> {
    fs.read_dir(dir)
        .unwrap()
        .into_iter()
        .map(|entry| (entry.path, entry.metadata))
        .collect()
}

#[test]
fn mount() {
    for mount_point in TEST_PATHS {
        let mut fs = MountableFS::default();
        assert!(!fs.path_exists("test/abc").unwrap());

        fs.mount(mount_point, MemoryFS::new()).unwrap();
        assert!(fs.path_exists("test/abc").unwrap());
    }
}

#[test]
fn double_mount() {
    for mount_point in TEST_PATHS {
        let mut fs = MountableFS::default();
        fs.mount(mount_point, MemoryFS::new()).unwrap();
        assert!(fs.mount(mount_point, MemoryFS::new()).is_err())
    }
}

fn mounted_fs() -> MountableFS<MemoryFS> {
    let mut fs = MountableFS::default();

    let mut memory_fs = MemoryFS::default();
    let mut file = memory_fs.create_file("abc").unwrap();
    file.write(b"file").unwrap();
    memory_fs.persist("abc", &file).unwrap();
    memory_fs.create_dir_all("folder/and/it").unwrap();
    fs.mount("test", memory_fs).unwrap();

    fs
}

#[test]
fn mountable_fs_metadata() {
    let fs = mounted_fs();

    for path in TEST_PATHS {
        assert_eq!(fs.metadata(path).unwrap(), Metadata::file(4));
    }

    assert_eq!(fs.metadata("test/folder").unwrap(), Metadata::directory());
}

#[test]
fn mountable_fs_open_file() {
    let mut fs = mounted_fs();

    for path in TEST_PATHS {
        assert_eq!(
            fs.open_file(path).unwrap().read_into_string().unwrap(),
            "file"
        );
    }

    assert!(fs.open_file("folder").is_err());
}

#[test]
fn mountable_fs_read_dir() {
    let fs = mounted_fs();

    for path in ["/", "//", "", ".", "./", "test/something/else/../../../"] {
        let dir = read_directory(&fs, path);
        itertools::assert_equal(dir.keys(), vec!["test"]);
        itertools::assert_equal(dir.values(), vec![&Metadata::directory()])
    }

    for path in ["/test", "./test/", "\\test/\\", "test/../test//"] {
        let dir = read_directory(&fs, path);
        itertools::assert_equal(dir.keys(), vec!["abc", "folder"]);
        itertools::assert_equal(
            dir.values(),
            vec![&Metadata::file(4), &Metadata::directory()],
        )
    }
}

#[test]
fn mountable_fs_exists() {
    let fs = mounted_fs();

    for path in ["/", "//", "", ".", "./", "test/something/else/../../../"] {
        assert!(fs.path_exists(path).unwrap());
    }

    for path in TEST_PATHS {
        assert!(fs.path_exists(path).unwrap());
    }

    assert!(!fs.path_exists("nonsense").unwrap());
    assert!(!fs.path_exists("test/nonsense").unwrap());
    assert!(fs.path_exists("test/folder").unwrap());
    assert!(fs.path_exists("test/folder/and/").unwrap());
}

#[test]
fn mount_routing() {
    let mut fs = mounted_fs();
    assert_eq!(fs.metadata("test").unwrap(), Metadata::directory());
    assert_eq!(fs.metadata("test/abc").unwrap(), Metadata::file(4));
    assert_eq!(
        fs.create_dir("root_dir").unwrap_err().kind(),
        ErrorKind::Unsupported
    );
    assert_eq!(
        fs.mount("test", MemoryFS::new()).unwrap_err().kind(),
        ErrorKind::AlreadyExists
    );
}

#[test]
fn mount_reports_each_failure() {
    let mut fs = mounted_fs();
    for root in ["", "/", ".", "a/.."] {
        assert_eq!(
            fs.mount(root, MemoryFS::new()).unwrap_err().kind(),
            ErrorKind::InvalidInput
        );
    }
    // a mounted filesystem stands in the way
    assert_eq!(
        fs.mount("test/below/it", MemoryFS::new()).unwrap_err().kind(),
        ErrorKind::NotFound
    );
    // the directories above a mount point are created
    fs.mount("deep/down/here", MemoryFS::new()).unwrap();
    assert_eq!(fs.metadata("deep/down").unwrap(), Metadata::directory());
    assert_eq!(fs.metadata("deep/down/here").unwrap(), Metadata::directory());
    assert_eq!(
        fs.mount("deep/down", MemoryFS::new()).unwrap_err().kind(),
        ErrorKind::AlreadyExists
    );
    let dir = read_directory(&fs, "deep");
    itertools::assert_equal(dir.keys(), vec!["down"]);
}

#[test]
fn the_composite_itself_is_read_only() {
    let mut fs = mounted_fs();
    assert_eq!(
        fs.remove_dir("test").unwrap_err().kind(),
        ErrorKind::Unsupported
    );
    assert_eq!(
        fs.remove_file("test/abc").unwrap_err().kind(),
        ErrorKind::Unsupported
    );
    assert_eq!(
        fs.create_dir_all("a/b").unwrap_err().kind(),
        ErrorKind::Unsupported
    );
    // a directory of the tree cannot be opened
    fs.mount("dir/inner", MemoryFS::new()).unwrap();
    assert_eq!(fs.open_file("dir").unwrap_err().kind(), ErrorKind::NotFound);
    assert_eq!(fs.open_file("absent").unwrap_err().kind(), ErrorKind::NotFound);
}
