use std::collections::BTreeMap;
use virtual_fs::error::{Error, ErrorKind};
use virtual_fs::file::{DirEntry, File, Metadata, OpenOptions};
use virtual_fs::memory_fs::file::FileHandle;
use virtual_fs::memory_fs::MemoryFS;
use virtual_fs::roc_fs::RocFS;
use virtual_fs::FileSystem;

/// A layer: a folder that holds files, or a folder that is not there, or one that fails.
enum Layer {
    Folder(MemoryFS),
    Missing,
    Broken,
}

impl Layer {
    fn failure(&self) -> Error {
        match self {
            Layer::Broken => Error::new(ErrorKind::PermissionDenied),
            _ => Error::new(ErrorKind::NotFound),
        }
    }
}

impl FileSystem for Layer {
    type File = FileHandle;

    fn create_dir(&mut self, path: &str) -> Result<(), Error> {
        match self {
            Layer::Folder(fs) => fs.create_dir(path),
            _ => Err(self.failure()),
        }
    }

    fn metadata(&self, path: &str) -> Result<Metadata, Error> {
        match self {
            Layer::Folder(fs) => fs.metadata(path),
            _ => Err(self.failure()),
        }
    }

    fn open_file_options(&mut self, path: &str, options: &OpenOptions) -> Result<FileHandle, Error> {
        match self {
            Layer::Folder(fs) => fs.open_file_options(path, options),
            _ => Err(self.failure()),
        }
    }

    fn read_dir(&self, path: &str) -> Result<Vec<DirEntry>, Error> {
        match self {
            Layer::Folder(fs) => fs.read_dir(path),
            _ => Err(self.failure()),
        }
    }

    fn remove_dir(&mut self, path: &str) -> Result<(), Error> {
        match self {
            Layer::Folder(fs) => fs.remove_dir(path),
            _ => Err(self.failure()),
        }
    }

    fn remove_file(&mut self, path: &str) -> Result<(), Error> {
        match self {
            Layer::Folder(fs) => fs.remove_file(path),
            _ => Err(self.failure()),
        }
    }

    fn create_dir_all(&mut self, path: &str) -> Result<(), Error> {
        match self {
            Layer::Folder(fs) => fs.create_dir_all(path),
            _ => Err(self.failure()),
        }
    }
}

fn folder(files: &[(&str, &str)]) -> Layer {
    let mut fs = MemoryFS::new();
    for (name, contents) in files {
        let mut file = fs.create_file(name).unwrap();
        file.write(contents.as_bytes()).unwrap();
        fs.persist(name, &file).unwrap();
    }
    Layer::Folder(fs)
}

/// The folder `test/folder_a`: one file of six bytes.
fn folder_a() -> Layer {
    folder(&[("file_a", "file a")])
}

/// The folder `test/folder_b`: one file of six bytes.
fn folder_b() -> Layer {
    folder(&[("file_b", "file b")])
}

fn read_directory(fs: &RocFS<Layer>, dir: &str) -> BTreeMap<String, Metadata> {
    fs.read_dir(dir)
        .unwrap()
        .into_iter()
        .map(|entry| (entry.path, entry.metadata))
        .collect()
}

#[test]
fn read_dir_happy_case() {
    let roc_fs = RocFS::new(vec![folder_a(), folder_b()]);
    let root = read_directory(&roc_fs, "/");

    itertools::assert_equal(root.keys(), vec!["file_a", "file_b"]);
    itertools::assert_equal(root.values(), vec![&Metadata::file(6), &Metadata::file(6)])
}

#[test]
fn read_dir_missing_folder() {
    let roc_fs = RocFS::new(vec![folder_a(), Layer::Missing]);
    let root = read_directory(&roc_fs, "/");

    itertools::assert_equal(root.keys(), vec!["file_a"]);
    itertools::assert_equal(root.values(), vec![&Metadata::file(6)])
}

#[test]
fn read_dir_missing_folders() {
    let roc_fs = RocFS::new(vec![Layer::Missing, Layer::Missing]);
    let root = read_directory(&roc_fs, "/");

    assert!(root.is_empty());
}

#[test]
fn open_file_happy_case() {
    let mut roc_fs = RocFS::new(vec![folder_a(), folder_b()]);

    let file_a = roc_fs
        .open_file("/file_a")
        .unwrap()
        .read_into_string()
        .unwrap();

    let file_b = roc_fs
        .open_file("/file_b")
        .unwrap()
        .read_into_string()
        .unwrap();

    assert_eq!(file_a, "file a");
    assert_eq!(file_b, "file b");
}

#[test]
fn open_file_not_found() {
    let mut roc_fs: RocFS<Layer> = RocFS::new(vec![]);

    let open_res = roc_fs.open_file("abc");

    assert!(open_res.is_err());
    assert_eq!(open_res.err().unwrap().kind(), ErrorKind::NotFound);
}

#[test]
fn union_first_match() {
    let layer_a = folder(&[("file_a", "from a")]);
    let layer_b = folder(&[("file_a", "from layer b"), ("file_b", "only in b")]);
    let mut roc_fs = RocFS::new(vec![layer_a, layer_b]);

    assert_eq!(
        roc_fs.open_file("file_a").unwrap().read_into_string().unwrap(),
        "from a"
    );
    assert_eq!(
        roc_fs.open_file("file_b").unwrap().read_into_string().unwrap(),
        "only in b"
    );
    assert_eq!(roc_fs.metadata("file_a").unwrap(), Metadata::file(6));
    assert_eq!(roc_fs.metadata("file_b").unwrap(), Metadata::file(9));

    // duplicates surface in the order of the layers
    let listing: Vec<(String, Metadata)> = roc_fs
        .read_dir("/")
        .unwrap()
        .into_iter()
        .map(|entry| (entry.path, entry.metadata))
        .collect();
    assert_eq!(
        listing,
        vec![
            ("file_a".to_owned(), Metadata::file(6)),
            ("file_a".to_owned(), Metadata::file(12)),
            ("file_b".to_owned(), Metadata::file(9)),
        ]
    );
}

#[test]
fn the_first_other_failure_is_the_answer() {
    let mut roc_fs = RocFS::new(vec![Layer::Missing, Layer::Broken, folder_a()]);
    assert_eq!(
        roc_fs.metadata("file_a").unwrap_err().kind(),
        ErrorKind::PermissionDenied
    );
    assert_eq!(
        roc_fs.open_file("file_a").unwrap_err().kind(),
        ErrorKind::PermissionDenied
    );
    assert_eq!(
        roc_fs.read_dir("").unwrap_err().kind(),
        ErrorKind::PermissionDenied
    );
    assert_eq!(
        roc_fs.path_exists("file_a").unwrap_err().kind(),
        ErrorKind::PermissionDenied
    );

    let roc_fs = RocFS::new(vec![Layer::Missing, folder_a(), Layer::Broken]);
    assert_eq!(roc_fs.metadata("file_a").unwrap(), Metadata::file(6));
    assert!(roc_fs.path_exists("file_a").unwrap());
    assert_eq!(
        roc_fs.metadata("absent").unwrap_err().kind(),
        ErrorKind::PermissionDenied
    );
}

#[test]
fn the_union_is_read_only() {
    let mut roc_fs = RocFS::new(vec![folder_a()]);
    assert_eq!(roc_fs.create_dir("x").unwrap_err().kind(), ErrorKind::Unsupported);
    assert_eq!(
        roc_fs.create_dir_all("x/y").unwrap_err().kind(),
        ErrorKind::Unsupported
    );
    assert_eq!(roc_fs.remove_dir("x").unwrap_err().kind(), ErrorKind::Unsupported);
    assert_eq!(
        roc_fs.remove_file("file_a").unwrap_err().kind(),
        ErrorKind::Unsupported
    );
    assert!(roc_fs.path_exists("file_a").unwrap());
    assert!(!roc_fs.path_exists("absent").unwrap());
}
