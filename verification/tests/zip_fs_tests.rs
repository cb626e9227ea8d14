use std::collections::BTreeMap;
use std::io::{Cursor, Write};
use virtual_fs::error::ErrorKind;
use virtual_fs::file::{File, FileType, Metadata, OpenOptions, SeekFrom};
use virtual_fs::zip_fs::{ZipFS, ZipFailure};
use virtual_fs::FileSystem;
use zip::write::FileOptions;
use zip::{CompressionMethod, ZipWriter};

/// The text of the entry `file`: 2571 bytes.
fn lorem() -> String {
    let mut text = String::new();
    while text.len() < 2571 {
        text.push_str("Lorem ipsum dolor sit amet, consectetur adipiscing elit. ");
    }
    text.truncate(2571);
    text
}

/// An archive of the given entries; a name that ends with a slash is a directory.
fn archive(entries: &[(&str, &str)], method: CompressionMethod) -> Vec<u8> {
    let mut writer = ZipWriter::new(Cursor::new(Vec::new()));
    let options = FileOptions::default().compression_method(method);
    for (name, contents) in entries {
        if name.ends_with('/') {
            writer.add_directory(*name, options).unwrap();
        } else {
            writer.start_file(*name, options).unwrap();
            writer.write_all(contents.as_bytes()).unwrap();
        }
    }
    writer.finish().unwrap().into_inner()
}

/// The archive of the deep filesystem, with its directories as entries of their own.
fn deep_fs() -> Vec<u8> {
    let text = lorem();
    archive(
        &[
            ("file", &text),
            ("folder/", ""),
            ("folder/and/", ""),
            ("folder/and/it/", ""),
            ("folder/and/it/desc", "it\n"),
            ("folder/and/it/goes/", ""),
            ("folder/and/it/goes/desc", "goes\n"),
            ("folder/and/it/goes/deeper/", ""),
            ("folder/and/it/goes/deeper/desc", "deeper\n"),
        ],
        CompressionMethod::Deflated,
    )
}

fn read_directory(fs: &ZipFS, path: &str) -> Result<BTreeMap<String, Metadata>, ErrorKind> {
    Ok(fs
        .read_dir(path)
        .map_err(|e| e.kind())?
        .into_iter()
        .map(|entry| (entry.path, entry.metadata))
        .collect::<BTreeMap<_, _>>())
}

fn zip_fs() -> ZipFS {
    ZipFS::new(deep_fs()).unwrap()
}

#[test]
fn zip_fs_read_dir() {
    let fs = zip_fs();

    let root = read_directory(&fs, "").unwrap();
    itertools::assert_equal(root.keys(), vec!["file", "folder"]);
    itertools::assert_equal(
        root.values().map(|md| md.file_type),
        vec![FileType::File, FileType::Directory],
    );
    itertools::assert_equal(root.values().map(|md| md.len), vec![2571, 0]);

    let another_root = read_directory(&fs, ".").unwrap();
    assert_eq!(root, another_root);

    let another_root = read_directory(&fs, "///").unwrap();
    assert_eq!(root, another_root);

    let another_root = read_directory(&fs, "\\").unwrap();
    assert_eq!(root, another_root);

    let another_root = read_directory(&fs, "///test/../").unwrap();
    assert_eq!(root, another_root);

    let deeper_root = read_directory(&fs, "folder/and/it").unwrap();
    itertools::assert_equal(deeper_root.keys(), vec!["desc", "goes"]);

    assert!(read_directory(&fs, "file").is_err());
    assert!(read_directory(&fs, "not_a_real_path").is_err());
}

#[test]
fn zip_fs_open_file() {
    let mut fs = zip_fs();

    let mut file = fs.open_file("file").unwrap();
    let md = file.metadata().unwrap();
    assert_eq!(md.file_type, FileType::File);
    assert_eq!(md.len, 2571);

    let file = file.read_into_string().unwrap();
    assert!(file.starts_with("Lorem ipsum dolor"));

    let indirect_file = fs
        .open_file("///something/..\\file")
        .unwrap()
        .read_into_string()
        .unwrap();
    assert_eq!(indirect_file, file);

    let nested_file = fs
        .open_file("folder/and/it/goes/deeper/desc")
        .unwrap()
        .read_into_string()
        .unwrap();
    assert_eq!(nested_file, "deeper\n")
}

#[test]
fn zip_fs_metadata() {
    let fs = zip_fs();

    let md = fs.metadata("file").unwrap();
    assert_eq!(md.file_type, FileType::File);
    assert_eq!(md.len, 2571);

    let md = fs.metadata("folder").unwrap();
    assert_eq!(md.file_type, FileType::Directory);
    assert_eq!(md.len, 0);

    let md = fs.metadata("folder/and/it/goes/desc").unwrap();
    assert_eq!(md.file_type, FileType::File);
    assert_eq!(md.len, 5);
}

#[test]
fn zip_fs_exists() {
    for fallback_search in [false, true] {
        let fs = ZipFS::with_fallback_search(deep_fs(), fallback_search).unwrap();

        assert!(fs.path_exists("/").unwrap());
        assert!(fs.path_exists("").unwrap());
        assert!(fs.path_exists("file").unwrap());
        assert_eq!(fs.path_exists("FiLe").unwrap(), fallback_search);
        assert!(!fs.path_exists("no_file").unwrap());
        assert!(fs.path_exists("folder").unwrap());
        assert_eq!(fs.path_exists("folDeR").unwrap(), fallback_search);
        assert!(fs.path_exists("folder/and/it").unwrap());
        assert_eq!(fs.path_exists("folder/anD/iT").unwrap(), fallback_search);
        assert!(fs.path_exists("folder/and/it/desc").unwrap());
        assert!(!fs.path_exists("folder/and/it/does/not").unwrap());
        assert!(fs.path_exists("///test/something_else/../../file").unwrap());
        assert_eq!(
            fs.path_exists("///test/something_elsE/../../file").unwrap(),
            true
        );
    }
}

#[test]
fn zip_case_insensitive_open() {
    let bytes = archive(
        &[("file", "the file"), ("folder/and/it/desc", "the description")],
        CompressionMethod::Stored,
    );
    let mut fs = ZipFS::with_fallback_search(bytes.clone(), true).unwrap();
    for (path, exact) in [("FiLe", "file"), ("folder/anD/iT/desc", "folder/and/it/desc")] {
        let found = fs.open_file(path).unwrap().read_into_vec().unwrap();
        let wanted = fs.open_file(exact).unwrap().read_into_vec().unwrap();
        assert_eq!(found, wanted);
        assert_eq!(fs.metadata(path).unwrap(), fs.metadata(exact).unwrap());
    }
    assert_eq!(
        fs.open_file("FiLe").unwrap().read_into_string().unwrap(),
        "the file"
    );

    // without the fallback a path must name an entry exactly
    let mut fs = ZipFS::new(bytes).unwrap();
    assert_eq!(fs.open_file("FiLe").unwrap_err().kind(), ErrorKind::NotFound);
    assert_eq!(fs.metadata("FILE").unwrap_err().kind(), ErrorKind::NotFound);
    assert!(fs.open_file("file").is_ok());
}

#[test]
fn zip_listing_holds_what_the_entries_imply() {
    let bytes = archive(
        &[
            ("b/two", "22"),
            ("a", "1"),
            ("b/one", "1"),
            ("c/d/e/f", "deep"),
            ("b/sub/three", "333"),
            ("empty/", ""),
        ],
        CompressionMethod::Stored,
    );
    let fs = ZipFS::new(bytes).unwrap();

    let root = read_directory(&fs, "/").unwrap();
    itertools::assert_equal(root.keys(), vec!["a", "b", "c", "empty"]);
    itertools::assert_equal(
        root.values(),
        vec![
            &Metadata::file(1),
            &Metadata::directory(),
            &Metadata::directory(),
            &Metadata::file(0),
        ],
    );
    // each name is listed once
    assert_eq!(fs.read_dir("").unwrap().len(), 4);

    let b = read_directory(&fs, "b").unwrap();
    itertools::assert_equal(b.keys(), vec!["one", "sub", "two"]);
    itertools::assert_equal(
        b.values(),
        vec![&Metadata::file(1), &Metadata::directory(), &Metadata::file(2)],
    );
    assert_eq!(fs.read_dir("b").unwrap().len(), 3);

    let d = read_directory(&fs, "c/d").unwrap();
    itertools::assert_equal(d.keys(), vec!["e"]);
    itertools::assert_equal(d.values(), vec![&Metadata::directory()]);

    // the size of every entry is the size that the archive records
    for (name, size) in [("a", 1), ("b/two", 2), ("b/sub/three", 3), ("c/d/e/f", 4)] {
        assert_eq!(fs.metadata(name).unwrap(), Metadata::file(size));
    }
    assert_eq!(read_directory(&fs, "a").unwrap_err(), ErrorKind::NotFound);
    assert_eq!(read_directory(&fs, "empty").unwrap_err(), ErrorKind::NotFound);
}

#[test]
fn zip_is_read_only() {
    let mut fs = zip_fs();
    assert_eq!(fs.create_dir("x").unwrap_err().kind(), ErrorKind::Unsupported);
    assert_eq!(fs.create_dir_all("x/y").unwrap_err().kind(), ErrorKind::Unsupported);
    assert_eq!(fs.remove_dir("folder").unwrap_err().kind(), ErrorKind::Unsupported);
    assert_eq!(fs.remove_file("file").unwrap_err().kind(), ErrorKind::Unsupported);
    for options in [
        OpenOptions::default().write(true),
        OpenOptions::default().read(false),
        OpenOptions::default().create(true),
        OpenOptions::default().append(true),
    ] {
        assert_eq!(
            fs.open_file_options("file", &options).unwrap_err().kind(),
            ErrorKind::Unsupported
        );
    }
    let mut file = fs.open_file("folder/and/it/desc").unwrap();
    assert_eq!(file.write(b"x").unwrap_err().kind(), ErrorKind::Unsupported);
    assert_eq!(file.flush().unwrap_err().kind(), ErrorKind::Unsupported);
    assert_eq!(file.seek(SeekFrom::Start(1)).unwrap(), 1);
    assert_eq!(file.read_into_string().unwrap(), "t\n");
}

#[test]
fn zip_failures_are_classified() {
    assert_eq!(
        ZipFS::new(b"this is no archive".to_vec()).unwrap_err().kind(),
        ErrorKind::InvalidData
    );
    assert!(ZipFS::new(Vec::new()).is_err());
    let fs = zip_fs();
    assert_eq!(fs.metadata("absent").unwrap_err().kind(), ErrorKind::NotFound);

    assert_eq!(
        ZipFS::convert_error::<u8>(Err(ZipFailure::FileNotFound)).unwrap_err().kind(),
        ErrorKind::NotFound
    );
    assert_eq!(
        ZipFS::convert_error::<u8>(Err(ZipFailure::InvalidArchive)).unwrap_err().kind(),
        ErrorKind::InvalidData
    );
    assert_eq!(
        ZipFS::convert_error::<u8>(Err(ZipFailure::UnsupportedArchive)).unwrap_err().kind(),
        ErrorKind::Unsupported
    );
    assert_eq!(
        ZipFS::convert_error::<u8>(Err(ZipFailure::Io(ErrorKind::PermissionDenied)))
            .unwrap_err()
            .kind(),
        ErrorKind::PermissionDenied
    );
    assert_eq!(ZipFS::convert_error(Ok(7u8)).unwrap(), 7);
}

#[test]
fn zip_normal_form_of_paths() {
    assert_eq!(ZipFS::normalize_path("///a/./b/../c\\d/"), "a/c/d");
    assert_eq!(ZipFS::normalize_path("/"), "");
    assert_eq!(ZipFS::normalize_path("../.."), "");
}

#[test]
fn zip_lists_every_first_name_once() {
    // an entry deep below the root alone
    let fs = ZipFS::new(archive(&[("a/b/c.txt", "abc")], CompressionMethod::Stored)).unwrap();
    let root = fs.read_dir("").unwrap();
    assert_eq!(root.len(), 1);
    assert_eq!(
        (root[0].path.as_str(), root[0].metadata),
        ("a", Metadata::directory())
    );

    // a directory entry alone is listed under its name, with the size that it records
    let fs = ZipFS::new(archive(&[("empty/", "")], CompressionMethod::Stored)).unwrap();
    let root = fs.read_dir("/").unwrap();
    assert_eq!(root.len(), 1);
    assert_eq!(
        (root[0].path.as_str(), root[0].metadata),
        ("empty", Metadata::file(0))
    );

    // a name under which entries lie is a directory, wherever its own entry stands
    for names in [
        ["dir/", "dir/x", "dir/sub/y"],
        ["dir/x", "dir/", "dir/sub/y"],
        ["dir/sub/y", "dir/x", "dir/"],
    ] {
        let entries: Vec<(&str, &str)> = names.iter().map(|name| (*name, "")).collect();
        let fs = ZipFS::new(archive(&entries, CompressionMethod::Stored)).unwrap();
        let root = read_directory(&fs, "").unwrap();
        itertools::assert_equal(root.keys(), vec!["dir"]);
        itertools::assert_equal(root.values(), vec![&Metadata::directory()]);
        let dir = read_directory(&fs, "dir").unwrap();
        itertools::assert_equal(dir.keys(), vec!["sub", "x"]);
        itertools::assert_equal(
            dir.values(),
            vec![&Metadata::directory(), &Metadata::file(0)],
        );
    }
}

/// Replaces every occurrence of `from` in the bytes and tells how many there were.
fn replace_all(bytes: &mut [u8], from: &[u8], to: &[u8]) -> usize {
    let mut count = 0;
    let mut at = 0;
    while at + from.len() <= bytes.len() {
        if &bytes[at..at + from.len()] == from {
            bytes[at..at + from.len()].copy_from_slice(to);
            count += 1;
            at += from.len();
        } else {
            at += 1;
        }
    }
    count
}

/// An archive of one entry `secret` beside `open`; the entry carries the data of an AES
/// encryption in its extra field and is not marked as encrypted.
fn archive_with_unmarked_encryption() -> Vec<u8> {
    let mut writer = ZipWriter::new(Cursor::new(Vec::new()));
    let options = FileOptions::default().compression_method(CompressionMethod::Stored);
    writer.start_file("open", options).unwrap();
    writer.write_all(b"plain").unwrap();
    writer.start_file_with_extra_data("secret", options).unwrap();
    writer
        .write_all(&[0xef, 0xbe, 7, 0, 2, 0, 0x41, 0x45, 3, 0, 0])
        .unwrap();
    writer.end_extra_data().unwrap();
    writer.write_all(b"0123456789abcdef").unwrap();
    let mut bytes = writer.finish().unwrap().into_inner();
    // the header of the extra field becomes that of an AES encryption
    assert_eq!(
        replace_all(
            &mut bytes,
            &[0xef, 0xbe, 7, 0, 2, 0, 0x41, 0x45],
            &[0x01, 0x99, 7, 0, 2, 0, 0x41, 0x45]
        ),
        2
    );
    bytes
}

/// An archive of one entry `secret` beside `open`; the entry is marked as encrypted.
fn archive_with_encrypted_entry() -> Vec<u8> {
    let mut bytes = archive(
        &[("open", "plain"), ("secret", "0123456789abcdef")],
        CompressionMethod::Stored,
    );
    let local: Vec<usize> = (0..bytes.len() - 4)
        .filter(|at| &bytes[*at..*at + 4] == b"PK\x03\x04")
        .collect();
    let central: Vec<usize> = (0..bytes.len() - 4)
        .filter(|at| &bytes[*at..*at + 4] == b"PK\x01\x02")
        .collect();
    assert_eq!((local.len(), central.len()), (2, 2));
    bytes[local[1] + 6] |= 1;
    bytes[central[1] + 8] |= 1;
    bytes
}

#[test]
fn zip_entries_that_need_a_password_fail() {
    for bytes in [archive_with_unmarked_encryption(), archive_with_encrypted_entry()] {
        for fallback_search in [false, true] {
            let mut fs = ZipFS::with_fallback_search(bytes.clone(), fallback_search).unwrap();
            assert_eq!(fs.metadata("open").unwrap(), Metadata::file(5));
            assert_eq!(
                fs.open_file("open").unwrap().read_into_string().unwrap(),
                "plain"
            );
            assert_eq!(
                fs.metadata("secret").unwrap_err().kind(),
                ErrorKind::Unsupported
            );
            assert_eq!(
                fs.open_file("secret").unwrap_err().kind(),
                ErrorKind::Unsupported
            );
            assert_eq!(
                fs.path_exists("secret").unwrap_err().kind(),
                ErrorKind::Unsupported
            );
            // the listing opens every entry
            assert_eq!(fs.read_dir("").unwrap_err().kind(), ErrorKind::Unsupported);
            assert_eq!(fs.metadata("").unwrap(), Metadata::directory());
        }
    }
}
