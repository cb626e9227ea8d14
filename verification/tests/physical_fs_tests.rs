use virtual_fs::error::{Error, ErrorKind};
use virtual_fs::file::{FileType, Metadata};
use virtual_fs::physical_fs::path_resolver::{join_paths, path_starts_with};
use virtual_fs::physical_fs::{
    file_type_from, metadata_from, strip_prefix, PhysicalFS, SandboxedPhysicalFS,
};

#[test]
fn the_root_is_kept_in_normal_form() {
    assert_eq!(PhysicalFS::new("test/./folder_a/../folder_b/").root, "test/folder_b");
    assert_eq!(SandboxedPhysicalFS::new("/srv//data").root, "/srv/data");
    assert_eq!(PhysicalFS::new(".").root, "");
}

#[test]
fn paths_resolve_below_the_root() {
    assert_eq!(PhysicalFS::resolve_path("test", "/file_a"), "test/file_a");
    assert_eq!(PhysicalFS::resolve_path("test/", "\\\\file_a"), "test/file_a");
    assert_eq!(PhysicalFS::resolve_path("", "file_a"), "file_a");
    assert_eq!(
        PhysicalFS::resolve_path("test/folder_a", "../deep_fs.zip"),
        "test/folder_a/../deep_fs.zip"
    );
    assert_eq!(
        SandboxedPhysicalFS::resolve_path("/work/test", "../Cargo.toml"),
        "/work/test/../Cargo.toml"
    );
    assert_eq!(join_paths("a", ""), "a/");
}

#[test]
fn the_sandbox_refuses_what_lies_outside() {
    assert_eq!(
        SandboxedPhysicalFS::permit("/work/test", "/work/Cargo.toml".to_owned())
            .unwrap_err()
            .kind(),
        ErrorKind::PermissionDenied
    );
    assert_eq!(
        SandboxedPhysicalFS::permit("/work/test", "/work/test/folder_a".to_owned()).unwrap(),
        "/work/test/folder_a"
    );
    // the unrestricted filesystem never refuses
    assert_eq!(
        PhysicalFS::permit("/work/test", "/work/Cargo.toml".to_owned()).unwrap(),
        "/work/Cargo.toml"
    );
    assert!(path_starts_with("/a/b/c", "/a/b"));
    assert!(path_starts_with("/a/./b//c", "/a/b/"));
    assert!(!path_starts_with("/a/bc", "/a/b"));
    assert!(!path_starts_with("a/b", "/a/b"));
    assert!(path_starts_with("a/b", ""));
}

#[test]
fn listed_paths_are_relative_to_the_root() {
    assert_eq!(strip_prefix("test/folder_a/file_a", "test").unwrap(), "folder_a/file_a");
    assert_eq!(strip_prefix("test//folder_a/", "test/").unwrap(), "folder_a");
    assert_eq!(strip_prefix("test", "test").unwrap(), "");
    assert_eq!(strip_prefix("tester/file", "test"), None);
    assert_eq!(strip_prefix("/test/file", "test"), None);

    let fs = PhysicalFS::new("test");
    let failed = Error::new(ErrorKind::PermissionDenied);
    let listing = fs.read_dir(vec![
        Ok(("test/folder_a".to_owned(), Ok(Metadata::directory()))),
        Ok(("test/bad.tar.xz".to_owned(), Ok(Metadata::file(4)))),
        Ok(("elsewhere/file".to_owned(), Ok(Metadata::file(1)))),
        Ok(("test/unreadable".to_owned(), Err(failed))),
        Err(Error::new(ErrorKind::Other)),
    ]);
    assert_eq!(listing.len(), 5);
    let first = listing[0].as_ref().unwrap();
    assert_eq!((first.path.as_str(), first.metadata), ("folder_a", Metadata::directory()));
    let second = listing[1].as_ref().unwrap();
    assert_eq!((second.path.as_str(), second.metadata), ("bad.tar.xz", Metadata::file(4)));
    assert_eq!(listing[2].as_ref().unwrap_err().kind(), ErrorKind::InvalidInput);
    assert_eq!(listing[3].as_ref().unwrap_err().kind(), ErrorKind::PermissionDenied);
    assert_eq!(listing[4].as_ref().unwrap_err().kind(), ErrorKind::Other);
}

#[test]
fn host_file_types() {
    assert_eq!(file_type_from(true, false), FileType::Directory);
    assert_eq!(file_type_from(false, true), FileType::File);
    assert_eq!(file_type_from(false, false), FileType::Unknown);
    assert_eq!(metadata_from(false, true, 2691), Metadata::file(2691));
    assert_eq!(metadata_from(true, false, 0), Metadata::directory());
    assert_eq!(
        metadata_from(false, false, 9),
        Metadata { file_type: FileType::Unknown, len: 9 }
    );
}
