use std::io::{Cursor, Write};
use virtual_fs::any_fs::AnyFS;
use virtual_fs::error::ErrorKind;
use virtual_fs::file::{File, Metadata};
use virtual_fs::memory_fs::MemoryFS;
use virtual_fs::mountable_fs::MountableFS;
use virtual_fs::roc_fs::RocFS;
use virtual_fs::tar_fs::TarFS;
use virtual_fs::zip_fs::ZipFS;
use virtual_fs::FileSystem;

fn memory(name: &str, contents: &str) -> AnyFS {
    let mut fs = MemoryFS::default();
    let mut file = fs.create_file(name).unwrap();
    file.write(contents.as_bytes()).unwrap();
    fs.persist(name, &file).unwrap();
    AnyFS::Memory(fs)
}

fn zip(name: &str, contents: &str) -> AnyFS {
    let mut writer = zip::ZipWriter::new(Cursor::new(Vec::new()));
    writer
        .start_file(name, zip::write::FileOptions::default())
        .unwrap();
    writer.write_all(contents.as_bytes()).unwrap();
    AnyFS::Zip(ZipFS::new(writer.finish().unwrap().into_inner()).unwrap())
}

fn tar(name: &str, contents: &str) -> AnyFS {
    let mut builder = tar::Builder::new(Vec::new());
    let mut header = tar::Header::new_gnu();
    header.set_size(contents.len() as u64);
    header.set_mode(0o644);
    builder
        .append_data(&mut header, name, Cursor::new(contents.as_bytes()))
        .unwrap();
    AnyFS::Tar(TarFS::new(builder.into_inner().unwrap()).unwrap())
}

#[test]
fn a_union_mixes_backends() {
    let mut fs = RocFS::new(vec![
        memory("in_memory", "from memory"),
        zip("in_zip", "from the zip"),
        tar("in_tar", "from the tarball"),
        memory("in_zip", "shadowed"),
    ]);
    for (name, contents) in [
        ("in_memory", "from memory"),
        ("in_zip", "from the zip"),
        ("in_tar", "from the tarball"),
    ] {
        assert_eq!(
            fs.metadata(name).unwrap(),
            Metadata::file(contents.len() as u64)
        );
        assert_eq!(
            fs.open_file(name).unwrap().read_into_string().unwrap(),
            contents
        );
    }
    let names: Vec<String> = fs
        .read_dir("/")
        .unwrap()
        .into_iter()
        .map(|entry| entry.path)
        .collect();
    assert_eq!(names, vec!["in_memory", "in_zip", "in_tar", "in_zip"]);
    assert_eq!(fs.metadata("absent").unwrap_err().kind(), ErrorKind::NotFound);
}

#[test]
fn a_composite_mixes_backends() {
    let mut fs = MountableFS::default();
    fs.mount("memory", memory("file", "m")).unwrap();
    fs.mount("archives/zip", zip("file", "zz")).unwrap();
    fs.mount("archives/tar", tar("file", "ttt")).unwrap();
    assert_eq!(fs.metadata("memory/file").unwrap(), Metadata::file(1));
    assert_eq!(fs.metadata("archives/zip/file").unwrap(), Metadata::file(2));
    assert_eq!(fs.metadata("archives/tar/file").unwrap(), Metadata::file(3));
    assert_eq!(
        fs.open_file("archives/tar/file")
            .unwrap()
            .read_into_string()
            .unwrap(),
        "ttt"
    );
    assert_eq!(fs.read_dir("archives").unwrap().len(), 2);
}

#[test]
fn each_backend_keeps_its_rules() {
    let mut fs = memory("file", "m");
    assert!(fs.create_dir("dir").is_ok());
    assert!(fs.create_dir_all("a/b").is_ok());
    assert!(fs.remove_dir("a").is_ok());
    assert!(fs.remove_file("file").is_ok());
    assert!(!fs.path_exists("file").unwrap());
    for mut fs in [zip("file", "z"), tar("file", "t")] {
        assert_eq!(fs.create_dir("dir").unwrap_err().kind(), ErrorKind::Unsupported);
        assert_eq!(
            fs.create_dir_all("a/b").unwrap_err().kind(),
            ErrorKind::Unsupported
        );
        assert_eq!(fs.remove_dir("a").unwrap_err().kind(), ErrorKind::Unsupported);
        assert_eq!(
            fs.remove_file("file").unwrap_err().kind(),
            ErrorKind::Unsupported
        );
        assert!(fs.path_exists("file").unwrap());
        assert_eq!(fs.read_dir("").unwrap().len(), 1);
    }
}
