use virtual_fs::error::{Error, ErrorKind};
use virtual_fs::file::{DirEntry, File, FileType, Metadata, OpenOptions, SeekFrom};
use virtual_fs::memory_fs::file::{FileHandle, FileMode, FileModes};
use virtual_fs::util::{already_exists, invalid_input, invalid_path, not_found, not_supported};

fn handle(contents: &str, read: bool, write: bool) -> FileHandle {
    FileHandle::new(contents.as_bytes().to_vec(), FileModes { read, write })
}

#[test]
fn metadata_of_files_and_directories() {
    let directory = Metadata::directory();
    assert_eq!(directory.file_type, FileType::Directory);
    assert_eq!(directory.len(), 0);
    assert!(directory.is_directory());
    assert!(!directory.is_file());

    let file = Metadata::file(17);
    assert_eq!(file.file_type, FileType::File);
    assert_eq!(file.len(), 17);
    assert!(file.is_file());
    assert!(!file.is_directory());

    let unknown = Metadata { file_type: FileType::Unknown, len: 3 };
    assert!(!unknown.is_file());
    assert!(!unknown.is_directory());
}

#[test]
fn dir_entry_tells_files_from_directories() {
    let file = DirEntry { path: "a".to_owned(), metadata: Metadata::file(5) };
    assert!(file.is_file());
    assert!(!file.is_directory());
    assert_eq!(file.len(), 5);

    let directory = DirEntry { path: "b".to_owned(), metadata: Metadata::directory() };
    assert!(directory.is_directory());
    assert!(!directory.is_file());
    assert_eq!(directory.len(), 0);
    assert_eq!(directory.duplicate().path, "b");
}

#[test]
fn open_options_defaults_and_implications() {
    let options = OpenOptions::default();
    assert_eq!(
        options,
        OpenOptions { append: false, create: false, read: true, truncate: false, write: false }
    );

    // each of these enables writing
    assert!(options.append(true).write);
    assert!(options.truncate(true).write);
    assert!(options.create(true).write);
    assert!(!options.append(false).write);
    assert!(!options.truncate(false).write);
    assert!(!options.create(false).write);

    // create takes the value that it is given
    assert!(options.create(true).create);
    assert!(!options.create(true).create(false).create);

    // append and truncate exclude each other
    let appending = options.truncate(true).append(true);
    assert!(appending.append && !appending.truncate);
    let truncating = options.append(true).truncate(true);
    assert!(truncating.truncate && !truncating.append);
    // giving one up does not turn the other on
    assert!(!options.append(false).truncate);
    assert!(!options.truncate(false).append);
    assert!(options.truncate(true).append(false).truncate);
    assert!(options.append(true).truncate(false).append);
    assert_eq!(options.append(false), options);
    assert_eq!(options.truncate(false), options);

    assert!(!options.read(false).read);
    assert!(options.write(true).write);
    assert!(!options.create(true).write(false).write);
}

#[test]
fn modes_follow_the_options() {
    let modes = FileMode::from_options(&OpenOptions::default());
    assert!(modes.contains(FileMode::Read));
    assert!(!modes.contains(FileMode::Write));

    let modes = FileMode::from_options(&OpenOptions::default().read(false).write(true));
    assert_eq!(modes, FileModes { read: false, write: true });

    let mut modes = FileModes::empty();
    assert!(!modes.contains(FileMode::Read) && !modes.contains(FileMode::Write));
    modes.insert(FileMode::Write);
    assert_eq!(modes, FileModes { read: false, write: true });
    modes.insert(FileMode::Read);
    assert_eq!(modes, FileModes { read: true, write: true });
}

#[test]
fn errors_carry_their_class() {
    assert_eq!(already_exists().kind(), ErrorKind::AlreadyExists);
    assert_eq!(invalid_input("why").kind(), ErrorKind::InvalidInput);
    assert_eq!(invalid_path().kind(), ErrorKind::InvalidInput);
    assert_eq!(not_found().kind(), ErrorKind::NotFound);
    assert_eq!(not_supported().kind(), ErrorKind::Unsupported);
    assert_eq!(Error::new(ErrorKind::InvalidData).kind(), ErrorKind::InvalidData);
    assert!(FileHandle::check_mode(true).is_ok());
    assert_eq!(
        FileHandle::check_mode(false).unwrap_err().kind(),
        ErrorKind::Unsupported
    );
}

#[test]
fn reading_moves_the_cursor() {
    let mut file = handle("hello world", true, false);
    let mut buf = [b'-'; 5];
    assert_eq!(file.read(&mut buf).unwrap(), 5);
    assert_eq!(&buf, b"hello");
    assert_eq!(file.pos, 5);

    // fewer bytes are left than the buffer takes: the rest of the buffer stays
    let mut buf = [b'-'; 8];
    assert_eq!(file.read(&mut buf).unwrap(), 6);
    assert_eq!(&buf, b" world--");
    assert_eq!(file.pos, 11);

    // at the end of the file
    assert_eq!(file.read(&mut buf).unwrap(), 0);
    assert_eq!(&buf, b" world--");
    assert_eq!(file.read(&mut []).unwrap(), 0);

    // behind the end of the file
    assert_eq!(file.seek(SeekFrom::Start(100)).unwrap(), 100);
    assert_eq!(file.read(&mut buf).unwrap(), 0);
    assert_eq!(file.pos, 100);
    assert_eq!(file.read_into_vec().unwrap(), b"");

    let mut file = handle("hello", false, true);
    assert_eq!(file.read(&mut buf).unwrap_err().kind(), ErrorKind::Unsupported);
    assert_eq!(file.read_into_vec().unwrap_err().kind(), ErrorKind::Unsupported);
    assert_eq!(file.read_into_string().unwrap_err().kind(), ErrorKind::Unsupported);
    assert_eq!(file.pos, 0);
}

#[test]
fn writing_overwrites_and_extends() {
    let mut file = handle("hello world", true, true);
    assert_eq!(file.write(b"HELLO").unwrap(), 5);
    assert_eq!(file.contents, b"HELLO world");
    assert_eq!(file.pos, 5);

    // two writes in a row continue where the first ended
    assert_eq!(file.write(b"_").unwrap(), 1);
    assert_eq!(file.contents, b"HELLO_world");

    // the file grows where the bytes reach behind its end
    assert_eq!(file.seek(SeekFrom::End(-2)).unwrap(), 9);
    assert_eq!(file.write(b"LD!!").unwrap(), 4);
    assert_eq!(file.contents, b"HELLO_worLD!!");
    assert_eq!(file.pos, 13);
    assert_eq!(file.metadata().unwrap(), Metadata::file(13));

    // a cursor behind the end writes at the end
    assert_eq!(file.seek(SeekFrom::Start(1000)).unwrap(), 1000);
    assert_eq!(file.write(b"?").unwrap(), 1);
    assert_eq!(file.contents, b"HELLO_worLD!!?");
    assert_eq!(file.pos, 14);
    assert_eq!(file.write(b"").unwrap(), 0);
    assert!(file.flush().is_ok());

    let mut file = handle("hello", true, false);
    assert_eq!(file.write(b"x").unwrap_err().kind(), ErrorKind::Unsupported);
    assert_eq!(file.flush().unwrap_err().kind(), ErrorKind::Unsupported);
    assert_eq!(file.contents, b"hello");

    file.clear();
    assert_eq!(file.contents, b"");
    assert_eq!(file.metadata().unwrap(), Metadata::file(0));
}

#[test]
fn seeking_from_each_origin() {
    let mut file = handle("0123456789", true, false);
    assert_eq!(file.seek(SeekFrom::Start(4)).unwrap(), 4);
    assert_eq!(file.seek(SeekFrom::Current(3)).unwrap(), 7);
    assert_eq!(file.seek(SeekFrom::Current(-7)).unwrap(), 0);
    assert_eq!(file.seek(SeekFrom::End(0)).unwrap(), 10);
    assert_eq!(file.seek(SeekFrom::End(-10)).unwrap(), 0);
    assert_eq!(file.seek(SeekFrom::End(5)).unwrap(), 15);
    assert_eq!(file.seek(SeekFrom::Start(u64::MAX)).unwrap(), u64::MAX);

    // negative and overflowing targets
    assert_eq!(
        file.seek(SeekFrom::Current(1)).unwrap_err().kind(),
        ErrorKind::InvalidInput
    );
    assert_eq!(file.pos, u64::MAX);
    assert_eq!(file.seek(SeekFrom::Current(i64::MIN)).unwrap(), u64::MAX - (1 << 63));
    assert_eq!(file.seek(SeekFrom::Start(3)).unwrap(), 3);
    assert_eq!(
        file.seek(SeekFrom::Current(-4)).unwrap_err().kind(),
        ErrorKind::InvalidInput
    );
    assert_eq!(
        file.seek(SeekFrom::End(-11)).unwrap_err().kind(),
        ErrorKind::InvalidInput
    );
    assert_eq!(
        file.seek(SeekFrom::End(i64::MIN)).unwrap_err().kind(),
        ErrorKind::InvalidInput
    );
    assert_eq!(file.pos, 3);
    assert_eq!(file.read_into_string().unwrap(), "3456789");
    assert_eq!(file.pos, 10);
}

#[test]
fn text_must_be_utf8() {
    let mut file = FileHandle::new(vec![0xff, 0xfe, b'a'], FileModes { read: true, write: false });
    assert_eq!(
        file.read_into_string().unwrap_err().kind(),
        ErrorKind::InvalidData
    );
    assert_eq!(file.pos, 3);

    let mut file = handle("gr\u{fc}n \u{1f600}", true, false);
    assert_eq!(file.read_into_string().unwrap(), "gr\u{fc}n \u{1f600}");
}
