use simplefs::fs::{OpenMode, SFS};
use simplefs::error::SFSError;
use simplefs::storage::MemBlockStorage;

fn create_test_device() -> MemBlockStorage {
    MemBlockStorage::new(64)
}

#[test]
fn root_dir_returns_root_fd() {
    let dev = create_test_device();
    let mut fs = SFS::create(dev).unwrap();
    assert_eq!(fs.open("/", OpenMode::RO).unwrap(), 0);
}

#[test]
fn file_not_found_without_create_returns_error() {
    let dev = create_test_device();
    let mut fs = SFS::create(dev).unwrap();

    let result = fs.open("/foo", OpenMode::RO);
    match result.unwrap_err() {
        SFSError::DoesNotExist => (),
        _ => assert!(false, "Unexpected error type."),
    }
}

#[test]
fn create_non_existent_file_returns_handle() {
    let dev = create_test_device();

    let mut fs = SFS::create(dev).unwrap();

    assert_eq!(fs.open("/foo", OpenMode::CREATE).unwrap(), 1);
}

#[test]
fn create_non_existent_file_with_missing_subdirectory_returns_error() {
    let dev = create_test_device();

    let mut fs = SFS::create(dev).unwrap();

    assert!(fs.open("/foo/bar", OpenMode::CREATE).is_err());
}

#[test]
fn can_create_and_reopen_initialized_filesystem() {
    let dev = create_test_device();
    // Initialize the filesystem, then hand the device over unchanged.
    let fs = SFS::create(dev).unwrap();
    let dev = fs.into_storage();

    let fs: SFS<MemBlockStorage> = SFS::from_block_storage(dev).unwrap();
    assert_eq!(fs.inodes.total_allocated(), 1);
}

#[test]
fn empty_path_is_invalid() {
    let dev = create_test_device();
    let mut fs = SFS::create(dev).unwrap();
    match fs.open("", OpenMode::RO).unwrap_err() {
        SFSError::InvalidArgument => (),
        _ => assert!(false, "Unexpected error type."),
    }
}

#[test]
fn relative_path_is_invalid() {
    let dev = create_test_device();
    let mut fs = SFS::create(dev).unwrap();
    match fs.open("foo", OpenMode::CREATE).unwrap_err() {
        SFSError::InvalidArgument => (),
        _ => assert!(false, "Unexpected error type."),
    }
}

#[test]
fn unimplemented_modes_fail() {
    let dev = create_test_device();
    let mut fs = SFS::create(dev).unwrap();
    match fs.open("/", OpenMode::WO).unwrap_err() {
        SFSError::Unimplemented => (),
        _ => assert!(false, "Unexpected error type."),
    }
    match fs.open("/", OpenMode::RW).unwrap_err() {
        SFSError::Unimplemented => (),
        _ => assert!(false, "Unexpected error type."),
    }
    match fs.open("/", OpenMode::DIRECTORY).unwrap_err() {
        SFSError::Unimplemented => (),
        _ => assert!(false, "Unexpected error type."),
    }
}

#[test]
fn created_entries_survive_remount() {
    let dev = create_test_device();
    let mut fs = SFS::create(dev).unwrap();
    assert_eq!(fs.open("/a", OpenMode::CREATE).unwrap(), 1);
    assert_eq!(fs.open("/b", OpenMode::CREATE).unwrap(), 2);
    let dev = fs.into_storage();

    let fs: SFS<MemBlockStorage> = SFS::from_block_storage(dev).unwrap();
    let entries = fs.read_dir(0).unwrap();
    assert_eq!(entries.len(), 2);
    assert_eq!(entries[0].0, b"a".to_vec());
    assert_eq!(entries[0].1, 1);
    assert_eq!(entries[1].0, b"b".to_vec());
    assert_eq!(entries[1].1, 2);
}

#[test]
fn fresh_root_reads_empty() {
    let dev = create_test_device();
    let fs = SFS::create(dev).unwrap();
    let entries = fs.read_dir(0).unwrap();
    assert_eq!(entries.len(), 0);
}

#[test]
fn reformat_keeps_data_blocks_but_resets_metadata() {
    // Formatting writes only the four metadata blocks; a second format
    // leaves the data region alone and the volume opens fresh.
    let dev = create_test_device();
    let mut fs = SFS::create(dev).unwrap();
    assert_eq!(fs.open("/a", OpenMode::CREATE).unwrap(), 1);
    let dev = fs.into_storage();

    let fs = SFS::create(dev).unwrap();
    let dev = fs.into_storage();
    let mut fs: SFS<MemBlockStorage> = SFS::from_block_storage(dev).unwrap();
    assert_eq!(fs.inodes.total_allocated(), 1);
    match fs.open("/a", OpenMode::RO).unwrap_err() {
        SFSError::DoesNotExist => (),
        _ => assert!(false, "Unexpected error type."),
    }
}

#[test]
fn reserved_name_bytes_are_rejected() {
    let dev = create_test_device();
    let mut fs = SFS::create(dev).unwrap();
    match fs.open("/a:b", OpenMode::CREATE).unwrap_err() {
        SFSError::InvalidArgument => (),
        _ => assert!(false, "Unexpected error type."),
    }
}

#[test]
fn open_with_create_on_existing_name_appends_under_it() {
    // Opening an existing path with CREATE follows the found inode and
    // records the final name inside it, handing back a fresh inode.
    let dev = create_test_device();
    let mut fs = SFS::create(dev).unwrap();
    assert_eq!(fs.open("/foo", OpenMode::CREATE).unwrap(), 1);
    assert_eq!(fs.open("/foo", OpenMode::CREATE).unwrap(), 2);
    let entries = fs.read_dir(1).unwrap();
    assert_eq!(entries.len(), 1);
    assert_eq!(entries[0].0, b"foo".to_vec());
    assert_eq!(entries[0].1, 2);
}

#[test]
fn mount_rejects_uninitialized_volume() {
    let dev = create_test_device();
    match SFS::from_block_storage(dev) {
        Err(SFSError::InvalidBlock) => (),
        _ => assert!(false, "Unexpected mount result."),
    }
}

#[test]
fn getattr_echoes_inode_with_zeroed_attributes() {
    let dev = create_test_device();
    let fs = SFS::create(dev).unwrap();
    let attr = fs.getattr(5);
    assert_eq!(attr.ino, 5);
    assert!(attr.is_dir);
    assert_eq!(attr.size, 0);
    assert_eq!(attr.atime_sec, 0);
}

#[test]
fn readdir_serves_canned_entries_then_stops() {
    let dev = create_test_device();
    let fs = SFS::create(dev).unwrap();
    let entries = fs.readdir(1, 0).unwrap();
    assert_eq!(entries.len(), 2);
    assert_eq!(entries[0], (1, 1, b".".to_vec()));
    assert_eq!(entries[1], (1, 2, b"..".to_vec()));
    assert_eq!(fs.readdir(1, 2).unwrap().len(), 0);
    assert!(fs.readdir(9, 0).is_err());
}

#[test]
fn init_succeeds() {
    let dev = create_test_device();
    let fs = SFS::create(dev).unwrap();
    assert!(fs.init().is_ok());
}

#[test]
fn large_directory_roundtrips_through_write_and_read() {
    let dev = create_test_device();
    let mut fs = SFS::create(dev).unwrap();
    let mut entries: Vec<(Vec<u8>, u32)> = Vec::new();
    for i in 0..90u32 {
        let mut name = vec![b'n'; 38];
        name.push(b'0' + (i / 10) as u8);
        name.push(b'0' + (i % 10) as u8);
        entries.push((name, i % 80));
    }
    fs.write_dir(0, &entries).unwrap();
    let back = fs.read_dir(0).unwrap();
    assert_eq!(back, entries);
}

#[test]
fn directory_larger_than_its_block_list_is_refused() {
    let dev = create_test_device();
    let mut fs = SFS::create(dev).unwrap();
    let mut entries: Vec<(Vec<u8>, u32)> = Vec::new();
    for i in 0..200u32 {
        let mut name = vec![b'x'; 400];
        name.push(b'0' + (i % 10) as u8);
        name.push(b'0' + ((i / 10) % 10) as u8);
        name.push(b'0' + (i / 100) as u8);
        entries.push((name, i % 80));
    }
    match fs.write_dir(0, &entries).unwrap_err() {
        SFSError::OutOfSpace => (),
        _ => assert!(false, "Unexpected error type."),
    }
}

#[test]
fn exhausted_data_region_fails_with_out_of_space() {
    let dev = create_test_device();
    let mut fs = SFS::create(dev).unwrap();
    for name in ["/a", "/b", "/c", "/d"] {
        fs.open(name, OpenMode::CREATE).unwrap();
    }
    // Each directory below needs 15 data blocks; the fourth cannot fit
    // into the 55 that remain after the root's reserved block.
    let mut entries: Vec<(Vec<u8>, u32)> = Vec::new();
    for i in 0..100u32 {
        let mut name = vec![b'y'; 590];
        name.push(b'0' + (i % 10) as u8);
        name.push(b'0' + ((i / 10) % 10) as u8);
        entries.push((name, i % 80));
    }
    fs.write_dir(1, &entries).unwrap();
    fs.write_dir(2, &entries).unwrap();
    fs.write_dir(3, &entries).unwrap();
    match fs.write_dir(4, &entries).unwrap_err() {
        SFSError::OutOfSpace => (),
        _ => assert!(false, "Unexpected error type."),
    }
}

#[test]
fn write_dir_refuses_reserved_name_bytes() {
    let dev = create_test_device();
    let mut fs = SFS::create(dev).unwrap();
    let entries = vec![(b"a:b".to_vec(), 1u32)];
    match fs.write_dir(0, &entries).unwrap_err() {
        SFSError::InvalidArgument => (),
        _ => assert!(false, "Unexpected error type."),
    }
    assert_eq!(fs.read_dir(0).unwrap().len(), 0);
}
