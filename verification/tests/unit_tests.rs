use simplefs::bitmap::Bitmap;
use simplefs::dir::{encode_dir_bytes, format_u32, parse_dir_bytes};
use simplefs::error::SFSError;
use simplefs::inode::{Inode, InodeGroup};
use simplefs::sb::SuperBlock;

#[test]
fn fresh_superblock_serializes_and_parses_back() {
    let sb = SuperBlock::default();
    let img = sb.serialize();
    assert_eq!(img.len(), 28);
    let parsed = SuperBlock::parse(&img, 0x5346_5342).unwrap();
    assert_eq!(parsed.sb_magic, 0x5346_5342);
    assert_eq!(parsed.inodes_count, 80);
    assert_eq!(parsed.blocks_count, 56);
    assert_eq!(parsed, sb);
}

#[test]
fn superblock_with_wrong_magic_is_refused() {
    let sb = SuperBlock::default();
    let img = sb.serialize();
    match SuperBlock::parse(&img, 0x1234_5678) {
        Err(SFSError::InvalidBlock) => (),
        _ => assert!(false, "Unexpected parse result."),
    }
}

#[test]
fn bitmap_set_get_clear_roundtrip() {
    let mut bm = Bitmap::new();
    assert_eq!(bm.get(9).unwrap(), false);
    bm.set_reserved(9).unwrap();
    assert_eq!(bm.get(9).unwrap(), true);
    assert_eq!(bm.get(8).unwrap(), false);
    bm.clear(9).unwrap();
    assert_eq!(bm.get(9).unwrap(), false);
}

#[test]
fn bitmap_rejects_out_of_range_indices() {
    let mut bm = Bitmap::new();
    match bm.get(32768) {
        Err(SFSError::InvalidArgument) => (),
        _ => assert!(false, "Unexpected result."),
    }
    match bm.set_reserved(40000) {
        Err(SFSError::InvalidArgument) => (),
        _ => assert!(false, "Unexpected result."),
    }
}

#[test]
fn bitmap_serializes_to_parsed_image() {
    let mut bm = Bitmap::new();
    bm.set_reserved(0).unwrap();
    bm.set_reserved(13).unwrap();
    let img = bm.serialize();
    assert_eq!(img.len(), 4096);
    let back = Bitmap::parse(&img);
    assert_eq!(back.get(0).unwrap(), true);
    assert_eq!(back.get(13).unwrap(), true);
    assert_eq!(back.get(1).unwrap(), false);
}

#[test]
fn next_free_scans_from_start() {
    let mut bm = Bitmap::new();
    bm.set_reserved(8).unwrap();
    bm.set_reserved(9).unwrap();
    assert_eq!(bm.next_free(8, 64).unwrap(), 10);
    assert_eq!(bm.next_free(0, 64).unwrap(), 0);
}

#[test]
fn fifty_seventh_data_block_allocation_fails() {
    let mut bm = Bitmap::new();
    for i in 0..56 {
        assert_eq!(bm.allocate_data().unwrap(), 8 + i);
    }
    match bm.allocate_data() {
        Err(SFSError::OutOfSpace) => (),
        _ => assert!(false, "Unexpected allocation result."),
    }
}

#[test]
fn eighty_first_inode_allocation_fails() {
    let mut group = InodeGroup::new(Bitmap::new());
    // The root holds inode 0; 79 more fit.
    for i in 1..80 {
        assert_eq!(group.allocate_file().unwrap(), i);
    }
    match group.allocate_file() {
        Err(SFSError::OutOfSpace) => (),
        _ => assert!(false, "Unexpected allocation result."),
    }
}

#[test]
fn root_inode_encodes_to_256_bytes_and_back() {
    let root = Inode::new_root();
    let img = root.encode();
    assert_eq!(img.len(), 256);
    let back = Inode::decode(&img, 0);
    assert_eq!(back.mode, 0x4000);
    assert_eq!(back.blocks[0], 8);
    assert_eq!(back.blocks[1], 0);
    assert_eq!(back.size, 0);
}

#[test]
fn inode_block_serializes_the_root_slot() {
    let group = InodeGroup::new(Bitmap::new());
    let block = group.serialize_block(0);
    assert_eq!(block.len(), 4096);
    // slot 0 holds the root, slot 1 is zero-filled
    assert_eq!(block[0], 0x00);
    assert_eq!(block[1], 0x40);
    assert!(block[256..512].iter().all(|b| *b == 0));
}

#[test]
fn inode_group_get_tracks_allocation() {
    let mut group = InodeGroup::new(Bitmap::new());
    assert!(group.get(0).is_some());
    assert!(group.get(1).is_none());
    assert!(group.get(200).is_none());
    let n = group.allocate_file().unwrap();
    assert!(group.get(n).is_some());
    assert_eq!(group.total_allocated(), 2);
}

#[test]
fn directory_record_has_exact_image() {
    let entries = vec![(b"a".to_vec(), 1u32)];
    let img = encode_dir_bytes(&entries);
    assert_eq!(img, vec![49, 58, 97, 10, 0]);
}

#[test]
fn directory_roundtrips_three_records() {
    let entries = vec![
        (b"foo".to_vec(), 1u32),
        (b"bar".to_vec(), 2u32),
        (b"baz-long-name.txt".to_vec(), 79u32),
    ];
    let img = encode_dir_bytes(&entries);
    let back = parse_dir_bytes(&img).unwrap();
    assert_eq!(back, entries);
}

#[test]
fn empty_directory_roundtrips() {
    let entries: Vec<(Vec<u8>, u32)> = Vec::new();
    let img = encode_dir_bytes(&entries);
    assert_eq!(img, vec![0]);
    let back = parse_dir_bytes(&img).unwrap();
    assert_eq!(back.len(), 0);
}

#[test]
fn malformed_directory_lines_are_refused() {
    match parse_dir_bytes(&b"nocolon\n\0".to_vec()) {
        Err(SFSError::InvalidBlock) => (),
        _ => assert!(false, "Unexpected parse result."),
    }
    match parse_dir_bytes(&b":empty\n\0".to_vec()) {
        Err(SFSError::InvalidBlock) => (),
        _ => assert!(false, "Unexpected parse result."),
    }
    match parse_dir_bytes(&b"12x:name\n\0".to_vec()) {
        Err(SFSError::InvalidBlock) => (),
        _ => assert!(false, "Unexpected parse result."),
    }
    match parse_dir_bytes(&b"99999999999:name\n\0".to_vec()) {
        Err(SFSError::InvalidBlock) => (),
        _ => assert!(false, "Unexpected parse result."),
    }
}

#[test]
fn parser_stops_at_the_nul_marker() {
    let back = parse_dir_bytes(&b"7:x\n\0garbage after the marker".to_vec()).unwrap();
    assert_eq!(back, vec![(b"x".to_vec(), 7u32)]);
}

#[test]
fn decimal_formatting_is_exact() {
    assert_eq!(format_u32(0), b"0".to_vec());
    assert_eq!(format_u32(12345), b"12345".to_vec());
    assert_eq!(format_u32(4294967295), b"4294967295".to_vec());
}
