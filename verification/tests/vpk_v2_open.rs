use valve_resource_tools::{
    ArchiveFiles, EntryPrototype, ErrorKind, Extract, HeaderV2, SeekFrom, VPKv2, ValidateArchive,
    ValidateOther,
};

fn proto(embed: bool, preload: u16, path: &str, name: &str, ext: &str, data: &[u8]) -> EntryPrototype {
    EntryPrototype::new(
        embed,
        preload,
        path.to_string(),
        name.to_string(),
        ext.to_string(),
        data.to_vec(),
    )
}

fn test_files() -> ArchiveFiles {
    VPKv2::create(&[
        proto(false, 26, "testing-folder", "PreloadOnly", "txt", b"This file is preload only."),
        proto(false, 0, "testing-folder", "ArchiveOnly", "txt", b"Stored in an archive file.\n"),
        proto(true, 0, "testing-folder", "EmbededArchiveOnly", "txt", b"Embedded.\n"),
        proto(
            false,
            21,
            "testing-folder",
            "PreloadAndArchive",
            "txt",
            b"This part is preload. And this part is stored.\n",
        ),
    ])
    .unwrap()
}

fn open_test_vpk() -> VPKv2 {
    let files = test_files();
    VPKv2::open(files.dir, files.data).unwrap()
}

#[test]
fn open() {
    let files = test_files();
    VPKv2::open(files.dir, files.data).unwrap();
}

#[test]
fn open_read_entry() {
    let vpk = open_test_vpk();
    let _ = vpk.get_entry_from_path("PreloadAndArchive");
}

#[test]
fn lookup_needs_the_whole_key() {
    let vpk = open_test_vpk();
    for path in [
        "PreloadAndArchive",
        "PreloadAndArchive.txt",
        "testing-folder/PreloadAndArchive",
        "testing-folder/PreloadAndArchive.tx",
        "testing-folder/PreloadAndArchive.txt ",
        "testing-folder\\PreloadAndArchive.txt",
        "Testing-folder/PreloadAndArchive.txt",
        "",
        "testing-folder/PreloadAndArchive.txt\u{100}",
        "testing-folder/Pr\u{e9}loadAndArchive.txt",
    ] {
        assert!(
            matches!(vpk.get_entry_from_path(path), Err(ErrorKind::DoesNotExist(_))),
            "{:?}",
            path
        );
    }
    assert!(vpk.get_entry_from_path("testing-folder/PreloadAndArchive.txt").is_ok());
}

#[test]
fn opened_archive_hands_out_what_the_index_file_holds() {
    let files = test_files();
    let header = HeaderV2::decode(&files.dir[..28]).unwrap();
    let vpk = VPKv2::open(files.dir.clone(), files.data.clone()).unwrap();
    assert_eq!(vpk.header(), header);
    assert_eq!(vpk.directory().len(), 4);
    assert_eq!(vpk.archive_md5().len(), 2);
    assert_eq!(&vpk.other_md5().encode()[..], &files.dir[files.dir.len() - 48..]);
    for (record, entry) in vpk.directory().records.iter().zip(files.entries.iter()) {
        assert_eq!(&record.handle.entry, entry);
        assert_eq!(
            record.handle.directory_archive_data_start_position,
            28 + header.tree_size as u64
        );
    }
}

#[test]
fn index_file_cut_short_is_an_io_error() {
    let files = test_files();
    let header = HeaderV2::decode(&files.dir[..28]).unwrap();
    let tree_end = 28 + header.tree_size as usize;
    for cut in [0, 1, 27, 28, tree_end - 1, files.dir.len() - 49, files.dir.len() - 1] {
        let r = VPKv2::open(files.dir[..cut].to_vec(), files.data.clone());
        assert!(matches!(r, Err(ErrorKind::IO(_))), "cut at {}", cut);
    }
}

#[test]
fn opening_does_not_read_the_archive_files() {
    let files = test_files();
    assert!(VPKv2::open(files.dir.clone(), vec![]).is_ok());
}

#[test]
fn wrong_header_is_an_invalid_header() {
    let files = test_files();
    let mut dir = files.dir.clone();
    dir[0] ^= 0xff;
    assert_eq!(
        VPKv2::open(dir, vec![]).err(),
        Some(ErrorKind::InvalidHeader("Signature".to_string()))
    );
    let mut dir = files.dir.clone();
    dir[4] = 1;
    assert_eq!(
        VPKv2::open(dir, vec![]).err(),
        Some(ErrorKind::InvalidHeader("Major Version".to_string()))
    );
    let mut dir = files.dir.clone();
    dir[20] = 47;
    assert_eq!(
        VPKv2::open(dir, vec![]).err(),
        Some(ErrorKind::InvalidHeader("OtherMD5".to_string()))
    );
    let mut dir = files.dir.clone();
    dir[24] = 1;
    assert_eq!(
        VPKv2::open(dir, vec![]).err(),
        Some(ErrorKind::InvalidHeader("Signature".to_string()))
    );
}

#[test]
fn header_with_a_signature_section_is_accepted() {
    let files = test_files();
    let mut dir = files.dir.clone();
    dir[24..28].copy_from_slice(&296u32.to_le_bytes());
    // the signature section itself is not read
    assert!(VPKv2::open(dir, files.data).is_ok());
}

#[test]
fn broken_tree_is_malformed() {
    let files = test_files();
    let header = HeaderV2::decode(&files.dir[..28]).unwrap();
    let tree_end = 28 + header.tree_size as usize;
    let mut dir = files.dir.clone();
    // the three zero bytes that close the tree
    dir[tree_end - 1] = b'x';
    dir[tree_end - 2] = b'x';
    dir[tree_end - 3] = b'x';
    assert!(matches!(VPKv2::open(dir, vec![]), Err(ErrorKind::MalformedData(_))));
    // the terminator of the first record
    let mut dir = files.dir.clone();
    let first_record = 28 + "txt\0testing-folder\0PreloadOnly\0".len();
    dir[first_record + 16] = 0;
    assert!(matches!(VPKv2::open(dir, vec![]), Err(ErrorKind::MalformedData(_))));
}

#[test]
fn ragged_checksum_section_is_malformed() {
    let files = test_files();
    let mut dir = files.dir.clone();
    // one byte less for the checksum records, taken from their end
    dir[16] -= 1;
    dir.push(0);
    assert!(matches!(VPKv2::open(dir, vec![]), Err(ErrorKind::MalformedData(_))));
}

#[test]
fn fresh_archive_validates() {
    let vpk = open_test_vpk();
    assert!(vpk.archive_ranges_readable());
    assert!(vpk.validate_archive().is_empty());
    assert_eq!(vpk.validate_other(), Ok(()));
}

#[test]
fn corrupt_byte_in_a_checked_range_fails_that_record_alone() {
    let files = test_files();
    let first_len = b"Stored in an archive file.\n".len();
    for (at, failing) in [(0, 0), (first_len - 1, 0), (first_len, 1), (first_len + 5, 1)] {
        let mut data = files.data.clone();
        data[0][at] ^= 0x01;
        let vpk = VPKv2::open(files.dir.clone(), data).unwrap();
        let failed = vpk.validate_archive();
        assert_eq!(failed.len(), 1);
        assert_eq!(failed[0], &vpk.archive_md5()[failing]);
        // the sections of the index file are untouched
        assert_eq!(vpk.validate_other(), Ok(()));
    }
}

#[test]
fn corrupt_bytes_in_both_ranges_fail_both_records_in_order() {
    let files = test_files();
    let mut data = files.data.clone();
    let last = data[0].len() - 1;
    data[0][0] ^= 0x10;
    data[0][last] ^= 0x10;
    let vpk = VPKv2::open(files.dir.clone(), data).unwrap();
    let failed = vpk.validate_archive();
    assert_eq!(failed, vec![&vpk.archive_md5()[0], &vpk.archive_md5()[1]]);
}

#[test]
fn corrupt_byte_in_the_tree_fails_the_tree_checksum() {
    let files = test_files();
    let mut dir = files.dir.clone();
    // a byte of the preload data of the first file: the tree still reads
    let at = 28 + "txt\0testing-folder\0PreloadOnly\0".len() + 18 + 3;
    assert_eq!(dir[at], b's');
    dir[at] = b'S';
    let vpk = VPKv2::open(dir, files.data.clone()).unwrap();
    assert_eq!(
        vpk.validate_other(),
        Err(ErrorKind::ValidationFailed("tree_checksum".to_string()))
    );
    assert!(vpk.validate_archive().is_empty());
}

#[test]
fn corrupt_byte_in_the_checksum_records_fails_their_checksum() {
    let files = test_files();
    let header = HeaderV2::decode(&files.dir[..28]).unwrap();
    let mut dir = files.dir.clone();
    let at = header.get_archive_md5_start() as usize + 12;
    dir[at] ^= 0xff;
    let vpk = VPKv2::open(dir, files.data.clone()).unwrap();
    assert_eq!(
        vpk.validate_other(),
        Err(ErrorKind::ValidationFailed("archive_md5_section_checksum".to_string()))
    );
    // and the record whose stored checksum was changed fails too
    let failed = vpk.validate_archive();
    assert_eq!(failed, vec![&vpk.archive_md5()[0]]);
}

#[test]
fn tree_mismatch_is_named_before_the_mismatch_of_the_records() {
    let files = test_files();
    let header = HeaderV2::decode(&files.dir[..28]).unwrap();
    let mut dir = files.dir.clone();
    dir[header.get_archive_md5_start() as usize + 12] ^= 0xff;
    dir[28 + "txt\0testing-folder\0PreloadOnly\0".len() + 18] ^= 0x20;
    let vpk = VPKv2::open(dir, files.data.clone()).unwrap();
    assert_eq!(
        vpk.validate_other(),
        Err(ErrorKind::ValidationFailed("tree_checksum".to_string()))
    );
}

#[test]
fn missing_archive_file_is_seen_before_validation_and_at_lookup() {
    let files = test_files();
    let vpk = VPKv2::open(files.dir.clone(), vec![]).unwrap();
    assert!(!vpk.archive_ranges_readable());
    assert!(matches!(
        vpk.get_entry_from_path("testing-folder/ArchiveOnly.txt"),
        Err(ErrorKind::IO(_))
    ));
    // a file that is embedded can still be read
    let mut out = Vec::new();
    vpk.get_entry_from_path("testing-folder/EmbededArchiveOnly.txt")
        .unwrap()
        .read_to_end(&mut out)
        .unwrap();
    assert_eq!(out, b"Embedded.\n");
    // an archive file that is too short
    let vpk = VPKv2::open(files.dir.clone(), vec![files.data[0][..10].to_vec()]).unwrap();
    assert!(!vpk.archive_ranges_readable());
}

#[test]
fn readers_share_the_files_of_the_archive() {
    let vpk = open_test_vpk();
    let mut a = vpk.get_entry_from_path("testing-folder/PreloadAndArchive.txt").unwrap();
    let mut b = vpk.get_entry_from_path("testing-folder/ArchiveOnly.txt").unwrap();
    let mut c = vpk.get_entry_from_path("testing-folder/PreloadAndArchive.txt").unwrap();
    let mut buf = [0u8; 4];
    assert_eq!(a.seek(SeekFrom::Start(20)), 20);
    assert_eq!(b.read(&mut buf), Ok(4));
    assert_eq!(&buf, b"Stor");
    assert_eq!(a.read(&mut buf), Ok(4));
    assert_eq!(&buf, b". An");
    assert_eq!(c.read(&mut buf), Ok(4));
    assert_eq!(&buf, b"This");
    assert_eq!(b.read(&mut buf), Ok(4));
    assert_eq!(&buf, b"ed i");
}

#[test]
fn keys_of_other_tools_may_hold_bytes_above_127() {
    // a tree as another tool may write it, with the path "d\xe9j\xe0"
    let mut tree = Vec::new();
    tree.extend(b"txt\0d\xe9j\xe0\0vu\0");
    tree.extend(
        valve_resource_tools::DirectoryEntryData {
            crc: 0,
            preload_bytes_size: 2,
            archive_index: 0x7fff,
            data_offset: 0,
            data_length: 0,
            terminator: 0xffff,
        }
        .encode(),
    );
    tree.extend(b"ok");
    tree.extend([0, 0, 0]);
    let mut header = HeaderV2::default();
    header.tree_size = tree.len() as u32;
    header.other_md5_section_size = 48;
    let mut dir = header.encode();
    dir.extend(&tree);
    dir.extend([0u8; 48]);
    let vpk = VPKv2::open(dir, vec![]).unwrap();
    let mut out = Vec::new();
    vpk.get_entry_from_path("d\u{e9}j\u{e0}/vu.txt").unwrap().read_to_end(&mut out).unwrap();
    assert_eq!(out, b"ok");
    assert!(vpk.get_entry_from_path("deja/vu.txt").is_err());
    assert!(matches!(vpk.validate_other(), Err(ErrorKind::ValidationFailed(_))));
}

fn index_file_with_checksum(sum: valve_resource_tools::ArchiveMD5SectionEntry) -> Vec<u8> {
    let mut header = HeaderV2::default();
    header.tree_size = 1;
    header.archive_md5_section_size = 28;
    header.other_md5_section_size = 48;
    let mut dir = header.encode();
    dir.push(0);
    dir.extend(sum.encode());
    dir.extend([0u8; 48]);
    dir
}

#[test]
fn checksum_of_no_bytes_is_read_wherever_it_points() {
    let empty = [
        0xd4, 0x1d, 0x8c, 0xd9, 0x8f, 0x00, 0xb2, 0x04, 0xe9, 0x80, 0x09, 0x98, 0xec, 0xf8, 0x42,
        0x7e,
    ];
    let sum = valve_resource_tools::ArchiveMD5SectionEntry {
        archive_index: 0,
        starting_offset: 1000,
        count: 0,
        md5_checksum: empty,
    };
    let vpk = VPKv2::open(index_file_with_checksum(sum), vec![b"short".to_vec()]).unwrap();
    assert!(vpk.archive_ranges_readable());
    assert!(vpk.validate_archive().is_empty());
    // but its archive file must be there
    let vpk = VPKv2::open(index_file_with_checksum(sum), vec![]).unwrap();
    assert!(!vpk.archive_ranges_readable());
}

#[test]
fn checksum_that_differs_from_the_start_is_reported() {
    let sum = valve_resource_tools::ArchiveMD5SectionEntry {
        archive_index: 1,
        starting_offset: 1,
        count: 3,
        md5_checksum: [0; 16],
    };
    let data = vec![vec![], b"xabcx".to_vec()];
    let vpk = VPKv2::open(index_file_with_checksum(sum), data.clone()).unwrap();
    assert!(vpk.archive_ranges_readable());
    assert_eq!(vpk.validate_archive(), vec![&sum]);
    let mut right = sum;
    right.md5_checksum = [
        0x90, 0x01, 0x50, 0x98, 0x3c, 0xd2, 0x4f, 0xb0, 0xd6, 0x96, 0x3f, 0x7d, 0x28, 0xe1, 0x7f,
        0x72,
    ];
    let vpk = VPKv2::open(index_file_with_checksum(right), data).unwrap();
    assert!(vpk.validate_archive().is_empty());
}
