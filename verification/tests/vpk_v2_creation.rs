use valve_resource_tools::create::build_archive;
use valve_resource_tools::{
    ArchiveFiles, ArchiveMD5SectionEntry, DirectoryEntryData, EntryPrototype, ErrorKind, Extract,
    HeaderV2, VPKv2, ValidateArchive, ValidateOther,
};

const DIR_NAME: &str = "testing-folder";

const PRELOAD_ONLY: &[u8] = b"This file is preload only.";
const ARCHIVE_ONLY: &[u8] = b"This file is stored in an archive file and in no other place.\n";
const EMBEDDED_ONLY: &[u8] = b"This file is embedded in the index file, behind the tree.\n";
const PRELOAD_AND_ARCHIVE: &[u8] =
    b"This part is preload. And this part is stored in an archive file.\n";

fn get_example_data(name: &str) -> Vec<u8> {
    match name {
        "PreloadOnly.txt" => PRELOAD_ONLY.to_vec(),
        "ArchiveOnly.txt" => ARCHIVE_ONLY.to_vec(),
        "EmbededArchiveOnly.txt" => EMBEDDED_ONLY.to_vec(),
        "PreloadAndArchive.txt" => PRELOAD_AND_ARCHIVE.to_vec(),
        _ => panic!("no example data of the name {}", name),
    }
}

fn proto(embed: bool, preload: u16, path: &str, name: &str, ext: &str, data: &[u8]) -> EntryPrototype {
    EntryPrototype::new(
        embed,
        preload,
        path.to_string(),
        name.to_string(),
        ext.to_string(),
        data.to_vec(),
    )
}

fn every_entry_permutation() -> Vec<EntryPrototype> {
    vec![
        /* Preload only */
        EntryPrototype::new(false, 26, DIR_NAME.to_string(), "PreloadOnly".to_string(), "txt".to_string(), get_example_data("PreloadOnly.txt")),
        /* Data Archive only */
        EntryPrototype::new(false, 0, DIR_NAME.to_string(), "ArchiveOnly".to_string(), "txt".to_string(), get_example_data("ArchiveOnly.txt")),
        /* Embedded Archive Only */
        EntryPrototype::new(true, 0, DIR_NAME.to_string(), "EmbededArchiveOnly".to_string(), "txt".to_string(), get_example_data("EmbededArchiveOnly.txt")),
        /* Preload and Archive */
        EntryPrototype::new(false, 21, DIR_NAME.to_string(), "PreloadAndArchive".to_string(), "txt".to_string(), get_example_data("PreloadAndArchive.txt")),
    ]
}

fn read_all(vpk: &VPKv2, path: &str) -> Vec<u8> {
    let mut buf = Vec::new();
    vpk.get_entry_from_path(path)
        .expect(&format!("{} does not exist", path))
        .read_to_end(&mut buf)
        .expect(&format!("Couldn't read whole entry at \"{}\"", path));
    buf
}

fn md5_hex(hex: &str) -> [u8; 16] {
    let mut out = [0u8; 16];
    for i in 0..16 {
        out[i] = u8::from_str_radix(&hex[2 * i..2 * i + 2], 16).unwrap();
    }
    out
}

/// Creates a vpk with every possible entry type then opens the vpk to ensure it reads properly.
#[test]
fn create_with_every_entry_permutation() {
    assert_eq!(PRELOAD_ONLY.len(), 26);
    assert_eq!(&PRELOAD_AND_ARCHIVE[..21], b"This part is preload.");
    let ents = every_entry_permutation();

    let files = VPKv2::create(&ents).expect("Create failed");

    /* Check the file opens correctly */
    {
        let vpk = VPKv2::open(files.dir, files.data).expect("Couldn't open VPK");
        if !vpk.validate_archive().is_empty() {
            panic!("Validation failed")
        }
        vpk.validate_other().expect("Other validation section failed");

        /* Read entries and check they are correct */
        for f in &[
            "PreloadOnly.txt",
            "PreloadAndArchive.txt",
            "ArchiveOnly.txt",
            "EmbededArchiveOnly.txt",
        ] {
            let path = &(DIR_NAME.to_owned() + "/" + f);
            let buf = read_all(&vpk, path);
            let res = get_example_data(f);
            if buf != res {
                panic!("File entry \"{}\" does not match original content", path)
            }
        }
    }
}

#[test]
fn records_say_where_the_bytes_went() {
    let files = VPKv2::create(&every_entry_permutation()).unwrap();
    let record = |preload: u16, index: u16, offset: u32, length: u32| DirectoryEntryData {
        crc: 0,
        preload_bytes_size: preload,
        archive_index: index,
        data_offset: offset,
        data_length: length,
        terminator: 0xffff,
    };
    assert_eq!(
        files.entries,
        vec![
            record(26, 0, 0, 0),
            record(0, 0, 0, ARCHIVE_ONLY.len() as u32),
            record(0, 0x7fff, 0, EMBEDDED_ONLY.len() as u32),
            record(
                21,
                0,
                ARCHIVE_ONLY.len() as u32,
                (PRELOAD_AND_ARCHIVE.len() - 21) as u32
            ),
        ]
    );
}

#[test]
fn archive_file_holds_the_stored_bytes_in_order() {
    let files = VPKv2::create(&every_entry_permutation()).unwrap();
    assert_eq!(files.data.len(), 1);
    let mut expected = ARCHIVE_ONLY.to_vec();
    expected.extend_from_slice(&PRELOAD_AND_ARCHIVE[21..]);
    assert_eq!(files.data[0], expected);
}

#[test]
fn index_file_is_header_tree_embedded_checksums() {
    let files = VPKv2::create(&every_entry_permutation()).unwrap();
    let dir = &files.dir;
    let header = HeaderV2::decode(&dir[..28]).unwrap();
    assert_eq!(header.signature, 0x55aa1234);
    assert_eq!(header.version, 2);
    assert_eq!(header.file_data_section_size as usize, EMBEDDED_ONLY.len());
    assert_eq!(header.archive_md5_section_size, 2 * 28);
    assert_eq!(header.other_md5_section_size, 48);
    assert_eq!(header.signature_section_size, 0);
    assert_eq!(header.is_valid(), Ok(()));

    let mut tree = Vec::new();
    tree.extend(b"txt\0testing-folder\0");
    for (name, e, preload) in [
        ("PreloadOnly", files.entries[0], &PRELOAD_ONLY[..]),
        ("ArchiveOnly", files.entries[1], &b""[..]),
        ("EmbededArchiveOnly", files.entries[2], &b""[..]),
        ("PreloadAndArchive", files.entries[3], &PRELOAD_AND_ARCHIVE[..21]),
    ] {
        tree.extend(name.as_bytes());
        tree.push(0);
        tree.extend(e.encode());
        tree.extend(preload);
    }
    tree.extend([0, 0, 0]);
    assert_eq!(header.tree_size as usize, tree.len());
    let tree_end = 28 + tree.len();
    assert_eq!(&dir[28..tree_end], &tree[..]);

    let embedded_end = tree_end + EMBEDDED_ONLY.len();
    assert_eq!(&dir[tree_end..embedded_end], EMBEDDED_ONLY);
    assert_eq!(dir.len(), embedded_end + 56 + 48);
    assert_eq!(&dir[dir.len() - 16..], &[0u8; 16]);
}

#[test]
fn checksum_records_are_md5_of_the_stored_bytes() {
    let files = VPKv2::create(&[
        proto(false, 0, "p", "abc", "txt", b"abc"),
        proto(true, 0, "p", "skipped", "txt", b"embedded"),
        proto(false, 1, "p", "xa", "txt", b"xa"),
    ])
    .unwrap();
    let vpk = VPKv2::open(files.dir, files.data).unwrap();
    assert_eq!(
        vpk.archive_md5(),
        &vec![
            ArchiveMD5SectionEntry {
                archive_index: 0,
                starting_offset: 0,
                count: 3,
                md5_checksum: md5_hex("900150983cd24fb0d6963f7d28e17f72"),
            },
            ArchiveMD5SectionEntry {
                archive_index: 0,
                starting_offset: 3,
                count: 1,
                md5_checksum: md5_hex("0cc175b9c0f1b6a831c399e269772661"),
            },
        ]
    );
}

#[test]
fn checksum_of_an_empty_section_is_md5_of_nothing() {
    let files = VPKv2::create(&[proto(true, 0, "p", "f", "txt", b"embedded")]).unwrap();
    let vpk = VPKv2::open(files.dir, files.data).unwrap();
    assert!(vpk.archive_md5().is_empty());
    let other = vpk.other_md5();
    assert_eq!(other.archive_md5_section_checksum, md5_hex("d41d8cd98f00b204e9800998ecf8427e"));
    assert_eq!(other.unknown, [0u8; 16]);
    assert_ne!(other.tree_checksum, md5_hex("d41d8cd98f00b204e9800998ecf8427e"));
}

#[test]
fn tree_checksum_is_md5_of_the_tree() {
    let files = VPKv2::create(&[]).unwrap();
    // the tree of no files is one zero byte
    assert_eq!(files.dir.len(), 28 + 1 + 48);
    assert_eq!(files.dir[28], 0);
    assert_eq!(&files.dir[29..45], &md5_hex("93b885adfe0da089cdf634904fd59f71"));
    assert!(files.data.is_empty());
    assert!(files.entries.is_empty());
    let vpk = VPKv2::open(files.dir, files.data).unwrap();
    assert_eq!(vpk.directory().len(), 0);
    assert_eq!(vpk.validate_other(), Ok(()));
    assert!(vpk.validate_archive().is_empty());
}

#[test]
fn files_are_grouped_by_extension_and_path_in_order_of_first_occurrence() {
    let files = VPKv2::create(&[
        proto(true, 0, "a", "1", "x", b"-"),
        proto(true, 0, "b", "2", "y", b"-"),
        proto(true, 0, "b", "3", "x", b"-"),
        proto(true, 0, "a", "4", "y", b"-"),
        proto(true, 0, "a", "5", "x", b"-"),
        proto(true, 0, "b", "6", "x", b"-"),
    ])
    .unwrap();
    let vpk = VPKv2::open(files.dir, files.data).unwrap();
    let keys: Vec<String> = vpk
        .directory()
        .records
        .iter()
        .map(|r| String::from_utf8(r.key.clone()).unwrap())
        .collect();
    assert_eq!(keys, vec!["a/1.x", "a/5.x", "b/3.x", "b/6.x", "b/2.y", "a/4.y"]);
    // each extension and each of its paths is written once
    let tree_size = vpk.header().tree_size as usize;
    let names = 2 * 2 /* x, y */ + 4 * 2 /* a, b under each */ + 6 * 2;
    assert_eq!(tree_size, names + 6 * 18 + 4 /* ends of paths */ + 2 /* ends of extensions */ + 1);
}

#[test]
fn duplicate_files_are_refused() {
    let mut ents = every_entry_permutation();
    ents.push(proto(true, 0, DIR_NAME, "ArchiveOnly", "txt", b"other content"));
    assert!(matches!(VPKv2::create(&ents), Err(ErrorKind::AlreadyExists(_))));
    assert!(matches!(build_archive(&ents), Some(Err(ErrorKind::AlreadyExists(_)))));
}

#[test]
fn same_name_under_another_path_or_extension_is_no_duplicate() {
    let ents = vec![
        proto(false, 0, "a", "f", "txt", b"1"),
        proto(false, 0, "b", "f", "txt", b"2"),
        proto(false, 0, "a", "f", "cfg", b"3"),
        proto(false, 0, "a", "g", "txt", b"4"),
    ];
    let files = VPKv2::create(&ents).unwrap();
    let vpk = VPKv2::open(files.dir, files.data).unwrap();
    assert_eq!(read_all(&vpk, "a/f.txt"), b"1");
    assert_eq!(read_all(&vpk, "b/f.txt"), b"2");
    assert_eq!(read_all(&vpk, "a/f.cfg"), b"3");
    assert_eq!(read_all(&vpk, "a/g.txt"), b"4");
}

#[test]
fn names_that_are_not_ascii_are_refused() {
    for ents in [
        vec![proto(false, 0, "données", "f", "txt", b"1")],
        vec![proto(false, 0, "a", "é", "txt", b"1")],
        vec![proto(false, 0, "a", "f", "tx\u{80}", b"1")],
        vec![proto(false, 0, "a", "f", "txt", b"1"), proto(true, 1, "a", "g\u{ff}", "txt", b"1")],
    ] {
        assert!(matches!(VPKv2::create(&ents), Err(ErrorKind::MalformedData(_))));
    }
}

#[test]
fn duplicates_are_reported_before_names_that_are_not_ascii() {
    let ents = vec![
        proto(false, 0, "a", "é", "txt", b"1"),
        proto(false, 0, "b", "f", "txt", b"2"),
        proto(false, 0, "b", "f", "txt", b"3"),
    ];
    assert!(matches!(VPKv2::create(&ents), Err(ErrorKind::AlreadyExists(_))));
    let ents = vec![
        proto(false, 0, "a", "é", "txt", b"1"),
        proto(false, 0, "a", "é", "txt", b"2"),
    ];
    assert!(matches!(VPKv2::create(&ents), Err(ErrorKind::AlreadyExists(_))));
}

#[test]
fn builder_declines_what_the_records_cannot_hold() {
    // more preload bytes than the file has
    let ents = vec![proto(false, 5, "a", "f", "txt", b"1234")];
    assert!(build_archive(&ents).is_none());
    let ents = vec![proto(false, 4, "a", "f", "txt", b"1234")];
    assert!(matches!(build_archive(&ents), Some(Ok(_))));
}

#[test]
fn empty_files_and_empty_preloads_round_trip() {
    let ents = vec![
        proto(false, 0, "a", "empty", "txt", b""),
        proto(true, 0, "a", "empty-embedded", "txt", b""),
        proto(true, 3, "a", "all-preload-embedded", "txt", b"abc"),
        proto(false, 0, "a", "no-preload", "txt", b"abc"),
    ];
    let files = VPKv2::create(&ents).unwrap();
    assert_eq!(files.data.len(), 1);
    assert_eq!(files.entries[0].archive_index, 0);
    assert_eq!(files.entries[1].archive_index, 0);
    assert_eq!(files.entries[2].archive_index, 0);
    assert_eq!(files.entries[2].data_length, 0);
    let vpk = VPKv2::open(files.dir, files.data).unwrap();
    assert_eq!(read_all(&vpk, "a/empty.txt"), b"");
    assert_eq!(read_all(&vpk, "a/empty-embedded.txt"), b"");
    assert_eq!(read_all(&vpk, "a/all-preload-embedded.txt"), b"abc");
    assert_eq!(read_all(&vpk, "a/no-preload.txt"), b"abc");
}

#[test]
fn preload_only_files_alone_still_get_their_archive_file() {
    let ents = vec![proto(true, 2, "a", "f", "txt", b"ab"), proto(false, 1, "a", "g", "txt", b"c")];
    let files = VPKv2::create(&ents).unwrap();
    assert_eq!(files.data, vec![Vec::<u8>::new()]);
    let vpk = VPKv2::open(files.dir, files.data).unwrap();
    assert_eq!(read_all(&vpk, "a/f.txt"), b"ab");
    assert_eq!(read_all(&vpk, "a/g.txt"), b"c");
}

fn build_and_open(ents: &[EntryPrototype]) -> (ArchiveFiles, VPKv2) {
    let files = VPKv2::create(ents).unwrap();
    let vpk = VPKv2::open(files.dir.clone(), files.data.clone()).unwrap();
    (files, vpk)
}

#[test]
fn file_above_the_split_size_closes_its_archive_file() {
    let big = vec![0x5au8; 100_000_001];
    let ents = vec![
        proto(false, 0, "a", "small", "bin", b"first"),
        proto(false, 0, "a", "big", "bin", &big),
        proto(true, 0, "a", "embedded", "bin", b"between"),
        proto(false, 2, "a", "next", "bin", b"..second"),
        proto(false, 0, "a", "last", "bin", b"third"),
    ];
    drop(big);
    let (files, vpk) = build_and_open(&ents);
    assert_eq!(files.data.len(), 2);
    assert_eq!(files.data[0].len(), 5 + 100_000_001);
    assert_eq!(files.data[1], b"secondthird");
    assert_eq!(files.entries[0].archive_index, 0);
    assert_eq!(files.entries[1].archive_index, 0);
    assert_eq!(files.entries[1].data_offset, 5);
    assert_eq!(files.entries[3].archive_index, 1);
    assert_eq!(files.entries[3].data_offset, 0);
    assert_eq!(files.entries[4].archive_index, 1);
    assert_eq!(files.entries[4].data_offset, 6);
    // the file that crossed the size is found under the number that was recorded
    let reader = vpk.get_entry_from_path("a/big.bin").unwrap();
    assert_eq!(reader.handle().entry, files.entries[1]);
    let mut reader = reader;
    reader.seek(valve_resource_tools::SeekFrom::End(3));
    let mut tail = Vec::new();
    assert_eq!(reader.read_to_end(&mut tail), Ok(3));
    assert_eq!(tail, vec![0x5au8; 3]);
    assert_eq!(read_all(&vpk, "a/next.bin"), b"..second");
    assert_eq!(read_all(&vpk, "a/last.bin"), b"third");
    assert!(vpk.validate_archive().is_empty());
}

#[test]
fn split_goes_by_the_size_of_the_file_with_its_preload() {
    // exactly the split size: no new archive file
    let at = vec![1u8; 100_000_000];
    let ents = vec![proto(false, 10, "a", "at", "bin", &at), proto(false, 0, "a", "b", "bin", b"x")];
    drop(at);
    let files = VPKv2::create(&ents).unwrap();
    assert_eq!(files.data.len(), 1);
    assert_eq!(files.entries[1].archive_index, 0);
    assert_eq!(files.entries[1].data_offset, 99_999_990);
}

#[test]
fn many_files_below_the_split_size_share_one_archive_file() {
    let part = vec![2u8; 40_000_000];
    let ents = vec![
        proto(false, 0, "a", "1", "bin", &part),
        proto(false, 0, "a", "2", "bin", &part),
        proto(false, 0, "a", "3", "bin", &part),
    ];
    drop(part);
    let files = VPKv2::create(&ents).unwrap();
    assert_eq!(files.data.len(), 1);
    assert_eq!(files.entries[2].archive_index, 0);
    assert_eq!(files.entries[2].data_offset, 80_000_000);
}

#[test]
fn no_archive_file_is_begun_behind_the_last_split() {
    let big = vec![3u8; 100_000_001];
    let ents = vec![
        proto(false, 0, "a", "big", "bin", &big),
        proto(true, 0, "a", "embedded", "bin", b"x"),
        proto(false, 1, "a", "preload", "bin", b"y"),
    ];
    drop(big);
    let files = VPKv2::create(&ents).unwrap();
    assert_eq!(files.data.len(), 1);
}
