use valve_resource_tools::{read_directory_tree, DirectoryEntryData, ErrorKind};

fn entry(preload: u16, index: u16, offset: u32, length: u32) -> DirectoryEntryData {
    DirectoryEntryData {
        crc: 0,
        preload_bytes_size: preload,
        archive_index: index,
        data_offset: offset,
        data_length: length,
        terminator: 0xffff,
    }
}

fn file(name: &str, e: DirectoryEntryData, preload: &[u8]) -> Vec<u8> {
    let mut bytes = name.as_bytes().to_vec();
    bytes.push(0);
    bytes.extend(e.encode());
    bytes.extend_from_slice(preload);
    bytes
}

/// txt: { a: [one, two(preload "hey")], b: [three] }, cfg: { a: [four] }
fn sample_tree() -> Vec<u8> {
    let mut t = Vec::new();
    t.extend(b"txt\0");
    t.extend(b"a\0");
    t.extend(file("one", entry(0, 0, 0, 10), b""));
    t.extend(file("two", entry(3, 0x7fff, 4, 5), b"hey"));
    t.push(0);
    t.extend(b"b\0");
    t.extend(file("three", entry(0, 1, 100, 1), b""));
    t.push(0);
    t.push(0);
    t.extend(b"cfg\0");
    t.extend(b"a\0");
    t.extend(file("four", entry(2, 0, 0, 0), b"ok"));
    t.push(0);
    t.push(0);
    t.push(0);
    t
}

#[test]
fn empty_tree_has_no_files() {
    let directory = read_directory_tree(&[0], 28, 29).unwrap();
    assert_eq!(directory.len(), 0);
}

#[test]
fn tree_is_read_in_its_order() {
    let directory = read_directory_tree(&sample_tree(), 28, 500).unwrap();
    let keys: Vec<&[u8]> = directory.records.iter().map(|r| r.key.as_slice()).collect();
    assert_eq!(
        keys,
        vec![&b"a/one.txt"[..], &b"a/two.txt"[..], &b"b/three.txt"[..], &b"a/four.cfg"[..]]
    );
    assert_eq!(directory.len(), 4);
}

#[test]
fn handles_hold_the_records_and_the_positions() {
    let tree = sample_tree();
    let directory = read_directory_tree(&tree, 28, 500).unwrap();
    let one = &directory.records[0].handle;
    assert_eq!(one.entry, entry(0, 0, 0, 10));
    // "txt\0" "a\0" "one\0" and the record of 18 bytes
    assert_eq!(one.preload_data_position, 28 + 4 + 2 + 4 + 18);
    assert_eq!(one.directory_archive_data_start_position, 500);
    let two = &directory.records[1].handle;
    assert_eq!(two.entry, entry(3, 0x7fff, 4, 5));
    assert_eq!(two.preload_data_position, one.preload_data_position + 4 + 18);
    let at = (two.preload_data_position - 28) as usize;
    assert_eq!(&tree[at..at + 3], b"hey");
    let three = &directory.records[2].handle;
    // behind the preload bytes "hey", the zero that ends path a, "b\0", "three\0"
    assert_eq!(three.preload_data_position, two.preload_data_position + 3 + 1 + 2 + 6 + 18);
    let four = &directory.records[3].handle;
    let at = (four.preload_data_position - 28) as usize;
    assert_eq!(&tree[at..at + 2], b"ok");
    assert_eq!(four.directory_archive_data_start_position, 500);
}

#[test]
fn bytes_behind_the_tree_are_not_read() {
    let mut tree = sample_tree();
    tree.extend(b"garbage without end");
    assert_eq!(read_directory_tree(&tree, 28, 500).unwrap().len(), 4);
}

#[test]
fn preload_bytes_may_hold_zeros() {
    let mut t = Vec::new();
    t.extend(b"bin\0d\0");
    t.extend(file("f", entry(4, 0, 0, 0), &[0, 0, 0, 0]));
    t.extend(file("g", entry(0, 0, 0, 1), b""));
    t.extend([0, 0, 0]);
    let directory = read_directory_tree(&t, 0, 0).unwrap();
    assert_eq!(directory.len(), 2);
    assert_eq!(directory.records[1].key, b"d/g.bin");
}

#[test]
fn wrong_terminator_is_malformed() {
    let mut t = Vec::new();
    t.extend(b"txt\0a\0");
    let mut e = entry(0, 0, 0, 1);
    e.terminator = 0;
    t.extend(file("one", e, b""));
    t.extend([0, 0, 0]);
    assert_eq!(
        read_directory_tree(&t, 28, 100),
        Err(ErrorKind::MalformedData("Directory Entry Terminator".to_string()))
    );
}

#[test]
fn tree_cut_short_is_malformed() {
    let tree = sample_tree();
    for cut in 0..tree.len() {
        let r = read_directory_tree(&tree[..cut], 28, 500);
        assert!(matches!(r, Err(ErrorKind::MalformedData(_))), "cut at {}", cut);
    }
    assert!(read_directory_tree(&tree, 28, 500).is_ok());
}

#[test]
fn empty_input_is_malformed() {
    assert!(matches!(read_directory_tree(&[], 0, 0), Err(ErrorKind::MalformedData(_))));
}

#[test]
fn preload_bytes_that_pass_the_end_are_malformed() {
    let mut t = Vec::new();
    t.extend(b"txt\0a\0");
    t.extend(file("one", entry(10, 0, 0, 0), b"short"));
    assert!(matches!(read_directory_tree(&t, 28, 100), Err(ErrorKind::MalformedData(_))));
}

#[test]
fn the_last_of_two_records_with_one_key_is_found() {
    let mut t = Vec::new();
    t.extend(b"txt\0a\0");
    t.extend(file("one", entry(0, 0, 0, 1), b""));
    t.extend(file("one", entry(0, 0, 7, 2), b""));
    t.extend([0, 0, 0]);
    let directory = read_directory_tree(&t, 28, 100).unwrap();
    assert_eq!(directory.find(b"a/one.txt"), Some(1));
    assert_eq!(directory.find(b"a/two.txt"), None);
    assert_eq!(directory.find(b""), None);
}

#[test]
fn an_extension_may_come_twice() {
    let mut t = Vec::new();
    t.extend(b"txt\0a\0");
    t.extend(file("one", entry(0, 0, 0, 1), b""));
    t.extend([0, 0]);
    t.extend(b"txt\0b\0");
    t.extend(file("two", entry(0, 0, 1, 1), b""));
    t.extend([0, 0, 0]);
    let directory = read_directory_tree(&t, 28, 100).unwrap();
    assert_eq!(directory.find(b"a/one.txt"), Some(0));
    assert_eq!(directory.find(b"b/two.txt"), Some(1));
}
