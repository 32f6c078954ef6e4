use valve_resource_tools::{DirectoryEntryData, EntryReader, ErrorKind, Handle, SeekFrom};

fn handle(preload: u16, index: u16, offset: u32, length: u32, at: u64, start: u64) -> Handle {
    Handle {
        entry: DirectoryEntryData {
            crc: 0,
            preload_bytes_size: preload,
            archive_index: index,
            data_offset: offset,
            data_length: length,
            terminator: 0xffff,
        },
        preload_data_position: at,
        directory_archive_data_start_position: start,
    }
}

/// An index file with preload bytes "PRE" at 10 and embedded content from 20 on.
fn index_file() -> Vec<u8> {
    let mut dir = vec![b'.'; 40];
    dir[10..13].copy_from_slice(b"PRE");
    dir[20..30].copy_from_slice(b"0123456789");
    dir
}

const ARCHIVE: &[u8] = b"abcdefghijklmnopqrstuvwxyz";

fn external<'a>(dir: &'a [u8]) -> EntryReader<'a> {
    // preload "PRE", then "fghij" from the archive file
    EntryReader::new(handle(3, 0, 5, 5, 10, 20), dir, Some(ARCHIVE))
}

fn embedded<'a>(dir: &'a [u8]) -> EntryReader<'a> {
    // preload "PRE", then "2345" from behind the tree
    EntryReader::new(handle(3, 0x7fff, 2, 4, 10, 20), dir, None)
}

#[test]
fn whole_file_is_preload_then_stored_bytes() {
    let dir = index_file();
    let mut out = Vec::new();
    assert_eq!(external(&dir).read_to_end(&mut out), Ok(8));
    assert_eq!(out, b"PREfghij");
    let mut out = b"keep".to_vec();
    assert_eq!(embedded(&dir).read_to_end(&mut out), Ok(7));
    assert_eq!(out, b"keepPRE2345");
}

#[test]
fn read_fills_the_buffer_across_the_end_of_the_preload() {
    let dir = index_file();
    let mut r = external(&dir);
    let mut buf = [0u8; 5];
    assert_eq!(r.read(&mut buf), Ok(5));
    assert_eq!(&buf, b"PREfg");
    assert_eq!(r.position(), 5);
    assert_eq!(r.read(&mut buf), Ok(3));
    assert_eq!(&buf, b"hijfg");
    assert_eq!(r.position(), 8);
    assert_eq!(r.read(&mut buf), Ok(0));
    assert_eq!(&buf, b"hijfg");
}

#[test]
fn read_within_the_preload() {
    let dir = index_file();
    let mut r = embedded(&dir);
    let mut buf = [0u8; 2];
    assert_eq!(r.read(&mut buf), Ok(2));
    assert_eq!(&buf, b"PR");
    assert_eq!(r.read(&mut buf), Ok(2));
    assert_eq!(&buf, b"E2");
    assert_eq!(r.read(&mut buf), Ok(2));
    assert_eq!(&buf, b"34");
    assert_eq!(r.read(&mut buf), Ok(1));
    assert_eq!(&buf, b"54");
    assert_eq!(r.read(&mut buf), Ok(0));
}

#[test]
fn read_into_an_empty_buffer_reads_nothing() {
    let dir = index_file();
    let mut r = external(&dir);
    assert_eq!(r.read(&mut []), Ok(0));
    assert_eq!(r.position(), 0);
}

#[test]
fn seek_from_start_clamps_to_the_length() {
    let dir = index_file();
    let mut r = external(&dir);
    assert_eq!(r.seek(SeekFrom::Start(4)), 4);
    assert_eq!(r.seek(SeekFrom::Start(8)), 8);
    assert_eq!(r.seek(SeekFrom::Start(9)), 8);
    assert_eq!(r.seek(SeekFrom::Start(u64::MAX)), 8);
    assert_eq!(r.seek(SeekFrom::Start(0)), 0);
}

#[test]
fn seek_from_end_counts_backwards() {
    let dir = index_file();
    let mut r = external(&dir);
    assert_eq!(r.seek(SeekFrom::End(0)), 8);
    assert_eq!(r.seek(SeekFrom::End(3)), 5);
    assert_eq!(r.seek(SeekFrom::End(8)), 0);
    assert_eq!(r.seek(SeekFrom::End(9)), 0);
    assert_eq!(r.seek(SeekFrom::End(i64::MAX)), 0);
    assert_eq!(r.seek(SeekFrom::End(-1)), 8);
    assert_eq!(r.seek(SeekFrom::End(i64::MIN)), 8);
}

#[test]
fn seek_from_current_clamps_at_both_ends() {
    let dir = index_file();
    let mut r = external(&dir);
    assert_eq!(r.seek(SeekFrom::Current(3)), 3);
    assert_eq!(r.seek(SeekFrom::Current(-1)), 2);
    assert_eq!(r.seek(SeekFrom::Current(-3)), 0);
    assert_eq!(r.seek(SeekFrom::Current(i64::MIN)), 0);
    assert_eq!(r.seek(SeekFrom::Current(100)), 8);
    assert_eq!(r.seek(SeekFrom::Current(i64::MAX)), 8);
    assert_eq!(r.seek(SeekFrom::Current(0)), 8);
    assert_eq!(r.seek(SeekFrom::Current(-8)), 0);
}

#[test]
fn read_after_a_seek_past_the_end_gives_no_bytes() {
    let dir = index_file();
    let mut r = external(&dir);
    r.seek(SeekFrom::Start(1000));
    let mut buf = [7u8; 4];
    assert_eq!(r.read(&mut buf), Ok(0));
    assert_eq!(buf, [7u8; 4]);
}

#[test]
fn read_after_a_seek_into_the_stored_bytes() {
    let dir = index_file();
    let mut r = external(&dir);
    r.seek(SeekFrom::Start(5));
    let mut out = Vec::new();
    assert_eq!(r.read_to_end(&mut out), Ok(3));
    assert_eq!(out, b"hij");
    let mut r = embedded(&dir);
    r.seek(SeekFrom::End(2));
    let mut out = Vec::new();
    assert_eq!(r.read_to_end(&mut out), Ok(2));
    assert_eq!(out, b"45");
}

#[test]
fn readers_over_one_file_keep_their_own_cursors() {
    let dir = index_file();
    let mut a = external(&dir);
    let mut b = external(&dir);
    let mut one = [0u8; 1];
    a.seek(SeekFrom::Start(6));
    assert_eq!(b.read(&mut one), Ok(1));
    assert_eq!(&one, b"P");
    assert_eq!(a.read(&mut one), Ok(1));
    assert_eq!(&one, b"i");
    assert_eq!(b.read(&mut one), Ok(1));
    assert_eq!(&one, b"R");
}

#[test]
fn preload_only_file_needs_no_stored_bytes() {
    let dir = index_file();
    // archive index 0 and an archive file that is empty
    let mut r = EntryReader::new(handle(3, 0, 0, 0, 10, 20), &dir, Some(&[]));
    let mut buf = [0u8; 10];
    assert_eq!(r.read(&mut buf), Ok(3));
    assert_eq!(&buf[..3], b"PRE");
    assert_eq!(r.read(&mut buf), Ok(0));
    // marked as embedded, with an offset far behind the end of the index file
    let mut r = EntryReader::new(handle(3, 0x7fff, 4000, 0, 10, 20), &dir, None);
    let mut out = Vec::new();
    assert_eq!(r.read_to_end(&mut out), Ok(3));
    assert_eq!(out, b"PRE");
    assert_eq!(r.read(&mut buf), Ok(0));
}

#[test]
fn file_without_any_bytes_is_at_its_end() {
    let dir = index_file();
    let mut r = EntryReader::new(handle(0, 0, 0, 0, 10, 20), &dir, Some(ARCHIVE));
    let mut buf = [0u8; 4];
    assert_eq!(r.read(&mut buf), Ok(0));
    let mut out = Vec::new();
    assert_eq!(r.read_to_end(&mut out), Ok(0));
    assert!(out.is_empty());
    assert_eq!(r.seek(SeekFrom::End(0)), 0);
}

#[test]
fn stored_bytes_that_pass_the_end_of_the_archive_file_fail_after_the_preload() {
    let dir = index_file();
    let mut r = EntryReader::new(handle(3, 0, 24, 5, 10, 20), &dir, Some(ARCHIVE));
    let mut buf = [0u8; 8];
    assert!(matches!(r.read(&mut buf), Err(ErrorKind::IO(_))));
    assert_eq!(&buf[..3], b"PRE");
    assert_eq!(r.position(), 3);
    // what lies within the archive file can still be read
    let mut two = [0u8; 2];
    assert_eq!(r.read(&mut two), Ok(2));
    assert_eq!(&two, b"yz");
}

#[test]
fn preload_bytes_that_pass_the_end_of_the_index_file_fail_at_once() {
    let dir = index_file();
    let mut r = EntryReader::new(handle(3, 0, 0, 5, 38, 20), &dir, Some(ARCHIVE));
    let mut buf = [9u8; 8];
    assert!(matches!(r.read(&mut buf), Err(ErrorKind::IO(_))));
    assert_eq!(buf, [9u8; 8]);
    assert_eq!(r.position(), 0);
    let mut out = vec![1, 2];
    assert!(matches!(r.read_to_end(&mut out), Err(ErrorKind::IO(_))));
    assert_eq!(out, vec![1, 2]);
}

#[test]
fn positions_beyond_any_file_are_io_errors() {
    let dir = index_file();
    let mut r = EntryReader::new(handle(3, 0, 0, 5, u64::MAX, 20), &dir, Some(ARCHIVE));
    let mut buf = [0u8; 8];
    r.seek(SeekFrom::Start(1));
    assert!(matches!(r.read(&mut buf), Err(ErrorKind::IO(_))));
    let mut r = EntryReader::new(handle(0, 0x7fff, u32::MAX, 5, 0, u64::MAX), &dir, None);
    assert!(matches!(r.read(&mut buf), Err(ErrorKind::IO(_))));
}

#[test]
fn reader_hands_out_its_handle() {
    let dir = index_file();
    let h = handle(3, 0, 5, 5, 10, 20);
    let r = EntryReader::new(h, &dir, Some(ARCHIVE));
    assert_eq!(r.handle(), h);
    assert_eq!(r.position(), 0);
}
