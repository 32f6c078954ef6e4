//! The directory tree of an index file.
//!
//! The tree is a run of strings, each closed by a zero byte, nested three
//! deep: an extension, then the paths that hold files of that extension,
//! then the names of the files under that path. An empty string closes a
//! level, and an empty extension closes the tree. Each file name is followed
//! by the file's record and by the file's preload bytes.

use vstd::prelude::*;
use vstd::string::*;
use vstd::slice::slice_subrange;
use crate::bytes::{append_bytes, bytes_equal};
use crate::data::DirectoryEntryData;
use crate::error::ErrorKind;

verus! {

/// What the directory knows of one file: its record, and where in the index
/// file its preload bytes and the embedded file content begin.
#[derive(Clone, Copy, Debug, PartialEq, Eq, Structural)]
pub struct Handle {
    /// The file's record as the tree holds it.
    pub entry: DirectoryEntryData,
    /// Where the file's preload bytes start in the index file.
    pub preload_data_position: u64,
    /// Where the embedded file content starts in the index file.
    pub directory_archive_data_start_position: u64,
}

/// One file of the tree in specifications: the key under which it is looked
/// up, and its handle.
pub ghost struct Record {
    pub key: Seq<u8>,
    pub handle: Handle,
}

/// One file of the tree: the key under which it is looked up, and its
/// handle.
#[derive(Clone, Debug, PartialEq, Eq)]
pub struct DirectoryRecord {
    /// `path/filename.extension`, byte for byte as the tree holds the three.
    pub key: Vec<u8>,
    /// Where the file's data is found.
    pub handle: Handle,
}

impl View for DirectoryRecord {
    type V = Record;

    open spec fn view(&self) -> Record {
        Record { key: self.key@, handle: self.handle }
    }
}

/// The files of a tree, in the order in which the tree names them.
#[derive(Clone, Debug, PartialEq, Eq)]
pub struct Directory {
    pub records: Vec<DirectoryRecord>,
}

impl View for Directory {
    type V = Seq<Record>;

    open spec fn view(&self) -> Seq<Record> {
        Seq::new(self.records@.len(), |i: int| self.records@[i]@)
    }
}

/// The key of a file: its path, a slash, its name, a dot, its extension.
pub open spec fn entry_key(path: Seq<u8>, filename: Seq<u8>, extension: Seq<u8>) -> Seq<u8> {
    path + seq![0x2fu8] + filename + seq![0x2eu8] + extension
}

/// A key as text: each byte is the character of that number.
pub open spec fn key_chars(key: Seq<u8>) -> Seq<char> {
    Seq::new(key.len(), |i: int| key[i] as char)
}

/// The position of the first zero byte at or behind `pos`, or the length of
/// `input` where there is none.
pub open spec fn string_end(input: Seq<u8>, pos: int) -> int
    decreases input.len() - pos,
{
    if pos < 0 || pos >= input.len() {
        input.len() as int
    } else if input[pos] == 0 {
        pos
    } else {
        string_end(input, pos + 1)
    }
}

/// Which level of the tree a string belongs to, and the names of the levels
/// above it.
pub ghost enum Scope {
    /// The next string is an extension.
    Extensions,
    /// The next string is a path under `extension`.
    Paths { extension: Seq<u8> },
    /// The next string is a file name under `path` and `extension`.
    Files { extension: Seq<u8>, path: Seq<u8> },
}

/// The files that the tree names from `pos` on, behind those in `found`,
/// when the string at `pos` belongs to `scope`. `None` where a string, a
/// record or a file's preload bytes pass the end of `input`, or a record's
/// terminator is wrong.
///
/// `offset` is where `input` starts in the index file, and `archive_offset`
/// where the embedded file content starts there.
pub open spec fn parse_tree_from(
    input: Seq<u8>,
    pos: int,
    scope: Scope,
    found: Seq<Record>,
    offset: int,
    archive_offset: int,
) -> Option<Seq<Record>>
    decreases input.len() - pos,
{
    let end = string_end(input, pos);
    if pos < 0 || end >= input.len() {
        None
    } else {
        proof {
            lemma_string_end(input, pos);
        }
        let name = input.subrange(pos, end);
        let next = end + 1;
        match scope {
            Scope::Extensions => if name.len() == 0 {
                Some(found)
            } else {
                parse_tree_from(
                    input,
                    next,
                    Scope::Paths { extension: name },
                    found,
                    offset,
                    archive_offset,
                )
            },
            Scope::Paths { extension } => if name.len() == 0 {
                parse_tree_from(input, next, Scope::Extensions, found, offset, archive_offset)
            } else {
                parse_tree_from(
                    input,
                    next,
                    Scope::Files { extension, path: name },
                    found,
                    offset,
                    archive_offset,
                )
            },
            Scope::Files { extension, path } => if name.len() == 0 {
                parse_tree_from(
                    input,
                    next,
                    Scope::Paths { extension },
                    found,
                    offset,
                    archive_offset,
                )
            } else if next + 18 > input.len() {
                None
            } else {
                let entry = DirectoryEntryData::spec_decode(input.subrange(next, next + 18));
                if !entry.spec_is_valid() || next + 18 + entry.preload_bytes_size > input.len() {
                    None
                } else {
                    let record = Record {
                        key: entry_key(path, name, extension),
                        handle: Handle {
                            entry,
                            preload_data_position: (offset + next + 18) as u64,
                            directory_archive_data_start_position: archive_offset as u64,
                        },
                    };
                    parse_tree_from(
                        input,
                        next + 18 + entry.preload_bytes_size,
                        scope,
                        found.push(record),
                        offset,
                        archive_offset,
                    )
                }
            },
        }
    }
}

/// The files that a tree names, in its order. `None` where the tree is cut
/// short or holds a record with a wrong terminator.
pub open spec fn parse_tree(input: Seq<u8>, offset: int, archive_offset: int) -> Option<
    Seq<Record>,
> {
    parse_tree_from(input, 0, Scope::Extensions, Seq::empty(), offset, archive_offset)
}

/// The string that starts at `pos` ends at `string_end`: no byte before it
/// is zero, and the byte there is zero unless `input` ends first.
pub proof fn lemma_string_end(input: Seq<u8>, pos: int)
    requires
        0 <= pos,
    ensures
        pos <= string_end(input, pos) || string_end(input, pos) == input.len(),
        string_end(input, pos) <= input.len(),
        forall|i: int| pos <= i < string_end(input, pos) ==> input[i] != 0,
        string_end(input, pos) < input.len() ==> input[string_end(input, pos)] == 0,
    decreases input.len() - pos,
{
    if pos < input.len() && input[pos] != 0 {
        lemma_string_end(input, pos + 1);
    }
}

/// The first zero byte at or behind `pos` is where the string ends.
pub proof fn lemma_string_end_is(input: Seq<u8>, pos: int, end: int)
    requires
        0 <= pos <= end <= input.len(),
        forall|i: int| pos <= i < end ==> input[i] != 0,
        end < input.len() ==> input[end] == 0,
    ensures
        string_end(input, pos) == end,
    decreases end - pos,
{
    if pos < end {
        lemma_string_end_is(input, pos + 1, end);
    }
}

/// Finds the end of the string that starts at `pos`.
fn find_string_end(input: &[u8], pos: usize) -> (end: usize)
    requires
        pos <= input@.len(),
    ensures
        end == string_end(input@, pos as int),
        pos <= end <= input@.len(),
{
    let mut end: usize = pos;
    while end < input.len() && input[end] != 0
        invariant
            pos <= end <= input@.len(),
            forall|i: int| pos <= i < end ==> input@[i] != 0,
        decreases input@.len() - end,
    {
        end = end + 1;
    }
    proof {
        lemma_string_end_is(input@, pos as int, end as int);
    }
    end
}

/// Builds the key of a file from the three names as they stand in `input`.
fn make_key(
    input: &[u8],
    path_start: usize,
    path_end: usize,
    name_start: usize,
    name_end: usize,
    extension_start: usize,
    extension_end: usize,
) -> (key: Vec<u8>)
    requires
        path_start <= path_end <= input@.len(),
        name_start <= name_end <= input@.len(),
        extension_start <= extension_end <= input@.len(),
    ensures
        key@ == entry_key(
            input@.subrange(path_start as int, path_end as int),
            input@.subrange(name_start as int, name_end as int),
            input@.subrange(extension_start as int, extension_end as int),
        ),
{
    let mut key: Vec<u8> = Vec::new();
    append_bytes(&mut key, slice_subrange(input, path_start, path_end));
    key.push(0x2f);
    append_bytes(&mut key, slice_subrange(input, name_start, name_end));
    key.push(0x2e);
    append_bytes(&mut key, slice_subrange(input, extension_start, extension_end));
    assert(key@ =~= entry_key(
        input@.subrange(path_start as int, path_end as int),
        input@.subrange(name_start as int, name_end as int),
        input@.subrange(extension_start as int, extension_end as int),
    ));
    key
}

/// Reads a directory tree.
///
/// `input` holds the tree, `offset` is where the tree starts in the index
/// file, and `directory_archive_offset` is where the embedded file content
/// starts there. The result names the files in the order of the tree; each
/// handle holds the position of the file's preload bytes in the index file.
/// Bytes behind the empty extension that closes the tree are not looked at.
///
/// A tree that is cut short, or that holds a record whose terminator is
/// wrong, is refused as `MalformedData`.
pub fn read_directory_tree(input: &[u8], offset: u64, directory_archive_offset: u64) -> (r: Result<
    Directory,
    ErrorKind,
>)
    requires
        offset + input@.len() <= u64::MAX,
    ensures
        match r {
            Ok(directory) => parse_tree(input@, offset as int, directory_archive_offset as int)
                == Some(directory@),
            Err(ErrorKind::MalformedData(_)) => parse_tree(
                input@,
                offset as int,
                directory_archive_offset as int,
            ) is None,
            Err(_) => false,
        },
{
    let mut records: Vec<DirectoryRecord> = Vec::new();
    let mut cursor: usize = 0;
    let mut level: u8 = 0;
    let mut extension_start: usize = 0;
    let mut extension_end: usize = 0;
    let mut path_start: usize = 0;
    let mut path_end: usize = 0;
    let ghost mut scope = Scope::Extensions;
    let ghost mut found: Seq<Record> = Seq::empty();
    loop
        invariant
            offset + input@.len() <= u64::MAX,
            cursor <= input@.len(),
            level <= 2,
            extension_start <= extension_end <= input@.len(),
            path_start <= path_end <= input@.len(),
            level == 0 ==> scope == Scope::Extensions,
            level == 1 ==> scope == (Scope::Paths {
                extension: input@.subrange(extension_start as int, extension_end as int),
            }),
            level == 2 ==> scope == (Scope::Files {
                extension: input@.subrange(extension_start as int, extension_end as int),
                path: input@.subrange(path_start as int, path_end as int),
            }),
            found.len() == records@.len(),
            forall|i: int| 0 <= i < found.len() ==> found[i] == records@[i]@,
            parse_tree(input@, offset as int, directory_archive_offset as int) == parse_tree_from(
                input@,
                cursor as int,
                scope,
                found,
                offset as int,
                directory_archive_offset as int,
            ),
        decreases input@.len() - cursor,
    {
        let end: usize = find_string_end(input, cursor);
        if end >= input.len() {
            return Err(ErrorKind::MalformedData(String::from_str("Directory Tree")));
        }
        let next: usize = end + 1;
        if level == 0 {
            if end == cursor {
                let directory = Directory { records };
                assert(directory@ =~= found);
                return Ok(directory);
            }
            extension_start = cursor;
            extension_end = end;
            level = 1;
            proof {
                scope = Scope::Paths { extension: input@.subrange(cursor as int, end as int) };
            }
            cursor = next;
        } else if level == 1 {
            if end == cursor {
                level = 0;
                proof {
                    scope = Scope::Extensions;
                }
            } else {
                path_start = cursor;
                path_end = end;
                level = 2;
                proof {
                    scope = Scope::Files {
                        extension: input@.subrange(extension_start as int, extension_end as int),
                        path: input@.subrange(cursor as int, end as int),
                    };
                }
            }
            cursor = next;
        } else {
            if end == cursor {
                level = 1;
                proof {
                    scope = Scope::Paths {
                        extension: input@.subrange(extension_start as int, extension_end as int),
                    };
                }
                cursor = next;
            } else {
                if input.len() - next < 18 {
                    return Err(ErrorKind::MalformedData(String::from_str("Directory Tree")));
                }
                let entry = match DirectoryEntryData::decode(slice_subrange(input, next, next + 18)) {
                    Ok(entry) => entry,
                    Err(e) => {
                        return Err(e);
                    },
                };
                match entry.is_valid() {
                    Ok(_) => {},
                    Err(e) => {
                        return Err(e);
                    },
                }
                let key = make_key(
                    input,
                    path_start,
                    path_end,
                    cursor,
                    end,
                    extension_start,
                    extension_end,
                );
                let handle = Handle {
                    entry,
                    preload_data_position: offset + (next as u64 + 18),
                    directory_archive_data_start_position: directory_archive_offset,
                };
                let record = DirectoryRecord { key, handle };
                proof {
                    found = found.push(record@);
                }
                records.push(record);
                let preload: usize = entry.preload_bytes_size as usize;
                if input.len() - (next + 18) < preload {
                    return Err(ErrorKind::MalformedData(String::from_str("Directory Tree")));
                }
                cursor = next + 18 + preload;
            }
        }
    }
}

impl Directory {
    /// The number of files.
    pub fn len(&self) -> (n: usize)
        ensures
            n == self@.len(),
    {
        self.records.len()
    }

    /// The place of the file that is looked up under `key`: the last record
    /// of the tree with that key. `None` where no record has it.
    pub open spec fn spec_find(records: Seq<Record>, key: Seq<u8>) -> Option<int>
        decreases records.len(),
    {
        if records.len() == 0 {
            None
        } else if records.last().key == key {
            Some(records.len() - 1)
        } else {
            Self::spec_find(records.drop_last(), key)
        }
    }

    /// `spec_find` gives the last record with the key, and `None` exactly
    /// where there is no record with it.
    pub proof fn lemma_spec_find(records: Seq<Record>, key: Seq<u8>)
        ensures
            match Self::spec_find(records, key) {
                Some(i) => {
                    &&& 0 <= i < records.len()
                    &&& records[i].key == key
                    &&& forall|j: int| i < j < records.len() ==> records[j].key != key
                },
                None => forall|j: int| 0 <= j < records.len() ==> records[j].key != key,
            },
        decreases records.len(),
    {
        if records.len() > 0 && records.last().key != key {
            let rest = records.drop_last();
            Self::lemma_spec_find(rest, key);
            assert(forall|j: int| 0 <= j < rest.len() ==> rest[j] == records[j]);
        }
    }

    /// Looks a file up by its key. Where several records have the key, the
    /// last one is found.
    pub fn find(&self, key: &[u8]) -> (place: Option<usize>)
        ensures
            match place {
                Some(i) => Self::spec_find(self@, key@) == Some(i as int),
                None => Self::spec_find(self@, key@) is None,
            },
    {
        let mut i: usize = self.records.len();
        assert(self@.take(i as int) =~= self@);
        while i > 0
            invariant
                i <= self.records@.len(),
                Self::spec_find(self@, key@) == Self::spec_find(self@.take(i as int), key@),
            decreases i,
        {
            i = i - 1;
            assert(self@.take(i + 1).last() == self@[i as int]);
            assert(self@.take(i + 1).drop_last() =~= self@.take(i as int));
            if bytes_equal(self.records[i].key.as_slice(), key) {
                return Some(i);
            }
        }
        None
    }
}

} // verus!
