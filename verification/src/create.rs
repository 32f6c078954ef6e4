//! Building the files of a new archive.
//!
//! The index file holds the header, the directory tree, the embedded file
//! content, one checksum record for each file that went to an archive
//! file, and the checksums of the tree and of those records, in this
//! order. The archive files hold the stored bytes of the other files.

use vstd::prelude::*;
use vstd::string::*;
use vstd::slice::slice_subrange;
use crate::archive::VPKv2;
use crate::bytes::{append_bytes, le_u32};
use crate::data::{DirectoryEntryData, HeaderV2, VPK_SIGNATURE};
use crate::digest::{checksum, md5_of};
use crate::error::ErrorKind;
use crate::layout::{
    embedded_before, file_before, layout_before, layout_fits, layout_step, layout_target,
    lemma_layout_state, place, spec_embedded, spec_entries, spec_entry, spec_file,
    spec_file_count, step_fits,
};
use crate::prototype::{protos_of, EntryPrototype, Proto};
use crate::sections::{ArchiveMD5SectionEntry, OtherMD5Section};
use crate::tree::{
    all_ascii, check_names, encode_tree, find_duplicate, has_duplicate, tree_items, write_tree,
};

verus! {

/// The files of an archive, each as its bytes.
#[derive(Debug)]
pub struct ArchiveFiles {
    /// The index file.
    pub dir: Vec<u8>,
    /// The numbered archive files, in their order.
    pub data: Vec<Vec<u8>>,
    /// The record of each file that was packed, in the order in which the
    /// files were given.
    pub entries: Vec<DirectoryEntryData>,
}

/// The checksum record of a file that went to an archive file: the number
/// of that file, offset and length of the stored bytes, and their checksum.
pub open spec fn checksum_record(entry: DirectoryEntryData, body: Seq<u8>) -> Seq<u8> {
    le_u32(entry.archive_index as u32) + le_u32(entry.data_offset) + le_u32(entry.data_length)
        + md5_of(body)
}

/// The checksum records of the files before place `k`.
pub open spec fn checksums_before(protos: Seq<Proto>, k: int) -> Seq<u8>
    decreases k,
{
    if k <= 0 {
        Seq::empty()
    } else if protos[k - 1].is_external() {
        checksums_before(protos, k - 1) + checksum_record(
            spec_entry(protos, k - 1),
            protos[k - 1].body(),
        )
    } else {
        checksums_before(protos, k - 1)
    }
}

/// The section of checksum records: one for each file that went to an
/// archive file, in the order of the files.
pub open spec fn spec_checksums(protos: Seq<Proto>) -> Seq<u8> {
    checksums_before(protos, protos.len() as int)
}

/// The directory tree of the build.
pub open spec fn spec_tree(protos: Seq<Proto>) -> Seq<u8> {
    encode_tree(tree_items(protos, spec_entries(protos)))
}

/// The header of the build: it holds the lengths of the sections as they
/// are written.
pub open spec fn spec_header(protos: Seq<Proto>) -> HeaderV2 {
    HeaderV2 {
        signature: VPK_SIGNATURE,
        version: 2,
        tree_size: spec_tree(protos).len() as u32,
        file_data_section_size: spec_embedded(protos).len() as u32,
        archive_md5_section_size: spec_checksums(protos).len() as u32,
        other_md5_section_size: 48,
        signature_section_size: 0,
    }
}

/// The last section of the index file: the checksum of the tree, the
/// checksum of the checksum records, and sixteen zero bytes.
pub open spec fn spec_other(protos: Seq<Proto>) -> Seq<u8> {
    md5_of(spec_tree(protos)) + md5_of(spec_checksums(protos)) + Seq::new(16, |i: int| 0u8)
}

/// The index file of the build.
pub open spec fn spec_index_file(protos: Seq<Proto>) -> Seq<u8> {
    spec_header(protos).spec_encode() + spec_tree(protos) + spec_embedded(protos) + spec_checksums(
        protos,
    ) + spec_other(protos)
}

/// The header can hold the lengths of the three sections it counts.
pub open spec fn header_fits(protos: Seq<Proto>) -> bool {
    &&& spec_tree(protos).len() <= u32::MAX
    &&& spec_embedded(protos).len() <= u32::MAX
    &&& spec_checksums(protos).len() <= u32::MAX
}

/// The archive can be written: every field of every record can hold its
/// value, and so can the header, as far as the build comes to write one.
pub open spec fn spec_fits(protos: Seq<Proto>) -> bool {
    &&& layout_fits(protos)
    &&& !has_duplicate(protos) && all_ascii(protos) ==> header_fits(protos)
}

/// `files` are the files of the archive that holds `protos`.
pub open spec fn is_archive_of(files: ArchiveFiles, protos: Seq<Proto>) -> bool {
    &&& files.dir@ == spec_index_file(protos)
    &&& files.data@.len() == spec_file_count(protos)
    &&& forall|file: int|
        0 <= file < files.data@.len() ==> (#[trigger] files.data@[file])@ == spec_file(
            protos,
            file,
        )
    &&& files.entries@ == spec_entries(protos)
}

/// The files were placed without a fault, and `records` are their records.
#[verifier::opaque]
spec fn placed(entries: Seq<EntryPrototype>, records: Seq<DirectoryEntryData>) -> bool {
    &&& layout_fits(protos_of(entries))
    &&& records == spec_entries(protos_of(entries))
}

/// What `placed` says of the file at place `k`.
proof fn lemma_placed_at(entries: Seq<EntryPrototype>, records: Seq<DirectoryEntryData>, k: int)
    requires
        placed(entries, records),
        0 <= k < entries.len(),
    ensures
        records.len() == entries.len(),
        protos_of(entries)[k] == entries[k]@,
        step_fits(layout_before(protos_of(entries), k), entries[k]@),
        records[k] == spec_entry(protos_of(entries), k),
        layout_before(protos_of(entries), k + 1) == layout_step(
            layout_before(protos_of(entries), k),
            entries[k]@,
        ),
{
    reveal(placed);
    let protos = protos_of(entries);
    assert(step_fits(layout_before(protos, k), protos[k]));
    assert(layout_before(protos, k + 1) == layout_step(
        layout_before(protos, k + 1 - 1),
        protos[k + 1 - 1],
    ));
}

/// Every file has its preload bytes.
proof fn lemma_placed_preloads(entries: Seq<EntryPrototype>, records: Seq<DirectoryEntryData>)
    requires
        placed(entries, records),
    ensures
        records.len() == entries.len(),
        forall|j: int|
            0 <= j < entries.len() ==> (#[trigger] protos_of(entries)[j]).preload_size
                <= protos_of(entries)[j].data.len(),
        forall|j: int|
            0 <= j < entries.len() ==> (#[trigger] entries[j])@.preload_size
                <= entries[j]@.data.len(),
{
    let protos = protos_of(entries);
    assert forall|j: int| 0 <= j < entries.len() implies (#[trigger] protos[j]).preload_size
        <= protos[j].data.len() by {
        lemma_placed_at(entries, records, j);
    }
    assert forall|j: int| 0 <= j < entries.len() implies (#[trigger] entries[j])@.preload_size
        <= entries[j]@.data.len() by {
        lemma_placed_at(entries, records, j);
    }
    reveal(placed);
}

/// Where the stored bytes of a file go.
enum Store {
    /// The file has none.
    Nowhere,
    /// Behind the tree in the index file.
    Embedded,
    /// To an archive file.
    External,
}

/// Where the stored bytes of the file at place `k` go.
fn store_of(entries: &[EntryPrototype], k: usize) -> (store: Store)
    requires
        k < entries@.len(),
        entries@[k as int]@.preload_size <= entries@[k as int]@.data.len(),
    ensures
        store is Embedded <==> entries@[k as int]@.is_embedded(),
        store is External <==> entries@[k as int]@.is_external(),
{
    let e = &entries[k];
    if e.data().len() == e.preload_size() as usize {
        Store::Nowhere
    } else if e.store_in_directory() {
        Store::Embedded
    } else {
        Store::External
    }
}

/// The stored bytes of the file at place `k`.
fn body_of(entries: &[EntryPrototype], k: usize) -> (body: &[u8])
    requires
        k < entries@.len(),
        entries@[k as int]@.preload_size <= entries@[k as int]@.data.len(),
    ensures
        body@ == entries@[k as int]@.body(),
{
    let e = &entries[k];
    slice_subrange(e.data(), e.preload_size() as usize, e.data().len())
}

/// Collects the bytes that are embedded in the index file.
fn store_embedded(entries: &[EntryPrototype], records: &Vec<DirectoryEntryData>) -> (embedded: Vec<
    u8,
>)
    requires
        placed(entries@, records@),
    ensures
        embedded@ == spec_embedded(protos_of(entries@)),
{
    let ghost protos = protos_of(entries@);
    let mut embedded: Vec<u8> = Vec::new();
    let mut k: usize = 0;
    while k < entries.len()
        invariant
            k <= entries@.len(),
            protos == protos_of(entries@),
            placed(entries@, records@),
            embedded@ == embedded_before(protos, k as int),
        decreases entries@.len() - k,
    {
        proof {
            lemma_placed_at(entries@, records@, k as int);
        }
        match store_of(entries, k) {
            Store::Embedded => {
                append_bytes(&mut embedded, body_of(entries, k));
            },
            _ => {},
        }
        assert(embedded@ == embedded_before(protos, k + 1));
        k = k + 1;
    }
    embedded
}

/// Collects the bytes of each archive file.
fn store_files(entries: &[EntryPrototype], records: &Vec<DirectoryEntryData>) -> (data: Vec<
    Vec<u8>,
>)
    requires
        placed(entries@, records@),
    ensures
        data@.len() == spec_file_count(protos_of(entries@)),
        forall|file: int|
            0 <= file < data@.len() ==> (#[trigger] data@[file])@ == spec_file(
                protos_of(entries@),
                file,
            ),
{
    let ghost protos = protos_of(entries@);
    let mut data: Vec<Vec<u8>> = Vec::new();
    if entries.len() == 0 {
        return data;
    }
    proof {
        lemma_placed_preloads(entries@, records@);
    }
    let mut current: Vec<u8> = Vec::new();
    let mut k: usize = 0;
    while k < entries.len()
        invariant
            k <= entries@.len(),
            protos == protos_of(entries@),
            placed(entries@, records@),
            records@.len() == entries@.len(),
            forall|j: int|
                0 <= j < entries@.len() ==> (#[trigger] protos[j]).preload_size
                    <= protos[j].data.len(),
            data@.len() == layout_before(protos, k as int).index,
            current@ == file_before(protos, data@.len() as int, k as int),
            forall|file: int|
                0 <= file < data@.len() ==> (#[trigger] data@[file])@ == file_before(
                    protos,
                    file,
                    k as int,
                ),
        decreases entries@.len() - k,
    {
        proof {
            lemma_placed_at(entries@, records@, k as int);
            lemma_layout_state(protos, k as int);
        }
        let ghost done = data@;
        let ghost state = layout_before(protos, k as int);
        match store_of(entries, k) {
            Store::External => {
                if records[k].archive_index as usize != data.len() {
                    assert(layout_target(state).0 == state.index + 1);
                    assert(file_before(protos, state.index + 1, k as int).len() == 0);
                    data.push(current);
                    current = Vec::new();
                    assert(current@ =~= file_before(protos, data@.len() as int, k as int));
                }
                append_bytes(&mut current, body_of(entries, k));
            },
            _ => {},
        }
        assert forall|file: int| 0 <= file < data@.len() implies (#[trigger] data@[file])@
            == file_before(protos, file, k + 1) by {
            assert(file_before(protos, file, k + 1) == file_before(protos, file, k as int));
        }
        k = k + 1;
    }
    data.push(current);
    data
}

/// Writes the checksum records of the files that went to archive files.
fn store_checksums(entries: &[EntryPrototype], records: &Vec<DirectoryEntryData>) -> (section: Vec<
    u8,
>)
    requires
        placed(entries@, records@),
    ensures
        section@ == spec_checksums(protos_of(entries@)),
{
    let ghost protos = protos_of(entries@);
    let mut section: Vec<u8> = Vec::new();
    let mut k: usize = 0;
    while k < entries.len()
        invariant
            k <= entries@.len(),
            protos == protos_of(entries@),
            placed(entries@, records@),
            section@ == checksums_before(protos, k as int),
        decreases entries@.len() - k,
    {
        proof {
            lemma_placed_at(entries@, records@, k as int);
        }
        match store_of(entries, k) {
            Store::External => {
                let record = &records[k];
                let sum = ArchiveMD5SectionEntry {
                    archive_index: record.archive_index as u32,
                    starting_offset: record.data_offset,
                    count: record.data_length,
                    md5_checksum: checksum(body_of(entries, k)),
                };
                sum.encode_into(&mut section);
                assert(sum.spec_encode() =~= checksum_record(
                    spec_entry(protos, k as int),
                    protos[k as int].body(),
                ));
            },
            _ => {},
        }
        assert(section@ == checksums_before(protos, k + 1));
        k = k + 1;
    }
    section
}

/// Builds the files of the archive that holds the files `entries`.
///
/// `None` where the archive cannot be written, because a field of a record
/// or of the header cannot hold its value. Two files with the same path,
/// name and extension are refused as `AlreadyExists`, and after that a
/// name that is not ASCII as `MalformedData`.
pub fn build_archive(entries: &[EntryPrototype]) -> (r: Option<Result<ArchiveFiles, ErrorKind>>)
    ensures
        match r {
            None => !spec_fits(protos_of(entries@)),
            Some(Ok(files)) => {
                &&& spec_fits(protos_of(entries@))
                &&& !has_duplicate(protos_of(entries@))
                &&& all_ascii(protos_of(entries@))
                &&& is_archive_of(files, protos_of(entries@))
            },
            Some(Err(ErrorKind::AlreadyExists(_))) => {
                &&& spec_fits(protos_of(entries@))
                &&& has_duplicate(protos_of(entries@))
            },
            Some(Err(ErrorKind::MalformedData(_))) => {
                &&& spec_fits(protos_of(entries@))
                &&& !has_duplicate(protos_of(entries@))
                &&& !all_ascii(protos_of(entries@))
            },
            Some(Err(_)) => false,
        },
{
    let ghost protos = protos_of(entries@);
    let records = match place(entries) {
        Some(records) => records,
        None => {
            return None;
        },
    };
    if find_duplicate(entries) {
        return Some(Err(ErrorKind::AlreadyExists(String::from_str("File already exists"))));
    }
    if !check_names(entries) {
        return Some(Err(ErrorKind::MalformedData(String::from_str("String is not ASCII"))));
    }
    proof {
        reveal(placed);
        lemma_placed_preloads(entries@, records@);
    }
    let tree = write_tree(entries, &records);
    let embedded = store_embedded(entries, &records);
    let section = store_checksums(entries, &records);
    if tree.len() > u32::MAX as usize || embedded.len() > u32::MAX as usize || section.len()
        > u32::MAX as usize {
        return None;
    }
    let header = HeaderV2 {
        signature: VPK_SIGNATURE,
        version: 2,
        tree_size: tree.len() as u32,
        file_data_section_size: embedded.len() as u32,
        archive_md5_section_size: section.len() as u32,
        other_md5_section_size: 48,
        signature_section_size: 0,
    };
    let other = OtherMD5Section {
        tree_checksum: checksum(tree.as_slice()),
        archive_md5_section_checksum: checksum(section.as_slice()),
        unknown: [0u8; 16],
    };
    assert(other.spec_encode() =~= spec_other(protos));
    let mut dir = header.encode();
    append_bytes(&mut dir, tree.as_slice());
    append_bytes(&mut dir, embedded.as_slice());
    append_bytes(&mut dir, section.as_slice());
    append_bytes(&mut dir, other.encode().as_slice());
    let data = store_files(entries, &records);
    Some(Ok(ArchiveFiles { dir, data, entries: records }))
}

impl VPKv2 {
    /// Builds the files of a new archive that holds the files `entries`.
    ///
    /// Two files with the same path, name and extension are refused as
    /// `AlreadyExists`, and after that a name that is not ASCII as
    /// `MalformedData`. The sizes of the files must be such that the
    /// records and the header can hold them.
    pub fn create(entries: &[EntryPrototype]) -> (r: Result<ArchiveFiles, ErrorKind>)
        requires
            spec_fits(protos_of(entries@)),
        ensures
            match r {
                Ok(files) => {
                    &&& !has_duplicate(protos_of(entries@))
                    &&& all_ascii(protos_of(entries@))
                    &&& is_archive_of(files, protos_of(entries@))
                },
                Err(ErrorKind::AlreadyExists(_)) => has_duplicate(protos_of(entries@)),
                Err(ErrorKind::MalformedData(_)) => !has_duplicate(protos_of(entries@))
                    && !all_ascii(protos_of(entries@)),
                Err(_) => false,
            },
    {
        match build_archive(entries) {
            Some(r) => r,
            None => Err(ErrorKind::MalformedData(String::new())),
        }
    }
}

} // verus!
