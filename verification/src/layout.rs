//! Where the builder stores the bytes of each file.
//!
//! The files are placed in the order in which they are given. Bytes that
//! are embedded follow one another behind the tree. The others follow one
//! another in the current archive file; once a file of more than
//! `DATA_SPLIT_BYTE` bytes has been placed there, the next one starts a new
//! archive file.

use vstd::prelude::*;
use crate::data::DirectoryEntryData;
use crate::prototype::{protos_of, EntryPrototype, Proto};

verus! {

/// The size of a file behind which a new archive file is begun.
pub const DATA_SPLIT_BYTE: u64 = 100000000;

/// How far the placing has come.
pub ghost struct LayoutState {
    /// How many bytes are embedded so far.
    pub embedded: int,
    /// The number of the current archive file.
    pub index: int,
    /// How many bytes the current archive file holds.
    pub position: int,
    /// Whether the next file that goes to an archive file starts a new one.
    pub pending: bool,
}

/// The state before any file is placed.
pub open spec fn layout_start() -> LayoutState {
    LayoutState { embedded: 0, index: 0, position: 0, pending: false }
}

/// The archive file that takes the next file, and the position in it.
pub open spec fn layout_target(s: LayoutState) -> (int, int) {
    if s.pending {
        (s.index + 1, 0)
    } else {
        (s.index, s.position)
    }
}

/// The state behind the placing of `p`.
pub open spec fn layout_step(s: LayoutState, p: Proto) -> LayoutState {
    if p.is_embedded() {
        LayoutState { embedded: s.embedded + p.body_len(), ..s }
    } else if p.is_external() {
        LayoutState {
            embedded: s.embedded,
            index: layout_target(s).0,
            position: layout_target(s).1 + p.body_len(),
            pending: p.data.len() > DATA_SPLIT_BYTE,
        }
    } else {
        s
    }
}

/// The state before the file at place `k` is placed.
pub open spec fn layout_before(protos: Seq<Proto>, k: int) -> LayoutState
    decreases k,
{
    if k <= 0 {
        layout_start()
    } else {
        layout_step(layout_before(protos, k - 1), protos[k - 1])
    }
}

/// The record of `p` when it is placed in state `s`. A file without stored
/// bytes keeps archive index and offset zero.
pub open spec fn layout_entry(s: LayoutState, p: Proto) -> DirectoryEntryData {
    DirectoryEntryData {
        crc: 0,
        preload_bytes_size: p.preload_size,
        archive_index: if p.is_embedded() {
            0x7fffu16
        } else if p.is_external() {
            layout_target(s).0 as u16
        } else {
            0u16
        },
        data_offset: if p.is_embedded() {
            s.embedded as u32
        } else if p.is_external() {
            layout_target(s).1 as u32
        } else {
            0u32
        },
        data_length: p.body_len() as u32,
        terminator: 0xffff,
    }
}

/// The record of the file at place `i`.
pub open spec fn spec_entry(protos: Seq<Proto>, i: int) -> DirectoryEntryData {
    layout_entry(layout_before(protos, i), protos[i])
}

/// The records of all files, in the order of the files.
pub open spec fn spec_entries(protos: Seq<Proto>) -> Seq<DirectoryEntryData> {
    Seq::new(protos.len(), |i: int| spec_entry(protos, i))
}

/// Every field of the record of `p` can hold its value: the file has its
/// preload bytes and no more than a 32 bit length can count, its offset is
/// a 32 bit number, and the number of its archive file a 16 bit number.
pub open spec fn step_fits(s: LayoutState, p: Proto) -> bool {
    &&& p.preload_size <= p.data.len() <= u32::MAX
    &&& p.is_embedded() ==> s.embedded <= u32::MAX
    &&& p.is_external() ==> layout_target(s).0 <= u16::MAX && layout_target(s).1 <= u32::MAX
}

/// Every field of every record can hold its value.
pub open spec fn layout_fits(protos: Seq<Proto>) -> bool {
    forall|k: int| 0 <= k < protos.len() ==> step_fits(layout_before(protos, k), #[trigger] protos[k])
}

/// How many archive files the build writes: none without files, else one
/// more than the number of the last.
pub open spec fn spec_file_count(protos: Seq<Proto>) -> int {
    if protos.len() == 0 {
        0
    } else {
        layout_before(protos, protos.len() as int).index + 1
    }
}

/// The embedded bytes of the files before place `k`, one after the other.
pub open spec fn embedded_before(protos: Seq<Proto>, k: int) -> Seq<u8>
    decreases k,
{
    if k <= 0 {
        Seq::empty()
    } else if protos[k - 1].is_embedded() {
        embedded_before(protos, k - 1) + protos[k - 1].body()
    } else {
        embedded_before(protos, k - 1)
    }
}

/// What archive file `file` holds of the files before place `k`: their
/// stored bytes, one after the other.
pub open spec fn file_before(protos: Seq<Proto>, file: int, k: int) -> Seq<u8>
    decreases k,
{
    if k <= 0 {
        Seq::empty()
    } else if protos[k - 1].is_external() && layout_target(layout_before(protos, k - 1)).0
        == file {
        file_before(protos, file, k - 1) + protos[k - 1].body()
    } else {
        file_before(protos, file, k - 1)
    }
}

/// The embedded bytes of all files.
pub open spec fn spec_embedded(protos: Seq<Proto>) -> Seq<u8> {
    embedded_before(protos, protos.len() as int)
}

/// All that archive file `file` holds.
pub open spec fn spec_file(protos: Seq<Proto>, file: int) -> Seq<u8> {
    file_before(protos, file, protos.len() as int)
}

/// The placing goes through the archive files in order, and the lengths of
/// what is stored are the lengths that the state counts.
pub proof fn lemma_layout_state(protos: Seq<Proto>, k: int)
    requires
        0 <= k <= protos.len(),
        forall|j: int| 0 <= j < k ==> (#[trigger] protos[j]).preload_size <= protos[j].data.len(),
    ensures
        layout_before(protos, k).index >= 0,
        layout_before(protos, k).position >= 0,
        layout_before(protos, k).embedded == embedded_before(protos, k).len(),
        !layout_before(protos, k).pending ==> layout_before(protos, k).position == file_before(
            protos,
            layout_before(protos, k).index,
            k,
        ).len(),
        forall|file: int|
            file > layout_before(protos, k).index ==> #[trigger] file_before(protos, file, k).len()
                == 0,
    decreases k,
{
    if k > 0 {
        lemma_layout_state(protos, k - 1);
        let s = layout_before(protos, k - 1);
        let p = protos[k - 1];
        if p.is_external() {
            let target = layout_target(s).0;
            assert(file_before(protos, target, k) == file_before(protos, target, k - 1) + p.body());
            assert forall|file: int| file > layout_before(protos, k).index implies #[trigger] file_before(
                protos,
                file,
                k,
            ).len() == 0 by {
                assert(file_before(protos, file, k) == file_before(protos, file, k - 1));
            }
        } else {
            assert forall|file: int| file > layout_before(protos, k).index implies #[trigger] file_before(
                protos,
                file,
                k,
            ).len() == 0 by {
                assert(file_before(protos, file, k) == file_before(protos, file, k - 1));
            }
        }
    }
}

/// A file of more than `DATA_SPLIT_BYTE` bytes is the last of its archive
/// file: the file that goes to an archive file next starts the archive
/// file with the next number, and the files behind it follow there or in
/// later archive files.
pub proof fn lemma_split(protos: Seq<Proto>, i: int, j: int)
    requires
        0 <= i < j < protos.len(),
        protos[i].is_external(),
        protos[i].data.len() > DATA_SPLIT_BYTE,
        protos[j].is_external(),
    ensures
        layout_target(layout_before(protos, j)).0 > layout_target(layout_before(protos, i)).0,
        (forall|m: int| i < m < j ==> !(#[trigger] protos[m]).is_external()) ==> layout_target(
            layout_before(protos, j),
        ) == (layout_target(layout_before(protos, i)).0 + 1, 0int),
        spec_file_count(protos) >= 2,
{
    lemma_split_state(protos, i, j);
    lemma_count_grows(protos, j);
    lemma_target_grows(protos, i);
}

/// Behind a file of more than `DATA_SPLIT_BYTE` bytes the placing is in a
/// later archive file, or waits to start one.
proof fn lemma_split_state(protos: Seq<Proto>, i: int, k: int)
    requires
        0 <= i < k <= protos.len(),
        protos[i].is_external(),
        protos[i].data.len() > DATA_SPLIT_BYTE,
    ensures
        layout_target(layout_before(protos, k)).0 > layout_target(layout_before(protos, i)).0,
        (forall|m: int| i < m < k ==> !(#[trigger] protos[m]).is_external()) ==> layout_target(
            layout_before(protos, k),
        ) == (layout_target(layout_before(protos, i)).0 + 1, 0int),
    decreases k - i,
{
    if k == i + 1 {
        assert(layout_before(protos, k) == layout_step(layout_before(protos, i), protos[i]));
    } else {
        lemma_split_state(protos, i, k - 1);
        assert(layout_before(protos, k) == layout_step(
            layout_before(protos, k - 1),
            protos[k - 1],
        ));
    }
}

/// The archive file that takes a file is never before the current one.
pub proof fn lemma_target_grows(protos: Seq<Proto>, k: int)
    requires
        0 <= k <= protos.len(),
    ensures
        0 <= layout_before(protos, k).index <= layout_target(layout_before(protos, k)).0,
    decreases k,
{
    if k > 0 {
        lemma_target_grows(protos, k - 1);
    }
}

/// A file that went to an archive file is counted among the archive files.
pub proof fn lemma_count_grows(protos: Seq<Proto>, j: int)
    requires
        0 <= j < protos.len(),
        protos[j].is_external(),
    ensures
        layout_target(layout_before(protos, j)).0 < spec_file_count(protos),
{
    lemma_index_reached(protos, j + 1, protos.len() as int);
    assert(layout_before(protos, j + 1) == layout_step(layout_before(protos, j), protos[j]));
}

/// The number of the current archive file never falls.
proof fn lemma_index_reached(protos: Seq<Proto>, k: int, n: int)
    requires
        0 <= k <= n <= protos.len(),
    ensures
        layout_before(protos, k).index <= layout_before(protos, n).index,
    decreases n - k,
{
    if k < n {
        lemma_index_reached(protos, k, n - 1);
    }
}

/// The state of the placing as the builder keeps it.
struct Layout {
    embedded: u64,
    index: u32,
    position: u64,
    pending: bool,
}

impl View for Layout {
    type V = LayoutState;

    closed spec fn view(&self) -> LayoutState {
        LayoutState {
            embedded: self.embedded as int,
            index: self.index as int,
            position: self.position as int,
            pending: self.pending,
        }
    }
}

/// Places the files in the order of `entries` and returns their records.
/// `None` where a field of some record cannot hold its value.
pub fn place(entries: &[EntryPrototype]) -> (r: Option<Vec<DirectoryEntryData>>)
    ensures
        match r {
            Some(records) => layout_fits(protos_of(entries@)) && records@ == spec_entries(
                protos_of(entries@),
            ),
            None => !layout_fits(protos_of(entries@)),
        },
{
    let ghost protos = protos_of(entries@);
    let mut records: Vec<DirectoryEntryData> = Vec::new();
    let mut state = Layout { embedded: 0, index: 0, position: 0, pending: false };
    let mut k: usize = 0;
    while k < entries.len()
        invariant
            k <= entries@.len(),
            protos == protos_of(entries@),
            state@ == layout_before(protos, k as int),
            state.embedded <= 2 * u32::MAX,
            state.position <= 2 * u32::MAX,
            state.index <= u16::MAX,
            records@.len() == k,
            forall|j: int| 0 <= j < k ==> step_fits(layout_before(protos, j), #[trigger] protos[j]),
            forall|j: int| 0 <= j < k ==> records@[j] == spec_entry(protos, j),
        decreases entries@.len() - k,
    {
        let e = &entries[k];
        let ghost p = protos[k as int];
        assert(p == e@);
        let size: usize = e.data().len();
        let preload: u16 = e.preload_size();
        if size > u32::MAX as usize || preload as usize > size {
            assert(!step_fits(layout_before(protos, k as int), protos[k as int]));
            return None;
        }
        let length: u32 = (size - preload as usize) as u32;
        let mut record = DirectoryEntryData {
            crc: 0,
            preload_bytes_size: preload,
            archive_index: 0,
            data_offset: 0,
            data_length: length,
            terminator: DirectoryEntryData::TERMINATOR,
        };
        if length > 0 {
            if e.store_in_directory() {
                if state.embedded > u32::MAX as u64 {
                    assert(!step_fits(layout_before(protos, k as int), protos[k as int]));
                    return None;
                }
                record.archive_index = DirectoryEntryData::DATA_IN_DIRECTORY_ARCHIVE_INDEX;
                record.data_offset = state.embedded as u32;
                state.embedded = state.embedded + length as u64;
            } else {
                if state.pending {
                    if state.index >= u16::MAX as u32 {
                        assert(!step_fits(layout_before(protos, k as int), protos[k as int]));
                        return None;
                    }
                    state.index = state.index + 1;
                    state.position = 0;
                    state.pending = false;
                }
                if state.position > u32::MAX as u64 {
                    assert(!step_fits(layout_before(protos, k as int), protos[k as int]));
                    return None;
                }
                record.archive_index = state.index as u16;
                record.data_offset = state.position as u32;
                state.position = state.position + length as u64;
                state.pending = size as u64 > DATA_SPLIT_BYTE;
            }
        }
        assert(record == spec_entry(protos, k as int));
        records.push(record);
        k = k + 1;
    }
    assert(records@ =~= spec_entries(protos));
    Some(records)
}

} // verus!
