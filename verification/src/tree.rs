//! Writing a directory tree.
//!
//! The files are grouped by extension and, under each extension, by path.
//! The extensions stand in the order in which they first occur among the
//! files, the paths of an extension likewise, and the files of a path in
//! the order in which they were given.

use vstd::prelude::*;
use vstd::slice::slice_subrange;
use crate::bytes::{append_bytes, bytes_equal};
use crate::data::DirectoryEntryData;
use crate::prototype::{protos_of, EntryPrototype, Proto};

verus! {

/// What the tree holds of one file.
pub ghost struct TreeItem {
    pub extension: Seq<u8>,
    pub path: Seq<u8>,
    pub filename: Seq<u8>,
    pub entry: DirectoryEntryData,
    pub preload: Seq<u8>,
}

/// What the tree holds of the files `protos` with the records `records`.
pub open spec fn tree_items(protos: Seq<Proto>, records: Seq<DirectoryEntryData>) -> Seq<
    TreeItem,
> {
    Seq::new(
        protos.len(),
        |i: int|
            TreeItem {
                extension: protos[i].extension,
                path: protos[i].path,
                filename: protos[i].filename,
                entry: records[i],
                preload: protos[i].preload(),
            },
    )
}

/// The two files have the same extension and the same path.
pub open spec fn same_group(a: TreeItem, b: TreeItem) -> bool {
    a.extension == b.extension && a.path == b.path
}

/// No file before place `i` has the extension of the file there.
pub open spec fn first_of_extension(items: Seq<TreeItem>, i: int) -> bool {
    forall|m: int| 0 <= m < i ==> (#[trigger] items[m]).extension != items[i].extension
}

/// No file before place `j` has the extension and the path of the file
/// there.
pub open spec fn first_of_path(items: Seq<TreeItem>, j: int) -> bool {
    forall|m: int| 0 <= m < j ==> !same_group(#[trigger] items[m], items[j])
}

/// One file in the tree: its name, a zero byte, its record, its preload
/// bytes.
pub open spec fn encode_file(item: TreeItem) -> Seq<u8> {
    item.filename + seq![0u8] + item.entry.spec_encode() + item.preload
}

/// The files from place `k` on that belong to the group of the file at
/// place `j`.
pub open spec fn encode_files(items: Seq<TreeItem>, j: int, k: int) -> Seq<u8>
    decreases items.len() - k,
{
    if k < 0 || k >= items.len() {
        Seq::empty()
    } else if same_group(items[j], items[k]) {
        encode_file(items[k]) + encode_files(items, j, k + 1)
    } else {
        encode_files(items, j, k + 1)
    }
}

/// One path in the tree, led by the file at place `j`: the path, a zero
/// byte, its files, a zero byte.
pub open spec fn encode_path(items: Seq<TreeItem>, j: int) -> Seq<u8> {
    items[j].path + seq![0u8] + encode_files(items, j, j) + seq![0u8]
}

/// The paths that are first met from place `j` on under the extension of
/// the file at place `i`.
pub open spec fn encode_paths(items: Seq<TreeItem>, i: int, j: int) -> Seq<u8>
    decreases items.len() - j,
{
    if j < 0 || j >= items.len() {
        Seq::empty()
    } else if items[j].extension == items[i].extension && first_of_path(items, j) {
        encode_path(items, j) + encode_paths(items, i, j + 1)
    } else {
        encode_paths(items, i, j + 1)
    }
}

/// One extension in the tree, led by the file at place `i`: the extension,
/// a zero byte, its paths, a zero byte.
pub open spec fn encode_extension(items: Seq<TreeItem>, i: int) -> Seq<u8> {
    items[i].extension + seq![0u8] + encode_paths(items, i, i) + seq![0u8]
}

/// The extensions that are first met from place `i` on, and the zero byte
/// that closes the tree.
pub open spec fn encode_extensions(items: Seq<TreeItem>, i: int) -> Seq<u8>
    decreases items.len() - i,
{
    if i < 0 || i >= items.len() {
        seq![0u8]
    } else if first_of_extension(items, i) {
        encode_extension(items, i) + encode_extensions(items, i + 1)
    } else {
        encode_extensions(items, i + 1)
    }
}

/// The tree of the files `items`.
pub open spec fn encode_tree(items: Seq<TreeItem>) -> Seq<u8> {
    encode_extensions(items, 0)
}

/// Two of the files have the same path, name and extension.
pub open spec fn has_duplicate(protos: Seq<Proto>) -> bool {
    exists|i: int, j: int|
        0 <= i < j < protos.len() && same_names(#[trigger] protos[i], #[trigger] protos[j])
}

/// The two files have the same path, name and extension.
pub open spec fn same_names(a: Proto, b: Proto) -> bool {
    a.extension == b.extension && a.path == b.path && a.filename == b.filename
}

/// No byte of `name` is above 127.
pub open spec fn is_ascii_name(name: Seq<u8>) -> bool {
    forall|i: int| 0 <= i < name.len() ==> name[i] < 128
}

/// The three names of every file are ASCII.
pub open spec fn all_ascii(protos: Seq<Proto>) -> bool {
    forall|i: int|
        0 <= i < protos.len() ==> {
            &&& is_ascii_name((#[trigger] protos[i]).extension)
            &&& is_ascii_name(protos[i].path)
            &&& is_ascii_name(protos[i].filename)
        }
}

/// Whether two of the files have the same path, name and extension.
pub fn find_duplicate(entries: &[EntryPrototype]) -> (found: bool)
    ensures
        found == has_duplicate(protos_of(entries@)),
{
    let ghost protos = protos_of(entries@);
    let mut j: usize = 0;
    while j < entries.len()
        invariant
            j <= entries@.len(),
            protos == protos_of(entries@),
            forall|a: int, b: int|
                0 <= a < b < j ==> !same_names(#[trigger] protos[a], #[trigger] protos[b]),
        decreases entries@.len() - j,
    {
        let mut i: usize = 0;
        while i < j
            invariant
                i <= j < entries@.len(),
                protos == protos_of(entries@),
                forall|a: int| 0 <= a < i ==> !same_names(#[trigger] protos[a], protos[j as int]),
            decreases j - i,
        {
            if bytes_equal(entries[i].extension(), entries[j].extension()) && bytes_equal(
                entries[i].path(),
                entries[j].path(),
            ) && bytes_equal(entries[i].filename(), entries[j].filename()) {
                assert(same_names(protos[i as int], protos[j as int]));
                return true;
            }
            i = i + 1;
        }
        j = j + 1;
    }
    false
}

/// Whether no byte of `name` is above 127.
fn check_ascii(name: &[u8]) -> (ascii: bool)
    ensures
        ascii == is_ascii_name(name@),
{
    let mut i: usize = 0;
    while i < name.len()
        invariant
            i <= name@.len(),
            forall|m: int| 0 <= m < i ==> name@[m] < 128,
        decreases name@.len() - i,
    {
        if name[i] >= 128 {
            return false;
        }
        i = i + 1;
    }
    true
}

/// Whether the three names of every file are ASCII.
pub fn check_names(entries: &[EntryPrototype]) -> (ascii: bool)
    ensures
        ascii == all_ascii(protos_of(entries@)),
{
    let ghost protos = protos_of(entries@);
    let mut i: usize = 0;
    while i < entries.len()
        invariant
            i <= entries@.len(),
            protos == protos_of(entries@),
            forall|m: int|
                0 <= m < i ==> {
                    &&& is_ascii_name((#[trigger] protos[m]).extension)
                    &&& is_ascii_name(protos[m].path)
                    &&& is_ascii_name(protos[m].filename)
                },
        decreases entries@.len() - i,
    {
        if !check_ascii(entries[i].extension()) || !check_ascii(entries[i].path()) || !check_ascii(
            entries[i].filename(),
        ) {
            assert(protos[i as int] == entries@[i as int]@);
            return false;
        }
        i = i + 1;
    }
    true
}

/// Whether no file before place `i` has the extension of the file there.
fn leads_extension(entries: &[EntryPrototype], i: usize, Ghost(items): Ghost<Seq<TreeItem>>) -> (first:
    bool)
    requires
        i < entries@.len(),
        items.len() == entries@.len(),
        forall|m: int| 0 <= m < items.len() ==> (#[trigger] items[m]).extension == entries@[m]@.extension,
    ensures
        first == first_of_extension(items, i as int),
{
    let mut m: usize = 0;
    while m < i
        invariant
            m <= i < entries@.len(),
            items.len() == entries@.len(),
            forall|a: int|
                0 <= a < items.len() ==> (#[trigger] items[a]).extension == entries@[a]@.extension,
            forall|a: int| 0 <= a < m ==> (#[trigger] items[a]).extension != items[i as int].extension,
        decreases i - m,
    {
        if bytes_equal(entries[m].extension(), entries[i].extension()) {
            assert(items[m as int].extension == items[i as int].extension);
            return false;
        }
        m = m + 1;
    }
    true
}

/// Whether the files at places `a` and `b` have the same extension and the
/// same path.
fn in_same_group(entries: &[EntryPrototype], a: usize, b: usize, Ghost(items): Ghost<
    Seq<TreeItem>,
>) -> (same: bool)
    requires
        a < entries@.len(),
        b < entries@.len(),
        items.len() == entries@.len(),
        forall|m: int|
            0 <= m < items.len() ==> (#[trigger] items[m]).extension == entries@[m]@.extension
                && items[m].path == entries@[m]@.path,
    ensures
        same == same_group(items[a as int], items[b as int]),
{
    bytes_equal(entries[a].extension(), entries[b].extension()) && bytes_equal(
        entries[a].path(),
        entries[b].path(),
    )
}

/// Whether no file before place `j` has the extension and the path of the
/// file there.
fn leads_path(entries: &[EntryPrototype], j: usize, Ghost(items): Ghost<Seq<TreeItem>>) -> (first:
    bool)
    requires
        j < entries@.len(),
        items.len() == entries@.len(),
        forall|m: int|
            0 <= m < items.len() ==> (#[trigger] items[m]).extension == entries@[m]@.extension
                && items[m].path == entries@[m]@.path,
    ensures
        first == first_of_path(items, j as int),
{
    let mut m: usize = 0;
    while m < j
        invariant
            m <= j < entries@.len(),
            items.len() == entries@.len(),
            forall|a: int|
                0 <= a < items.len() ==> (#[trigger] items[a]).extension == entries@[a]@.extension
                    && items[a].path == entries@[a]@.path,
            forall|a: int| 0 <= a < m ==> !same_group(#[trigger] items[a], items[j as int]),
        decreases j - m,
    {
        if in_same_group(entries, m, j, Ghost(items)) {
            return false;
        }
        m = m + 1;
    }
    true
}

/// The files are the items of the tree: same names, these records, and the
/// preload bytes that the files hold.
pub open spec fn items_match(
    entries: Seq<EntryPrototype>,
    records: Seq<DirectoryEntryData>,
    items: Seq<TreeItem>,
) -> bool {
    &&& records.len() == entries.len()
    &&& items == tree_items(protos_of(entries), records)
    &&& forall|m: int|
        0 <= m < entries.len() ==> (#[trigger] entries[m])@.preload_size <= entries[m]@.data.len()
}

/// Appends the files of the group that the file at place `j` leads.
fn write_files(
    out: &mut Vec<u8>,
    entries: &[EntryPrototype],
    records: &Vec<DirectoryEntryData>,
    j: usize,
    Ghost(items): Ghost<Seq<TreeItem>>,
)
    requires
        j < entries@.len(),
        items_match(entries@, records@, items),
    ensures
        final(out)@ == old(out)@ + encode_files(items, j as int, j as int),
{
    let mut k: usize = j;
    assert(out@ =~= old(out)@ + Seq::<u8>::empty());
    while k < entries.len()
        invariant
            j <= k <= entries@.len(),
            items_match(entries@, records@, items),
            out@ + encode_files(items, j as int, k as int) == old(out)@ + encode_files(
                items,
                j as int,
                j as int,
            ),
        decreases entries@.len() - k,
    {
        let ghost before = out@;
        if in_same_group(entries, j, k, Ghost(items)) {
            let e = &entries[k];
            append_bytes(out, e.filename());
            out.push(0);
            let record = records[k].encode();
            append_bytes(out, record.as_slice());
            append_bytes(out, slice_subrange(e.data(), 0, e.preload_size() as usize));
            assert(out@ =~= before + encode_file(items[k as int]));
            assert(out@ + encode_files(items, j as int, k + 1) =~= before + encode_files(
                items,
                j as int,
                k as int,
            ));
        }
        k = k + 1;
    }
    assert(out@ =~= out@ + encode_files(items, j as int, k as int));
}

/// Appends the paths under the extension that the file at place `i` leads.
fn write_paths(
    out: &mut Vec<u8>,
    entries: &[EntryPrototype],
    records: &Vec<DirectoryEntryData>,
    i: usize,
    Ghost(items): Ghost<Seq<TreeItem>>,
)
    requires
        i < entries@.len(),
        items_match(entries@, records@, items),
    ensures
        final(out)@ == old(out)@ + encode_paths(items, i as int, i as int),
{
    let mut j: usize = i;
    assert(out@ =~= old(out)@ + Seq::<u8>::empty());
    while j < entries.len()
        invariant
            i <= j <= entries@.len(),
            items_match(entries@, records@, items),
            out@ + encode_paths(items, i as int, j as int) == old(out)@ + encode_paths(
                items,
                i as int,
                i as int,
            ),
        decreases entries@.len() - j,
    {
        let ghost before = out@;
        if bytes_equal(entries[j].extension(), entries[i].extension()) && leads_path(
            entries,
            j,
            Ghost(items),
        ) {
            append_bytes(out, entries[j].path());
            out.push(0);
            write_files(out, entries, records, j, Ghost(items));
            out.push(0);
            assert(out@ =~= before + encode_path(items, j as int));
            assert(out@ + encode_paths(items, i as int, j + 1) =~= before + encode_paths(
                items,
                i as int,
                j as int,
            ));
        }
        j = j + 1;
    }
    assert(out@ =~= out@ + encode_paths(items, i as int, j as int));
}

/// Writes the tree of the files `entries` with the records `records`.
pub fn write_tree(entries: &[EntryPrototype], records: &Vec<DirectoryEntryData>) -> (tree: Vec<u8>)
    requires
        records@.len() == entries@.len(),
        forall|m: int|
            0 <= m < entries@.len() ==> (#[trigger] entries@[m])@.preload_size
                <= entries@[m]@.data.len(),
    ensures
        tree@ == encode_tree(tree_items(protos_of(entries@), records@)),
{
    let ghost items = tree_items(protos_of(entries@), records@);
    let mut out: Vec<u8> = Vec::new();
    let mut i: usize = 0;
    assert(out@ + encode_extensions(items, 0) =~= encode_tree(items));
    while i < entries.len()
        invariant
            i <= entries@.len(),
            items_match(entries@, records@, items),
            out@ + encode_extensions(items, i as int) == encode_tree(items),
        decreases entries@.len() - i,
    {
        let ghost before = out@;
        if leads_extension(entries, i, Ghost(items)) {
            append_bytes(&mut out, entries[i].extension());
            out.push(0);
            write_paths(&mut out, entries, records, i, Ghost(items));
            out.push(0);
            assert(out@ =~= before + encode_extension(items, i as int));
            assert(out@ + encode_extensions(items, i + 1) =~= before + encode_extensions(
                items,
                i as int,
            ));
        }
        i = i + 1;
    }
    out.push(0);
    assert(out@ =~= encode_tree(items));
    out
}

} // verus!
