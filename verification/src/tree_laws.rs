//! Reading a tree that was written gives the files back.

use vstd::prelude::*;
use crate::bytes::{has_at, lemma_has_at_split};
use crate::directory::{
    entry_key, lemma_string_end_is, parse_tree, parse_tree_from, string_end, Handle, Record, Scope,
};
use crate::tree::{
    encode_extension, encode_extensions, encode_file, encode_files, encode_path, encode_paths,
    encode_tree, first_of_extension, first_of_path, same_group, TreeItem,
};

verus! {

/// The name is not empty and holds no zero byte, so that the tree can hold
/// it.
pub open spec fn good_name(name: Seq<u8>) -> bool {
    &&& name.len() > 0
    &&& forall|i: int| 0 <= i < name.len() ==> name[i] != 0
}

/// The tree can hold the file: its names are good, its record has the
/// terminator, and the record counts the preload bytes that follow it.
pub open spec fn good_item(item: TreeItem) -> bool {
    &&& good_name(item.extension)
    &&& good_name(item.path)
    &&& good_name(item.filename)
    &&& item.entry.spec_is_valid()
    &&& item.entry.preload_bytes_size == item.preload.len()
}

/// The tree can hold every file.
pub open spec fn good_items(items: Seq<TreeItem>) -> bool {
    forall|m: int| 0 <= m < items.len() ==> good_item(#[trigger] items[m])
}

/// The key of a file of the tree.
pub open spec fn item_key(item: TreeItem) -> Seq<u8> {
    entry_key(item.path, item.filename, item.extension)
}

/// The record is that of the file `item`, and its handle points at the
/// preload bytes of the file in `input`, which starts at `offset` in the
/// index file.
pub open spec fn record_matches(
    input: Seq<u8>,
    record: Record,
    item: TreeItem,
    offset: int,
    archive_offset: int,
) -> bool {
    &&& record.key == item_key(item)
    &&& record.handle.entry == item.entry
    &&& record.handle.directory_archive_data_start_position == archive_offset
    &&& has_at(input, record.handle.preload_data_position - offset, item.preload)
}

/// The record is that of one of the files.
pub open spec fn record_known(
    input: Seq<u8>,
    record: Record,
    items: Seq<TreeItem>,
    offset: int,
    archive_offset: int,
) -> bool {
    exists|m: int|
        0 <= m < items.len() && record_matches(
            input,
            record,
            #[trigger] items[m],
            offset,
            archive_offset,
        )
}

/// Every record is that of one of the files.
pub open spec fn records_sound(
    input: Seq<u8>,
    records: Seq<Record>,
    items: Seq<TreeItem>,
    offset: int,
    archive_offset: int,
) -> bool {
    forall|r: int|
        0 <= r < records.len() ==> record_known(
            input,
            #[trigger] records[r],
            items,
            offset,
            archive_offset,
        )
}

/// One of the records is that of the file at place `m`.
pub open spec fn records_cover(
    input: Seq<u8>,
    records: Seq<Record>,
    items: Seq<TreeItem>,
    m: int,
    offset: int,
    archive_offset: int,
) -> bool {
    exists|r: int|
        0 <= r < records.len() && record_matches(
            input,
            #[trigger] records[r],
            items[m],
            offset,
            archive_offset,
        )
}

/// The record that reading makes of a file whose preload bytes stand at
/// `at` in the tree.
pub open spec fn record_at(item: TreeItem, at: int, offset: int, archive_offset: int) -> Record {
    Record {
        key: item_key(item),
        handle: Handle {
            entry: item.entry,
            preload_data_position: (offset + at) as u64,
            directory_archive_data_start_position: archive_offset as u64,
        },
    }
}

/// The records of the files from place `k` on in the group of the file at
/// place `j`, when what the tree holds of them starts at `pos`.
pub open spec fn flat_files(
    items: Seq<TreeItem>,
    j: int,
    k: int,
    pos: int,
    offset: int,
    archive_offset: int,
) -> Seq<Record>
    decreases items.len() - k,
{
    if k < 0 || k >= items.len() {
        Seq::empty()
    } else if same_group(items[j], items[k]) {
        seq![record_at(items[k], pos + items[k].filename.len() + 19, offset, archive_offset)]
            + flat_files(
            items,
            j,
            k + 1,
            pos + encode_file(items[k]).len(),
            offset,
            archive_offset,
        )
    } else {
        flat_files(items, j, k + 1, pos, offset, archive_offset)
    }
}

/// The records of the paths that are first met from place `j` on under the
/// extension of the file at place `i`.
pub open spec fn flat_paths(
    items: Seq<TreeItem>,
    i: int,
    j: int,
    pos: int,
    offset: int,
    archive_offset: int,
) -> Seq<Record>
    decreases items.len() - j,
{
    if j < 0 || j >= items.len() {
        Seq::empty()
    } else if items[j].extension == items[i].extension && first_of_path(items, j) {
        flat_files(items, j, j, pos + items[j].path.len() + 1, offset, archive_offset)
            + flat_paths(
            items,
            i,
            j + 1,
            pos + encode_path(items, j).len(),
            offset,
            archive_offset,
        )
    } else {
        flat_paths(items, i, j + 1, pos, offset, archive_offset)
    }
}

/// The records of the extensions that are first met from place `i` on.
pub open spec fn flat_extensions(
    items: Seq<TreeItem>,
    i: int,
    pos: int,
    offset: int,
    archive_offset: int,
) -> Seq<Record>
    decreases items.len() - i,
{
    if i < 0 || i >= items.len() {
        Seq::empty()
    } else if first_of_extension(items, i) {
        flat_paths(items, i, i, pos + items[i].extension.len() + 1, offset, archive_offset)
            + flat_extensions(
            items,
            i + 1,
            pos + encode_extension(items, i).len(),
            offset,
            archive_offset,
        )
    } else {
        flat_extensions(items, i + 1, pos, offset, archive_offset)
    }
}

/// A good name that stands at `pos` with a zero byte behind it is the
/// string that is read there.
proof fn lemma_read_name(input: Seq<u8>, pos: int, name: Seq<u8>)
    requires
        good_name(name),
        has_at(input, pos, name + seq![0u8]),
    ensures
        string_end(input, pos) == pos + name.len(),
        pos + name.len() < input.len(),
        input.subrange(pos, pos + name.len()) == name,
{
    lemma_has_at_split(input, pos, name, seq![0u8]);
    let end = pos + name.len();
    assert(input.subrange(end, end + 1)[0] == 0u8);
    assert forall|i: int| pos <= i < end implies input[i] != 0 by {
        assert(input.subrange(pos, end)[i - pos] == name[i - pos]);
    }
    lemma_string_end_is(input, pos, end);
}

/// A zero byte at `pos` is read as the empty string.
proof fn lemma_read_empty(input: Seq<u8>, pos: int)
    requires
        has_at(input, pos, seq![0u8]),
    ensures
        string_end(input, pos) == pos,
        pos < input.len(),
{
    assert(input.subrange(pos, pos + 1)[0] == 0u8);
}

/// Reading one file that the tree holds at `pos` adds its record.
proof fn lemma_parse_file(
    input: Seq<u8>,
    pos: int,
    item: TreeItem,
    found: Seq<Record>,
    offset: int,
    archive_offset: int,
)
    requires
        good_item(item),
        has_at(input, pos, encode_file(item)),
    ensures
        encode_file(item).len() == item.filename.len() + 19 + item.preload.len(),
        has_at(input, pos + item.filename.len() + 19, item.preload),
        parse_tree_from(
            input,
            pos,
            Scope::Files { extension: item.extension, path: item.path },
            found,
            offset,
            archive_offset,
        ) == parse_tree_from(
            input,
            pos + encode_file(item).len(),
            Scope::Files { extension: item.extension, path: item.path },
            found.push(record_at(item, pos + item.filename.len() + 19, offset, archive_offset)),
            offset,
            archive_offset,
        ),
{
    item.entry.lemma_decode_encode();
    let name = item.filename;
    let head = name + seq![0u8];
    let record = item.entry.spec_encode();
    assert(encode_file(item) =~= head + record + item.preload);
    lemma_has_at_split(input, pos, head + record, item.preload);
    lemma_has_at_split(input, pos, head, record);
    lemma_read_name(input, pos, name);
    let next = pos + name.len() + 1;
    assert(input.subrange(next, next + 18) == record);
}

/// Reading the files of a group that the tree holds at `pos` adds their
/// records.
proof fn lemma_parse_files(
    input: Seq<u8>,
    pos: int,
    items: Seq<TreeItem>,
    j: int,
    k: int,
    found: Seq<Record>,
    offset: int,
    archive_offset: int,
)
    requires
        good_items(items),
        0 <= j <= k <= items.len(),
        j < items.len(),
        has_at(input, pos, encode_files(items, j, k)),
    ensures
        parse_tree_from(
            input,
            pos,
            Scope::Files { extension: items[j].extension, path: items[j].path },
            found,
            offset,
            archive_offset,
        ) == parse_tree_from(
            input,
            pos + encode_files(items, j, k).len(),
            Scope::Files { extension: items[j].extension, path: items[j].path },
            found + flat_files(items, j, k, pos, offset, archive_offset),
            offset,
            archive_offset,
        ),
    decreases items.len() - k,
{
    if k >= items.len() {
        assert(found + flat_files(items, j, k, pos, offset, archive_offset) =~= found);
    } else if same_group(items[j], items[k]) {
        let item = items[k];
        let rest = encode_files(items, j, k + 1);
        lemma_has_at_split(input, pos, encode_file(item), rest);
        lemma_parse_file(input, pos, item, found, offset, archive_offset);
        let record = record_at(item, pos + item.filename.len() + 19, offset, archive_offset);
        let behind = pos + encode_file(item).len();
        lemma_parse_files(
            input,
            behind,
            items,
            j,
            k + 1,
            found.push(record),
            offset,
            archive_offset,
        );
        assert(found.push(record) + flat_files(items, j, k + 1, behind, offset, archive_offset)
            =~= found + flat_files(items, j, k, pos, offset, archive_offset));
    } else {
        lemma_parse_files(input, pos, items, j, k + 1, found, offset, archive_offset);
    }
}

/// Reading one path that the tree holds at `pos` adds the records of its
/// files.
proof fn lemma_parse_path(
    input: Seq<u8>,
    pos: int,
    items: Seq<TreeItem>,
    j: int,
    found: Seq<Record>,
    offset: int,
    archive_offset: int,
)
    requires
        good_items(items),
        0 <= j < items.len(),
        has_at(input, pos, encode_path(items, j)),
    ensures
        has_at(input, pos + items[j].path.len() + 1, encode_files(items, j, j)),
        parse_tree_from(
            input,
            pos,
            Scope::Paths { extension: items[j].extension },
            found,
            offset,
            archive_offset,
        ) == parse_tree_from(
            input,
            pos + encode_path(items, j).len(),
            Scope::Paths { extension: items[j].extension },
            found + flat_files(
                items,
                j,
                j,
                pos + items[j].path.len() + 1,
                offset,
                archive_offset,
            ),
            offset,
            archive_offset,
        ),
{
    let path = items[j].path;
    let head = path + seq![0u8];
    let files = encode_files(items, j, j);
    assert(encode_path(items, j) =~= head + files + seq![0u8]);
    lemma_has_at_split(input, pos, head + files, seq![0u8]);
    lemma_has_at_split(input, pos, head, files);
    lemma_read_name(input, pos, path);
    let start = pos + path.len() + 1;
    lemma_parse_files(input, start, items, j, j, found, offset, archive_offset);
    lemma_read_empty(input, start + files.len());
    let added = found + flat_files(items, j, j, start, offset, archive_offset);
    assert(parse_tree_from(
        input,
        pos,
        Scope::Paths { extension: items[j].extension },
        found,
        offset,
        archive_offset,
    ) == parse_tree_from(
        input,
        start,
        Scope::Files { extension: items[j].extension, path },
        found,
        offset,
        archive_offset,
    ));
    assert(parse_tree_from(
        input,
        start + files.len(),
        Scope::Files { extension: items[j].extension, path },
        added,
        offset,
        archive_offset,
    ) == parse_tree_from(
        input,
        start + files.len() + 1,
        Scope::Paths { extension: items[j].extension },
        added,
        offset,
        archive_offset,
    ));
}

/// Reading the paths of an extension that the tree holds at `pos` adds the
/// records of their files.
proof fn lemma_parse_paths(
    input: Seq<u8>,
    pos: int,
    items: Seq<TreeItem>,
    i: int,
    j: int,
    found: Seq<Record>,
    offset: int,
    archive_offset: int,
)
    requires
        good_items(items),
        0 <= i <= j <= items.len(),
        i < items.len(),
        has_at(input, pos, encode_paths(items, i, j)),
    ensures
        parse_tree_from(
            input,
            pos,
            Scope::Paths { extension: items[i].extension },
            found,
            offset,
            archive_offset,
        ) == parse_tree_from(
            input,
            pos + encode_paths(items, i, j).len(),
            Scope::Paths { extension: items[i].extension },
            found + flat_paths(items, i, j, pos, offset, archive_offset),
            offset,
            archive_offset,
        ),
    decreases items.len() - j,
{
    if j >= items.len() {
        assert(found + flat_paths(items, i, j, pos, offset, archive_offset) =~= found);
    } else if items[j].extension == items[i].extension && first_of_path(items, j) {
        let rest = encode_paths(items, i, j + 1);
        lemma_has_at_split(input, pos, encode_path(items, j), rest);
        lemma_parse_path(input, pos, items, j, found, offset, archive_offset);
        let files = flat_files(items, j, j, pos + items[j].path.len() + 1, offset, archive_offset);
        let behind = pos + encode_path(items, j).len();
        lemma_parse_paths(input, behind, items, i, j + 1, found + files, offset, archive_offset);
        assert((found + files) + flat_paths(items, i, j + 1, behind, offset, archive_offset)
            =~= found + flat_paths(items, i, j, pos, offset, archive_offset));
    } else {
        lemma_parse_paths(input, pos, items, i, j + 1, found, offset, archive_offset);
    }
}

/// Reading one extension that the tree holds at `pos` adds the records of
/// its files.
proof fn lemma_parse_extension(
    input: Seq<u8>,
    pos: int,
    items: Seq<TreeItem>,
    i: int,
    found: Seq<Record>,
    offset: int,
    archive_offset: int,
)
    requires
        good_items(items),
        0 <= i < items.len(),
        has_at(input, pos, encode_extension(items, i)),
    ensures
        has_at(input, pos + items[i].extension.len() + 1, encode_paths(items, i, i)),
        parse_tree_from(input, pos, Scope::Extensions, found, offset, archive_offset)
            == parse_tree_from(
            input,
            pos + encode_extension(items, i).len(),
            Scope::Extensions,
            found + flat_paths(
                items,
                i,
                i,
                pos + items[i].extension.len() + 1,
                offset,
                archive_offset,
            ),
            offset,
            archive_offset,
        ),
{
    let extension = items[i].extension;
    let head = extension + seq![0u8];
    let paths = encode_paths(items, i, i);
    assert(encode_extension(items, i) =~= head + paths + seq![0u8]);
    lemma_has_at_split(input, pos, head + paths, seq![0u8]);
    lemma_has_at_split(input, pos, head, paths);
    lemma_read_name(input, pos, extension);
    let start = pos + extension.len() + 1;
    lemma_parse_paths(input, start, items, i, i, found, offset, archive_offset);
    lemma_read_empty(input, start + paths.len());
    let added = found + flat_paths(items, i, i, start, offset, archive_offset);
    assert(parse_tree_from(input, pos, Scope::Extensions, found, offset, archive_offset)
        == parse_tree_from(
        input,
        start,
        Scope::Paths { extension },
        found,
        offset,
        archive_offset,
    ));
    assert(parse_tree_from(
        input,
        start + paths.len(),
        Scope::Paths { extension },
        added,
        offset,
        archive_offset,
    ) == parse_tree_from(
        input,
        start + paths.len() + 1,
        Scope::Extensions,
        added,
        offset,
        archive_offset,
    ));
}

/// Reading the extensions that the tree holds at `pos`, up to its end,
/// gives the records of all their files.
proof fn lemma_parse_extensions(
    input: Seq<u8>,
    pos: int,
    items: Seq<TreeItem>,
    i: int,
    found: Seq<Record>,
    offset: int,
    archive_offset: int,
)
    requires
        good_items(items),
        0 <= i <= items.len(),
        has_at(input, pos, encode_extensions(items, i)),
    ensures
        parse_tree_from(input, pos, Scope::Extensions, found, offset, archive_offset) == Some(
            found + flat_extensions(items, i, pos, offset, archive_offset),
        ),
    decreases items.len() - i,
{
    if i >= items.len() {
        lemma_read_empty(input, pos);
        assert(input.subrange(pos, pos).len() == 0);
        assert(found + flat_extensions(items, i, pos, offset, archive_offset) =~= found);
    } else if first_of_extension(items, i) {
        let rest = encode_extensions(items, i + 1);
        lemma_has_at_split(input, pos, encode_extension(items, i), rest);
        lemma_parse_extension(input, pos, items, i, found, offset, archive_offset);
        let paths = flat_paths(
            items,
            i,
            i,
            pos + items[i].extension.len() + 1,
            offset,
            archive_offset,
        );
        let behind = pos + encode_extension(items, i).len();
        lemma_parse_extensions(input, behind, items, i + 1, found + paths, offset, archive_offset);
        assert((found + paths) + flat_extensions(items, i + 1, behind, offset, archive_offset)
            =~= found + flat_extensions(items, i, pos, offset, archive_offset));
    } else {
        lemma_parse_extensions(input, pos, items, i + 1, found, offset, archive_offset);
    }
}

/// The file at place `l` is the first of its group, and the file at place
/// `m` belongs to that group.
pub open spec fn leads(items: Seq<TreeItem>, l: int, m: int) -> bool {
    &&& 0 <= l <= m < items.len()
    &&& first_of_path(items, l)
    &&& same_group(items[l], items[m])
}

/// Records that are sound stay so when they are put together.
proof fn lemma_sound_concat(
    input: Seq<u8>,
    a: Seq<Record>,
    b: Seq<Record>,
    items: Seq<TreeItem>,
    offset: int,
    archive_offset: int,
)
    requires
        records_sound(input, a, items, offset, archive_offset),
        records_sound(input, b, items, offset, archive_offset),
    ensures
        records_sound(input, a + b, items, offset, archive_offset),
{
    assert forall|r: int| 0 <= r < (a + b).len() implies record_known(
        input,
        #[trigger] (a + b)[r],
        items,
        offset,
        archive_offset,
    ) by {
        if r < a.len() {
            assert((a + b)[r] == a[r]);
        } else {
            assert((a + b)[r] == b[r - a.len()]);
        }
    }
}

/// A file that one part covers is covered by the whole.
proof fn lemma_cover_concat(
    input: Seq<u8>,
    a: Seq<Record>,
    b: Seq<Record>,
    items: Seq<TreeItem>,
    m: int,
    offset: int,
    archive_offset: int,
)
    requires
        records_cover(input, a, items, m, offset, archive_offset) || records_cover(
            input,
            b,
            items,
            m,
            offset,
            archive_offset,
        ),
    ensures
        records_cover(input, a + b, items, m, offset, archive_offset),
{
    if records_cover(input, a, items, m, offset, archive_offset) {
        let r = choose|r: int|
            0 <= r < a.len() && record_matches(
                input,
                #[trigger] a[r],
                items[m],
                offset,
                archive_offset,
            );
        assert((a + b)[r] == a[r]);
    } else {
        let r = choose|r: int|
            0 <= r < b.len() && record_matches(
                input,
                #[trigger] b[r],
                items[m],
                offset,
                archive_offset,
            );
        assert((a + b)[a.len() + r] == b[r]);
    }
}

/// The records of the files of a group are theirs, and each file of the
/// group has one.
proof fn lemma_flat_files(
    input: Seq<u8>,
    pos: int,
    items: Seq<TreeItem>,
    j: int,
    k: int,
    offset: int,
    archive_offset: int,
)
    requires
        good_items(items),
        0 <= j <= k <= items.len(),
        j < items.len(),
        has_at(input, pos, encode_files(items, j, k)),
        0 <= pos,
        0 <= offset,
        offset + input.len() <= u64::MAX,
        0 <= archive_offset <= u64::MAX,
    ensures
        records_sound(
            input,
            flat_files(items, j, k, pos, offset, archive_offset),
            items,
            offset,
            archive_offset,
        ),
        forall|m: int|
            k <= m < items.len() && same_group(items[j], items[m]) ==> #[trigger] records_cover(
                input,
                flat_files(items, j, k, pos, offset, archive_offset),
                items,
                m,
                offset,
                archive_offset,
            ),
    decreases items.len() - k,
{
    let flat = flat_files(items, j, k, pos, offset, archive_offset);
    if k >= items.len() {
    } else if same_group(items[j], items[k]) {
        let item = items[k];
        let rest = encode_files(items, j, k + 1);
        lemma_has_at_split(input, pos, encode_file(item), rest);
        lemma_parse_file(input, pos, item, Seq::empty(), offset, archive_offset);
        let record = record_at(item, pos + item.filename.len() + 19, offset, archive_offset);
        let behind = pos + encode_file(item).len();
        lemma_flat_files(input, behind, items, j, k + 1, offset, archive_offset);
        let tail = flat_files(items, j, k + 1, behind, offset, archive_offset);
        let first = seq![record];
        assert(record_matches(input, record, item, offset, archive_offset));
        assert(first[0] == record);
        assert(records_sound(input, first, items, offset, archive_offset)) by {
            assert forall|r: int| 0 <= r < first.len() implies record_known(
                input,
                #[trigger] first[r],
                items,
                offset,
                archive_offset,
            ) by {
                assert(record_matches(input, first[r], items[k], offset, archive_offset));
            }
        }
        assert(records_cover(input, first, items, k, offset, archive_offset));
        lemma_sound_concat(input, first, tail, items, offset, archive_offset);
        assert(flat == first + tail);
        assert forall|m: int|
            k <= m < items.len() && same_group(items[j], items[m]) implies #[trigger] records_cover(
            input,
            flat,
            items,
            m,
            offset,
            archive_offset,
        ) by {
            if m > k {
                assert(records_cover(input, tail, items, m, offset, archive_offset));
            }
            lemma_cover_concat(input, first, tail, items, m, offset, archive_offset);
        }
    } else {
        lemma_flat_files(input, pos, items, j, k + 1, offset, archive_offset);
        let tail = flat_files(items, j, k + 1, pos, offset, archive_offset);
        assert(flat == tail);
        assert forall|m: int|
            k <= m < items.len() && same_group(items[j], items[m]) implies #[trigger] records_cover(
            input,
            flat,
            items,
            m,
            offset,
            archive_offset,
        ) by {
            assert(records_cover(input, tail, items, m, offset, archive_offset));
        }
    }
}

/// The records of the paths of an extension are those of files, and each
/// file of a group that is first met from place `j` on under the extension
/// has one.
proof fn lemma_flat_paths(
    input: Seq<u8>,
    pos: int,
    items: Seq<TreeItem>,
    i: int,
    j: int,
    offset: int,
    archive_offset: int,
)
    requires
        good_items(items),
        0 <= i <= j <= items.len(),
        i < items.len(),
        has_at(input, pos, encode_paths(items, i, j)),
        0 <= pos,
        0 <= offset,
        offset + input.len() <= u64::MAX,
        0 <= archive_offset <= u64::MAX,
    ensures
        records_sound(
            input,
            flat_paths(items, i, j, pos, offset, archive_offset),
            items,
            offset,
            archive_offset,
        ),
        forall|l: int, m: int|
            j <= l && #[trigger] leads(items, l, m) && items[l].extension == items[i].extension
                ==> records_cover(
                input,
                flat_paths(items, i, j, pos, offset, archive_offset),
                items,
                m,
                offset,
                archive_offset,
            ),
    decreases items.len() - j,
{
    let flat = flat_paths(items, i, j, pos, offset, archive_offset);
    if j >= items.len() {
    } else if items[j].extension == items[i].extension && first_of_path(items, j) {
        let rest = encode_paths(items, i, j + 1);
        lemma_has_at_split(input, pos, encode_path(items, j), rest);
        lemma_parse_path(input, pos, items, j, Seq::empty(), offset, archive_offset);
        let start = pos + items[j].path.len() + 1;
        lemma_flat_files(input, start, items, j, j, offset, archive_offset);
        let files = flat_files(items, j, j, start, offset, archive_offset);
        let behind = pos + encode_path(items, j).len();
        lemma_flat_paths(input, behind, items, i, j + 1, offset, archive_offset);
        let tail = flat_paths(items, i, j + 1, behind, offset, archive_offset);
        assert(flat == files + tail);
        lemma_sound_concat(input, files, tail, items, offset, archive_offset);
        assert forall|l: int, m: int|
            j <= l && #[trigger] leads(items, l, m) && items[l].extension
                == items[i].extension implies records_cover(
            input,
            flat,
            items,
            m,
            offset,
            archive_offset,
        ) by {
            if l == j {
                assert(records_cover(input, files, items, m, offset, archive_offset));
            } else {
                assert(records_cover(input, tail, items, m, offset, archive_offset));
            }
            lemma_cover_concat(input, files, tail, items, m, offset, archive_offset);
        }
    } else {
        lemma_flat_paths(input, pos, items, i, j + 1, offset, archive_offset);
        let tail = flat_paths(items, i, j + 1, pos, offset, archive_offset);
        assert(flat == tail);
        assert forall|l: int, m: int|
            j <= l && #[trigger] leads(items, l, m) && items[l].extension
                == items[i].extension implies records_cover(
            input,
            flat,
            items,
            m,
            offset,
            archive_offset,
        ) by {
            assert(l != j);
            assert(records_cover(input, tail, items, m, offset, archive_offset));
        }
    }
}

/// The file at place `e` is the first with its extension, and the group
/// that the file at place `l` leads has that extension.
pub open spec fn heads(items: Seq<TreeItem>, e: int, l: int) -> bool {
    &&& 0 <= e <= l < items.len()
    &&& first_of_extension(items, e)
    &&& items[e].extension == items[l].extension
}

/// The records of the extensions are those of files, and each file under
/// an extension that is first met from place `i` on has one.
proof fn lemma_flat_extensions(
    input: Seq<u8>,
    pos: int,
    items: Seq<TreeItem>,
    i: int,
    offset: int,
    archive_offset: int,
)
    requires
        good_items(items),
        0 <= i <= items.len(),
        has_at(input, pos, encode_extensions(items, i)),
        0 <= pos,
        0 <= offset,
        offset + input.len() <= u64::MAX,
        0 <= archive_offset <= u64::MAX,
    ensures
        records_sound(
            input,
            flat_extensions(items, i, pos, offset, archive_offset),
            items,
            offset,
            archive_offset,
        ),
        forall|e: int, l: int, m: int|
            i <= e && #[trigger] heads(items, e, l) && #[trigger] leads(items, l, m)
                ==> records_cover(
                input,
                flat_extensions(items, i, pos, offset, archive_offset),
                items,
                m,
                offset,
                archive_offset,
            ),
    decreases items.len() - i,
{
    let flat = flat_extensions(items, i, pos, offset, archive_offset);
    if i >= items.len() {
    } else if first_of_extension(items, i) {
        let rest = encode_extensions(items, i + 1);
        lemma_has_at_split(input, pos, encode_extension(items, i), rest);
        lemma_parse_extension(input, pos, items, i, Seq::empty(), offset, archive_offset);
        let start = pos + items[i].extension.len() + 1;
        lemma_flat_paths(input, start, items, i, i, offset, archive_offset);
        let paths = flat_paths(items, i, i, start, offset, archive_offset);
        let behind = pos + encode_extension(items, i).len();
        lemma_flat_extensions(input, behind, items, i + 1, offset, archive_offset);
        let tail = flat_extensions(items, i + 1, behind, offset, archive_offset);
        assert(flat == paths + tail);
        lemma_sound_concat(input, paths, tail, items, offset, archive_offset);
        assert forall|e: int, l: int, m: int|
            i <= e && #[trigger] heads(items, e, l) && #[trigger] leads(
                items,
                l,
                m,
            ) implies records_cover(input, flat, items, m, offset, archive_offset) by {
            if e == i {
                assert(records_cover(input, paths, items, m, offset, archive_offset));
            } else {
                assert(records_cover(input, tail, items, m, offset, archive_offset));
            }
            lemma_cover_concat(input, paths, tail, items, m, offset, archive_offset);
        }
    } else {
        lemma_flat_extensions(input, pos, items, i + 1, offset, archive_offset);
        let tail = flat_extensions(items, i + 1, pos, offset, archive_offset);
        assert(flat == tail);
        assert forall|e: int, l: int, m: int|
            i <= e && #[trigger] heads(items, e, l) && #[trigger] leads(
                items,
                l,
                m,
            ) implies records_cover(input, flat, items, m, offset, archive_offset) by {
            assert(e != i);
            assert(records_cover(input, tail, items, m, offset, archive_offset));
        }
    }
}

/// Every file belongs to a group that some file leads.
proof fn lemma_leader(items: Seq<TreeItem>, m: int)
    requires
        0 <= m < items.len(),
    ensures
        exists|l: int| leads(items, l, m),
    decreases m,
{
    if first_of_path(items, m) {
        assert(leads(items, m, m));
    } else {
        let before = choose|b: int| 0 <= b < m && same_group(#[trigger] items[b], items[m]);
        lemma_leader(items, before);
        let l = choose|l: int| leads(items, l, before);
        assert(leads(items, l, m));
    }
}

/// Every group has an extension that some file is the first to have.
proof fn lemma_head(items: Seq<TreeItem>, l: int)
    requires
        0 <= l < items.len(),
    ensures
        exists|e: int| heads(items, e, l),
    decreases l,
{
    if first_of_extension(items, l) {
        assert(heads(items, l, l));
    } else {
        let before = choose|b: int|
            0 <= b < l && (#[trigger] items[b]).extension == items[l].extension;
        lemma_head(items, before);
        let e = choose|e: int| heads(items, e, before);
        assert(heads(items, e, l));
    }
}

/// Reading a tree that was written succeeds. Every record that is read is
/// that of one of the files, with its key, its record and the place of its
/// preload bytes, and every file has such a record.
pub proof fn lemma_tree_round_trip(
    input: Seq<u8>,
    items: Seq<TreeItem>,
    offset: int,
    archive_offset: int,
)
    requires
        good_items(items),
        has_at(input, 0, encode_tree(items)),
        0 <= offset,
        offset + input.len() <= u64::MAX,
        0 <= archive_offset <= u64::MAX,
    ensures
        parse_tree(input, offset, archive_offset) is Some,
        records_sound(
            input,
            parse_tree(input, offset, archive_offset)->Some_0,
            items,
            offset,
            archive_offset,
        ),
        forall|m: int|
            0 <= m < items.len() ==> #[trigger] records_cover(
                input,
                parse_tree(input, offset, archive_offset)->Some_0,
                items,
                m,
                offset,
                archive_offset,
            ),
{
    let flat = flat_extensions(items, 0, 0, offset, archive_offset);
    lemma_parse_extensions(input, 0, items, 0, Seq::empty(), offset, archive_offset);
    assert(Seq::<Record>::empty() + flat =~= flat);
    lemma_flat_extensions(input, 0, items, 0, offset, archive_offset);
    assert forall|m: int| 0 <= m < items.len() implies #[trigger] records_cover(
        input,
        flat,
        items,
        m,
        offset,
        archive_offset,
    ) by {
        lemma_leader(items, m);
        let l = choose|l: int| leads(items, l, m);
        lemma_head(items, l);
        let e = choose|e: int| heads(items, e, l);
        assert(heads(items, e, l) && leads(items, l, m));
    }
}

} // verus!
