//! What holds of an archive that was built and is read again.

use vstd::prelude::*;
use crate::archive::{
    checksums_of, directory_of, header_of, lemma_path_bytes, open_fault, other_of, tree_of,
    ArchiveView,
};
use crate::bytes::{has_at, lemma_has_at_split, lemma_has_at_within, lemma_le_u32_round_trip};
use crate::create::{
    checksum_record, checksums_before, header_fits, spec_checksums, spec_header, spec_index_file,
    spec_other, spec_tree,
};
use crate::digest::md5_of;
use crate::directory::{key_chars, parse_tree, Directory};
use crate::layout::{
    embedded_before, file_before, layout_before, layout_fits, layout_target, lemma_count_grows,
    lemma_layout_state, lemma_target_grows, spec_embedded, spec_entries, spec_entry, spec_file,
    spec_file_count, step_fits,
};
use crate::prototype::Proto;
use crate::tree::tree_items;
use crate::tree_laws::{
    good_item, good_items, good_name, item_key, lemma_tree_round_trip, record_known,
    record_matches, records_cover, records_sound,
};

verus! {

/// The key of a prototype.
pub open spec fn proto_key(p: Proto) -> Seq<u8> {
    crate::directory::entry_key(p.path, p.filename, p.extension)
}

/// The prototypes can be packed and found again: the archive can hold them,
/// no name is empty or holds a zero byte, no two of them have the same key,
/// and no archive file has the number that marks embedded content.
pub open spec fn packable(protos: Seq<Proto>) -> bool {
    &&& layout_fits(protos)
    &&& header_fits(protos)
    &&& forall|i: int|
        0 <= i < protos.len() ==> {
            &&& good_name((#[trigger] protos[i]).extension)
            &&& good_name(protos[i].path)
            &&& good_name(protos[i].filename)
        }
    &&& forall|i: int, j: int|
        0 <= i < j < protos.len() ==> proto_key(#[trigger] protos[i]) != proto_key(
            #[trigger] protos[j],
        )
    &&& layout_before(protos, protos.len() as int).index < 0x7fff
}

/// Every prototype has its preload bytes.
proof fn lemma_preloads(protos: Seq<Proto>)
    requires
        layout_fits(protos),
    ensures
        forall|j: int|
            0 <= j < protos.len() ==> (#[trigger] protos[j]).preload_size <= protos[j].data.len()
                <= u32::MAX,
{
    assert forall|j: int| 0 <= j < protos.len() implies (#[trigger] protos[j]).preload_size
        <= protos[j].data.len() <= u32::MAX by {
        assert(step_fits(layout_before(protos, j), protos[j]));
    }
}

/// What is embedded of the first files stays where it is when more files
/// follow.
proof fn lemma_embedded_grows(protos: Seq<Proto>, k: int, n: int)
    requires
        0 <= k <= n <= protos.len(),
    ensures
        has_at(embedded_before(protos, n), 0, embedded_before(protos, k)),
    decreases n - k,
{
    if k < n {
        lemma_embedded_grows(protos, k, n - 1);
        let before = embedded_before(protos, n - 1);
        if protos[n - 1].is_embedded() {
            let body = protos[n - 1].body();
            assert(embedded_before(protos, n) == before + body);
            assert((before + body).subrange(0, embedded_before(protos, k).len() as int)
                =~= before.subrange(0, embedded_before(protos, k).len() as int));
        }
    } else {
        assert(embedded_before(protos, k).subrange(0, embedded_before(protos, k).len() as int)
            =~= embedded_before(protos, k));
    }
}

/// What an archive file holds of the first files stays where it is when
/// more files follow.
proof fn lemma_file_grows(protos: Seq<Proto>, file: int, k: int, n: int)
    requires
        0 <= k <= n <= protos.len(),
    ensures
        has_at(file_before(protos, file, n), 0, file_before(protos, file, k)),
    decreases n - k,
{
    if k < n {
        lemma_file_grows(protos, file, k, n - 1);
        let before = file_before(protos, file, n - 1);
        if protos[n - 1].is_external() && layout_target(layout_before(protos, n - 1)).0 == file {
            let body = protos[n - 1].body();
            assert(file_before(protos, file, n) == before + body);
            assert((before + body).subrange(0, file_before(protos, file, k).len() as int)
                =~= before.subrange(0, file_before(protos, file, k).len() as int));
        }
    } else {
        assert(file_before(protos, file, k).subrange(
            0,
            file_before(protos, file, k).len() as int,
        ) =~= file_before(protos, file, k));
    }
}

/// The stored bytes of an embedded file stand in the embedded content at
/// the offset that its record holds.
proof fn lemma_embedded_body(protos: Seq<Proto>, i: int)
    requires
        layout_fits(protos),
        0 <= i < protos.len(),
        protos[i].is_embedded(),
    ensures
        has_at(spec_embedded(protos), spec_entry(protos, i).data_offset as int, protos[i].body()),
{
    lemma_preloads(protos);
    lemma_layout_state(protos, i);
    assert(step_fits(layout_before(protos, i), protos[i]));
    let before = embedded_before(protos, i);
    let body = protos[i].body();
    assert(embedded_before(protos, i + 1) == before + body);
    lemma_embedded_grows(protos, i + 1, protos.len() as int);
    lemma_has_at_split(spec_embedded(protos), 0, before, body);
}

/// The stored bytes of a file that went to an archive file stand in that
/// file at the offset that its record holds.
proof fn lemma_external_body(protos: Seq<Proto>, i: int)
    requires
        layout_fits(protos),
        0 <= i < protos.len(),
        protos[i].is_external(),
    ensures
        0 <= spec_entry(protos, i).archive_index < spec_file_count(protos),
        spec_entry(protos, i).archive_index == layout_target(layout_before(protos, i)).0,
        has_at(
            spec_file(protos, spec_entry(protos, i).archive_index as int),
            spec_entry(protos, i).data_offset as int,
            protos[i].body(),
        ),
{
    lemma_preloads(protos);
    lemma_layout_state(protos, i);
    lemma_target_grows(protos, i);
    lemma_count_grows(protos, i);
    assert(step_fits(layout_before(protos, i), protos[i]));
    let state = layout_before(protos, i);
    let file = layout_target(state).0;
    let before = file_before(protos, file, i);
    let body = protos[i].body();
    assert(before.len() == layout_target(state).1) by {
        if state.pending {
            assert(file_before(protos, state.index + 1, i).len() == 0);
        }
    }
    assert(file_before(protos, file, i + 1) == before + body);
    lemma_file_grows(protos, file, i + 1, protos.len() as int);
    lemma_has_at_split(spec_file(protos, file), 0, before, body);
}

/// Where the embedded content starts in the index file of a build.
pub open spec fn spec_data_start(protos: Seq<Proto>) -> int {
    28 + spec_tree(protos).len() as int
}

/// The section of checksum records holds 28 bytes for each record.
proof fn lemma_checksums_len(protos: Seq<Proto>, k: int)
    requires
        0 <= k <= protos.len(),
    ensures
        checksums_before(protos, k).len() % 28 == 0,
    decreases k,
{
    if k > 0 {
        lemma_checksums_len(protos, k - 1);
        if protos[k - 1].is_external() {
            let record = checksum_record(spec_entry(protos, k - 1), protos[k - 1].body());
            assert(record.len() == 28);
        }
    }
}

/// The sections of the index file of a build stand where its header says.
proof fn lemma_index_sections(protos: Seq<Proto>)
    requires
        header_fits(protos),
    ensures
        spec_index_file(protos).len() == 28 + spec_tree(protos).len() + spec_embedded(
            protos,
        ).len() + spec_checksums(protos).len() + 48,
        header_of(spec_index_file(protos)) == spec_header(protos),
        spec_header(protos).spec_is_valid(),
        spec_header(protos).tree_size == spec_tree(protos).len(),
        spec_header(protos).file_data_section_size == spec_embedded(protos).len(),
        spec_header(protos).archive_md5_section_size == spec_checksums(protos).len(),
        tree_of(spec_index_file(protos)) == spec_tree(protos),
        checksums_of(spec_index_file(protos)) == spec_checksums(protos),
        other_of(spec_index_file(protos)) == spec_other(protos),
        has_at(spec_index_file(protos), 28, spec_tree(protos)),
        has_at(spec_index_file(protos), spec_data_start(protos), spec_embedded(protos)),
{
    let dir = spec_index_file(protos);
    let header = spec_header(protos);
    let h = header.spec_encode();
    let t = spec_tree(protos);
    let e = spec_embedded(protos);
    let c = spec_checksums(protos);
    let o = spec_other(protos);
    header.lemma_decode_encode();
    assert(o.len() == 48);
    assert(dir == h + t + e + c + o);
    let t0: int = 28;
    let e0: int = t0 + t.len();
    let c0: int = e0 + e.len();
    let o0: int = c0 + c.len();
    assert(dir.subrange(0, t0) =~= h);
    assert(dir.subrange(t0, e0) =~= t);
    assert(dir.subrange(e0, c0) =~= e);
    assert(dir.subrange(c0, o0) =~= c);
    assert(dir.subrange(o0, o0 + 48) =~= o);
}

/// The tree can hold the files of prototypes with good names.
proof fn lemma_items_good(protos: Seq<Proto>)
    requires
        packable(protos),
    ensures
        good_items(tree_items(protos, spec_entries(protos))),
        tree_items(protos, spec_entries(protos)).len() == protos.len(),
        forall|m: int|
            0 <= m < protos.len() ==> {
                &&& item_key(#[trigger] tree_items(protos, spec_entries(protos))[m]) == proto_key(
                    protos[m],
                )
                &&& tree_items(protos, spec_entries(protos))[m].entry == spec_entry(protos, m)
                &&& tree_items(protos, spec_entries(protos))[m].preload == protos[m].preload()
            },
{
    lemma_preloads(protos);
    let items = tree_items(protos, spec_entries(protos));
    assert forall|m: int| 0 <= m < items.len() implies good_item(#[trigger] items[m]) by {
        assert(good_name(protos[m].extension));
        assert(protos[m].preload_size <= protos[m].data.len());
    }
}

/// The tree of a build can be read, and what is read are the files of the
/// build: every record is that of a prototype, and every prototype has a
/// record.
proof fn lemma_tree_reads(protos: Seq<Proto>)
    requires
        packable(protos),
    ensures
        parse_tree(spec_tree(protos), 28, spec_data_start(protos)) is Some,
        records_sound(
            spec_tree(protos),
            parse_tree(spec_tree(protos), 28, spec_data_start(protos))->Some_0,
            tree_items(protos, spec_entries(protos)),
            28,
            spec_data_start(protos),
        ),
        forall|m: int|
            0 <= m < protos.len() ==> #[trigger] records_cover(
                spec_tree(protos),
                parse_tree(spec_tree(protos), 28, spec_data_start(protos))->Some_0,
                tree_items(protos, spec_entries(protos)),
                m,
                28,
                spec_data_start(protos),
            ),
{
    let tree = spec_tree(protos);
    let items = tree_items(protos, spec_entries(protos));
    lemma_items_good(protos);
    assert(tree.subrange(0, tree.len() as int) =~= tree);
    lemma_tree_round_trip(tree, items, 28, spec_data_start(protos));
}

/// An index file of a build whose tree can be read can be opened.
proof fn lemma_opens(protos: Seq<Proto>)
    requires
        header_fits(protos),
        parse_tree(spec_tree(protos), 28, spec_data_start(protos)) is Some,
    ensures
        open_fault(spec_index_file(protos)) is None,
        directory_of(spec_index_file(protos)) == parse_tree(
            spec_tree(protos),
            28,
            spec_data_start(protos),
        ),
{
    lemma_index_sections(protos);
    lemma_checksums_len(protos, protos.len() as int);
}

/// The archive is what opening makes of the files of the build of
/// `protos`.
pub open spec fn archive_of(archive: ArchiveView, protos: Seq<Proto>) -> bool {
    &&& archive.wf()
    &&& archive.dir == spec_index_file(protos)
    &&& archive.data.len() == spec_file_count(protos)
    &&& forall|file: int|
        0 <= file < archive.data.len() ==> #[trigger] archive.data[file] == spec_file(protos, file)
}

/// The path under which a prototype is looked up.
pub open spec fn proto_path(p: Proto) -> Seq<char> {
    key_chars(proto_key(p))
}

/// A chunk that stands in a part of `s` stands in `s`.
proof fn lemma_has_at_lift(s: Seq<u8>, start: int, part: Seq<u8>, pos: int, chunk: Seq<u8>)
    requires
        has_at(s, start, part),
        has_at(part, pos, chunk),
    ensures
        has_at(s, start + pos, chunk),
{
    lemma_has_at_within(s, start, part, pos, pos + chunk.len());
}

/// A lookup of a prototype's path in the archive of a build finds a record
/// with the prototype's entry, whose handle points at the prototype's
/// preload bytes and at the embedded content.
proof fn lemma_found(protos: Seq<Proto>, archive: ArchiveView, i: int)
    requires
        packable(protos),
        archive_of(archive, protos),
        0 <= i < protos.len(),
    ensures
        archive.lookup(proto_path(protos[i])) is Some,
        0 <= archive.lookup(proto_path(protos[i]))->Some_0 < archive.directory.len(),
        ({
            let handle = archive.directory[archive.lookup(proto_path(protos[i]))->Some_0].handle;
            &&& handle.entry == spec_entry(protos, i)
            &&& handle.directory_archive_data_start_position == spec_data_start(protos)
            &&& has_at(archive.dir, handle.preload_data_position as int, protos[i].preload())
        }),
{
    let tree = spec_tree(protos);
    let items = tree_items(protos, spec_entries(protos));
    let key = proto_key(protos[i]);
    let start = spec_data_start(protos);
    lemma_tree_reads(protos);
    lemma_opens(protos);
    lemma_items_good(protos);
    lemma_index_sections(protos);
    let records = archive.directory;
    assert(records == parse_tree(tree, 28, start)->Some_0);
    lemma_path_bytes(proto_path(protos[i]), key);
    Directory::lemma_spec_find(records, key);
    assert(records_cover(tree, records, items, i, 28, start));
    let r0 = choose|r: int|
        0 <= r < records.len() && record_matches(tree, #[trigger] records[r], items[i], 28, start);
    assert(records[r0].key == key);
    let r = Directory::spec_find(records, key)->Some_0;
    assert(record_known(tree, records[r], items, 28, start));
    let m = choose|m: int|
        0 <= m < items.len() && record_matches(tree, records[r], #[trigger] items[m], 28, start);
    assert(item_key(items[m]) == proto_key(protos[m]));
    assert(item_key(items[i]) == proto_key(protos[i]));
    if m < i {
        assert(proto_key(protos[m]) != proto_key(protos[i]));
    }
    if i < m {
        assert(proto_key(protos[i]) != proto_key(protos[m]));
    }
    assert(m == i);
    let handle = records[r].handle;
    lemma_has_at_lift(
        archive.dir,
        28,
        tree,
        handle.preload_data_position - 28,
        protos[i].preload(),
    );
}

/// What the entry of a prototype says of where its bytes are stored.
proof fn lemma_entry_kind(protos: Seq<Proto>, i: int)
    requires
        layout_fits(protos),
        layout_before(protos, protos.len() as int).index < 0x7fff,
        0 <= i < protos.len(),
    ensures
        spec_entry(protos, i).spec_is_in_directory_archive() <==> protos[i].is_embedded(),
        spec_entry(protos, i).data_length == protos[i].body_len(),
        spec_entry(protos, i).preload_bytes_size == protos[i].preload().len(),
        protos[i].data == protos[i].preload() + protos[i].body(),
        !protos[i].is_embedded() ==> spec_entry(protos, i).archive_index < spec_file_count(protos),
{
    lemma_preloads(protos);
    lemma_target_grows(protos, protos.len() as int);
    lemma_target_grows(protos, i);
    if protos[i].is_external() {
        lemma_count_grows(protos, i);
    }
    assert(step_fits(layout_before(protos, i), protos[i]));
    assert(protos[i].data =~= protos[i].preload() + protos[i].body());
}

/// The stored bytes of an embedded prototype stand behind the tree in the
/// index file, at the offset that its entry holds.
proof fn lemma_stored_embedded(protos: Seq<Proto>, i: int)
    requires
        layout_fits(protos),
        header_fits(protos),
        0 <= i < protos.len(),
        protos[i].is_embedded(),
    ensures
        has_at(
            spec_index_file(protos),
            spec_data_start(protos) + spec_entry(protos, i).data_offset,
            protos[i].body(),
        ),
{
    lemma_embedded_body(protos, i);
    lemma_index_sections(protos);
    lemma_has_at_lift(
        spec_index_file(protos),
        spec_data_start(protos),
        spec_embedded(protos),
        spec_entry(protos, i).data_offset as int,
        protos[i].body(),
    );
}

/// Round trip: in the archive of a build, a lookup of a prototype's path
/// gives a reader, and what the reader delivers from the start of the file
/// to its end are the bytes of the prototype.
pub proof fn lemma_round_trip(protos: Seq<Proto>, archive: ArchiveView, i: int)
    requires
        packable(protos),
        archive_of(archive, protos),
        0 <= i < protos.len(),
    ensures
        archive.reader_of(proto_path(protos[i])) is Some,
        archive.reader_of(proto_path(protos[i]))->Some_0.wf(),
        archive.reader_of(proto_path(protos[i]))->Some_0.total_end() == protos[i].data.len(),
        archive.reader_of(proto_path(protos[i]))->Some_0.rest() == Some(protos[i].data),
{
    lemma_found(protos, archive, i);
    lemma_entry_kind(protos, i);
    let p = protos[i];
    if p.is_embedded() {
        lemma_stored_embedded(protos, i);
    } else if p.is_external() {
        lemma_external_body(protos, i);
        assert(archive.data[spec_entry(protos, i).archive_index as int] == spec_file(
            protos,
            spec_entry(protos, i).archive_index as int,
        ));
    }
    let reader = archive.reader_of(proto_path(protos[i]))->Some_0;
    let total = p.data.len() as int;
    assert(reader.handle.entry == spec_entry(protos, i));
    assert(reader.total_end() == total);
    assert(reader.preload_count(total) == p.preload_size);
    assert(reader.read_count(total) == total);
    assert(reader.preload_piece(total) == Some(p.preload())) by {
        if p.preload_size == 0 {
            assert(p.preload() =~= Seq::<u8>::empty());
        }
    }
    assert(reader.body_piece(total) == Some(p.body())) by {
        if p.body_len() == 0 {
            assert(p.body() =~= Seq::<u8>::empty());
        }
    }
}

/// The index file of a build of prototypes that can be packed can be
/// opened.
pub proof fn lemma_build_opens(protos: Seq<Proto>)
    requires
        packable(protos),
    ensures
        open_fault(spec_index_file(protos)) is None,
{
    lemma_tree_reads(protos);
    lemma_opens(protos);
}

/// Each record of the section of checksum records is that of a file that
/// went to an archive file.
proof fn lemma_checksum_chunk(protos: Seq<Proto>, k: int, c: int)
    requires
        0 <= k <= protos.len(),
        0 <= c,
        28 * c + 28 <= checksums_before(protos, k).len(),
    ensures
        exists|m: int|
            0 <= m < k && (#[trigger] protos[m]).is_external() && checksums_before(
                protos,
                k,
            ).subrange(28 * c, 28 * c + 28) == checksum_record(
                spec_entry(protos, m),
                protos[m].body(),
            ),
    decreases k,
{
    if k > 0 {
        let prev = checksums_before(protos, k - 1);
        lemma_checksums_len(protos, k - 1);
        if protos[k - 1].is_external() {
            let record = checksum_record(spec_entry(protos, k - 1), protos[k - 1].body());
            assert(record.len() == 28);
            assert(checksums_before(protos, k) == prev + record);
            if 28 * c + 28 <= prev.len() {
                lemma_checksum_chunk(protos, k - 1, c);
                assert((prev + record).subrange(28 * c, 28 * c + 28) =~= prev.subrange(
                    28 * c,
                    28 * c + 28,
                ));
            } else {
                assert(28 * c == prev.len());
                assert((prev + record).subrange(28 * c, 28 * c + 28) =~= record);
                assert(protos[k - 1].is_external());
            }
        } else {
            lemma_checksum_chunk(protos, k - 1, c);
        }
    }
}

/// What a checksum record says when it is read back: the numbers of the
/// entry, and the checksum of the stored bytes.
proof fn lemma_checksum_decoded(
    sum: crate::sections::ArchiveMD5SectionEntry,
    entry: crate::data::DirectoryEntryData,
    body: Seq<u8>,
)
    requires
        sum.spec_decoded(checksum_record(entry, body)),
    ensures
        sum.archive_index == entry.archive_index,
        sum.starting_offset == entry.data_offset,
        sum.count == entry.data_length,
        sum.md5_checksum@ == md5_of(body),
{
    let record = checksum_record(entry, body);
    lemma_le_u32_round_trip(entry.archive_index as u32);
    lemma_le_u32_round_trip(entry.data_offset);
    lemma_le_u32_round_trip(entry.data_length);
    assert(record.subrange(0, 4) =~= crate::bytes::le_u32(entry.archive_index as u32));
    assert(record.subrange(4, 8) =~= crate::bytes::le_u32(entry.data_offset));
    assert(record.subrange(8, 12) =~= crate::bytes::le_u32(entry.data_length));
    assert(record.subrange(12, 28) =~= md5_of(body));
}

/// In the archive of a build, the range that a checksum covers can be
/// read, and its checksum is the one that is stored.
proof fn lemma_checksum_holds(protos: Seq<Proto>, archive: ArchiveView, c: int)
    requires
        packable(protos),
        archive_of(archive, protos),
        0 <= c < archive.archive_md5.len(),
    ensures
        archive.covered(c) is Some,
        !archive.fails(c),
{
    lemma_index_sections(protos);
    lemma_build_opens(protos);
    let section = spec_checksums(protos);
    let sum = archive.archive_md5[c];
    assert(sum.spec_decoded(section.subrange(28 * c, 28 * c + 28)));
    lemma_checksum_chunk(protos, protos.len() as int, c);
    let m = choose|m: int|
        0 <= m < protos.len() && (#[trigger] protos[m]).is_external() && section.subrange(
            28 * c,
            28 * c + 28,
        ) == checksum_record(spec_entry(protos, m), protos[m].body());
    lemma_checksum_decoded(sum, spec_entry(protos, m), protos[m].body());
    lemma_entry_kind(protos, m);
    lemma_external_body(protos, m);
    let file = spec_entry(protos, m).archive_index as int;
    assert(archive.data[file] == spec_file(protos, file));
}

/// In the archive of a build, no checksum of the first `k` fails.
proof fn lemma_none_fails(protos: Seq<Proto>, archive: ArchiveView, k: int)
    requires
        packable(protos),
        archive_of(archive, protos),
        0 <= k <= archive.archive_md5.len(),
    ensures
        archive.failing_before(k) == Seq::<crate::sections::ArchiveMD5SectionEntry>::empty(),
    decreases k,
{
    if k > 0 {
        lemma_none_fails(protos, archive, k - 1);
        lemma_checksum_holds(protos, archive, k - 1);
    }
}

/// The checksums of a freshly built archive hold: every range that a
/// checksum record covers can be read, no record fails, and the checksums
/// of the tree and of the section of checksum records are those that the
/// index file stores.
pub proof fn lemma_fresh_archive_is_valid(protos: Seq<Proto>, archive: ArchiveView)
    requires
        packable(protos),
        archive_of(archive, protos),
    ensures
        archive.archive_readable(),
        archive.failing_before(archive.archive_md5.len() as int) == Seq::<
            crate::sections::ArchiveMD5SectionEntry,
        >::empty(),
        archive.other_md5.spec_mismatch(
            md5_of(tree_of(archive.dir)),
            md5_of(checksums_of(archive.dir)),
        ) is None,
{
    assert forall|c: int| 0 <= c < archive.archive_md5.len() implies (#[trigger] archive.covered(
        c,
    )) is Some by {
        lemma_checksum_holds(protos, archive, c);
    }
    lemma_none_fails(protos, archive, archive.archive_md5.len() as int);
    lemma_index_sections(protos);
    let other = spec_other(protos);
    assert(other.subrange(0, 16) =~= md5_of(spec_tree(protos)));
    assert(other.subrange(16, 32) =~= md5_of(spec_checksums(protos)));
}

} // verus!
