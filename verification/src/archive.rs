//! An archive that was opened for reading.

use vstd::prelude::*;
use vstd::string::*;
use crate::bytes::{piece, read_piece, read_range};
use crate::data::HeaderV2;
use crate::digest::{checksum, md5_of};
use crate::directory::{key_chars, parse_tree, read_directory_tree, Directory, Record};
use crate::error::ErrorKind;
use crate::reader::{EntryReader, ReaderState};
use crate::sections::{read_section, ArchiveMD5SectionEntry, OtherMD5Section};

verus! {

/// Archives that hand out a reader for each of their files.
pub trait Extract<'a> {
    type EntryReader;

    /// Whether the archive holds a file under `path` and has the files that
    /// hold its bytes.
    spec fn can_extract(&self, path: Seq<char>) -> bool;

    /// A reader of the file that is stored under `path`, which is written
    /// `path/filename.extension`.
    fn get_entry_from_path(&'a self, path: &str) -> (r: Result<Self::EntryReader, ErrorKind>)
        ensures
            r is Ok <==> self.can_extract(path@),
    ;
}

/// Archives that carry checksums of the content of their archive files.
pub trait ValidateArchive {
    type Checksum;

    /// Whether every range that a checksum covers can be read.
    spec fn archive_readable(&self) -> bool;

    /// The checksums that differ from the checksum of the bytes they cover,
    /// in the order in which the archive holds them.
    spec fn failing_checksums(&self) -> Seq<Self::Checksum>;

    /// Returns all checksums that differ from the checksum of the bytes
    /// they cover.
    fn validate_archive(&self) -> (failed: Vec<&Self::Checksum>)
        requires
            self.archive_readable(),
        ensures
            failed@.len() == self.failing_checksums().len(),
            forall|i: int| 0 <= i < failed@.len() ==> *failed@[i] == self.failing_checksums()[i],
    ;
}

/// Archives that carry checksums of the sections of their index file.
pub trait ValidateOther {
    /// Whether the sections that the checksums cover can be read.
    spec fn sections_readable(&self) -> bool;

    /// The name of the first section whose checksum differs from the
    /// checksum of its bytes; `None` where no checksum differs.
    spec fn failing_section(&self) -> Option<Seq<char>>;

    /// Checks the checksums of the sections of the index file. The error
    /// is `ValidationFailed` and names the first section whose checksum
    /// differs.
    fn validate_other(&self) -> (r: Result<(), ErrorKind>)
        requires
            self.sections_readable(),
        ensures
            match r {
                Ok(_) => self.failing_section() is None,
                Err(ErrorKind::ValidationFailed(m)) => self.failing_section() == Some(m@),
                Err(_) => false,
            },
    ;
}

/// An opened archive in specifications.
pub ghost struct ArchiveView {
    pub header: HeaderV2,
    pub directory: Seq<Record>,
    /// The index file.
    pub dir: Seq<u8>,
    /// The numbered archive files.
    pub data: Seq<Seq<u8>>,
    pub archive_md5: Seq<ArchiveMD5SectionEntry>,
    pub other_md5: OtherMD5Section,
}

/// Why an index file cannot be opened.
pub ghost enum OpenFault {
    /// A section passes the end of the file.
    CutShort,
    /// The header is not that of a version 2 index file.
    InvalidHeader,
    /// The tree or the section of checksum records is not well formed.
    MalformedData,
}

/// The header that an index file of 28 bytes or more starts with.
pub open spec fn header_of(dir: Seq<u8>) -> HeaderV2 {
    HeaderV2::spec_decode(dir.subrange(0, 28))
}

/// The bytes of the directory tree of an index file.
pub open spec fn tree_of(dir: Seq<u8>) -> Seq<u8> {
    dir.subrange(header_of(dir).spec_tree_start(), header_of(dir).spec_data_start())
}

/// The bytes of the section of checksum records of an index file.
pub open spec fn checksums_of(dir: Seq<u8>) -> Seq<u8> {
    dir.subrange(header_of(dir).spec_archive_md5_start(), header_of(dir).spec_other_md5_start())
}

/// The bytes of the last checksum section of an index file.
pub open spec fn other_of(dir: Seq<u8>) -> Seq<u8> {
    dir.subrange(header_of(dir).spec_other_md5_start(), header_of(dir).spec_signature_start())
}

/// The files of the tree of an index file.
pub open spec fn directory_of(dir: Seq<u8>) -> Option<Seq<Record>> {
    parse_tree(tree_of(dir), header_of(dir).spec_tree_start(), header_of(dir).spec_data_start())
}

/// The first fault that opening meets in an index file: the checks are
/// made in the order of the sections. `None` where the file can be opened.
pub open spec fn open_fault(dir: Seq<u8>) -> Option<OpenFault> {
    let header = header_of(dir);
    if dir.len() < 28 {
        Some(OpenFault::CutShort)
    } else if !header.spec_is_valid() {
        Some(OpenFault::InvalidHeader)
    } else if header.spec_data_start() > dir.len() {
        Some(OpenFault::CutShort)
    } else if directory_of(dir) is None {
        Some(OpenFault::MalformedData)
    } else if header.spec_other_md5_start() > dir.len() {
        Some(OpenFault::CutShort)
    } else if header.archive_md5_section_size % 28 != 0 {
        Some(OpenFault::MalformedData)
    } else if header.spec_signature_start() > dir.len() {
        Some(OpenFault::CutShort)
    } else {
        None
    }
}

impl ArchiveView {
    /// The archive is what opening makes of its files: header, directory
    /// and checksums are those that the index file holds.
    pub open spec fn wf(self) -> bool {
        &&& open_fault(self.dir) is None
        &&& self.header == header_of(self.dir)
        &&& directory_of(self.dir) == Some(self.directory)
        &&& self.archive_md5.len() * 28 == self.header.archive_md5_section_size
        &&& forall|i: int|
            0 <= i < self.archive_md5.len() ==> (#[trigger] self.archive_md5[i]).spec_decoded(
                checksums_of(self.dir).subrange(28 * i, 28 * i + 28),
            )
        &&& self.other_md5.spec_decoded(other_of(self.dir))
    }

    /// The bytes that the checksum at place `i` covers, as an exact read of
    /// them gives them; `None` where the archive file is missing or too
    /// short.
    pub open spec fn covered(self, i: int) -> Option<Seq<u8>> {
        let sum = self.archive_md5[i];
        if sum.archive_index < self.data.len() {
            piece(
                self.data[sum.archive_index as int],
                sum.starting_offset as int,
                sum.count as int,
            )
        } else {
            None
        }
    }

    /// Every range that a checksum covers can be read.
    pub open spec fn archive_readable(self) -> bool {
        forall|i: int| 0 <= i < self.archive_md5.len() ==> (#[trigger] self.covered(i)) is Some
    }

    /// The checksum at place `i` differs from the checksum of the bytes it
    /// covers.
    pub open spec fn fails(self, i: int) -> bool {
        md5_of(self.covered(i)->Some_0) != self.archive_md5[i].md5_checksum@
    }

    /// The failing checksums among the first `k`.
    pub open spec fn failing_before(self, k: int) -> Seq<ArchiveMD5SectionEntry>
        decreases k,
    {
        if k <= 0 {
            Seq::empty()
        } else if self.fails(k - 1) {
            self.failing_before(k - 1).push(self.archive_md5[k - 1])
        } else {
            self.failing_before(k - 1)
        }
    }

    /// The place of the file that is stored under `path`: the last record
    /// of the directory whose key, as text, is `path`.
    pub open spec fn lookup(self, path: Seq<char>) -> Option<int> {
        match path_bytes(path) {
            Some(key) => Directory::spec_find(self.directory, key),
            None => None,
        }
    }

    /// The reader that a lookup of `path` gives; `None` where no file is
    /// stored under `path`, or where the archive file that holds its bytes
    /// is missing.
    pub open spec fn reader_of(self, path: Seq<char>) -> Option<ReaderState> {
        match self.lookup(path) {
            Some(i) => {
                let handle = self.directory[i].handle;
                if handle.entry.spec_is_in_directory_archive() {
                    Some(ReaderState { handle, dir: self.dir, data: None, cursor: 0 })
                } else if handle.entry.archive_index < self.data.len() {
                    Some(
                        ReaderState {
                            handle,
                            dir: self.dir,
                            data: Some(self.data[handle.entry.archive_index as int]),
                            cursor: 0,
                        },
                    )
                } else {
                    None
                }
            },
            None => None,
        }
    }
}

/// The character is one of the first 256, which a byte can stand for.
pub open spec fn fits_byte(c: char) -> bool {
    0 <= (c as int) < 256
}

/// The byte that stands for one of the first 256 characters.
pub open spec fn byte_of(c: char) -> u8 {
    c as u8
}

/// The key that a path stands for: each character is the byte of its
/// number. `None` where a character is above 255, as no key holds it.
pub open spec fn path_bytes(path: Seq<char>) -> Option<Seq<u8>> {
    if forall|i: int| 0 <= i < path.len() ==> fits_byte(#[trigger] path[i]) {
        Some(Seq::new(path.len(), |i: int| byte_of(path[i])))
    } else {
        None
    }
}

/// A key is stored under a path exactly where the key, as text, is the
/// path.
pub proof fn lemma_path_bytes(path: Seq<char>, key: Seq<u8>)
    ensures
        path_bytes(path) == Some(key) <==> key_chars(key) == path,
{
    if path_bytes(path) == Some(key) {
        let bytes = Seq::new(path.len(), |i: int| byte_of(path[i]));
        assert(key == bytes);
        assert forall|i: int| 0 <= i < path.len() implies key_chars(key)[i] == path[i] by {
            let c = path[i];
            assert(fits_byte(c));
            assert(bytes[i] == byte_of(c));
            assert(key[i] == c as u8);
            let b = c as u8;
            assert(b as int == c as int);
            assert(b as char == c);
            assert(key_chars(key)[i] == key[i] as char);
        }
        assert(key_chars(key) =~= path);
    }
    if key_chars(key) == path {
        assert forall|i: int| 0 <= i < path.len() implies fits_byte(#[trigger] path[i]) by {
            assert(path[i] == key[i] as char);
        }
        assert forall|i: int| 0 <= i < path.len() implies byte_of(path[i]) == key[i] by {
            assert(path[i] == key[i] as char);
        }
        assert(Seq::new(path.len(), |i: int| byte_of(path[i])) =~= key);
    }
}

/// Turns a path into the key it stands for.
fn key_of_path(path: &str) -> (key: Option<Vec<u8>>)
    ensures
        match key {
            Some(bytes) => path_bytes(path@) == Some(bytes@),
            None => path_bytes(path@) is None,
        },
{
    let len: usize = path.unicode_len();
    let mut key: Vec<u8> = Vec::new();
    let mut i: usize = 0;
    while i < len
        invariant
            i <= len,
            len == path@.len(),
            key@.len() == i,
            forall|j: int| 0 <= j < i ==> fits_byte(#[trigger] path@[j]),
            forall|j: int| 0 <= j < i ==> #[trigger] key@[j] == byte_of(path@[j]),
        decreases len - i,
    {
        let c: u32 = path.get_char(i) as u32;
        if c >= 256 {
            assert(!fits_byte(path@[i as int]));
            return None;
        }
        key.push(c as u8);
        i = i + 1;
    }
    assert(key@ =~= Seq::new(path@.len(), |i: int| byte_of(path@[i])));
    Some(key)
}

/// A version 2 archive: its index file, its numbered archive files, and
/// what the index file says of the files that are packed in them.
///
/// Titanfall's archives are not read, though their version is 2 as well.
pub struct VPKv2 {
    raw_header: HeaderV2,
    directory: Directory,
    dir: Vec<u8>,
    data: Vec<Vec<u8>>,
    archive_md5: Vec<ArchiveMD5SectionEntry>,
    other_md5: OtherMD5Section,
}

impl View for VPKv2 {
    type V = ArchiveView;

    closed spec fn view(&self) -> ArchiveView {
        ArchiveView {
            header: self.raw_header,
            directory: self.directory@,
            dir: self.dir@,
            data: Seq::new(self.data@.len(), |i: int| self.data@[i]@),
            archive_md5: self.archive_md5@,
            other_md5: self.other_md5,
        }
    }
}

impl VPKv2 {
    /// The archive is what opening makes of its files.
    pub open spec fn wf(&self) -> bool {
        self@.wf()
    }

    /// Opens an archive from its files: `dir` is the index file, and
    /// `data` holds the numbered archive files in their order.
    ///
    /// The sections of the index file are read in their order. A section
    /// that passes the end of the file is an `IO` error, a wrong signature,
    /// version or fixed size `InvalidHeader`, and a tree or a section of
    /// checksum records that is not well formed `MalformedData`.
    pub fn open(dir: Vec<u8>, data: Vec<Vec<u8>>) -> (r: Result<VPKv2, ErrorKind>)
        ensures
            match r {
                Ok(vpk) => {
                    &&& vpk.wf()
                    &&& vpk@.dir == dir@
                    &&& vpk@.data == Seq::new(data@.len(), |i: int| data@[i]@)
                },
                Err(ErrorKind::IO(_)) => open_fault(dir@) == Some(OpenFault::CutShort),
                Err(ErrorKind::InvalidHeader(m)) => open_fault(dir@) == Some(
                    OpenFault::InvalidHeader,
                ) && m@ == header_of(dir@).spec_invalid_field(),
                Err(ErrorKind::MalformedData(_)) => open_fault(dir@) == Some(
                    OpenFault::MalformedData,
                ),
                Err(_) => false,
            },
    {
        let index = dir.as_slice();
        let header = match read_range(index, 0, 28) {
            Ok(bytes) => match HeaderV2::decode(bytes) {
                Ok(header) => header,
                Err(e) => {
                    return Err(e);
                },
            },
            Err(e) => {
                return Err(e);
            },
        };
        match header.is_valid() {
            Ok(_) => {},
            Err(e) => {
                return Err(e);
            },
        }
        let directory = match read_range(
            index,
            header.get_tree_start(),
            header.tree_size as u64,
        ) {
            Ok(bytes) => match read_directory_tree(
                bytes,
                header.get_tree_start(),
                header.get_data_start(),
            ) {
                Ok(directory) => directory,
                Err(e) => {
                    return Err(e);
                },
            },
            Err(e) => {
                return Err(e);
            },
        };
        let archive_md5 = match read_range(
            index,
            header.get_archive_md5_start(),
            header.archive_md5_section_size as u64,
        ) {
            Ok(bytes) => match read_section(bytes) {
                Ok(section) => section,
                Err(e) => {
                    return Err(e);
                },
            },
            Err(e) => {
                return Err(e);
            },
        };
        let other_md5 = match read_range(
            index,
            header.get_other_md5_start(),
            header.other_md5_section_size as u64,
        ) {
            Ok(bytes) => match OtherMD5Section::decode(bytes) {
                Ok(section) => section,
                Err(e) => {
                    return Err(e);
                },
            },
            Err(e) => {
                return Err(e);
            },
        };
        let vpk = VPKv2 { raw_header: header, directory, dir, data, archive_md5, other_md5 };
        assert(vpk@.data =~= Seq::new(data@.len(), |i: int| data@[i]@));
        Ok(vpk)
    }

    /// The header of the index file.
    pub fn header(&self) -> (header: HeaderV2)
        ensures
            header == self@.header,
    {
        self.raw_header
    }

    /// The files of the archive, in the order of the tree.
    pub fn directory(&self) -> (directory: &Directory)
        ensures
            directory@ == self@.directory,
    {
        &self.directory
    }

    /// The checksums of the content of the archive files.
    pub fn archive_md5(&self) -> (section: &Vec<ArchiveMD5SectionEntry>)
        ensures
            section@ == self@.archive_md5,
    {
        &self.archive_md5
    }

    /// The checksums of the sections of the index file.
    pub fn other_md5(&self) -> (section: OtherMD5Section)
        ensures
            section == self@.other_md5,
    {
        self.other_md5
    }

    /// Whether every range that a checksum covers lies in an archive file
    /// that is there.
    pub fn archive_ranges_readable(&self) -> (readable: bool)
        ensures
            readable == self@.archive_readable(),
    {
        let mut i: usize = 0;
        while i < self.archive_md5.len()
            invariant
                i <= self.archive_md5@.len(),
                forall|j: int| 0 <= j < i ==> (#[trigger] self@.covered(j)) is Some,
            decreases self.archive_md5@.len() - i,
        {
            let sum = &self.archive_md5[i];
            let file: usize = sum.archive_index as usize;
            if file >= self.data.len() {
                assert(self@.covered(i as int) is None);
                return false;
            }
            match read_piece(
                self.data[file].as_slice(),
                sum.starting_offset as u64,
                sum.count as u64,
            ) {
                Ok(_) => {},
                Err(_) => {
                    assert(self@.covered(i as int) is None);
                    return false;
                },
            }
            i = i + 1;
        }
        true
    }
}

impl<'a> Extract<'a> for VPKv2 {
    type EntryReader = EntryReader<'a>;

    open spec fn can_extract(&self, path: Seq<char>) -> bool {
        self@.reader_of(path) is Some
    }

    /// A reader at the start of the file that is stored under `path`.
    ///
    /// `DoesNotExist` where no file is stored under `path`; an `IO` error
    /// where the archive file that holds its bytes is missing.
    fn get_entry_from_path(&'a self, path: &str) -> (r: Result<EntryReader<'a>, ErrorKind>)
        ensures
            match r {
                Ok(reader) => reader.wf() && self@.reader_of(path@) == Some(reader@),
                Err(ErrorKind::DoesNotExist(_)) => self@.lookup(path@) is None,
                Err(ErrorKind::IO(_)) => self@.lookup(path@) is Some && self@.reader_of(path@)
                    is None,
                Err(_) => false,
            },
    {
        let key = match key_of_path(path) {
            Some(key) => key,
            None => {
                return Err(ErrorKind::DoesNotExist(String::new()));
            },
        };
        let place: usize = match self.directory.find(key.as_slice()) {
            Some(place) => place,
            None => {
                return Err(ErrorKind::DoesNotExist(String::new()));
            },
        };
        proof {
            Directory::lemma_spec_find(self.directory@, key@);
        }
        let handle = self.directory.records[place].handle;
        if handle.entry.is_in_directory_archive() {
            Ok(EntryReader::new(handle, self.dir.as_slice(), None))
        } else {
            let file: usize = handle.entry.archive_index as usize;
            if file >= self.data.len() {
                return Err(ErrorKind::IO(String::from_str("archive file is missing")));
            }
            Ok(EntryReader::new(handle, self.dir.as_slice(), Some(self.data[file].as_slice())))
        }
    }
}

impl ValidateArchive for VPKv2 {
    type Checksum = ArchiveMD5SectionEntry;

    open spec fn archive_readable(&self) -> bool {
        self@.archive_readable()
    }

    open spec fn failing_checksums(&self) -> Seq<ArchiveMD5SectionEntry> {
        self@.failing_before(self@.archive_md5.len() as int)
    }

    /// Computes the checksum of each range of an archive file that the
    /// index file declares, and returns the checksum records that differ.
    fn validate_archive(&self) -> (failed: Vec<&ArchiveMD5SectionEntry>) {
        let mut failed: Vec<&ArchiveMD5SectionEntry> = Vec::new();
        let mut i: usize = 0;
        while i < self.archive_md5.len()
            invariant
                i <= self.archive_md5@.len(),
                self@.archive_readable(),
                failed@.len() == self@.failing_before(i as int).len(),
                forall|j: int|
                    0 <= j < failed@.len() ==> *failed@[j] == self@.failing_before(i as int)[j],
            decreases self.archive_md5@.len() - i,
        {
            let sum = &self.archive_md5[i];
            assert(self@.covered(i as int) is Some);
            let file: usize = sum.archive_index as usize;
            let covered = match read_piece(
                self.data[file].as_slice(),
                sum.starting_offset as u64,
                sum.count as u64,
            ) {
                Ok(bytes) => bytes,
                Err(_) => {
                    assert(false);
                    return failed;
                },
            };
            let digest = checksum(covered);
            if !sum.matches(&digest) {
                failed.push(sum);
            }
            i = i + 1;
        }
        failed
    }
}

impl ValidateOther for VPKv2 {
    open spec fn sections_readable(&self) -> bool {
        self@.wf()
    }

    open spec fn failing_section(&self) -> Option<Seq<char>> {
        self@.other_md5.spec_mismatch(
            md5_of(tree_of(self@.dir)),
            md5_of(checksums_of(self@.dir)),
        )
    }

    /// Computes the checksum of the tree and the checksum of the section of
    /// checksum records, and holds them against those that the index file
    /// declares.
    fn validate_other(&self) -> (r: Result<(), ErrorKind>) {
        let index = self.dir.as_slice();
        let tree = match read_range(
            index,
            self.raw_header.get_tree_start(),
            self.raw_header.tree_size as u64,
        ) {
            Ok(bytes) => bytes,
            Err(e) => {
                assert(false);
                return Err(e);
            },
        };
        let section = match read_range(
            index,
            self.raw_header.get_archive_md5_start(),
            self.raw_header.archive_md5_section_size as u64,
        ) {
            Ok(bytes) => bytes,
            Err(e) => {
                assert(false);
                return Err(e);
            },
        };
        let tree_digest = checksum(tree);
        let section_digest = checksum(section);
        self.other_md5.check(&tree_digest, &section_digest)
    }
}

} // verus!
