//! The checksum sections of an index file, and what all versions of the
//! format share.

use vstd::prelude::*;
use vstd::string::*;
use crate::bytes::{append_bytes, get_u32, le_u32, put_u32, u32_of_le};
use crate::bytes::{lemma_le_u32_round_trip, lemma_u32_of_le_round_trip};
use crate::data::VPK_SIGNATURE;
use crate::error::{unexpected_eof, ErrorKind};

verus! {

/// Copies sixteen bytes out of `bytes`, from `pos` on.
pub fn get_checksum(bytes: &[u8], pos: usize) -> (sum: [u8; 16])
    requires
        pos + 16 <= bytes@.len(),
    ensures
        sum@ == bytes@.subrange(pos as int, pos + 16),
{
    let _ = bytes.len();
    let mut sum: [u8; 16] = [0u8; 16];
    let mut i: usize = 0;
    while i < 16
        invariant
            i <= 16,
            pos + 16 <= bytes@.len() <= usize::MAX,
            forall|j: int| 0 <= j < i ==> sum@[j] == bytes@[pos + j],
        decreases 16 - i,
    {
        sum[i] = bytes[pos + i];
        i = i + 1;
    }
    assert(sum@ =~= bytes@.subrange(pos as int, pos + 16));
    sum
}

/// Whether two checksums are the same.
pub fn checksums_equal(a: &[u8; 16], b: &[u8; 16]) -> (same: bool)
    ensures
        same == (a@ == b@),
{
    let mut i: usize = 0;
    while i < 16
        invariant
            i <= 16,
            forall|j: int| 0 <= j < i ==> a@[j] == b@[j],
        decreases 16 - i,
    {
        if a[i] != b[i] {
            return false;
        }
        i = i + 1;
    }
    assert(a@ =~= b@);
    true
}

/// The checksum of one range of bytes of an archive file.
///
/// | bytes  | field             |
/// |--------|-------------------|
/// | 0..4   | `archive_index`   |
/// | 4..8   | `starting_offset` |
/// | 8..12  | `count`           |
/// | 12..28 | `md5_checksum`    |
#[derive(Clone, Copy, Debug, PartialEq, Eq)]
pub struct ArchiveMD5SectionEntry {
    /// The number of the archive file.
    pub archive_index: u32,
    /// Where the range starts in the archive file.
    pub starting_offset: u32,
    /// How many bytes the range holds.
    pub count: u32,
    /// The MD5 checksum that the range must have.
    pub md5_checksum: [u8; 16],
}

impl ArchiveMD5SectionEntry {
    /// The number of bytes that an entry takes in the index file.
    pub const SIZE: usize = 28;

    /// The bytes that stand for this entry in the index file.
    pub open spec fn spec_encode(&self) -> Seq<u8> {
        le_u32(self.archive_index) + le_u32(self.starting_offset) + le_u32(self.count)
            + self.md5_checksum@
    }

    /// What 28 bytes say of an entry: its three numbers and its checksum.
    pub open spec fn spec_decoded(&self, bytes: Seq<u8>) -> bool {
        &&& self.archive_index == u32_of_le(bytes.subrange(0, 4))
        &&& self.starting_offset == u32_of_le(bytes.subrange(4, 8))
        &&& self.count == u32_of_le(bytes.subrange(8, 12))
        &&& self.md5_checksum@ == bytes.subrange(12, 28)
    }

    /// Appends the entry's 28 bytes to `out`.
    pub fn encode_into(&self, out: &mut Vec<u8>)
        ensures
            final(out)@ == old(out)@ + self.spec_encode(),
    {
        put_u32(out, self.archive_index);
        put_u32(out, self.starting_offset);
        put_u32(out, self.count);
        append_bytes(out, self.md5_checksum.as_slice());
        assert(out@ =~= old(out)@ + self.spec_encode());
    }

    /// Writes the entry as its 28 bytes.
    pub fn encode(&self) -> (bytes: Vec<u8>)
        ensures
            bytes@ == self.spec_encode(),
            bytes@.len() == ArchiveMD5SectionEntry::SIZE,
    {
        let mut bytes: Vec<u8> = Vec::new();
        self.encode_into(&mut bytes);
        assert(bytes@ =~= self.spec_encode());
        bytes
    }

    /// Reads an entry from exactly 28 bytes. Any other length is refused as
    /// `MalformedData`.
    pub fn decode(bytes: &[u8]) -> (r: Result<ArchiveMD5SectionEntry, ErrorKind>)
        ensures
            match r {
                Ok(entry) => bytes@.len() == ArchiveMD5SectionEntry::SIZE && entry.spec_decoded(
                    bytes@,
                ),
                Err(ErrorKind::MalformedData(m)) => bytes@.len() != ArchiveMD5SectionEntry::SIZE
                    && m@ == "Archive MD5 Entry Size"@,
                Err(_) => false,
            },
    {
        if bytes.len() != 28 {
            return Err(ErrorKind::MalformedData(String::from_str("Archive MD5 Entry Size")));
        }
        Ok(
            ArchiveMD5SectionEntry {
                archive_index: get_u32(bytes, 0),
                starting_offset: get_u32(bytes, 4),
                count: get_u32(bytes, 8),
                md5_checksum: get_checksum(bytes, 12),
            },
        )
    }

    /// Whether `digest` is the checksum that the entry demands.
    pub fn matches(&self, digest: &[u8; 16]) -> (same: bool)
        ensures
            same == (digest@ == self.md5_checksum@),
    {
        checksums_equal(digest, &self.md5_checksum)
    }

    /// What was encoded decodes to the same entry.
    pub proof fn lemma_decode_encode(self)
        ensures
            self.spec_encode().len() == 28,
            self.spec_decoded(self.spec_encode()),
    {
        let b = self.spec_encode();
        assert(b.subrange(0, 4) =~= le_u32(self.archive_index));
        assert(b.subrange(4, 8) =~= le_u32(self.starting_offset));
        assert(b.subrange(8, 12) =~= le_u32(self.count));
        assert(b.subrange(12, 28) =~= self.md5_checksum@);
        lemma_le_u32_round_trip(self.archive_index);
        lemma_le_u32_round_trip(self.starting_offset);
        lemma_le_u32_round_trip(self.count);
    }

    /// What was decoded from 28 bytes encodes to the same bytes.
    pub proof fn lemma_encode_decode(self, bytes: Seq<u8>)
        requires
            bytes.len() == 28,
            self.spec_decoded(bytes),
        ensures
            self.spec_encode() == bytes,
    {
        lemma_u32_of_le_round_trip(bytes.subrange(0, 4));
        lemma_u32_of_le_round_trip(bytes.subrange(4, 8));
        lemma_u32_of_le_round_trip(bytes.subrange(8, 12));
        assert(self.spec_encode() =~= bytes);
    }
}

impl Default for ArchiveMD5SectionEntry {
    /// An entry with every field zero.
    fn default() -> (entry: Self)
        ensures
            entry.archive_index == 0,
            entry.starting_offset == 0,
            entry.count == 0,
            entry.md5_checksum@ == Seq::new(16, |i: int| 0u8),
    {
        let entry = ArchiveMD5SectionEntry {
            archive_index: 0,
            starting_offset: 0,
            count: 0,
            md5_checksum: [0u8; 16],
        };
        assert(entry.md5_checksum@ =~= Seq::new(16, |i: int| 0u8));
        entry
    }
}

/// The checksums of the index file's own sections.
///
/// | bytes  | field                          |
/// |--------|--------------------------------|
/// | 0..16  | `tree_checksum`                |
/// | 16..32 | `archive_md5_section_checksum` |
/// | 32..48 | `unknown`                      |
#[derive(Clone, Copy, Debug, PartialEq, Eq)]
pub struct OtherMD5Section {
    /// The MD5 checksum of the directory tree.
    pub tree_checksum: [u8; 16],
    /// The MD5 checksum of the section of checksums of archive content.
    pub archive_md5_section_checksum: [u8; 16],
    /// Not used.
    pub unknown: [u8; 16],
}

impl OtherMD5Section {
    /// The number of bytes that the section takes in the index file.
    pub const SIZE: usize = 48;

    /// The bytes that stand for this section in the index file.
    pub open spec fn spec_encode(&self) -> Seq<u8> {
        self.tree_checksum@ + self.archive_md5_section_checksum@ + self.unknown@
    }

    /// What 48 bytes say of a section: its three checksums.
    pub open spec fn spec_decoded(&self, bytes: Seq<u8>) -> bool {
        &&& self.tree_checksum@ == bytes.subrange(0, 16)
        &&& self.archive_md5_section_checksum@ == bytes.subrange(16, 32)
        &&& self.unknown@ == bytes.subrange(32, 48)
    }

    /// Writes the section as its 48 bytes.
    pub fn encode(&self) -> (bytes: Vec<u8>)
        ensures
            bytes@ == self.spec_encode(),
            bytes@.len() == OtherMD5Section::SIZE,
    {
        let mut bytes: Vec<u8> = Vec::new();
        append_bytes(&mut bytes, self.tree_checksum.as_slice());
        append_bytes(&mut bytes, self.archive_md5_section_checksum.as_slice());
        append_bytes(&mut bytes, self.unknown.as_slice());
        assert(bytes@ =~= self.spec_encode());
        bytes
    }

    /// Reads a section from exactly 48 bytes. Any other length is refused
    /// as `MalformedData`.
    pub fn decode(bytes: &[u8]) -> (r: Result<OtherMD5Section, ErrorKind>)
        ensures
            match r {
                Ok(section) => bytes@.len() == OtherMD5Section::SIZE && section.spec_decoded(
                    bytes@,
                ),
                Err(ErrorKind::MalformedData(m)) => bytes@.len() != OtherMD5Section::SIZE && m@
                    == "Other MD5 Section Size"@,
                Err(_) => false,
            },
    {
        if bytes.len() != 48 {
            return Err(ErrorKind::MalformedData(String::from_str("Other MD5 Section Size")));
        }
        Ok(
            OtherMD5Section {
                tree_checksum: get_checksum(bytes, 0),
                archive_md5_section_checksum: get_checksum(bytes, 16),
                unknown: get_checksum(bytes, 32),
            },
        )
    }

    /// The name of the first section whose checksum differs from the one
    /// stored here, if any: the tree comes first.
    pub open spec fn spec_mismatch(&self, tree_digest: Seq<u8>, section_digest: Seq<u8>) -> Option<
        Seq<char>,
    > {
        if tree_digest != self.tree_checksum@ {
            Some("tree_checksum"@)
        } else if section_digest != self.archive_md5_section_checksum@ {
            Some("archive_md5_section_checksum"@)
        } else {
            None
        }
    }

    /// Holds the checksum of the tree and the checksum of the section of
    /// archive checksums against the two that are stored here. The error
    /// names the first that differs.
    pub fn check(&self, tree_digest: &[u8; 16], section_digest: &[u8; 16]) -> (r: Result<
        (),
        ErrorKind,
    >)
        ensures
            match r {
                Ok(_) => self.spec_mismatch(tree_digest@, section_digest@) is None,
                Err(ErrorKind::ValidationFailed(m)) => self.spec_mismatch(
                    tree_digest@,
                    section_digest@,
                ) == Some(m@),
                Err(_) => false,
            },
    {
        if !checksums_equal(tree_digest, &self.tree_checksum) {
            return Err(ErrorKind::ValidationFailed(String::from_str("tree_checksum")));
        }
        if !checksums_equal(section_digest, &self.archive_md5_section_checksum) {
            return Err(
                ErrorKind::ValidationFailed(String::from_str("archive_md5_section_checksum")),
            );
        }
        Ok(())
    }

    /// What was encoded decodes to the same section.
    pub proof fn lemma_decode_encode(self)
        ensures
            self.spec_encode().len() == 48,
            self.spec_decoded(self.spec_encode()),
    {
        let b = self.spec_encode();
        assert(b.subrange(0, 16) =~= self.tree_checksum@);
        assert(b.subrange(16, 32) =~= self.archive_md5_section_checksum@);
        assert(b.subrange(32, 48) =~= self.unknown@);
    }
}

impl OtherMD5Section {
    /// What was decoded from 48 bytes encodes to the same bytes.
    pub proof fn lemma_encode_decode(self, bytes: Seq<u8>)
        requires
            bytes.len() == 48,
            self.spec_decoded(bytes),
        ensures
            self.spec_encode() == bytes,
    {
        assert(self.spec_encode() =~= bytes);
    }
}

impl Default for OtherMD5Section {
    /// A section with every byte zero.
    fn default() -> (section: Self)
        ensures
            section.spec_encode() == Seq::new(48, |i: int| 0u8),
    {
        let section = OtherMD5Section {
            tree_checksum: [0u8; 16],
            archive_md5_section_checksum: [0u8; 16],
            unknown: [0u8; 16],
        };
        assert(section.spec_encode() =~= Seq::new(48, |i: int| 0u8));
        section
    }
}

/// The section that holds the public key and the signature of an index
/// file, as it is laid out there. Archives are neither signed nor checked
/// against a signature here.
#[derive(Clone, Copy, Debug, PartialEq, Eq)]
pub struct SignatureSection {
    /// Always seen as 160.
    pub public_key_size: u32,
    pub public_key: [u8; 160],
    /// Always seen as 128.
    pub signature_size: u32,
    pub signature: [u8; 128],
}

impl SignatureSection {
    /// The number of bytes that the section takes in the index file.
    pub const SIZE: usize = 296;
}

/// Reads a section of checksums of archive content: one entry from each 28
/// bytes of `buf`. A section whose length is no multiple of 28 is refused
/// as `MalformedData`.
pub fn read_section(buf: &[u8]) -> (r: Result<Vec<ArchiveMD5SectionEntry>, ErrorKind>)
    ensures
        match r {
            Ok(entries) => {
                &&& buf@.len() == 28 * entries@.len()
                &&& forall|i: int|
                    0 <= i < entries@.len() ==> (#[trigger] entries@[i]).spec_decoded(
                        buf@.subrange(28 * i, 28 * i + 28),
                    )
            },
            Err(ErrorKind::MalformedData(_)) => buf@.len() % 28 != 0,
            Err(_) => false,
        },
{
    if buf.len() % 28 != 0 {
        return Err(ErrorKind::MalformedData(String::from_str("Archive MD5 Section Size")));
    }
    let mut section: Vec<ArchiveMD5SectionEntry> = Vec::new();
    let mut cursor: usize = 0;
    while cursor < buf.len()
        invariant
            cursor <= buf@.len(),
            buf@.len() % 28 == 0,
            cursor == 28 * section@.len(),
            forall|i: int|
                0 <= i < section@.len() ==> (#[trigger] section@[i]).spec_decoded(
                    buf@.subrange(28 * i, 28 * i + 28),
                ),
        decreases buf@.len() - cursor,
    {
        let entry = ArchiveMD5SectionEntry {
            archive_index: get_u32(buf, cursor),
            starting_offset: get_u32(buf, cursor + 4),
            count: get_u32(buf, cursor + 8),
            md5_checksum: get_checksum(buf, cursor + 12),
        };
        proof {
            let chunk = buf@.subrange(cursor as int, cursor + 28);
            assert(chunk.subrange(0, 4) =~= buf@.subrange(cursor as int, cursor + 4));
            assert(chunk.subrange(4, 8) =~= buf@.subrange(cursor + 4, cursor + 8));
            assert(chunk.subrange(8, 12) =~= buf@.subrange(cursor + 8, cursor + 12));
            assert(chunk.subrange(12, 28) =~= buf@.subrange(cursor + 12, cursor + 28));
        }
        section.push(entry);
        cursor = cursor + 28;
    }
    Ok(section)
}

/// What the first eight bytes of an index file say of its format.
#[derive(Clone, Copy, Debug, PartialEq, Eq, Structural)]
#[allow(non_camel_case_types)]
pub enum Version {
    V1,
    V2,
    UNKNOWN,
    NOTVPK,
}

/// The version that a signature and a version number stand for.
pub open spec fn spec_version(signature: u32, version: u32) -> Version {
    if signature != VPK_SIGNATURE {
        Version::NOTVPK
    } else if version == 1 {
        Version::V1
    } else if version == 2 {
        Version::V2
    } else {
        Version::UNKNOWN
    }
}

/// Tells the version of an index file from its first eight bytes: the
/// signature and the version number. `index` holds the file from its start;
/// fewer than eight bytes are an `IO` error.
pub fn determine_version(index: &[u8]) -> (r: Result<Version, ErrorKind>)
    ensures
        match r {
            Ok(version) => index@.len() >= 8 && version == spec_version(
                u32_of_le(index@.subrange(0, 4)),
                u32_of_le(index@.subrange(4, 8)),
            ),
            Err(ErrorKind::IO(_)) => index@.len() < 8,
            Err(_) => false,
        },
{
    if index.len() < 8 {
        return Err(unexpected_eof());
    }
    let signature: u32 = get_u32(index, 0);
    let version: u32 = get_u32(index, 4);
    if signature != VPK_SIGNATURE {
        return Ok(Version::NOTVPK);
    }
    Ok(
        if version == 1 {
            Version::V1
        } else if version == 2 {
            Version::V2
        } else {
            Version::UNKNOWN
        },
    )
}

} // verus!
