//! The fixed-size records of a version 2 index file: the header and the
//! record that follows each file name in the directory tree.
//!
//! Every record is written field after field, without padding, each integer
//! least significant byte first.

use vstd::prelude::*;
use vstd::string::*;
use crate::bytes::{get_u16, get_u32, le_u16, le_u32, put_u16, put_u32, u16_of_le, u32_of_le};
use crate::bytes::{
    lemma_le_u16_round_trip, lemma_le_u32_round_trip, lemma_u16_of_le_round_trip,
    lemma_u32_of_le_round_trip,
};
use crate::error::ErrorKind;

verus! {

/// The number that every VPK index file starts with.
pub const VPK_SIGNATURE: u32 = 0x55aa1234;

/// The header of a version 2 index file.
///
/// | bytes  | field                      |
/// |--------|----------------------------|
/// | 0..4   | `signature`                |
/// | 4..8   | `version`                  |
/// | 8..12  | `tree_size`                |
/// | 12..16 | `file_data_section_size`   |
/// | 16..20 | `archive_md5_section_size` |
/// | 20..24 | `other_md5_section_size`   |
/// | 24..28 | `signature_section_size`   |
#[derive(Clone, Copy, Debug, PartialEq, Eq, Structural)]
pub struct HeaderV2 {
    /// Must be `VPK_SIGNATURE`.
    pub signature: u32,
    /// Must be 2.
    pub version: u32,
    /// The size, in bytes, of the directory tree.
    pub tree_size: u32,
    /// How many bytes of file content are stored in the index file itself.
    pub file_data_section_size: u32,
    /// The size, in bytes, of the section of checksums of archive content.
    pub archive_md5_section_size: u32,
    /// The size, in bytes, of the section of checksums of the index file's
    /// own sections. Must be 48.
    pub other_md5_section_size: u32,
    /// The size, in bytes, of the section that holds the public key and the
    /// signature. Must be 0 or 296.
    pub signature_section_size: u32,
}

impl HeaderV2 {
    /// The number of bytes that a header takes in the index file.
    pub const SIZE: usize = 28;

    /// The bytes that stand for this header in the index file.
    pub open spec fn spec_encode(&self) -> Seq<u8> {
        le_u32(self.signature) + le_u32(self.version) + le_u32(self.tree_size) + le_u32(
            self.file_data_section_size,
        ) + le_u32(self.archive_md5_section_size) + le_u32(self.other_md5_section_size) + le_u32(
            self.signature_section_size,
        )
    }

    /// The header that 28 bytes stand for.
    pub open spec fn spec_decode(bytes: Seq<u8>) -> HeaderV2 {
        HeaderV2 {
            signature: u32_of_le(bytes.subrange(0, 4)),
            version: u32_of_le(bytes.subrange(4, 8)),
            tree_size: u32_of_le(bytes.subrange(8, 12)),
            file_data_section_size: u32_of_le(bytes.subrange(12, 16)),
            archive_md5_section_size: u32_of_le(bytes.subrange(16, 20)),
            other_md5_section_size: u32_of_le(bytes.subrange(20, 24)),
            signature_section_size: u32_of_le(bytes.subrange(24, 28)),
        }
    }

    /// Writes the header as its 28 bytes.
    pub fn encode(&self) -> (bytes: Vec<u8>)
        ensures
            bytes@ == self.spec_encode(),
            bytes@.len() == HeaderV2::SIZE,
    {
        let mut bytes: Vec<u8> = Vec::new();
        put_u32(&mut bytes, self.signature);
        put_u32(&mut bytes, self.version);
        put_u32(&mut bytes, self.tree_size);
        put_u32(&mut bytes, self.file_data_section_size);
        put_u32(&mut bytes, self.archive_md5_section_size);
        put_u32(&mut bytes, self.other_md5_section_size);
        put_u32(&mut bytes, self.signature_section_size);
        bytes
    }

    /// Reads a header from exactly 28 bytes. Any other length is refused as
    /// `MalformedData`.
    pub fn decode(bytes: &[u8]) -> (r: Result<HeaderV2, ErrorKind>)
        ensures
            match r {
                Ok(header) => bytes@.len() == HeaderV2::SIZE && header == HeaderV2::spec_decode(
                    bytes@,
                ),
                Err(ErrorKind::MalformedData(m)) => bytes@.len() != HeaderV2::SIZE && m@
                    == "Header Size"@,
                Err(_) => false,
            },
    {
        if bytes.len() != 28 {
            return Err(ErrorKind::MalformedData(String::from_str("Header Size")));
        }
        Ok(
            HeaderV2 {
                signature: get_u32(bytes, 0),
                version: get_u32(bytes, 4),
                tree_size: get_u32(bytes, 8),
                file_data_section_size: get_u32(bytes, 12),
                archive_md5_section_size: get_u32(bytes, 16),
                other_md5_section_size: get_u32(bytes, 20),
                signature_section_size: get_u32(bytes, 24),
            },
        )
    }

    /// Where the directory tree starts in the index file.
    pub open spec fn spec_tree_start(&self) -> int {
        28
    }

    /// Where the embedded file content starts in the index file.
    pub open spec fn spec_data_start(&self) -> int {
        self.spec_tree_start() + self.tree_size
    }

    /// Where the checksums of archive content start in the index file.
    pub open spec fn spec_archive_md5_start(&self) -> int {
        self.spec_data_start() + self.file_data_section_size
    }

    /// Where the checksums of the index file's sections start.
    pub open spec fn spec_other_md5_start(&self) -> int {
        self.spec_archive_md5_start() + self.archive_md5_section_size
    }

    /// Where the signature section starts in the index file.
    pub open spec fn spec_signature_start(&self) -> int {
        self.spec_other_md5_start() + self.other_md5_section_size
    }

    /// Where the directory tree starts: right behind the header.
    pub fn get_tree_start(&self) -> (pos: u64)
        ensures
            pos == self.spec_tree_start(),
    {
        28
    }

    /// Where the embedded file content starts: right behind the tree.
    pub fn get_data_start(&self) -> (pos: u64)
        ensures
            pos == self.spec_data_start(),
    {
        self.get_tree_start() + self.tree_size as u64
    }

    /// Where the checksums of archive content start: right behind the
    /// embedded file content.
    pub fn get_archive_md5_start(&self) -> (pos: u64)
        ensures
            pos == self.spec_archive_md5_start(),
    {
        self.get_data_start() + self.file_data_section_size as u64
    }

    /// Where the checksums of the index file's own sections start: right
    /// behind the checksums of archive content.
    pub fn get_other_md5_start(&self) -> (pos: u64)
        ensures
            pos == self.spec_other_md5_start(),
    {
        self.get_archive_md5_start() + self.archive_md5_section_size as u64
    }

    /// Where the signature section starts: right behind the checksums.
    pub fn get_signature_start(&self) -> (pos: u64)
        ensures
            pos == self.spec_signature_start(),
    {
        self.get_other_md5_start() + self.other_md5_section_size as u64
    }

    /// The signature, the version and the two fixed sizes are as the format
    /// demands.
    pub open spec fn spec_is_valid(&self) -> bool {
        &&& self.signature == VPK_SIGNATURE
        &&& self.version == 2
        &&& self.other_md5_section_size == 48
        &&& (self.signature_section_size == 296 || self.signature_section_size == 0)
    }

    /// The name of the first field that is not as the format demands.
    pub open spec fn spec_invalid_field(&self) -> Seq<char> {
        if self.signature != VPK_SIGNATURE {
            "Signature"@
        } else if self.version != 2 {
            "Major Version"@
        } else if self.other_md5_section_size != 48 {
            "OtherMD5"@
        } else {
            "Signature"@
        }
    }

    /// Checks the signature, the version and the two fixed sizes, in this
    /// order. The error names the first field that is wrong.
    pub fn is_valid(&self) -> (r: Result<(), ErrorKind>)
        ensures
            match r {
                Ok(_) => self.spec_is_valid(),
                Err(ErrorKind::InvalidHeader(m)) => !self.spec_is_valid() && m@
                    == self.spec_invalid_field(),
                Err(_) => false,
            },
    {
        if self.signature != VPK_SIGNATURE {
            return Err(ErrorKind::InvalidHeader(String::from_str("Signature")));
        }
        if self.version != 2 {
            return Err(ErrorKind::InvalidHeader(String::from_str("Major Version")));
        }
        if self.other_md5_section_size != 48 {
            return Err(ErrorKind::InvalidHeader(String::from_str("OtherMD5")));
        }
        if self.signature_section_size != 296 && self.signature_section_size != 0 {
            return Err(ErrorKind::InvalidHeader(String::from_str("Signature")));
        }
        Ok(())
    }

    /// Decoding what was encoded gives the header back.
    pub proof fn lemma_decode_encode(self)
        ensures
            self.spec_encode().len() == 28,
            HeaderV2::spec_decode(self.spec_encode()) == self,
    {
        let b = self.spec_encode();
        assert(b.subrange(0, 4) =~= le_u32(self.signature));
        assert(b.subrange(4, 8) =~= le_u32(self.version));
        assert(b.subrange(8, 12) =~= le_u32(self.tree_size));
        assert(b.subrange(12, 16) =~= le_u32(self.file_data_section_size));
        assert(b.subrange(16, 20) =~= le_u32(self.archive_md5_section_size));
        assert(b.subrange(20, 24) =~= le_u32(self.other_md5_section_size));
        assert(b.subrange(24, 28) =~= le_u32(self.signature_section_size));
        lemma_le_u32_round_trip(self.signature);
        lemma_le_u32_round_trip(self.version);
        lemma_le_u32_round_trip(self.tree_size);
        lemma_le_u32_round_trip(self.file_data_section_size);
        lemma_le_u32_round_trip(self.archive_md5_section_size);
        lemma_le_u32_round_trip(self.other_md5_section_size);
        lemma_le_u32_round_trip(self.signature_section_size);
    }

    /// Encoding what was decoded from 28 bytes gives the bytes back.
    pub proof fn lemma_encode_decode(bytes: Seq<u8>)
        requires
            bytes.len() == 28,
        ensures
            HeaderV2::spec_decode(bytes).spec_encode() == bytes,
    {
        lemma_u32_of_le_round_trip(bytes.subrange(0, 4));
        lemma_u32_of_le_round_trip(bytes.subrange(4, 8));
        lemma_u32_of_le_round_trip(bytes.subrange(8, 12));
        lemma_u32_of_le_round_trip(bytes.subrange(12, 16));
        lemma_u32_of_le_round_trip(bytes.subrange(16, 20));
        lemma_u32_of_le_round_trip(bytes.subrange(20, 24));
        lemma_u32_of_le_round_trip(bytes.subrange(24, 28));
        assert(HeaderV2::spec_decode(bytes).spec_encode() =~= bytes);
    }
}

impl Default for HeaderV2 {
    /// A header with the signature and the version of the format, and every
    /// size zero.
    fn default() -> (header: Self)
        ensures
            header == (HeaderV2 {
                signature: VPK_SIGNATURE,
                version: 2,
                tree_size: 0,
                file_data_section_size: 0,
                archive_md5_section_size: 0,
                other_md5_section_size: 0,
                signature_section_size: 0,
            }),
    {
        HeaderV2 {
            signature: VPK_SIGNATURE,
            version: 2,
            tree_size: 0,
            file_data_section_size: 0,
            archive_md5_section_size: 0,
            other_md5_section_size: 0,
            signature_section_size: 0,
        }
    }
}

/// The record that follows each file name in the directory tree.
///
/// | bytes  | field                |
/// |--------|----------------------|
/// | 0..4   | `crc`                |
/// | 4..6   | `preload_bytes_size` |
/// | 6..8   | `archive_index`      |
/// | 8..12  | `data_offset`        |
/// | 12..16 | `data_length`        |
/// | 16..18 | `terminator`         |
#[derive(Clone, Copy, Debug, PartialEq, Eq, Structural)]
pub struct DirectoryEntryData {
    /// A 32 bit CRC of the file's data.
    pub crc: u32,
    /// The number of bytes of the file that stand in the tree, right behind
    /// this record.
    pub preload_bytes_size: u16,
    /// The number of the archive file that holds the rest of the file's
    /// data; 0x7fff where the data follows the tree in the index file.
    pub archive_index: u16,
    /// Where the rest of the data starts: counted from the end of the tree
    /// where `archive_index` is 0x7fff, else from the start of the archive
    /// file.
    pub data_offset: u32,
    /// The number of bytes stored at `data_offset`; zero where the whole
    /// file is preload data.
    pub data_length: u32,
    /// Must be 0xffff.
    pub terminator: u16,
}

impl DirectoryEntryData {
    /// The number of bytes that a record takes in the tree.
    pub const SIZE: usize = 18;

    /// What `terminator` must hold.
    pub const TERMINATOR: u16 = 0xffff;

    /// The `archive_index` of data that follows the tree in the index file.
    pub const DATA_IN_DIRECTORY_ARCHIVE_INDEX: u16 = 0x7fff;

    /// The bytes that stand for this record in the tree.
    pub open spec fn spec_encode(&self) -> Seq<u8> {
        le_u32(self.crc) + le_u16(self.preload_bytes_size) + le_u16(self.archive_index) + le_u32(
            self.data_offset,
        ) + le_u32(self.data_length) + le_u16(self.terminator)
    }

    /// The record that 18 bytes stand for.
    pub open spec fn spec_decode(bytes: Seq<u8>) -> DirectoryEntryData {
        DirectoryEntryData {
            crc: u32_of_le(bytes.subrange(0, 4)),
            preload_bytes_size: u16_of_le(bytes.subrange(4, 6)),
            archive_index: u16_of_le(bytes.subrange(6, 8)),
            data_offset: u32_of_le(bytes.subrange(8, 12)),
            data_length: u32_of_le(bytes.subrange(12, 16)),
            terminator: u16_of_le(bytes.subrange(16, 18)),
        }
    }

    /// Writes the record as its 18 bytes.
    pub fn encode(&self) -> (bytes: Vec<u8>)
        ensures
            bytes@ == self.spec_encode(),
            bytes@.len() == DirectoryEntryData::SIZE,
    {
        let mut bytes: Vec<u8> = Vec::new();
        put_u32(&mut bytes, self.crc);
        put_u16(&mut bytes, self.preload_bytes_size);
        put_u16(&mut bytes, self.archive_index);
        put_u32(&mut bytes, self.data_offset);
        put_u32(&mut bytes, self.data_length);
        put_u16(&mut bytes, self.terminator);
        bytes
    }

    /// Reads a record from exactly 18 bytes. Any other length is refused as
    /// `MalformedData`.
    pub fn decode(bytes: &[u8]) -> (r: Result<DirectoryEntryData, ErrorKind>)
        ensures
            match r {
                Ok(entry) => bytes@.len() == DirectoryEntryData::SIZE && entry
                    == DirectoryEntryData::spec_decode(bytes@),
                Err(ErrorKind::MalformedData(m)) => bytes@.len() != DirectoryEntryData::SIZE && m@
                    == "Directory Entry Size"@,
                Err(_) => false,
            },
    {
        if bytes.len() != 18 {
            return Err(ErrorKind::MalformedData(String::from_str("Directory Entry Size")));
        }
        Ok(
            DirectoryEntryData {
                crc: get_u32(bytes, 0),
                preload_bytes_size: get_u16(bytes, 4),
                archive_index: get_u16(bytes, 6),
                data_offset: get_u32(bytes, 8),
                data_length: get_u32(bytes, 12),
                terminator: get_u16(bytes, 16),
            },
        )
    }

    /// The length of the file: preload bytes and stored bytes together.
    pub open spec fn spec_total_data_size(&self) -> int {
        self.preload_bytes_size + self.data_length
    }

    /// The terminator is as the format demands.
    pub open spec fn spec_is_valid(&self) -> bool {
        self.terminator == 0xffff
    }

    /// The data follows the tree in the index file.
    pub open spec fn spec_is_in_directory_archive(&self) -> bool {
        self.archive_index == 0x7fff
    }

    /// The whole file is preload data.
    pub open spec fn spec_is_preload_only(&self) -> bool {
        self.data_length == 0
    }

    /// The length of the file: preload bytes and stored bytes together.
    pub fn total_data_size(&self) -> (size: u64)
        ensures
            size == self.spec_total_data_size(),
    {
        self.data_length as u64 + self.preload_bytes_size as u64
    }

    /// Checks the terminator.
    pub fn is_valid(&self) -> (r: Result<(), ErrorKind>)
        ensures
            match r {
                Ok(_) => self.spec_is_valid(),
                Err(ErrorKind::MalformedData(m)) => !self.spec_is_valid() && m@
                    == "Directory Entry Terminator"@,
                Err(_) => false,
            },
    {
        if self.terminator != Self::TERMINATOR {
            return Err(ErrorKind::MalformedData(String::from_str("Directory Entry Terminator")));
        }
        Ok(())
    }

    /// Whether the data follows the tree in the index file.
    pub fn is_in_directory_archive(&self) -> (b: bool)
        ensures
            b == self.spec_is_in_directory_archive(),
    {
        self.archive_index == Self::DATA_IN_DIRECTORY_ARCHIVE_INDEX
    }

    /// Whether the whole file is preload data.
    pub fn is_preload_only(&self) -> (b: bool)
        ensures
            b == self.spec_is_preload_only(),
    {
        self.data_length == 0
    }

    /// Whether any of the file stands in the tree.
    pub fn has_preload(&self) -> (b: bool)
        ensures
            b == (self.preload_bytes_size != 0),
    {
        self.preload_bytes_size != 0
    }

    /// Decoding what was encoded gives the record back.
    pub proof fn lemma_decode_encode(self)
        ensures
            self.spec_encode().len() == 18,
            DirectoryEntryData::spec_decode(self.spec_encode()) == self,
    {
        let b = self.spec_encode();
        assert(b.subrange(0, 4) =~= le_u32(self.crc));
        assert(b.subrange(4, 6) =~= le_u16(self.preload_bytes_size));
        assert(b.subrange(6, 8) =~= le_u16(self.archive_index));
        assert(b.subrange(8, 12) =~= le_u32(self.data_offset));
        assert(b.subrange(12, 16) =~= le_u32(self.data_length));
        assert(b.subrange(16, 18) =~= le_u16(self.terminator));
        lemma_le_u32_round_trip(self.crc);
        lemma_le_u16_round_trip(self.preload_bytes_size);
        lemma_le_u16_round_trip(self.archive_index);
        lemma_le_u32_round_trip(self.data_offset);
        lemma_le_u32_round_trip(self.data_length);
        lemma_le_u16_round_trip(self.terminator);
    }

    /// Encoding what was decoded from 18 bytes gives the bytes back.
    pub proof fn lemma_encode_decode(bytes: Seq<u8>)
        requires
            bytes.len() == 18,
        ensures
            DirectoryEntryData::spec_decode(bytes).spec_encode() == bytes,
    {
        lemma_u32_of_le_round_trip(bytes.subrange(0, 4));
        lemma_u16_of_le_round_trip(bytes.subrange(4, 6));
        lemma_u16_of_le_round_trip(bytes.subrange(6, 8));
        lemma_u32_of_le_round_trip(bytes.subrange(8, 12));
        lemma_u32_of_le_round_trip(bytes.subrange(12, 16));
        lemma_u16_of_le_round_trip(bytes.subrange(16, 18));
        assert(DirectoryEntryData::spec_decode(bytes).spec_encode() =~= bytes);
    }
}

impl Default for DirectoryEntryData {
    /// A record with every field zero.
    fn default() -> (entry: Self)
        ensures
            entry == (DirectoryEntryData {
                crc: 0,
                preload_bytes_size: 0,
                archive_index: 0,
                data_offset: 0,
                data_length: 0,
                terminator: 0,
            }),
    {
        DirectoryEntryData {
            crc: 0,
            preload_bytes_size: 0,
            archive_index: 0,
            data_offset: 0,
            data_length: 0,
            terminator: 0,
        }
    }
}

} // verus!
