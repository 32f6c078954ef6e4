//! Reader and writer for version 2 of Valve's VPK archive format.
//!
//! An archive is an index file, which holds a directory tree of the packed
//! files, and a run of numbered archive files, which hold most of their
//! bytes. [`VPKv2::create`] builds the files of a new archive,
//! [`VPKv2::open`] reads an index file, and an [`EntryReader`] delivers the
//! bytes of one packed file. All files are handed over and returned as
//! bytes: reading them from disk and writing them there is left to the
//! caller.

pub mod archive;
pub mod bytes;
pub mod create;
pub mod data;
pub mod digest;
pub mod directory;
pub mod error;
pub mod laws;
pub mod layout;
pub mod paths;
pub mod prototype;
pub mod reader;
pub mod sections;
pub mod tree;
pub mod tree_laws;

pub use archive::{Extract, VPKv2, ValidateArchive, ValidateOther};
pub use create::ArchiveFiles;
pub use data::{DirectoryEntryData, HeaderV2, VPK_SIGNATURE};
pub use directory::{read_directory_tree, Directory, DirectoryRecord, Handle};
pub use error::ErrorKind;
pub use paths::{archive_file_name, get_base_path, index_file_name};
pub use prototype::EntryPrototype;
pub use reader::{EntryReader, SeekFrom};
pub use sections::{
    determine_version, read_section, ArchiveMD5SectionEntry, OtherMD5Section, SignatureSection,
    Version,
};
