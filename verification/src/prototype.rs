//! What the user hands to the builder for each file of a new archive.

use vstd::prelude::*;
use vstd::string::*;
use vstd::utf8::encode_utf8;

verus! {

/// A prototype in specifications.
pub ghost struct Proto {
    pub preload_size: u16,
    pub store_in_directory: bool,
    /// The three names, as the bytes that the tree will hold.
    pub extension: Seq<u8>,
    pub filename: Seq<u8>,
    pub path: Seq<u8>,
    /// All bytes of the file.
    pub data: Seq<u8>,
}

impl Proto {
    /// How many bytes are stored outside the tree.
    pub open spec fn body_len(self) -> int {
        self.data.len() - self.preload_size
    }

    /// The bytes that stand in the tree.
    pub open spec fn preload(self) -> Seq<u8> {
        self.data.subrange(0, self.preload_size as int)
    }

    /// The bytes that are stored outside the tree.
    pub open spec fn body(self) -> Seq<u8> {
        self.data.subrange(self.preload_size as int, self.data.len() as int)
    }

    /// Whether the stored bytes go to a numbered archive file.
    pub open spec fn is_external(self) -> bool {
        self.body_len() > 0 && !self.store_in_directory
    }

    /// Whether the stored bytes go behind the tree in the index file.
    pub open spec fn is_embedded(self) -> bool {
        self.body_len() > 0 && self.store_in_directory
    }
}

/// A file that is to be packed: its names, its bytes, and where the user
/// wants them stored.
pub struct EntryPrototype {
    /// How many of the file's first bytes are stored in the tree.
    preload_size: u16,
    /// Whether the rest is stored in the index file, behind the tree, and
    /// not in a numbered archive file.
    store_in_directory: bool,
    extension: Vec<u8>,
    filename: Vec<u8>,
    path: Vec<u8>,
    /// All bytes of the file: the preload bytes, then the rest.
    data: Vec<u8>,
}

impl View for EntryPrototype {
    type V = Proto;

    closed spec fn view(&self) -> Proto {
        Proto {
            preload_size: self.preload_size,
            store_in_directory: self.store_in_directory,
            extension: self.extension@,
            filename: self.filename@,
            path: self.path@,
            data: self.data@,
        }
    }
}

/// The prototypes of a slice in specifications.
pub open spec fn protos_of(entries: Seq<EntryPrototype>) -> Seq<Proto> {
    Seq::new(entries.len(), |i: int| entries[i]@)
}

impl EntryPrototype {
    /// A prototype of the file `path/filename.extension` with the bytes
    /// `data`. Its first `preload_size` bytes will stand in the tree; the
    /// others go behind the tree where `store_in_directory` is set, else to
    /// a numbered archive file. The names are kept as their UTF-8 bytes.
    pub fn new(
        store_in_directory: bool,
        preload_size: u16,
        path: String,
        filename: String,
        extension: String,
        data: Vec<u8>,
    ) -> (prototype: Self)
        ensures
            prototype@ == (Proto {
                preload_size,
                store_in_directory,
                extension: encode_utf8(extension@),
                filename: encode_utf8(filename@),
                path: encode_utf8(path@),
                data: data@,
            }),
    {
        EntryPrototype {
            preload_size,
            store_in_directory,
            extension: extension.as_str().as_bytes_vec(),
            filename: filename.as_str().as_bytes_vec(),
            path: path.as_str().as_bytes_vec(),
            data,
        }
    }

    pub fn preload_size(&self) -> (n: u16)
        ensures
            n == self@.preload_size,
    {
        self.preload_size
    }

    pub fn store_in_directory(&self) -> (b: bool)
        ensures
            b == self@.store_in_directory,
    {
        self.store_in_directory
    }

    pub fn extension(&self) -> (name: &[u8])
        ensures
            name@ == self@.extension,
    {
        self.extension.as_slice()
    }

    pub fn filename(&self) -> (name: &[u8])
        ensures
            name@ == self@.filename,
    {
        self.filename.as_slice()
    }

    pub fn path(&self) -> (name: &[u8])
        ensures
            name@ == self@.path,
    {
        self.path.as_slice()
    }

    pub fn data(&self) -> (bytes: &[u8])
        ensures
            bytes@ == self@.data,
    {
        self.data.as_slice()
    }
}

} // verus!
