//! Reading one file of an archive as a single stream of bytes.
//!
//! A file's bytes are its preload bytes, which stand in the directory tree
//! of the index file, followed by its stored bytes, which stand either
//! behind the tree in the index file or in one of the numbered archive
//! files. A reader keeps a cursor into that stream and fetches each range
//! from the place that holds it.

use vstd::prelude::*;
use vstd::slice::slice_subrange;
use crate::bytes::piece;
use crate::directory::Handle;
use crate::error::{unexpected_eof, ErrorKind};

verus! {

/// From where a seek counts.
#[derive(Clone, Copy, Debug, PartialEq, Eq, Structural)]
pub enum SeekFrom {
    /// So many bytes behind the start of the file.
    Start(u64),
    /// So many bytes before the end of the file.
    End(i64),
    /// So many bytes behind the cursor, or before it where negative.
    Current(i64),
}

/// `x` where it lies between `low` and `high`, else the nearer of the two.
pub open spec fn clamp(x: int, low: int, high: int) -> int {
    if x < low {
        low
    } else if x > high {
        high
    } else {
        x
    }
}

/// A reader in specifications: the handle of its file, the contents of the
/// index file and of the archive file it reads from, and its cursor.
pub ghost struct ReaderState {
    pub handle: Handle,
    pub dir: Seq<u8>,
    pub data: Option<Seq<u8>>,
    pub cursor: int,
}

impl ReaderState {
    /// The number of preload bytes.
    pub open spec fn preload_end(self) -> int {
        self.handle.entry.preload_bytes_size as int
    }

    /// The length of the file.
    pub open spec fn total_end(self) -> int {
        self.handle.entry.spec_total_data_size()
    }

    /// A reader of a file whose stored bytes are in an archive file has
    /// that archive file, and the cursor lies within the file.
    pub open spec fn wf(self) -> bool {
        &&& self.handle.entry.spec_is_in_directory_archive() || self.data is Some
        &&& 0 <= self.cursor <= self.total_end()
    }

    /// The same reader with its cursor at `cursor`.
    pub open spec fn at(self, cursor: int) -> ReaderState {
        ReaderState { cursor, ..self }
    }

    /// Where a seek puts the cursor.
    pub open spec fn seek_target(self, pos: SeekFrom) -> int {
        match pos {
            SeekFrom::Start(c) => clamp(c as int, 0, self.total_end()),
            SeekFrom::End(c) => self.total_end() - clamp(c as int, 0, self.total_end()),
            SeekFrom::Current(c) => clamp(self.cursor + c, 0, self.total_end()),
        }
    }

    /// How many bytes a read into a buffer of `len` bytes delivers: as many
    /// as the buffer takes, but not more than are left behind the cursor.
    pub open spec fn read_count(self, len: int) -> int {
        clamp(self.total_end() - self.cursor, 0, len)
    }

    /// How many of them are preload bytes.
    pub open spec fn preload_count(self, len: int) -> int {
        clamp(self.preload_end() - self.cursor, 0, len)
    }

    /// The file that holds the stored bytes.
    pub open spec fn body_file(self) -> Seq<u8> {
        if self.handle.entry.spec_is_in_directory_archive() {
            self.dir
        } else {
            self.data->Some_0
        }
    }

    /// Where the stored bytes start in that file.
    pub open spec fn body_start(self) -> int {
        if self.handle.entry.spec_is_in_directory_archive() {
            self.handle.directory_archive_data_start_position + self.handle.entry.data_offset
        } else {
            self.handle.entry.data_offset as int
        }
    }

    /// The preload bytes that a read into a buffer of `len` bytes fetches
    /// from the index file; `None` where the index file is too short.
    pub open spec fn preload_piece(self, len: int) -> Option<Seq<u8>> {
        piece(
            self.dir,
            self.handle.preload_data_position + self.cursor,
            self.preload_count(len),
        )
    }

    /// The stored bytes that such a read fetches behind the preload bytes;
    /// `None` where the file that holds them is too short.
    pub open spec fn body_piece(self, len: int) -> Option<Seq<u8>> {
        let first = self.cursor + self.preload_count(len) - self.preload_end();
        piece(
            self.body_file(),
            self.body_start() + first,
            self.read_count(len) - self.preload_count(len),
        )
    }

    /// All bytes of the file from the cursor on; `None` where a file that
    /// holds some of them is too short.
    pub open spec fn rest(self) -> Option<Seq<u8>> {
        let left = self.total_end() - self.cursor;
        match (self.preload_piece(left), self.body_piece(left)) {
            (Some(preload), Some(body)) => Some(preload + body),
            _ => None,
        }
    }
}

/// A cursor over the bytes of one file of an archive.
pub struct EntryReader<'a> {
    handle: Handle,
    /// The index file.
    dir: &'a [u8],
    /// The archive file that holds the stored bytes, unless they are
    /// embedded in the index file.
    data: Option<&'a [u8]>,
    cursor: u64,
}

impl<'a> View for EntryReader<'a> {
    type V = ReaderState;

    closed spec fn view(&self) -> ReaderState {
        ReaderState {
            handle: self.handle,
            dir: self.dir@,
            data: match self.data {
                Some(file) => Some(file@),
                None => None,
            },
            cursor: self.cursor as int,
        }
    }
}

/// Copies `src` into `buf` from position `at` on.
fn copy_into(buf: &mut [u8], at: usize, src: &[u8])
    requires
        at + src@.len() <= old(buf)@.len(),
    ensures
        final(buf)@ == old(buf)@.subrange(0, at as int) + src@ + old(buf)@.subrange(
            at + src@.len(),
            old(buf)@.len() as int,
        ),
{
    let _ = buf.len();
    let mut i: usize = 0;
    while i < src.len()
        invariant
            i <= src@.len(),
            at + src@.len() <= buf@.len() <= usize::MAX,
            buf@.len() == old(buf)@.len(),
            forall|j: int| 0 <= j < at ==> buf@[j] == old(buf)@[j],
            forall|j: int| 0 <= j < i ==> buf@[at + j] == src@[j],
            forall|j: int| at + i <= j < buf@.len() ==> buf@[j] == old(buf)@[j],
        decreases src@.len() - i,
    {
        buf[at + i] = src[i];
        i = i + 1;
    }
    assert(buf@ =~= old(buf)@.subrange(0, at as int) + src@ + old(buf)@.subrange(
        at + src@.len(),
        old(buf)@.len() as int,
    ));
}

/// An exact read of `len` bytes at `base + offset + cursor` in a file that
/// is held in memory.
fn fetch(file: &[u8], base: u64, offset: u64, cursor: u64, len: usize) -> (r: Result<
    &[u8],
    ErrorKind,
>)
    ensures
        match r {
            Ok(bytes) => piece(file@, base + offset + cursor, len as int) == Some(bytes@),
            Err(ErrorKind::IO(_)) => piece(file@, base + offset + cursor, len as int) is None,
            Err(_) => false,
        },
{
    let size: u128 = file.len() as u128;
    let pos: u128 = base as u128 + offset as u128 + cursor as u128;
    if len == 0 {
        let bytes = slice_subrange(file, 0, 0);
        assert(bytes@ =~= Seq::<u8>::empty());
        return Ok(bytes);
    }
    if pos > size || len as u128 > size - pos {
        return Err(unexpected_eof());
    }
    Ok(slice_subrange(file, pos as usize, pos as usize + len))
}

impl<'a> EntryReader<'a> {
    /// A reader of a file whose stored bytes are in an archive file has
    /// that archive file, and the cursor lies within the file.
    pub open spec fn wf(&self) -> bool {
        self@.wf()
    }

    /// A reader at the start of the file that `handle` describes. `dir` is
    /// the index file, and `data` the archive file that the handle names.
    ///
    /// A file whose stored bytes are not embedded in the index file cannot
    /// be read without its archive file.
    pub fn new(handle: Handle, dir: &'a [u8], data: Option<&'a [u8]>) -> (reader: EntryReader<'a>)
        requires
            handle.entry.spec_is_in_directory_archive() || data is Some,
        ensures
            reader.wf(),
            reader@ == (ReaderState {
                handle,
                dir: dir@,
                data: match data {
                    Some(file) => Some(file@),
                    None => None,
                },
                cursor: 0,
            }),
    {
        EntryReader { handle, dir, data, cursor: 0 }
    }

    /// The handle of the file.
    pub fn handle(&self) -> (handle: Handle)
        ensures
            handle == self@.handle,
    {
        self.handle
    }

    /// Where the cursor stands.
    pub fn position(&self) -> (cursor: u64)
        ensures
            cursor == self@.cursor,
    {
        self.cursor
    }

    /// Moves the cursor and returns its new position. A position before the
    /// start of the file becomes the start, one behind its end the end.
    pub fn seek(&mut self, pos: SeekFrom) -> (cursor: u64)
        requires
            old(self).wf(),
        ensures
            final(self).wf(),
            final(self)@ == old(self)@.at(old(self)@.seek_target(pos)),
            cursor == final(self)@.cursor,
    {
        let total: u64 = self.handle.entry.total_data_size();
        match pos {
            SeekFrom::Start(c) => {
                self.cursor = if c > total {
                    total
                } else {
                    c
                };
            },
            SeekFrom::End(c) => {
                let back: u64 = if c < 0 {
                    0
                } else if c as u64 > total {
                    total
                } else {
                    c as u64
                };
                self.cursor = total - back;
            },
            SeekFrom::Current(c) => {
                if c < 0 {
                    let back: u64 = if c == i64::MIN {
                        0x8000_0000_0000_0000
                    } else {
                        (-c) as u64
                    };
                    self.cursor = if back > self.cursor {
                        0
                    } else {
                        self.cursor - back
                    };
                } else {
                    let ahead: u64 = c as u64;
                    self.cursor = if ahead > total - self.cursor {
                        total
                    } else {
                        self.cursor + ahead
                    };
                }
            },
        }
        self.cursor
    }

    /// Fetches the preload bytes that a read into `buf` delivers, if any,
    /// and moves the cursor behind them.
    fn read_preload(&mut self, buf: &mut [u8]) -> (r: Result<usize, ErrorKind>)
        requires
            old(self).wf(),
        ensures
            final(self).wf(),
            final(self)@ == old(self)@.at(final(self)@.cursor),
            final(buf)@.len() == old(buf)@.len(),
            match old(self)@.preload_piece(old(buf)@.len() as int) {
                Some(preload) => {
                    &&& r == Ok::<usize, ErrorKind>(
                        old(self)@.preload_count(old(buf)@.len() as int) as usize,
                    )
                    &&& final(self)@.cursor == old(self)@.cursor + old(self)@.preload_count(
                        old(buf)@.len() as int,
                    )
                    &&& final(buf)@ == preload + old(buf)@.subrange(
                        old(self)@.preload_count(old(buf)@.len() as int),
                        old(buf)@.len() as int,
                    )
                },
                None => {
                    &&& r matches Err(ErrorKind::IO(_))
                    &&& final(self)@.cursor == old(self)@.cursor
                    &&& final(buf)@ == old(buf)@
                },
            },
    {
        let preload_end: u64 = self.handle.entry.preload_bytes_size as u64;
        let len: usize = buf.len();
        if self.cursor >= preload_end {
            assert(buf@ =~= Seq::<u8>::empty() + buf@.subrange(0, len as int));
            return Ok(0);
        }
        let left: u64 = preload_end - self.cursor;
        let wanted: usize = if left > len as u64 {
            len
        } else {
            left as usize
        };
        let bytes = match fetch(self.dir, self.handle.preload_data_position, 0, self.cursor, wanted) {
            Ok(bytes) => bytes,
            Err(e) => {
                return Err(e);
            },
        };
        copy_into(buf, 0, bytes);
        self.cursor = self.cursor + wanted as u64;
        assert(buf@ =~= bytes@ + old(buf)@.subrange(wanted as int, len as int));
        Ok(wanted)
    }

    /// Fetches `wanted` stored bytes from the cursor on, writes them into
    /// `buf` at `at`, and moves the cursor behind them.
    fn read_body(&mut self, buf: &mut [u8], at: usize, wanted: usize) -> (r: Result<
        (),
        ErrorKind,
    >)
        requires
            old(self).wf(),
            old(self)@.cursor >= old(self)@.preload_end(),
            old(self)@.cursor + wanted <= old(self)@.total_end(),
            at + wanted <= old(buf)@.len(),
        ensures
            final(self).wf(),
            final(self)@ == old(self)@.at(final(self)@.cursor),
            final(buf)@.len() == old(buf)@.len(),
            match piece(
                old(self)@.body_file(),
                old(self)@.body_start() + old(self)@.cursor - old(self)@.preload_end(),
                wanted as int,
            ) {
                Some(body) => {
                    &&& r is Ok
                    &&& final(self)@.cursor == old(self)@.cursor + wanted
                    &&& final(buf)@ == old(buf)@.subrange(0, at as int) + body + old(
                        buf,
                    )@.subrange(at + wanted, old(buf)@.len() as int)
                },
                None => {
                    &&& r matches Err(ErrorKind::IO(_))
                    &&& final(self)@.cursor == old(self)@.cursor
                    &&& final(buf)@ == old(buf)@
                },
            },
    {
        let first: u64 = self.cursor - self.handle.entry.preload_bytes_size as u64;
        let fetched = if self.handle.entry.is_in_directory_archive() {
            fetch(
                self.dir,
                self.handle.directory_archive_data_start_position,
                self.handle.entry.data_offset as u64,
                first,
                wanted,
            )
        } else {
            match self.data {
                Some(file) => fetch(file, 0, self.handle.entry.data_offset as u64, first, wanted),
                None => Err(unexpected_eof()),
            }
        };
        match fetched {
            Ok(bytes) => {
                copy_into(buf, at, bytes);
                self.cursor = self.cursor + wanted as u64;
                Ok(())
            },
            Err(e) => Err(e),
        }
    }

    /// Reads into `buf` from the cursor on, and moves the cursor behind what
    /// was read. Returns the number of bytes read: the length of `buf`, or
    /// less where the file ends first; zero at the end of the file.
    ///
    /// The bytes in front of the end of the preload data are fetched from
    /// the index file, the others from the file that holds the stored
    /// bytes. Where that file is too short, the read fails after the
    /// preload bytes were delivered and the cursor has passed them.
    pub fn read(&mut self, buf: &mut [u8]) -> (r: Result<usize, ErrorKind>)
        requires
            old(self).wf(),
        ensures
            final(self).wf(),
            final(self)@ == old(self)@.at(final(self)@.cursor),
            final(buf)@.len() == old(buf)@.len(),
            match (
                old(self)@.preload_piece(old(buf)@.len() as int),
                old(self)@.body_piece(old(buf)@.len() as int),
            ) {
                (Some(preload), Some(body)) => {
                    &&& r == Ok::<usize, ErrorKind>(
                        old(self)@.read_count(old(buf)@.len() as int) as usize,
                    )
                    &&& final(self)@.cursor == old(self)@.cursor + old(self)@.read_count(
                        old(buf)@.len() as int,
                    )
                    &&& final(buf)@ == preload + body + old(buf)@.subrange(
                        old(self)@.read_count(old(buf)@.len() as int),
                        old(buf)@.len() as int,
                    )
                },
                (Some(preload), None) => {
                    &&& r matches Err(ErrorKind::IO(_))
                    &&& final(self)@.cursor == old(self)@.cursor + old(self)@.preload_count(
                        old(buf)@.len() as int,
                    )
                    &&& final(buf)@ == preload + old(buf)@.subrange(
                        old(self)@.preload_count(old(buf)@.len() as int),
                        old(buf)@.len() as int,
                    )
                },
                (None, _) => {
                    &&& r matches Err(ErrorKind::IO(_))
                    &&& final(self)@.cursor == old(self)@.cursor
                    &&& final(buf)@ == old(buf)@
                },
            },
    {
        let total: u64 = self.handle.entry.total_data_size();
        let len: usize = buf.len();
        let ghost before = buf@;
        let ghost state = self@;
        if self.cursor >= total {
            assert(buf@ =~= Seq::<u8>::empty() + Seq::<u8>::empty() + buf@.subrange(
                0,
                len as int,
            ));
            return Ok(0);
        }
        let count: usize = match self.read_preload(buf) {
            Ok(count) => count,
            Err(e) => {
                return Err(e);
            },
        };
        let ghost preload = state.preload_piece(len as int)->Some_0;
        if count == len {
            assert(buf@ =~= preload + Seq::<u8>::empty() + before.subrange(
                count as int,
                len as int,
            ));
            return Ok(count);
        }
        let left: u64 = total - self.cursor;
        let wanted: usize = if left > (len - count) as u64 {
            len - count
        } else {
            left as usize
        };
        assert(count + wanted == state.read_count(len as int));
        match self.read_body(buf, count, wanted) {
            Ok(_) => {
                let ghost body = state.body_piece(len as int)->Some_0;
                assert(buf@ =~= preload + body + before.subrange(count + wanted, len as int));
                Ok(count + wanted)
            },
            Err(e) => Err(e),
        }
    }

    /// Reads all bytes from the cursor to the end of the file, appends them
    /// to `out`, and leaves the cursor at the end. Returns the number of
    /// bytes read.
    ///
    /// Where a file that holds some of the bytes is too short, or where
    /// this machine cannot hold so many bytes at once, nothing is appended.
    pub fn read_to_end(&mut self, out: &mut Vec<u8>) -> (r: Result<usize, ErrorKind>)
        requires
            old(self).wf(),
        ensures
            final(self).wf(),
            final(self)@ == old(self)@.at(final(self)@.cursor),
            match r {
                Ok(n) => {
                    &&& old(self)@.rest() == Some(final(out)@.subrange(
                        old(out)@.len() as int,
                        final(out)@.len() as int,
                    ))
                    &&& final(out)@.subrange(0, old(out)@.len() as int) == old(out)@
                    &&& n == old(self)@.total_end() - old(self)@.cursor
                    &&& final(self)@.cursor == old(self)@.total_end()
                },
                Err(ErrorKind::IO(_)) => {
                    &&& old(self)@.rest() is None || old(self)@.total_end() - old(self)@.cursor
                        > usize::MAX
                    &&& final(out)@ == old(out)@
                },
                Err(_) => false,
            },
    {
        let total: u64 = self.handle.entry.total_data_size();
        let left: u64 = total - self.cursor;
        if left > usize::MAX as u64 {
            return Err(unexpected_eof());
        }
        let mut chunk: Vec<u8> = vec![0u8; left as usize];
        match self.read(chunk.as_mut_slice()) {
            Ok(n) => {
                let ghost tail = chunk@;
                out.append(&mut chunk);
                assert(out@.subrange(old(out)@.len() as int, out@.len() as int) =~= tail);
                assert(out@.subrange(0, old(out)@.len() as int) =~= old(out)@);
                Ok(n)
            },
            Err(e) => Err(e),
        }
    }
}

/// A seek never leaves the file.
pub proof fn lemma_seek_stays_within(state: ReaderState, pos: SeekFrom)
    requires
        state.wf(),
    ensures
        0 <= state.seek_target(pos) <= state.total_end(),
        state.at(state.seek_target(pos)).wf(),
{
}

/// A seek to a position behind the end of the file goes to the end, and a
/// read there delivers no byte and fetches none, so that it cannot fail.
pub proof fn lemma_seek_past_end(state: ReaderState, pos: u64, len: int)
    requires
        state.wf(),
        pos >= state.total_end(),
        0 <= len,
    ensures
        state.seek_target(SeekFrom::Start(pos)) == state.total_end(),
        state.at(state.total_end()).read_count(len) == 0,
        state.at(state.total_end()).preload_piece(len) == Some(Seq::<u8>::empty()),
        state.at(state.total_end()).body_piece(len) == Some(Seq::<u8>::empty()),
{
}

/// A seek to a position before the start of the file goes to the start:
/// from the cursor by more than the cursor, or from the end by the length
/// of the file or more.
pub proof fn lemma_seek_before_start(state: ReaderState, delta: i64)
    requires
        state.wf(),
    ensures
        state.cursor + delta < 0 ==> state.seek_target(SeekFrom::Current(delta)) == 0,
        delta >= state.total_end() ==> state.seek_target(SeekFrom::End(delta)) == 0,
{
}

/// Of a file without stored bytes a reader delivers the preload bytes and
/// no more, whatever the record says of where stored bytes would be: a
/// read fetches from the index file alone, the reads from the start
/// deliver as many bytes as the record counts as preload, and a read at
/// their end delivers none.
pub proof fn lemma_preload_only(state: ReaderState, len: int)
    requires
        state.handle.entry.spec_is_preload_only(),
        0 <= state.cursor <= state.total_end(),
        0 <= len,
    ensures
        state.total_end() == state.handle.entry.preload_bytes_size,
        state.read_count(len) == state.preload_count(len),
        state.body_piece(len) == Some(Seq::<u8>::empty()),
        state.at(0).read_count(state.total_end()) == state.handle.entry.preload_bytes_size,
        state.at(0).rest() == state.at(0).preload_piece(state.total_end()),
        state.at(state.total_end()).read_count(len) == 0,
{
    let start = state.at(0);
    let total = state.total_end();
    assert(start.body_piece(total) == Some(Seq::<u8>::empty()));
    match start.preload_piece(total) {
        Some(preload) => {
            assert(preload + Seq::<u8>::empty() =~= preload);
        },
        None => {},
    }
}

} // verus!
