//! Streams: a resource handle, a logical offset, and a buffering
//! discipline. A stream never touches its resource: it says which transfer
//! it needs, and is told how the transfer went.

use crate::ascii::{LINE_FEED};
use crate::errors::IoError;
use vstd::prelude::*;
use vstd::slice::{slice_subrange, slice_to_vec};

verus! {

/// The smallest size, in bytes, that a block buffer is given.
pub const INITIAL_BUFFERING_LEN: usize = 1024;

/// How a stream is to be buffered.
#[derive(Debug, Clone, Copy, PartialEq, Eq, Structural)]
pub enum BufferingOption {
    /// Every read and write goes to the resource.
    Unbuffered,
    /// Input and output pass through blocks of a fixed size.
    Buffered,
    /// Output is held back until a line is complete, and input is fetched
    /// line by line.
    LineBuffered,
}

impl BufferingOption {
    /// The option with the number `u8`: 0 for unbuffered, 1 for blocks, 2
    /// for lines, and none for any other number.
    pub fn from_u8(u8: u8) -> (r: Option<Self>)
        ensures
            r == if u8 == 0 {
                Some(BufferingOption::Unbuffered)
            } else if u8 == 1 {
                Some(BufferingOption::Buffered)
            } else if u8 == 2 {
                Some(BufferingOption::LineBuffered)
            } else {
                None
            },
    {
        if u8 == 0 {
            Some(BufferingOption::Unbuffered)
        } else if u8 == 1 {
            Some(BufferingOption::Buffered)
        } else if u8 == 2 {
            Some(BufferingOption::LineBuffered)
        } else {
            None
        }
    }
}

/// Where a seek goes.
#[derive(Debug, Clone, Copy, PartialEq, Eq, Structural)]
pub enum SeekPosition {
    /// So many bytes from where the stream stands.
    Current(isize),
    /// So many bytes before the end.
    End(usize),
    /// So many bytes from the start.
    Start(usize),
}

/// The buffers of a stream.
#[derive(Debug, Clone, PartialEq)]
pub enum BufferedIO {
    /// A pending line of input and a pending line of output.
    LineBuffered { stdin_line: Vec<u8>, stdout_line: Vec<u8> },
    /// A block of input, of which the first `stdin_pos` bytes were fetched,
    /// and a block of output, of which the first `stdout_pos` bytes are
    /// pending.
    SizeBuffered { stdin: Vec<u8>, stdin_pos: usize, stdout: Vec<u8>, stdout_pos: usize },
    /// No buffers.
    Unbuffered,
}

/// The buffers of a stream as mathematics sees them.
pub enum Buffers {
    Unbuffered,
    /// Blocks of `capacity` bytes: `input` was fetched and is served,
    /// `output` is pending.
    Block { capacity: nat, input: Seq<u8>, output: Seq<u8> },
    /// Lines: `input` was fetched and is served, `output` is pending.
    Line { input: Seq<u8>, output: Seq<u8> },
}

impl View for BufferedIO {
    type V = Buffers;

    open spec fn view(&self) -> Buffers {
        match self {
            BufferedIO::Unbuffered => Buffers::Unbuffered,
            BufferedIO::LineBuffered { stdin_line, stdout_line } => Buffers::Line {
                input: stdin_line@,
                output: stdout_line@,
            },
            BufferedIO::SizeBuffered { stdin, stdin_pos, stdout, stdout_pos } => Buffers::Block {
                capacity: stdout@.len(),
                input: stdin@.take(*stdin_pos as int),
                output: stdout@.take(*stdout_pos as int),
            },
        }
    }
}

impl BufferedIO {
    /// Whether the blocks are of one size, at least one byte, and the
    /// marks within them.
    pub open spec fn wf(&self) -> bool {
        match self {
            BufferedIO::SizeBuffered { stdin, stdin_pos, stdout, stdout_pos } => {
                &&& 1 <= stdout@.len() <= usize::MAX
                &&& stdin@.len() == stdout@.len()
                &&& *stdin_pos <= stdin@.len()
                &&& *stdout_pos <= stdout@.len()
            },
            _ => true,
        }
    }
}

/// The logical offset after `n` bytes were transferred at `offset`. The
/// offset -1 stands for the end of the resource, whatever that is at the
/// time, and never moves; any other offset moves on by `n`, as far as the
/// machine can count.
pub open spec fn advanced(offset: int, n: nat) -> int {
    if offset == -1 {
        -1
    } else if offset + n > isize::MAX {
        isize::MAX as int
    } else {
        offset + n
    }
}

/// The logical offset that a seek to `wrench` leaves a stream at `offset`
/// with.
///
/// From the start it is the distance itself. Before the end it is the
/// negative of one more than the distance, so that -1 is the end. From
/// where the stream stands, it is the offset plus the distance, except that
/// the offset -1 stays. All of them stop at the limits of the machine.
pub open spec fn sought(offset: int, wrench: SeekPosition) -> int {
    match wrench {
        SeekPosition::Start(s) => if s > isize::MAX {
            isize::MAX as int
        } else {
            s as int
        },
        SeekPosition::End(e) => if e >= isize::MAX {
            isize::MIN as int
        } else {
            -(e + 1)
        },
        SeekPosition::Current(c) => if offset == -1 {
            -1
        } else if offset + c > isize::MAX {
            isize::MAX as int
        } else if offset + c < isize::MIN {
            isize::MIN as int
        } else {
            offset + c
        },
    }
}

/// The place in a resource of `size` bytes that the logical offset
/// `offset` stands for: itself from the start, and counted back from the
/// end where it is negative, not before the start.
pub open spec fn resolved(offset: int, size: nat) -> nat {
    if offset >= 0 {
        offset as nat
    } else if size + offset + 1 < 0 {
        0
    } else {
        (size + offset + 1) as nat
    }
}

/// A stream without its buffers: the handle of its resource, the logical
/// offset, and whether the last read found the end.
#[derive(Debug, Clone, Copy, PartialEq, Eq, Structural)]
pub struct FileUnbuffered {
    pub resource: usize,
    pub offset: isize,
    pub eof: bool,
}

impl FileUnbuffered {
    /// Counts `n` bytes as written at the offset.
    pub fn write_unbuffered(&mut self, n: usize)
        ensures
            final(self).resource == old(self).resource,
            final(self).eof == old(self).eof,
            final(self).offset == advanced(old(self).offset as int, n as nat),
    {
        if self.offset != -1 {
            self.offset = match self.offset.checked_add_unsigned(n) {
                Some(o) => o,
                None => isize::MAX,
            };
        }
    }

    /// Counts `n` bytes as read at the offset; a read of nothing is the
    /// end of the resource.
    pub fn read_unbuffered(&mut self, n: usize)
        ensures
            final(self).resource == old(self).resource,
            final(self).eof == (n == 0),
            final(self).offset == advanced(old(self).offset as int, n as nat),
    {
        self.write_unbuffered(n);
        self.eof = n == 0;
    }

    /// The place that the offset stands for in a resource of `size` bytes.
    pub fn offset(&self, size: usize) -> (place: usize)
        ensures
            place == resolved(self.offset as int, size as nat),
    {
        if self.offset >= 0 {
            self.offset as usize
        } else {
            let back: usize = (-(self.offset + 1)) as usize;
            if back > size {
                0
            } else {
                size - back
            }
        }
    }

    /// Changes the position at which the stream reads and writes.
    pub fn seek(&mut self, wrench: SeekPosition)
        ensures
            final(self).resource == old(self).resource,
            final(self).eof == old(self).eof,
            final(self).offset == sought(old(self).offset as int, wrench),
    {
        match wrench {
            SeekPosition::Start(s) => {
                self.offset = if s > isize::MAX as usize {
                    isize::MAX
                } else {
                    s as isize
                };
            },
            SeekPosition::End(e) => {
                self.offset = if e >= isize::MAX as usize {
                    isize::MIN
                } else {
                    -((e + 1) as isize)
                };
            },
            SeekPosition::Current(c) => {
                if self.offset != -1 {
                    self.offset = match self.offset.checked_add(c) {
                        Some(o) => o,
                        None => if c > 0 {
                            isize::MAX
                        } else {
                            isize::MIN
                        },
                    };
                }
            },
        }
    }
}

/// A stream as mathematics sees it.
pub struct Stream {
    /// The handle of the resource.
    pub resource: usize,
    /// The logical offset.
    pub offset: int,
    /// Whether the last fetch found the end of the resource.
    pub eof: bool,
    /// The buffers.
    pub buffers: Buffers,
}

/// A transfer that a stream asks for: `data` is to be written to the
/// resource at the logical offset `offset`.
#[derive(Debug, Clone, PartialEq, Eq)]
pub struct Transfer {
    pub offset: isize,
    pub data: Vec<u8>,
}

/// What a stream makes of a write.
#[derive(Debug, Clone, PartialEq, Eq)]
pub enum WriteStep {
    /// The first `taken` bytes, which are all that were given, are in the
    /// buffer. The write is complete.
    Done { taken: usize },
    /// The first `taken` bytes are in the buffer, and the buffer must go to
    /// the resource before more can be taken: `request` says what and
    /// where. Once the resource has taken it, `written` is to be told, and
    /// the rest of the bytes can be written.
    Flush { taken: usize, request: Transfer },
    /// The stream has no buffer. The bytes are to be written to the
    /// resource as they are, at `offset`; `written` is to be told the
    /// count, which is the result of the write.
    Direct { offset: isize },
}

/// What a stream makes of a read.
#[derive(Debug, Clone, Copy, PartialEq, Eq, Structural)]
pub enum ReadStep {
    /// `count` bytes were copied to the front of the buffer of the caller.
    /// The read is complete.
    Done { count: usize },
    /// The stream holds nothing to serve. Up to `len` bytes are to be read
    /// from the resource at `offset` and handed to `fill`.
    Fetch { offset: isize, len: usize },
    /// The stream has no buffer. The resource is to be read at `offset`
    /// into the buffer of the caller; `read_done` is to be told the count,
    /// which is the result of the read.
    Direct { offset: isize },
}

/// The number of bytes of `bytes` up to its first line feed, that one
/// counted; all of them where there is none.
pub open spec fn line_end(bytes: Seq<u8>) -> nat
    decreases bytes.len(),
{
    if bytes.len() == 0 {
        0
    } else if bytes[0] == LINE_FEED {
        1
    } else {
        1 + line_end(bytes.skip(1))
    }
}

/// Whether `bytes` ends in a line feed.
pub open spec fn ends_line(bytes: Seq<u8>) -> bool {
    bytes.len() > 0 && bytes.last() == LINE_FEED
}

/// The smaller of two counts.
pub open spec fn least(a: nat, b: nat) -> nat {
    if a < b {
        a
    } else {
        b
    }
}

impl Stream {
    /// Whether pending and fetched bytes fit their blocks.
    pub open spec fn wf(self) -> bool {
        &&& isize::MIN <= self.offset <= isize::MAX
        &&& match self.buffers {
            Buffers::Block { capacity, input, output } => capacity >= 1 && input.len() <= capacity
                && output.len() <= capacity && capacity <= usize::MAX,
            Buffers::Line { .. } => true,
            Buffers::Unbuffered => true,
        }
    }

    /// The output that is pending.
    pub open spec fn output(self) -> Seq<u8> {
        match self.buffers {
            Buffers::Block { output, .. } => output,
            Buffers::Line { output, .. } => output,
            Buffers::Unbuffered => Seq::empty(),
        }
    }

    /// The input that was fetched and is served.
    pub open spec fn input(self) -> Seq<u8> {
        match self.buffers {
            Buffers::Block { input, .. } => input,
            Buffers::Line { input, .. } => input,
            Buffers::Unbuffered => Seq::empty(),
        }
    }

    /// The transfer that a flush asks for: the pending output at the
    /// offset, and none where nothing is pending.
    pub open spec fn pending(self) -> Option<(int, Seq<u8>)> {
        if self.output().len() > 0 {
            Some((self.offset, self.output()))
        } else {
            None
        }
    }

    /// The stream with `output` pending.
    pub open spec fn with_output(self, output: Seq<u8>) -> Stream {
        match self.buffers {
            Buffers::Block { capacity, input, .. } => Stream {
                buffers: Buffers::Block { capacity, input, output },
                ..self
            },
            Buffers::Line { input, .. } => Stream {
                buffers: Buffers::Line { input, output },
                ..self
            },
            Buffers::Unbuffered => self,
        }
    }

    /// The stream with `input` fetched.
    pub open spec fn with_input(self, input: Seq<u8>) -> Stream {
        match self.buffers {
            Buffers::Block { capacity, output, .. } => Stream {
                buffers: Buffers::Block { capacity, input, output },
                ..self
            },
            Buffers::Line { output, .. } => Stream {
                buffers: Buffers::Line { input, output },
                ..self
            },
            Buffers::Unbuffered => self,
        }
    }

    /// Whether the pending output must go to the resource before the
    /// stream takes another byte: a block that is full, a line that is
    /// complete.
    pub open spec fn flush_due(self) -> bool {
        match self.buffers {
            Buffers::Block { capacity, output, .. } => output.len() >= capacity,
            Buffers::Line { output, .. } => ends_line(output),
            Buffers::Unbuffered => false,
        }
    }

    /// How many of `bytes` a write takes into the buffer: in a block, as
    /// many as fill it; in a line, those up to the first line feed; none
    /// where a flush is due or there is no buffer.
    pub open spec fn takes(self, bytes: Seq<u8>) -> nat {
        if self.flush_due() {
            0
        } else {
            match self.buffers {
                Buffers::Block { capacity, output, .. } => least(
                    (capacity - output.len()) as nat,
                    bytes.len(),
                ),
                Buffers::Line { .. } => line_end(bytes),
                Buffers::Unbuffered => 0,
            }
        }
    }

    /// The stream after a write of `bytes`: what it takes is pending
    /// behind what was.
    pub open spec fn after_write(self, bytes: Seq<u8>) -> Stream {
        self.with_output(self.output() + bytes.take(self.takes(bytes) as int))
    }

    /// The stream after the resource reported `n` bytes written: nothing
    /// is pending, and the offset has moved on.
    pub open spec fn after_written(self, n: nat) -> Stream {
        Stream { offset: advanced(self.offset, n), ..self.with_output(Seq::empty()) }
    }

    /// The stream after the resource reported `n` bytes read straight into
    /// the buffer of a caller.
    pub open spec fn after_read(self, n: nat) -> Stream {
        Stream { offset: advanced(self.offset, n), eof: n == 0, ..self }
    }

    /// How many bytes a fetch asks for: a block, or one byte of a line.
    pub open spec fn fetch_len(self) -> nat {
        match self.buffers {
            Buffers::Block { capacity, .. } => capacity,
            Buffers::Line { .. } => 1,
            Buffers::Unbuffered => 0,
        }
    }

    /// The bytes of `data` that a fill keeps: no more than the fetch asked
    /// for.
    pub open spec fn kept(self, data: Seq<u8>) -> Seq<u8> {
        data.take(least(self.fetch_len(), data.len()) as int)
    }

    /// The stream after `data` arrived for a fetch: a block holds what
    /// arrived, a line has grown by it, the offset has moved on, and
    /// nothing arriving is the end of the resource.
    pub open spec fn after_fill(self, data: Seq<u8>) -> Stream {
        let kept = self.kept(data);
        let moved = Stream {
            offset: advanced(self.offset, kept.len()),
            eof: kept.len() == 0,
            ..self
        };
        match self.buffers {
            Buffers::Block { .. } => moved.with_input(kept),
            Buffers::Line { input, .. } => moved.with_input(input + kept),
            Buffers::Unbuffered => self,
        }
    }

    /// The stream with the buffers of `option` and `size`, all of them
    /// empty: blocks of `size` bytes and of `INITIAL_BUFFERING_LEN` at
    /// least.
    pub open spec fn rebuffered(self, option: BufferingOption, size: usize) -> Stream {
        Stream {
            buffers: match option {
                BufferingOption::Unbuffered => Buffers::Unbuffered,
                BufferingOption::LineBuffered => Buffers::Line {
                    input: Seq::empty(),
                    output: Seq::empty(),
                },
                BufferingOption::Buffered => Buffers::Block {
                    capacity: if size > INITIAL_BUFFERING_LEN {
                        size as nat
                    } else {
                        INITIAL_BUFFERING_LEN as nat
                    },
                    input: Seq::empty(),
                    output: Seq::empty(),
                },
            },
            ..self
        }
    }
}

/// Whether `request` asks for the transfer `pending`.
pub open spec fn asks_for(request: Option<Transfer>, pending: Option<(int, Seq<u8>)>) -> bool {
    match request {
        Some(t) => pending == Some((t.offset as int, t.data@)),
        None => pending.is_none(),
    }
}

/// The content of `buf` after `input` was served into it: as much of
/// `input` as `buf` holds, at its front.
pub open spec fn served(buf: Seq<u8>, input: Seq<u8>) -> Seq<u8> {
    input.take(least(buf.len(), input.len()) as int) + buf.skip(
        least(buf.len(), input.len()) as int,
    )
}

/// Copies the first `count` bytes of `bytes` into `block` at `at`.
fn copy_into(block: &mut Vec<u8>, at: usize, bytes: &[u8], count: usize)
    requires
        at + count <= old(block)@.len(),
        count <= bytes@.len(),
    ensures
        final(block)@ == old(block)@.take(at as int) + bytes@.take(count as int) + old(block)@.skip(
            at + count,
        ),
{
    let mut i: usize = 0;
    let len = block.len();
    assert(block@ =~= old(block)@.take(at as int) + bytes@.take(0) + old(block)@.skip(at as int));
    while i < count
        invariant
            i <= count,
            len == old(block)@.len(),
            at + count <= old(block)@.len(),
            count <= bytes@.len(),
            block@ == old(block)@.take(at as int) + bytes@.take(i as int) + old(block)@.skip(
                at + i,
            ),
        decreases count - i,
    {
        block[at + i] = bytes[i];
        assert(block@ =~= old(block)@.take(at as int) + bytes@.take(i + 1) + old(block)@.skip(
            at + i + 1,
        ));
        i = i + 1;
    }
}

/// Copies as much of `input` as fits to the front of `buf`.
fn serve(buf: &mut [u8], input: &[u8]) -> (count: usize)
    ensures
        count == least(old(buf)@.len(), input@.len()),
        final(buf)@ == served(old(buf)@, input@),
{
    let count = if buf.len() < input.len() {
        buf.len()
    } else {
        input.len()
    };
    let mut i: usize = 0;
    assert(buf@ =~= input@.take(0) + buf@.skip(0));
    while i < count
        invariant
            i <= count,
            count <= input@.len(),
            count <= buf@.len(),
            buf@.len() == old(buf)@.len(),
            buf@ == input@.take(i as int) + old(buf)@.skip(i as int),
        decreases count - i,
    {
        buf[i] = input[i];
        assert(buf@ =~= input@.take(i + 1) + old(buf)@.skip(i + 1));
        i = i + 1;
    }
    count
}

/// The number of bytes of `bytes` up to its first line feed, that one
/// counted.
fn line_take(bytes: &[u8]) -> (k: usize)
    ensures
        k == line_end(bytes@),
        k <= bytes@.len(),
        k < bytes@.len() ==> ends_line(bytes@.take(k as int)),
        forall|i: int| 0 <= i < k - 1 ==> bytes@[i] != LINE_FEED,
{
    let mut i: usize = 0;
    assert(bytes@.skip(0) =~= bytes@);
    while i < bytes.len()
        invariant
            i <= bytes@.len(),
            line_end(bytes@) == i + line_end(bytes@.skip(i as int)),
            forall|j: int| 0 <= j < i ==> bytes@[j] != LINE_FEED,
        decreases bytes@.len() - i,
    {
        proof {
            let rest = bytes@.skip(i as int);
            assert(rest[0] == bytes@[i as int]);
            assert(rest.skip(1) =~= bytes@.skip(i + 1));
        }
        if bytes[i] == LINE_FEED {
            assert(bytes@.take(i + 1).last() == LINE_FEED);
            return i + 1;
        }
        i = i + 1;
    }
    i
}

/// A stream: a resource handle with its logical offset, and buffers.
///
/// A stream decides and keeps count; the transfers themselves are made by
/// its user, who asks the stream what to do, does it, and reports back.
#[derive(Debug)]
pub struct File {
    inner: FileUnbuffered,
    buffering: BufferedIO,
}

impl View for File {
    type V = Stream;

    closed spec fn view(&self) -> Stream {
        Stream {
            resource: self.inner.resource,
            offset: self.inner.offset as int,
            eof: self.inner.eof,
            buffers: self.buffering@,
        }
    }
}

impl File {
    /// Whether the buffers are in order.
    pub closed spec fn wf(&self) -> bool {
        self.buffering.wf()
    }

    /// A stream in order is one in order to mathematics.
    pub proof fn lemma_wf(&self)
        requires
            self.wf(),
        ensures
            self@.wf(),
    {
    }

    /// A stream on the resource `res`, buffered as `option` says, that
    /// stands at the start of the resource, or at its end if `from_end`.
    pub fn from_res(res: usize, option: BufferingOption, from_end: bool) -> (file: Self)
        ensures
            file.wf(),
            file@ == (Stream {
                resource: res,
                offset: if from_end {
                    -1
                } else {
                    0
                },
                eof: false,
                buffers: Buffers::Unbuffered,
            }).rebuffered(option, 0),
    {
        let mut this = File {
            inner: FileUnbuffered { resource: res, offset: if from_end {
                -1
            } else {
                0
            }, eof: false },
            buffering: BufferedIO::Unbuffered,
        };
        let _ = this.set_buffering(option, 0);
        this
    }

    /// The handle of the resource.
    pub fn resource(&self) -> (res: usize)
        ensures
            res == self@.resource,
    {
        self.inner.resource
    }

    /// The logical offset: a place counted from the start, or, where it is
    /// negative, one more than a distance before the end.
    pub fn logical_offset(&self) -> (offset: isize)
        ensures
            offset == self@.offset,
    {
        self.inner.offset
    }

    /// Whether the last read from the resource found its end.
    pub fn is_eof(&self) -> (eof: bool)
        ensures
            eof == self@.eof,
    {
        self.inner.eof
    }

    /// The place in the resource where the stream stands, given the size
    /// of the resource.
    pub fn offset(&self, size: usize) -> (place: usize)
        ensures
            place == resolved(self@.offset, size as nat),
    {
        self.inner.offset(size)
    }

    /// Changes the position at which the stream reads and writes. The
    /// buffers stay as they are.
    pub fn seek(&mut self, wrench: SeekPosition)
        ensures
            final(self).wf() == old(self).wf(),
            final(self)@ == (Stream { offset: sought(old(self)@.offset, wrench), ..old(self)@ }),
    {
        self.inner.seek(wrench);
    }

    /// Changes how the stream is buffered. The new buffers are empty, and
    /// blocks have `size` bytes, `INITIAL_BUFFERING_LEN` at least. What was
    /// fetched is dropped. What was pending is returned as the transfer
    /// that the caller should try before anything else; the stream does
    /// not wait for it.
    pub fn set_buffering(&mut self, option: BufferingOption, size: usize) -> (pending: Option<
        Transfer,
    >)
        requires
            old(self).wf(),
        ensures
            final(self).wf(),
            final(self)@ == old(self)@.rebuffered(option, size),
            asks_for(pending, old(self)@.pending()),
    {
        let pending = self.flush();
        let cap = if size > INITIAL_BUFFERING_LEN {
            size
        } else {
            INITIAL_BUFFERING_LEN
        };
        self.buffering = match option {
            BufferingOption::Unbuffered => BufferedIO::Unbuffered,
            BufferingOption::LineBuffered => BufferedIO::LineBuffered {
                stdin_line: Vec::with_capacity(cap),
                stdout_line: Vec::with_capacity(cap),
            },
            BufferingOption::Buffered => {
                let stdin = vec![0u8; cap];
                let stdout = vec![0u8; cap];
                assert(stdin@.take(0) =~= Seq::<u8>::empty());
                assert(stdout@.take(0) =~= Seq::<u8>::empty());
                BufferedIO::SizeBuffered { stdin, stdin_pos: 0, stdout, stdout_pos: 0 }
            },
        };
        pending
    }

    /// The transfer that empties the buffer: the pending output, to be
    /// written at the offset. There is none where nothing is pending.
    pub fn flush(&self) -> (request: Option<Transfer>)
        requires
            self.wf(),
        ensures
            asks_for(request, self@.pending()),
    {
        match &self.buffering {
            BufferedIO::Unbuffered => None,
            BufferedIO::LineBuffered { stdout_line, .. } => {
                if stdout_line.len() == 0 {
                    None
                } else {
                    Some(
                        Transfer {
                            offset: self.inner.offset,
                            data: slice_to_vec(stdout_line.as_slice()),
                        },
                    )
                }
            },
            BufferedIO::SizeBuffered { stdout, stdout_pos, .. } => {
                if *stdout_pos == 0 {
                    None
                } else {
                    assert(stdout@.take(*stdout_pos as int) =~= stdout@.subrange(
                        0,
                        *stdout_pos as int,
                    ));
                    Some(
                        Transfer {
                            offset: self.inner.offset,
                            data: slice_to_vec(slice_subrange(stdout.as_slice(), 0, *stdout_pos)),
                        },
                    )
                }
            },
        }
    }
}

/// The bytes of a line up to its first line feed are those of the whole
/// line that a write takes; where no line feed ends them, they are all the
/// bytes there are.
pub proof fn lemma_line_end(bytes: Seq<u8>)
    ensures
        line_end(bytes) <= bytes.len(),
        !ends_line(bytes.take(line_end(bytes) as int)) ==> line_end(bytes) == bytes.len(),
        forall|i: int| 0 <= i < line_end(bytes) - 1 ==> bytes[i] != LINE_FEED,
    decreases bytes.len(),
{
    if bytes.len() == 0 {
    } else if bytes[0] == LINE_FEED {
        assert(bytes.take(1).last() == LINE_FEED);
    } else {
        let rest = bytes.skip(1);
        lemma_line_end(rest);
        let k = line_end(rest) as int;
        assert(bytes.take(k + 1).last() == rest.take(k).last() || k == 0);
        assert forall|i: int| 0 <= i < line_end(bytes) - 1 implies bytes[i] != LINE_FEED by {
            if i > 0 {
                assert(bytes[i] == rest[i - 1]);
            }
        }
    }
}

impl File {
    /// Takes bytes of `bytes` into the buffer, from the first on, until
    /// the buffer must go to the resource.
    ///
    /// A block takes bytes until it is full, a line up to the first line
    /// feed; a buffer that was left full or complete takes none. What is
    /// taken is pending behind what was. Where the buffer then is full or
    /// complete, the step asks for its transfer, and says how many bytes
    /// were taken; otherwise all bytes were taken and the write is done. A
    /// stream without buffers takes nothing and asks for the bytes to be
    /// written as they are.
    pub fn write(&mut self, bytes: &[u8]) -> (step: WriteStep)
        requires
            old(self).wf(),
        ensures
            final(self).wf(),
            final(self)@ == old(self)@.after_write(bytes@),
            match step {
                WriteStep::Direct { offset } => {
                    &&& old(self)@.buffers is Unbuffered
                    &&& offset == old(self)@.offset
                },
                WriteStep::Done { taken } => {
                    &&& !(old(self)@.buffers is Unbuffered)
                    &&& !final(self)@.flush_due()
                    &&& taken == bytes@.len()
                    &&& taken == old(self)@.takes(bytes@)
                },
                WriteStep::Flush { taken, request } => {
                    &&& !(old(self)@.buffers is Unbuffered)
                    &&& final(self)@.flush_due()
                    &&& taken == old(self)@.takes(bytes@)
                    &&& request.offset == old(self)@.offset
                    &&& request.data@ == final(self)@.output()
                },
            },
    {
        let mut buffering = BufferedIO::Unbuffered;
        core::mem::swap(&mut self.buffering, &mut buffering);
        let offset = self.inner.offset;
        match buffering {
            BufferedIO::Unbuffered => {
                self.buffering = BufferedIO::Unbuffered;
                WriteStep::Direct { offset }
            },
            BufferedIO::LineBuffered { stdin_line, stdout_line } => {
                let mut line = stdout_line;
                let ghost before = line@;
                let due = line.len() > 0 && line[line.len() - 1] == LINE_FEED;
                let taken = if due {
                    0
                } else {
                    line_take(bytes)
                };
                line.extend_from_slice(slice_subrange(bytes, 0, taken));
                proof {
                    lemma_line_end(bytes@);
                    assert(bytes@.subrange(0, taken as int) =~= bytes@.take(taken as int));
                    assert(line@ =~= before + bytes@.take(taken as int));
                    assert(old(self)@.buffers == (Buffers::Line {
                        input: stdin_line@,
                        output: before,
                    }));
                    assert(old(self)@.takes(bytes@) == taken);
                    if due {
                        assert(line@ =~= before);
                    } else if taken > 0 {
                        assert(line@.last() == bytes@.take(taken as int).last());
                    }
                }
                let flush = line.len() > 0 && line[line.len() - 1] == LINE_FEED;
                let step = if flush {
                    WriteStep::Flush {
                        taken,
                        request: Transfer { offset, data: slice_to_vec(line.as_slice()) },
                    }
                } else {
                    WriteStep::Done { taken }
                };
                self.buffering = BufferedIO::LineBuffered { stdin_line, stdout_line: line };
                step
            },
            BufferedIO::SizeBuffered { stdin, stdin_pos, stdout, stdout_pos } => {
                let mut block = stdout;
                let cap = block.len();
                let room = cap - stdout_pos;
                let taken = if bytes.len() < room {
                    bytes.len()
                } else {
                    room
                };
                let ghost before = block@;
                copy_into(&mut block, stdout_pos, bytes, taken);
                let pos = stdout_pos + taken;
                proof {
                    assert(block@.take(pos as int) =~= before.take(stdout_pos as int) + bytes@.take(
                        taken as int,
                    ));
                }
                let step = if pos >= cap {
                    assert(block@.take(pos as int) =~= block@.subrange(0, pos as int));
                    WriteStep::Flush {
                        taken,
                        request: Transfer {
                            offset,
                            data: slice_to_vec(slice_subrange(block.as_slice(), 0, pos)),
                        },
                    }
                } else {
                    WriteStep::Done { taken }
                };
                self.buffering = BufferedIO::SizeBuffered {
                    stdin,
                    stdin_pos,
                    stdout: block,
                    stdout_pos: pos,
                };
                step
            },
        }
    }

    /// Takes note that the resource took a transfer and reported `n`
    /// bytes: nothing is pending any more, and the offset has moved on by
    /// `n`, unless it stands for the end of the resource.
    pub fn written(&mut self, n: usize)
        requires
            old(self).wf(),
        ensures
            final(self).wf(),
            final(self)@ == old(self)@.after_written(n as nat),
    {
        self.inner.write_unbuffered(n);
        let mut buffering = BufferedIO::Unbuffered;
        core::mem::swap(&mut self.buffering, &mut buffering);
        self.buffering = match buffering {
            BufferedIO::Unbuffered => BufferedIO::Unbuffered,
            BufferedIO::LineBuffered { stdin_line, stdout_line } => {
                let mut line = stdout_line;
                line.clear();
                BufferedIO::LineBuffered { stdin_line, stdout_line: line }
            },
            BufferedIO::SizeBuffered { stdin, stdin_pos, stdout, stdout_pos } => {
                assert(stdout@.take(0) =~= Seq::<u8>::empty());
                BufferedIO::SizeBuffered { stdin, stdin_pos, stdout, stdout_pos: 0 }
            },
        };
    }

    /// Takes note of how the transfer of a flush went, and says how the
    /// flush goes on. After a success nothing is pending and the offset
    /// has moved on; the resource is then to be synced, and the outcome of
    /// that is the outcome of the flush. After a failure the stream is as
    /// it was; the failure is the outcome of the flush, and there is no
    /// sync.
    pub fn flushed(&mut self, transfer: Result<usize, IoError>) -> (go_on: Result<(), IoError>)
        requires
            old(self).wf(),
        ensures
            final(self).wf(),
            match transfer {
                Ok(n) => go_on.is_ok() && final(self)@ == old(self)@.after_written(n as nat),
                Err(e) => go_on == Err::<(), IoError>(e) && final(self)@ == old(self)@,
            },
    {
        match transfer {
            Ok(n) => {
                self.written(n);
                Ok(())
            },
            Err(e) => Err(e),
        }
    }

    /// Serves a read from what was fetched, or asks for a fetch.
    ///
    /// Where the stream holds fetched input, as much of it as `buf` takes
    /// is copied to the front of `buf`, from the first byte of the input
    /// on; the input stays as it is and is served again by the next read.
    /// Where it holds none, the step asks for a block, or for the first
    /// byte of a line. A stream without buffers asks for the read to be
    /// made into `buf` itself.
    pub fn read(&self, buf: &mut [u8]) -> (step: ReadStep)
        requires
            self.wf(),
        ensures
            step == match self@.buffers {
                Buffers::Unbuffered => ReadStep::Direct { offset: self@.offset as isize },
                _ => if self@.input().len() > 0 {
                    ReadStep::Done { count: least(old(buf)@.len(), self@.input().len()) as usize }
                } else {
                    ReadStep::Fetch {
                        offset: self@.offset as isize,
                        len: self@.fetch_len() as usize,
                    }
                },
            },
            final(buf)@ == if self@.input().len() > 0 {
                served(old(buf)@, self@.input())
            } else {
                old(buf)@
            },
    {
        match &self.buffering {
            BufferedIO::Unbuffered => ReadStep::Direct { offset: self.inner.offset },
            BufferedIO::LineBuffered { stdin_line, .. } => {
                if stdin_line.len() > 0 {
                    ReadStep::Done { count: serve(buf, stdin_line.as_slice()) }
                } else {
                    ReadStep::Fetch { offset: self.inner.offset, len: 1 }
                }
            },
            BufferedIO::SizeBuffered { stdin, stdin_pos, .. } => {
                if *stdin_pos > 0 {
                    assert(stdin@.take(*stdin_pos as int) =~= stdin@.subrange(
                        0,
                        *stdin_pos as int,
                    ));
                    ReadStep::Done {
                        count: serve(buf, slice_subrange(stdin.as_slice(), 0, *stdin_pos)),
                    }
                } else {
                    ReadStep::Fetch { offset: self.inner.offset, len: stdin.len() }
                }
            },
        }
    }

    /// Takes note that the resource reported `n` bytes read straight into
    /// the buffer of a caller: the offset has moved on, and a read of
    /// nothing is the end of the resource.
    pub fn read_done(&mut self, n: usize)
        ensures
            final(self).wf() == old(self).wf(),
            final(self)@ == old(self)@.after_read(n as nat),
    {
        self.inner.read_unbuffered(n);
    }

    /// Takes in what the resource gave for a fetch, and goes on with the
    /// read that asked for it.
    ///
    /// Of `data` the stream keeps what the fetch asked for at most. The
    /// offset moves on by it, and nothing arriving is the end of the
    /// resource. A block then holds `data`; it is served, and at the end
    /// of the resource the read is done with nothing. A line grows by
    /// `data`; once a line feed ends it, or the resource, it is served,
    /// and an empty line at the end of the resource is a read of nothing;
    /// before that the step asks for the next byte.
    pub fn fill(&mut self, data: &[u8], buf: &mut [u8]) -> (step: ReadStep)
        requires
            old(self).wf(),
        ensures
            final(self).wf(),
            final(self)@ == old(self)@.after_fill(data@),
            step == match old(self)@.buffers {
                Buffers::Unbuffered => ReadStep::Direct { offset: old(self)@.offset as isize },
                Buffers::Block { .. } => ReadStep::Done {
                    count: least(old(buf)@.len(), final(self)@.input().len()) as usize,
                },
                Buffers::Line { .. } => if old(self)@.kept(data@).len() > 0 && !ends_line(
                    final(self)@.input(),
                ) {
                    ReadStep::Fetch { offset: final(self)@.offset as isize, len: 1 }
                } else {
                    ReadStep::Done {
                        count: least(old(buf)@.len(), final(self)@.input().len()) as usize,
                    }
                },
            },
            final(buf)@ == if step is Done {
                served(old(buf)@, final(self)@.input())
            } else {
                old(buf)@
            },
    {
        let mut buffering = BufferedIO::Unbuffered;
        core::mem::swap(&mut self.buffering, &mut buffering);
        match buffering {
            BufferedIO::Unbuffered => {
                self.buffering = BufferedIO::Unbuffered;
                ReadStep::Direct { offset: self.inner.offset }
            },
            BufferedIO::LineBuffered { stdin_line, stdout_line } => {
                let mut line = stdin_line;
                let ghost before = line@;
                let kept: usize = if data.len() < 1 {
                    0
                } else {
                    1
                };
                assert(data@.take(kept as int) =~= data@.subrange(0, kept as int));
                line.extend_from_slice(slice_subrange(data, 0, kept));
                self.inner.read_unbuffered(kept);
                proof {
                    assert(old(self)@.buffers == (Buffers::Line {
                        input: before,
                        output: stdout_line@,
                    }));
                    assert(old(self)@.kept(data@) =~= data@.take(kept as int));
                    assert(line@ =~= before + old(self)@.kept(data@));
                }
                let more = kept > 0 && !(line.len() > 0 && line[line.len() - 1] == LINE_FEED);
                let step = if more {
                    ReadStep::Fetch { offset: self.inner.offset, len: 1 }
                } else {
                    let count = serve(buf, line.as_slice());
                    assert(line@.len() == 0 ==> served(old(buf)@, line@) =~= old(buf)@);
                    ReadStep::Done { count }
                };
                self.buffering = BufferedIO::LineBuffered { stdin_line: line, stdout_line };
                assert(self@ == old(self)@.after_fill(data@));
                step
            },
            BufferedIO::SizeBuffered { stdin, stdin_pos, stdout, stdout_pos } => {
                let mut block = stdin;
                let cap = block.len();
                let kept = if data.len() < cap {
                    data.len()
                } else {
                    cap
                };
                copy_into(&mut block, 0, data, kept);
                self.inner.read_unbuffered(kept);
                assert(block@.take(kept as int) =~= data@.take(kept as int));
                assert(block@.take(kept as int) =~= block@.subrange(0, kept as int));
                let count = serve(buf, slice_subrange(block.as_slice(), 0, kept));
                assert(kept == 0 ==> served(old(buf)@, block@.take(0)) =~= old(buf)@);
                self.buffering = BufferedIO::SizeBuffered {
                    stdin: block,
                    stdin_pos: kept,
                    stdout,
                    stdout_pos,
                };
                assert(old(self)@.kept(data@) =~= data@.take(kept as int));
                assert(self@ == old(self)@.after_fill(data@));
                ReadStep::Done { count }
            },
        }
    }

    /// Ends the stream. The result is the handle of the resource, which
    /// the caller releases, and before that the transfer of what was
    /// pending, which the caller should try first.
    pub fn close(self) -> (r: (usize, Option<Transfer>))
        requires
            self.wf(),
        ensures
            r.0 == self@.resource,
            asks_for(r.1, self@.pending()),
    {
        let pending = self.flush();
        (self.inner.resource, pending)
    }
}

/// A flush that has gone through leaves nothing to flush. After the
/// resource took the pending output, whatever count it reported, nothing is
/// pending: the next flush asks for no write, and neither does the one
/// after it, for as long as nothing is written to the stream.
pub proof fn lemma_flush_twice(s: Stream, n: nat)
    ensures
        s.after_written(n).pending().is_none(),
        s.after_written(n).output() == Seq::<u8>::empty(),
        s.pending().is_none() ==> s.output() == Seq::<u8>::empty(),
{
    if s.pending().is_none() {
        assert(s.output() =~= Seq::<u8>::empty());
    }
}

/// A stream that stands at the end of its resource stays there: neither a
/// write nor the report of a transfer moves the offset -1, so that every
/// transfer is asked for at the end as it then is.
pub proof fn lemma_append_stays(s: Stream, bytes: Seq<u8>, n: nat)
    requires
        s.offset == -1,
    ensures
        s.after_write(bytes).offset == -1,
        s.after_written(n).offset == -1,
        s.after_read(n).offset == -1,
        s.after_write(bytes).pending() matches Some(p) ==> p.0 == -1,
{
}

/// Every offset but the one that stands for the end moves on by what was
/// transferred: a transfer of `n` bytes at the offset `o` leaves `o + n`,
/// as long as the machine can count so far; beyond that the offset stops
/// at the largest that it can hold. Whether the last read found the end is
/// not touched by a write.
pub proof fn lemma_offset_moves(s: Stream, n: nat)
    requires
        s.offset != -1,
    ensures
        s.offset + n <= isize::MAX ==> s.after_written(n).offset == s.offset + n
            && s.after_read(n).offset == s.offset + n,
        s.offset + n > isize::MAX ==> s.after_written(n).offset == isize::MAX,
        s.after_written(n).eof == s.eof,
        s.after_written(n).resource == s.resource,
{
}

/// A block takes writes until it is full and not a byte more: a stream in
/// order that is not due for a flush takes all of a write that leaves
/// room, and of any other write exactly what fills the block, which is
/// then due.
pub proof fn lemma_block_fills(s: Stream, bytes: Seq<u8>)
    requires
        s.wf(),
        s.buffers is Block,
        !s.flush_due(),
    ensures
        s.after_write(bytes).wf(),
        s.output().len() + bytes.len() < s.buffers->capacity ==> s.takes(bytes) == bytes.len()
            && !s.after_write(bytes).flush_due(),
        s.output().len() + bytes.len() >= s.buffers->capacity ==> s.output().len() + s.takes(
            bytes,
        ) == s.buffers->capacity && s.after_write(bytes).flush_due(),
{
}

} // verus!
