//! What the calls of `stdio.h` compute: printing into a buffer of fixed
//! size, scanning a piece of memory, reading lines, and reading the mode of
//! an open and the origin of a seek.

use crate::ascii::{LINE_FEED, LOWER_A, LOWER_R, LOWER_W, LOWER_X, NUL, PERCENT};
use crate::errors::{IoError, PrintError};
use crate::file::{line_end, BufferingOption, Buffers, File, SeekPosition, Stream};
use crate::format::{
    copied, emission, fill, int_operand, int_text, lemma_fill_bounds, lemma_fill_singles,
    lemma_plain_format, overlay, printf_to, Arg, BufWriter, CWriter, LengthModifier,
};
use crate::number::{
    digits, lemma_digits_nonempty, lemma_digits_round_trip, number_text, sign_text, zeros, Kind,
};
use crate::parse::{
    decimal_format, lemma_over_is_over, lemma_scan_decimal, outcome_is, run, scan, signed_value,
    start, stops_at, taken, CReader, ScanState, ScanValue, Scanned, Scanner,
};
use vstd::prelude::*;

verus! {

/// The part of a buffer that takes output: all of it but its last byte,
/// which is kept for the terminator.
pub open spec fn body(buffer: Seq<u8>) -> Seq<u8> {
    if buffer.len() > 0 {
        buffer.drop_last()
    } else {
        buffer
    }
}

/// What `vsnprintf` leaves in a buffer that held `before`: the output in
/// all bytes but the last, as far as it fits, and, unless an argument
/// failed, a zero byte behind what was copied.
pub open spec fn printed(before: Seq<u8>, fmt: Seq<u8>, args: Seq<Arg>) -> Seq<u8> {
    if before.len() == 0 {
        before
    } else {
        let (runs, failure) = emission(fmt, 0, args, 0);
        let done = fill(body(before), runs);
        let all = done.buffer.push(before.last());
        if failure.is_none() {
            all.update(done.position as int, NUL)
        } else {
            all
        }
    }
}

/// What `vsnprintf` returns for a buffer that held `before`: the failure of
/// an argument, or else the count of the writes as the buffer reports
/// them.
pub open spec fn print_count(before: Seq<u8>, fmt: Seq<u8>, args: Seq<Arg>) -> Result<
    usize,
    PrintError,
> {
    match emission(fmt, 0, args, 0).1 {
        Some(e) => Err(e),
        None => Ok(fill(body(before), emission(fmt, 0, args, 0).0).count),
    }
}

/// Prints `args` into `s` as `fmt` says, keeps the last byte of `s` free
/// for the terminator, and ends the output with a zero byte.
///
/// Output that does not fit is dropped. The result is the count of the
/// writes as a fixed buffer reports them: what was copied, and every byte
/// of a write that found the buffer full. Where an argument is missing or
/// of the wrong type, the output before it stays in `s` without a
/// terminator, and the failure is returned. An empty `s` is left alone.
pub fn vsnprintf(s: &mut [u8], fmt: &[u8], args: &[Arg]) -> (r: Result<usize, PrintError>)
    ensures
        final(s)@ == printed(old(s)@, fmt@, args@),
        r == print_count(old(s)@, fmt@, args@),
{
    let n = s.len();
    let cap: usize = if n > 0 {
        n - 1
    } else {
        0
    };
    let ghost whole = s@;
    let (head, tail) = s.split_at_mut(cap);
    let ghost tail0 = tail@;
    let mut writer = BufWriter::new(head);
    let ghost runs = emission(fmt@, 0, args@, 0).0;
    let ghost done = fill(writer.held(), runs);
    let r = printf_to(&mut writer, fmt, args);
    let position = writer.finish();
    proof {
        lemma_fill_bounds(body(whole), runs);
        assert(body(whole) =~= whole.subrange(0, cap as int));
        assert(tail0 =~= whole.subrange(cap as int, whole.len() as int));
        assert(n > 0 ==> done.buffer + tail0 =~= done.buffer.push(whole.last()));
    }
    match r {
        Err(e) => {
            assert(head@ + tail@ =~= printed(whole, fmt@, args@));
            Err(e)
        },
        Ok(count) => {
            if position < cap {
                head[position] = NUL;
                assert(head@ + tail@ =~= (done.buffer + tail0).update(position as int, NUL));
            } else if n > 0 {
                tail[0] = NUL;
                assert(head@ + tail@ =~= (done.buffer + tail0).update(position as int, NUL));
            } else {
                assert(head@ + tail@ =~= whole);
            }
            Ok(count)
        },
    }
}

/// A format that holds no `%` is copied into the buffer as it is, as far as
/// all bytes but the last of the buffer take it, a zero byte follows what
/// was copied, and the length of the format is reported.
pub proof fn lemma_plain_format_printed(before: Seq<u8>, fmt: Seq<u8>, args: Seq<Arg>)
    requires
        forall|i: int| 0 <= i < fmt.len() ==> fmt[i] != PERCENT,
        fmt.len() <= usize::MAX,
        before.len() > 0,
    ensures
        print_count(before, fmt, args) == Ok::<usize, PrintError>(fmt.len() as usize),
        printed(before, fmt, args) == overlay(body(before), 0, fmt).push(before.last()).update(
            copied(body(before).len(), fmt.len()) as int,
            NUL,
        ),
{
    lemma_plain_format(fmt, args, 0, 0);
    assert(fmt.subrange(0, fmt.len() as int) =~= fmt);
    lemma_fill_singles(body(before), fmt);
}

/// Scans the bytes of `s` as `fmt` says.
///
/// The result is the outcome of [`scan`] on all of `s`: the bytes that
/// literals and conversions took, the number of conversions that matched,
/// and their values in order. The byte on which a number or a string ends
/// is not taken.
pub fn sscanf(s: &[u8], fmt: &[u8]) -> (r: (usize, usize, Vec<ScanValue>))
    ensures
        outcome_is(r, scan(fmt@, s@)),
{
    let mut scanner = Scanner::new(fmt);
    let mut i: usize = 0;
    assert(s@.subrange(0, 0) =~= Seq::<u8>::empty());
    while i < s.len() && scanner.needs_input()
        invariant
            i <= s@.len(),
            scanner.fmt@ == fmt@,
            scanner@ == run(fmt@, start(fmt@), s@.subrange(0, i as int)),
            scanner.consumed <= i,
        decreases s@.len() - i,
    {
        proof {
            assert(s@.subrange(0, i + 1).drop_last() =~= s@.subrange(0, i as int));
        }
        scanner.feed(Some(s[i]));
        i = i + 1;
    }
    proof {
        if i < s@.len() {
            lemma_over_is_over(fmt@, start(fmt@), s@, i as int);
        } else {
            assert(s@.subrange(0, i as int) =~= s@);
        }
    }
    scanner.feed(None);
    scanner.finish()
}

/// The number that a sign and a magnitude stand for.
pub open spec fn value_of(negative: bool, magnitude: nat) -> int {
    if negative {
        -(magnitude as int)
    } else {
        magnitude as int
    }
}

/// The decimal text of a number of 32 bits with sign, written without a
/// width, reads as that number.
pub proof fn lemma_decimal_text_reads_back(negative: bool, magnitude: nat)
    requires
        -0x8000_0000 <= value_of(negative, magnitude) <= 0x7fff_ffff,
    ensures
        signed_value(number_text(negative, magnitude, Kind::Normal, None)) == Some(
            value_of(negative, magnitude),
        ),
{
    let body = digits(magnitude, Kind::Normal);
    let text = number_text(negative, magnitude, Kind::Normal, None);
    lemma_digits_round_trip(magnitude, Kind::Normal);
    lemma_digits_nonempty(magnitude, Kind::Normal);
    assert(zeros(0) =~= Seq::<u8>::empty());
    assert(text =~= sign_text(negative) + body);
    if negative {
        assert(text.skip(1) =~= body);
    } else {
        assert(text =~= body);
        assert(text[0] == body[0]);
    }
}

/// Printing and scanning undo each other. Whatever integer a signed
/// decimal conversion prints without a precision, under any length
/// modifier, `%d` reads back from the output, all of it and to its last
/// byte, as long as the number is one of 32 bits with sign.
pub proof fn lemma_print_scan_round_trip(arg: Arg, length: LengthModifier)
    requires
        length != LengthModifier::LongDouble,
        int_operand(arg, false, length) matches Ok((negative, magnitude))
            && -0x8000_0000 <= value_of(negative, magnitude) <= 0x7fff_ffff,
    ensures
        int_text(arg, false, Kind::Normal, None, length) matches Ok(text) && scan(
            decimal_format(),
            text,
        ) == (ScanState {
            index: 2,
            pending: Seq::empty(),
            consumed: text.len(),
            values: seq![
                Scanned::Int(
                    value_of(
                        int_operand(arg, false, length)->Ok_0.0,
                        int_operand(arg, false, length)->Ok_0.1,
                    ),
                ),
            ],
            done: true,
        }),
{
    let (negative, magnitude) = int_operand(arg, false, length)->Ok_0;
    let text = number_text(negative, magnitude, Kind::Normal, None);
    lemma_decimal_text_reads_back(negative, magnitude);
    lemma_scan_decimal(text, value_of(negative, magnitude), Seq::empty());
    assert(text + Seq::<u8>::empty() =~= text);
}

/// An `int` printed with `%d` and scanned with `%d` is the same `int`, for
/// every `int` from the least to the greatest: the output is one run of
/// bytes, and its scan takes all of it and yields the number.
pub proof fn lemma_int_round_trip(v: i32)
    ensures
        emission(decimal_format(), 0, seq![Arg::Int(v)], 0) == (
            seq![number_text(v < 0, vstd::math::abs(v as int) as nat, Kind::Normal, None)],
            None::<PrintError>,
        ),
        scan(
            decimal_format(),
            number_text(v < 0, vstd::math::abs(v as int) as nat, Kind::Normal, None),
        ) == (ScanState {
            index: 2,
            pending: Seq::empty(),
            consumed: number_text(
                v < 0,
                vstd::math::abs(v as int) as nat,
                Kind::Normal,
                None,
            ).len(),
            values: seq![Scanned::Int(v as int)],
            done: true,
        }),
{
    let fmt = decimal_format();
    let args = seq![Arg::Int(v)];
    let text = number_text(v < 0, vstd::math::abs(v as int) as nat, Kind::Normal, None);
    lemma_print_scan_round_trip(Arg::Int(v), LengthModifier::Plain);
    assert(emission(fmt, 2, args, 1) == (Seq::<Seq<u8>>::empty(), None::<PrintError>));
    assert(seq![text] + Seq::<Seq<u8>>::empty() =~= seq![text]);
}

/// What the mode string of an open asks for.
#[derive(Debug, Clone, Copy, PartialEq, Eq, Structural)]
pub struct OpenMode {
    /// The stream is read from: the mode holds `r`.
    pub read: bool,
    /// The stream is written to: the mode holds `w`.
    pub write: bool,
    /// The file is made if it is not there: the mode holds `w` or `a`.
    pub create: bool,
    /// The stream starts at the end of the file: the mode holds `a`.
    pub append: bool,
    /// The file must not be there yet: the mode holds `x`.
    pub exclusive: bool,
}

/// What the mode string `mode` asks for. Each letter counts wherever it
/// stands, and any other byte counts for nothing.
pub open spec fn mode_of(mode: Seq<u8>) -> OpenMode {
    OpenMode {
        read: mode.contains(LOWER_R),
        write: mode.contains(LOWER_W),
        create: mode.contains(LOWER_W) || mode.contains(LOWER_A),
        append: mode.contains(LOWER_A),
        exclusive: mode.contains(LOWER_X),
    }
}

/// Reads the mode string of an open.
pub fn fopen_mode(mode: &[u8]) -> (r: OpenMode)
    ensures
        r == mode_of(mode@),
{
    let mut r = OpenMode {
        read: false,
        write: false,
        create: false,
        append: false,
        exclusive: false,
    };
    let mut i: usize = 0;
    assert(mode@.take(0) =~= Seq::<u8>::empty());
    while i < mode.len()
        invariant
            i <= mode@.len(),
            r == mode_of(mode@.take(i as int)),
        decreases mode@.len() - i,
    {
        let b = mode[i];
        proof {
            let head = mode@.take(i as int);
            let more = mode@.take(i + 1);
            assert(more =~= head.push(b));
            assert forall|x: u8| more.contains(x) <==> (head.contains(x) || x == b) by {
                if head.contains(x) {
                    let k = choose|k: int| 0 <= k < head.len() && head[k] == x;
                    assert(more[k] == x);
                }
                if x == b {
                    assert(more[i as int] == x);
                }
            }
        }
        if b == LOWER_W {
            r.write = true;
            r.create = true;
        } else if b == LOWER_A {
            r.create = true;
            r.append = true;
        } else if b == LOWER_R {
            r.read = true;
        } else if b == LOWER_X {
            r.exclusive = true;
        }
        i = i + 1;
    }
    assert(mode@.take(i as int) =~= mode@);
    r
}

impl OpenMode {
    /// Whether the open may go on once it is known whether the file is
    /// `missing`: an exclusive open needs a file that is not there.
    pub fn admits(&self, missing: bool) -> (r: bool)
        ensures
            r == (!self.exclusive || missing),
    {
        !self.exclusive || missing
    }

    /// The stream that the open gives on the resource `res`: without
    /// buffers, at the start of the file, or at its end in append mode.
    pub fn stream(&self, res: usize) -> (file: File)
        ensures
            file.wf(),
            file@ == (Stream {
                resource: res,
                offset: if self.append {
                    -1
                } else {
                    0
                },
                eof: false,
                buffers: Buffers::Unbuffered,
            }),
    {
        File::from_res(res, BufferingOption::Unbuffered, self.append)
    }
}

/// Where a seek by `offset` goes under the origin `whence`, which is 0 for
/// the start, 1 for the place of the stream and 2 for the end.
///
/// From the start a negative offset counts back from the end. At the end
/// an offset counts back from the end, and a negative one counts from the
/// start. Any other origin is no seek.
pub open spec fn whence_position(offset: i32, whence: i32) -> Option<SeekPosition> {
    if whence == 0 {
        if offset >= 0 {
            Some(SeekPosition::Start(offset as usize))
        } else {
            Some(SeekPosition::End((-offset) as usize))
        }
    } else if whence == 1 {
        Some(SeekPosition::Current(offset as isize))
    } else if whence == 2 {
        if offset >= 0 {
            Some(SeekPosition::End(offset as usize))
        } else {
            Some(SeekPosition::Start((-offset) as usize))
        }
    } else {
        None
    }
}

/// Where a seek by `offset` goes under the origin `whence`.
pub fn seek_position(offset: i32, whence: i32) -> (r: Option<SeekPosition>)
    ensures
        r == whence_position(offset, whence),
{
    let distance: usize = if offset >= 0 {
        offset as usize
    } else {
        (-(offset as i64)) as usize
    };
    if whence == 0 {
        if offset >= 0 {
            Some(SeekPosition::Start(distance))
        } else {
            Some(SeekPosition::End(distance))
        }
    } else if whence == 1 {
        Some(SeekPosition::Current(offset as isize))
    } else if whence == 2 {
        if offset >= 0 {
            Some(SeekPosition::End(distance))
        } else {
            Some(SeekPosition::Start(distance))
        }
    } else {
        None
    }
}

/// A reading that goes on to the first line feed and takes `limit` bytes at
/// most, stops where the line ends or the limit is: what it stops at is
/// the length of the line, or the limit where that is less.
pub proof fn lemma_line_stop(upcoming: Seq<u8>, limit: nat, n: nat)
    requires
        n <= taken(upcoming.len(), limit),
        forall|i: int| 0 <= i < n - 1 ==> upcoming[i] != LINE_FEED,
        n < taken(upcoming.len(), limit) ==> n > 0 && upcoming[n - 1] == LINE_FEED,
    ensures
        n == taken(line_end(upcoming), limit),
    decreases upcoming.len(),
{
    if upcoming.len() == 0 {
    } else if upcoming[0] == LINE_FEED {
        if n >= 2 {
            assert(upcoming[0] != LINE_FEED);
        }
    } else if n == 0 {
    } else {
        let rest = upcoming.skip(1);
        assert forall|i: int| 0 <= i < n - 2 implies rest[i] != LINE_FEED by {
            assert(rest[i] == upcoming[i + 1]);
        }
        if n - 1 < taken(rest.len(), (limit - 1) as nat) {
            assert(rest[n - 2] == upcoming[n - 1]);
        }
        lemma_line_stop(rest, (limit - 1) as nat, (n - 1) as nat);
    }
}

/// Reads a line from `stream` into `s` and puts a zero byte behind it. The
/// last byte of `s` is kept for the terminator, so that the line is cut
/// after one byte less than `s` holds; an empty `s` is left alone and
/// nothing is read.
///
/// The count is the number of bytes read. They stand at the front of `s`,
/// the terminator follows them, and what stands behind it is as it was. No
/// byte before the last of them is a line feed: the line ends with the
/// first line feed, the end of the input, or the room. Only a failed read
/// is a failure.
///
/// Of a stream that foretells what it gives, the line is known: it is what
/// the stream has up to its first line feed, that one too, cut to the room.
pub fn fgets<R: CReader>(s: &mut [u8], stream: &mut R) -> (r: Result<usize, IoError>)
    ensures
        final(s)@.len() == old(s)@.len(),
        old(s)@.len() == 0 ==> r == Ok::<usize, IoError>(0),
        r matches Ok(n) ==> old(s)@.len() > 0 ==> {
            &&& n < old(s)@.len()
            &&& final(s)@[n as int] == NUL
            &&& final(s)@.skip(n + 1) == old(s)@.skip(n + 1)
            &&& forall|i: int| 0 <= i < n - 1 ==> final(s)@[i] != LINE_FEED
        },
        old(stream).foretold() && old(s)@.len() > 0 ==> final(stream).foretold() && (r matches Ok(n) && {
            &&& n == taken(line_end(old(stream).upcoming()), (old(s)@.len() - 1) as nat)
            &&& final(stream).upcoming() == old(stream).upcoming().skip(n as int)
            &&& final(s)@ == old(stream).upcoming().take(n as int).push(NUL) + old(s)@.skip(n + 1)
        }),
{
    let size = s.len();
    if size == 0 {
        return Ok(0);
    }
    let max = size - 1;
    let ghost whole = s@;
    let ghost up = stream.upcoming();
    let ghost known = stream.foretold();
    let (line, rest) = s.split_at_mut(max);
    let ghost line0 = line@;
    let ghost rest0 = rest@;
    let line_feed = |c: u8| -> (stop: bool)
        ensures
            stop == (c == LINE_FEED),
        { c == LINE_FEED };
    let amount = match stream.read_bytes_until_or_eof(line, line_feed) {
        Ok(n) => n,
        Err(e) => {
            return Err(e);
        },
    };
    let ghost read = line@;
    if amount < max {
        line[amount] = NUL;
    } else {
        rest[0] = NUL;
    }
    proof {
        let end = line@ + rest@;
        assert(line0 =~= whole.subrange(0, max as int));
        assert(rest0 =~= whole.subrange(max as int, size as int));
        assert forall|j: int| amount < j < size implies end[j] == whole[j] by {
            if j < max {
                assert(read.skip(amount as int)[j - amount] == read[j]);
                assert(line0.skip(amount as int)[j - amount] == line0[j]);
            }
        }
        assert(end.skip(amount + 1) =~= whole.skip(amount + 1));
        assert forall|i: int| 0 <= i < amount - 1 implies end[i] != LINE_FEED by {
            assert(call_ensures(line_feed, (read[i],), false));
        }
        if known {
            assert(stops_at(line_feed, up, max as nat, amount as nat));
            assert forall|i: int| 0 <= i < amount - 1 implies up[i] != LINE_FEED by {
                assert(call_ensures(line_feed, (up[i],), false));
            }
            lemma_line_stop(up, max as nat, amount as nat);
            assert(end =~= up.take(amount as int).push(NUL) + whole.skip(amount + 1));
        }
    }
    Ok(amount)
}

/// Reads a line from `stream`, of any length: the bytes up to the first
/// line feed, that one too, or up to the end of the input.
///
/// No byte of the line before its last is a line feed. Only a failed read
/// is a failure, and what was read before it is lost.
///
/// Of a stream that foretells what it gives, the line is known: it is what
/// the stream has up to its first line feed, that one too.
pub fn fgetline<R: CReader>(stream: &mut R) -> (r: Result<Vec<u8>, IoError>)
    ensures
        r matches Ok(line) ==> forall|i: int| 0 <= i < line@.len() - 1 ==> line@[i] != LINE_FEED,
        old(stream).foretold() ==> final(stream).foretold() && (r matches Ok(line) && {
            let n = taken(line_end(old(stream).upcoming()), usize::MAX as nat);
            &&& line@ == old(stream).upcoming().take(n as int)
            &&& final(stream).upcoming() == old(stream).upcoming().skip(n as int)
        }),
{
    let mut buf: Vec<u8> = Vec::new();
    let ghost up = stream.upcoming();
    let ghost known = stream.foretold();
    let line_feed = |c: u8| -> (stop: bool)
        ensures
            stop == (c == LINE_FEED),
        { c == LINE_FEED };
    match stream.read_bytes_until_or_eof_alloc(&mut buf, usize::MAX, line_feed) {
        Ok(n) => {
            proof {
                assert forall|i: int| 0 <= i < buf@.len() - 1 implies buf@[i] != LINE_FEED by {
                    assert(call_ensures(line_feed, (buf@[i],), false));
                }
                if known {
                    assert(stops_at(line_feed, up, usize::MAX as nat, n as nat));
                    assert forall|i: int| 0 <= i < n - 1 implies up[i] != LINE_FEED by {
                        assert(call_ensures(line_feed, (up[i],), false));
                    }
                    lemma_line_stop(up, usize::MAX as nat, n as nat);
                    assert(buf@ =~= up.take(n as int));
                }
            }
            Ok(buf)
        },
        Err(e) => Err(e),
    }
}

} // verus!
