//! The printing engine: sinks, arguments, and the walk over a format.

use crate::ascii::{
    DIGIT_0, DIGIT_9, DOT, LOWER_C, LOWER_D, LOWER_H, LOWER_I, LOWER_J, LOWER_L, LOWER_O,
    LOWER_P, LOWER_S, LOWER_T, LOWER_U, LOWER_X, LOWER_Z, NUL, PERCENT, STAR, UPPER_L, UPPER_X,
};
use crate::errors::{map_error, IoError, PrintError};
use crate::number::{digit_text, digits, format_number, number_text, Kind};
use crate::string::{c_len, lemma_c_len, strlen};
use vstd::prelude::*;
use vstd::slice::{slice_subrange, slice_to_vec};

verus! {

/// Something that takes bytes: a stream, a fixed buffer.
///
/// A sink may say that it is a buffer of fixed size, and what it holds. Of
/// such a sink every write is known in advance: it never fails, it copies
/// what fits behind what it holds, and it reports what it copied, or, once
/// it is full, all it was handed. A sink may also say that it takes all it
/// is handed, and what that was. Of any other sink only so much is known
/// as holds of every write.
pub trait CWriter {
    /// Whether the sink is a buffer of fixed size that says in `held` and
    /// `filled` what it holds.
    open spec fn fixed(&self) -> bool {
        false
    }

    /// The content of the buffer, where the sink is one.
    open spec fn held(&self) -> Seq<u8> {
        Seq::empty()
    }

    /// The place of the next write in the buffer, where the sink is one.
    open spec fn filled(&self) -> nat {
        0
    }

    /// Whether the sink takes all that it is handed and keeps account of it
    /// in `handed`: no write to it fails, and each reports all its bytes.
    open spec fn takes_all(&self) -> bool {
        false
    }

    /// What the sink was handed so far, one run for each write and in the
    /// order of the writes, where it keeps account.
    open spec fn handed(&self) -> Seq<Seq<u8>> {
        Seq::empty()
    }

    /// The memory that the sink was lent and writes to, where there is
    /// such memory. A write never makes a sink write elsewhere: what its
    /// lender finds in the end is found in the same memory as before.
    open spec fn store(&self) -> Option<&mut [u8]> {
        None
    }

    /// Hands `bytes` to the sink. The count is how many of them the sink
    /// reports as transferred, never more than it was given.
    fn write_bytes(&mut self, bytes: &[u8]) -> (r: Result<usize, IoError>)
        ensures
            r matches Ok(n) ==> n <= bytes@.len(),
            old(self).fixed() ==> final(self).fixed() && wrote_as_fixed(
                old(self).held(),
                old(self).filled(),
                bytes@,
                r,
                final(self).held(),
                final(self).filled(),
            ),
            old(self).takes_all() ==> final(self).takes_all() && r == Ok::<usize, IoError>(
                bytes@.len() as usize,
            ) && final(self).handed() == old(self).handed().push(bytes@),
            old(self).store() matches Some(before) ==> (final(self).store() matches Some(after)
                && final(after)@ == final(before)@),
    ;

    /// Hands the one byte `b` to the sink.
    fn write_byte(&mut self, b: u8) -> (r: Result<usize, IoError>)
        ensures
            r matches Ok(n) ==> n <= 1,
            old(self).fixed() ==> final(self).fixed() && wrote_as_fixed(
                old(self).held(),
                old(self).filled(),
                seq![b],
                r,
                final(self).held(),
                final(self).filled(),
            ),
            old(self).takes_all() ==> final(self).takes_all() && r == Ok::<usize, IoError>(
                1 as usize,
            ) && final(self).handed() == old(self).handed().push(seq![b]),
            old(self).store() matches Some(before) ==> (final(self).store() matches Some(after)
                && final(after)@ == final(before)@),
    {
        let one = [b];
        assert(one@ =~= seq![b]);
        self.write_bytes(&one)
    }
}

/// How many bytes a fixed buffer copies when `len` bytes arrive and `room`
/// bytes of it are free.
pub open spec fn copied(room: nat, len: nat) -> nat {
    if len < room {
        len
    } else {
        room
    }
}

/// What a fixed buffer reports for a write of `len` bytes with `room` bytes
/// free: the bytes it copied, or, once it is full, all of them.
pub open spec fn reported(room: nat, len: nat) -> nat {
    if room == 0 {
        len
    } else {
        copied(room, len)
    }
}

/// The content of a fixed buffer after `bytes` arrived at `position`: as
/// many of them as fit, in place, and nothing past the end.
pub open spec fn overlay(buffer: Seq<u8>, position: nat, bytes: Seq<u8>) -> Seq<u8> {
    if position >= buffer.len() {
        buffer
    } else {
        let amount = copied((buffer.len() - position) as nat, bytes.len());
        buffer.subrange(0, position as int) + bytes.subrange(0, amount as int) + buffer.subrange(
            (position + amount) as int,
            buffer.len() as int,
        )
    }
}

/// `a + b`, or the largest `usize` where the sum is above it.
pub open spec fn saturating(a: int, b: int) -> usize {
    if a + b > usize::MAX {
        usize::MAX
    } else {
        (a + b) as usize
    }
}

/// A fixed buffer while runs of bytes arrive: its content, the place of the
/// next write, and the count that the writes have reported so far.
pub struct Filled {
    pub buffer: Seq<u8>,
    pub position: nat,
    pub count: usize,
}

/// The bytes that are free in a buffer of `len` bytes at `position`.
pub open spec fn room_at(len: nat, position: nat) -> nat {
    if position < len {
        (len - position) as nat
    } else {
        0
    }
}

/// A fixed buffer after `run` arrived in one write: it is copied as far as
/// it fits, and reported as the buffer reports it.
pub open spec fn put(before: Filled, run: Seq<u8>) -> Filled {
    let room = room_at(before.buffer.len(), before.position);
    Filled {
        buffer: overlay(before.buffer, before.position, run),
        position: before.position + copied(room, run.len()),
        count: saturating(before.count as int, reported(room, run.len()) as int),
    }
}

/// A fixed buffer after each of `chunks` arrived in a write of its own.
pub open spec fn fill_from(start: Filled, chunks: Seq<Seq<u8>>) -> Filled
    decreases chunks.len(),
{
    if chunks.len() == 0 {
        start
    } else {
        put(fill_from(start, chunks.drop_last()), chunks.last())
    }
}

/// A fixed buffer that held `buffer` after each of `chunks` arrived in a
/// write of its own, the first of them at the start of the buffer.
pub open spec fn fill(buffer: Seq<u8>, chunks: Seq<Seq<u8>>) -> Filled {
    fill_from(Filled { buffer, position: 0, count: 0 }, chunks)
}

/// What a write of `bytes` is to a fixed buffer that holds `held` and stands
/// at `filled`: it succeeds and reports as such a buffer does, and leaves
/// the buffer with what fitted of `bytes` in place.
pub open spec fn wrote_as_fixed(
    held: Seq<u8>,
    filled: nat,
    bytes: Seq<u8>,
    r: Result<usize, IoError>,
    held_after: Seq<u8>,
    filled_after: nat,
) -> bool {
    let room = room_at(held.len(), filled);
    &&& r == Ok::<usize, IoError>(reported(room, bytes.len()) as usize)
    &&& held_after == overlay(held, filled, bytes)
    &&& filled_after == filled + copied(room, bytes.len())
}

/// A sink over a buffer of fixed size. Writes are clipped at the end of the
/// buffer; a write to a full buffer copies nothing and still reports every
/// byte as transferred.
#[derive(Debug)]
pub struct BufWriter<'a>(&'a mut [u8], usize);

impl<'a> BufWriter<'a> {
    /// The bytes in the buffer now.
    pub closed spec fn buffer(&self) -> Seq<u8> {
        self.0@
    }

    /// Where the next write lands.
    pub closed spec fn spec_position(&self) -> usize {
        self.1
    }

    /// The borrowed buffer itself; its final value is what the lender sees
    /// once the writer is gone.
    pub closed spec fn target(&self) -> &'a mut [u8] {
        self.0
    }

    /// How many bytes are free.
    pub open spec fn room(&self) -> nat {
        if self.spec_position() < self.buffer().len() {
            (self.buffer().len() - self.spec_position()) as nat
        } else {
            0
        }
    }

    /// A writer at the start of `b`.
    pub fn new(b: &'a mut [u8]) -> (w: Self)
        ensures
            w.buffer() == old(b)@,
            w.spec_position() == 0,
            final(w.target())@ == final(b)@,
    {
        BufWriter(b, 0)
    }

    /// Ends the writing and gives the number of bytes copied. What the
    /// buffer holds now is what its lender finds in it.
    pub fn finish(self) -> (copied: usize)
        ensures
            copied == self.spec_position(),
            final(self.target())@ == self.buffer(),
    {
        self.1
    }

    /// Where the next write lands: the number of bytes copied so far.
    #[verifier::when_used_as_spec(spec_position)]
    pub fn position(&self) -> (p: usize)
        ensures
            p == self.spec_position(),
    {
        self.1
    }
}

impl<'a> CWriter for BufWriter<'a> {
    /// A writer over memory is a fixed buffer.
    open spec fn fixed(&self) -> bool {
        true
    }

    open spec fn held(&self) -> Seq<u8> {
        self.buffer()
    }

    open spec fn filled(&self) -> nat {
        self.spec_position() as nat
    }

    open spec fn store(&self) -> Option<&mut [u8]> {
        Some(self.target())
    }

    fn write_bytes(&mut self, bytes: &[u8]) -> (r: Result<usize, IoError>)
        ensures
            r == Ok::<usize, IoError>(reported(old(self).room(), bytes@.len()) as usize),
            final(self).buffer() == overlay(
                old(self).buffer(),
                old(self).spec_position() as nat,
                bytes@,
            ),
            final(self).spec_position() == old(self).spec_position() + copied(
                old(self).room(),
                bytes@.len(),
            ),
            final(final(self).target())@ == final(old(self).target())@,
    {
        let cap = self.0.len();
        if cap <= self.1 {
            return Ok(bytes.len());
        }
        let room = cap - self.1;
        let amount = if bytes.len() < room {
            bytes.len()
        } else {
            room
        };
        let start = self.1;
        let mut i: usize = 0;
        while i < amount
            invariant
                i <= amount,
                amount <= bytes@.len(),
                start + amount <= cap,
                self.1 == start,
                self.0@.len() == cap,
                old(self).0@.len() == cap,
                self.0@ == old(self).0@.subrange(0, start as int) + bytes@.subrange(0, i as int)
                    + old(self).0@.subrange(start + i, cap as int),
                final(self.0)@ == final(old(self).0)@,
            decreases amount - i,
        {
            self.0[start + i] = bytes[i];
            assert(self.0@ =~= old(self).0@.subrange(0, start as int) + bytes@.subrange(0, i + 1)
                + old(self).0@.subrange(start + i + 1, cap as int));
            i = i + 1;
        }
        self.1 = start + amount;
        Ok(amount)
    }
}

/// The size that a length modifier gives to the argument of a conversion.
#[derive(Debug, Clone, Copy, PartialEq, Eq, Structural)]
pub enum LengthModifier {
    /// No modifier: `int`.
    Plain,
    /// `hh`: `char`, 8 bits.
    Char,
    /// `h`: `short`, 16 bits.
    Short,
    /// `l`: `long`, 64 bits.
    Long,
    /// `ll`: `long long`, 64 bits.
    LongLong,
    /// `L`: `long double`.
    LongDouble,
    /// `z`: `size_t`.
    SizeT,
    /// `t`: `ptrdiff_t`.
    PtrDiffT,
    /// `j`: `intmax_t`, of pointer width here.
    MaxT,
}

/// One argument of a formatted call, tagged with the type it was passed as.
#[derive(Debug, Clone, PartialEq, Eq)]
pub enum Arg {
    /// A signed integer of 32 bits; `char` and `short` arrive as this.
    Int(i32),
    /// An unsigned integer of 32 bits.
    UInt(u32),
    /// A signed integer of 64 bits: `long` and `long long`.
    Long(i64),
    /// An unsigned integer of 64 bits.
    ULong(u64),
    /// An unsigned integer of pointer width.
    Size(usize),
    /// A signed integer of pointer width.
    PtrDiff(isize),
    /// An address.
    Pointer(usize),
    /// The bytes that a string pointer points at; the string ends before
    /// their first zero byte, or with them.
    Str(Vec<u8>),
    /// A floating-point number, as the decimal text that the caller made of
    /// it.
    Double(Vec<u8>),
}

/// The kind of argument that a conversion asks for.
#[derive(Debug, Clone, Copy, PartialEq, Eq, Structural)]
pub enum ArgKind {
    /// `Arg::Int`.
    Int,
    /// `Arg::UInt`.
    UInt,
    /// `Arg::Long`.
    Long,
    /// `Arg::ULong`.
    ULong,
    /// `Arg::Size`.
    Size,
    /// `Arg::PtrDiff`.
    PtrDiff,
    /// `Arg::Pointer`.
    Pointer,
    /// `Arg::Str`.
    Str,
    /// `Arg::Double`, as text with so many digits behind the point, or as
    /// many as the number needs where none are given.
    Double(Option<usize>),
}

/// The kind of argument that an integer conversion asks for under the
/// modifier `length`, which is not `L`: `char` and `short` are passed as
/// `int`, `long` and `long long` are of 64 bits, and `size_t`, `ptrdiff_t`
/// and `intmax_t` are of pointer width.
pub open spec fn int_kind(unsigned: bool, length: LengthModifier) -> ArgKind {
    match length {
        LengthModifier::Plain => if unsigned {
            ArgKind::UInt
        } else {
            ArgKind::Int
        },
        LengthModifier::Char | LengthModifier::Short => ArgKind::Int,
        LengthModifier::Long | LengthModifier::LongLong => if unsigned {
            ArgKind::ULong
        } else {
            ArgKind::Long
        },
        LengthModifier::SizeT => ArgKind::Size,
        LengthModifier::PtrDiffT => ArgKind::PtrDiff,
        LengthModifier::MaxT => if unsigned {
            ArgKind::Size
        } else {
            ArgKind::PtrDiff
        },
        LengthModifier::LongDouble => ArgKind::Double(None),
    }
}

/// The kind of argument that an integer conversion asks for: with `L` a
/// floating-point number as text of the given precision, else an integer.
pub open spec fn wanted_kind(
    unsigned: bool,
    precision: Option<usize>,
    length: LengthModifier,
) -> ArgKind {
    if length == LengthModifier::LongDouble {
        ArgKind::Double(precision)
    } else {
        int_kind(unsigned, length)
    }
}

/// `v` cut to its low `bits` bits and read as unsigned.
pub open spec fn low_bits(v: int, bits: nat) -> nat {
    if bits == 8 {
        (v % 256) as nat
    } else {
        (v % 65536) as nat
    }
}

/// The sign and magnitude of a signed value.
pub open spec fn signed(v: int) -> (bool, nat) {
    if v < 0 {
        (true, (-v) as nat)
    } else {
        (false, v as nat)
    }
}

/// The sign and magnitude of `v` cut to its low `bits` bits and read as
/// signed.
pub open spec fn signed_low_bits(v: int, bits: nat) -> (bool, nat) {
    let u = low_bits(v, bits);
    if bits == 8 {
        if u >= 128 {
            (true, (256 - u) as nat)
        } else {
            (false, u)
        }
    } else {
        if u >= 32768 {
            (true, (65536 - u) as nat)
        } else {
            (false, u)
        }
    }
}

/// What an integer conversion prints of `arg`, as sign and magnitude, or the
/// reason it cannot. The modifier and the signedness of the conversion pick
/// the tag that the argument must have; `char` and `short` are cut out of an
/// `int`. A pointer-difference argument under an unsigned conversion prints
/// as its two's complement of pointer width, in every radix.
pub open spec fn int_operand(arg: Arg, unsigned: bool, length: LengthModifier) -> Result<
    (bool, nat),
    PrintError,
> {
    match (length, arg) {
        (LengthModifier::Plain, Arg::Int(v)) if !unsigned => Ok(signed(v as int)),
        (LengthModifier::Plain, Arg::UInt(v)) if unsigned => Ok((false, v as nat)),
        (LengthModifier::Char, Arg::Int(v)) => if unsigned {
            Ok((false, low_bits(v as int, 8)))
        } else {
            Ok(signed_low_bits(v as int, 8))
        },
        (LengthModifier::Short, Arg::Int(v)) => if unsigned {
            Ok((false, low_bits(v as int, 16)))
        } else {
            Ok(signed_low_bits(v as int, 16))
        },
        (LengthModifier::Long, Arg::Long(v)) if !unsigned => Ok(signed(v as int)),
        (LengthModifier::LongLong, Arg::Long(v)) if !unsigned => Ok(signed(v as int)),
        (LengthModifier::Long, Arg::ULong(v)) if unsigned => Ok((false, v as nat)),
        (LengthModifier::LongLong, Arg::ULong(v)) if unsigned => Ok((false, v as nat)),
        (LengthModifier::SizeT, Arg::Size(v)) => Ok((false, v as nat)),
        (LengthModifier::MaxT, Arg::Size(v)) if unsigned => Ok((false, v as nat)),
        (LengthModifier::MaxT, Arg::PtrDiff(v)) if !unsigned => Ok(signed(v as int)),
        (LengthModifier::PtrDiffT, Arg::PtrDiff(v)) => if unsigned && v < 0 {
            Ok((false, (v + usize::MAX + 1) as nat))
        } else {
            Ok(signed(v as int))
        },
        _ => Err(PrintError::WrongArgument(int_kind(unsigned, length))),
    }
}

/// The text of an integer conversion under the modifier `length`: with `L`
/// the text that a floating-point argument brings, else the digits of an
/// integer argument behind its sign, with zeros before them that bring
/// them up to `precision` digits.
pub open spec fn int_text(
    arg: Arg,
    unsigned: bool,
    kind: Kind,
    precision: Option<usize>,
    length: LengthModifier,
) -> Result<Seq<u8>, PrintError> {
    if length == LengthModifier::LongDouble {
        match arg {
            Arg::Double(text) => Ok(text@),
            _ => Err(PrintError::WrongArgument(ArgKind::Double(precision))),
        }
    } else {
        match int_operand(arg, unsigned, length) {
            Ok((negative, magnitude)) => Ok(number_text(negative, magnitude, kind, precision)),
            Err(e) => Err(e),
        }
    }
}

/// The length modifier that stands at `at` in `fmt`, and where the format
/// goes on behind it.
pub open spec fn length_at(fmt: Seq<u8>, at: int) -> (Option<LengthModifier>, int) {
    if at < 0 || at >= fmt.len() {
        (None, at)
    } else if fmt[at] == LOWER_H {
        if at + 1 < fmt.len() && fmt[at + 1] == LOWER_H {
            (Some(LengthModifier::Char), at + 2)
        } else {
            (Some(LengthModifier::Short), at + 1)
        }
    } else if fmt[at] == LOWER_L {
        if at + 1 < fmt.len() && fmt[at + 1] == LOWER_L {
            (Some(LengthModifier::LongLong), at + 2)
        } else {
            (Some(LengthModifier::Long), at + 1)
        }
    } else if fmt[at] == LOWER_J {
        (Some(LengthModifier::MaxT), at + 1)
    } else if fmt[at] == LOWER_Z {
        (Some(LengthModifier::SizeT), at + 1)
    } else if fmt[at] == LOWER_T {
        (Some(LengthModifier::PtrDiffT), at + 1)
    } else if fmt[at] == UPPER_L {
        (Some(LengthModifier::LongDouble), at + 1)
    } else {
        (None, at)
    }
}

/// What one conversion hands to the sink and how many arguments it takes.
pub struct Converted {
    /// The byte runs, one write each.
    pub chunks: Seq<Seq<u8>>,
    /// The number of arguments taken.
    pub taken: nat,
}

/// The argument at `at`, which a conversion wants to be of `kind`, or the
/// failure that there is none.
pub open spec fn arg_at(args: Seq<Arg>, at: int, kind: ArgKind) -> Result<Arg, PrintError> {
    if 0 <= at < args.len() {
        Ok(args[at])
    } else {
        Err(PrintError::MissingArgument(kind))
    }
}

/// The text of the integer conversion that takes its argument at `at`.
pub open spec fn next_int_text(
    args: Seq<Arg>,
    at: int,
    unsigned: bool,
    kind: Kind,
    precision: Option<usize>,
    length: LengthModifier,
) -> Result<Seq<u8>, PrintError> {
    match arg_at(args, at, wanted_kind(unsigned, precision, length)) {
        Ok(arg) => int_text(arg, unsigned, kind, precision, length),
        Err(e) => Err(e),
    }
}

/// The modifier of a conversion, `int` where none is written.
pub open spec fn length_or_plain(length: Option<LengthModifier>) -> LengthModifier {
    match length {
        Some(l) => l,
        None => LengthModifier::Plain,
    }
}

/// One run of bytes as the only write of a conversion that took one
/// argument.
pub open spec fn one_chunk(text: Result<Seq<u8>, PrintError>) -> Result<Converted, PrintError> {
    match text {
        Ok(t) => Ok(Converted { chunks: seq![t], taken: 1 }),
        Err(e) => Err(e),
    }
}

/// What the conversion character `spec` writes, with its modifier and
/// precision already read and its argument at `at`.
///
/// `c` writes the low byte of an `int`; `d` and `i` a signed decimal; `u`,
/// `o`, `x` and `X` an unsigned number in radix 10, 8 and 16; `p` an address
/// as `0x` and its digits in radix 16; `s` a string up to its first zero
/// byte, and at most `precision` bytes of it. Any other character writes
/// nothing and takes nothing, unless a modifier stands before it: then a
/// signed decimal of that size is written, and the character after it.
pub open spec fn convert(
    spec: u8,
    args: Seq<Arg>,
    at: int,
    length: Option<LengthModifier>,
    precision: Option<usize>,
) -> Result<Converted, PrintError> {
    let plain = length_or_plain(length);
    if spec == LOWER_C {
        match arg_at(args, at, ArgKind::Int) {
            Ok(Arg::Int(v)) => Ok(
                Converted { chunks: seq![seq![low_bits(v as int, 8) as u8]], taken: 1 },
            ),
            Ok(_) => Err(PrintError::WrongArgument(ArgKind::Int)),
            Err(e) => Err(e),
        }
    } else if spec == LOWER_D || spec == LOWER_I {
        one_chunk(next_int_text(args, at, false, Kind::Normal, precision, plain))
    } else if spec == LOWER_U {
        one_chunk(next_int_text(args, at, true, Kind::Normal, precision, plain))
    } else if spec == LOWER_O {
        one_chunk(next_int_text(args, at, true, Kind::Octal, precision, plain))
    } else if spec == LOWER_X {
        one_chunk(next_int_text(args, at, true, Kind::Hex, precision, plain))
    } else if spec == UPPER_X {
        one_chunk(next_int_text(args, at, true, Kind::BigHex, precision, plain))
    } else if spec == LOWER_P {
        match arg_at(args, at, ArgKind::Pointer) {
            Ok(Arg::Pointer(v)) => Ok(
                Converted {
                    chunks: seq![seq![DIGIT_0, LOWER_X] + digits(v as nat, Kind::Hex)],
                    taken: 1,
                },
            ),
            Ok(_) => Err(PrintError::WrongArgument(ArgKind::Pointer)),
            Err(e) => Err(e),
        }
    } else if spec == LOWER_S {
        match arg_at(args, at, ArgKind::Str) {
            Ok(Arg::Str(bytes)) => Ok(
                Converted {
                    chunks: seq![bytes@.subrange(0, string_len(bytes@, precision) as int)],
                    taken: 1,
                },
            ),
            Ok(_) => Err(PrintError::WrongArgument(ArgKind::Str)),
            Err(e) => Err(e),
        }
    } else {
        match length {
            Some(l) => match next_int_text(args, at, false, Kind::Normal, precision, l) {
                Ok(t) => Ok(Converted { chunks: seq![t, seq![spec]], taken: 1 }),
                Err(e) => Err(e),
            },
            None => Ok(Converted { chunks: Seq::empty(), taken: 0 }),
        }
    }
}

/// How many bytes `%s` writes of the string at the start of `bytes`: its
/// length, and no more than `precision`.
pub open spec fn string_len(bytes: Seq<u8>, precision: Option<usize>) -> nat {
    match precision {
        Some(p) => if (p as nat) < c_len(bytes) { p as nat } else { c_len(bytes) },
        None => c_len(bytes),
    }
}

/// One step of the walk over a format.
pub enum Step {
    /// The walk is over.
    End,
    /// `chunks` go to the sink, one write each; the walk goes on at `index`
    /// of the format with the argument at `arg` next.
    Emit { chunks: Seq<Seq<u8>>, index: int, arg: int },
    /// An argument is missing or of the wrong type.
    Fail { error: PrintError },
}

/// The step that reads the modifier and the conversion at `at`, after a
/// precision or without one.
pub open spec fn conversion_step(
    fmt: Seq<u8>,
    at: int,
    args: Seq<Arg>,
    arg: int,
    precision: Option<usize>,
) -> Step {
    let (length, spec_at) = length_at(fmt, at);
    if spec_at >= fmt.len() {
        Step::End
    } else {
        match convert(fmt[spec_at], args, arg, length, precision) {
            Ok(c) => Step::Emit { chunks: c.chunks, index: spec_at + 1, arg: arg + c.taken },
            Err(e) => Step::Fail { error: e },
        }
    }
}

/// The step that the walk takes at `index` of `fmt` with the argument at
/// `arg` next.
///
/// A byte other than `%` goes to the sink as it is. `%%` writes one `%`. A
/// `%` at the end of the format ends the walk, and so does `%.` at the end.
/// After `%.` a digit is the precision, and `*` takes it from the next
/// argument, which must be an unsigned `int`; any other byte there is
/// skipped with the two before it.
pub open spec fn step_at(fmt: Seq<u8>, index: int, args: Seq<Arg>, arg: int) -> Step {
    if index < 0 || index >= fmt.len() {
        Step::End
    } else if fmt[index] != PERCENT {
        Step::Emit { chunks: seq![seq![fmt[index]]], index: index + 1, arg }
    } else if index + 1 >= fmt.len() {
        Step::End
    } else if fmt[index + 1] == PERCENT {
        Step::Emit { chunks: seq![seq![PERCENT]], index: index + 2, arg }
    } else if fmt[index + 1] == DOT {
        if index + 2 >= fmt.len() {
            Step::End
        } else if fmt[index + 2] == STAR {
            match arg_at(args, arg, ArgKind::UInt) {
                Ok(Arg::UInt(p)) => conversion_step(
                    fmt,
                    index + 3,
                    args,
                    arg + 1,
                    Some(p as usize),
                ),
                Ok(_) => Step::Fail { error: PrintError::WrongArgument(ArgKind::UInt) },
                Err(e) => Step::Fail { error: e },
            }
        } else if DIGIT_0 <= fmt[index + 2] <= DIGIT_9 {
            conversion_step(fmt, index + 3, args, arg, Some((fmt[index + 2] - DIGIT_0) as usize))
        } else {
            Step::Emit { chunks: Seq::empty(), index: index + 3, arg }
        }
    } else {
        conversion_step(fmt, index + 1, args, arg, None)
    }
}

/// Everything that the walk hands to the sink from `index` on, one write per
/// run, and the argument failure that ends it, if one does.
pub open spec fn emission(fmt: Seq<u8>, index: int, args: Seq<Arg>, arg: int) -> (
    Seq<Seq<u8>>,
    Option<PrintError>,
)
    decreases fmt.len() - index,
{
    match step_at(fmt, index, args, arg) {
        Step::End => (Seq::empty(), None),
        Step::Fail { error } => (Seq::empty(), Some(error)),
        Step::Emit { chunks, index: next, arg: next_arg } => {
            if next > index {
                let (rest, failure) = emission(fmt, next, args, next_arg);
                (chunks + rest, failure)
            } else {
                (chunks, None)
            }
        },
    }
}

/// The byte runs that `chunks` hold.
pub open spec fn views(chunks: Seq<Vec<u8>>) -> Seq<Seq<u8>> {
    Seq::new(chunks.len(), |i: int| chunks[i]@)
}

/// The number of bytes in all of `chunks`.
pub open spec fn total_len(chunks: Seq<Seq<u8>>) -> nat
    decreases chunks.len(),
{
    if chunks.len() == 0 {
        0
    } else {
        total_len(chunks.drop_last()) + chunks.last().len()
    }
}

/// The kind of argument that an integer conversion asks for under the
/// modifier `length`.
pub fn int_kind_of(unsigned: bool, length: LengthModifier) -> (kind: ArgKind)
    ensures
        kind == int_kind(unsigned, length),
{
    match length {
        LengthModifier::Plain => if unsigned {
            ArgKind::UInt
        } else {
            ArgKind::Int
        },
        LengthModifier::Char | LengthModifier::Short => ArgKind::Int,
        LengthModifier::Long | LengthModifier::LongLong => if unsigned {
            ArgKind::ULong
        } else {
            ArgKind::Long
        },
        LengthModifier::SizeT => ArgKind::Size,
        LengthModifier::PtrDiffT => ArgKind::PtrDiff,
        LengthModifier::MaxT => if unsigned {
            ArgKind::Size
        } else {
            ArgKind::PtrDiff
        },
        LengthModifier::LongDouble => ArgKind::Double(None),
    }
}

/// The sign and magnitude that an integer conversion prints of `arg`.
pub fn operand(arg: &Arg, unsigned: bool, length: LengthModifier) -> (r: Result<
    (bool, u64),
    PrintError,
>)
    ensures
        r == match int_operand(*arg, unsigned, length) {
            Ok((negative, magnitude)) => Ok::<(bool, u64), PrintError>(
                (negative, magnitude as u64),
            ),
            Err(e) => Err(e),
        },
        int_operand(*arg, unsigned, length) matches Ok((_, magnitude)) ==> magnitude
            <= u64::MAX,
{
    let wrong = PrintError::WrongArgument(int_kind_of(unsigned, length));
    match (length, arg) {
        (LengthModifier::Plain, Arg::Int(v)) => if unsigned {
            Err(wrong)
        } else {
            Ok(magnitude_of(*v as i64))
        },
        (LengthModifier::Plain, Arg::UInt(v)) => if unsigned {
            Ok((false, *v as u64))
        } else {
            Err(wrong)
        },
        (LengthModifier::Char, Arg::Int(v)) => {
            let low: u64 = low_byte(*v) as u64;
            if unsigned {
                Ok((false, low))
            } else if low >= 128 {
                Ok((true, 256 - low))
            } else {
                Ok((false, low))
            }
        },
        (LengthModifier::Short, Arg::Int(v)) => {
            let low: u64 = low_short(*v) as u64;
            if unsigned {
                Ok((false, low))
            } else if low >= 32768 {
                Ok((true, 65536 - low))
            } else {
                Ok((false, low))
            }
        },
        (LengthModifier::Long, Arg::Long(v))
        | (LengthModifier::LongLong, Arg::Long(v)) => if unsigned {
            Err(wrong)
        } else {
            Ok(magnitude_of(*v))
        },
        (LengthModifier::Long, Arg::ULong(v))
        | (LengthModifier::LongLong, Arg::ULong(v)) => if unsigned {
            Ok((false, *v))
        } else {
            Err(wrong)
        },
        (LengthModifier::SizeT, Arg::Size(v)) => Ok((false, *v as u64)),
        (LengthModifier::MaxT, Arg::Size(v)) => if unsigned {
            Ok((false, *v as u64))
        } else {
            Err(wrong)
        },
        (LengthModifier::MaxT, Arg::PtrDiff(v)) => if unsigned {
            Err(wrong)
        } else {
            Ok(magnitude_of(*v as i64))
        },
        (LengthModifier::PtrDiffT, Arg::PtrDiff(v)) => {
            if unsigned && *v < 0 {
                let below: usize = (-(*v + 1)) as usize;
                Ok((false, (usize::MAX - below) as u64))
            } else {
                Ok(magnitude_of(*v as i64))
            }
        },
        _ => Err(wrong),
    }
}

/// The sign and magnitude of `v`.
fn magnitude_of(v: i64) -> (r: (bool, u64))
    ensures
        r.0 == signed(v as int).0,
        r.1 == signed(v as int).1,
{
    if v < 0 {
        (true, (-(v + 1)) as u64 + 1)
    } else {
        (false, v as u64)
    }
}

/// The walk of the printing engine over a format: a place in the format, a
/// place in the arguments, and the count of bytes that sinks have reported.
#[derive(Debug)]
pub struct CPrinter<'f, 'a> {
    /// The format.
    pub fmt: &'f [u8],
    /// Where in the format the walk stands.
    pub curr_index: usize,
    /// The arguments, in the order of the call.
    pub args: &'a [Arg],
    /// Which argument the next conversion takes.
    pub next_arg: usize,
    /// The bytes that sinks have reported as transferred, up to the largest
    /// `usize`.
    pub wrote: usize,
}

impl<'f, 'a> CPrinter<'f, 'a> {
    /// The step that the walk takes next.
    pub open spec fn next_step(&self) -> Step {
        step_at(self.fmt@, self.curr_index as int, self.args@, self.next_arg as int)
    }

    /// Everything that is still to go to a sink, and the argument failure
    /// that the walk ends in, if any.
    pub open spec fn remaining(&self) -> (Seq<Seq<u8>>, Option<PrintError>) {
        emission(self.fmt@, self.curr_index as int, self.args@, self.next_arg as int)
    }

    /// Whether `other` walks the same format with the same arguments.
    pub open spec fn same_input(&self, other: &Self) -> bool {
        self.fmt@ == other.fmt@ && self.args@ == other.args@
    }

    /// A walk at the start of `fmt`, with nothing written and every argument
    /// still to take.
    pub fn new(fmt: &'f [u8], args: &'a [Arg]) -> (p: Self)
        ensures
            p.fmt@ == fmt@,
            p.args@ == args@,
            p.curr_index == 0,
            p.next_arg == 0,
            p.wrote == 0,
    {
        CPrinter { fmt, curr_index: 0, args, next_arg: 0, wrote: 0 }
    }

    /// The byte of the format that the walk stands at, if it has not reached
    /// the end.
    pub fn peek(&self) -> (b: Option<u8>)
        ensures
            b == if self.curr_index < self.fmt@.len() {
                Some(self.fmt@[self.curr_index as int])
            } else {
                None
            },
    {
        if self.curr_index < self.fmt.len() {
            Some(self.fmt[self.curr_index])
        } else {
            None
        }
    }

    /// The byte of the format that the walk stands at, which it then leaves
    /// behind; at the end nothing moves.
    pub fn next(&mut self) -> (b: Option<u8>)
        ensures
            final(self).same_input(old(self)),
            final(self).next_arg == old(self).next_arg,
            final(self).wrote == old(self).wrote,
            old(self).curr_index < old(self).fmt@.len() ==> b == Some(
                old(self).fmt@[old(self).curr_index as int],
            ) && final(self).curr_index == old(self).curr_index + 1,
            old(self).curr_index >= old(self).fmt@.len() ==> b.is_none() && final(self).curr_index
                == old(self).curr_index,
    {
        if self.curr_index < self.fmt.len() {
            let byte = self.fmt[self.curr_index];
            self.curr_index = self.curr_index + 1;
            Some(byte)
        } else {
            None
        }
    }

    /// The next argument, which is thereby taken; `kind` is what the
    /// conversion asks for, and is named in the failure if none is left.
    pub fn arg(&mut self, kind: ArgKind) -> (r: Result<&'a Arg, PrintError>)
        ensures
            final(self).same_input(old(self)),
            final(self).curr_index == old(self).curr_index,
            final(self).wrote == old(self).wrote,
            match r {
                Ok(a) => arg_at(old(self).args@, old(self).next_arg as int, kind) == Ok::<
                    Arg,
                    PrintError,
                >(*a)
                    && final(self).next_arg == old(self).next_arg + 1,
                Err(e) => arg_at(old(self).args@, old(self).next_arg as int, kind) == Err::<
                    Arg,
                    PrintError,
                >(e)
                    && final(self).next_arg == old(self).next_arg,
            },
    {
        if self.next_arg < self.args.len() {
            let a: &'a Arg = &self.args[self.next_arg];
            self.next_arg = self.next_arg + 1;
            Ok(a)
        } else {
            Err(PrintError::MissingArgument(kind))
        }
    }

    /// Reads the length modifier that the walk stands at, if there is one.
    pub fn try_make_length(&mut self) -> (length: Option<LengthModifier>)
        ensures
            final(self).same_input(old(self)),
            final(self).next_arg == old(self).next_arg,
            final(self).wrote == old(self).wrote,
            (length, final(self).curr_index as int) == length_at(
                old(self).fmt@,
                old(self).curr_index as int,
            ),
    {
        let maybe_length = match self.peek() {
            Some(b) => b,
            None => { return None; },
        };
        if maybe_length == LOWER_H {
            self.next();
            if self.peek() == Some(LOWER_H) {
                self.next();
                Some(LengthModifier::Char)
            } else {
                Some(LengthModifier::Short)
            }
        } else if maybe_length == LOWER_L {
            self.next();
            if self.peek() == Some(LOWER_L) {
                self.next();
                Some(LengthModifier::LongLong)
            } else {
                Some(LengthModifier::Long)
            }
        } else if maybe_length == LOWER_J {
            self.next();
            Some(LengthModifier::MaxT)
        } else if maybe_length == LOWER_Z {
            self.next();
            Some(LengthModifier::SizeT)
        } else if maybe_length == LOWER_T {
            self.next();
            Some(LengthModifier::PtrDiffT)
        } else if maybe_length == UPPER_L {
            self.next();
            Some(LengthModifier::LongDouble)
        } else {
            None
        }
    }

    /// Takes the next argument and makes the text of an integer conversion
    /// of it.
    pub fn next_int(
        &mut self,
        unsigned: bool,
        kind: Kind,
        precision: Option<usize>,
        length: LengthModifier,
    ) -> (r: Result<Vec<u8>, PrintError>)
        ensures
            final(self).same_input(old(self)),
            final(self).curr_index == old(self).curr_index,
            final(self).wrote == old(self).wrote,
            match r {
                Ok(text) => next_int_text(
                    old(self).args@,
                    old(self).next_arg as int,
                    unsigned,
                    kind,
                    precision,
                    length,
                ) == Ok::<Seq<u8>, PrintError>(text@) && final(self).next_arg == old(self).next_arg
                    + 1,
                Err(e) => next_int_text(
                    old(self).args@,
                    old(self).next_arg as int,
                    unsigned,
                    kind,
                    precision,
                    length,
                ) == Err::<Seq<u8>, PrintError>(e),
            },
    {
        if length == LengthModifier::LongDouble {
            return match self.arg(ArgKind::Double(precision))? {
                Arg::Double(text) => Ok(slice_to_vec(text.as_slice())),
                _ => Err(PrintError::WrongArgument(ArgKind::Double(precision))),
            };
        }
        let arg = self.arg(int_kind_of(unsigned, length))?;
        let (negative, magnitude) = operand(arg, unsigned, length)?;
        Ok(format_number(negative, magnitude, kind, precision))
    }
}

/// `v` cut to its low 8 bits.
fn low_byte(v: i32) -> (b: u8)
    ensures
        b == low_bits(v as int, 8),
{
    (((v as i64 + 0x8000_0000) as u64) % 256) as u8
}

/// `v` cut to its low 16 bits.
fn low_short(v: i32) -> (b: u16)
    ensures
        b == low_bits(v as int, 16),
{
    (((v as i64 + 0x8000_0000) as u64) % 65536) as u16
}

/// One run of bytes as a list of runs.
fn single(chunk: Vec<u8>) -> (chunks: Vec<Vec<u8>>)
    ensures
        views(chunks@) == seq![chunk@],
{
    let mut chunks: Vec<Vec<u8>> = Vec::new();
    chunks.push(chunk);
    assert(views(chunks@) =~= seq![chunk@]);
    chunks
}

/// The one byte `b` as a run.
fn byte_run(b: u8) -> (chunk: Vec<u8>)
    ensures
        chunk@ == seq![b],
{
    let mut chunk: Vec<u8> = Vec::new();
    chunk.push(b);
    chunk
}

/// An address as `0x` and its digits in radix 16.
fn pointer_text(address: usize) -> (text: Vec<u8>)
    ensures
        text@ == seq![DIGIT_0, LOWER_X] + digits(address as nat, Kind::Hex),
{
    let body = digit_text(address as u64, Kind::Hex);
    let mut text: Vec<u8> = Vec::new();
    text.push(DIGIT_0);
    text.push(LOWER_X);
    let mut i: usize = 0;
    while i < body.len()
        invariant
            i <= body@.len(),
            text@ == seq![DIGIT_0, LOWER_X] + body@.subrange(0, i as int),
        decreases body@.len() - i,
    {
        text.push(body[i]);
        assert(body@.subrange(0, i + 1) =~= body@.subrange(0, i as int).push(body@[i as int]));
        i = i + 1;
    }
    assert(body@.subrange(0, body@.len() as int) =~= body@);
    text
}

/// The bytes that `%s` writes of the string at the start of `bytes`.
fn string_run(bytes: &[u8], precision: Option<usize>) -> (chunk: Vec<u8>)
    ensures
        chunk@ == bytes@.subrange(0, string_len(bytes@, precision) as int),
{
    let len = strlen(bytes);
    let n = match precision {
        Some(p) => if p < len { p } else { len },
        None => len,
    };
    slice_to_vec(slice_subrange(bytes, 0, n))
}

impl<'f, 'a> CPrinter<'f, 'a> {
    /// Reads the conversion character that the walk stands at and makes
    /// what it writes; `length` and `precision` are what was read before it.
    /// At the end of the format there is no conversion, and the walk is
    /// over.
    pub fn next_fmt(&mut self, length: Option<LengthModifier>, precision: Option<usize>) -> (r:
        Result<Option<Vec<Vec<u8>>>, PrintError>)
        ensures
            final(self).same_input(old(self)),
            final(self).wrote == old(self).wrote,
            old(self).curr_index >= old(self).fmt@.len() ==> r matches Ok(None),
            old(self).curr_index < old(self).fmt@.len() ==> match convert(
                old(self).fmt@[old(self).curr_index as int],
                old(self).args@,
                old(self).next_arg as int,
                length,
                precision,
            ) {
                Ok(c) => {
                    &&& r matches Ok(Some(chunks)) && views(chunks@) == c.chunks
                    &&& final(self).next_arg == old(self).next_arg + c.taken
                    &&& final(self).curr_index == old(self).curr_index + 1
                },
                Err(e) => r matches Err(f) && f == e,
            },
    {
        let spec = match self.next() {
            Some(b) => b,
            None => { return Ok(None); },
        };
        let plain = match length {
            Some(l) => l,
            None => LengthModifier::Plain,
        };
        if spec == LOWER_C {
            match self.arg(ArgKind::Int)? {
                Arg::Int(v) => Ok(Some(single(byte_run(low_byte(*v))))),
                _ => Err(PrintError::WrongArgument(ArgKind::Int)),
            }
        } else if spec == LOWER_D || spec == LOWER_I {
            let text = self.next_int(false, Kind::Normal, precision, plain)?;
            Ok(Some(single(text)))
        } else if spec == LOWER_U {
            let text = self.next_int(true, Kind::Normal, precision, plain)?;
            Ok(Some(single(text)))
        } else if spec == LOWER_O {
            let text = self.next_int(true, Kind::Octal, precision, plain)?;
            Ok(Some(single(text)))
        } else if spec == LOWER_X {
            let text = self.next_int(true, Kind::Hex, precision, plain)?;
            Ok(Some(single(text)))
        } else if spec == UPPER_X {
            let text = self.next_int(true, Kind::BigHex, precision, plain)?;
            Ok(Some(single(text)))
        } else if spec == LOWER_P {
            match self.arg(ArgKind::Pointer)? {
                Arg::Pointer(v) => Ok(Some(single(pointer_text(*v)))),
                _ => Err(PrintError::WrongArgument(ArgKind::Pointer)),
            }
        } else if spec == LOWER_S {
            match self.arg(ArgKind::Str)? {
                Arg::Str(bytes) => Ok(Some(single(string_run(bytes.as_slice(), precision)))),
                _ => Err(PrintError::WrongArgument(ArgKind::Str)),
            }
        } else {
            match length {
                Some(l) => {
                    let text = self.next_int(false, Kind::Normal, precision, l)?;
                    let ghost shown = text@;
                    let mut chunks = single(text);
                    let ghost before = chunks@;
                    assert(views(before).len() == 1 && views(before)[0] == shown);
                    chunks.push(byte_run(spec));
                    assert(chunks@[0] == before[0]);
                    assert(views(chunks@) =~= seq![shown, seq![spec]]);
                    Ok(Some(chunks))
                },
                None => {
                    let chunks: Vec<Vec<u8>> = Vec::new();
                    assert(views(chunks@) =~= Seq::<Seq<u8>>::empty());
                    Ok(Some(chunks))
                },
            }
        }
    }

    /// Takes one step of the walk: says what goes to the sink next, or that
    /// the walk is over, or why it cannot go on.
    pub fn step(&mut self) -> (r: Result<Option<Vec<Vec<u8>>>, PrintError>)
        ensures
            final(self).same_input(old(self)),
            final(self).wrote == old(self).wrote,
            match old(self).next_step() {
                Step::End => r matches Ok(None),
                Step::Fail { error } => r matches Err(e) && e == error,
                Step::Emit { chunks, index, arg } => r matches Ok(Some(c)) && views(c@) == chunks
                    && final(self).curr_index == index && final(self).next_arg == arg && index
                    > old(self).curr_index,
            },
    {
        let byte = match self.next() {
            Some(b) => b,
            None => { return Ok(None); },
        };
        if byte != PERCENT {
            return Ok(Some(single(byte_run(byte))));
        }
        let maybe_spec = match self.peek() {
            Some(b) => b,
            None => { return Ok(None); },
        };
        if maybe_spec == PERCENT {
            self.next();
            return Ok(Some(single(byte_run(PERCENT))));
        }
        if maybe_spec == DOT {
            self.next();
            let maybe_precision = match self.next() {
                Some(b) => b,
                None => { return Ok(None); },
            };
            let precision: usize = if maybe_precision == STAR {
                match self.arg(ArgKind::UInt)? {
                    Arg::UInt(p) => *p as usize,
                    _ => { return Err(PrintError::WrongArgument(ArgKind::UInt)); },
                }
            } else if DIGIT_0 <= maybe_precision && maybe_precision <= DIGIT_9 {
                (maybe_precision - DIGIT_0) as usize
            } else {
                let chunks: Vec<Vec<u8>> = Vec::new();
                assert(views(chunks@) =~= Seq::<Seq<u8>>::empty());
                return Ok(Some(chunks));
            };
            let length = self.try_make_length();
            return self.next_fmt(length, Some(precision));
        }
        let length = self.try_make_length();
        self.next_fmt(length, None)
    }

    /// Counts what a sink answered to a write: the bytes of a success are
    /// added to the count, a failure ends the printing.
    pub fn account(&mut self, answer: Result<usize, IoError>) -> (r: Result<usize, PrintError>)
        ensures
            final(self).same_input(old(self)),
            final(self).curr_index == old(self).curr_index,
            final(self).next_arg == old(self).next_arg,
            match answer {
                Ok(n) => r == Ok::<usize, PrintError>(n) && final(self).wrote == saturating(
                    old(self).wrote as int,
                    n as int,
                ),
                Err(e) => r == Err::<usize, PrintError>(PrintError::Sink(e)) && final(self).wrote
                    == old(self).wrote,
            },
    {
        let am = map_error(answer)?;
        self.wrote = self.wrote.saturating_add(am);
        Ok(am)
    }

    /// Hands `bytes` to `writer` in one write and counts the answer.
    pub fn write_bytes<W: CWriter>(&mut self, writer: &mut W, bytes: &[u8]) -> (r: Result<
        usize,
        PrintError,
    >)
        ensures
            final(self).same_input(old(self)),
            final(self).curr_index == old(self).curr_index,
            final(self).next_arg == old(self).next_arg,
            match r {
                Ok(n) => n <= bytes@.len() && final(self).wrote == saturating(
                    old(self).wrote as int,
                    n as int,
                ),
                Err(e) => e is Sink && final(self).wrote == old(self).wrote,
            },
            old(writer).fixed() ==> final(writer).fixed() && r is Ok && state_of(
                final(writer),
                final(self).wrote,
            ) == put(state_of(old(writer), old(self).wrote), bytes@),
            old(writer).takes_all() ==> final(writer).takes_all() && r is Ok && final(self).wrote
                == saturating(old(self).wrote as int, bytes@.len() as int)
                && final(writer).handed() == old(writer).handed().push(bytes@),
            old(writer).store() matches Some(before) ==> (final(writer).store() matches Some(after)
                && final(after)@ == final(before)@),
    {
        let len = bytes.len();
        let answer = writer.write_bytes(bytes);
        self.account(answer)
    }
}

/// The count of a walk that stood at `start` after each of `chunks` was
/// reported in full: their bytes more, as far as the machine can count.
pub open spec fn tally(start: usize, chunks: Seq<Seq<u8>>) -> usize
    decreases chunks.len(),
{
    if chunks.len() == 0 {
        start
    } else {
        saturating(tally(start, chunks.drop_last()) as int, chunks.last().len() as int)
    }
}

/// Runs reported after others are counted on from the count of the others.
pub proof fn lemma_tally_add(start: usize, first: Seq<Seq<u8>>, then: Seq<Seq<u8>>)
    ensures
        tally(start, first + then) == tally(tally(start, first), then),
    decreases then.len(),
{
    if then.len() == 0 {
        assert(first + then =~= first);
    } else {
        lemma_tally_add(start, first, then.drop_last());
        assert((first + then).drop_last() =~= first + then.drop_last());
        assert((first + then).last() == then.last());
    }
}

/// Runs reported in full are counted with all their bytes, as far as the
/// machine can count.
pub proof fn lemma_tally_total(start: usize, chunks: Seq<Seq<u8>>)
    ensures
        tally(start, chunks) == saturating(start as int, total_len(chunks) as int),
    decreases chunks.len(),
{
    if chunks.len() > 0 {
        lemma_tally_total(start, chunks.drop_last());
    }
}

/// A sink that is a fixed buffer, with the count of a walk that prints to
/// it.
pub open spec fn state_of<W: CWriter>(writer: &W, wrote: usize) -> Filled {
    Filled { buffer: writer.held(), position: writer.filled(), count: wrote }
}

/// The bytes of two lists of runs are those of the one and those of the
/// other.
pub proof fn lemma_total_len_add(a: Seq<Seq<u8>>, b: Seq<Seq<u8>>)
    ensures
        total_len(a + b) == total_len(a) + total_len(b),
    decreases b.len(),
{
    if b.len() == 0 {
        assert(a + b =~= a);
    } else {
        lemma_total_len_add(a, b.drop_last());
        assert((a + b).drop_last() =~= a + b.drop_last());
        assert((a + b).last() == b.last());
    }
}

/// The bytes of the runs before `upto`, which grow by one run with `upto`.
pub proof fn lemma_total_len_prefix(chunks: Seq<Seq<u8>>, upto: int)
    requires
        0 <= upto < chunks.len(),
    ensures
        total_len(chunks.subrange(0, upto + 1)) == total_len(chunks.subrange(0, upto))
            + chunks[upto].len(),
{
    assert(chunks.subrange(0, upto + 1).drop_last() =~= chunks.subrange(0, upto));
}

impl<'f, 'a> CPrinter<'f, 'a> {
    /// Hands each of `chunks` to `writer`, one write per run, until one
    /// fails. The count grows by what the sink reports, which is never more
    /// than it was handed.
    pub fn write_chunks<W: CWriter>(&mut self, writer: &mut W, chunks: &Vec<Vec<u8>>) -> (r: Result<
        (),
        PrintError,
    >)
        ensures
            final(self).same_input(old(self)),
            final(self).curr_index == old(self).curr_index,
            final(self).next_arg == old(self).next_arg,
            old(self).wrote <= final(self).wrote <= old(self).wrote + total_len(views(chunks@)),
            chunks@.len() == 0 ==> r is Ok && final(self).wrote == old(self).wrote,
            r matches Err(e) ==> e is Sink,
            old(writer).fixed() ==> final(writer).fixed() && r is Ok && state_of(
                final(writer),
                final(self).wrote,
            ) == fill_from(state_of(old(writer), old(self).wrote), views(chunks@)),
            old(writer).takes_all() ==> final(writer).takes_all() && r is Ok && final(self).wrote
                == tally(old(self).wrote, views(chunks@))
                && final(writer).handed() == old(writer).handed() + views(chunks@),
            old(writer).store() matches Some(before) ==> (final(writer).store() matches Some(after)
                && final(after)@ == final(before)@),
    {
        let mut i: usize = 0;
        assert(views(chunks@).subrange(0, 0) =~= Seq::<Seq<u8>>::empty());
        assert(writer.handed() + Seq::<Seq<u8>>::empty() =~= writer.handed());
        while i < chunks.len()
            invariant
                i <= chunks@.len(),
                self.same_input(old(self)),
                self.curr_index == old(self).curr_index,
                self.next_arg == old(self).next_arg,
                old(self).wrote <= self.wrote <= old(self).wrote + total_len(
                    views(chunks@).subrange(0, i as int),
                ),
                chunks@.len() == 0 ==> self.wrote == old(self).wrote,
                old(writer).fixed() ==> writer.fixed() && state_of(writer, self.wrote)
                    == fill_from(
                    state_of(old(writer), old(self).wrote),
                    views(chunks@).subrange(0, i as int),
                ),
                old(writer).store() matches Some(before) ==> (writer.store() matches Some(after)
                    && final(after)@ == final(before)@),
                old(writer).takes_all() ==> writer.takes_all() && self.wrote == tally(
                    old(self).wrote,
                    views(chunks@).subrange(0, i as int),
                ) && writer.handed() == old(writer).handed() + views(chunks@).subrange(
                    0,
                    i as int,
                ),
            decreases chunks@.len() - i,
        {
            proof {
                let all = views(chunks@);
                assert(all.subrange(0, i + 1).drop_last() =~= all.subrange(0, i as int));
                assert(all.subrange(0, i + 1).last() == chunks@[i as int]@);
                assert(all.subrange(0, i as int).push(chunks@[i as int]@) =~= all.subrange(
                    0,
                    i + 1,
                ));
                assert(old(writer).handed() + all.subrange(0, i + 1) =~= (old(writer).handed()
                    + all.subrange(0, i as int)).push(chunks@[i as int]@));
                lemma_total_len_prefix(all, i as int);
                lemma_total_len_add(all.subrange(0, i as int), all.subrange(i as int, all.len() as int));
                assert(all.subrange(0, i as int) + all.subrange(i as int, all.len() as int) =~= all);
            }
            match self.write_bytes(writer, chunks[i].as_slice()) {
                Ok(_) => {},
                Err(e) => {
                    return Err(e);
                },
            }
            i = i + 1;
        }
        assert(views(chunks@).subrange(0, i as int) =~= views(chunks@));
        Ok(())
    }

    /// Reads the conversion that the walk stands at, after its `length` and
    /// `precision`, and hands what it writes to `writer`.
    ///
    /// An argument failure is the one that the conversion has of its
    /// argument; any other failure is the sink's.
    pub fn write_next_fmt<W: CWriter>(
        &mut self,
        writer: &mut W,
        length: Option<LengthModifier>,
        precision: Option<usize>,
    ) -> (r: Result<(), PrintError>)
        ensures
            final(self).same_input(old(self)),
            old(self).wrote <= final(self).wrote,
            old(self).curr_index >= old(self).fmt@.len() ==> (r is Ok
                && final(self).wrote == old(self).wrote),
            old(self).curr_index < old(self).fmt@.len() ==> match convert(
                old(self).fmt@[old(self).curr_index as int],
                old(self).args@,
                old(self).next_arg as int,
                length,
                precision,
            ) {
                Ok(c) => {
                    &&& final(self).next_arg == old(self).next_arg + c.taken
                    &&& final(self).curr_index == old(self).curr_index + 1
                    &&& final(self).wrote <= old(self).wrote + total_len(c.chunks)
                    &&& r matches Err(e) ==> e is Sink
                    &&& c.chunks.len() == 0 ==> r is Ok
                },
                Err(e) => r matches Err(f) && f == e && final(self).wrote == old(self).wrote,
            },
            old(writer).fixed() && old(self).curr_index < old(self).fmt@.len() ==> match convert(
                old(self).fmt@[old(self).curr_index as int],
                old(self).args@,
                old(self).next_arg as int,
                length,
                precision,
            ) {
                Ok(c) => final(writer).fixed() && r is Ok && state_of(
                    final(writer),
                    final(self).wrote,
                ) == fill_from(state_of(old(writer), old(self).wrote), c.chunks),
                Err(e) => *final(writer) == *old(writer),
            },
            old(writer).takes_all() && old(self).curr_index < old(self).fmt@.len() ==> match convert(
                old(self).fmt@[old(self).curr_index as int],
                old(self).args@,
                old(self).next_arg as int,
                length,
                precision,
            ) {
                Ok(c) => final(writer).takes_all() && r is Ok && final(self).wrote == tally(
                    old(self).wrote,
                    c.chunks,
                ) && final(writer).handed() == old(writer).handed() + c.chunks,
                Err(e) => *final(writer) == *old(writer),
            },
            old(writer).store() matches Some(before) ==> (final(writer).store() matches Some(after)
                && final(after)@ == final(before)@),
    {
        match self.next_fmt(length, precision)? {
            Some(chunks) => self.write_chunks(writer, &chunks),
            None => Ok(()),
        }
    }

    /// Walks the rest of the format and hands everything it writes to
    /// `writer`, until the format ends, an argument fails or the sink does.
    ///
    /// On success no argument failed, and the count has grown by what the
    /// sink reported, at most by the bytes handed to it. A failure is the
    /// argument failure that the walk ends in, or else that of the sink,
    /// which was then written to at least once. Where the walk writes
    /// nothing, the sink is not asked and the outcome is that of the walk
    /// alone.
    pub fn write_all<W: CWriter>(self, writer: &mut W) -> (r: Result<usize, PrintError>)
        ensures
            match r {
                Ok(n) => self.remaining().1.is_none() && self.wrote <= n <= self.wrote + total_len(
                    self.remaining().0,
                ),
                Err(e) => self.remaining().1 == Some(e) || (e is Sink && self.remaining().0.len()
                    > 0),
            },
            self.remaining().0.len() == 0 ==> r == match self.remaining().1 {
                None => Ok::<usize, PrintError>(self.wrote),
                Some(e) => Err(e),
            },
            old(writer).fixed() ==> final(writer).fixed() && state_of(
                final(writer),
                fill_from(state_of(old(writer), self.wrote), self.remaining().0).count,
            ) == fill_from(state_of(old(writer), self.wrote), self.remaining().0) && r
                == match self.remaining().1 {
                None => Ok::<usize, PrintError>(
                    fill_from(state_of(old(writer), self.wrote), self.remaining().0).count,
                ),
                Some(e) => Err(e),
            },
            old(writer).takes_all() ==> final(writer).takes_all() && final(writer).handed()
                == old(writer).handed() + self.remaining().0 && r == match self.remaining().1 {
                None => Ok::<usize, PrintError>(tally(self.wrote, self.remaining().0)),
                Some(e) => Err(e),
            },
            old(writer).store() matches Some(before) ==> (final(writer).store() matches Some(after)
                && final(after)@ == final(before)@),
    {
        let mut walk = self;
        let ghost start = walk;
        let ghost mut sent: Seq<Seq<u8>> = Seq::empty();
        assert(sent + walk.remaining().0 =~= start.remaining().0);
        assert(writer.handed() + sent =~= writer.handed());
        while walk.curr_index < walk.fmt.len()
            invariant
                start == self,
                old(writer).fixed() ==> writer.fixed() && state_of(writer, walk.wrote) == fill_from(
                    state_of(old(writer), start.wrote),
                    sent,
                ),
                old(writer).store() matches Some(before) ==> (writer.store() matches Some(after)
                    && final(after)@ == final(before)@),
                old(writer).takes_all() ==> writer.takes_all() && walk.wrote == tally(
                    start.wrote,
                    sent,
                ) && writer.handed() == old(writer).handed() + sent,
                walk.same_input(&start),
                start.remaining().0 == sent + walk.remaining().0,
                start.remaining().1 == walk.remaining().1,
                start.wrote <= walk.wrote <= start.wrote + total_len(sent),
                sent.len() == 0 ==> walk.wrote == start.wrote,
            decreases walk.fmt@.len() - walk.curr_index,
        {
            let ghost before = walk;
            match walk.step() {
                Err(e) => {
                    assert(before.remaining() == (Seq::<Seq<u8>>::empty(), Some(e)));
                    assert(sent + Seq::<Seq<u8>>::empty() =~= sent);
                    return Err(e);
                },
                Ok(None) => {
                    assert(before.remaining() == (Seq::<Seq<u8>>::empty(), None::<PrintError>));
                    assert(sent + Seq::<Seq<u8>>::empty() =~= sent);
                    return Ok(walk.wrote);
                },
                Ok(Some(chunks)) => {
                    proof {
                        let rest = walk.remaining().0;
                        assert(before.remaining().0 == views(chunks@) + rest);
                        assert(sent + (views(chunks@) + rest) =~= (sent + views(chunks@)) + rest);
                        lemma_total_len_add(sent, views(chunks@));
                        lemma_fill_from_add(
                            state_of(old(writer), start.wrote),
                            sent,
                            views(chunks@),
                        );
                        lemma_tally_add(start.wrote, sent, views(chunks@));
                        assert(old(writer).handed() + (sent + views(chunks@)) =~= (old(writer).handed()
                            + sent) + views(chunks@));
                    }
                    let sending = walk.write_chunks(writer, &chunks);
                    proof {
                        if chunks@.len() == 0 {
                            assert(sent + views(chunks@) =~= sent);
                        }
                        sent = sent + views(chunks@);
                    }
                    match sending {
                        Ok(()) => {},
                        Err(e) => {
                            assert(chunks@.len() > 0);
                            assert(views(chunks@).len() > 0);
                            return Err(e);
                        },
                    }
                },
            }
        }
        assert(sent + Seq::<Seq<u8>>::empty() =~= sent);
        Ok(walk.wrote)
    }
}

/// Prints `args` to `writer` as `fmt` says, and gives the number of bytes
/// that the sink reported as transferred.
///
/// The sink gets the runs of [`emission`], one write each and in order, up
/// to the first write that fails. On success no argument failed and the
/// count is at most the bytes handed over. A failure is the argument
/// failure that the format ends in, or else that of the sink. Where the
/// format writes nothing, the outcome is that of the format alone.
///
/// Of a sink that is a fixed buffer, all is known: what the buffer holds
/// afterwards is what the runs leave in it, each copied as far as it fits,
/// and the count is that of the writes as the buffer reports them.
/// Of a sink that takes all it is handed, all is known too: it was handed
/// the runs, each in a write of its own, and the count is that of their
/// bytes. A sink that writes to memory it was lent still writes there.
pub fn printf_to<W: CWriter>(writer: &mut W, fmt: &[u8], args: &[Arg]) -> (r: Result<
    usize,
    PrintError,
>)
    ensures
        match r {
            Ok(n) => emission(fmt@, 0, args@, 0).1.is_none() && n <= total_len(
                emission(fmt@, 0, args@, 0).0,
            ),
            Err(e) => emission(fmt@, 0, args@, 0).1 == Some(e) || (e is Sink && emission(
                fmt@,
                0,
                args@,
                0,
            ).0.len() > 0),
        },
        emission(fmt@, 0, args@, 0).0.len() == 0 ==> r == match emission(fmt@, 0, args@, 0).1 {
            None => Ok::<usize, PrintError>(0),
            Some(e) => Err(e),
        },
        old(writer).fixed() ==> final(writer).fixed() && state_of(
            final(writer),
            fill_from(state_of(old(writer), 0), emission(fmt@, 0, args@, 0).0).count,
        ) == fill_from(state_of(old(writer), 0), emission(fmt@, 0, args@, 0).0) && r
            == match emission(fmt@, 0, args@, 0).1 {
            None => Ok::<usize, PrintError>(
                fill_from(state_of(old(writer), 0), emission(fmt@, 0, args@, 0).0).count,
            ),
            Some(e) => Err(e),
        },
        old(writer).takes_all() ==> final(writer).takes_all() && final(writer).handed() 
            == old(writer).handed() + emission(fmt@, 0, args@, 0).0 && r == match emission(fmt@, 0, args@, 0).1 {
            None => Ok::<usize, PrintError>(tally(0, emission(fmt@, 0, args@, 0).0)),
            Some(e) => Err(e),
        },
        old(writer).store() matches Some(before) ==> (final(writer).store() matches Some(after)
            && final(after)@ == final(before)@),
{
    let printer = CPrinter::new(fmt, args);
    printer.write_all(writer)
}

/// Runs that arrive after others find the buffer as the others left it.
pub proof fn lemma_fill_from_add(start: Filled, first: Seq<Seq<u8>>, then: Seq<Seq<u8>>)
    ensures
        fill_from(start, first + then) == fill_from(fill_from(start, first), then),
    decreases then.len(),
{
    if then.len() == 0 {
        assert(first + then =~= first);
    } else {
        lemma_fill_from_add(start, first, then.drop_last());
        assert((first + then).drop_last() =~= first + then.drop_last());
        assert((first + then).last() == then.last());
    }
}

/// A fixed buffer keeps its size, and its writes never pass its end.
pub proof fn lemma_fill_bounds(buffer: Seq<u8>, chunks: Seq<Seq<u8>>)
    ensures
        fill(buffer, chunks).buffer.len() == buffer.len(),
        fill(buffer, chunks).position <= buffer.len(),
    decreases chunks.len(),
{
    if chunks.len() > 0 {
        lemma_fill_bounds(buffer, chunks.drop_last());
        assert(fill(buffer, chunks) == put(fill(buffer, chunks.drop_last()), chunks.last()));
    }
}

/// Bytes that arrive one per write fill a fixed buffer from its start as far
/// as they fit, and every one of them is reported, copied or not.
pub proof fn lemma_fill_singles(buffer: Seq<u8>, bytes: Seq<u8>)
    requires
        bytes.len() <= usize::MAX,
    ensures
        fill(buffer, singles(bytes)) == (Filled {
            buffer: overlay(buffer, 0, bytes),
            position: copied(buffer.len(), bytes.len()),
            count: bytes.len() as usize,
        }),
    decreases bytes.len(),
{
    if bytes.len() == 0 {
        assert(overlay(buffer, 0, bytes) =~= buffer);
    } else {
        let front = bytes.drop_last();
        lemma_fill_singles(buffer, front);
        assert(singles(bytes).drop_last() =~= singles(front));
        assert(singles(bytes).last() == seq![bytes.last()]);
        let before = fill(buffer, singles(front));
        assert(fill(buffer, singles(bytes)) == put(before, seq![bytes.last()]));
        assert(overlay(before.buffer, before.position, seq![bytes.last()]) =~= overlay(
            buffer,
            0,
            bytes,
        ));
    }
}

/// Each byte of `bytes` as a run of its own.
pub open spec fn singles(bytes: Seq<u8>) -> Seq<Seq<u8>> {
    Seq::new(bytes.len(), |i: int| seq![bytes[i]])
}

/// Runs of one byte hold as many bytes as there are runs.
pub proof fn lemma_total_len_singles(bytes: Seq<u8>)
    ensures
        total_len(singles(bytes)) == bytes.len(),
    decreases bytes.len(),
{
    if bytes.len() > 0 {
        lemma_total_len_singles(bytes.drop_last());
        assert(singles(bytes).drop_last() =~= singles(bytes.drop_last()));
    }
}

/// A format that holds no `%` is handed to the sink unchanged: what stands
/// in it from `from` on goes out byte by byte, in order, and nothing else;
/// no argument is taken and none can fail. A sink that takes every byte it
/// is handed therefore reports the length of the format.
pub proof fn lemma_plain_format(fmt: Seq<u8>, args: Seq<Arg>, from: int, arg: int)
    requires
        forall|i: int| 0 <= i < fmt.len() ==> fmt[i] != PERCENT,
        0 <= from <= fmt.len(),
    ensures
        emission(fmt, from, args, arg) == (
            singles(fmt.subrange(from, fmt.len() as int)),
            None::<PrintError>,
        ),
        total_len(emission(fmt, from, args, arg).0) == fmt.len() - from,
        fmt.len() - from <= usize::MAX ==> tally(0, emission(fmt, from, args, arg).0) == fmt.len()
            - from,
    decreases fmt.len() - from,
{
    let rest = fmt.subrange(from, fmt.len() as int);
    if from < fmt.len() {
        lemma_plain_format(fmt, args, from + 1, arg);
        let after = fmt.subrange(from + 1, fmt.len() as int);
        assert(seq![seq![fmt[from]]] + singles(after) =~= singles(rest));
    } else {
        assert(singles(rest) =~= Seq::<Seq<u8>>::empty());
    }
    lemma_total_len_singles(rest);
    lemma_tally_total(0, singles(rest));
}

/// The kind of the argument that is missing where `args` are too few for
/// `fmt`, and nothing where they suffice or one of them is of the wrong
/// kind.
pub open spec fn wanted_next(fmt: Seq<u8>, args: Seq<Arg>) -> Option<ArgKind> {
    match emission(fmt, 0, args, 0).1 {
        Some(PrintError::MissingArgument(kind)) => Some(kind),
        _ => None,
    }
}

/// Says what `fmt` asks for behind `args`: the kind of the argument that
/// its first conversion without an argument wants.
///
/// A caller who starts with no arguments and adds one of the kind asked
/// for, until nothing is asked for, has the arguments that the format
/// takes. The precision of a floating-point argument is part of its kind,
/// also where the format takes it from the argument before.
pub fn wanted(fmt: &[u8], args: &[Arg]) -> (kind: Option<ArgKind>)
    ensures
        kind == wanted_next(fmt@, args@),
{
    let mut walk = CPrinter::new(fmt, args);
    let ghost start = walk;
    while walk.curr_index < walk.fmt.len()
        invariant
            walk.same_input(&start),
            start.remaining().1 == walk.remaining().1,
            start.fmt@ == fmt@,
            start.args@ == args@,
            start.curr_index == 0,
            start.next_arg == 0,
        decreases walk.fmt@.len() - walk.curr_index,
    {
        let ghost before = walk;
        match walk.step() {
            Err(PrintError::MissingArgument(kind)) => {
                assert(before.remaining().1 == Some(PrintError::MissingArgument(kind)));
                return Some(kind);
            },
            Err(e) => {
                assert(before.remaining().1 == Some(e));
                return None;
            },
            Ok(None) => {
                assert(before.remaining().1 == None::<PrintError>);
                return None;
            },
            Ok(Some(_)) => {},
        }
    }
    None
}

/// The precision of `%s` clips the string and never reaches past it: with
/// the precision taken from an argument, `%.*s` writes the bytes of the
/// string before its first zero byte, and no more of them than the
/// precision, in one write.
pub proof fn lemma_precision_clips(precision: u32, bytes: Vec<u8>)
    ensures
        emission(
            seq![PERCENT, DOT, STAR, LOWER_S],
            0,
            seq![Arg::UInt(precision), Arg::Str(bytes)],
            0,
        )
            == (
            seq![bytes@.take(string_len(bytes@, Some(precision as usize)) as int)],
            None::<PrintError>,
        ),
        string_len(bytes@, Some(precision as usize)) <= precision,
        string_len(bytes@, Some(precision as usize)) <= c_len(bytes@),
        c_len(bytes@) <= bytes@.len(),
        forall|i: int| 0 <= i < c_len(bytes@) ==> bytes@[i] != NUL,
{
    let fmt = seq![PERCENT, DOT, STAR, LOWER_S];
    let args = seq![Arg::UInt(precision), Arg::Str(bytes)];
    let n = string_len(bytes@, Some(precision as usize)) as int;
    lemma_c_len(bytes@);
    assert(bytes@.subrange(0, n) =~= bytes@.take(n));
    assert(length_at(fmt, 3) == (None::<LengthModifier>, 3int));
    assert(step_at(fmt, 0, args, 0) == Step::Emit { chunks: seq![bytes@.take(n)], index: 4, arg: 2 });
    assert(emission(fmt, 4, args, 2) == (Seq::<Seq<u8>>::empty(), None::<PrintError>));
    assert(seq![bytes@.take(n)] + Seq::<Seq<u8>>::empty() =~= seq![bytes@.take(n)]);
}

/// Whether `arg` is an argument of the kind `kind`.
pub open spec fn fits(arg: Arg, kind: ArgKind) -> bool {
    match kind {
        ArgKind::Int => arg is Int,
        ArgKind::UInt => arg is UInt,
        ArgKind::Long => arg is Long,
        ArgKind::ULong => arg is ULong,
        ArgKind::Size => arg is Size,
        ArgKind::PtrDiff => arg is PtrDiff,
        ArgKind::Pointer => arg is Pointer,
        ArgKind::Str => arg is Str,
        ArgKind::Double(_) => arg is Double,
    }
}

/// Whether a failure says that an argument is of the wrong kind.
pub open spec fn is_wrong(failure: Option<PrintError>) -> bool {
    failure matches Some(PrintError::WrongArgument(_))
}

/// An integer conversion takes an argument of its kind, and fails on any
/// other for being wrong.
proof fn lemma_int_text_fits(
    x: Arg,
    unsigned: bool,
    kind: Kind,
    precision: Option<usize>,
    length: LengthModifier,
)
    ensures
        fits(x, wanted_kind(unsigned, precision, length)) ==> int_text(
            x,
            unsigned,
            kind,
            precision,
            length,
        ).is_ok(),
        int_text(x, unsigned, kind, precision, length) matches Err(e) ==> e is WrongArgument,
{
    match length {
        LengthModifier::Plain => {},
        LengthModifier::Char => {},
        LengthModifier::Short => {},
        LengthModifier::Long => {},
        LengthModifier::LongLong => {},
        LengthModifier::LongDouble => {},
        LengthModifier::SizeT => {},
        LengthModifier::PtrDiffT => {},
        LengthModifier::MaxT => {},
    }
}

/// What one more argument at the end does to a conversion: nothing where
/// the conversion had its argument or takes none; and where it lacked its
/// argument, it takes the new one if that is of the kind it lacked.
proof fn lemma_convert_extends(
    spec: u8,
    args: Seq<Arg>,
    at: int,
    length: Option<LengthModifier>,
    precision: Option<usize>,
    x: Arg,
)
    requires
        0 <= at <= args.len(),
    ensures
        match convert(spec, args, at, length, precision) {
            Ok(c) => convert(spec, args.push(x), at, length, precision) == Ok::<
                Converted,
                PrintError,
            >(c) && at + c.taken <= args.len(),
            Err(PrintError::MissingArgument(kind)) => at == args.len() && match convert(
                spec,
                args.push(x),
                at,
                length,
                precision,
            ) {
                Ok(c) => c.taken == 1,
                Err(e) => e is WrongArgument && !fits(x, kind),
            },
            Err(e) => e is WrongArgument && convert(spec, args.push(x), at, length, precision)
                == Err::<Converted, PrintError>(e),
        },
{
    let more = args.push(x);
    if at < args.len() {
        assert(more[at] == args[at]);
    } else {
        assert(more[at] == x);
    }
    let plain = length_or_plain(length);
    if spec == LOWER_C {
    } else if spec == LOWER_D || spec == LOWER_I {
        lemma_int_text_fits(more[at], false, Kind::Normal, precision, plain);
    } else if spec == LOWER_U {
        lemma_int_text_fits(more[at], true, Kind::Normal, precision, plain);
    } else if spec == LOWER_O {
        lemma_int_text_fits(more[at], true, Kind::Octal, precision, plain);
    } else if spec == LOWER_X {
        lemma_int_text_fits(more[at], true, Kind::Hex, precision, plain);
    } else if spec == UPPER_X {
        lemma_int_text_fits(more[at], true, Kind::BigHex, precision, plain);
    } else if spec == LOWER_P {
    } else if spec == LOWER_S {
    } else {
        match length {
            Some(l) => {
                lemma_int_text_fits(more[at], false, Kind::Normal, precision, l);
            },
            None => {},
        }
    }
}

/// How a step may differ once one more argument, `x`, stands behind `len`
/// others: not at all where it had the arguments it asked for or broke on
/// a wrong one; and where it lacked an argument, it leaves no argument
/// behind it if it goes through, and it does not find `x` wrong if `x` is
/// of the kind that was missing.
pub open spec fn extended(before: Step, after: Step, len: int, x: Arg) -> bool {
    match before {
        Step::End => after is End,
        Step::Emit { arg: next_arg, .. } => after == before && 0 <= next_arg <= len,
        Step::Fail { error: PrintError::MissingArgument(kind) } => match after {
            Step::End => true,
            Step::Emit { arg: next_arg, .. } => next_arg == len + 1,
            Step::Fail { error } => !(error is Sink) && (fits(x, kind) ==> error
                is MissingArgument),
        },
        Step::Fail { error } => error is WrongArgument && after == before,
    }
}

/// What one more argument at the end does to the conversion behind a
/// precision or a `%`.
proof fn lemma_conversion_step_extends(
    fmt: Seq<u8>,
    at: int,
    args: Seq<Arg>,
    arg: int,
    precision: Option<usize>,
    x: Arg,
)
    requires
        0 <= arg <= args.len(),
    ensures
        extended(
            conversion_step(fmt, at, args, arg, precision),
            conversion_step(fmt, at, args.push(x), arg, precision),
            args.len() as int,
            x,
        ),
{
    let (length, spec_at) = length_at(fmt, at);
    if spec_at < fmt.len() {
        lemma_convert_extends(fmt[spec_at], args, arg, length, precision, x);
    }
}

/// What one more argument at the end does to a step that takes its
/// precision from an argument.
proof fn lemma_star_step_extends(fmt: Seq<u8>, index: int, args: Seq<Arg>, arg: int, x: Arg)
    requires
        0 <= arg <= args.len(),
        0 <= index,
        index + 2 < fmt.len(),
        fmt[index] == PERCENT,
        fmt[index + 1] == DOT,
        fmt[index + 2] == STAR,
    ensures
        extended(
            step_at(fmt, index, args, arg),
            step_at(fmt, index, args.push(x), arg),
            args.len() as int,
            x,
        ),
{
    let more = args.push(x);
    if arg < args.len() {
        assert(more[arg] == args[arg]);
        match args[arg] {
            Arg::UInt(p) => {
                lemma_conversion_step_extends(fmt, index + 3, args, arg + 1, Some(p as usize), x);
                assert(step_at(fmt, index, args, arg) == conversion_step(
                    fmt,
                    index + 3,
                    args,
                    arg + 1,
                    Some(p as usize),
                ));
                assert(step_at(fmt, index, more, arg) == conversion_step(
                    fmt,
                    index + 3,
                    more,
                    arg + 1,
                    Some(p as usize),
                ));
            },
            _ => {
                assert(step_at(fmt, index, args, arg) == Step::Fail {
                    error: PrintError::WrongArgument(ArgKind::UInt),
                });
                assert(step_at(fmt, index, more, arg) == step_at(fmt, index, args, arg));
            },
        }
    } else {
        assert(more[arg] == x);
        assert(step_at(fmt, index, args, arg) == Step::Fail {
            error: PrintError::MissingArgument(ArgKind::UInt),
        });
        match x {
            Arg::UInt(p) => {
                lemma_conversion_step_beyond(fmt, index + 3, more, arg + 1, Some(p as usize));
                assert(step_at(fmt, index, more, arg) == conversion_step(
                    fmt,
                    index + 3,
                    more,
                    arg + 1,
                    Some(p as usize),
                ));
            },
            _ => {
                assert(step_at(fmt, index, more, arg) == Step::Fail {
                    error: PrintError::WrongArgument(ArgKind::UInt),
                });
            },
        }
    }
}

/// One more argument at the end changes no step that had the arguments it
/// asked for, and a step that lacked an argument does not find the new one
/// wrong if it is of the kind that was missing. A step that takes the new
/// argument leaves none behind it.
proof fn lemma_step_extends(fmt: Seq<u8>, index: int, args: Seq<Arg>, arg: int, x: Arg)
    requires
        0 <= arg <= args.len(),
    ensures
        extended(
            step_at(fmt, index, args, arg),
            step_at(fmt, index, args.push(x), arg),
            args.len() as int,
            x,
        ),
{
    let more = args.push(x);
    if index < 0 || index >= fmt.len() {
    } else if fmt[index] != PERCENT {
    } else if index + 1 >= fmt.len() {
    } else if fmt[index + 1] == PERCENT {
    } else if fmt[index + 1] == DOT {
        if index + 2 >= fmt.len() {
        } else if fmt[index + 2] == STAR {
            lemma_star_step_extends(fmt, index, args, arg, x);
        } else if DIGIT_0 <= fmt[index + 2] <= DIGIT_9 {
            let precision = Some((fmt[index + 2] - DIGIT_0) as usize);
            lemma_conversion_step_extends(fmt, index + 3, args, arg, precision, x);
            assert(step_at(fmt, index, args, arg) == conversion_step(
                fmt,
                index + 3,
                args,
                arg,
                precision,
            ));
            assert(step_at(fmt, index, more, arg) == conversion_step(
                fmt,
                index + 3,
                more,
                arg,
                precision,
            ));
        } else {
        }
    } else {
        lemma_conversion_step_extends(fmt, index + 1, args, arg, None, x);
        assert(step_at(fmt, index, args, arg) == conversion_step(fmt, index + 1, args, arg, None));
        assert(step_at(fmt, index, more, arg) == conversion_step(fmt, index + 1, more, arg, None));
    }
}

/// Behind the last argument a conversion that takes an argument fails for
/// want of it, and one that takes none takes none.
proof fn lemma_conversion_step_beyond(
    fmt: Seq<u8>,
    at: int,
    args: Seq<Arg>,
    arg: int,
    precision: Option<usize>,
)
    requires
        arg >= args.len(),
    ensures
        match conversion_step(fmt, at, args, arg, precision) {
            Step::End => true,
            Step::Emit { arg: next_arg, .. } => next_arg == arg,
            Step::Fail { error } => error is MissingArgument,
        },
{
}

/// Behind the last argument a step that takes an argument fails for want
/// of it, and one that takes none takes none; and no step fails as a sink
/// does.
proof fn lemma_step_failures(fmt: Seq<u8>, index: int, args: Seq<Arg>, arg: int)
    ensures
        arg >= args.len() ==> match step_at(fmt, index, args, arg) {
            Step::End => true,
            Step::Emit { arg: next_arg, .. } => next_arg == arg,
            Step::Fail { error } => error is MissingArgument,
        },
        step_at(fmt, index, args, arg) matches Step::Fail { error } ==> !(error is Sink),
{
    if index < 0 || index >= fmt.len() {
    } else if fmt[index] != PERCENT {
    } else if index + 1 >= fmt.len() {
    } else if fmt[index + 1] == PERCENT {
    } else if fmt[index + 1] == DOT {
        if index + 2 >= fmt.len() {
        } else if fmt[index + 2] == STAR {
            if 0 <= arg < args.len() {
                match args[arg] {
                    Arg::UInt(p) => {
                        lemma_conversion_step_sound(fmt, index + 3, args, arg + 1, Some(p as usize));
                    },
                    _ => {},
                }
            }
        } else if DIGIT_0 <= fmt[index + 2] <= DIGIT_9 {
            let precision = Some((fmt[index + 2] - DIGIT_0) as usize);
            lemma_conversion_step_sound(fmt, index + 3, args, arg, precision);
            if arg >= args.len() {
                lemma_conversion_step_beyond(fmt, index + 3, args, arg, precision);
            }
        } else {
        }
    } else {
        lemma_conversion_step_sound(fmt, index + 1, args, arg, None);
        if arg >= args.len() {
            lemma_conversion_step_beyond(fmt, index + 1, args, arg, None);
        }
    }
}

/// No conversion fails as a sink does.
proof fn lemma_conversion_step_sound(
    fmt: Seq<u8>,
    at: int,
    args: Seq<Arg>,
    arg: int,
    precision: Option<usize>,
)
    ensures
        conversion_step(fmt, at, args, arg, precision) matches Step::Fail { error } ==> !(error
            is Sink),
{
    let (length, spec_at) = length_at(fmt, at);
    if spec_at < fmt.len() {
        let spec = fmt[spec_at];
        let plain = length_or_plain(length);
        if 0 <= arg < args.len() {
            lemma_int_text_fits(args[arg], false, Kind::Normal, precision, plain);
            lemma_int_text_fits(args[arg], true, Kind::Normal, precision, plain);
            lemma_int_text_fits(args[arg], true, Kind::Octal, precision, plain);
            lemma_int_text_fits(args[arg], true, Kind::Hex, precision, plain);
            lemma_int_text_fits(args[arg], true, Kind::BigHex, precision, plain);
        }
    }
}

/// Behind the last argument no argument can be wrong: whatever fails
/// there, fails for want of an argument. And no failure of a walk is one
/// of a sink.
pub proof fn lemma_failures(fmt: Seq<u8>, index: int, args: Seq<Arg>, arg: int)
    requires
        0 <= index,
    ensures
        arg >= args.len() ==> !is_wrong(emission(fmt, index, args, arg).1),
        emission(fmt, index, args, arg).1 matches Some(e) ==> !(e is Sink),
    decreases fmt.len() - index,
{
    lemma_step_failures(fmt, index, args, arg);
    match step_at(fmt, index, args, arg) {
        Step::Emit { chunks, index: next, arg: next_arg } => {
            if next > index {
                lemma_failures(fmt, next, args, next_arg);
            }
        },
        _ => {},
    }
}

/// One more argument at the end does not disturb a walk that got through
/// or broke on a wrong argument, and where the walk lacked an argument and
/// the new one is of the kind it lacked, the walk finds no argument wrong.
pub proof fn lemma_emission_extends(fmt: Seq<u8>, index: int, args: Seq<Arg>, arg: int, x: Arg)
    requires
        0 <= index,
        0 <= arg <= args.len(),
    ensures
        match emission(fmt, index, args, arg).1 {
            None => emission(fmt, index, args.push(x), arg).1.is_none(),
            Some(PrintError::MissingArgument(kind)) => fits(x, kind) ==> !is_wrong(
                emission(fmt, index, args.push(x), arg).1,
            ),
            Some(other) => emission(fmt, index, args.push(x), arg).1 == Some(other),
        },
    decreases fmt.len() - index,
{
    lemma_step_extends(fmt, index, args, arg, x);
    let before = step_at(fmt, index, args, arg);
    let after = step_at(fmt, index, args.push(x), arg);
    assert(extended(before, after, args.len() as int, x));
    match before {
        Step::Emit { chunks, index: next, arg: next_arg } => {
            if next > index {
                lemma_emission_extends(fmt, next, args, next_arg, x);
            }
        },
        Step::Fail { error: PrintError::MissingArgument(kind) } => {
            match after {
                Step::Emit { chunks, index: next, arg: next_arg } => {
                    if next > index {
                        lemma_failures(fmt, next, args.push(x), next_arg);
                    }
                },
                _ => {},
            }
        },
        _ => {},
    }
}

/// Whether each of `args` is of the kind that `fmt` asks for behind the
/// arguments before it.
pub open spec fn as_wanted(fmt: Seq<u8>, args: Seq<Arg>) -> bool {
    forall|k: int|
        0 <= k < args.len() ==> match #[trigger] wanted_next(fmt, args.take(k)) {
            Some(kind) => fits(args[k], kind),
            None => false,
        }
}

/// The first arguments of arguments that are as wanted are never wrong.
proof fn lemma_as_wanted_upto(fmt: Seq<u8>, args: Seq<Arg>, upto: int)
    requires
        as_wanted(fmt, args),
        0 <= upto <= args.len(),
    ensures
        !is_wrong(emission(fmt, 0, args.take(upto), 0).1),
    decreases upto,
{
    if upto == 0 {
        lemma_failures(fmt, 0, args.take(0), 0);
    } else {
        lemma_as_wanted_upto(fmt, args, upto - 1);
        let before = args.take(upto - 1);
        let kind = wanted_next(fmt, before)->Some_0;
        assert(wanted_next(fmt, before) is Some);
        lemma_emission_extends(fmt, 0, before, 0, args[upto - 1]);
        assert(before.push(args[upto - 1]) =~= args.take(upto));
    }
}

/// Arguments that were taken as the format asks for them cannot fail it.
///
/// Where each argument is of the kind that [`wanted`] names behind the
/// arguments before it, no argument is of the wrong kind; and once
/// `wanted` names nothing more, no argument is missing either: the walk
/// over the format gets through, and only the sink can fail the printing.
pub proof fn lemma_wanted_suffices(fmt: Seq<u8>, args: Seq<Arg>)
    requires
        as_wanted(fmt, args),
    ensures
        !is_wrong(emission(fmt, 0, args, 0).1),
        wanted_next(fmt, args).is_none() ==> emission(fmt, 0, args, 0).1.is_none(),
{
    lemma_as_wanted_upto(fmt, args, args.len() as int);
    assert(args.take(args.len() as int) =~= args);
    lemma_failures(fmt, 0, args, 0);
}

} // verus!
