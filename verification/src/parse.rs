//! The scanning engine: sources, and the walk over a format that is fed the
//! bytes of a source one at a time.

use crate::ascii::{
    DIGIT_0, DIGIT_9, LOWER_A, LOWER_D, LOWER_F, LOWER_S, LOWER_U, LOWER_X, MINUS, NUL, PERCENT,
    UPPER_A, UPPER_F, UPPER_X,
};
use crate::errors::IoError;
use crate::number::{bounded_value, is_digit, is_hex_digit, parse_digits, Kind};
use vstd::prelude::*;
use vstd::slice::{slice_subrange, slice_to_vec};

verus! {

/// How many bytes a read takes when `len` are asked for and `left` are
/// there.
pub open spec fn taken(left: nat, len: nat) -> nat {
    if len < left {
        len
    } else {
        left
    }
}

/// What a read into `before` is of a source that foretold `upcoming`: it
/// takes all that is asked for, as far as the source has it, puts it at
/// the front of the buffer, and leaves the rest of both as they were.
pub open spec fn read_as_foretold(
    upcoming: Seq<u8>,
    before: Seq<u8>,
    r: Result<usize, IoError>,
    rest: Seq<u8>,
    after: Seq<u8>,
) -> bool {
    let n = taken(upcoming.len(), before.len());
    &&& r == Ok::<usize, IoError>(n as usize)
    &&& rest == upcoming.skip(n as int)
    &&& after == upcoming.take(n as int) + before.skip(n as int)
}

/// Whether `n` is where a reading of `upcoming` stops that goes on until
/// `until` holds of a byte, and takes `limit` bytes at most: at the first
/// byte of which `until` holds, that byte counted, or else at the end of
/// `upcoming` or at the limit.
pub open spec fn stops_at<F: Fn(u8) -> bool>(until: F, upcoming: Seq<u8>, limit: nat, n: nat) -> bool {
    &&& n <= taken(upcoming.len(), limit)
    &&& forall|i: int| 0 <= i < n - 1 ==> call_ensures(until, (#[trigger] upcoming[i],), false)
    &&& n < taken(upcoming.len(), limit) ==> n > 0 && call_ensures(
        until,
        (upcoming[n - 1],),
        true,
    )
}

/// Something that gives bytes: a stream, a piece of memory.
///
/// A source may foretell what it gives. Of such a source every read is
/// known in advance: it never fails, and it gives the bytes of `upcoming`
/// in order, as many at a time as it is asked for, until none are left. Of
/// any other source only so much is known as holds of every read.
pub trait CReader {
    /// Whether the source foretells in `upcoming` what it gives.
    open spec fn foretold(&self) -> bool {
        false
    }

    /// The bytes that the source gives from here on, where it foretells
    /// them.
    open spec fn upcoming(&self) -> Seq<u8> {
        Seq::empty()
    }

    /// Reads into the front of `buf`. The count is how many bytes arrived,
    /// never more than `buf` holds; zero is the end of the input.
    fn read_bytes(&mut self, buf: &mut [u8]) -> (r: Result<usize, IoError>)
        ensures
            final(buf)@.len() == old(buf)@.len(),
            r matches Ok(n) ==> n <= old(buf)@.len(),
            old(self).foretold() ==> final(self).foretold() && read_as_foretold(
                old(self).upcoming(),
                old(buf)@,
                r,
                final(self).upcoming(),
                final(buf)@,
            ),
    ;

    /// Reads one byte, or nothing at the end of the input.
    fn read_byte(&mut self) -> (r: Result<Option<u8>, IoError>)
        ensures
            old(self).foretold() ==> final(self).foretold() && if old(self).upcoming().len() > 0 {
                r == Ok::<Option<u8>, IoError>(Some(old(self).upcoming()[0]))
                    && final(self).upcoming() == old(self).upcoming().skip(1)
            } else {
                r == Ok::<Option<u8>, IoError>(None) && final(self).upcoming() == old(self).upcoming()
            },
    {
        let mut buf = [0u8];
        let r = self.read_bytes(&mut buf)?;
        proof {
            if old(self).foretold() {
                let up = old(self).upcoming();
                assert(up.skip(0) =~= up);
                if up.len() > 0 {
                    assert((up.take(1) + seq![0u8].skip(1))[0] == up[0]);
                }
            }
        }
        if r == 0 {
            Ok(None)
        } else {
            Ok(Some(buf[0]))
        }
    }

    /// Reads byte by byte into the front of `buf` until `buf` is full, the
    /// input ends, or `until` holds of a byte, which is the last one read.
    ///
    /// The count is the number of bytes read; they stand at the front of
    /// `buf` and the rest of `buf` is as it was. Of no byte before the last
    /// did `until` hold. A `buf` without room is not read into.
    fn read_bytes_until_or_eof<F: Fn(u8) -> bool>(&mut self, buf: &mut [u8], until: F) -> (r:
        Result<usize, IoError>)
        requires
            forall|c: u8| call_requires(until, (c,)),
        ensures
            final(buf)@.len() == old(buf)@.len(),
            old(buf)@.len() == 0 ==> r == Ok::<usize, IoError>(0),
            r matches Ok(n) ==> {
                &&& n <= old(buf)@.len()
                &&& final(buf)@.skip(n as int) == old(buf)@.skip(n as int)
                &&& forall|i: int| 0 <= i < n - 1 ==> call_ensures(until, (final(buf)@[i],), false)
            },
            old(self).foretold() ==> final(self).foretold() && (r matches Ok(n) && {
                &&& stops_at(until, old(self).upcoming(), old(buf)@.len(), n as nat)
                &&& final(self).upcoming() == old(self).upcoming().skip(n as int)
                &&& final(buf)@ == old(self).upcoming().take(n as int) + old(buf)@.skip(n as int)
            }),
    {
        let mut read: usize = 0;
        let len = buf.len();
        let ghost up = self.upcoming();
        proof {
            assert(up.skip(0) =~= up);
            assert(buf@ =~= up.take(0) + buf@.skip(0));
        }
        while read < len
            invariant
                read <= len,
                len == buf@.len(),
                len == old(buf)@.len(),
                buf@.skip(read as int) == old(buf)@.skip(read as int),
                forall|c: u8| call_requires(until, (c,)),
                forall|i: int| 0 <= i < read ==> call_ensures(until, (#[trigger] buf@[i],), false),
                up == old(self).upcoming(),
                old(self).foretold() ==> {
                    &&& self.foretold()
                    &&& read <= up.len()
                    &&& self.upcoming() == up.skip(read as int)
                    &&& buf@ == up.take(read as int) + old(buf)@.skip(read as int)
                },
            decreases len - read,
        {
            let c = match self.read_byte() {
                Ok(Some(c)) => c,
                Ok(None) => {
                    proof {
                        if old(self).foretold() {
                            assert forall|i: int| 0 <= i < read - 1 implies call_ensures(
                                until,
                                (#[trigger] up[i],),
                                false,
                            ) by {
                                assert(buf@[i] == up[i]);
                            }
                        }
                    }
                    return Ok(read);
                },
                Err(e) => {
                    return Err(e);
                },
            };
            let ghost before = buf@;
            buf[read] = c;
            proof {
                assert forall|j: int| read < j < len implies buf@[j] == old(buf)@[j] by {
                    assert(before.skip(read as int)[j - read] == before[j]);
                    assert(old(buf)@.skip(read as int)[j - read] == old(buf)@[j]);
                }
                assert(buf@.skip(read + 1) =~= old(buf)@.skip(read + 1));
                if old(self).foretold() {
                    assert(up.skip(read as int)[0] == up[read as int]);
                    assert(up.skip(read as int).skip(1) =~= up.skip(read + 1));
                    assert(buf@ =~= up.take(read + 1) + old(buf)@.skip(read + 1));
                }
            }
            read = read + 1;
            if until(c) {
                proof {
                    if old(self).foretold() {
                        assert forall|i: int| 0 <= i < read - 1 implies call_ensures(
                            until,
                            (#[trigger] up[i],),
                            false,
                        ) by {
                            assert(buf@[i] == up[i]);
                        }
                    }
                }
                return Ok(read);
            }
        }
        proof {
            if old(self).foretold() {
                assert forall|i: int| 0 <= i < read - 1 implies call_ensures(
                    until,
                    (#[trigger] up[i],),
                    false,
                ) by {
                    assert(buf@[i] == up[i]);
                }
            }
        }
        Ok(read)
    }

    /// Reads byte by byte onto the end of `buf` until `max` bytes are read,
    /// the input ends, or `until` holds of a byte, which is the last one
    /// read.
    ///
    /// The count is the number of bytes read; `buf` has grown by them, also
    /// where a read failed after some of them. Of no byte before the last
    /// did `until` hold.
    fn read_bytes_until_or_eof_alloc<F: Fn(u8) -> bool>(
        &mut self,
        buf: &mut Vec<u8>,
        max: usize,
        until: F,
    ) -> (r: Result<usize, IoError>)
        requires
            forall|c: u8| call_requires(until, (c,)),
        ensures
            old(buf)@.is_prefix_of(final(buf)@),
            final(buf)@.len() <= old(buf)@.len() + max,
            forall|i: int|
                old(buf)@.len() <= i < final(buf)@.len() - 1 ==> call_ensures(
                    until,
                    (final(buf)@[i],),
                    false,
                ),
            r matches Ok(n) ==> final(buf)@.len() == old(buf)@.len() + n,
            max == 0 ==> r == Ok::<usize, IoError>(0),
            old(self).foretold() ==> final(self).foretold() && (r matches Ok(n) && {
                &&& stops_at(until, old(self).upcoming(), max as nat, n as nat)
                &&& final(self).upcoming() == old(self).upcoming().skip(n as int)
                &&& final(buf)@ == old(buf)@ + old(self).upcoming().take(n as int)
            }),
    {
        let mut read: usize = 0;
        let ghost up = self.upcoming();
        proof {
            assert(up.skip(0) =~= up);
            assert(buf@ =~= buf@ + up.take(0));
        }
        while read < max
            invariant
                read <= max,
                old(buf)@.is_prefix_of(buf@),
                buf@.len() == old(buf)@.len() + read,
                forall|c: u8| call_requires(until, (c,)),
                forall|i: int|
                    old(buf)@.len() <= i < buf@.len() ==> call_ensures(
                        until,
                        (#[trigger] buf@[i],),
                        false,
                    ),
                up == old(self).upcoming(),
                old(self).foretold() ==> {
                    &&& self.foretold()
                    &&& read <= up.len()
                    &&& self.upcoming() == up.skip(read as int)
                    &&& buf@ == old(buf)@ + up.take(read as int)
                },
            decreases max - read,
        {
            let c = match self.read_byte() {
                Ok(Some(c)) => c,
                Ok(None) => {
                    proof {
                        if old(self).foretold() {
                            assert forall|i: int| 0 <= i < read - 1 implies call_ensures(
                                until,
                                (#[trigger] up[i],),
                                false,
                            ) by {
                                assert(buf@[old(buf)@.len() + i] == up[i]);
                            }
                        }
                    }
                    return Ok(read);
                },
                Err(e) => {
                    return Err(e);
                },
            };
            buf.push(c);
            proof {
                if old(self).foretold() {
                    assert(up.skip(read as int)[0] == up[read as int]);
                    assert(up.skip(read as int).skip(1) =~= up.skip(read + 1));
                    assert(buf@ =~= old(buf)@ + up.take(read + 1));
                }
            }
            read = read + 1;
            if until(c) {
                proof {
                    if old(self).foretold() {
                        assert forall|i: int| 0 <= i < read - 1 implies call_ensures(
                            until,
                            (#[trigger] up[i],),
                            false,
                        ) by {
                            assert(buf@[old(buf)@.len() + i] == up[i]);
                        }
                    }
                }
                return Ok(read);
            }
        }
        proof {
            if old(self).foretold() {
                assert forall|i: int| 0 <= i < read - 1 implies call_ensures(
                    until,
                    (#[trigger] up[i],),
                    false,
                ) by {
                    assert(buf@[old(buf)@.len() + i] == up[i]);
                }
            }
        }
        Ok(read)
    }
}

/// A source over a piece of memory: it gives the bytes in order and then
/// reports the end of the input.
#[derive(Debug)]
pub struct BufReader<'a>(&'a [u8], usize);

impl<'a> BufReader<'a> {
    /// The bytes that are still to come.
    pub closed spec fn remaining(&self) -> Seq<u8> {
        if self.1 <= self.0@.len() {
            self.0@.subrange(self.1 as int, self.0@.len() as int)
        } else {
            Seq::empty()
        }
    }

    /// A reader at the start of `b`.
    pub fn new(b: &'a [u8]) -> (r: Self)
        ensures
            r.remaining() == b@,
    {
        assert(b@.subrange(0, b@.len() as int) =~= b@);
        BufReader(b, 0)
    }
}

impl<'a> CReader for BufReader<'a> {
    /// A reader over memory foretells what it gives.
    open spec fn foretold(&self) -> bool {
        true
    }

    open spec fn upcoming(&self) -> Seq<u8> {
        self.remaining()
    }

    fn read_bytes(&mut self, buf: &mut [u8]) -> (r: Result<usize, IoError>)
        ensures
            read_as_foretold(
                old(self).remaining(),
                old(buf)@,
                r,
                final(self).remaining(),
                final(buf)@,
            ),
    {
        let len = self.0.len();
        if len <= self.1 {
            assert(buf@ =~= self.remaining().take(0) + buf@.skip(0));
            assert(self.remaining().skip(0) =~= self.remaining());
            return Ok(0);
        }
        let left = len - self.1;
        let amount = if buf.len() < left {
            buf.len()
        } else {
            left
        };
        let start = self.1;
        let size = buf.len();
        let mut i: usize = 0;
        while i < amount
            invariant
                i <= amount,
                amount <= size,
                start + amount <= len,
                self.0@.len() == len,
                self.0@ == old(self).0@,
                self.1 == start,
                buf@.len() == size,
                old(buf)@.len() == size,
                buf@ == self.0@.subrange(start as int, start + i) + old(buf)@.subrange(
                    i as int,
                    size as int,
                ),
            decreases amount - i,
        {
            buf[i] = self.0[start + i];
            assert(buf@ =~= self.0@.subrange(start as int, start + i + 1) + old(buf)@.subrange(
                i + 1,
                size as int,
            ));
            i = i + 1;
        }
        self.1 = start + amount;
        proof {
            let rem = old(self).remaining();
            assert(rem.take(amount as int) =~= self.0@.subrange(start as int, start + amount));
            assert(old(buf)@.skip(amount as int) =~= old(buf)@.subrange(
                amount as int,
                size as int,
            ));
            assert(self.remaining() =~= rem.skip(amount as int));
        }
        Ok(amount)
    }
}

/// A value that a conversion read.
#[derive(Debug, Clone, PartialEq, Eq)]
pub enum ScanValue {
    /// What `%d` read.
    Int(i32),
    /// What `%u`, `%x` or `%X` read.
    UInt(u32),
    /// What `%s` read, without a terminator.
    Str(Vec<u8>),
}

/// A scanned value as mathematics sees it.
pub enum Scanned {
    Int(int),
    UInt(nat),
    Str(Seq<u8>),
}

impl View for ScanValue {
    type V = Scanned;

    open spec fn view(&self) -> Scanned {
        match self {
            ScanValue::Int(v) => Scanned::Int(*v as int),
            ScanValue::UInt(v) => Scanned::UInt(*v as nat),
            ScanValue::Str(bytes) => Scanned::Str(bytes@),
        }
    }
}

/// The scanned values that `values` hold.
pub open spec fn scanned(values: Seq<ScanValue>) -> Seq<Scanned> {
    Seq::new(values.len(), |i: int| values[i]@)
}

/// Where a scan stands.
pub struct ScanState {
    /// The place in the format of the literal or conversion that the next
    /// byte of input is for.
    pub index: int,
    /// The bytes gathered so far for the conversion at `index`.
    pub pending: Seq<u8>,
    /// The bytes of input that literals and conversions have taken.
    pub consumed: nat,
    /// The values of the conversions that matched, in order.
    pub values: Seq<Scanned>,
    /// Whether the scan is over.
    pub done: bool,
}

/// Whether `b` is a conversion character that reads input: `d`, `u`, `x`,
/// `X` or `s`.
pub open spec fn reads_input(b: u8) -> bool {
    b == LOWER_D || b == LOWER_U || b == LOWER_X || b == UPPER_X || b == LOWER_S
}

/// The first place at or after `index` where the format wants input: a
/// literal byte or a conversion that reads. A `%` with any other character
/// is passed over with that character; a `%` at the end of the format ends
/// it. The length of the format stands for its end.
pub open spec fn settle(fmt: Seq<u8>, index: int) -> int
    decreases fmt.len() - index,
{
    if index < 0 || index >= fmt.len() {
        fmt.len() as int
    } else if fmt[index] != PERCENT {
        index
    } else if index + 1 >= fmt.len() {
        fmt.len() as int
    } else if reads_input(fmt[index + 1]) {
        index
    } else {
        settle(fmt, index + 2)
    }
}

/// The scan at `index` of the format with the rest of `st`, over where the
/// format is.
pub open spec fn arrive(fmt: Seq<u8>, st: ScanState, index: int) -> ScanState {
    ScanState { index: settle(fmt, index), done: settle(fmt, index) >= fmt.len(), ..st }
}

/// The scan before any input.
pub open spec fn start(fmt: Seq<u8>) -> ScanState {
    arrive(
        fmt,
        ScanState {
            index: 0,
            pending: Seq::empty(),
            consumed: 0,
            values: Seq::empty(),
            done: false,
        },
        0,
    )
}

/// The byte that ends the string of the `%s` at `index`: the byte of the
/// format behind the conversion, zero where the format ends there.
pub open spec fn delimiter(fmt: Seq<u8>, index: int) -> u8 {
    if index + 2 < fmt.len() {
        fmt[index + 2]
    } else {
        NUL
    }
}

/// Whether the conversion `spec` that has gathered `pending` takes `b` too.
///
/// `%d` takes digits, and `-` as its first byte; `%u` takes digits; `%x`
/// takes digits of radix 16, and `x` or `X` behind a single `0`; `%s` takes
/// every byte but `stop`.
pub open spec fn accepts(spec: u8, pending: Seq<u8>, stop: u8, b: u8) -> bool {
    if spec == LOWER_D {
        is_digit(b) || (b == MINUS && pending.len() == 0)
    } else if spec == LOWER_U {
        is_digit(b)
    } else if spec == LOWER_S {
        b != stop
    } else {
        is_hex_digit(b) || ((b == LOWER_X || b == UPPER_X) && pending.len() == 1 && pending[0]
            == DIGIT_0)
    }
}

/// The number that `%d` reads from `text`: digits, after `-` or not, that
/// write a value of 32 bits with sign.
pub open spec fn signed_value(text: Seq<u8>) -> Option<int> {
    if text.len() > 0 && text[0] == MINUS {
        match bounded_value(text.skip(1), Kind::Normal, 0x8000_0000) {
            Some(m) => Some(-(m as int)),
            None => None,
        }
    } else {
        match bounded_value(text, Kind::Normal, 0x7fff_ffff) {
            Some(m) => Some(m as int),
            None => None,
        }
    }
}

/// The digits of a `%x` text: what stands behind `0x` or `0X`, or all of it
/// where it does not begin so.
pub open spec fn hex_body(text: Seq<u8>) -> Seq<u8> {
    if text.len() >= 2 && text[0] == DIGIT_0 && (text[1] == LOWER_X || text[1] == UPPER_X) {
        text.skip(2)
    } else {
        text
    }
}

/// The value that the conversion `spec` makes of the bytes it gathered, or
/// nothing where they are no number of 32 bits. A string is made of any
/// bytes, of none too.
pub open spec fn conclude(spec: u8, pending: Seq<u8>) -> Option<Scanned> {
    if spec == LOWER_D {
        match signed_value(pending) {
            Some(v) => Some(Scanned::Int(v)),
            None => None,
        }
    } else if spec == LOWER_U {
        match bounded_value(pending, Kind::Normal, 0xffff_ffff) {
            Some(v) => Some(Scanned::UInt(v)),
            None => None,
        }
    } else if spec == LOWER_S {
        Some(Scanned::Str(pending))
    } else {
        match bounded_value(hex_body(pending), Kind::Hex, 0xffff_ffff) {
            Some(v) => Some(Scanned::UInt(v)),
            None => None,
        }
    }
}

/// The scan after the next event of the input: a byte, or its end.
///
/// At a literal, the byte that equals it is taken and the scan moves on;
/// anything else ends the scan. At a conversion, a byte that the conversion
/// accepts is taken and gathered. Any other event closes the conversion: if
/// what was gathered makes a value, the value is kept, the scan moves on,
/// and the same event, which is not taken, goes to what follows in the
/// format; if it makes none, the scan ends.
pub open spec fn feed(fmt: Seq<u8>, st: ScanState, byte: Option<u8>) -> ScanState
    decreases fmt.len() - st.index,
{
    if st.done || st.index < 0 || st.index >= fmt.len() {
        ScanState { done: true, ..st }
    } else if fmt[st.index] != PERCENT {
        if byte == Some(fmt[st.index]) {
            arrive(fmt, ScanState { consumed: st.consumed + 1, ..st }, st.index + 1)
        } else {
            ScanState { done: true, ..st }
        }
    } else if st.index + 1 >= fmt.len() {
        ScanState { done: true, ..st }
    } else {
        let spec = fmt[st.index + 1];
        if byte is Some && accepts(spec, st.pending, delimiter(fmt, st.index), byte->0) {
            ScanState { pending: st.pending.push(byte->0), consumed: st.consumed + 1, ..st }
        } else {
            match conclude(spec, st.pending) {
                None => ScanState { done: true, ..st },
                Some(v) => {
                    let next = arrive(
                        fmt,
                        ScanState { pending: Seq::empty(), values: st.values.push(v), ..st },
                        st.index + 2,
                    );
                    if next.done || next.index <= st.index {
                        next
                    } else {
                        feed(fmt, next, byte)
                    }
                },
            }
        }
    }
}

/// The scan after the bytes of `input`, from `st`.
pub open spec fn run(fmt: Seq<u8>, st: ScanState, input: Seq<u8>) -> ScanState
    decreases input.len(),
{
    if input.len() == 0 {
        st
    } else {
        feed(fmt, run(fmt, st, input.drop_last()), Some(input.last()))
    }
}

/// The scan of all of `input`, with its end.
pub open spec fn scan(fmt: Seq<u8>, input: Seq<u8>) -> ScanState {
    feed(fmt, run(fmt, start(fmt), input), None)
}

/// The first place at or after `index` where `fmt` wants input.
pub fn settle_from(fmt: &[u8], index: usize) -> (r: usize)
    ensures
        r == settle(fmt@, index as int),
        r <= fmt@.len(),
        index <= fmt@.len() ==> r >= index,
{
    let mut at: usize = index;
    while at < fmt.len()
        invariant
            settle(fmt@, index as int) == settle(fmt@, at as int),
            at >= index,
        decreases fmt@.len() - at,
    {
        if fmt[at] != PERCENT {
            return at;
        }
        if at + 1 >= fmt.len() {
            return fmt.len();
        }
        let spec = fmt[at + 1];
        if spec == LOWER_D || spec == LOWER_U || spec == LOWER_X || spec == UPPER_X || spec
            == LOWER_S {
            return at;
        }
        at = at + 2;
    }
    fmt.len()
}

/// Whether the conversion `spec` that has gathered `pending` takes `b` too.
pub fn accepts_byte(spec: u8, pending: &Vec<u8>, stop: u8, b: u8) -> (r: bool)
    ensures
        r == accepts(spec, pending@, stop, b),
{
    let digit = DIGIT_0 <= b && b <= DIGIT_9;
    if spec == LOWER_D {
        digit || (b == MINUS && pending.len() == 0)
    } else if spec == LOWER_U {
        digit
    } else if spec == LOWER_S {
        b != stop
    } else {
        let letter = (UPPER_A <= b && b <= UPPER_F) || (LOWER_A <= b && b <= LOWER_F);
        let prefix = (b == LOWER_X || b == UPPER_X) && pending.len() == 1 && pending[0] == DIGIT_0;
        digit || letter || prefix
    }
}

/// The value that the conversion `spec` makes of the bytes it gathered.
pub fn conclude_value(spec: u8, pending: &[u8]) -> (r: Option<ScanValue>)
    ensures
        match conclude(spec, pending@) {
            Some(v) => r matches Some(x) && x@ == v,
            None => r.is_none(),
        },
{
    if spec == LOWER_D {
        if pending.len() > 0 && pending[0] == MINUS {
            assert(pending@.skip(1) =~= pending@.subrange(1, pending@.len() as int));
            let digits = slice_subrange(pending, 1, pending.len());
            match parse_digits(digits, Kind::Normal, 0x8000_0000) {
                Some(m) => Some(ScanValue::Int((0 - m as i64) as i32)),
                None => None,
            }
        } else {
            match parse_digits(pending, Kind::Normal, 0x7fff_ffff) {
                Some(m) => Some(ScanValue::Int(m as i32)),
                None => None,
            }
        }
    } else if spec == LOWER_U {
        match parse_digits(pending, Kind::Normal, 0xffff_ffff) {
            Some(m) => Some(ScanValue::UInt(m as u32)),
            None => None,
        }
    } else if spec == LOWER_S {
        Some(ScanValue::Str(slice_to_vec(pending)))
    } else {
        let prefixed = pending.len() >= 2 && pending[0] == DIGIT_0 && (pending[1] == LOWER_X || pending[1]
            == UPPER_X);
        let body = if prefixed {
            assert(pending@.skip(2) =~= pending@.subrange(2, pending@.len() as int));
            slice_subrange(pending, 2, pending.len())
        } else {
            pending
        };
        match parse_digits(body, Kind::Hex, 0xffff_ffff) {
            Some(m) => Some(ScanValue::UInt(m as u32)),
            None => None,
        }
    }
}

/// The walk of the scanning engine over a format. It reads nothing itself:
/// its user feeds it the input, one byte at a time, for as long as it needs
/// input.
#[derive(Debug)]
pub struct Scanner<'f> {
    /// The format.
    pub fmt: &'f [u8],
    /// The place in the format of the literal or conversion that the next
    /// byte is for.
    pub index: usize,
    /// The bytes gathered for the conversion at `index`.
    pub pending: Vec<u8>,
    /// The bytes of input taken so far.
    pub consumed: usize,
    /// The values of the conversions that matched.
    pub values: Vec<ScanValue>,
    /// Whether the scan is over.
    pub done: bool,
}

impl<'f> View for Scanner<'f> {
    type V = ScanState;

    open spec fn view(&self) -> ScanState {
        ScanState {
            index: self.index as int,
            pending: self.pending@,
            consumed: self.consumed as nat,
            values: scanned(self.values@),
            done: self.done,
        }
    }
}

impl<'f> Scanner<'f> {
    /// A scan of `fmt` before any input.
    pub fn new(fmt: &'f [u8]) -> (s: Self)
        ensures
            s.fmt@ == fmt@,
            s@ == start(fmt@),
    {
        let index = settle_from(fmt, 0);
        let s = Scanner {
            fmt,
            index,
            pending: Vec::new(),
            consumed: 0,
            values: Vec::new(),
            done: index >= fmt.len(),
        };
        assert(scanned(s.values@) =~= Seq::<Scanned>::empty());
        s
    }

    /// Whether the scan can use another byte of input.
    pub fn needs_input(&self) -> (r: bool)
        ensures
            r == !self.done,
    {
        !self.done
    }

    /// Gives the scan the next event of the input: a byte, or `None` for
    /// its end. A byte is either taken, or the scan is over.
    pub fn feed(&mut self, byte: Option<u8>)
        requires
            byte is Some ==> old(self).consumed < usize::MAX,
        ensures
            final(self).fmt@ == old(self).fmt@,
            final(self)@ == feed(old(self).fmt@, old(self)@, byte),
            final(self).done || (byte is Some && final(self).consumed == old(self).consumed + 1),
            old(self).consumed <= final(self).consumed <= old(self).consumed + 1,
            byte is None ==> final(self).consumed == old(self).consumed,
    {
        let len = self.fmt.len();
        loop
            invariant_except_break
                feed(old(self).fmt@, old(self)@, byte) == feed(self.fmt@, self@, byte),
                self.consumed == old(self).consumed,
            invariant
                self.fmt@ == old(self).fmt@,
                len == self.fmt@.len(),
                byte is Some ==> old(self).consumed < usize::MAX,
            ensures
                self@ == feed(old(self).fmt@, old(self)@, byte),
                self.done || (byte is Some && self.consumed == old(self).consumed + 1),
                old(self).consumed <= self.consumed <= old(self).consumed + 1,
                byte is None ==> self.consumed == old(self).consumed,
            decreases len - self.index,
        {
            if self.done || self.index >= len {
                self.done = true;
                break;
            }
            let here = self.fmt[self.index];
            if here != PERCENT {
                if byte == Some(here) {
                    self.consumed = self.consumed + 1;
                    self.index = settle_from(self.fmt, self.index + 1);
                    self.done = self.index >= len;
                } else {
                    self.done = true;
                }
                break;
            }
            if self.index + 1 >= len {
                self.done = true;
                break;
            }
            let spec = self.fmt[self.index + 1];
            let stop: u8 = if self.index + 2 < len {
                self.fmt[self.index + 2]
            } else {
                NUL
            };
            let taken = match byte {
                Some(b) => accepts_byte(spec, &self.pending, stop, b),
                None => false,
            };
            if taken {
                match byte {
                    Some(b) => {
                        self.pending.push(b);
                    },
                    None => {},
                }
                self.consumed = self.consumed + 1;
                break;
            }
            match conclude_value(spec, self.pending.as_slice()) {
                None => {
                    self.done = true;
                    break;
                },
                Some(value) => {
                    let ghost before = self@;
                    let ghost shown = value@;
                    self.pending.clear();
                    self.values.push(value);
                    self.index = settle_from(self.fmt, self.index + 2);
                    self.done = self.index >= len;
                    proof {
                        assert(scanned(self.values@) =~= before.values.push(shown));
                        assert(self@ == arrive(
                            self.fmt@,
                            ScanState {
                                pending: Seq::empty(),
                                values: before.values.push(shown),
                                ..before
                            },
                            before.index + 2,
                        ));
                    }
                    if self.done {
                        break;
                    }
                },
            }
        }
    }

    /// Ends the scan and gives its outcome: the bytes of input taken, the
    /// number of conversions that matched, and their values.
    pub fn finish(self) -> (r: (usize, usize, Vec<ScanValue>))
        ensures
            r.0 == self.consumed,
            r.1 == self.values@.len(),
            r.2 == self.values,
    {
        let matched = self.values.len();
        (self.consumed, matched, self.values)
    }
}

/// Whether `r` is the outcome of the scan that stands at `st`: the bytes
/// taken, the number of values, and the values.
pub open spec fn outcome_is(r: (usize, usize, Vec<ScanValue>), st: ScanState) -> bool {
    r.0 == st.consumed && r.1 == st.values.len() && scanned(r.2@) == st.values
}

/// A scan that is over stays as it is, whatever comes.
pub proof fn lemma_over_is_over(fmt: Seq<u8>, st: ScanState, input: Seq<u8>, upto: int)
    requires
        0 <= upto <= input.len(),
        run(fmt, st, input.subrange(0, upto)).done,
    ensures
        run(fmt, st, input) == run(fmt, st, input.subrange(0, upto)),
        feed(fmt, run(fmt, st, input), None) == run(fmt, st, input),
    decreases input.len() - upto,
{
    if upto == input.len() {
        assert(input.subrange(0, upto) =~= input);
    } else {
        assert(input.drop_last().subrange(0, upto) =~= input.subrange(0, upto));
        lemma_over_is_over(fmt, st, input.drop_last(), upto);
    }
}

/// How many bytes of `input` a scan reads from a source that holds it: the
/// bytes it takes, and one more where it ends on a byte that it reads and
/// does not take. It reads no byte once the format is through.
pub open spec fn given(fmt: Seq<u8>, input: Seq<u8>) -> nat {
    let taken = scan(fmt, input).consumed;
    if taken < input.len() && !run(fmt, start(fmt), input.take(taken as int)).done {
        taken + 1
    } else {
        taken
    }
}

/// The byte of `input` that a scan reads from a source and does not take,
/// if it ends on such a byte.
pub open spec fn unread(fmt: Seq<u8>, input: Seq<u8>) -> Option<u8> {
    if given(fmt, input) > scan(fmt, input).consumed {
        Some(input[scan(fmt, input).consumed as int])
    } else {
        None
    }
}

/// Scans what `reader` gives as `fmt` says, one byte per read, until the
/// format is through, the input ends or does not match, or a read fails.
///
/// The result is the outcome of the scan of the bytes that the reader gave,
/// with the end of the input if the reader reported it, and beside it the
/// byte that the scan ended on without taking it, if there is one. That
/// byte was read, for it is the only way to see it; it is not counted, and
/// it is handed back so that its reader can keep it for the next read. A
/// mismatch is no failure; only a failed read is. Where the format wants no
/// input, the reader is not asked.
///
/// Of a reader that foretells what it gives, all is known: the outcome is
/// that of the scan of all it has to give, the reader has given the bytes
/// that [`given`] counts, and the byte handed back is the one that
/// [`unread`] names.
pub fn scanf_from<R: CReader>(reader: &mut R, fmt: &[u8]) -> (r: Result<
    ((usize, usize, Vec<ScanValue>), Option<u8>),
    IoError,
>)
    ensures
        r matches Ok(out) ==> exists|seen: Seq<u8>|
            (outcome_is(out.0, #[trigger] run(fmt@, start(fmt@), seen)) && out.1 == if seen.len()
                > out.0.0 {
                Some(seen.last())
            } else {
                None
            }) || (outcome_is(out.0, scan(fmt@, seen)) && out.1.is_none()),
        start(fmt@).done ==> (r matches Ok(out) && outcome_is(out.0, start(fmt@))
            && out.1.is_none()),
        old(reader).foretold() && old(reader).upcoming().len() < usize::MAX ==> 
            final(reader).foretold() && (r matches Ok(out) && {
            &&& outcome_is(out.0, scan(fmt@, old(reader).upcoming()))
            &&& out.1 == unread(fmt@, old(reader).upcoming())
            &&& final(reader).upcoming() == old(reader).upcoming().skip(
                given(fmt@, old(reader).upcoming()) as int,
            )
        }),
{
    let mut scanner = Scanner::new(fmt);
    let ghost mut seen: Seq<u8> = Seq::empty();
    let ghost up = reader.upcoming();
    let ghost known = reader.foretold() && up.len() < usize::MAX;
    proof {
        assert(up.skip(0) =~= up);
        assert(up.take(0) =~= seen);
    }
    while scanner.needs_input() && scanner.consumed < usize::MAX
        invariant
            scanner.fmt@ == fmt@,
            scanner@ == run(fmt@, start(fmt@), seen),
            start(fmt@).done ==> seen.len() == 0,
            scanner.done ==> seen.len() == 0 && scanner.consumed == 0,
            !scanner.done ==> scanner.consumed == seen.len(),
            up == old(reader).upcoming(),
            known == (old(reader).foretold() && up.len() < usize::MAX),
            known ==> {
                &&& reader.foretold()
                &&& seen.len() <= up.len()
                &&& seen == up.take(seen.len() as int)
                &&& reader.upcoming() == up.skip(seen.len() as int)
            },
        decreases usize::MAX - scanner.consumed,
    {
        match reader.read_byte()? {
            Some(b) => {
                let ghost before = seen;
                proof {
                    assert(seen.push(b).drop_last() =~= seen);
                    if known {
                        let k = seen.len() as int;
                        assert(up.skip(k)[0] == up[k]);
                        assert(up.skip(k).skip(1) =~= up.skip(k + 1));
                        assert(up.take(k).push(b) =~= up.take(k + 1));
                    }
                    seen = seen.push(b);
                }
                let taken_before = scanner.consumed;
                scanner.feed(Some(b));
                if !scanner.needs_input() {
                    let back = if scanner.consumed > taken_before {
                        None
                    } else {
                        Some(b)
                    };
                    let out = scanner.finish();
                    proof {
                        assert(outcome_is(out, run(fmt@, start(fmt@), seen)));
                        if known {
                            let k = seen.len() as int;
                            assert(up.subrange(0, k) =~= seen);
                            lemma_over_is_over(fmt@, start(fmt@), up, k);
                            assert(scan(fmt@, up).consumed == out.0);
                            if out.0 == taken_before {
                                assert(up.take(out.0 as int) == before);
                            } else {
                                assert(up.take(out.0 as int) == seen);
                            }
                        }
                    }
                    return Ok((out, back));
                }
            },
            None => {
                scanner.feed(None);
                let out = scanner.finish();
                proof {
                    assert(outcome_is(out, scan(fmt@, seen)));
                    if known {
                        assert(seen =~= up);
                    }
                }
                return Ok((out, None));
            },
        }
    }
    let out = scanner.finish();
    proof {
        assert(outcome_is(out, run(fmt@, start(fmt@), seen)));
        if known {
            let k = seen.len() as int;
            assert(up.subrange(0, k) =~= seen);
            lemma_over_is_over(fmt@, start(fmt@), up, k);
            assert(up.take(0) =~= seen);
        }
    }
    Ok((out, None))
}

/// The format `%d`.
pub open spec fn decimal_format() -> Seq<u8> {
    seq![PERCENT, LOWER_D]
}

/// While `%d` gathers the bytes of a number, the scan stands at the
/// conversion and has taken every byte so far.
pub proof fn lemma_gather_decimal(text: Seq<u8>, upto: int)
    requires
        signed_value(text).is_some(),
        0 <= upto <= text.len(),
    ensures
        run(decimal_format(), start(decimal_format()), text.subrange(0, upto)) == (ScanState {
            index: 0,
            pending: text.subrange(0, upto),
            consumed: upto as nat,
            values: Seq::empty(),
            done: false,
        }),
    decreases upto,
{
    let fmt = decimal_format();
    if upto == 0 {
        assert(text.subrange(0, 0) =~= Seq::<u8>::empty());
    } else {
        lemma_gather_decimal(text, upto - 1);
        let head = text.subrange(0, upto);
        assert(head.drop_last() =~= text.subrange(0, upto - 1));
        assert(head.last() == text[upto - 1]);
        if text[0] == MINUS {
            if upto - 1 > 0 {
                assert(text.skip(1)[upto - 2] == text[upto - 1]);
            }
        } else {
            assert(is_digit(text[upto - 1]));
        }
        assert(text.subrange(0, upto - 1).push(text[upto - 1]) =~= head);
    }
}

/// `%d` reads a decimal number exactly and leaves what follows it alone.
///
/// Where `text` writes a number of 32 bits with sign, the input is `text`
/// and then `then`, and `then` is empty or begins with a byte that is no
/// digit, the scan of `%d` yields that number as its one value and has
/// taken the bytes of `text` and no more: the byte that ends the number is
/// not taken.
pub proof fn lemma_scan_decimal(text: Seq<u8>, value: int, then: Seq<u8>)
    requires
        signed_value(text) == Some(value),
        then.len() > 0 ==> !is_digit(then[0]),
    ensures
        scan(decimal_format(), text + then) == (ScanState {
            index: 2,
            pending: Seq::empty(),
            consumed: text.len(),
            values: seq![Scanned::Int(value)],
            done: true,
        }),
{
    let fmt = decimal_format();
    let input = text + then;
    let n = text.len() as int;
    lemma_gather_decimal(text, n);
    assert(text.subrange(0, n) =~= text);
    assert(input.subrange(0, n) =~= text);
    let gathered = run(fmt, start(fmt), text);
    assert(settle(fmt, 2) == 2);
    assert(Seq::<Scanned>::empty().push(Scanned::Int(value)) =~= seq![Scanned::Int(value)]);
    if then.len() == 0 {
        assert(input =~= text);
    } else {
        let more = input.subrange(0, n + 1);
        assert(more.drop_last() =~= text);
        assert(more.last() == then[0]);
        assert(run(fmt, start(fmt), more) == feed(fmt, gathered, Some(then[0])));
        lemma_over_is_over(fmt, start(fmt), input, n + 1);
    }
}

/// From a source, `%d` reads the number and the one byte that ends it, and
/// hands that byte back: where `text` writes a number of 32 bits with sign
/// and is followed by a byte that is no digit, the scan reads one byte
/// more than it takes, and that byte is the one it names as unread; where
/// nothing follows, it reads what it takes.
pub proof fn lemma_scan_decimal_gives(text: Seq<u8>, value: int, then: Seq<u8>)
    requires
        signed_value(text) == Some(value),
        then.len() > 0 ==> !is_digit(then[0]),
    ensures
        given(decimal_format(), text + then) == if then.len() > 0 {
            text.len() + 1
        } else {
            text.len()
        },
        unread(decimal_format(), text + then) == if then.len() > 0 {
            Some(then[0])
        } else {
            None
        },
{
    let input = text + then;
    lemma_scan_decimal(text, value, then);
    lemma_gather_decimal(text, text.len() as int);
    assert(text.subrange(0, text.len() as int) =~= text);
    assert(input.take(text.len() as int) =~= text);
}

/// An event of the input moves a scan on by one byte at most, and leaves
/// every value that was read in its place.
pub proof fn lemma_feed_bounds(fmt: Seq<u8>, st: ScanState, byte: Option<u8>)
    ensures
        st.consumed <= feed(fmt, st, byte).consumed <= st.consumed + 1,
        byte.is_none() ==> feed(fmt, st, byte).consumed == st.consumed,
        st.values.is_prefix_of(feed(fmt, st, byte).values),
    decreases fmt.len() - st.index,
{
    if st.done || st.index < 0 || st.index >= fmt.len() {
    } else if fmt[st.index] != PERCENT {
    } else if st.index + 1 >= fmt.len() {
    } else {
        let spec = fmt[st.index + 1];
        if byte is Some && accepts(spec, st.pending, delimiter(fmt, st.index), byte->0) {
        } else {
            match conclude(spec, st.pending) {
                None => {},
                Some(v) => {
                    let next = arrive(
                        fmt,
                        ScanState { pending: Seq::empty(), values: st.values.push(v), ..st },
                        st.index + 2,
                    );
                    if next.done || next.index <= st.index {
                    } else {
                        lemma_feed_bounds(fmt, next, byte);
                    }
                },
            }
        }
    }
}

/// A scan takes no more bytes than the input holds.
pub proof fn lemma_scan_bounds(fmt: Seq<u8>, input: Seq<u8>)
    ensures
        run(fmt, start(fmt), input).consumed <= input.len(),
        scan(fmt, input).consumed <= input.len(),
    decreases input.len(),
{
    if input.len() > 0 {
        lemma_scan_bounds(fmt, input.drop_last());
        lemma_feed_bounds(fmt, run(fmt, start(fmt), input.drop_last()), Some(input.last()));
    }
    lemma_feed_bounds(fmt, run(fmt, start(fmt), input), None);
}

/// A source with room for bytes that were read from it and not taken. What
/// is put back is given again, before anything else, by the next read.
#[derive(Debug)]
pub struct Unread<R: CReader> {
    /// The source itself.
    pub inner: R,
    /// The bytes that were put back, in the order in which they are given.
    pub kept: Vec<u8>,
}

impl<R: CReader> Unread<R> {
    /// `inner` with nothing put back.
    pub fn new(inner: R) -> (source: Self)
        ensures
            source.inner == inner,
            source.kept@ == Seq::<u8>::empty(),
    {
        Unread { inner, kept: Vec::new() }
    }

    /// Puts `b` back: it is the next byte that the source gives.
    pub fn unread_byte(&mut self, b: u8)
        ensures
            final(self).inner == old(self).inner,
            final(self).kept@ == seq![b] + old(self).kept@,
            final(self).foretold() == old(self).foretold(),
            final(self).upcoming() == seq![b] + old(self).upcoming(),
    {
        self.kept.insert(0, b);
        assert(self.kept@ =~= seq![b] + old(self).kept@);
        assert(self.upcoming() =~= seq![b] + old(self).upcoming());
    }

    /// Scans what the source gives as `fmt` says, and puts back the byte
    /// that the scan ended on without taking it.
    ///
    /// The result is that of [`scanf_from`] without the byte. Of a source
    /// that foretells what it gives, the outcome is that of the scan of
    /// all it has to give, and the source has given the bytes that were
    /// taken and no other: the byte that ends a number or a string is the
    /// first that the next read gives.
    pub fn scanf(&mut self, fmt: &[u8]) -> (r: Result<(usize, usize, Vec<ScanValue>), IoError>)
        ensures
            r matches Ok(out) ==> exists|seen: Seq<u8>|
                outcome_is(out, #[trigger] run(fmt@, start(fmt@), seen)) || outcome_is(
                    out,
                    scan(fmt@, seen),
                ),
            start(fmt@).done ==> (r matches Ok(out) && outcome_is(out, start(fmt@))),
            old(self).foretold() && old(self).upcoming().len() < usize::MAX ==>
                final(self).foretold() && (r matches Ok(out) && {
                &&& outcome_is(out, scan(fmt@, old(self).upcoming()))
                &&& final(self).upcoming() == old(self).upcoming().skip(out.0 as int)
            }),
    {
        let ghost up = self.upcoming();
        let (out, back) = match scanf_from(self, fmt) {
            Ok(found) => found,
            Err(e) => {
                return Err(e);
            },
        };
        match back {
            Some(b) => {
                proof {
                    if old(self).foretold() && up.len() < usize::MAX {
                        let taken = scan(fmt@, up).consumed as int;
                        assert(seq![b] + up.skip(taken + 1) =~= up.skip(taken));
                    }
                }
                self.unread_byte(b);
            },
            None => {},
        }
        Ok(out)
    }
}

impl<R: CReader> CReader for Unread<R> {
    /// A source with bytes put back foretells what it gives where the
    /// source itself does.
    open spec fn foretold(&self) -> bool {
        self.inner.foretold()
    }

    open spec fn upcoming(&self) -> Seq<u8> {
        self.kept@ + self.inner.upcoming()
    }

    fn read_bytes(&mut self, buf: &mut [u8]) -> (r: Result<usize, IoError>) {
        let size = buf.len();
        let have = self.kept.len();
        let first = if have < size {
            have
        } else {
            size
        };
        let ghost before = buf@;
        let ghost inner_up = self.inner.upcoming();
        let ghost kept0 = self.kept@;
        let (front, back) = buf.split_at_mut(first);
        let more = if first < size {
            match self.inner.read_bytes(back) {
                Ok(n) => n,
                Err(e) => {
                    return Err(e);
                },
            }
        } else {
            0
        };
        let ghost back_after = back@;
        let mut i: usize = 0;
        while i < first
            invariant
                i <= first,
                first <= self.kept@.len(),
                first == front@.len(),
                self.kept@ == kept0,
                forall|j: int| 0 <= j < i ==> front@[j] == kept0[j],
            decreases first - i,
        {
            front[i] = self.kept[i];
            i = i + 1;
        }
        let rest = self.kept.split_off(first);
        self.kept = rest;
        proof {
            assert(front@ =~= kept0.take(first as int));
            assert(self.kept@ =~= kept0.skip(first as int));
            if old(self).foretold() {
                let up = kept0 + inner_up;
                let n = first + more;
                if first < size {
                    assert(first == have);
                    assert(up.skip(n as int) =~= inner_up.skip(more as int));
                    assert(before.subrange(first as int, size as int).skip(more as int)
                        =~= before.skip(n as int));
                    assert(front@ + back_after =~= up.take(n as int) + before.skip(n as int));
                    assert(self.upcoming() =~= up.skip(n as int));
                } else {
                    assert(inner_up.skip(0) =~= inner_up);
                    assert(back_after =~= before.skip(n as int));
                    assert(front@ + back_after =~= up.take(n as int) + before.skip(n as int));
                    assert(self.upcoming() =~= up.skip(n as int));
                }
            }
        }
        Ok(first + more)
    }
}

} // verus!
