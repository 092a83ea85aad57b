use cstdio::errors::IoError;
use cstdio::format::Arg;
use cstdio::parse::{
    accepts_byte, conclude_value, scanf_from, settle_from, BufReader, CReader, ScanValue, Scanner,
    Unread,
};
use cstdio::stdio::{fgetline, fgets, sscanf, vsnprintf};

/// A source that gives the bytes of `data` one read at a time and then
/// fails with `status`.
struct Breaking {
    data: Vec<u8>,
    at: usize,
    status: u16,
}

impl CReader for Breaking {
    fn read_bytes(&mut self, buf: &mut [u8]) -> Result<usize, IoError> {
        if self.at >= self.data.len() {
            return Err(IoError { status: self.status });
        }
        if buf.is_empty() {
            return Ok(0);
        }
        buf[0] = self.data[self.at];
        self.at += 1;
        Ok(1)
    }
}

#[test]
fn decimal_stops_before_its_terminator() {
    assert_eq!(sscanf(b"123 rest", b"%d"), (3, 1, vec![ScanValue::Int(123)]));
    assert_eq!(sscanf(b"-45,", b"%d"), (3, 1, vec![ScanValue::Int(-45)]));
    assert_eq!(sscanf(b"7-3", b"%d"), (1, 1, vec![ScanValue::Int(7)]));
    assert_eq!(sscanf(b"0", b"%d"), (1, 1, vec![ScanValue::Int(0)]));
    assert_eq!(sscanf(b"-0", b"%d"), (2, 1, vec![ScanValue::Int(0)]));
    assert_eq!(sscanf(b"007x", b"%d"), (3, 1, vec![ScanValue::Int(7)]));
}

#[test]
fn decimal_at_both_ends_of_its_range() {
    assert_eq!(sscanf(b"2147483647", b"%d"), (10, 1, vec![ScanValue::Int(i32::MAX)]));
    assert_eq!(sscanf(b"-2147483648\n", b"%d"), (11, 1, vec![ScanValue::Int(i32::MIN)]));
}

#[test]
fn decimal_out_of_range_is_no_match() {
    assert_eq!(sscanf(b"2147483648", b"%d"), (10, 0, vec![]));
    assert_eq!(sscanf(b"-2147483649", b"%d"), (11, 0, vec![]));
    assert_eq!(sscanf(b"99999999999999999999999", b"%d"), (23, 0, vec![]));
}

#[test]
fn text_that_is_no_number_is_no_match() {
    assert_eq!(sscanf(b"abc", b"%d"), (0, 0, vec![]));
    assert_eq!(sscanf(b"-", b"%d"), (1, 0, vec![]));
    assert_eq!(sscanf(b"-x", b"%d"), (1, 0, vec![]));
    assert_eq!(sscanf(b"", b"%d"), (0, 0, vec![]));
    assert_eq!(sscanf(b"+5", b"%d"), (0, 0, vec![]));
    assert_eq!(sscanf(b"-5", b"%u"), (0, 0, vec![]));
}

#[test]
fn unsigned_decimal() {
    assert_eq!(sscanf(b"4294967295;", b"%u"), (10, 1, vec![ScanValue::UInt(u32::MAX)]));
    assert_eq!(sscanf(b"4294967296", b"%u"), (10, 0, vec![]));
    assert_eq!(sscanf(b"12", b"%u"), (2, 1, vec![ScanValue::UInt(12)]));
}

#[test]
fn hex_with_and_without_prefix() {
    assert_eq!(sscanf(b"0x1F ", b"%x"), (4, 1, vec![ScanValue::UInt(31)]));
    assert_eq!(sscanf(b"0Xff", b"%X"), (4, 1, vec![ScanValue::UInt(255)]));
    assert_eq!(sscanf(b"beefy", b"%x"), (4, 1, vec![ScanValue::UInt(0xbeef)]));
    assert_eq!(sscanf(b"0", b"%x"), (1, 1, vec![ScanValue::UInt(0)]));
    assert_eq!(sscanf(b"ffffffff", b"%x"), (8, 1, vec![ScanValue::UInt(u32::MAX)]));
    assert_eq!(sscanf(b"100000000", b"%x"), (9, 0, vec![]));
    assert_eq!(sscanf(b"0x", b"%x"), (2, 0, vec![]));
    assert_eq!(sscanf(b"0xg", b"%x"), (2, 0, vec![]));
    assert_eq!(sscanf(b"1x2", b"%x"), (1, 1, vec![ScanValue::UInt(1)]));
    assert_eq!(sscanf(b"xyz", b"%x"), (0, 0, vec![]));
}

#[test]
fn string_ends_at_the_next_byte_of_the_format() {
    assert_eq!(
        sscanf(b"ab,12", b"%s,%d"),
        (5, 2, vec![ScanValue::Str(b"ab".to_vec()), ScanValue::Int(12)])
    );
    assert_eq!(sscanf(b"ab", b"%s,"), (2, 1, vec![ScanValue::Str(b"ab".to_vec())]));
    assert_eq!(sscanf(b",x", b"%s,"), (1, 1, vec![ScanValue::Str(Vec::new())]));
}

#[test]
fn string_without_a_following_byte_ends_at_zero_or_at_the_end() {
    assert_eq!(sscanf(b"a b\0c", b"%s"), (3, 1, vec![ScanValue::Str(b"a b".to_vec())]));
    assert_eq!(sscanf(b"a b", b"%s"), (3, 1, vec![ScanValue::Str(b"a b".to_vec())]));
    assert_eq!(sscanf(b"", b"%s"), (0, 1, vec![ScanValue::Str(Vec::new())]));
}

#[test]
fn literals_must_match() {
    assert_eq!(sscanf(b"x=5", b"x=%d"), (3, 1, vec![ScanValue::Int(5)]));
    assert_eq!(sscanf(b"y=5", b"x=%d"), (0, 0, vec![]));
    assert_eq!(sscanf(b"x:5", b"x=%d"), (1, 0, vec![]));
    assert_eq!(sscanf(b"x", b"x=%d"), (1, 0, vec![]));
    assert_eq!(sscanf(b"abc", b"abc"), (3, 0, vec![]));
    assert_eq!(sscanf(b"abcd", b"abc"), (3, 0, vec![]));
}

#[test]
fn several_conversions() {
    assert_eq!(
        sscanf(b"10 20 ff", b"%d %u %x"),
        (8, 3, vec![ScanValue::Int(10), ScanValue::UInt(20), ScanValue::UInt(255)])
    );
    assert_eq!(sscanf(b"10 x", b"%d %d"), (3, 1, vec![ScanValue::Int(10)]));
    assert_eq!(sscanf(b"1-2", b"%d%d"), (3, 2, vec![ScanValue::Int(1), ScanValue::Int(-2)]));
}

#[test]
fn conversions_that_read_nothing_are_passed_over() {
    assert_eq!(sscanf(b"5", b"%q%d"), (1, 1, vec![ScanValue::Int(5)]));
    assert_eq!(sscanf(b"5", b"%d%q"), (1, 1, vec![ScanValue::Int(5)]));
    assert_eq!(sscanf(b"%5", b"%%%d"), (0, 0, vec![]));
    assert_eq!(sscanf(b"5", b"%"), (0, 0, vec![]));
    assert_eq!(sscanf(b"5", b"%d%"), (1, 1, vec![ScanValue::Int(5)]));
    assert_eq!(sscanf(b"5", b""), (0, 0, vec![]));
}

#[test]
fn printing_then_scanning_gives_the_number_back() {
    for n in [0, 1, -1, 9, 10, -10, 12345, -98765, i32::MAX, i32::MIN, i32::MAX - 1, i32::MIN + 1] {
        let mut buf = [0u8; 16];
        let count = vsnprintf(&mut buf, b"%d", &[Arg::Int(n)]).unwrap();
        assert_eq!(sscanf(&buf[..count], b"%d"), (count, 1, vec![ScanValue::Int(n)]));
    }
}

#[test]
fn printing_then_scanning_under_each_length_modifier() {
    let cases: [(&[u8], Arg, i32); 10] = [
        (b"%hhd", Arg::Int(127), 127),
        (b"%hhd", Arg::Int(-128), -128),
        (b"%hhd", Arg::Int(255), -1),
        (b"%hd", Arg::Int(32767), 32767),
        (b"%hd", Arg::Int(-32768), -32768),
        (b"%ld", Arg::Long(i32::MIN as i64), i32::MIN),
        (b"%lld", Arg::Long(i32::MAX as i64), i32::MAX),
        (b"%td", Arg::PtrDiff(-5), -5),
        (b"%jd", Arg::PtrDiff(77), 77),
        (b"%zd", Arg::Size(2147483647), i32::MAX),
    ];
    for (fmt, arg, value) in cases {
        let mut buf = [0u8; 32];
        let count = vsnprintf(&mut buf, fmt, &[arg]).unwrap();
        assert_eq!(sscanf(&buf[..count], b"%d"), (count, 1, vec![ScanValue::Int(value)]));
    }
}

#[test]
fn a_long_beyond_an_int_does_not_scan_back() {
    let mut buf = [0u8; 32];
    let count = vsnprintf(&mut buf, b"%lld", &[Arg::Long(2147483648)]).unwrap();
    assert_eq!(sscanf(&buf[..count], b"%d"), (10, 0, vec![]));
}

#[test]
fn buf_reader_gives_its_bytes_and_then_the_end() {
    let mut r = BufReader::new(b"abcde");
    let mut buf = [0u8; 3];
    assert_eq!(r.read_bytes(&mut buf), Ok(3));
    assert_eq!(&buf, b"abc");
    assert_eq!(r.read_bytes(&mut buf), Ok(2));
    assert_eq!(&buf, b"dec");
    assert_eq!(r.read_bytes(&mut buf), Ok(0));
    assert_eq!(&buf, b"dec");
    assert_eq!(r.read_byte(), Ok(None));
    let mut none = [0u8; 0];
    assert_eq!(BufReader::new(b"x").read_bytes(&mut none), Ok(0));
}

#[test]
fn buf_reader_byte_by_byte() {
    let mut r = BufReader::new(b"hi");
    assert_eq!(r.read_byte(), Ok(Some(b'h')));
    assert_eq!(r.read_byte(), Ok(Some(b'i')));
    assert_eq!(r.read_byte(), Ok(None));
    assert_eq!(r.read_byte(), Ok(None));
}

#[test]
fn scanning_a_reader() {
    let mut r = BufReader::new(b"42 tail");
    assert_eq!(scanf_from(&mut r, b"%d"), Ok(((2, 1, vec![ScanValue::Int(42)]), Some(b' '))));
    assert_eq!(r.read_byte(), Ok(Some(b't')));
    let mut r = BufReader::new(b"42");
    assert_eq!(scanf_from(&mut r, b"%d"), Ok(((2, 1, vec![ScanValue::Int(42)]), None)));
    let mut r = BufReader::new(b"a=1,b=zz");
    assert_eq!(
        scanf_from(&mut r, b"a=%d,b=%s"),
        Ok(((8, 2, vec![ScanValue::Int(1), ScanValue::Str(b"zz".to_vec())]), None))
    );
    let mut r = BufReader::new(b"x=1,y");
    assert_eq!(scanf_from(&mut r, b"x=%d"), Ok(((3, 1, vec![ScanValue::Int(1)]), Some(b','))));
    let mut r = BufReader::new(b"ab");
    assert_eq!(scanf_from(&mut r, b"a"), Ok(((1, 0, vec![]), None)));
    assert_eq!(r.read_byte(), Ok(Some(b'b')));
    let mut r = BufReader::new(b"zb");
    assert_eq!(scanf_from(&mut r, b"a"), Ok(((0, 0, vec![]), Some(b'z'))));
    assert_eq!(r.read_byte(), Ok(Some(b'b')));
}

#[test]
fn the_byte_that_ends_a_number_stays_in_the_source() {
    let mut r = Unread::new(BufReader::new(b"123;-45 rest"));
    assert_eq!(r.scanf(b"%d"), Ok((3, 1, vec![ScanValue::Int(123)])));
    assert_eq!(r.read_byte(), Ok(Some(b';')));
    assert_eq!(r.scanf(b"%d"), Ok((3, 1, vec![ScanValue::Int(-45)])));
    assert_eq!(r.scanf(b" %s"), Ok((5, 1, vec![ScanValue::Str(b"rest".to_vec())])));
    assert_eq!(r.read_byte(), Ok(None));
    for v in [0, 7, -7, 2147483647, -2147483648] {
        for t in [b' ', b'\n', b'x', b'+', 0u8, 0xffu8] {
            let mut input = format!("{}", v).into_bytes();
            let len = input.len();
            input.push(t);
            input.push(b'!');
            let mut r = Unread::new(BufReader::new(&input));
            assert_eq!(r.scanf(b"%d"), Ok((len, 1, vec![ScanValue::Int(v)])));
            assert_eq!(r.read_byte(), Ok(Some(t)));
            assert_eq!(r.read_byte(), Ok(Some(b'!')));
        }
    }
}

#[test]
fn a_mismatch_leaves_the_source_as_it_was() {
    let mut r = Unread::new(BufReader::new(b"abc"));
    assert_eq!(r.scanf(b"%d"), Ok((0, 0, vec![])));
    assert_eq!(r.scanf(b"x"), Ok((0, 0, vec![])));
    assert_eq!(r.scanf(b"ab"), Ok((2, 0, vec![])));
    assert_eq!(r.scanf(b""), Ok((0, 0, vec![])));
    assert_eq!(r.read_byte(), Ok(Some(b'c')));
}

#[test]
fn bytes_that_are_put_back_come_first() {
    let mut r = Unread::new(BufReader::new(b"cd"));
    r.unread_byte(b'b');
    r.unread_byte(b'a');
    let mut one = [0u8; 1];
    assert_eq!(r.read_bytes(&mut one), Ok(1));
    assert_eq!(&one, b"a");
    let mut buf = [0u8; 8];
    assert_eq!(r.read_bytes(&mut buf), Ok(3));
    assert_eq!(&buf[..3], b"bcd");
    assert_eq!(r.read_bytes(&mut buf), Ok(0));
    r.unread_byte(b'z');
    let mut none = [0u8; 0];
    assert_eq!(r.read_bytes(&mut none), Ok(0));
    assert_eq!(r.read_byte(), Ok(Some(b'z')));
    assert_eq!(r.read_byte(), Ok(None));
}

#[test]
fn a_failed_read_loses_nothing_that_was_put_back() {
    let mut r = Unread::new(Breaking { data: Vec::new(), at: 0, status: 5 });
    r.unread_byte(b'a');
    let mut buf = [0u8; 4];
    assert_eq!(r.read_bytes(&mut buf), Err(IoError { status: 5 }));
    let mut one = [0u8; 1];
    assert_eq!(r.read_bytes(&mut one), Ok(1));
    assert_eq!(&one, b"a");
    let mut r = Unread::new(Breaking { data: b"1".to_vec(), at: 0, status: 5 });
    assert_eq!(r.scanf(b"%d"), Err(IoError { status: 5 }));
}

#[test]
fn scanning_a_reader_asks_for_nothing_where_the_format_wants_nothing() {
    let mut r = Breaking { data: Vec::new(), at: 0, status: 3 };
    assert_eq!(scanf_from(&mut r, b""), Ok(((0, 0, vec![]), None)));
    assert_eq!(scanf_from(&mut r, b"%q%"), Ok(((0, 0, vec![]), None)));
}

#[test]
fn a_failed_read_is_the_failure_of_the_scan() {
    let mut r = Breaking { data: b"12".to_vec(), at: 0, status: 3 };
    assert_eq!(scanf_from(&mut r, b"%d"), Err(IoError { status: 3 }));
    let mut r = Breaking { data: b"12;".to_vec(), at: 0, status: 3 };
    assert_eq!(scanf_from(&mut r, b"%d"), Ok(((2, 1, vec![ScanValue::Int(12)]), Some(b';'))));
}

#[test]
fn scanner_is_fed_byte_by_byte() {
    let mut s = Scanner::new(b"%d,%s");
    assert!(s.needs_input());
    s.feed(Some(b'1'));
    s.feed(Some(b'2'));
    assert_eq!(s.pending, b"12".to_vec());
    assert_eq!(s.consumed, 2);
    s.feed(Some(b','));
    assert_eq!(s.values, vec![ScanValue::Int(12)]);
    assert_eq!(s.consumed, 3);
    assert_eq!(s.index, 3);
    s.feed(Some(b'a'));
    assert!(s.needs_input());
    s.feed(None);
    assert!(!s.needs_input());
    assert_eq!(s.finish(), (4, 2, vec![ScanValue::Int(12), ScanValue::Str(b"a".to_vec())]));
}

#[test]
fn scanner_that_is_over_takes_nothing() {
    let mut s = Scanner::new(b"a");
    s.feed(Some(b'b'));
    assert!(!s.needs_input());
    s.feed(Some(b'a'));
    assert_eq!(s.finish(), (0, 0, vec![]));
    let s = Scanner::new(b"");
    assert!(!s.needs_input());
}

#[test]
fn settling_passes_over_what_reads_nothing() {
    assert_eq!(settle_from(b"%q%w%d", 0), 4);
    assert_eq!(settle_from(b"%q%w", 0), 4);
    assert_eq!(settle_from(b"ab", 1), 1);
    assert_eq!(settle_from(b"ab%", 2), 3);
    assert_eq!(settle_from(b"ab", 7), 2);
    assert_eq!(settle_from(b"%s", 0), 0);
}

#[test]
fn what_each_conversion_accepts() {
    let none = Vec::new();
    let zero = vec![b'0'];
    assert!(accepts_byte(b'd', &none, 0, b'-'));
    assert!(!accepts_byte(b'd', &zero, 0, b'-'));
    assert!(accepts_byte(b'd', &zero, 0, b'9'));
    assert!(!accepts_byte(b'u', &none, 0, b'-'));
    assert!(accepts_byte(b'x', &zero, 0, b'x'));
    assert!(!accepts_byte(b'x', &none, 0, b'x'));
    assert!(accepts_byte(b'X', &none, 0, b'F'));
    assert!(accepts_byte(b's', &none, b',', b' '));
    assert!(!accepts_byte(b's', &none, b',', b','));
}

#[test]
fn what_each_conversion_concludes() {
    assert_eq!(conclude_value(b'd', b"-12"), Some(ScanValue::Int(-12)));
    assert_eq!(conclude_value(b'd', b""), None);
    assert_eq!(conclude_value(b'u', b"12"), Some(ScanValue::UInt(12)));
    assert_eq!(conclude_value(b'x', b"0x12"), Some(ScanValue::UInt(18)));
    assert_eq!(conclude_value(b'X', b"12"), Some(ScanValue::UInt(18)));
    assert_eq!(conclude_value(b's', b""), Some(ScanValue::Str(Vec::new())));
}

#[test]
fn reading_until_a_byte() {
    let mut r = BufReader::new(b"ab;cd");
    let mut buf = [0u8; 8];
    assert_eq!(r.read_bytes_until_or_eof(&mut buf, |c| c == b';'), Ok(3));
    assert_eq!(&buf, b"ab;\0\0\0\0\0");
    assert_eq!(r.read_bytes_until_or_eof(&mut buf, |c| c == b';'), Ok(2));
    assert_eq!(&buf, b"cd;\0\0\0\0\0");
    assert_eq!(r.read_bytes_until_or_eof(&mut buf, |c| c == b';'), Ok(0));
    let mut r = BufReader::new(b"abcdef");
    let mut small = [0u8; 4];
    assert_eq!(r.read_bytes_until_or_eof(&mut small, |_| false), Ok(4));
    assert_eq!(&small, b"abcd");
}

#[test]
fn reading_until_a_byte_into_a_growing_buffer() {
    let mut r = BufReader::new(b"ab;cd");
    let mut buf = b"x".to_vec();
    assert_eq!(r.read_bytes_until_or_eof_alloc(&mut buf, usize::MAX, |c| c == b';'), Ok(3));
    assert_eq!(buf, b"xab;".to_vec());
    assert_eq!(r.read_bytes_until_or_eof_alloc(&mut buf, 1, |c| c == b';'), Ok(1));
    assert_eq!(buf, b"xab;c".to_vec());
    assert_eq!(r.read_bytes_until_or_eof_alloc(&mut buf, 0, |c| c == b';'), Ok(0));
    assert_eq!(r.read_bytes_until_or_eof_alloc(&mut buf, 9, |c| c == b';'), Ok(1));
    assert_eq!(buf, b"xab;cd".to_vec());
    let mut broken = Breaking { data: b"ab".to_vec(), at: 0, status: 4 };
    let mut buf = Vec::new();
    assert_eq!(
        broken.read_bytes_until_or_eof_alloc(&mut buf, 9, |_| false),
        Err(IoError { status: 4 })
    );
    assert_eq!(buf, b"ab".to_vec());
}

#[test]
fn fgets_reads_a_line_and_terminates_it() {
    let mut r = BufReader::new(b"one\ntwo\nthree");
    let mut buf = [0xaau8; 8];
    assert_eq!(fgets(&mut buf, &mut r), Ok(4));
    assert_eq!(&buf, b"one\n\0\xaa\xaa\xaa");
    assert_eq!(fgets(&mut buf, &mut r), Ok(4));
    assert_eq!(&buf[..5], b"two\n\0");
    assert_eq!(fgets(&mut buf, &mut r), Ok(5));
    assert_eq!(&buf[..6], b"three\0");
    assert_eq!(fgets(&mut buf, &mut r), Ok(0));
    assert_eq!(buf[0], 0);
}

#[test]
fn fgets_cuts_a_line_that_is_too_long() {
    let mut r = BufReader::new(b"abcdefgh\n");
    let mut buf = [0xaau8; 4];
    assert_eq!(fgets(&mut buf, &mut r), Ok(3));
    assert_eq!(&buf, b"abc\0");
    let mut one = [0xaau8; 1];
    assert_eq!(fgets(&mut one, &mut r), Ok(0));
    assert_eq!(one, [0]);
    let mut none = [0u8; 0];
    assert_eq!(fgets(&mut none, &mut r), Ok(0));
    assert_eq!(r.read_byte(), Ok(Some(b'd')));
}

#[test]
fn fgets_passes_a_failed_read_on() {
    let mut r = Breaking { data: b"ab".to_vec(), at: 0, status: 8 };
    let mut buf = [0u8; 8];
    assert_eq!(fgets(&mut buf, &mut r), Err(IoError { status: 8 }));
}

#[test]
fn fgetline_reads_a_line_of_any_length() {
    let long = vec![b'x'; 3000];
    let mut text = long.clone();
    text.push(b'\n');
    text.extend_from_slice(b"rest");
    let mut r = BufReader::new(&text);
    let mut line = long.clone();
    line.push(b'\n');
    assert_eq!(fgetline(&mut r), Ok(line));
    assert_eq!(fgetline(&mut r), Ok(b"rest".to_vec()));
    assert_eq!(fgetline(&mut r), Ok(Vec::new()));
    let mut broken = Breaking { data: b"ab".to_vec(), at: 0, status: 8 };
    assert_eq!(fgetline(&mut broken), Err(IoError { status: 8 }));
}
