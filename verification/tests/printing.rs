use cstdio::errors::{map_error, IoError, PrintError};
use cstdio::format::{
    printf_to, wanted, Arg, ArgKind, BufWriter, CPrinter, CWriter, LengthModifier,
};
use cstdio::number::{digit_text, format_number, parse_digits, Kind};
use cstdio::stdio::vsnprintf;

/// A sink that keeps every write as a run of its own.
struct Collect {
    runs: Vec<Vec<u8>>,
}

impl CWriter for Collect {
    fn write_bytes(&mut self, bytes: &[u8]) -> Result<usize, IoError> {
        self.runs.push(bytes.to_vec());
        Ok(bytes.len())
    }
}

/// A sink that takes `left` writes and fails the next with `status`.
struct Failing {
    left: usize,
    status: u16,
}

impl CWriter for Failing {
    fn write_bytes(&mut self, bytes: &[u8]) -> Result<usize, IoError> {
        if self.left == 0 {
            return Err(IoError { status: self.status });
        }
        self.left -= 1;
        Ok(bytes.len())
    }
}

/// A sink that reports half of every write.
struct Half;

impl CWriter for Half {
    fn write_bytes(&mut self, bytes: &[u8]) -> Result<usize, IoError> {
        Ok(bytes.len() / 2)
    }
}

fn print(fmt: &[u8], args: &[Arg]) -> (Result<usize, PrintError>, Vec<u8>) {
    let mut sink = Collect { runs: Vec::new() };
    let r = printf_to(&mut sink, fmt, args);
    (r, sink.runs.concat())
}

fn text(fmt: &str, args: &[Arg]) -> String {
    let (r, out) = print(fmt.as_bytes(), args);
    assert_eq!(r, Ok(out.len()));
    String::from_utf8(out).unwrap()
}

#[test]
fn plain_text_is_written_unchanged() {
    let (r, out) = print(b"hello, world\n", &[]);
    assert_eq!(r, Ok(13));
    assert_eq!(out, b"hello, world\n".to_vec());
}

#[test]
fn plain_text_goes_out_byte_by_byte() {
    let mut sink = Collect { runs: Vec::new() };
    assert_eq!(printf_to(&mut sink, b"abc", &[]), Ok(3));
    assert_eq!(sink.runs, vec![b"a".to_vec(), b"b".to_vec(), b"c".to_vec()]);
}

#[test]
fn empty_format_writes_nothing() {
    let mut sink = Failing { left: 0, status: 9 };
    assert_eq!(printf_to(&mut sink, b"", &[]), Ok(0));
}

#[test]
fn percent_percent_is_one_percent() {
    assert_eq!(text("100%%", &[]), "100%");
}

#[test]
fn signed_decimal() {
    assert_eq!(text("%d", &[Arg::Int(0)]), "0");
    assert_eq!(text("%d", &[Arg::Int(42)]), "42");
    assert_eq!(text("%i", &[Arg::Int(-42)]), "-42");
    assert_eq!(text("%d", &[Arg::Int(i32::MAX)]), "2147483647");
    assert_eq!(text("%d", &[Arg::Int(i32::MIN)]), "-2147483648");
}

#[test]
fn unsigned_decimal_octal_and_hex() {
    assert_eq!(text("%u", &[Arg::UInt(4000000000)]), "4000000000");
    assert_eq!(text("%o", &[Arg::UInt(8)]), "10");
    assert_eq!(text("%x", &[Arg::UInt(255)]), "ff");
    assert_eq!(text("%X", &[Arg::UInt(48879)]), "BEEF");
    assert_eq!(text("%x", &[Arg::UInt(0)]), "0");
}

#[test]
fn precision_pads_with_zeros_to_so_many_digits() {
    assert_eq!(text("%.5d", &[Arg::Int(42)]), "00042");
    assert_eq!(text("%.5d", &[Arg::Int(-42)]), "-00042");
    assert_eq!(text("%.3d", &[Arg::Int(-5)]), "-005");
    assert_eq!(text("%.2d", &[Arg::Int(-5)]), "-05");
    assert_eq!(text("%.1d", &[Arg::Int(-5)]), "-5");
    assert_eq!(text("%.1d", &[Arg::Int(1234)]), "1234");
    assert_eq!(text("%.9d", &[Arg::Int(7)]), "000000007");
    assert_eq!(text("%.0d", &[Arg::Int(7)]), "7");
    assert_eq!(text("%.4x", &[Arg::UInt(255)]), "00ff");
    assert_eq!(text("%.3o", &[Arg::UInt(8)]), "010");
}

#[test]
fn precision_from_an_argument() {
    assert_eq!(text("%.*d", &[Arg::UInt(6), Arg::Int(-5)]), "-000005");
    assert_eq!(text("%.*u", &[Arg::UInt(12), Arg::UInt(34)]), "000000000034");
}

#[test]
fn char_and_short_are_cut_out_of_an_int() {
    assert_eq!(text("%hhd", &[Arg::Int(300)]), "44");
    assert_eq!(text("%hhd", &[Arg::Int(200)]), "-56");
    assert_eq!(text("%hhd", &[Arg::Int(-129)]), "127");
    assert_eq!(text("%hhu", &[Arg::Int(511)]), "255");
    assert_eq!(text("%hhu", &[Arg::Int(-1)]), "255");
    assert_eq!(text("%hhx", &[Arg::Int(-1)]), "ff");
    assert_eq!(text("%hd", &[Arg::Int(70000)]), "4464");
    assert_eq!(text("%hd", &[Arg::Int(40000)]), "-25536");
    assert_eq!(text("%hu", &[Arg::Int(-1)]), "65535");
    assert_eq!(text("%hd", &[Arg::Int(i32::MIN)]), "0");
}

#[test]
fn long_and_pointer_sized_arguments() {
    assert_eq!(text("%ld", &[Arg::Long(i64::MIN)]), "-9223372036854775808");
    assert_eq!(text("%lld", &[Arg::Long(i64::MAX)]), "9223372036854775807");
    assert_eq!(text("%lu", &[Arg::ULong(u64::MAX)]), "18446744073709551615");
    assert_eq!(text("%llx", &[Arg::ULong(u64::MAX)]), "ffffffffffffffff");
    assert_eq!(text("%zu", &[Arg::Size(12)]), "12");
    assert_eq!(text("%zd", &[Arg::Size(usize::MAX)]), usize::MAX.to_string());
    assert_eq!(text("%td", &[Arg::PtrDiff(-7)]), "-7");
    assert_eq!(text("%tu", &[Arg::PtrDiff(-7)]), (usize::MAX - 6).to_string());
    assert_eq!(text("%tu", &[Arg::PtrDiff(7)]), "7");
    assert_eq!(text("%tx", &[Arg::PtrDiff(-1)]), format!("{:x}", usize::MAX));
    assert_eq!(text("%to", &[Arg::PtrDiff(isize::MIN)]), format!("{:o}", isize::MIN));
    assert_eq!(text("%tx", &[Arg::PtrDiff(31)]), "1f");
    assert_eq!(text("%jd", &[Arg::PtrDiff(isize::MIN)]), isize::MIN.to_string());
    assert_eq!(text("%ju", &[Arg::Size(5)]), "5");
}

#[test]
fn long_double_prints_the_text_of_the_caller() {
    assert_eq!(text("%Ld", &[Arg::Double(b"3.25".to_vec())]), "3.25");
    assert_eq!(text("%.2Lx", &[Arg::Double(b"0.50".to_vec())]), "0.50");
    let (r, _) = print(b"%Ld", &[Arg::Int(3)]);
    assert_eq!(r, Err(PrintError::WrongArgument(ArgKind::Double(None))));
    let (r, _) = print(b"%.3Ld", &[Arg::Int(3)]);
    assert_eq!(r, Err(PrintError::WrongArgument(ArgKind::Double(Some(3)))));
}

#[test]
fn char_conversion_writes_the_low_byte() {
    assert_eq!(text("%c", &[Arg::Int(65)]), "A");
    let (r, out) = print(b"%c", &[Arg::Int(0x141)]);
    assert_eq!(r, Ok(1));
    assert_eq!(out, vec![0x41u8]);
    let (r, out) = print(b"%c", &[Arg::Int(-1)]);
    assert_eq!(r, Ok(1));
    assert_eq!(out, vec![0xffu8]);
}

#[test]
fn pointer_conversion() {
    assert_eq!(text("%p", &[Arg::Pointer(0)]), "0x0");
    assert_eq!(text("%p", &[Arg::Pointer(0xdead)]), "0xdead");
}

#[test]
fn string_conversion_stops_at_the_terminator() {
    assert_eq!(text("[%s]", &[Arg::Str(b"hello".to_vec())]), "[hello]");
    assert_eq!(text("[%s]", &[Arg::Str(b"hel\0lo".to_vec())]), "[hel]");
    assert_eq!(text("[%s]", &[Arg::Str(Vec::new())]), "[]");
    let (r, out) = print(b"%s", &[Arg::Str(vec![0xff, 0xfe])]);
    assert_eq!(r, Ok(2));
    assert_eq!(out, vec![0xffu8, 0xfe]);
}

#[test]
fn precision_clips_a_string() {
    let hello = || Arg::Str(b"hello\0".to_vec());
    assert_eq!(text("%.*s", &[Arg::UInt(3), hello()]), "hel");
    assert_eq!(text("%.*s", &[Arg::UInt(10), hello()]), "hello");
    assert_eq!(text("%.*s", &[Arg::UInt(0), hello()]), "");
    assert_eq!(text("%.2s", &[hello()]), "he");
}

#[test]
fn string_goes_out_in_one_write() {
    let mut sink = Collect { runs: Vec::new() };
    assert_eq!(printf_to(&mut sink, b"%s!", &[Arg::Str(b"hey".to_vec())]), Ok(4));
    assert_eq!(sink.runs, vec![b"hey".to_vec(), b"!".to_vec()]);
}

#[test]
fn unknown_conversion_after_a_modifier_prints_a_decimal_and_itself() {
    assert_eq!(text("%lq", &[Arg::Long(-5)]), "-5q");
    assert_eq!(text("%.3lq", &[Arg::Long(-5)]), "-005q");
    assert_eq!(text("%hh!", &[Arg::Int(257)]), "1!");
    assert_eq!(text("%.3zk", &[Arg::Size(7)]), "007k");
}

#[test]
fn unknown_conversion_without_a_modifier_prints_nothing() {
    assert_eq!(text("a%qb", &[]), "ab");
    assert_eq!(text("a%qb", &[Arg::Int(1)]), "ab");
}

#[test]
fn format_that_ends_inside_a_directive() {
    assert_eq!(text("ab%", &[]), "ab");
    assert_eq!(text("ab%.", &[]), "ab");
    assert_eq!(text("ab%.3", &[]), "ab");
    assert_eq!(text("ab%l", &[]), "ab");
    assert_eq!(text("ab%.*", &[Arg::UInt(1)]), "ab");
}

#[test]
fn precision_that_is_no_digit_is_skipped() {
    assert_eq!(text("a%.qd", &[]), "ad");
}

#[test]
fn missing_argument() {
    let (r, out) = print(b"x%d", &[]);
    assert_eq!(r, Err(PrintError::MissingArgument(ArgKind::Int)));
    assert_eq!(out, b"x".to_vec());
    let (r, _) = print(b"%.*d", &[Arg::UInt(1)]);
    assert_eq!(r, Err(PrintError::MissingArgument(ArgKind::Int)));
    let (r, _) = print(b"%.*d", &[]);
    assert_eq!(r, Err(PrintError::MissingArgument(ArgKind::UInt)));
    let (r, _) = print(b"%d%s", &[Arg::Int(1)]);
    assert_eq!(r, Err(PrintError::MissingArgument(ArgKind::Str)));
}

#[test]
fn wrong_argument() {
    let wrong = |fmt: &[u8], arg: Arg, kind: ArgKind| {
        assert_eq!(print(fmt, &[arg]).0, Err(PrintError::WrongArgument(kind)));
    };
    wrong(b"%d", Arg::UInt(1), ArgKind::Int);
    wrong(b"%u", Arg::Int(1), ArgKind::UInt);
    wrong(b"%ld", Arg::Int(1), ArgKind::Long);
    wrong(b"%llu", Arg::Long(1), ArgKind::ULong);
    wrong(b"%hd", Arg::UInt(1), ArgKind::Int);
    wrong(b"%hhu", Arg::UInt(1), ArgKind::Int);
    wrong(b"%s", Arg::Int(1), ArgKind::Str);
    wrong(b"%c", Arg::Str(Vec::new()), ArgKind::Int);
    wrong(b"%p", Arg::Size(1), ArgKind::Pointer);
    wrong(b"%zd", Arg::PtrDiff(1), ArgKind::Size);
    wrong(b"%tu", Arg::Size(1), ArgKind::PtrDiff);
    wrong(b"%jd", Arg::Size(1), ArgKind::PtrDiff);
    wrong(b"%ju", Arg::PtrDiff(1), ArgKind::Size);
    wrong(b"%d", Arg::Double(Vec::new()), ArgKind::Int);
    wrong(b"%lq", Arg::Int(1), ArgKind::Long);
    assert_eq!(
        print(b"%.*d", &[Arg::Int(1), Arg::Int(1)]).0,
        Err(PrintError::WrongArgument(ArgKind::UInt))
    );
}

#[test]
fn sink_failure_ends_the_printing() {
    let mut sink = Failing { left: 2, status: 6 };
    let r = printf_to(&mut sink, b"abc", &[]);
    assert_eq!(r, Err(PrintError::Sink(IoError { status: 6 })));
    let mut sink = Failing { left: 3, status: 6 };
    assert_eq!(printf_to(&mut sink, b"abc", &[]), Ok(3));
}

#[test]
fn count_is_what_the_sink_reports() {
    assert_eq!(printf_to(&mut Half, b"ab%s", &[Arg::Str(b"wxyz".to_vec())]), Ok(2));
}

#[test]
fn map_error_wraps_the_failure_of_a_sink() {
    assert_eq!(map_error(Ok::<u8, IoError>(3)), Ok(3));
    assert_eq!(
        map_error(Err::<u8, IoError>(IoError { status: 13 })),
        Err(PrintError::Sink(IoError { status: 13 }))
    );
}

#[test]
fn buf_writer_clips_and_reports() {
    let mut buf = [0u8; 4];
    {
        let mut w = BufWriter::new(&mut buf);
        assert_eq!(w.position(), 0);
        assert_eq!(w.write_bytes(b"ab"), Ok(2));
        assert_eq!(w.position(), 2);
        assert_eq!(w.write_bytes(b"cdef"), Ok(2));
        assert_eq!(w.position(), 4);
        assert_eq!(w.write_bytes(b"gh"), Ok(2));
        assert_eq!(w.write_byte(b'i'), Ok(1));
        assert_eq!(w.write_bytes(b""), Ok(0));
        assert_eq!(w.finish(), 4);
    }
    assert_eq!(&buf, b"abcd");
}

#[test]
fn buf_writer_over_nothing() {
    let mut buf = [0u8; 0];
    let mut w = BufWriter::new(&mut buf);
    assert_eq!(w.write_bytes(b"abc"), Ok(3));
    assert_eq!(w.position(), 0);
}

#[test]
fn buf_writer_leaves_the_rest_alone() {
    let mut buf = [7u8; 5];
    {
        let mut w = BufWriter::new(&mut buf);
        assert_eq!(w.write_bytes(b"ab"), Ok(2));
    }
    assert_eq!(buf, [b'a', b'b', 7, 7, 7]);
}

#[test]
fn snprintf_clips_to_the_buffer_and_terminates() {
    let mut buf = [0xaau8; 4];
    let r = vsnprintf(&mut buf, b"%s", &[Arg::Str(b"hello".to_vec())]);
    assert_eq!(r, Ok(3));
    assert_eq!(&buf, b"hel\0");
}

#[test]
fn snprintf_counts_bytes_written_to_a_full_buffer() {
    let mut buf = [0xaau8; 4];
    let r = vsnprintf(&mut buf, b"hello", &[]);
    assert_eq!(r, Ok(5));
    assert_eq!(&buf, b"hel\0");
}

#[test]
fn snprintf_that_fits() {
    let mut buf = [0xaau8; 8];
    let r = vsnprintf(&mut buf, b"n=%d", &[Arg::Int(-12)]);
    assert_eq!(r, Ok(5));
    assert_eq!(&buf, b"n=-12\0\xaa\xaa");
}

#[test]
fn snprintf_into_one_byte_and_into_none() {
    let mut one = [0xaau8; 1];
    assert_eq!(vsnprintf(&mut one, b"abc", &[]), Ok(3));
    assert_eq!(one, [0u8]);
    let mut none = [0u8; 0];
    assert_eq!(vsnprintf(&mut none, b"abc", &[]), Ok(3));
}

#[test]
fn snprintf_with_a_bad_argument_leaves_no_terminator() {
    let mut buf = [0xaau8; 6];
    let r = vsnprintf(&mut buf, b"ab%d", &[]);
    assert_eq!(r, Err(PrintError::MissingArgument(ArgKind::Int)));
    assert_eq!(&buf, b"ab\xaa\xaa\xaa\xaa");
}

#[test]
fn walk_reads_the_format_byte_by_byte() {
    let mut walk = CPrinter::new(b"hz", &[]);
    assert_eq!(walk.peek(), Some(b'h'));
    assert_eq!(walk.next(), Some(b'h'));
    assert_eq!(walk.peek(), Some(b'z'));
    assert_eq!(walk.next(), Some(b'z'));
    assert_eq!(walk.peek(), None);
    assert_eq!(walk.next(), None);
    assert_eq!(walk.curr_index, 2);
}

#[test]
fn walk_reads_length_modifiers() {
    let cases: [(&[u8], Option<LengthModifier>, usize); 10] = [
        (b"hhd", Some(LengthModifier::Char), 2),
        (b"hd", Some(LengthModifier::Short), 1),
        (b"h", Some(LengthModifier::Short), 1),
        (b"ld", Some(LengthModifier::Long), 1),
        (b"lld", Some(LengthModifier::LongLong), 2),
        (b"jd", Some(LengthModifier::MaxT), 1),
        (b"zd", Some(LengthModifier::SizeT), 1),
        (b"td", Some(LengthModifier::PtrDiffT), 1),
        (b"Ld", Some(LengthModifier::LongDouble), 1),
        (b"d", None, 0),
    ];
    for (fmt, length, index) in cases {
        let mut walk = CPrinter::new(fmt, &[]);
        assert_eq!(walk.try_make_length(), length);
        assert_eq!(walk.curr_index, index);
    }
    let mut walk = CPrinter::new(b"", &[]);
    assert_eq!(walk.try_make_length(), None);
}

#[test]
fn walk_steps_say_what_goes_to_the_sink() {
    let args = [Arg::Long(12)];
    let mut walk = CPrinter::new(b"a%lqz", &args);
    assert_eq!(walk.step(), Ok(Some(vec![b"a".to_vec()])));
    assert_eq!(walk.step(), Ok(Some(vec![b"12".to_vec(), b"q".to_vec()])));
    assert_eq!(walk.step(), Ok(Some(vec![b"z".to_vec()])));
    assert_eq!(walk.step(), Ok(None));
    assert_eq!(walk.next_arg, 1);
}

#[test]
fn walk_accounts_for_the_answers_of_a_sink() {
    let mut walk = CPrinter::new(b"", &[]);
    assert_eq!(walk.account(Ok(3)), Ok(3));
    assert_eq!(walk.account(Ok(usize::MAX)), Ok(usize::MAX));
    assert_eq!(walk.wrote, usize::MAX);
    assert_eq!(
        walk.account(Err(IoError { status: 2 })),
        Err(PrintError::Sink(IoError { status: 2 }))
    );
    assert_eq!(walk.wrote, usize::MAX);
}

#[test]
fn walk_takes_arguments_in_order() {
    let args = [Arg::Int(1), Arg::UInt(2)];
    let mut walk = CPrinter::new(b"", &args);
    assert_eq!(walk.arg(ArgKind::Int), Ok(&Arg::Int(1)));
    assert_eq!(walk.arg(ArgKind::Str), Ok(&Arg::UInt(2)));
    assert_eq!(walk.arg(ArgKind::Str), Err(PrintError::MissingArgument(ArgKind::Str)));
}

#[test]
fn digits_in_every_radix() {
    assert_eq!(digit_text(0, Kind::Normal), b"0".to_vec());
    assert_eq!(digit_text(1234567890, Kind::Normal), b"1234567890".to_vec());
    assert_eq!(digit_text(u64::MAX, Kind::Octal), b"1777777777777777777777".to_vec());
    assert_eq!(digit_text(0xabcdef, Kind::Hex), b"abcdef".to_vec());
    assert_eq!(digit_text(0xabcdef, Kind::BigHex), b"ABCDEF".to_vec());
    assert_eq!(Kind::Octal.base(), 8);
    assert_eq!(Kind::Normal.base(), 10);
    assert_eq!(Kind::Hex.base(), 16);
    assert_eq!(Kind::BigHex.base(), 16);
}

#[test]
fn numbers_with_sign_and_padding() {
    assert_eq!(format_number(true, 5, Kind::Normal, Some(4)), b"-0005".to_vec());
    assert_eq!(format_number(false, 5, Kind::Normal, Some(4)), b"0005".to_vec());
    assert_eq!(format_number(true, 12345, Kind::Normal, Some(4)), b"-12345".to_vec());
    assert_eq!(format_number(false, 0, Kind::Hex, None), b"0".to_vec());
}

#[test]
fn digits_read_back() {
    assert_eq!(parse_digits(b"0012", Kind::Normal, 100), Some(12));
    assert_eq!(parse_digits(b"101", Kind::Normal, 100), None);
    assert_eq!(parse_digits(b"100", Kind::Normal, 100), Some(100));
    assert_eq!(parse_digits(b"", Kind::Normal, 100), None);
    assert_eq!(parse_digits(b"12a", Kind::Normal, 1000), None);
    assert_eq!(parse_digits(b"fF", Kind::Hex, 1000), Some(255));
    assert_eq!(parse_digits(b"17", Kind::Octal, 1000), Some(15));
    assert_eq!(parse_digits(b"18", Kind::Octal, 1000), None);
    assert_eq!(parse_digits(b"99999999999999999999999999", Kind::Normal, 1000), None);
}

#[test]
fn a_format_says_which_arguments_it_wants() {
    let fmt = b"%d %.*s %lu %p %c %.2Lx %.*Ld %zx %td %q";
    let mut args: Vec<Arg> = Vec::new();
    let mut kinds = Vec::new();
    while let Some(kind) = wanted(fmt, &args) {
        kinds.push(kind);
        args.push(match kind {
            ArgKind::Int => Arg::Int(65),
            ArgKind::UInt => Arg::UInt(4),
            ArgKind::Long => Arg::Long(1),
            ArgKind::ULong => Arg::ULong(2),
            ArgKind::Size => Arg::Size(255),
            ArgKind::PtrDiff => Arg::PtrDiff(-3),
            ArgKind::Pointer => Arg::Pointer(16),
            ArgKind::Str => Arg::Str(b"string".to_vec()),
            ArgKind::Double(None) => Arg::Double(b"1.5".to_vec()),
            ArgKind::Double(Some(p)) => Arg::Double(format!("{:.*}", p, 1.5).into_bytes()),
        });
    }
    assert_eq!(
        kinds,
        vec![
            ArgKind::Int,
            ArgKind::UInt,
            ArgKind::Str,
            ArgKind::ULong,
            ArgKind::Pointer,
            ArgKind::Int,
            ArgKind::Double(Some(2)),
            ArgKind::UInt,
            ArgKind::Double(Some(4)),
            ArgKind::Size,
            ArgKind::PtrDiff,
        ]
    );
    assert_eq!(text("%d %.*s %lu %p %c %.2Lx %.*Ld %zx %td %q", &args), "65 stri 2 0x10 A 1.50 1.5000 ff -3 ");
}

#[test]
fn a_format_wants_nothing_more_than_it_takes() {
    assert_eq!(wanted(b"plain", &[]), None);
    assert_eq!(wanted(b"%d", &[Arg::Int(1)]), None);
    assert_eq!(wanted(b"%d", &[Arg::Int(1), Arg::Int(2)]), None);
    assert_eq!(wanted(b"%d%u", &[Arg::UInt(1)]), None);
    assert_eq!(wanted(b"%d%u", &[Arg::Int(1)]), Some(ArgKind::UInt));
    assert_eq!(wanted(b"%%%", &[]), None);
}

#[test]
fn numbers_are_written_as_the_language_writes_their_digits() {
    let values = [0i32, 1, -1, 9, 10, -10, 99, -100, 12345, -12345, i32::MAX, i32::MIN];
    for v in values {
        assert_eq!(text("%d", &[Arg::Int(v)]), format!("{}", v));
        assert_eq!(text("%i", &[Arg::Int(v)]), format!("{}", v));
        assert_eq!(text("%u", &[Arg::UInt(v as u32)]), format!("{}", v as u32));
        assert_eq!(text("%o", &[Arg::UInt(v as u32)]), format!("{:o}", v as u32));
        assert_eq!(text("%x", &[Arg::UInt(v as u32)]), format!("{:x}", v as u32));
        assert_eq!(text("%X", &[Arg::UInt(v as u32)]), format!("{:X}", v as u32));
        assert_eq!(text("%hhd", &[Arg::Int(v)]), format!("{}", v as i8));
        assert_eq!(text("%hhu", &[Arg::Int(v)]), format!("{}", v as u8));
        assert_eq!(text("%hd", &[Arg::Int(v)]), format!("{}", v as i16));
        assert_eq!(text("%hu", &[Arg::Int(v)]), format!("{}", v as u16));
        assert_eq!(text("%ld", &[Arg::Long(v as i64)]), format!("{}", v as i64));
        assert_eq!(text("%llx", &[Arg::ULong(v as u64)]), format!("{:x}", v as u64));
        assert_eq!(text("%td", &[Arg::PtrDiff(v as isize)]), format!("{}", v as isize));
        assert_eq!(text("%tu", &[Arg::PtrDiff(v as isize)]), format!("{}", v as isize as usize));
        assert_eq!(text("%tx", &[Arg::PtrDiff(v as isize)]), format!("{:x}", v as isize));
        assert_eq!(text("%to", &[Arg::PtrDiff(v as isize)]), format!("{:o}", v as isize));
        assert_eq!(text("%tX", &[Arg::PtrDiff(v as isize)]), format!("{:X}", v as isize));
        assert_eq!(text("%zu", &[Arg::Size(v as usize)]), format!("{}", v as usize));
        assert_eq!(text("%p", &[Arg::Pointer(v as usize)]), format!("{:#x}", v as usize));
        for width in 0..13u32 {
            let prec = width as usize;
            let args = |a: Arg| vec![Arg::UInt(width), a];
            let signed = |v: i64| {
                let sign = if v < 0 { "-" } else { "" };
                format!("{}{:0prec$}", sign, v.unsigned_abs())
            };
            assert_eq!(text("%.*d", &args(Arg::Int(v))), signed(v as i64));
            assert_eq!(text("%.*u", &args(Arg::UInt(v as u32))), format!("{:0prec$}", v as u32));
            assert_eq!(text("%.*x", &args(Arg::UInt(v as u32))), format!("{:0prec$x}", v as u32));
            assert_eq!(text("%.*o", &args(Arg::UInt(v as u32))), format!("{:0prec$o}", v as u32));
            assert_eq!(text("%.*hhd", &args(Arg::Int(v))), signed(v as i8 as i64));
            assert_eq!(text("%.*ld", &args(Arg::Long(v as i64 * 7))), signed(v as i64 * 7));
        }
    }
}

#[test]
fn precision_counts_digits_and_not_the_sign() {
    let mut buf = [0u8; 8];
    let count = {
        let mut writer = BufWriter::new(&mut buf);
        let r = printf_to(&mut writer, b"%.3d", &[Arg::Int(-5)]);
        assert_eq!(writer.finish(), 4);
        r
    };
    assert_eq!(count, Ok(4));
    assert_eq!(&buf[..4], b"-005");
    assert_eq!(&buf[4..], &[0u8; 4]);
    let mut buf = [0u8; 8];
    assert_eq!(vsnprintf(&mut buf, b"%.3d|%.3d", &[Arg::Int(-5), Arg::Int(5)]), Ok(7));
    assert_eq!(&buf, b"-005|00\0");
}

#[test]
fn a_lent_buffer_holds_what_was_printed() {
    let mut buf = [b'.'; 6];
    {
        let mut writer = BufWriter::new(&mut buf);
        assert_eq!(printf_to(&mut writer, b"a%sb", &[Arg::Str(b"xy".to_vec())]), Ok(4));
        assert_eq!(writer.finish(), 4);
    }
    assert_eq!(&buf, b"axyb..");
}
