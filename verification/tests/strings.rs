use cstdio::stdlib::{abs, atoi};
use cstdio::string::{
    memchr, memcmp, stpcpy, strcasecmp, strcat, strchr, strcmp, strcpy, strcspn, strdup, strlen,
    strncasecmp, strncmp, strncpy, strnlen, strpbrk, strrchr, strspn, strstr,
};

#[test]
fn strlen_counts_to_the_first_zero() {
    assert_eq!(strlen(b"abc\0def"), 3);
    assert_eq!(strlen(b"abc"), 3);
    assert_eq!(strlen(b"\0"), 0);
    assert_eq!(strlen(b""), 0);
}

#[test]
fn strnlen_stops_at_the_limit() {
    assert_eq!(strnlen(b"abcdef", 3), 3);
    assert_eq!(strnlen(b"ab\0def", 3), 2);
    assert_eq!(strnlen(b"abc", 10), 3);
    assert_eq!(strnlen(b"abc", 0), 0);
}

#[test]
fn strcmp_gives_the_difference_of_the_first_bytes_that_differ() {
    assert_eq!(strcmp(b"abc", b"abc"), 0);
    assert_eq!(strcmp(b"abc\0x", b"abc\0y"), 0);
    assert_eq!(strcmp(b"abc", b"abd"), -1);
    assert_eq!(strcmp(b"abd", b"abc"), 1);
    assert_eq!(strcmp(b"a", b"z"), -25);
    assert_eq!(strcmp(b"ab", b"abc"), -99);
    assert_eq!(strcmp(b"abc", b"ab"), 99);
    assert_eq!(strcmp(b"", b""), 0);
    assert_eq!(strcmp(b"\xff", b"\x01"), 254);
}

#[test]
fn strncmp_looks_at_no_more_than_n_bytes() {
    assert_eq!(strncmp(b"abcdef", b"abcxyz", 3), 0);
    assert_eq!(strncmp(b"abcdef", b"abcxyz", 4), -20);
    assert_eq!(strncmp(b"ab", b"abc", 2), 0);
    assert_eq!(strncmp(b"ab", b"abc", 3), -99);
    assert_eq!(strncmp(b"ab", b"ab", 100), 0);
    assert_eq!(strncmp(b"x", b"y", 0), 0);
}

#[test]
fn memcmp_compares_zero_bytes_too() {
    assert_eq!(memcmp(b"a\0c", b"a\0c", 3), 0);
    assert_eq!(memcmp(b"a\0c", b"a\0d", 3), -1);
    assert_eq!(memcmp(b"a\0c", b"a\0d", 2), 0);
    assert_eq!(memcmp(b"b", b"a", 1), 1);
    assert_eq!(memcmp(b"b", b"a", 0), 0);
}

#[test]
fn case_is_ignored() {
    assert_eq!(strcasecmp(b"Hello", b"hELLO"), 0);
    assert_eq!(strcasecmp(b"Hello", b"help"), -1);
    assert_eq!(strcasecmp(b"b", b"A"), 1);
    assert_eq!(strcasecmp(b"ab", b"ABC"), -1);
    assert_eq!(strcasecmp(b"abc", b"AB"), 1);
    assert_eq!(strcasecmp(b"[", b"{"), -1);
    assert_eq!(strcasecmp(b"@", b"`"), -1);
    assert_eq!(strncasecmp(b"HELLO there", b"hello WORLD", 5), 0);
    assert_eq!(strncasecmp(b"HELLO there", b"hello WORLD", 7), -1);
    assert_eq!(strncasecmp(b"a", b"b", 0), 0);
}

#[test]
fn searching_for_a_byte() {
    assert_eq!(memchr(b"ab\0cb", b'b', 5), Some(1));
    assert_eq!(memchr(b"ab\0cb", b'c', 5), Some(3));
    assert_eq!(memchr(b"ab\0cb", b'c', 3), None);
    assert_eq!(memchr(b"ab\0cb", 0, 5), Some(2));
    assert_eq!(strchr(b"hello", b'l'), Some(2));
    assert_eq!(strchr(b"he\0llo", b'l'), None);
    assert_eq!(strchr(b"hello", 0), None);
    assert_eq!(strrchr(b"hello", b'l'), Some(3));
    assert_eq!(strrchr(b"hello\0l", b'l'), Some(3));
    assert_eq!(strrchr(b"hello", b'z'), None);
}

#[test]
fn spans() {
    assert_eq!(strspn(b"aabbcc", b"ab"), 4);
    assert_eq!(strspn(b"aabbcc", b"xyz"), 0);
    assert_eq!(strspn(b"aab", b"ba"), 3);
    assert_eq!(strspn(b"aa\0bb", b"ab"), 2);
    assert_eq!(strcspn(b"hello, world", b",!"), 5);
    assert_eq!(strcspn(b"hello", b",!"), 5);
    assert_eq!(strcspn(b"hello", b"h"), 0);
    assert_eq!(strcspn(b"hello", b""), 5);
    assert_eq!(strpbrk(b"hello, world", b" ,"), Some(5));
    assert_eq!(strpbrk(b"hello", b" ,"), None);
}

#[test]
fn searching_for_a_string() {
    assert_eq!(strstr(b"hello world", b"o w"), Some(4));
    assert_eq!(strstr(b"hello world", b"o"), Some(4));
    assert_eq!(strstr(b"hello world", b"world"), Some(6));
    assert_eq!(strstr(b"hello world", b"worlds"), None);
    assert_eq!(strstr(b"hello", b""), Some(0));
    assert_eq!(strstr(b"", b""), Some(0));
    assert_eq!(strstr(b"", b"a"), None);
    assert_eq!(strstr(b"ab", b"abc"), None);
    assert_eq!(strstr(b"aaab", b"aab"), Some(1));
    assert_eq!(strstr(b"ab\0cd", b"cd"), None);
}

#[test]
fn copying() {
    let mut dest = [0xaau8; 6];
    strcpy(&mut dest, b"abc");
    assert_eq!(&dest, b"abc\0\xaa\xaa");
    let mut dest = [0xaau8; 6];
    assert_eq!(stpcpy(&mut dest, b"ab\0cd"), 2);
    assert_eq!(&dest, b"ab\0\xaa\xaa\xaa");
    let mut dest = [0xaau8; 6];
    strncpy(&mut dest, b"abcdef", 3);
    assert_eq!(&dest, b"abc\xaa\xaa\xaa");
    let mut dest = [0xaau8; 6];
    strncpy(&mut dest, b"ab", 5);
    assert_eq!(&dest, b"ab\0\xaa\xaa\xaa");
    let mut dest = *b"ab\0\xaa\xaa\xaa\xaa";
    strcat(&mut dest, b"cd");
    assert_eq!(&dest, b"abcd\0\xaa\xaa");
    assert_eq!(strdup(b"abc\0def"), b"abc\0".to_vec());
    assert_eq!(strdup(b""), b"\0".to_vec());
}

#[test]
fn absolute_value() {
    assert_eq!(abs(5), 5);
    assert_eq!(abs(-5), 5);
    assert_eq!(abs(0), 0);
    assert_eq!(abs(i32::MIN), 2147483648);
    assert_eq!(abs(i32::MAX), 2147483647);
}

#[test]
fn an_int_from_its_text() {
    assert_eq!(atoi(b"42"), 42);
    assert_eq!(atoi(b"-42"), -42);
    assert_eq!(atoi(b"+42"), 42);
    assert_eq!(atoi(b"0042"), 42);
    assert_eq!(atoi(b"2147483647"), i32::MAX);
    assert_eq!(atoi(b"-2147483648"), i32::MIN);
    assert_eq!(atoi(b"2147483648"), 0);
    assert_eq!(atoi(b"-2147483649"), 0);
    assert_eq!(atoi(b""), 0);
    assert_eq!(atoi(b"-"), 0);
    assert_eq!(atoi(b"+"), 0);
    assert_eq!(atoi(b" 42"), 0);
    assert_eq!(atoi(b"42 "), 0);
    assert_eq!(atoi(b"4x2"), 0);
    assert_eq!(atoi(b"+-4"), 0);
}
