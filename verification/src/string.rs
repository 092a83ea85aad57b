//! Strings as C has them: the bytes before the first zero byte of a piece
//! of memory. Lengths, comparisons, searches and copies.

use crate::ascii::{NUL, UPPER_A, UPPER_Z};
use vstd::prelude::*;
use vstd::slice::{slice_subrange, slice_to_vec};

verus! {

/// The length of the string at the start of `s`: the number of bytes before
/// the first zero, all of them where there is none.
pub open spec fn c_len(s: Seq<u8>) -> nat
    decreases s.len(),
{
    if s.len() == 0 || s[0] == NUL {
        0
    } else {
        1 + c_len(s.skip(1))
    }
}

/// The length of the string at the start of `bytes`.
pub fn strlen(bytes: &[u8]) -> (n: usize)
    ensures
        n == c_len(bytes@),
        n <= bytes@.len(),
{
    let mut i: usize = 0;
    assert(bytes@.skip(0) =~= bytes@);
    while i < bytes.len() && bytes[i] != NUL
        invariant
            i <= bytes@.len(),
            c_len(bytes@) == i + c_len(bytes@.skip(i as int)),
        decreases bytes@.len() - i,
    {
        proof {
            let rest = bytes@.skip(i as int);
            assert(rest[0] == bytes@[i as int]);
            assert(rest.skip(1) =~= bytes@.skip(i + 1));
        }
        i = i + 1;
    }
    proof {
        let rest = bytes@.skip(i as int);
        if i < bytes@.len() {
            assert(rest[0] == bytes@[i as int]);
        }
    }
    i
}

/// The string at the start of `s` ends within `s`, holds no zero byte, and
/// is followed by one unless it runs to the end.
pub proof fn lemma_c_len(s: Seq<u8>)
    ensures
        c_len(s) <= s.len(),
        forall|i: int| 0 <= i < c_len(s) ==> s[i] != NUL,
        c_len(s) < s.len() ==> s[c_len(s) as int] == NUL,
    decreases s.len(),
{
    if s.len() > 0 && s[0] != NUL {
        let rest = s.skip(1);
        lemma_c_len(rest);
        assert forall|i: int| 0 <= i < c_len(s) implies s[i] != NUL by {
            if i > 0 {
                assert(s[i] == rest[i - 1]);
            }
        }
        if c_len(s) < s.len() {
            assert(s[c_len(s) as int] == rest[c_len(rest) as int]);
        }
    }
}

/// The string at the start of `s`: its bytes before the first zero.
pub open spec fn c_str(s: Seq<u8>) -> Seq<u8> {
    s.take(c_len(s) as int)
}

/// The byte at `i` of the string at the start of `s`, and the terminator
/// behind its end.
pub open spec fn c_byte(s: Seq<u8>, i: int) -> u8 {
    if 0 <= i < c_len(s) {
        s[i]
    } else {
        NUL
    }
}

/// The length of the string at the start of `s`, and no more than
/// `maxlen`.
pub fn strnlen(s: &[u8], maxlen: usize) -> (n: usize)
    ensures
        n == if c_len(s@) < maxlen {
            c_len(s@)
        } else {
            maxlen as nat
        },
{
    let len = strlen(s);
    if len < maxlen {
        len
    } else {
        maxlen
    }
}

/// How two runs of bytes compare: by their first bytes that differ, as the
/// difference of the two; a run that ends where the other goes on compares
/// as if a zero byte followed it; equal runs compare as zero.
pub open spec fn compare(x: Seq<u8>, y: Seq<u8>) -> int
    decreases x.len(),
{
    if x.len() == 0 && y.len() == 0 {
        0
    } else if x.len() == 0 {
        0 - y[0]
    } else if y.len() == 0 {
        x[0] as int
    } else if x[0] != y[0] {
        x[0] - y[0]
    } else {
        compare(x.skip(1), y.skip(1))
    }
}

/// The first `n` bytes of `s`, or all of them where there are fewer.
pub open spec fn first(s: Seq<u8>, n: usize) -> Seq<u8> {
    if n < s.len() {
        s.take(n as int)
    } else {
        s
    }
}

/// `s` with its upper-case ASCII letters in lower case.
pub open spec fn folded(s: Seq<u8>) -> Seq<u8> {
    s.map_values(|c: u8| lower(c))
}

/// Compares the first `n` bytes of the runs `x` and `y`.
fn compare_runs(x: &[u8], y: &[u8], n: usize) -> (r: i32)
    ensures
        r == compare(first(x@, n), first(y@, n)),
{
    let ghost a = first(x@, n);
    let ghost b = first(y@, n);
    let mut i: usize = 0;
    assert(a.skip(0) =~= a && b.skip(0) =~= b);
    while i < n && i < x.len() && i < y.len()
        invariant
            i <= n,
            i <= x@.len(),
            i <= y@.len(),
            a == first(x@, n),
            b == first(y@, n),
            compare(a, b) == compare(a.skip(i as int), b.skip(i as int)),
        decreases n - i,
    {
        proof {
            assert(a.skip(i as int)[0] == x@[i as int]);
            assert(b.skip(i as int)[0] == y@[i as int]);
            assert(a.skip(i as int).skip(1) =~= a.skip(i + 1));
            assert(b.skip(i as int).skip(1) =~= b.skip(i + 1));
        }
        if x[i] != y[i] {
            return x[i] as i32 - y[i] as i32;
        }
        i = i + 1;
    }
    proof {
        if i < a.len() {
            assert(a.skip(i as int)[0] == x@[i as int]);
        }
        if i < b.len() {
            assert(b.skip(i as int)[0] == y@[i as int]);
        }
    }
    if i < n && i < x.len() {
        x[i] as i32
    } else if i < n && i < y.len() {
        0 - y[i] as i32
    } else {
        0
    }
}

/// Compares the strings at the start of `s1` and `s2`: zero where they are
/// equal, else the difference of the first bytes in which they differ, the
/// terminator counting as a byte.
pub fn strcmp(s1: &[u8], s2: &[u8]) -> (r: i32)
    ensures
        r == compare(c_str(s1@), c_str(s2@)),
{
    let n1 = strlen(s1);
    let n2 = strlen(s2);
    let x = slice_subrange(s1, 0, n1);
    let y = slice_subrange(s2, 0, n2);
    let n = if n1 < n2 {
        n2
    } else {
        n1
    };
    assert(x@ =~= c_str(s1@) && y@ =~= c_str(s2@));
    compare_runs(x, y, n)
}

/// Compares the strings at the start of `s1` and `s2` in no more than
/// their first `n` bytes.
pub fn strncmp(s1: &[u8], s2: &[u8], n: usize) -> (r: i32)
    ensures
        r == compare(first(c_str(s1@), n), first(c_str(s2@), n)),
{
    let n1 = strlen(s1);
    let n2 = strlen(s2);
    let x = slice_subrange(s1, 0, n1);
    let y = slice_subrange(s2, 0, n2);
    assert(x@ =~= c_str(s1@) && y@ =~= c_str(s2@));
    compare_runs(x, y, n)
}

/// Compares the first `n` bytes of `s1` and `s2`, zero bytes like any
/// other.
pub fn memcmp(s1: &[u8], s2: &[u8], n: usize) -> (r: i32)
    requires
        n <= s1@.len(),
        n <= s2@.len(),
    ensures
        r == compare(first(s1@, n), first(s2@, n)),
        r == 0 <==> first(s1@, n) == first(s2@, n),
{
    compare_bytes(s1, s2, n)
}

/// Compares the first `n` bytes of `s1` and `s2`.
fn compare_bytes(s1: &[u8], s2: &[u8], n: usize) -> (r: i32)
    requires
        n <= s1@.len(),
        n <= s2@.len(),
    ensures
        r == compare(first(s1@, n), first(s2@, n)),
        r == 0 <==> first(s1@, n) == first(s2@, n),
{
    let x = slice_subrange(s1, 0, n);
    let y = slice_subrange(s2, 0, n);
    assert(x@ =~= first(s1@, n) && y@ =~= first(s2@, n));
    assert(first(x@, n) =~= x@ && first(y@, n) =~= y@);
    proof {
        lemma_compare_equal(x@, y@);
    }
    compare_runs(x, y, n)
}

/// Runs of one length compare as zero if and only if they are equal.
pub proof fn lemma_compare_equal(x: Seq<u8>, y: Seq<u8>)
    requires
        x.len() == y.len(),
    ensures
        compare(x, y) == 0 <==> x == y,
    decreases x.len(),
{
    if x.len() == 0 {
        assert(x =~= y);
    } else if x[0] != y[0] {
    } else {
        lemma_compare_equal(x.skip(1), y.skip(1));
        if x.skip(1) == y.skip(1) {
            assert forall|i: int| 0 <= i < x.len() implies x[i] == y[i] by {
                if i > 0 {
                    assert(x.skip(1)[i - 1] == y.skip(1)[i - 1]);
                }
            }
            assert(x =~= y);
        }
    }
}

/// The lower-case letter of an upper-case ASCII letter, and any other byte
/// as it is.
pub open spec fn lower(b: u8) -> u8 {
    if UPPER_A <= b <= UPPER_Z {
        (b + 32) as u8
    } else {
        b
    }
}

/// The sign of a number: -1, 0 or 1.
pub open spec fn sign(v: int) -> int {
    if v < 0 {
        -1
    } else if v == 0 {
        0
    } else {
        1int
    }
}

/// The lower-case letter of an upper-case ASCII letter.
fn to_lower(b: u8) -> (r: u8)
    ensures
        r == lower(b),
{
    if UPPER_A <= b && b <= UPPER_Z {
        b + 32
    } else {
        b
    }
}

/// Compares the strings at the start of `a` and `b` in no more than their
/// first `n` bytes, without regard to the case of ASCII letters. The
/// result is the sign of the comparison of the strings in lower case.
pub fn strncasecmp(a: &[u8], b: &[u8], n: usize) -> (r: i32)
    ensures
        r == sign(compare(folded(first(c_str(a@), n)), folded(first(c_str(b@), n)))),
{
    compare_folded(a, b, n)
}

/// Compares the strings at the start of `a` and `b` in lower case, in no
/// more than their first `n` bytes, and gives the sign.
fn compare_folded(a: &[u8], b: &[u8], n: usize) -> (r: i32)
    ensures
        r == sign(compare(folded(first(c_str(a@), n)), folded(first(c_str(b@), n)))),
{
    let n1 = strlen(a);
    let n2 = strlen(b);
    let ghost x = folded(first(c_str(a@), n));
    let ghost y = folded(first(c_str(b@), n));
    let mut i: usize = 0;
    assert(x.skip(0) =~= x && y.skip(0) =~= y);
    while i < n && i < n1 && i < n2
        invariant
            i <= n,
            i <= n1,
            i <= n2,
            n1 == c_len(a@),
            n2 == c_len(b@),
            n1 <= a@.len(),
            n2 <= b@.len(),
            x == folded(first(c_str(a@), n)),
            y == folded(first(c_str(b@), n)),
            compare(x, y) == compare(x.skip(i as int), y.skip(i as int)),
        decreases n - i,
    {
        let val_a = to_lower(a[i]);
        let val_b = to_lower(b[i]);
        proof {
            assert(x.skip(i as int)[0] == val_a);
            assert(y.skip(i as int)[0] == val_b);
            assert(x.skip(i as int).skip(1) =~= x.skip(i + 1));
            assert(y.skip(i as int).skip(1) =~= y.skip(i + 1));
        }
        if val_a != val_b {
            return if val_a < val_b {
                -1
            } else {
                1
            };
        }
        i = i + 1;
    }
    proof {
        lemma_c_len(a@);
        lemma_c_len(b@);
        if i < x.len() {
            assert(x.skip(i as int)[0] == lower(a@[i as int]));
        }
        if i < y.len() {
            assert(y.skip(i as int)[0] == lower(b@[i as int]));
        }
    }
    if i < n && i < n1 {
        1
    } else if i < n && i < n2 {
        -1
    } else {
        0
    }
}

/// Compares the strings at the start of `a` and `b` without regard to the
/// case of ASCII letters.
pub fn strcasecmp(a: &[u8], b: &[u8]) -> (r: i32)
    ensures
        r == sign(compare(folded(c_str(a@)), folded(c_str(b@)))),
{
    let len_a = a.len();
    let len_b = b.len();
    proof {
        lemma_c_len(a@);
        lemma_c_len(b@);
    }
    strncasecmp(a, b, usize::MAX)
}

/// The first place among the first `n` bytes of `s` that holds `byte`.
pub fn memchr(s: &[u8], byte: u8, n: usize) -> (r: Option<usize>)
    requires
        n <= s@.len(),
    ensures
        match r {
            Some(i) => i < n && s@[i as int] == byte && forall|j: int|
                0 <= j < i ==> s@[j] != byte,
            None => forall|j: int| 0 <= j < n ==> s@[j] != byte,
        },
{
    let mut i: usize = 0;
    while i < n
        invariant
            i <= n,
            n <= s@.len(),
            forall|j: int| 0 <= j < i ==> s@[j] != byte,
        decreases n - i,
    {
        if s[i] == byte {
            return Some(i);
        }
        i = i + 1;
    }
    None
}

/// The first place in the string at the start of `s` that holds `byte`.
/// The terminator is no part of the string and is never found.
pub fn strchr(s: &[u8], byte: u8) -> (r: Option<usize>)
    ensures
        match r {
            Some(i) => i < c_len(s@) && s@[i as int] == byte && forall|j: int|
                0 <= j < i ==> s@[j] != byte,
            None => forall|j: int| 0 <= j < c_len(s@) ==> s@[j] != byte,
        },
{
    let len = strlen(s);
    memchr(s, byte, len)
}

/// The last place in the string at the start of `s` that holds `byte`.
pub fn strrchr(s: &[u8], byte: u8) -> (r: Option<usize>)
    ensures
        match r {
            Some(i) => i < c_len(s@) && s@[i as int] == byte && forall|j: int|
                i < j < c_len(s@) ==> s@[j] != byte,
            None => forall|j: int| 0 <= j < c_len(s@) ==> s@[j] != byte,
        },
{
    let len = strlen(s);
    let mut last: Option<usize> = None;
    let mut i: usize = 0;
    while i < len
        invariant
            i <= len,
            len == c_len(s@),
            len <= s@.len(),
            match last {
                Some(k) => k < i && s@[k as int] == byte && forall|j: int|
                    k < j < i ==> s@[j] != byte,
                None => forall|j: int| 0 <= j < i ==> s@[j] != byte,
            },
        decreases len - i,
    {
        if s[i] == byte {
            last = Some(i);
        }
        i = i + 1;
    }
    last
}

/// Whether the string at the start of `set` holds `byte`.
fn holds(set: &[u8], byte: u8) -> (r: bool)
    ensures
        r == c_str(set@).contains(byte),
{
    proof {
        lemma_c_len(set@);
    }
    match strchr(set, byte) {
        Some(i) => {
            assert(c_str(set@)[i as int] == byte);
            true
        },
        None => {
            assert forall|j: int| 0 <= j < c_str(set@).len() implies c_str(set@)[j] != byte by {
                assert(c_str(set@)[j] == set@[j]);
            }
            false
        },
    }
}

/// The length of the longest start of the string at `s` that is made of
/// bytes of the string at `accept` only.
pub fn strspn(s: &[u8], accept: &[u8]) -> (n: usize)
    ensures
        n <= c_len(s@),
        forall|i: int| 0 <= i < n ==> c_str(accept@).contains(s@[i]),
        n < c_len(s@) ==> !c_str(accept@).contains(s@[n as int]),
{
    let len = strlen(s);
    let mut i: usize = 0;
    while i < len
        invariant
            i <= len,
            len == c_len(s@),
            len <= s@.len(),
            forall|j: int| 0 <= j < i ==> c_str(accept@).contains(s@[j]),
        decreases len - i,
    {
        if !holds(accept, s[i]) {
            return i;
        }
        i = i + 1;
    }
    i
}

/// The length of the longest start of the string at `s` that holds no byte
/// of the string at `reject`.
pub fn strcspn(s: &[u8], reject: &[u8]) -> (n: usize)
    ensures
        n <= c_len(s@),
        forall|i: int| 0 <= i < n ==> !c_str(reject@).contains(s@[i]),
        n < c_len(s@) ==> c_str(reject@).contains(s@[n as int]),
{
    let len = strlen(s);
    let mut i: usize = 0;
    while i < len
        invariant
            i <= len,
            len == c_len(s@),
            len <= s@.len(),
            forall|j: int| 0 <= j < i ==> !c_str(reject@).contains(s@[j]),
        decreases len - i,
    {
        if holds(reject, s[i]) {
            return i;
        }
        i = i + 1;
    }
    i
}

/// The first place in the string at `s` that holds a byte of the string at
/// `accept`.
pub fn strpbrk(s: &[u8], accept: &[u8]) -> (r: Option<usize>)
    ensures
        match r {
            Some(i) => i < c_len(s@) && c_str(accept@).contains(s@[i as int]) && forall|j: int|
                0 <= j < i ==> !c_str(accept@).contains(s@[j]),
            None => forall|j: int| 0 <= j < c_len(s@) ==> !c_str(accept@).contains(s@[j]),
        },
{
    let len = strlen(s);
    let n = strcspn(s, accept);
    if n < len {
        Some(n)
    } else {
        None
    }
}

/// Whether `needle` stands in `haystack` at `at`.
pub open spec fn occurs_at(haystack: Seq<u8>, needle: Seq<u8>, at: int) -> bool {
    0 <= at && at + needle.len() <= haystack.len() && haystack.subrange(
        at,
        at + needle.len(),
    ) == needle
}

/// Whether `needle` stands in `haystack` at `at`.
fn matches_at(haystack: &[u8], needle: &[u8], at: usize) -> (r: bool)
    requires
        at + needle@.len() <= haystack@.len(),
    ensures
        r == occurs_at(haystack@, needle@, at as int),
{
    let mut i: usize = 0;
    let room = haystack.len();
    while i < needle.len()
        invariant
            i <= needle@.len(),
            room == haystack@.len(),
            at + needle@.len() <= haystack@.len(),
            forall|j: int| 0 <= j < i ==> haystack@[at + j] == needle@[j],
        decreases needle@.len() - i,
    {
        if haystack[at + i] != needle[i] {
            assert(haystack@.subrange(at as int, at + needle@.len())[i as int] != needle@[i as int]);
            return false;
        }
        i = i + 1;
    }
    assert(haystack@.subrange(at as int, at + needle@.len()) =~= needle@);
    true
}

/// The first place in the string at `haystack` where the string at
/// `needle` stands. The empty string stands at the start.
pub fn strstr(haystack: &[u8], needle: &[u8]) -> (r: Option<usize>)
    ensures
        match r {
            Some(i) => occurs_at(c_str(haystack@), c_str(needle@), i as int) && forall|j: int|
                0 <= j < i ==> !occurs_at(c_str(haystack@), c_str(needle@), j),
            None => forall|j: int| !occurs_at(c_str(haystack@), c_str(needle@), j),
        },
{
    let hlen = strlen(haystack);
    let nlen = strlen(needle);
    let h = slice_subrange(haystack, 0, hlen);
    let n = slice_subrange(needle, 0, nlen);
    assert(h@ =~= c_str(haystack@) && n@ =~= c_str(needle@));
    if nlen > hlen {
        return None;
    }
    let last = hlen - nlen;
    let mut i: usize = 0;
    loop
        invariant
            i <= last,
            last == hlen - nlen,
            hlen == h@.len(),
            nlen == n@.len(),
            h@ == c_str(haystack@),
            n@ == c_str(needle@),
            forall|j: int| 0 <= j < i ==> !occurs_at(h@, n@, j),
        decreases last - i,
    {
        if matches_at(h, n, i) {
            return Some(i);
        }
        if i == last {
            return None;
        }
        i = i + 1;
    }
}

/// Copies the string at the start of `src`, with a terminator, to the
/// start of `dest`, and gives its length.
pub fn stpcpy(dest: &mut [u8], src: &[u8]) -> (len: usize)
    requires
        c_len(src@) < old(dest)@.len(),
    ensures
        len == c_len(src@),
        final(dest)@ == c_str(src@).push(NUL) + old(dest)@.skip(len + 1),
{
    let len = strlen(src);
    let mut i: usize = 0;
    assert(dest@ =~= src@.take(0) + dest@.skip(0));
    while i < len
        invariant
            i <= len,
            len == c_len(src@),
            len <= src@.len(),
            len < dest@.len(),
            dest@.len() == old(dest)@.len(),
            dest@ == src@.take(i as int) + old(dest)@.skip(i as int),
        decreases len - i,
    {
        dest[i] = src[i];
        assert(dest@ =~= src@.take(i + 1) + old(dest)@.skip(i + 1));
        i = i + 1;
    }
    dest[len] = NUL;
    assert(dest@ =~= c_str(src@).push(NUL) + old(dest)@.skip(len + 1));
    len
}

/// Copies the string at the start of `src`, with a terminator, to the
/// start of `dest`.
pub fn strcpy(dest: &mut [u8], src: &[u8])
    requires
        c_len(src@) < old(dest)@.len(),
    ensures
        final(dest)@ == c_str(src@).push(NUL) + old(dest)@.skip(c_len(src@) as int + 1),
{
    let _ = stpcpy(dest, src);
}

/// Copies no more than the first `n` bytes of the string at the start of
/// `src` to the start of `dest`, and puts one terminator behind them if
/// they are fewer than `n`.
pub fn strncpy(dest: &mut [u8], src: &[u8], n: usize)
    requires
        n <= old(dest)@.len(),
    ensures
        final(dest)@ == if c_len(src@) < n {
            c_str(src@).push(NUL) + old(dest)@.skip(c_len(src@) as int + 1)
        } else {
            src@.take(n as int) + old(dest)@.skip(n as int)
        },
{
    let len = strnlen(src, n);
    proof {
        lemma_c_len(src@);
    }
    let mut i: usize = 0;
    assert(dest@ =~= src@.take(0) + dest@.skip(0));
    while i < len
        invariant
            i <= len,
            len <= src@.len(),
            len <= n,
            n <= dest@.len(),
            dest@.len() == old(dest)@.len(),
            dest@ == src@.take(i as int) + old(dest)@.skip(i as int),
        decreases len - i,
    {
        dest[i] = src[i];
        assert(dest@ =~= src@.take(i + 1) + old(dest)@.skip(i + 1));
        i = i + 1;
    }
    if len < n {
        dest[len] = NUL;
        assert(dest@ =~= c_str(src@).push(NUL) + old(dest)@.skip(len + 1));
    }
}

/// Puts the string at the start of `src`, with a terminator, behind the
/// string at the start of `dest`.
pub fn strcat(dest: &mut [u8], src: &[u8])
    requires
        c_len(old(dest)@) + c_len(src@) < old(dest)@.len(),
    ensures
        final(dest)@ == (c_str(old(dest)@) + c_str(src@)).push(NUL) + old(dest)@.skip(
            (c_len(old(dest)@) + c_len(src@) + 1) as int,
        ),
{
    let dlen = strlen(dest);
    let slen = strlen(src);
    let cap = dest.len();
    let mut i: usize = 0;
    assert(dest@ =~= dest@.take(dlen as int) + src@.take(0) + dest@.skip(dlen as int));
    while i < slen
        invariant
            i <= slen,
            cap == dest@.len(),
            slen == c_len(src@),
            slen <= src@.len(),
            dlen == c_len(old(dest)@),
            dlen + slen < dest@.len(),
            dest@.len() == old(dest)@.len(),
            dest@ == old(dest)@.take(dlen as int) + src@.take(i as int) + old(dest)@.skip(dlen + i),
        decreases slen - i,
    {
        dest[dlen + i] = src[i];
        assert(dest@ =~= old(dest)@.take(dlen as int) + src@.take(i + 1) + old(dest)@.skip(
            dlen + i + 1,
        ));
        i = i + 1;
    }
    dest[dlen + slen] = NUL;
    assert(dest@ =~= (c_str(old(dest)@) + c_str(src@)).push(NUL) + old(dest)@.skip(
        dlen + slen + 1,
    ));
}

/// A copy of the string at the start of `s`, with a terminator.
pub fn strdup(s: &[u8]) -> (copy: Vec<u8>)
    ensures
        copy@ == c_str(s@).push(NUL),
{
    let len = strlen(s);
    let mut copy = slice_to_vec(slice_subrange(s, 0, len));
    assert(copy@ =~= c_str(s@));
    copy.push(NUL);
    copy
}

} // verus!
