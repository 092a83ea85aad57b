//! Integers as text: digits in radix 8, 10 and 16, zero padding, and the way
//! back from text to a value.

use crate::ascii::{DIGIT_0, DIGIT_7, DIGIT_9, LOWER_A, LOWER_F, MINUS, UPPER_A, UPPER_F};
use vstd::prelude::*;

verus! {

/// The notation of an integer conversion.
#[derive(Debug, Clone, Copy, PartialEq, Eq, Structural)]
pub enum Kind {
    /// Radix 8.
    Octal,
    /// Radix 16 with the letters `a` to `f`.
    Hex,
    /// Radix 16 with the letters `A` to `F`.
    BigHex,
    /// Radix 10.
    Normal,
}

impl Kind {
    /// The radix that this notation counts in.
    pub open spec fn radix(self) -> nat {
        match self {
            Kind::Octal => 8,
            Kind::Normal => 10,
            Kind::Hex | Kind::BigHex => 16,
        }
    }

    /// The radix as a machine integer.
    pub fn base(self) -> (r: u64)
        ensures
            r == self.radix(),
    {
        match self {
            Kind::Octal => 8,
            Kind::Normal => 10,
            Kind::Hex | Kind::BigHex => 16,
        }
    }
}

/// `n` divided by the radix of `kind`.
pub open spec fn shift_down(n: nat, kind: Kind) -> nat {
    match kind {
        Kind::Octal => n / 8,
        Kind::Normal => n / 10,
        Kind::Hex | Kind::BigHex => n / 16,
    }
}

/// The lowest digit of `n` in the radix of `kind`.
pub open spec fn low_digit(n: nat, kind: Kind) -> nat {
    match kind {
        Kind::Octal => n % 8,
        Kind::Normal => n % 10,
        Kind::Hex | Kind::BigHex => n % 16,
    }
}

/// The ASCII character of the digit `d`, which is below 16.
pub open spec fn digit_byte(d: nat, kind: Kind) -> u8 {
    if d < 10 {
        (DIGIT_0 + d) as u8
    } else if kind == Kind::BigHex {
        (UPPER_A + d - 10) as u8
    } else {
        (LOWER_A + d - 10) as u8
    }
}

/// The digits of `n`, most significant first, without leading zeros; zero is
/// the one digit `0`.
pub open spec fn digits(n: nat, kind: Kind) -> Seq<u8>
    decreases n,
{
    if n < kind.radix() {
        seq![digit_byte(n, kind)]
    } else {
        digits(shift_down(n, kind), kind).push(digit_byte(low_digit(n, kind), kind))
    }
}

/// `count` zero characters.
pub open spec fn zeros(count: nat) -> Seq<u8> {
    Seq::new(count, |i: int| DIGIT_0)
}

/// The minus sign of a negative number, nothing for any other.
pub open spec fn sign_text(negative: bool) -> Seq<u8> {
    if negative {
        seq![MINUS]
    } else {
        Seq::empty()
    }
}

/// How many zeros bring `body_len` digits up to `precision` digits: the
/// sign is no digit and is not counted.
pub open spec fn padding(body_len: nat, precision: Option<usize>) -> nat {
    match precision {
        Some(p) => if p > body_len { (p - body_len) as nat } else { 0 },
        None => 0,
    }
}

/// A number as the printing engine writes it: the sign, then zeros that
/// bring the digits up to `precision` of them, then the digits.
pub open spec fn number_text(
    negative: bool,
    magnitude: nat,
    kind: Kind,
    precision: Option<usize>,
) -> Seq<u8> {
    let body = digits(magnitude, kind);
    sign_text(negative) + zeros(padding(body.len(), precision)) + body
}

/// Whether `b` is one of `0` to `9`.
pub open spec fn is_digit(b: u8) -> bool {
    DIGIT_0 <= b <= DIGIT_9
}

/// Whether `b` is a digit of radix 16, in either case.
pub open spec fn is_hex_digit(b: u8) -> bool {
    is_digit(b) || (UPPER_A <= b <= UPPER_F) || (LOWER_A <= b <= LOWER_F)
}

/// Whether `b` is a digit in the radix of `kind`.
pub open spec fn is_digit_of(b: u8, kind: Kind) -> bool {
    match kind {
        Kind::Octal => DIGIT_0 <= b <= DIGIT_7,
        Kind::Normal => is_digit(b),
        Kind::Hex | Kind::BigHex => is_hex_digit(b),
    }
}

/// The value of the digit `b`, letters of either case counting from ten.
pub open spec fn digit_value(b: u8) -> nat {
    if is_digit(b) {
        (b - DIGIT_0) as nat
    } else if UPPER_A <= b <= UPPER_F {
        (b - UPPER_A + 10) as nat
    } else {
        (b - LOWER_A + 10) as nat
    }
}

/// Whether every byte of `s` is a digit in the radix of `kind`.
pub open spec fn all_digits_of(s: Seq<u8>, kind: Kind) -> bool {
    forall|i: int| 0 <= i < s.len() ==> is_digit_of(#[trigger] s[i], kind)
}

/// `n` times the radix of `kind`.
pub open spec fn shift_up(n: nat, kind: Kind) -> nat {
    match kind {
        Kind::Octal => n * 8,
        Kind::Normal => n * 10,
        Kind::Hex | Kind::BigHex => n * 16,
    }
}

/// The number that the digits `s` write in the radix of `kind`; the empty
/// text writes zero.
pub open spec fn text_value(s: Seq<u8>, kind: Kind) -> nat
    decreases s.len(),
{
    if s.len() == 0 {
        0
    } else {
        shift_up(text_value(s.drop_last(), kind), kind) + digit_value(s.last())
    }
}

/// What a run of digits is worth to a reader that takes values up to
/// `limit`: nothing where the run is empty, holds a byte that is no digit, or
/// writes a number above the limit.
pub open spec fn bounded_value(s: Seq<u8>, kind: Kind, limit: nat) -> Option<nat> {
    if s.len() > 0 && all_digits_of(s, kind) && text_value(s, kind) <= limit {
        Some(text_value(s, kind))
    } else {
        None
    }
}

/// The character of one digit.
fn digit_char(d: u64, kind: Kind) -> (b: u8)
    requires
        d < 16,
    ensures
        b == digit_byte(d as nat, kind),
{
    if d < 10 {
        DIGIT_0 + d as u8
    } else {
        match kind {
            Kind::BigHex => UPPER_A + (d - 10) as u8,
            _ => LOWER_A + (d - 10) as u8,
        }
    }
}

/// A number has at least one digit.
pub proof fn lemma_digits_nonempty(n: nat, kind: Kind)
    ensures
        digits(n, kind).len() >= 1,
    decreases n,
{
    if n >= kind.radix() {
        lemma_digits_nonempty(shift_down(n, kind), kind);
    }
}

/// The digits of `n` in radix `kind`, most significant first.
pub fn digit_text(n: u64, kind: Kind) -> (text: Vec<u8>)
    ensures
        text@ == digits(n as nat, kind),
{
    let base = kind.base();
    let mut low: Vec<u8> = Vec::new();
    let mut rest: u64 = n;
    while rest >= base
        invariant
            base == kind.radix(),
            digits(n as nat, kind) == digits(rest as nat, kind) + low@.reverse(),
        decreases rest,
    {
        let d = digit_char(rest % base, kind);
        proof {
            let before = low@;
            let after = low@.push(d);
            assert(after.reverse() =~= seq![d] + before.reverse());
            assert(digits(rest as nat, kind) == digits(shift_down(rest as nat, kind), kind).push(d));
            assert(digits(shift_down(rest as nat, kind), kind).push(d) + before.reverse()
                =~= digits(shift_down(rest as nat, kind), kind) + after.reverse());
            assert(shift_down(rest as nat, kind) == (rest / base) as nat);
        }
        low.push(d);
        rest = rest / base;
    }
    let mut text: Vec<u8> = Vec::new();
    text.push(digit_char(rest, kind));
    let mut i: usize = low.len();
    while i > 0
        invariant
            i <= low@.len(),
            text@ == digits(rest as nat, kind) + low@.reverse().subrange(0, low@.len() - i),
        decreases i,
    {
        i = i - 1;
        proof {
            let r = low@.reverse();
            let k = low@.len() - i - 1;
            assert(r[k] == low@[i as int]);
            assert(r.subrange(0, k + 1) =~= r.subrange(0, k).push(low@[i as int]));
            assert((digits(rest as nat, kind) + r.subrange(0, k)).push(low@[i as int])
                =~= digits(rest as nat, kind) + r.subrange(0, k + 1));
        }
        text.push(low[i]);
    }
    proof {
        let r = low@.reverse();
        assert(r.subrange(0, low@.len() as int) =~= r);
    }
    text
}

/// A number as the printing engine writes it: sign, zeros up to
/// `precision` digits, digits.
pub fn format_number(
    negative: bool,
    magnitude: u64,
    kind: Kind,
    precision: Option<usize>,
) -> (text: Vec<u8>)
    ensures
        text@ == number_text(negative, magnitude as nat, kind, precision),
{
    let body = digit_text(magnitude, kind);
    let mut text: Vec<u8> = Vec::new();
    if negative {
        text.push(MINUS);
    }
    let pad: usize = match precision {
        Some(p) => if p > body.len() {
            p - body.len()
        } else {
            0
        },
        None => 0,
    };
    assert(text@ == sign_text(negative));
    let mut i: usize = 0;
    while i < pad
        invariant
            i <= pad,
            text@ == sign_text(negative) + zeros(i as nat),
        decreases pad - i,
    {
        text.push(DIGIT_0);
        assert(zeros(i as nat).push(DIGIT_0) =~= zeros((i + 1) as nat));
        assert((sign_text(negative) + zeros(i as nat)).push(DIGIT_0) =~= sign_text(negative) + zeros(
            (i + 1) as nat,
        ));
        i = i + 1;
    }
    let mut j: usize = 0;
    while j < body.len()
        invariant
            j <= body@.len(),
            text@ == sign_text(negative) + zeros(pad as nat) + body@.subrange(0, j as int),
        decreases body@.len() - j,
    {
        text.push(body[j]);
        assert(body@.subrange(0, j + 1) =~= body@.subrange(0, j as int).push(body@[j as int]));
        j = j + 1;
    }
    assert(body@.subrange(0, body@.len() as int) =~= body@);
    text
}

/// Reading the digits of a number gives the number back, in every radix and
/// in either case of the letters.
pub proof fn lemma_digits_round_trip(n: nat, kind: Kind)
    ensures
        all_digits_of(digits(n, kind), kind),
        text_value(digits(n, kind), kind) == n,
    decreases n,
{
    if n < kind.radix() {
        let one = seq![digit_byte(n, kind)];
        assert(one.drop_last() =~= Seq::<u8>::empty());
        assert(text_value(one.drop_last(), kind) == 0);
    } else {
        let high = digits(shift_down(n, kind), kind);
        let d = digit_byte(low_digit(n, kind), kind);
        lemma_digits_round_trip(shift_down(n, kind), kind);
        assert(high.push(d).drop_last() =~= high);
        assert(high.push(d).last() == d);
        assert(digit_value(d) == low_digit(n, kind));
        assert(is_digit_of(d, kind));
        assert forall|i: int| 0 <= i < high.push(d).len() implies is_digit_of(
            #[trigger] high.push(d)[i],
            kind,
        ) by {
            if i < high.len() {
                assert(high.push(d)[i] == high[i]);
            }
        }
    }
}

/// A text is worth at least as much as any text it begins with.
pub proof fn lemma_value_of_prefix(s: Seq<u8>, k: int, kind: Kind)
    requires
        0 <= k <= s.len(),
    ensures
        text_value(s.subrange(0, k), kind) <= text_value(s, kind),
    decreases s.len(),
{
    if k == s.len() {
        assert(s.subrange(0, k) =~= s);
    } else {
        lemma_value_of_prefix(s.drop_last(), k, kind);
        assert(s.drop_last().subrange(0, k) =~= s.subrange(0, k));
    }
}

/// The value of a run of digits, where it is a number up to `limit`.
pub fn parse_digits(s: &[u8], kind: Kind, limit: u64) -> (r: Option<u64>)
    ensures
        r == match bounded_value(s@, kind, limit as nat) {
            Some(v) => Some(v as u64),
            None => None,
        },
{
    if s.len() == 0 {
        return None;
    }
    let mut acc: u64 = 0;
    let mut i: usize = 0;
    while i < s.len()
        invariant
            i <= s@.len(),
            acc == text_value(s@.subrange(0, i as int), kind),
            acc <= limit,
            all_digits_of(s@.subrange(0, i as int), kind),
        decreases s@.len() - i,
    {
        let b = s[i];
        let valid = match kind {
            Kind::Octal => DIGIT_0 <= b && b <= DIGIT_7,
            Kind::Normal => DIGIT_0 <= b && b <= DIGIT_9,
            _ => (DIGIT_0 <= b && b <= DIGIT_9) || (UPPER_A <= b && b <= UPPER_F) || (LOWER_A <= b
                && b <= LOWER_F),
        };
        if !valid {
            assert(!is_digit_of(s@[i as int], kind));
            return None;
        }
        let d: u64 = if b <= DIGIT_9 {
            (b - DIGIT_0) as u64
        } else if b <= UPPER_F {
            (b - UPPER_A) as u64 + 10
        } else {
            (b - LOWER_A) as u64 + 10
        };
        let wide: u128 = match kind {
            Kind::Octal => acc as u128 * 8 + d as u128,
            Kind::Normal => acc as u128 * 10 + d as u128,
            _ => acc as u128 * 16 + d as u128,
        };
        proof {
            let head = s@.subrange(0, i + 1);
            assert(head.drop_last() =~= s@.subrange(0, i as int));
            assert(head.last() == b);
            assert(wide == text_value(head, kind));
            assert forall|j: int| 0 <= j < head.len() implies is_digit_of(
                #[trigger] head[j],
                kind,
            ) by {
                if j < i {
                    assert(head[j] == s@.subrange(0, i as int)[j]);
                }
            }
        }
        if wide > limit as u128 {
            proof {
                lemma_value_of_prefix(s@, i + 1, kind);
            }
            return None;
        }
        acc = wide as u64;
        i = i + 1;
    }
    assert(s@.subrange(0, i as int) =~= s@);
    Some(acc)
}

} // verus!
