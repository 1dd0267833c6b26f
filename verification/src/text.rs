//! Fields, lines and decimal numbers in bytes of text.

use vstd::prelude::*;

verus! {

/// Bytes that separate the fields of a text: space, tab, line feed, vertical
/// tab, form feed and carriage return.
pub open spec fn is_space(b: u8) -> bool {
    b == 32 || (9 <= b && b <= 13)
}

/// Whether a byte separates fields.
pub fn is_space_byte(b: u8) -> (r: bool)
    ensures
        r == is_space(b),
{
    b == 32u8 || (9u8 <= b && b <= 13u8)
}

/// First position at or after `i` that holds no separator; the length of `s`
/// if only separators follow.
pub open spec fn skip_spaces(s: Seq<u8>, i: int) -> int
    decreases s.len() - i,
{
    if 0 <= i < s.len() && is_space(s[i]) {
        skip_spaces(s, i + 1)
    } else {
        i
    }
}

/// First position at or after `i` that holds a separator; the length of `s`
/// if none follows.
pub open spec fn token_end(s: Seq<u8>, i: int) -> int
    decreases s.len() - i,
{
    if 0 <= i < s.len() && !is_space(s[i]) {
        token_end(s, i + 1)
    } else {
        i
    }
}

/// First position at or after `i` that holds a line feed; the length of `s`
/// if none follows.
pub open spec fn line_end(s: Seq<u8>, i: int) -> int
    decreases s.len() - i,
{
    if 0 <= i < s.len() && s[i] != 10 {
        line_end(s, i + 1)
    } else {
        i
    }
}

/// Scanning never leaves the string and never moves backwards.
pub proof fn lemma_scan_bounds(s: Seq<u8>, i: int)
    requires
        0 <= i <= s.len(),
    ensures
        i <= skip_spaces(s, i) <= s.len(),
        i <= token_end(s, i) <= s.len(),
        i <= line_end(s, i) <= s.len(),
    decreases s.len() - i,
{
    if i < s.len() {
        lemma_scan_bounds(s, i + 1);
    }
}

/// Skipping separators stops at a byte that is none, and a token that begins
/// there is not empty.
pub proof fn lemma_field_not_empty(s: Seq<u8>, i: int)
    requires
        0 <= i <= s.len(),
        skip_spaces(s, i) < s.len(),
    ensures
        !is_space(s[skip_spaces(s, i)]),
        skip_spaces(s, i) < token_end(s, skip_spaces(s, i)) <= s.len(),
    decreases s.len() - i,
{
    if i < s.len() && is_space(s[i]) {
        lemma_field_not_empty(s, i + 1);
    } else {
        lemma_scan_bounds(s, i + 1);
    }
}

/// A run of bytes without separator that ends at a separator, or at the end
/// of the string, is one token.
pub proof fn lemma_token_run(s: Seq<u8>, i: int, j: int)
    requires
        0 <= i <= j <= s.len(),
        forall|k: int| i <= k < j ==> !is_space(#[trigger] s[k]),
        j == s.len() || is_space(s[j]),
    ensures
        token_end(s, i) == j,
    decreases j - i,
{
    if i < j {
        lemma_token_run(s, i + 1, j);
    }
}

/// A run of separators that ends at another byte, or at the end of the
/// string, is skipped as a whole.
pub proof fn lemma_space_run(s: Seq<u8>, i: int, j: int)
    requires
        0 <= i <= j <= s.len(),
        forall|k: int| i <= k < j ==> is_space(#[trigger] s[k]),
        j == s.len() || !is_space(s[j]),
    ensures
        skip_spaces(s, i) == j,
    decreases j - i,
{
    if i < j {
        lemma_space_run(s, i + 1, j);
    }
}

/// Finds the first position at or after `start` that holds no separator.
pub fn skip_spaces_from(bytes: &[u8], start: usize) -> (i: usize)
    requires
        start <= bytes@.len(),
    ensures
        i == skip_spaces(bytes@, start as int),
        start <= i <= bytes@.len(),
{
    let mut i: usize = start;
    while i < bytes.len() && is_space_byte(bytes[i])
        invariant
            start <= i <= bytes@.len(),
            skip_spaces(bytes@, start as int) == skip_spaces(bytes@, i as int),
        decreases bytes@.len() - i,
    {
        i = i + 1;
    }
    i
}

/// Finds the first position at or after `start` that holds a separator.
pub fn token_end_from(bytes: &[u8], start: usize) -> (i: usize)
    requires
        start <= bytes@.len(),
    ensures
        i == token_end(bytes@, start as int),
        start <= i <= bytes@.len(),
{
    let mut i: usize = start;
    while i < bytes.len() && !is_space_byte(bytes[i])
        invariant
            start <= i <= bytes@.len(),
            token_end(bytes@, start as int) == token_end(bytes@, i as int),
        decreases bytes@.len() - i,
    {
        i = i + 1;
    }
    i
}

/// Finds the first position at or after `start` that holds a line feed.
pub fn line_end_from(bytes: &[u8], start: usize) -> (i: usize)
    requires
        start <= bytes@.len(),
    ensures
        i == line_end(bytes@, start as int),
        start <= i <= bytes@.len(),
{
    let mut i: usize = start;
    while i < bytes.len() && bytes[i] != 10u8
        invariant
            start <= i <= bytes@.len(),
            line_end(bytes@, start as int) == line_end(bytes@, i as int),
        decreases bytes@.len() - i,
    {
        i = i + 1;
    }
    i
}

/// Every byte is an ASCII digit.
pub open spec fn all_digits(s: Seq<u8>) -> bool {
    forall|i: int| 0 <= i < s.len() ==> 48 <= #[trigger] s[i] <= 57
}

/// The number that a string of ASCII digits spells in base ten.
pub open spec fn digits_value(s: Seq<u8>) -> nat
    decreases s.len(),
{
    if s.len() == 0 {
        0
    } else {
        (digits_value(s.drop_last()) * 10 + (s.last() - 48)) as nat
    }
}

/// A string of digits is worth at least as much as any of its prefixes.
pub proof fn lemma_digits_value_prefix(s: Seq<u8>, k: int)
    requires
        all_digits(s),
        0 <= k <= s.len(),
    ensures
        digits_value(s.subrange(0, k)) <= digits_value(s),
    decreases s.len() - k,
{
    if k == s.len() {
        assert(s.subrange(0, k) =~= s);
    } else {
        let longer = s.subrange(0, k + 1);
        assert(longer.drop_last() =~= s.subrange(0, k));
        assert(longer.last() == s[k]);
        lemma_digits_value_prefix(s, k + 1);
    }
}

/// The number a token spells: an optional `+`, then one or more digits whose
/// value is at most `max`. `None` for anything else.
pub open spec fn bounded_number(token: Seq<u8>, max: nat) -> Option<nat> {
    let digits = if token.len() > 0 && token[0] == 43 {
        token.skip(1)
    } else {
        token
    };
    if digits.len() > 0 && all_digits(digits) && digits_value(digits) <= max {
        Some(digits_value(digits))
    } else {
        None
    }
}

/// Reads the number that the bytes from `start` to `end` spell, if it is at
/// most `max`.
pub fn parse_bounded(bytes: &[u8], start: usize, end: usize, max: u64) -> (r: Option<u64>)
    requires
        start <= end <= bytes@.len(),
    ensures
        r matches Some(n) ==> bounded_number(
            bytes@.subrange(start as int, end as int),
            max as nat,
        ) == Some(n as nat),
        r is None ==> bounded_number(bytes@.subrange(start as int, end as int), max as nat)
            is None,
{
    let ghost token = bytes@.subrange(start as int, end as int);
    let mut i: usize = start;
    if i < end && bytes[i] == 43u8 {
        i = i + 1;
    }
    let first: usize = i;
    let ghost digits = bytes@.subrange(first as int, end as int);
    assert(digits =~= (if token.len() > 0 && token[0] == 43 {
        token.skip(1)
    } else {
        token
    }));
    if i == end {
        return None;
    }
    let mut value: u64 = 0;
    assert(digits.subrange(0, 0) =~= Seq::<u8>::empty());
    while i < end
        invariant
            start <= first <= i <= end <= bytes@.len(),
            digits == bytes@.subrange(first as int, end as int),
            bounded_number(bytes@.subrange(start as int, end as int), max as nat) == (
            if digits.len() > 0 && all_digits(digits) && digits_value(digits) <= max {
                Some(digits_value(digits))
            } else {
                None
            }),
            all_digits(digits.subrange(0, i - first)),
            value == digits_value(digits.subrange(0, i - first)),
            value <= max,
        decreases end - i,
    {
        let b: u8 = bytes[i];
        if b < 48u8 || b > 57u8 {
            assert(digits[i - first] == b);
            return None;
        }
        let next: u128 = value as u128 * 10 + (b - 48u8) as u128;
        proof {
            let longer = digits.subrange(0, i - first + 1);
            assert(longer.drop_last() =~= digits.subrange(0, i - first));
            assert(longer.last() == b);
            assert(all_digits(longer)) by {
                assert forall|j: int| 0 <= j < longer.len() implies 48 <= #[trigger] longer[j]
                    <= 57 by {
                    if j < i - first {
                        assert(longer[j] == digits.subrange(0, i - first)[j]);
                    }
                }
            }
            assert(next == digits_value(longer));
            if all_digits(digits) {
                lemma_digits_value_prefix(digits, i - first + 1);
            }
        }
        if next > max as u128 {
            return None;
        }
        value = next as u64;
        i = i + 1;
    }
    assert(digits.subrange(0, i - first) =~= digits);
    Some(value)
}

/// The decimal digits of `n` in ASCII, most significant digit first and
/// without leading zeros.
pub open spec fn decimal(n: nat) -> Seq<u8>
    decreases n,
{
    if n < 10 {
        seq![(48 + n) as u8]
    } else {
        decimal(n / 10).push((48 + n % 10) as u8)
    }
}

/// Appends the decimal digits of `n` to `out`.
pub fn push_decimal(out: &mut Vec<u8>, n: u32)
    ensures
        final(out)@ == old(out)@ + decimal(n as nat),
{
    let mut reversed: Vec<u8> = Vec::new();
    let mut rest: u32 = n / 10;
    reversed.push(48u8 + (n % 10) as u8);
    let ghost mut tail: Seq<u8> = seq![(48 + n % 10) as u8];
    assert(decimal(n as nat) =~= (if rest > 0 {
        decimal(rest as nat)
    } else {
        Seq::<u8>::empty()
    }) + tail);
    while rest > 0
        invariant
            decimal(n as nat) == (if rest > 0 {
                decimal(rest as nat)
            } else {
                Seq::<u8>::empty()
            }) + tail,
            reversed@.len() == tail.len(),
            reversed@.len() >= 1,
            forall|i: int| 0 <= i < tail.len() ==> reversed@[i] == tail[tail.len() - 1 - i],
        decreases rest,
    {
        let digit: u8 = 48u8 + (rest % 10) as u8;
        let ghost prev = rest;
        let ghost prev_tail = tail;
        rest = rest / 10;
        reversed.push(digit);
        proof {
            tail = seq![digit] + prev_tail;
            assert(decimal(prev as nat) =~= (if rest > 0 {
                decimal(rest as nat)
            } else {
                Seq::<u8>::empty()
            }) + seq![digit]);
            assert(decimal(n as nat) =~= (if rest > 0 {
                decimal(rest as nat)
            } else {
                Seq::<u8>::empty()
            }) + tail);
        }
    }
    let ghost base = out@;
    let mut i: usize = reversed.len();
    while i > 0
        invariant
            0 <= i <= reversed@.len(),
            reversed@.len() == tail.len(),
            forall|j: int| 0 <= j < tail.len() ==> reversed@[j] == tail[tail.len() - 1 - j],
            out@ == base + tail.subrange(0, tail.len() - i),
        decreases i,
    {
        i = i - 1;
        out.push(reversed[i]);
        assert(out@ =~= base + tail.subrange(0, tail.len() - i));
    }
    assert(tail.subrange(0, tail.len() as int) =~= tail);
}

/// Ten to the power `k`.
pub open spec fn pow10(k: nat) -> nat
    decreases k,
{
    if k == 0 {
        1
    } else {
        10 * pow10((k - 1) as nat)
    }
}

/// A number below `10^k` has at most `k` digits.
pub proof fn lemma_decimal_len(n: nat, k: nat)
    requires
        k >= 1,
        n < pow10(k),
    ensures
        decimal(n).len() <= k,
    decreases n,
{
    reveal_with_fuel(pow10, 2);
    if n >= 10 {
        if k > 1 {
            lemma_decimal_len(n / 10, (k - 1) as nat);
        }
    }
}

/// Writing a number in decimal and reading the digits back gives the number.
pub proof fn lemma_decimal_reads_back(n: nat)
    ensures
        decimal(n).len() >= 1,
        all_digits(decimal(n)),
        digits_value(decimal(n)) == n,
        forall|max: nat| n <= max ==> #[trigger] bounded_number(decimal(n), max) == Some(n),
        n <= u32::MAX ==> decimal(n).len() <= 10,
    decreases n,
{
    if n < 10 {
        let d = decimal(n);
        assert(d.drop_last() =~= Seq::<u8>::empty());
        assert(digits_value(d.drop_last()) == 0);
        assert(d.last() == 48 + n);
    } else {
        lemma_decimal_reads_back(n / 10);
        let d = decimal(n);
        assert(d.drop_last() =~= decimal(n / 10));
        assert(d.last() == 48 + n % 10);
        assert forall|i: int| 0 <= i < d.len() implies 48 <= #[trigger] d[i] <= 57 by {
            if i < d.len() - 1 {
                assert(d[i] == decimal(n / 10)[i]);
            }
        }
    }
    assert(decimal(n)[0] != 43);
    if n <= u32::MAX {
        assert(pow10(10) == 10_000_000_000nat) by {
            reveal_with_fuel(pow10, 11);
        }
        lemma_decimal_len(n, 10);
    }
}

} // verus!
