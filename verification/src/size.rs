//! Chunk sizes written as text: a decimal count with an optional unit letter.

use vstd::prelude::*;
use vstd::string::*;

verus! {

/// Whether `c` is white space as Unicode defines it (`White_Space`).
pub open spec fn is_space(c: char) -> bool {
    let n = c as u32;
    ||| 0x09 <= n <= 0x0D
    ||| n == 0x20
    ||| n == 0x85
    ||| n == 0xA0
    ||| n == 0x1680
    ||| 0x2000 <= n <= 0x200A
    ||| n == 0x2028
    ||| n == 0x2029
    ||| n == 0x202F
    ||| n == 0x205F
    ||| n == 0x3000
}

/// `s` without its leading white space.
pub open spec fn skip_spaces(s: Seq<char>) -> Seq<char>
    decreases s.len(),
{
    if s.len() > 0 && is_space(s.first()) {
        skip_spaces(s.drop_first())
    } else {
        s
    }
}

/// `s` without its trailing white space.
pub open spec fn drop_trailing_spaces(s: Seq<char>) -> Seq<char>
    decreases s.len(),
{
    if s.len() > 0 && is_space(s.last()) {
        drop_trailing_spaces(s.drop_last())
    } else {
        s
    }
}

/// `s` without white space at either end.
pub open spec fn trimmed(s: Seq<char>) -> Seq<char> {
    drop_trailing_spaces(skip_spaces(s))
}

/// Whether `c` is one of the ten ASCII digits.
pub open spec fn is_digit(c: char) -> bool {
    '0' <= c <= '9'
}

/// The value of the ASCII digit `c`.
pub open spec fn digit_value(c: char) -> nat
    recommends
        is_digit(c),
{
    (c as u32 - '0' as u32) as nat
}

/// How many digits `s` starts with.
pub open spec fn leading_digits(s: Seq<char>) -> nat
    decreases s.len(),
{
    if s.len() > 0 && is_digit(s.first()) {
        1 + leading_digits(s.drop_first())
    } else {
        0
    }
}

/// The number that the digits `s` write in base ten; 0 for no digits.
pub open spec fn decimal_value(s: Seq<char>) -> nat
    decreases s.len(),
{
    if s.len() == 0 {
        0
    } else {
        decimal_value(s.drop_last()) * 10 + digit_value(s.last())
    }
}

/// The count that `t` starts with: the value of its leading digits.
pub open spec fn base_count(t: Seq<char>) -> nat {
    decimal_value(t.take(leading_digits(t) as int))
}

/// The factor that a final character stands for. The unit letters count in
/// either case; the Kelvin sign is a capital form of `k`.
pub open spec fn unit_factor(c: char) -> nat {
    if c == 'k' || c == 'K' || c == '\u{212A}' {
        1024
    } else if c == 'm' || c == 'M' {
        1024 * 1024
    } else if c == 'g' || c == 'G' {
        1024 * 1024 * 1024
    } else {
        1
    }
}

/// The factor that the end of `t` asks for; 1 where `t` is empty.
pub open spec fn multiplier(t: Seq<char>) -> nat {
    if t.len() == 0 {
        1
    } else {
        unit_factor(t.last())
    }
}

/// The byte count that the text `s` writes: the leading count of the trimmed
/// text times the factor of its last character, or 0 where that does not fit
/// in 64 bits. 0 also stands for a text that starts with no digit.
pub open spec fn chunk_size_of(s: Seq<char>) -> nat {
    let t = trimmed(s);
    let v = base_count(t) * multiplier(t);
    if v <= u64::MAX {
        v
    } else {
        0
    }
}

/// Tells whether `c` is white space.
pub fn char_is_space(c: char) -> (r: bool)
    ensures
        r == is_space(c),
{
    let n: u32 = c as u32;
    (0x09 <= n && n <= 0x0D) || n == 0x20 || n == 0x85 || n == 0xA0 || n == 0x1680 || (0x2000 <= n
        && n <= 0x200A) || n == 0x2028 || n == 0x2029 || n == 0x202F || n == 0x205F || n == 0x3000
}

/// The factor that the unit letter `c` stands for.
pub fn unit_factor_of(c: char) -> (f: u64)
    ensures
        f as nat == unit_factor(c),
{
    if c == 'k' || c == 'K' || c == '\u{212A}' {
        1024
    } else if c == 'm' || c == 'M' {
        1024 * 1024
    } else if c == 'g' || c == 'G' {
        1024 * 1024 * 1024
    } else {
        1
    }
}

/// A text whose first `k` characters are digits, and which ends there or goes
/// on with something else, has exactly `k` leading digits.
pub proof fn lemma_leading_digits(s: Seq<char>, k: int)
    requires
        0 <= k <= s.len(),
        forall|j: int| 0 <= j < k ==> is_digit(#[trigger] s[j]),
        k == s.len() || !is_digit(s[k]),
    ensures
        leading_digits(s) == k,
    decreases k,
{
    if k > 0 {
        let rest = s.drop_first();
        assert forall|j: int| 0 <= j < k - 1 implies is_digit(#[trigger] rest[j]) by {
            assert(rest[j] == s[j + 1]);
        }
        lemma_leading_digits(rest, k - 1);
    }
}

/// A beginning of a text writes no larger a number than the whole text.
pub proof fn lemma_decimal_value_grows(s: Seq<char>, k: int)
    requires
        0 <= k <= s.len(),
    ensures
        decimal_value(s.take(k)) <= decimal_value(s),
    decreases s.len(),
{
    if k == s.len() {
        assert(s.take(k) =~= s);
    } else {
        lemma_decimal_value_grows(s.drop_last(), k);
        assert(s.drop_last().take(k) =~= s.take(k));
    }
}

/// Reads a chunk size: white space at both ends is ignored, the leading
/// digits give a count, and a final `b`, `k`, `m` or `g` (in either case)
/// scales it by 1, 1024, 1024² or 1024³. Any other ending leaves the count as
/// it is. The result is 0, which no caller may take for a size, where the
/// text starts with no digit or the size does not fit in 64 bits.
pub fn get_chunk_size(size_str: &str) -> (size: u64)
    ensures
        size as nat == chunk_size_of(size_str@),
{
    let n = size_str.unicode_len();
    let mut a: usize = 0;
    assert(size_str@.subrange(0, n as int) =~= size_str@);
    while a < n && char_is_space(size_str.get_char(a))
        invariant
            a <= n,
            n == size_str@.len(),
            skip_spaces(size_str@) == skip_spaces(size_str@.subrange(a as int, n as int)),
        decreases n - a,
    {
        proof {
            let cur = size_str@.subrange(a as int, n as int);
            assert(cur.drop_first() =~= size_str@.subrange(a + 1, n as int));
        }
        a += 1;
    }
    let mut b: usize = n;
    while b > a && char_is_space(size_str.get_char(b - 1))
        invariant
            a <= b <= n,
            n == size_str@.len(),
            trimmed(size_str@) == drop_trailing_spaces(size_str@.subrange(a as int, b as int)),
        decreases b,
    {
        proof {
            let cur = size_str@.subrange(a as int, b as int);
            assert(cur.drop_last() =~= size_str@.subrange(a as int, b - 1));
        }
        b -= 1;
    }
    let ghost t = size_str@.subrange(a as int, b as int);
    assert(trimmed(size_str@) == t);
    let mut e: usize = a;
    while e < b && char_is_digit(size_str.get_char(e))
        invariant
            a <= e <= b <= n,
            n == size_str@.len(),
            t == size_str@.subrange(a as int, b as int),
            forall|j: int| 0 <= j < e - a ==> is_digit(#[trigger] t[j]),
        decreases b - e,
    {
        e += 1;
    }
    proof {
        lemma_leading_digits(t, e - a);
    }
    let ghost digits = t.take(e - a);
    let mut count: u64 = 0;
    let mut i: usize = a;
    while i < e
        invariant
            a <= i <= e <= b <= n,
            n == size_str@.len(),
            t == size_str@.subrange(a as int, b as int),
            digits == t.take(e - a),
            trimmed(size_str@) == t,
            leading_digits(t) == e - a,
            forall|j: int| 0 <= j < e - a ==> is_digit(#[trigger] t[j]),
            count as nat == decimal_value(digits.take(i - a)),
        decreases e - i,
    {
        let c = size_str.get_char(i);
        assert(is_digit(t[i - a]) && t[i - a] == c);
        let d: u64 = (c as u32 - '0' as u32) as u64;
        proof {
            let upto = digits.take(i - a + 1);
            assert(upto.drop_last() =~= digits.take(i - a));
            assert(upto.last() == c);
            assert(decimal_value(upto) == count * 10 + d);
            lemma_decimal_value_grows(digits, i - a + 1);
        }
        let next = match count.checked_mul(10) {
            Some(tens) => tens.checked_add(d),
            None => None,
        };
        match next {
            Some(v) => {
                count = v;
            },
            None => {
                assert(base_count(t) > u64::MAX);
                assert(base_count(t) * multiplier(t) >= base_count(t)) by (nonlinear_arith)
                    requires
                        multiplier(t) >= 1,
                ;
                return 0;
            },
        }
        i += 1;
    }
    assert(digits.take(e - a) =~= digits);
    let factor: u64 = if b > a {
        unit_factor_of(size_str.get_char(b - 1))
    } else {
        1
    };
    assert(factor as nat == multiplier(t));
    match count.checked_mul(factor) {
        Some(v) => v,
        None => 0,
    }
}

/// Tells whether `c` is an ASCII digit.
pub fn char_is_digit(c: char) -> (r: bool)
    ensures
        r == is_digit(c),
{
    '0' <= c && c <= '9'
}

} // verus!
