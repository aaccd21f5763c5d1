//! The names of part files: the path of the whole file, `.part`, the part's number in
//! at least four digits, and `.split`.

use crate::text::{
    lemma_lex_less_asymmetric, lemma_lex_less_common_prefix, lemma_lex_less_first_difference,
    lex_less, lex_sorted,
};
use vstd::prelude::*;
use vstd::string::*;

verus! {

/// The largest number of parts whose names sort in the order of the parts.
pub const MAX_ORDERED_PARTS: u64 = 9999;

/// The character that writes the digit `d`.
pub open spec fn digit_char(d: nat) -> char
    recommends
        d < 10,
{
    ('0' as u32 + d) as char
}

/// `n` in base ten, without leading zeros.
pub open spec fn decimal_digits(n: nat) -> Seq<char>
    decreases n,
{
    if n < 10 {
        seq![digit_char(n)]
    } else {
        decimal_digits(n / 10).push(digit_char(n % 10))
    }
}

/// `n` in base ten, with zeros in front where it has fewer than `width`
/// digits.
pub open spec fn zero_padded(n: nat, width: nat) -> Seq<char> {
    let digits = decimal_digits(n);
    if digits.len() >= width {
        digits
    } else {
        Seq::new((width - digits.len()) as nat, |i: int| '0') + digits
    }
}

/// The name of part number `index` of the file at `path`.
pub open spec fn part_name(path: Seq<char>, index: nat) -> Seq<char> {
    path + ".part"@ + zero_padded(index, 4) + ".split"@
}

/// The one-character text for the digit `d`.
fn digit_str(d: u64) -> (s: &'static str)
    requires
        d < 10,
    ensures
        s@ == seq![digit_char(d as nat)],
{
    proof {
        reveal_strlit("0");
        reveal_strlit("1");
        reveal_strlit("2");
        reveal_strlit("3");
        reveal_strlit("4");
        reveal_strlit("5");
        reveal_strlit("6");
        reveal_strlit("7");
        reveal_strlit("8");
        reveal_strlit("9");
    }
    let s = if d == 0 {
        "0"
    } else if d == 1 {
        "1"
    } else if d == 2 {
        "2"
    } else if d == 3 {
        "3"
    } else if d == 4 {
        "4"
    } else if d == 5 {
        "5"
    } else if d == 6 {
        "6"
    } else if d == 7 {
        "7"
    } else if d == 8 {
        "8"
    } else {
        "9"
    };
    assert(s@ =~= seq![digit_char(d as nat)]);
    s
}

/// Writes `n` in base ten at the end of `out`.
fn append_decimal(out: &mut String, n: u64)
    ensures
        final(out)@ == old(out)@ + decimal_digits(n as nat),
    decreases n,
{
    if n >= 10 {
        append_decimal(out, n / 10);
    }
    out.append(digit_str(n % 10));
    assert(out@ =~= old(out)@ + decimal_digits(n as nat));
}

/// How many digits numbers below ten thousand have, and that larger ones
/// have more than four.
pub proof fn lemma_decimal_digits_len(n: nat)
    ensures
        n < 10 ==> decimal_digits(n).len() == 1,
        10 <= n < 100 ==> decimal_digits(n).len() == 2,
        100 <= n < 1000 ==> decimal_digits(n).len() == 3,
        1000 <= n < 10000 ==> decimal_digits(n).len() == 4,
        10000 <= n ==> decimal_digits(n).len() > 4,
    decreases n,
{
    if n >= 10 {
        lemma_decimal_digits_len(n / 10);
    }
}

/// How many zeros stand in front of `n` to fill four digits.
fn padding_zeros(n: u64) -> (zeros: usize)
    ensures
        zeros == zero_padded(n as nat, 4).len() - decimal_digits(n as nat).len(),
        zeros <= 3,
{
    proof {
        lemma_decimal_digits_len(n as nat);
    }
    if n < 10 {
        3
    } else if n < 100 {
        2
    } else if n < 1000 {
        1
    } else {
        0
    }
}

/// Builds the name of part number `index` of the file at `file_path`: the
/// path, `.part`, the number in base ten with zeros in front up to four
/// digits, and `.split`.
pub fn part_file_name(file_path: &str, index: u64) -> (name: String)
    ensures
        name@ == part_name(file_path@, index as nat),
{
    let mut name = String::from_str(file_path);
    name.append(".part");
    let zeros = padding_zeros(index);
    let ghost head = name@;
    let mut written: usize = 0;
    while written < zeros
        invariant
            written <= zeros,
            name@ == head + Seq::new(written as nat, |i: int| '0'),
        decreases zeros - written,
    {
        proof {
            reveal_strlit("0");
        }
        name.append("0");
        written += 1;
        assert(name@ =~= head + Seq::new(written as nat, |i: int| '0'));
    }
    append_decimal(&mut name, index);
    name.append(".split");
    assert(name@ =~= part_name(file_path@, index as nat));
    name
}

/// The `k`-th of the four digits of `n`, counted from the thousands.
pub open spec fn digit_at(n: nat, k: int) -> nat {
    if k == 0 {
        n / 10 / 10 / 10
    } else if k == 1 {
        n / 10 / 10 % 10
    } else if k == 2 {
        n / 10 % 10
    } else {
        n % 10
    }
}

/// A number below ten thousand is written with exactly four digits: its
/// thousands, hundreds, tens and ones.
pub proof fn lemma_four_digits(n: nat)
    requires
        n <= MAX_ORDERED_PARTS,
    ensures
        zero_padded(n, 4) == Seq::new(4, |k: int| digit_char(digit_at(n, k))),
{
    reveal_with_fuel(decimal_digits, 4);
    lemma_decimal_digits_len(n);
    assert(zero_padded(n, 4) =~= Seq::new(4, |k: int| digit_char(digit_at(n, k))));
}

/// The place of the first digit in which two numbers below ten thousand
/// differ, counted from the thousands.
pub open spec fn first_differing_digit(i: nat, j: nat) -> int {
    if digit_at(i, 0) != digit_at(j, 0) {
        0
    } else if digit_at(i, 1) != digit_at(j, 1) {
        1
    } else if digit_at(i, 2) != digit_at(j, 2) {
        2
    } else {
        3
    }
}

/// Of two numbers below ten thousand the smaller has the smaller digit where
/// they first differ, and the same digits before.
proof fn lemma_first_differing_digit(i: nat, j: nat)
    requires
        i < j <= MAX_ORDERED_PARTS,
    ensures
        digit_at(i, first_differing_digit(i, j)) < digit_at(j, first_differing_digit(i, j)) < 10,
        forall|k: int| 0 <= k < first_differing_digit(i, j) ==> digit_at(i, k) == digit_at(j, k),
{
    let (i1, j1) = (i / 10, j / 10);
    let (i2, j2) = (i1 / 10, j1 / 10);
    let (i3, j3) = (i2 / 10, j2 / 10);
    assert(i == 10 * i1 + i % 10 && j == 10 * j1 + j % 10);
    assert(i1 == 10 * i2 + i1 % 10 && j1 == 10 * j2 + j1 % 10);
    assert(i2 == 10 * i3 + i2 % 10 && j2 == 10 * j3 + j2 % 10);
    assert(i1 <= j1 && i2 <= j2 && i3 <= j3 < 10);
}

/// Up to part 9999 the names of a file's parts sort in the order of the
/// parts: an earlier part's name comes strictly before a later part's.
pub proof fn lemma_part_names_ordered(path: Seq<char>, i: nat, j: nat)
    requires
        i < j <= MAX_ORDERED_PARTS,
    ensures
        lex_less(part_name(path, i), part_name(path, j)),
{
    let head = path + ".part"@;
    let da = zero_padded(i, 4);
    let db = zero_padded(j, 4);
    let a = da + ".split"@;
    let b = db + ".split"@;
    let k = first_differing_digit(i, j);
    lemma_four_digits(i);
    lemma_four_digits(j);
    lemma_first_differing_digit(i, j);
    assert forall|m: int| 0 <= m < 4 implies a[m] == digit_char(digit_at(i, m)) && b[m]
        == digit_char(digit_at(j, m)) by {
        assert(a[m] == da[m] && b[m] == db[m]);
    }
    assert(forall|m: int| 0 <= m < k ==> a[m] == b[m]);
    assert(a[k] < b[k]);
    lemma_lex_less_first_difference(a, b, k);
    lemma_lex_less_common_prefix(head, a, b);
    assert(part_name(path, i) =~= head + a);
    assert(part_name(path, j) =~= head + b);
}

/// The names of the first `count` parts of the file at `path`, in the order
/// of the parts. Parts are numbered from 1.
pub open spec fn part_names(path: Seq<char>, count: nat) -> Seq<Seq<char>> {
    Seq::new(count, |i: int| part_name(path, (i + 1) as nat))
}

/// Up to 9999 parts the list of the parts' names is sorted.
pub proof fn lemma_part_names_sorted(path: Seq<char>, count: nat)
    requires
        count <= MAX_ORDERED_PARTS,
    ensures
        lex_sorted(part_names(path, count)),
{
    let names = part_names(path, count);
    assert forall|i: int, j: int| 0 <= i < j < names.len() implies !lex_less(
        #[trigger] names[j],
        #[trigger] names[i],
    ) by {
        lemma_part_names_ordered(path, (i + 1) as nat, (j + 1) as nat);
        lemma_lex_less_asymmetric(names[i], names[j]);
    }
}

/// The name of every part begins with the path of the file it belongs to.
pub proof fn lemma_part_name_begins_with_path(path: Seq<char>, index: nat)
    ensures
        path.is_prefix_of(part_name(path, index)),
{
}

} // verus!
