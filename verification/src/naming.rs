//! Names: the directory of a run, and the zero-padded decimal names of its
//! files.

use vstd::prelude::*;
use vstd::string::StringExecFns;
use crate::partition::Partition;
use crate::partition::decimal_width;
use crate::partition::file_count;
use crate::partition::filename_width;

verus! {

/// The character of the decimal digit `v`, for `0 <= v < 10`.
pub open spec fn digit_char(v: int) -> char {
    if v == 0 {
        '0'
    } else if v == 1 {
        '1'
    } else if v == 2 {
        '2'
    } else if v == 3 {
        '3'
    } else if v == 4 {
        '4'
    } else if v == 5 {
        '5'
    } else if v == 6 {
        '6'
    } else if v == 7 {
        '7'
    } else if v == 8 {
        '8'
    } else {
        '9'
    }
}

/// The decimal notation of `n`, without padding.
pub open spec fn decimal(n: nat) -> Seq<char>
    decreases n,
{
    if n < 10 {
        seq![digit_char(n as int)]
    } else {
        decimal(n / 10).push(digit_char((n % 10) as int))
    }
}

/// The decimal notation of `n`, with zeros in front up to `width`
/// characters; a number with more digits than that is not cut.
pub open spec fn zero_padded(n: nat, width: nat) -> Seq<char> {
    let digits = decimal(n);
    if digits.len() >= width {
        digits
    } else {
        Seq::new((width - digits.len()) as nat, |k: int| '0') + digits
    }
}

/// The name of the directory for the files of `d` digits.
pub open spec fn directory_name(d: nat) -> Seq<char> {
    "combinations/"@ + decimal(d) + "_digits"@
}

/// The digit that a character stands for.
pub open spec fn char_value(c: char) -> int {
    if c == '0' {
        0
    } else if c == '1' {
        1
    } else if c == '2' {
        2
    } else if c == '3' {
        3
    } else if c == '4' {
        4
    } else if c == '5' {
        5
    } else if c == '6' {
        6
    } else if c == '7' {
        7
    } else if c == '8' {
        8
    } else {
        9
    }
}

/// The number that a sequence of decimal digits denotes.
pub open spec fn decimal_value(s: Seq<char>) -> nat
    decreases s.len(),
{
    if s.len() == 0 {
        0
    } else {
        decimal_value(s.drop_last()) * 10 + char_value(s.last()) as nat
    }
}

/// The decimal notation of a number has as many characters as the number
/// has decimal digits, and denotes the number.
pub proof fn lemma_decimal(n: nat)
    ensures
        decimal(n).len() == decimal_width(n),
        decimal_value(decimal(n)) == n,
    decreases n,
{
    if n >= 10 {
        lemma_decimal(n / 10);
        assert(decimal(n).drop_last() =~= decimal(n / 10));
    } else {
        assert(decimal(n).drop_last() =~= Seq::<char>::empty());
        assert(decimal_value(decimal(n).drop_last()) == 0);
    }
}

/// A smaller number has no more decimal digits.
pub proof fn lemma_decimal_width_grows(m: nat, n: nat)
    requires
        m <= n,
    ensures
        decimal_width(m) <= decimal_width(n),
    decreases n,
{
    if m >= 10 {
        lemma_decimal_width_grows(m / 10, n / 10);
    }
}

/// Zeros in front change nothing of what a sequence of digits denotes.
proof fn lemma_leading_zeros(count: nat, digits: Seq<char>)
    ensures
        decimal_value(Seq::new(count, |k: int| '0') + digits) == decimal_value(digits),
    decreases digits.len(), count,
{
    let zeros = Seq::new(count, |k: int| '0');
    if digits.len() > 0 {
        lemma_leading_zeros(count, digits.drop_last());
        assert((zeros + digits).drop_last() =~= zeros + digits.drop_last());
    } else if count > 0 {
        lemma_leading_zeros((count - 1) as nat, digits);
        assert((zeros + digits).drop_last() =~= Seq::new((count - 1) as nat, |k: int| '0')
            + digits);
    } else {
        assert(zeros + digits =~= Seq::<char>::empty());
    }
}

/// A padded name denotes its number; it has the width asked for where the
/// number has no more digits than that.
pub proof fn lemma_zero_padded(n: nat, width: nat)
    ensures
        decimal_value(zero_padded(n, width)) == n,
        decimal_width(n) <= width ==> zero_padded(n, width).len() == width,
{
    lemma_decimal(n);
    if decimal(n).len() < width {
        lemma_leading_zeros((width - decimal(n).len()) as nat, decimal(n));
    }
}

/// Two numbers have two names, whatever the width.
pub proof fn lemma_names_distinct(m: nat, n: nat, width: nat)
    requires
        m != n,
    ensures
        zero_padded(m, width) != zero_padded(n, width),
{
    lemma_zero_padded(m, width);
    lemma_zero_padded(n, width);
}

/// The names of the files of a partition all have the width of the name of
/// the last file.
pub proof fn lemma_file_name_width(index: nat, count: int)
    requires
        index < count,
    ensures
        zero_padded(index, filename_width(count)).len() == filename_width(count),
{
    lemma_decimal_width_grows(index, (count - 1) as nat);
    lemma_zero_padded(index, filename_width(count));
}

/// The one-character string of a decimal digit.
fn digit_str(v: u64) -> (s: &'static str)
    requires
        v < 10,
    ensures
        s@ == seq![digit_char(v as int)],
{
    proof {
        reveal_strlit("0");
        reveal_strlit("1");
        reveal_strlit("2");
        reveal_strlit("3");
        reveal_strlit("4");
        reveal_strlit("5");
        reveal_strlit("6");
        reveal_strlit("7");
        reveal_strlit("8");
        reveal_strlit("9");
    }
    let s: &'static str = if v == 0 {
        "0"
    } else if v == 1 {
        "1"
    } else if v == 2 {
        "2"
    } else if v == 3 {
        "3"
    } else if v == 4 {
        "4"
    } else if v == 5 {
        "5"
    } else if v == 6 {
        "6"
    } else if v == 7 {
        "7"
    } else if v == 8 {
        "8"
    } else {
        "9"
    };
    assert(s@ =~= seq![digit_char(v as int)]);
    s
}

/// Appends the decimal notation of `n` to `text`.
fn push_decimal(text: &mut String, n: u64)
    ensures
        final(text)@ == old(text)@ + decimal(n as nat),
    decreases n,
{
    if n >= 10 {
        push_decimal(text, n / 10);
    }
    text.append(digit_str(n % 10));
    assert(text@ =~= old(text)@ + decimal(n as nat));
}

/// The number of decimal digits of `n`.
fn decimal_len(n: usize) -> (len: usize)
    ensures
        len == decimal(n as nat).len(),
{
    let mut len: usize = 1;
    let mut rest: usize = n;
    while rest >= 10
        invariant
            1 <= len,
            decimal(n as nat).len() == decimal(rest as nat).len() + len - 1,
            9 * (len - 1) + rest <= n,
        decreases rest,
    {
        rest = rest / 10;
        len = len + 1;
    }
    len
}

/// The decimal notation of `index`, with zeros in front up to `width`
/// characters.
pub fn zero_padded_name(index: usize, width: usize) -> (name: String)
    ensures
        name@ == zero_padded(index as nat, width as nat),
{
    let mut name: String = String::new();
    let len: usize = decimal_len(index);
    let mut k: usize = len;
    while k < width
        invariant
            k >= len,
            k == len || k <= width,
            name@ == Seq::new((k - len) as nat, |i: int| '0'),
        decreases width - k,
    {
        proof {
            reveal_strlit("0");
        }
        name.append("0");
        k = k + 1;
        assert(name@ =~= Seq::new((k - len) as nat, |i: int| '0'));
    }
    let ghost zeros = name@;
    push_decimal(&mut name, index as u64);
    assert(name@ == zeros + decimal(index as nat));
    assert(name@ =~= zero_padded(index as nat, width as nat));
    name
}

/// The name of the directory for the files of `digit_count` digits.
pub fn output_directory(digit_count: u32) -> (name: String)
    ensures
        name@ == directory_name(digit_count as nat),
{
    let mut name: String = String::from_str("combinations/");
    push_decimal(&mut name, digit_count as u64);
    name.append("_digits");
    name
}

impl Partition {
    /// The name of the file with the given index: the index in decimal, with
    /// zeros in front up to the width of the partition's file names.
    pub fn file_name(&self, index: usize) -> (name: String)
        ensures
            name@ == zero_padded(
                index as nat,
                filename_width(file_count(self.digits(), self.budget())),
            ),
            index < file_count(self.digits(), self.budget()) ==> name@.len() == filename_width(
                file_count(self.digits(), self.budget()),
            ),
    {
        proof {
            if index < file_count(self.digits(), self.budget()) {
                lemma_file_name_width(index as nat, file_count(self.digits(), self.budget()));
            }
        }
        zero_padded_name(index, self.filename_width())
    }
}

} // verus!
