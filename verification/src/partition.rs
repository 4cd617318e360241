//! Splitting the token space of a digit count into consecutive sub-ranges,
//! one for each output file.
//!
//! The token space of `d` digits is the integers from `64^(d-1)` (from zero
//! for one digit) up to, not including, `64^d`: the integers whose token has
//! exactly `d` symbols. A budget of bytes for each file gives the number of
//! tokens in a file, each token taking one more byte for its separator.

use vstd::prelude::*;
use vstd::arithmetic::power::pow;
use vstd::arithmetic::power::lemma_pow0;
use vstd::arithmetic::power::lemma_pow1;
use vstd::arithmetic::power::lemma_pow_adds;
use vstd::arithmetic::power::lemma_pow_positive;
use vstd::arithmetic::power::lemma_pow_increases;
use vstd::arithmetic::div_mod::lemma_fundamental_div_mod;
use vstd::arithmetic::div_mod::lemma_mod_bound;
use vstd::arithmetic::div_mod::lemma_fundamental_div_mod_converse;
use vstd::arithmetic::mul::lemma_mul_inequality;
use vstd::arithmetic::mul::lemma_mul_is_distributive_add_other_way;
use vstd::arithmetic::mul::lemma_mul_is_commutative;

verus! {

/// The largest digit count whose token space fits in `i64`.
pub const MAX_DIGIT_COUNT: u32 = 10;

/// The digit count of a run for which no other is configured.
pub const DEFAULT_DIGIT_COUNT: u32 = 5;

/// The largest number of files that a partition may have.
pub const MAX_FILE_COUNT: usize = 999;

/// The budget of a file where none is asked for: 140 MB.
pub const DEFAULT_BYTES_PER_FILE: i64 = 140_000_000;

/// Why a digit count and a budget give no partition.
#[derive(Debug, Clone, Copy, PartialEq, Eq, Structural)]
pub enum PartitionError {
    /// The digit count is zero.
    NoDigits,
    /// The digit count is above `MAX_DIGIT_COUNT`.
    SpaceTooLarge,
    /// The budget does not hold a single token with its separator.
    BudgetTooSmall,
    /// More than `MAX_FILE_COUNT` files would be needed.
    TooManyFiles,
}

impl PartitionError {
    /// What went wrong, in words.
    pub fn message(&self) -> (text: &'static str)
        ensures
            text@ == match self {
                PartitionError::NoDigits => "Attempting to generate tokens of no digits."@,
                PartitionError::SpaceTooLarge =>
                    "Attempting to enumerate more tokens than can be counted."@,
                PartitionError::BudgetTooSmall =>
                    "Attempting to create files that do not hold a single token."@,
                PartitionError::TooManyFiles =>
                    "Attempting to create 1000 files or more. Probably not intended."@,
            },
    {
        match self {
            PartitionError::NoDigits => "Attempting to generate tokens of no digits.",
            PartitionError::SpaceTooLarge => {
                "Attempting to enumerate more tokens than can be counted."
            },
            PartitionError::BudgetTooSmall => {
                "Attempting to create files that do not hold a single token."
            },
            PartitionError::TooManyFiles => {
                "Attempting to create 1000 files or more. Probably not intended."
            },
        }
    }
}

/// A half-open interval `[start, end)` of integers.
#[derive(Debug, Clone, Copy, PartialEq, Eq, Structural)]
pub struct SubRange {
    pub start: i64,
    pub end: i64,
}

/// One past the largest integer with `d` digits: `64^d`.
pub open spec fn space_end(d: nat) -> int {
    pow(64, d)
}

/// The smallest integer with `d` digits: `64^(d-1)`, or zero for one digit.
pub open spec fn lower_bound(d: nat) -> int {
    if d > 1 {
        pow(64, (d - 1) as nat)
    } else {
        0
    }
}

/// The number of tokens in a full file: the budget divided by the bytes of a
/// token with its separator.
pub open spec fn group_size(d: nat, bytes_per_file: int) -> int {
    bytes_per_file / (d + 1) as int
}

/// The number of files: the size of the token space divided by the group
/// size, rounded up. Where the groups fill their files exactly, no empty file
/// follows the last of them.
pub open spec fn file_count(d: nat, bytes_per_file: int) -> int {
    let span = space_end(d) - lower_bound(d);
    let group = group_size(d, bytes_per_file);
    (span + group - 1) / group
}

/// The first integer of the sub-range with index `i`.
pub open spec fn sub_range_start(d: nat, bytes_per_file: int, i: int) -> int {
    i * group_size(d, bytes_per_file) + lower_bound(d)
}

/// One past the last integer of the sub-range with index `i`: a group further
/// on, but not beyond the end of the token space.
pub open spec fn sub_range_end(d: nat, bytes_per_file: int, i: int) -> int {
    let full = (i + 1) * group_size(d, bytes_per_file) + lower_bound(d);
    if full < space_end(d) {
        full
    } else {
        space_end(d)
    }
}

/// The index of the sub-range in which an integer `x` of the token space
/// lies.
pub open spec fn sub_range_index(d: nat, bytes_per_file: int, x: int) -> int {
    (x - lower_bound(d)) / group_size(d, bytes_per_file)
}

/// Whether `x` lies in the sub-range with index `i`.
pub open spec fn in_sub_range(d: nat, bytes_per_file: int, i: int, x: int) -> bool {
    sub_range_start(d, bytes_per_file, i) <= x < sub_range_end(d, bytes_per_file, i)
}

/// The number of decimal digits of `n`.
pub open spec fn decimal_width(n: nat) -> nat
    decreases n,
{
    if n < 10 {
        1
    } else {
        1 + decimal_width(n / 10)
    }
}

/// The width of the file names of `count` files: the decimal digits of the
/// largest index.
pub open spec fn filename_width(count: int) -> nat {
    decimal_width((count - 1) as nat)
}

/// The error, if any, with which a digit count and a budget are refused. The
/// first that applies is reported.
pub open spec fn rejection(d: nat, bytes_per_file: int) -> Option<PartitionError> {
    if d == 0 {
        Some(PartitionError::NoDigits)
    } else if d > MAX_DIGIT_COUNT {
        Some(PartitionError::SpaceTooLarge)
    } else if bytes_per_file < d + 1 {
        Some(PartitionError::BudgetTooSmall)
    } else if file_count(d, bytes_per_file) > MAX_FILE_COUNT {
        Some(PartitionError::TooManyFiles)
    } else {
        None
    }
}

/// Each power of 64 is 64 times the one before, and none is below one.
pub proof fn lemma_pow64_step(d: nat)
    ensures
        pow(64, d + 1) == 64 * pow(64, d),
        pow(64, d) >= 1,
{
    lemma_pow1(64);
    lemma_pow_adds(64, d, 1);
    lemma_pow_positive(64, d);
    lemma_mul_is_commutative(64, pow(64, d));
}

/// The powers of 64 that fit in `i64` are those up to the tenth.
pub proof fn lemma_pow64_bounds(d: nat)
    ensures
        d <= 10 ==> pow(64, d) <= 0x1000_0000_0000_0000,
        d < 10 ==> pow(64, d) <= 0x40_0000_0000_0000,
        d > 10 ==> pow(64, d) > i64::MAX,
{
    lemma_pow64_exact();
    if d <= 9 {
        lemma_pow_increases(64, d, 9);
    } else if d == 10 {
    } else {
        lemma_pow_increases(64, 11, d);
    }
}

/// The values of the ninth, tenth and eleventh power of 64.
proof fn lemma_pow64_exact()
    ensures
        pow(64, 9) == 0x40_0000_0000_0000,
        pow(64, 10) == 0x1000_0000_0000_0000,
        pow(64, 11) == 0x4_0000_0000_0000_0000,
{
    lemma_pow0(64);
    lemma_pow64_step(0);
    lemma_pow64_step(1);
    lemma_pow64_step(2);
    lemma_pow64_step(3);
    lemma_pow64_step(4);
    lemma_pow64_step(5);
    lemma_pow64_step(6);
    lemma_pow64_step(7);
    lemma_pow64_step(8);
    lemma_pow64_step(9);
    lemma_pow64_step(10);
}

/// The token space of at least one digit is not empty, and starts at zero or
/// above.
pub proof fn lemma_space_not_empty(d: nat)
    requires
        d >= 1,
    ensures
        0 <= lower_bound(d) < space_end(d),
{
    lemma_pow64_step((d - 1) as nat);
}

/// The file count is the least number of groups that cover the token space.
pub proof fn lemma_file_count(d: nat, bytes_per_file: int)
    requires
        d >= 1,
        bytes_per_file >= d + 1,
    ensures
        group_size(d, bytes_per_file) >= 1,
        file_count(d, bytes_per_file) >= 1,
        (file_count(d, bytes_per_file) - 1) * group_size(d, bytes_per_file) < space_end(d)
            - lower_bound(d),
        space_end(d) - lower_bound(d) <= file_count(d, bytes_per_file) * group_size(
            d,
            bytes_per_file,
        ),
{
    let span = space_end(d) - lower_bound(d);
    let group = group_size(d, bytes_per_file);
    let count = file_count(d, bytes_per_file);
    lemma_space_not_empty(d);
    assert(group >= 1) by {
        lemma_fundamental_div_mod(bytes_per_file, (d + 1) as int);
        lemma_mod_bound(bytes_per_file, (d + 1) as int);
        assert(bytes_per_file == (d + 1) * group + bytes_per_file % ((d + 1) as int));
        if group <= 0 {
            assert((d + 1) * group <= 0) by (nonlinear_arith)
                requires
                    group <= 0,
                    d + 1 > 0,
            ;
        }
    }
    lemma_fundamental_div_mod(span + group - 1, group);
    lemma_mod_bound(span + group - 1, group);
    assert(span + group - 1 == group * count + (span + group - 1) % group);
    lemma_mul_is_commutative(group, count);
    lemma_mul_is_distributive_add_other_way(group, count - 1, 1);
    assert((count - 1) * group + group == count * group);
    if count < 1 {
        assert(count * group <= 0) by (nonlinear_arith)
            requires
                count <= 0,
                group >= 1,
        ;
    }
}

/// The sub-ranges of a partition follow one another without gap or overlap
/// from the start of the token space to its end, and none is empty.
pub proof fn lemma_sub_ranges_chain(d: nat, bytes_per_file: int)
    requires
        d >= 1,
        bytes_per_file >= d + 1,
    ensures
        sub_range_start(d, bytes_per_file, 0) == lower_bound(d),
        sub_range_end(d, bytes_per_file, file_count(d, bytes_per_file) - 1) == space_end(d),
        forall|i: int|
            0 <= i < file_count(d, bytes_per_file) ==> #[trigger] sub_range_start(
                d,
                bytes_per_file,
                i,
            ) < sub_range_end(d, bytes_per_file, i),
        forall|i: int|
            0 <= i < file_count(d, bytes_per_file) - 1 ==> #[trigger] sub_range_end(
                d,
                bytes_per_file,
                i,
            ) == sub_range_start(d, bytes_per_file, i + 1),
        forall|i: int|
            0 <= i < file_count(d, bytes_per_file) ==> #[trigger] sub_range_end(
                d,
                bytes_per_file,
                i,
            ) - sub_range_start(d, bytes_per_file, i) <= group_size(d, bytes_per_file),
{
    let span = space_end(d) - lower_bound(d);
    let group = group_size(d, bytes_per_file);
    let count = file_count(d, bytes_per_file);
    lemma_file_count(d, bytes_per_file);
    assert(0 * group == 0);
    assert forall|i: int| 0 <= i < count implies #[trigger] sub_range_start(d, bytes_per_file, i)
        < sub_range_end(d, bytes_per_file, i) by {
        lemma_mul_inequality(i, count - 1, group);
        lemma_mul_is_distributive_add_other_way(group, i, 1);
    }
    assert forall|i: int| 0 <= i < count - 1 implies #[trigger] sub_range_end(d, bytes_per_file, i)
        == sub_range_start(d, bytes_per_file, i + 1) by {
        lemma_mul_inequality(i + 1, count - 1, group);
    }
    assert forall|i: int| 0 <= i < count implies #[trigger] sub_range_end(d, bytes_per_file, i)
        - sub_range_start(d, bytes_per_file, i) <= group by {
        lemma_mul_is_distributive_add_other_way(group, i, 1);
    }
}

/// The sub-ranges are pairwise disjoint, and their union is the token space.
pub proof fn lemma_sub_ranges_partition(d: nat, bytes_per_file: int)
    requires
        d >= 1,
        bytes_per_file >= d + 1,
    ensures
        forall|i: int, j: int, x: int|
            0 <= i < j < file_count(d, bytes_per_file) && #[trigger] in_sub_range(
                d,
                bytes_per_file,
                i,
                x,
            ) ==> !#[trigger] in_sub_range(d, bytes_per_file, j, x),
        forall|x: int|
            lower_bound(d) <= x < space_end(d) ==> 0 <= #[trigger] sub_range_index(
                d,
                bytes_per_file,
                x,
            ) < file_count(d, bytes_per_file) && in_sub_range(
                d,
                bytes_per_file,
                sub_range_index(d, bytes_per_file, x),
                x,
            ),
        forall|i: int, x: int|
            0 <= i < file_count(d, bytes_per_file) && #[trigger] in_sub_range(
                d,
                bytes_per_file,
                i,
                x,
            ) ==> lower_bound(d) <= x < space_end(d),
{
    let low = lower_bound(d);
    let span = space_end(d) - low;
    let group = group_size(d, bytes_per_file);
    let count = file_count(d, bytes_per_file);
    lemma_file_count(d, bytes_per_file);
    assert forall|i: int, j: int, x: int|
        0 <= i < j < count && #[trigger] in_sub_range(
            d,
            bytes_per_file,
            i,
            x,
        ) implies !#[trigger] in_sub_range(d, bytes_per_file, j, x) by {
        lemma_mul_inequality(i + 1, j, group);
    }
    assert forall|x: int| low <= x < space_end(d) implies 0 <= #[trigger] sub_range_index(
        d,
        bytes_per_file,
        x,
    ) < count && in_sub_range(d, bytes_per_file, sub_range_index(d, bytes_per_file, x), x) by {
        let i = sub_range_index(d, bytes_per_file, x);
        lemma_fundamental_div_mod(x - low, group);
        lemma_mod_bound(x - low, group);
        lemma_mul_is_commutative(group, i);
        lemma_mul_is_distributive_add_other_way(group, i, 1);
        assert(i * group <= x - low < (i + 1) * group);
        if i < 0 {
            assert((i + 1) * group <= 0) by (nonlinear_arith)
                requires
                    i + 1 <= 0,
                    group >= 1,
            ;
        }
        if i >= count {
            lemma_mul_inequality(count, i, group);
        }
    }
    assert forall|i: int, x: int|
        0 <= i < count && #[trigger] in_sub_range(d, bytes_per_file, i, x) implies low <= x
        < space_end(d) by {
        lemma_mul_inequality(0, i, group);
    }
}

/// The partition of the token space of a digit count under a budget of bytes
/// for each file.
#[derive(Debug, Clone, Copy, PartialEq, Eq)]
pub struct Partition {
    digit_count: u32,
    bytes_per_file: i64,
    lower_bound: i64,
    upper_bound: i64,
    group_size: i64,
    file_count: usize,
    filename_width: usize,
}

impl Partition {
    /// The digit count that the partition was made for.
    pub closed spec fn digits(&self) -> nat {
        self.digit_count as nat
    }

    /// The budget of bytes for each file that the partition was made with.
    pub closed spec fn budget(&self) -> int {
        self.bytes_per_file as int
    }

    #[verifier::type_invariant]
    spec fn well_formed(&self) -> bool {
        &&& rejection(self.digits(), self.budget()).is_none()
        &&& self.lower_bound == lower_bound(self.digits())
        &&& self.upper_bound == space_end(self.digits())
        &&& self.group_size == group_size(self.digits(), self.budget())
        &&& self.file_count == file_count(self.digits(), self.budget())
        &&& self.filename_width == filename_width(file_count(self.digits(), self.budget()))
    }

    /// Plans the files for `digit_count` digits with `bytes_per_file` bytes
    /// for each file, or says why there is no such plan.
    pub fn new(digit_count: u32, bytes_per_file: i64) -> (r: Result<Partition, PartitionError>)
        ensures
            match r {
                Ok(p) => rejection(digit_count as nat, bytes_per_file as int).is_none()
                    && p.digits() == digit_count && p.budget() == bytes_per_file,
                Err(e) => rejection(digit_count as nat, bytes_per_file as int) == Some(e),
            },
    {
        if digit_count == 0 {
            return Err(PartitionError::NoDigits);
        }
        if digit_count > MAX_DIGIT_COUNT {
            return Err(PartitionError::SpaceTooLarge);
        }
        let record_width: i64 = digit_count as i64 + 1;
        if bytes_per_file < record_width {
            return Err(PartitionError::BudgetTooSmall);
        }
        let ghost d = digit_count as nat;
        let ghost b = bytes_per_file as int;
        let upper_bound: i64 = power_of_64(digit_count);
        let lower_bound: i64 = if digit_count > 1 {
            power_of_64(digit_count - 1)
        } else {
            0
        };
        let group_size: i64 = bytes_per_file / record_width;
        proof {
            lemma_file_count(d, b);
            lemma_space_not_empty(d);
            lemma_pow64_bounds(d);
        }
        let span: i64 = upper_bound - lower_bound;
        let full_groups: i64 = span / group_size;
        let count: i64 = if span % group_size == 0 {
            full_groups
        } else {
            full_groups + 1
        };
        proof {
            let g = group_size as int;
            let q = full_groups as int;
            let r = (span % group_size) as int;
            lemma_fundamental_div_mod(span as int, g);
            lemma_mod_bound(span as int, g);
            lemma_mul_is_commutative(g, q);
            lemma_mul_is_distributive_add_other_way(g, q, 1);
            if r == 0 {
                lemma_fundamental_div_mod_converse(span + g - 1, g, q, g - 1);
            } else {
                lemma_fundamental_div_mod_converse(span + g - 1, g, q + 1, r - 1);
            }
            assert(count == file_count(d, b));
        }
        if count > 999 {
            return Err(PartitionError::TooManyFiles);
        }
        let filename_width: usize = if count <= 10 {
            1
        } else if count <= 100 {
            2
        } else {
            3
        };
        proof {
            reveal_with_fuel(decimal_width, 3);
        }
        Ok(
            Partition {
                digit_count,
                bytes_per_file,
                lower_bound,
                upper_bound,
                group_size,
                file_count: count as usize,
                filename_width,
            },
        )
    }

    /// The number of symbols in each token, from 1 to `MAX_DIGIT_COUNT`.
    pub fn digit_count(&self) -> (d: u32)
        ensures
            d == self.digits(),
            rejection(self.digits(), self.budget()).is_none(),
    {
        proof {
            use_type_invariant(self);
        }
        self.digit_count
    }

    /// The budget of bytes for each file.
    pub fn bytes_per_file(&self) -> (b: i64)
        ensures
            b == self.budget(),
            rejection(self.digits(), self.budget()).is_none(),
    {
        proof {
            use_type_invariant(self);
        }
        self.bytes_per_file
    }

    /// The first integer of the token space.
    pub fn lower_bound(&self) -> (low: i64)
        ensures
            low == lower_bound(self.digits()),
    {
        proof {
            use_type_invariant(self);
        }
        self.lower_bound
    }

    /// One past the last integer of the token space.
    pub fn upper_bound(&self) -> (high: i64)
        ensures
            high == space_end(self.digits()),
    {
        proof {
            use_type_invariant(self);
        }
        self.upper_bound
    }

    /// The number of tokens in each file but the last, which may hold fewer.
    pub fn group_size(&self) -> (group: i64)
        ensures
            group == group_size(self.digits(), self.budget()),
    {
        proof {
            use_type_invariant(self);
        }
        self.group_size
    }

    /// The number of files, from 1 to `MAX_FILE_COUNT`.
    pub fn file_count(&self) -> (count: usize)
        ensures
            count == file_count(self.digits(), self.budget()),
            1 <= count <= MAX_FILE_COUNT,
    {
        proof {
            use_type_invariant(self);
            lemma_file_count(self.digits(), self.budget());
        }
        self.file_count
    }

    /// The number of characters in each file name, from 1 to 3.
    pub fn filename_width(&self) -> (width: usize)
        ensures
            width == filename_width(file_count(self.digits(), self.budget())),
            1 <= width <= 3,
    {
        proof {
            use_type_invariant(self);
            lemma_file_count(self.digits(), self.budget());
            reveal_with_fuel(decimal_width, 3);
        }
        self.filename_width
    }

    /// The sub-range of the file with the given index, if there is such a
    /// file.
    pub fn sub_range(&self, index: usize) -> (r: Option<SubRange>)
        ensures
            match r {
                Some(range) => {
                    &&& index < file_count(self.digits(), self.budget())
                    &&& range.start == sub_range_start(self.digits(), self.budget(), index as int)
                    &&& range.end == sub_range_end(self.digits(), self.budget(), index as int)
                },
                None => index >= file_count(self.digits(), self.budget()),
            },
    {
        proof {
            use_type_invariant(self);
        }
        if index >= self.file_count {
            return None;
        }
        let ghost d = self.digits();
        let ghost b = self.budget();
        proof {
            lemma_file_count(d, b);
            lemma_space_not_empty(d);
            lemma_pow64_bounds(d);
            lemma_mul_inequality(index as int, file_count(d, b) - 1, self.group_size as int);
            lemma_mul_inequality(0, index as int, self.group_size as int);
            lemma_mul_is_distributive_add_other_way(self.group_size as int, index as int, 1);
        }
        let start: i64 = (index as i64) * self.group_size + self.lower_bound;
        let remaining: i64 = self.upper_bound - start;
        let end: i64 = if remaining <= self.group_size {
            self.upper_bound
        } else {
            start + self.group_size
        };
        Some(SubRange { start, end })
    }

    /// The sub-ranges of all the files, in the order of the files.
    pub fn sub_ranges(&self) -> (ranges: Vec<SubRange>)
        ensures
            ranges@.len() == file_count(self.digits(), self.budget()),
            forall|i: int|
                0 <= i < ranges@.len() ==> (#[trigger] ranges@[i]).start == sub_range_start(
                    self.digits(),
                    self.budget(),
                    i,
                ) && ranges@[i].end == sub_range_end(self.digits(), self.budget(), i),
    {
        let count: usize = self.file_count();
        let mut ranges: Vec<SubRange> = Vec::with_capacity(count);
        let mut index: usize = 0;
        while index < count
            invariant
                index <= count,
                count == file_count(self.digits(), self.budget()),
                ranges@.len() == index,
                forall|i: int|
                    0 <= i < index ==> (#[trigger] ranges@[i]).start == sub_range_start(
                        self.digits(),
                        self.budget(),
                        i,
                    ) && ranges@[i].end == sub_range_end(self.digits(), self.budget(), i),
            decreases count - index,
        {
            match self.sub_range(index) {
                Some(range) => {
                    ranges.push(range);
                },
                None => {},
            }
            index = index + 1;
        }
        ranges
    }
}

/// The digit count of a run for which no other is configured.
pub fn get_digit_count() -> (d: u32)
    ensures
        d == DEFAULT_DIGIT_COUNT,
{
    DEFAULT_DIGIT_COUNT
}

/// `64^e`, for an exponent whose power fits.
fn power_of_64(e: u32) -> (r: i64)
    requires
        e <= MAX_DIGIT_COUNT,
    ensures
        r == pow(64, e as nat),
{
    let mut r: i64 = 1;
    let mut k: u32 = 0;
    proof {
        lemma_pow0(64);
    }
    while k < e
        invariant
            k <= e <= MAX_DIGIT_COUNT,
            r == pow(64, k as nat),
        decreases e - k,
    {
        proof {
            lemma_pow64_step(k as nat);
            lemma_pow64_bounds(k as nat);
        }
        r = r * 64;
        k = k + 1;
    }
    r
}

} // verus!
