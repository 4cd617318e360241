//! A whole run: the files of all the sub-ranges of a partition.

use vstd::prelude::*;
use vstd::arithmetic::div_mod::lemma_fundamental_div_mod;
use vstd::arithmetic::div_mod::lemma_mod_bound;
use vstd::arithmetic::mul::lemma_mul_inequality;
use vstd::arithmetic::mul::lemma_mul_is_commutative;
use crate::encoding::encode;
use crate::encoding::lemma_encode_injective;
use crate::exclusion::ExclusionSet;
use crate::layout::in_order;
use crate::layout::record_width;
use crate::layout::slots_hold;
use crate::chunk::survivors;
use crate::chunk::is_chunk_file;
use crate::chunk::holds_token;
use crate::chunk::in_token_space;
use crate::chunk::write_chunk;
use crate::chunk::lemma_survivors;
use crate::chunk::lemma_chunk_file;
use crate::partition::Partition;
use crate::partition::lower_bound;
use crate::partition::space_end;
use crate::partition::file_count;
use crate::partition::group_size;
use crate::partition::sub_range_start;
use crate::partition::sub_range_end;
use crate::partition::in_sub_range;
use crate::partition::lemma_file_count;
use crate::partition::lemma_space_not_empty;
use crate::partition::lemma_pow64_bounds;
use crate::partition::lemma_sub_ranges_chain;
use crate::partition::lemma_sub_ranges_partition;

verus! {

/// The files with the indices below `count`, written in order and put one
/// after the other, where `excluded` is left out of each.
pub open spec fn files_in_order(
    d: nat,
    bytes_per_file: int,
    count: int,
    excluded: Set<Seq<u8>>,
) -> Seq<u8>
    decreases count,
{
    if count <= 0 {
        Seq::empty()
    } else {
        files_in_order(d, bytes_per_file, count - 1, excluded) + in_order(
            survivors(
                sub_range_start(d, bytes_per_file, count - 1),
                sub_range_end(d, bytes_per_file, count - 1),
                excluded,
            ),
        )
    }
}

/// The integers from `start` up to, not including, `end`.
pub open spec fn whole_range(start: int, end: int) -> Seq<int> {
    Seq::new(
        if end > start {
            (end - start) as nat
        } else {
            0
        },
        |k: int| start + k,
    )
}

/// The records of two sequences put together are the records of the one
/// followed by the records of the other.
pub proof fn lemma_in_order_concat(a: Seq<int>, b: Seq<int>)
    ensures
        in_order(a + b) == in_order(a) + in_order(b),
    decreases b.len(),
{
    if b.len() == 0 {
        assert(a + b =~= a);
        assert(in_order(a) + in_order(b) =~= in_order(a));
    } else {
        lemma_in_order_concat(a, b.drop_last());
        assert((a + b).drop_last() =~= a + b.drop_last());
        assert((a + b).last() == b.last());
        assert(in_order(a + b) =~= in_order(a) + in_order(b));
    }
}

/// The survivors of two ranges that meet are the survivors of the two taken
/// as one.
pub proof fn lemma_survivors_concat(a: int, b: int, c: int, excluded: Set<Seq<u8>>)
    requires
        a <= b <= c,
    ensures
        survivors(a, c, excluded) == survivors(a, b, excluded) + survivors(b, c, excluded),
    decreases c - b,
{
    if c == b {
        assert(survivors(a, b, excluded) + survivors(b, c, excluded) =~= survivors(
            a,
            c,
            excluded,
        ));
    } else {
        lemma_survivors_concat(a, b, c - 1, excluded);
        assert(survivors(a, b, excluded) + survivors(b, c, excluded) =~= survivors(
            a,
            c,
            excluded,
        ));
    }
}

/// Where nothing is excluded, every integer of the range survives.
pub proof fn lemma_nothing_excluded(start: int, end: int)
    ensures
        survivors(start, end, Set::empty()) == whole_range(start, end),
    decreases end - start,
{
    if end > start {
        lemma_nothing_excluded(start, end - 1);
    }
    assert(survivors(start, end, Set::empty()) =~= whole_range(start, end));
}

/// The files up to and including the one with index `i`, put together, are
/// the file of the token space up to the end of that sub-range.
proof fn lemma_files_upto(d: nat, bytes_per_file: int, excluded: Set<Seq<u8>>, i: int)
    requires
        d >= 1,
        bytes_per_file >= d + 1,
        0 <= i < file_count(d, bytes_per_file),
    ensures
        files_in_order(d, bytes_per_file, i + 1, excluded) == in_order(
            survivors(lower_bound(d), sub_range_end(d, bytes_per_file, i), excluded),
        ),
    decreases i,
{
    let start = sub_range_start(d, bytes_per_file, i);
    let end = sub_range_end(d, bytes_per_file, i);
    let low = lower_bound(d);
    lemma_sub_ranges_chain(d, bytes_per_file);
    lemma_sub_ranges_partition(d, bytes_per_file);
    assert(in_sub_range(d, bytes_per_file, i, start));
    if i == 0 {
        assert(files_in_order(d, bytes_per_file, 0, excluded) =~= Seq::<u8>::empty());
        assert(survivors(low, low, excluded) =~= Seq::<int>::empty());
    } else {
        lemma_files_upto(d, bytes_per_file, excluded, i - 1);
        assert(sub_range_end(d, bytes_per_file, i - 1) == start);
    }
    assert(files_in_order(d, bytes_per_file, i, excluded) =~= in_order(
        survivors(low, start, excluded),
    ));
    lemma_survivors_concat(low, start, end, excluded);
    lemma_in_order_concat(survivors(low, start, excluded), survivors(start, end, excluded));
}

/// The files of a run, written in order and put one after the other, are the
/// records of the survivors of the whole token space, in ascending order.
pub proof fn lemma_files_cover_space(d: nat, bytes_per_file: int, excluded: Set<Seq<u8>>)
    requires
        d >= 1,
        bytes_per_file >= d + 1,
    ensures
        files_in_order(d, bytes_per_file, file_count(d, bytes_per_file), excluded) == in_order(
            survivors(lower_bound(d), space_end(d), excluded),
        ),
{
    lemma_file_count(d, bytes_per_file);
    lemma_sub_ranges_chain(d, bytes_per_file);
    lemma_files_upto(d, bytes_per_file, excluded, file_count(d, bytes_per_file) - 1);
}

/// Where nothing is excluded, the files of a run written in order hold the
/// token of every integer of the token space exactly once: put one after the
/// other they are the records of those integers in ascending order, and no
/// two of the integers have the same token.
pub proof fn lemma_run_is_exhaustive(d: nat, bytes_per_file: int)
    requires
        d >= 1,
        bytes_per_file >= d + 1,
    ensures
        files_in_order(d, bytes_per_file, file_count(d, bytes_per_file), Set::empty())
            == in_order(whole_range(lower_bound(d), space_end(d))),
        forall|m: int, n: int|
            lower_bound(d) <= m < n < space_end(d) ==> #[trigger] encode(m as nat)
                != #[trigger] encode(n as nat),
{
    lemma_files_cover_space(d, bytes_per_file, Set::empty());
    lemma_nothing_excluded(lower_bound(d), space_end(d));
    lemma_space_not_empty(d);
    assert forall|m: int, n: int| lower_bound(d) <= m < n < space_end(d) implies #[trigger] encode(
        m as nat,
    ) != #[trigger] encode(n as nat) by {
        if encode(m as nat) == encode(n as nat) {
            lemma_encode_injective(m as nat, n as nat);
        }
    }
}

/// No file of a run is larger than the budget.
pub proof fn lemma_file_within_budget(
    file: Seq<u8>,
    d: nat,
    bytes_per_file: int,
    i: int,
    excluded: Set<Seq<u8>>,
    insert_at_random: bool,
)
    requires
        d >= 1,
        bytes_per_file >= d + 1,
        0 <= i < file_count(d, bytes_per_file),
        is_chunk_file(
            file,
            d,
            sub_range_start(d, bytes_per_file, i),
            sub_range_end(d, bytes_per_file, i),
            excluded,
            insert_at_random,
        ),
    ensures
        in_token_space(
            d,
            sub_range_start(d, bytes_per_file, i),
            sub_range_end(d, bytes_per_file, i),
        ),
        (sub_range_end(d, bytes_per_file, i) - sub_range_start(d, bytes_per_file, i))
            * record_width(d) <= bytes_per_file,
        file.len() <= bytes_per_file,
{
    let start = sub_range_start(d, bytes_per_file, i);
    let end = sub_range_end(d, bytes_per_file, i);
    let group = group_size(d, bytes_per_file);
    let width = record_width(d);
    let count = survivors(start, end, excluded).len() as int;
    lemma_file_count(d, bytes_per_file);
    lemma_sub_ranges_chain(d, bytes_per_file);
    lemma_sub_ranges_partition(d, bytes_per_file);
    assert(in_sub_range(d, bytes_per_file, i, start));
    lemma_chunk_file(file, d, start, end, excluded, insert_at_random);
    lemma_survivors(start, end, excluded);
    lemma_fundamental_div_mod(bytes_per_file, width);
    lemma_mod_bound(bytes_per_file, width);
    lemma_mul_is_commutative(width, group);
    lemma_mul_inequality(end - start, group, width);
    lemma_mul_inequality(count, end - start, width);
}

impl Partition {
    /// The bytes of the file with the given index, if there is such a file
    /// and its bytes can be counted in `usize`.
    pub fn file_bytes(
        &self,
        index: usize,
        exclusions: &ExclusionSet,
        insert_at_random: bool,
    ) -> (r: Option<Vec<u8>>)
        ensures
            r.is_some() <==> index < file_count(self.digits(), self.budget()) && (sub_range_end(
                self.digits(),
                self.budget(),
                index as int,
            ) - sub_range_start(self.digits(), self.budget(), index as int)) * record_width(
                self.digits(),
            ) <= usize::MAX,
            match r {
                Some(bytes) => {
                    &&& is_chunk_file(
                        bytes@,
                        self.digits(),
                        sub_range_start(self.digits(), self.budget(), index as int),
                        sub_range_end(self.digits(), self.budget(), index as int),
                        exclusions@,
                        insert_at_random,
                    )
                    &&& slots_hold(
                        bytes@,
                        record_width(self.digits()),
                        survivors(
                            sub_range_start(self.digits(), self.budget(), index as int),
                            sub_range_end(self.digits(), self.budget(), index as int),
                            exclusions@,
                        ),
                    )
                    &&& forall|t: Seq<u8>|
                        exclusions@.contains(t) ==> !#[trigger] holds_token(
                            bytes@,
                            record_width(self.digits()),
                            t,
                        )
                    &&& bytes@.len() <= self.budget()
                },
                None => true,
            },
    {
        let digit_count: u32 = self.digit_count();
        let ghost d = self.digits();
        let ghost b = self.budget();
        match self.sub_range(index) {
            None => None,
            Some(range) => {
                proof {
                    lemma_file_count(d, b);
                    lemma_space_not_empty(d);
                    lemma_pow64_bounds(d);
                    lemma_sub_ranges_chain(d, b);
                    lemma_sub_ranges_partition(d, b);
                    assert(in_sub_range(d, b, index as int, range.start as int));
                    assert(in_token_space(d, range.start as int, range.end as int));
                }
                let count: u64 = (range.end - range.start) as u64;
                let width: u64 = digit_count as u64 + 1;
                assert(count * width <= 0x1000_0000_0000_0000 * 11) by (nonlinear_arith)
                    requires
                        0 <= count <= 0x1000_0000_0000_0000,
                        0 <= width <= 11,
                ;
                if count * width > usize::MAX as u64 {
                    None
                } else {
                    let bytes = write_chunk(digit_count, range, exclusions, insert_at_random);
                    proof {
                        lemma_file_within_budget(
                            bytes@,
                            d,
                            b,
                            index as int,
                            exclusions@,
                            insert_at_random,
                        );
                    }
                    Some(bytes)
                }
            },
        }
    }
}

} // verus!
