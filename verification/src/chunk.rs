//! The bytes of one output file: the tokens of a sub-range that are not
//! excluded, each followed by the separator.
//!
//! In order, the records follow one another as the integers ascend. With
//! random insertion the first record goes to slot zero, and each later one to
//! a slot drawn from zero up to the number of records written before it.

use rand::rngs::ThreadRng;
use vstd::prelude::*;
use vstd::arithmetic::mul::lemma_mul_inequality;
use vstd::arithmetic::mul::lemma_mul_is_distributive_add_other_way;
use crate::alphabet::SEPARATOR;
use crate::encoding::encode;
use crate::encoding::to_base64_string;
use crate::encoding::lemma_encode_len;
use crate::exclusion::ExclusionSet;
use crate::layout::record;
use crate::layout::record_width;
use crate::layout::in_order;
use crate::layout::write_at;
use crate::layout::scattered;
use crate::layout::valid_slots;
use crate::layout::slot;
use crate::layout::is_hole;
use crate::layout::slots_hold;
use crate::layout::extent;
use crate::layout::lemma_scattered_prefix;
use crate::layout::lemma_in_order_slots;
use crate::layout::lemma_scattered_slots;
use crate::partition::SubRange;
use crate::partition::MAX_DIGIT_COUNT;
use crate::partition::lower_bound;
use crate::partition::space_end;
use crate::partition::lemma_space_not_empty;
use crate::partition::lemma_pow64_bounds;
use crate::random::random_between;

verus! {

/// The integers from `start` up to, not including, `end` whose token is not
/// excluded, in ascending order.
pub open spec fn survivors(start: int, end: int, excluded: Set<Seq<u8>>) -> Seq<int>
    decreases end - start,
{
    if end <= start {
        Seq::empty()
    } else if excluded.contains(encode((end - 1) as nat)) {
        survivors(start, end - 1, excluded)
    } else {
        survivors(start, end - 1, excluded).push(end - 1)
    }
}

/// Whether `start..end` lies in the token space of `d` digits.
pub open spec fn in_token_space(d: nat, start: int, end: int) -> bool {
    &&& 1 <= d
    &&& lower_bound(d) <= start <= end <= space_end(d)
}

/// Writes the record of `token` at the end of `file`.
pub fn append_record(file: &mut Vec<u8>, token: &[u8])
    ensures
        final(file)@ == old(file)@ + token@.push(SEPARATOR),
{
    let mut k: usize = 0;
    while k < token.len()
        invariant
            k <= token@.len(),
            file@ == old(file)@ + token@.take(k as int),
        decreases token@.len() - k,
    {
        file.push(token[k]);
        k = k + 1;
        assert(file@ =~= old(file)@ + token@.take(k as int));
    }
    file.push(SEPARATOR);
    assert(file@ =~= old(file)@ + token@.push(SEPARATOR));
}

/// Writes the record of `token` into `file` at the slot with index `slot`,
/// over what the slot holds.
pub fn place_record(file: &mut Vec<u8>, slot: usize, width: usize, token: &[u8])
    requires
        slot * width + token@.len() + 1 <= usize::MAX,
    ensures
        final(file)@ == write_at(old(file)@, slot * width, token@.push(SEPARATOR)),
{
    assert(slot * width <= usize::MAX) by (nonlinear_arith)
        requires
            slot * width + token@.len() + 1 <= usize::MAX,
            0 <= token@.len(),
    ;
    let offset: usize = slot * width;
    let ghost data = token@.push(SEPARATOR);
    while file.len() < offset
        invariant
            old(file)@.len() <= file@.len(),
            file@.len() <= offset || file@ == old(file)@,
            forall|k: int| 0 <= k < old(file)@.len() ==> file@[k] == old(file)@[k],
            forall|k: int| old(file)@.len() <= k < file@.len() ==> file@[k] == 0,
        decreases offset - file@.len(),
    {
        file.push(0);
    }
    let ghost padded = file@;
    let mut k: usize = 0;
    while k <= token.len()
        invariant
            k <= token@.len() + 1,
            offset + token@.len() + 1 <= usize::MAX,
            data == token@.push(SEPARATOR),
            padded.len() >= offset,
            file@.len() == if padded.len() >= offset + k {
                padded.len() as int
            } else {
                offset + k
            },
            forall|i: int| 0 <= i < file@.len() ==> file@[i] == if offset <= i < offset + k {
                data[i - offset]
            } else {
                padded[i]
            },
        decreases token@.len() + 1 - k,
    {
        let byte: u8 = if k < token.len() {
            token[k]
        } else {
            SEPARATOR
        };
        if offset + k < file.len() {
            file.set(offset + k, byte);
        } else {
            file.push(byte);
        }
        k = k + 1;
    }
    assert(file@ =~= write_at(old(file)@, offset as int, data));
}

/// The survivors of a range lie in the range, ascend, and are not excluded;
/// there are no more of them than integers in the range.
pub proof fn lemma_survivors(start: int, end: int, excluded: Set<Seq<u8>>)
    ensures
        survivors(start, end, excluded).len() <= if end >= start {
            end - start
        } else {
            0
        },
        forall|k: int|
            0 <= k < survivors(start, end, excluded).len() ==> {
                let n = #[trigger] survivors(start, end, excluded)[k];
                start <= n < end && !excluded.contains(encode(n as nat))
            },
        forall|j: int, k: int|
            0 <= j < k < survivors(start, end, excluded).len() ==> survivors(
                start,
                end,
                excluded,
            )[j] < survivors(start, end, excluded)[k],
    decreases end - start,
{
    if end > start {
        lemma_survivors(start, end - 1, excluded);
    }
}

/// Every integer of the range that is not excluded is among the survivors.
pub proof fn lemma_survivors_complete(start: int, end: int, excluded: Set<Seq<u8>>, n: int)
    requires
        start <= n < end,
        !excluded.contains(encode(n as nat)),
    ensures
        survivors(start, end, excluded).contains(n),
    decreases end - start,
{
    let all = survivors(start, end, excluded);
    if n == end - 1 {
        assert(all[all.len() - 1] == n);
    } else {
        lemma_survivors_complete(start, end - 1, excluded, n);
        let before = survivors(start, end - 1, excluded);
        let k = choose|k: int| 0 <= k < before.len() && before[k] == n;
        assert(all[k] == n);
    }
}

/// Whether `file` is a file of the chunk writer for the range: the records
/// of the survivors in order, or, with random insertion, each written at a
/// slot that could be drawn for it.
pub open spec fn is_chunk_file(
    file: Seq<u8>,
    d: nat,
    start: int,
    end: int,
    excluded: Set<Seq<u8>>,
    insert_at_random: bool,
) -> bool {
    let ns = survivors(start, end, excluded);
    if insert_at_random {
        exists|slots: Seq<int>| #[trigger]
            valid_slots(slots, ns.len()) && file == scattered(ns, slots, record_width(d))
    } else {
        file == in_order(ns)
    }
}

/// Whether one of the slots of the file holds the record of `token`.
pub open spec fn holds_token(file: Seq<u8>, width: int, token: Seq<u8>) -> bool {
    exists|j: int|
        0 <= j && (j + 1) * width <= file.len() && #[trigger] slot(file, width, j) == token.push(
            SEPARATOR,
        )
}

/// In the token space of `d` digits every record is `d + 1` bytes wide.
pub proof fn lemma_record_width(d: nat, start: int, end: int, excluded: Set<Seq<u8>>)
    requires
        in_token_space(d, start, end),
    ensures
        forall|k: int|
            0 <= k < survivors(start, end, excluded).len() ==> (#[trigger] record(
                survivors(start, end, excluded)[k],
            )).len() == record_width(d),
{
    let ns = survivors(start, end, excluded);
    lemma_survivors(start, end, excluded);
    lemma_space_not_empty(d);
    assert forall|k: int| 0 <= k < ns.len() implies (#[trigger] record(ns[k])).len()
        == record_width(d) by {
        let n = ns[k];
        assert(start <= n < end);
        lemma_encode_len(n as nat, d);
    }
}

/// A file of the chunk writer for a range of the token space of `d` digits
/// is a row of slots of `d + 1` bytes, no more of them than survivors. In
/// order, the slots hold the records of the survivors, one each; with random
/// insertion, each slot is a hole or holds the record of a survivor. No slot
/// holds an excluded token.
pub proof fn lemma_chunk_file(
    file: Seq<u8>,
    d: nat,
    start: int,
    end: int,
    excluded: Set<Seq<u8>>,
    insert_at_random: bool,
)
    requires
        in_token_space(d, start, end),
        is_chunk_file(file, d, start, end, excluded, insert_at_random),
    ensures
        file.len() <= survivors(start, end, excluded).len() * record_width(d),
        !insert_at_random ==> file.len() == survivors(start, end, excluded).len()
            * record_width(d),
        !insert_at_random ==> forall|k: int|
            0 <= k < survivors(start, end, excluded).len() ==> #[trigger] slot(
                file,
                record_width(d),
                k,
            ) == record(survivors(start, end, excluded)[k]),
        slots_hold(file, record_width(d), survivors(start, end, excluded)),
        forall|t: Seq<u8>|
            excluded.contains(t) ==> !#[trigger] holds_token(file, record_width(d), t),
{
    let ns = survivors(start, end, excluded);
    let width = record_width(d);
    lemma_record_width(d, start, end, excluded);
    lemma_survivors(start, end, excluded);
    if insert_at_random {
        let slots = choose|slots: Seq<int>| #[trigger]
            valid_slots(slots, ns.len()) && file == scattered(ns, slots, width);
        lemma_scattered_slots(ns, slots, width);
        lemma_mul_inequality(extent(slots, ns.len() as int), ns.len() as int, width);
    } else {
        lemma_in_order_slots(ns, width);
    }
    assert forall|t: Seq<u8>| excluded.contains(t) implies !#[trigger] holds_token(
        file,
        width,
        t,
    ) by {
        if holds_token(file, width, t) {
            let j = choose|j: int|
                0 <= j && (j + 1) * width <= file.len() && #[trigger] slot(file, width, j)
                    == t.push(SEPARATOR);
            let s = slot(file, width, j);
            assert(s[s.len() - 1] == SEPARATOR);
            assert(!is_hole(s));
            let k = choose|k: int| 0 <= k < ns.len() && s == record(#[trigger] ns[k]);
            assert(t.push(SEPARATOR).drop_last() =~= t);
            assert(record(ns[k]).drop_last() =~= encode(ns[k] as nat));
        }
    }
}

/// The records of the survivors of `range`, in ascending order.
fn write_in_order(range: SubRange, exclusions: &ExclusionSet) -> (bytes: Vec<u8>)
    requires
        0 <= range.start <= range.end,
    ensures
        bytes@ == in_order(survivors(range.start as int, range.end as int, exclusions@)),
{
    let ghost start = range.start as int;
    let ghost excluded = exclusions@;
    let mut bytes: Vec<u8> = Vec::new();
    let mut i: i64 = range.start;
    while i < range.end
        invariant
            0 <= start == range.start,
            excluded == exclusions@,
            start <= i <= range.end,
            bytes@ == in_order(survivors(start, i as int, excluded)),
        decreases range.end - i,
    {
        if !exclusions.excludes(i) {
            let token: Vec<u8> = to_base64_string(i);
            proof {
                let after = survivors(start, i as int + 1, excluded);
                assert(after.drop_last() =~= survivors(start, i as int, excluded));
            }
            append_record(&mut bytes, token.as_slice());
        }
        i = i + 1;
    }
    bytes
}

/// The records of the survivors of `range`, the first at slot zero and each
/// later one at a slot drawn from zero up to the number of records written
/// before it.
fn write_at_random(digit_count: u32, range: SubRange, exclusions: &ExclusionSet) -> (bytes:
    Vec<u8>)
    requires
        digit_count <= MAX_DIGIT_COUNT,
        in_token_space(digit_count as nat, range.start as int, range.end as int),
        (range.end - range.start) * (digit_count + 1) <= usize::MAX,
    ensures
        is_chunk_file(
            bytes@,
            digit_count as nat,
            range.start as int,
            range.end as int,
            exclusions@,
            true,
        ),
{
    let width: usize = digit_count as usize + 1;
    let ghost d = digit_count as nat;
    let ghost start = range.start as int;
    let ghost excluded = exclusions@;
    let ghost mut slots: Seq<int> = Seq::empty();
    let mut bytes: Vec<u8> = Vec::new();
    let mut rng: ThreadRng = rand::thread_rng();
    let mut count: usize = 0;
    let mut i: i64 = range.start;
    proof {
        lemma_space_not_empty(d);
        lemma_pow64_bounds(d);
    }
    while i < range.end
        invariant
            in_token_space(d, start, range.end as int),
            d == digit_count <= MAX_DIGIT_COUNT,
            width == d + 1,
            0 <= start == range.start,
            excluded == exclusions@,
            (range.end - start) * width <= usize::MAX,
            start <= i <= range.end,
            count == survivors(start, i as int, excluded).len(),
            count <= i - start,
            valid_slots(slots, count as nat),
            bytes@ == scattered(survivors(start, i as int, excluded), slots, width as int),
        decreases range.end - i,
    {
        let ghost before = survivors(start, i as int, excluded);
        if !exclusions.excludes(i) {
            let token: Vec<u8> = to_base64_string(i);
            let slot: usize = if count > 0 {
                random_between(&mut rng, 0, count)
            } else {
                0
            };
            proof {
                let after = survivors(start, i as int + 1, excluded);
                lemma_encode_len(i as nat, d);
                assert(after.drop_last() =~= before);
                lemma_mul_inequality(slot as int + 1, range.end - start, width as int);
                lemma_mul_is_distributive_add_other_way(width as int, slot as int, 1);
                lemma_mul_inequality(1, width as int, range.end - start);
                lemma_scattered_prefix(before, slots, slots.push(slot as int), width as int);
                slots = slots.push(slot as int);
            }
            place_record(&mut bytes, slot, width, token.as_slice());
            count = count + 1;
        }
        i = i + 1;
    }
    bytes
}

/// The bytes of the file for `range`, a sub-range of the token space of
/// `digit_count` digits: the records of the integers of the range whose
/// token is not excluded. They lie in ascending order or, with random
/// insertion, each at a slot drawn at random from zero up to the number of
/// records written before it, over what that slot holds.
pub fn write_chunk(
    digit_count: u32,
    range: SubRange,
    exclusions: &ExclusionSet,
    insert_at_random: bool,
) -> (bytes: Vec<u8>)
    requires
        digit_count <= MAX_DIGIT_COUNT,
        in_token_space(digit_count as nat, range.start as int, range.end as int),
        (range.end - range.start) * (digit_count + 1) <= usize::MAX,
    ensures
        is_chunk_file(
            bytes@,
            digit_count as nat,
            range.start as int,
            range.end as int,
            exclusions@,
            insert_at_random,
        ),
        slots_hold(
            bytes@,
            record_width(digit_count as nat),
            survivors(range.start as int, range.end as int, exclusions@),
        ),
        forall|t: Seq<u8>|
            exclusions@.contains(t) ==> !#[trigger] holds_token(
                bytes@,
                record_width(digit_count as nat),
                t,
            ),
{
    proof {
        lemma_space_not_empty(digit_count as nat);
    }
    let bytes = if insert_at_random {
        write_at_random(digit_count, range, exclusions)
    } else {
        write_in_order(range, exclusions)
    };
    proof {
        lemma_chunk_file(
            bytes@,
            digit_count as nat,
            range.start as int,
            range.end as int,
            exclusions@,
            insert_at_random,
        );
    }
    bytes
}

} // verus!
