//! How the records lie in a file.
//!
//! In order, the records follow one another. With random insertion every
//! record has the same width, and the file is a row of slots of that width:
//! each record is written over whatever its slot holds, so an earlier record
//! may be lost; a slot beyond the end extends the file, and slots skipped
//! over on the way hold zero bytes.

use vstd::prelude::*;
use vstd::arithmetic::mul::lemma_mul_inequality;
use vstd::arithmetic::mul::lemma_mul_is_distributive_add_other_way;
use crate::alphabet::SEPARATOR;
use crate::encoding::encode;
use crate::encoding::lemma_encode_injective;

verus! {

/// The record of the integer `n`: its token and the separator.
pub open spec fn record(n: int) -> Seq<u8> {
    encode(n as nat).push(SEPARATOR)
}

/// The bytes of a record for `d` digits: the symbols and the separator.
pub open spec fn record_width(d: nat) -> int {
    d as int + 1
}

/// The records of `ns`, one after the other.
pub open spec fn in_order(ns: Seq<int>) -> Seq<u8>
    decreases ns.len(),
{
    if ns.len() == 0 {
        Seq::empty()
    } else {
        in_order(ns.drop_last()) + record(ns.last())
    }
}

/// The file after `data` is written at `offset`: the bytes in the way are
/// replaced, the file grows where `data` reaches beyond its end, and a gap
/// between the old end and `offset` holds zero bytes.
pub open spec fn write_at(file: Seq<u8>, offset: int, data: Seq<u8>) -> Seq<u8> {
    let end = offset + data.len();
    let len = if file.len() >= end {
        file.len() as int
    } else {
        end
    };
    Seq::new(
        len as nat,
        |k: int|
            if offset <= k < end {
                data[k - offset]
            } else if k < file.len() {
                file[k]
            } else {
                0u8
            },
    )
}

/// The file after the records of `ns` are written in turn, the record with
/// index `k` at the slot `slots[k]` of the given width.
pub open spec fn scattered(ns: Seq<int>, slots: Seq<int>, width: int) -> Seq<u8>
    decreases ns.len(),
{
    if ns.len() == 0 {
        Seq::empty()
    } else {
        write_at(
            scattered(ns.drop_last(), slots, width),
            slots[ns.len() - 1] * width,
            record(ns.last()),
        )
    }
}

/// Whether `slots` can be the slots drawn for `count` records: the record
/// with index `k` has `k` records before it, and its slot is one of `0..=k`.
pub open spec fn valid_slots(slots: Seq<int>, count: nat) -> bool {
    &&& slots.len() == count
    &&& forall|k: int| 0 <= k < count ==> 0 <= #[trigger] slots[k] <= k
}

/// Only the slots of the records that are there count: two sequences of
/// slots that agree on them give the same file.
pub proof fn lemma_scattered_prefix(ns: Seq<int>, slots: Seq<int>, other: Seq<int>, width: int)
    requires
        forall|k: int| 0 <= k < ns.len() ==> slots[k] == other[k],
    ensures
        scattered(ns, slots, width) == scattered(ns, other, width),
    decreases ns.len(),
{
    if ns.len() > 0 {
        lemma_scattered_prefix(ns.drop_last(), slots, other, width);
    }
}

/// The slot with index `j` of a file of slots of the given width.
pub open spec fn slot(file: Seq<u8>, width: int, j: int) -> Seq<u8> {
    file.subrange(j * width, (j + 1) * width)
}

/// Whether a slot holds nothing but zero bytes.
pub open spec fn is_hole(s: Seq<u8>) -> bool {
    forall|k: int| 0 <= k < s.len() ==> #[trigger] s[k] == 0
}

/// Whether every slot of the file is a hole or holds the record of one of
/// `ns`.
pub open spec fn slots_hold(file: Seq<u8>, width: int, ns: Seq<int>) -> bool {
    forall|j: int|
        0 <= j && (j + 1) * width <= file.len() ==> is_hole(#[trigger] slot(file, width, j)) || (
        exists|k: int| 0 <= k < ns.len() && slot(file, width, j) == record(#[trigger] ns[k]))
}

/// The number of slots of the file after `count` records: one more than the
/// largest slot written.
pub open spec fn extent(slots: Seq<int>, count: int) -> int
    decreases count,
{
    if count <= 0 {
        0
    } else if extent(slots, count - 1) > slots[count - 1] {
        extent(slots, count - 1)
    } else {
        slots[count - 1] + 1
    }
}

/// Where slot `i` lies before slot `j`, it ends before slot `j` starts.
proof fn lemma_slot_order(i: int, j: int, width: int)
    requires
        i < j,
        width >= 0,
    ensures
        (i + 1) * width == i * width + width,
        (i + 1) * width <= j * width,
{
    lemma_mul_inequality(i + 1, j, width);
    lemma_mul_is_distributive_add_other_way(width, i, 1);
}

/// Writing a record of the slots' width at slot `p` of a file of `m` slots
/// fills that slot, leaves the other slots as they were, and turns the slots
/// from the old end up to `p` into holes.
proof fn lemma_write_slot(file: Seq<u8>, m: int, width: int, p: int, data: Seq<u8>)
    requires
        width >= 1,
        0 <= m,
        file.len() == m * width,
        0 <= p,
        data.len() == width,
    ensures
        write_at(file, p * width, data).len() == (if m > p {
            m
        } else {
            p + 1
        }) * width,
        slot(write_at(file, p * width, data), width, p) == data,
        forall|j: int|
            0 <= j < m && j != p ==> #[trigger] slot(write_at(file, p * width, data), width, j)
                == slot(file, width, j),
        forall|j: int|
            m <= j < p ==> is_hole(#[trigger] slot(write_at(file, p * width, data), width, j)),
{
    let out = write_at(file, p * width, data);
    lemma_slot_order(p, p + 1, width);
    lemma_slot_order(-1, p, width);
    if m > p {
        lemma_slot_order(p, m, width);
    } else if m < p {
        lemma_slot_order(m - 1, p, width);
    }
    assert(slot(out, width, p) =~= data);
    assert forall|j: int| 0 <= j < m && j != p implies #[trigger] slot(out, width, j) == slot(
        file,
        width,
        j,
    ) by {
        lemma_slot_order(j, m, width);
        lemma_slot_order(-1, j, width);
        if j < p {
            lemma_slot_order(j, p, width);
        } else {
            lemma_slot_order(p, j, width);
        }
        assert(slot(out, width, j) =~= slot(file, width, j));
    }
    assert forall|j: int| m <= j < p implies is_hole(#[trigger] slot(out, width, j)) by {
        lemma_slot_order(j, p, width);
        if m < j {
            lemma_slot_order(m - 1, j, width);
        }
    }
}

/// Where every record has the width of a slot, the records written in order
/// fill one slot each, in their order.
pub proof fn lemma_in_order_slots(ns: Seq<int>, width: int)
    requires
        width >= 1,
        forall|k: int| 0 <= k < ns.len() ==> (#[trigger] record(ns[k])).len() == width,
    ensures
        in_order(ns).len() == ns.len() * width,
        forall|k: int|
            0 <= k < ns.len() ==> #[trigger] slot(in_order(ns), width, k) == record(ns[k]),
        slots_hold(in_order(ns), width, ns),
    decreases ns.len(),
{
    let file = in_order(ns);
    if ns.len() == 0 {
        assert(ns.len() * width == 0);
        assert forall|j: int| 0 <= j && (j + 1) * width <= file.len() implies is_hole(
            #[trigger] slot(file, width, j),
        ) by {
            lemma_slot_order(0, j + 1, width);
        }
    } else {
        let init = ns.drop_last();
        let last = ns.len() - 1;
        assert forall|k: int| 0 <= k < init.len() implies (#[trigger] record(init[k])).len()
            == width by {
            assert(init[k] == ns[k]);
        }
        lemma_in_order_slots(init, width);
        lemma_slot_order(last, last + 1, width);
        assert(record(ns.last()) == record(ns[last]));
        assert forall|k: int| 0 <= k < ns.len() implies #[trigger] slot(file, width, k) == record(
            ns[k],
        ) by {
            lemma_slot_order(-1, k, width);
            lemma_slot_order(k, last + 1, width);
            if k < last {
                lemma_slot_order(k, last, width);
                assert(slot(file, width, k) =~= slot(in_order(init), width, k));
                assert(init[k] == ns[k]);
            } else {
                assert(slot(file, width, k) =~= record(ns[k]));
            }
        }
        assert forall|j: int| 0 <= j && (j + 1) * width <= file.len() implies is_hole(
            #[trigger] slot(file, width, j),
        ) || (exists|k: int|
            0 <= k < ns.len() && slot(file, width, j) == record(#[trigger] ns[k])) by {
            if j > last {
                lemma_slot_order(last, j, width);
                lemma_slot_order(j, j + 1, width);
            }
            assert(slot(file, width, j) == record(ns[j]));
        }
    }
}

/// A file written in order tells which integers were written: two sequences
/// of integers, none below zero, with records of one width and the same file
/// are the same.
pub proof fn lemma_in_order_injective(a: Seq<int>, b: Seq<int>, width: int)
    requires
        width >= 1,
        forall|k: int| 0 <= k < a.len() ==> 0 <= a[k] && (#[trigger] record(a[k])).len() == width,
        forall|k: int| 0 <= k < b.len() ==> 0 <= b[k] && (#[trigger] record(b[k])).len() == width,
        in_order(a) == in_order(b),
    ensures
        a == b,
{
    lemma_in_order_slots(a, width);
    lemma_in_order_slots(b, width);
    if a.len() < b.len() {
        lemma_mul_inequality(a.len() as int + 1, b.len() as int, width);
        lemma_slot_order(a.len() as int, a.len() as int + 1, width);
    }
    if b.len() < a.len() {
        lemma_mul_inequality(b.len() as int + 1, a.len() as int, width);
        lemma_slot_order(b.len() as int, b.len() as int + 1, width);
    }
    assert forall|k: int| 0 <= k < a.len() implies a[k] == b[k] by {
        assert(slot(in_order(a), width, k) == record(a[k]));
        assert(slot(in_order(b), width, k) == record(b[k]));
        assert(record(a[k]).drop_last() =~= encode(a[k] as nat));
        assert(record(b[k]).drop_last() =~= encode(b[k] as nat));
        lemma_encode_injective(a[k] as nat, b[k] as nat);
    }
    assert(a =~= b);
}

/// The same, for slots that need not end with the records.
proof fn lemma_scattered_slots_upto(ns: Seq<int>, slots: Seq<int>, width: int)
    requires
        width >= 1,
        slots.len() >= ns.len(),
        forall|k: int| 0 <= k < ns.len() ==> 0 <= #[trigger] slots[k] <= k,
        forall|k: int| 0 <= k < ns.len() ==> (#[trigger] record(ns[k])).len() == width,
    ensures
        0 <= extent(slots, ns.len() as int) <= ns.len(),
        ns.len() > 0 ==> extent(slots, ns.len() as int) >= 1,
        scattered(ns, slots, width).len() == extent(slots, ns.len() as int) * width,
        slots_hold(scattered(ns, slots, width), width, ns),
    decreases ns.len(),
{
    let file = scattered(ns, slots, width);
    if ns.len() == 0 {
        assert(extent(slots, 0) * width == 0);
        assert forall|j: int| 0 <= j && (j + 1) * width <= file.len() implies is_hole(
            #[trigger] slot(file, width, j),
        ) by {
            lemma_slot_order(0, j + 1, width);
        }
    } else {
        let init = ns.drop_last();
        let last = ns.len() - 1;
        let p = slots[last];
        let before = scattered(init, slots, width);
        let m = extent(slots, last);
        let data = record(ns.last());
        assert forall|k: int| 0 <= k < init.len() implies (#[trigger] record(init[k])).len()
            == width by {
            assert(init[k] == ns[k]);
        }
        lemma_scattered_slots_upto(init, slots, width);
        assert(data == record(ns[last]));
        lemma_write_slot(before, m, width, p, data);
        let total = extent(slots, ns.len() as int);
        assert(file == write_at(before, p * width, data));
        assert(file.len() == total * width);
        assert forall|j: int| 0 <= j && (j + 1) * width <= file.len() implies is_hole(
            #[trigger] slot(file, width, j),
        ) || (exists|k: int|
            0 <= k < ns.len() && slot(file, width, j) == record(#[trigger] ns[k])) by {
            if j >= total {
                lemma_slot_order(total - 1, j, width);
                lemma_slot_order(j, j + 1, width);
            }
            if j == p {
                assert(slot(file, width, j) == record(ns[last]));
            } else if j < m {
                lemma_slot_order(j, m, width);
                assert(slot(file, width, j) == slot(before, width, j));
                if !is_hole(slot(before, width, j)) {
                    let k = choose|k: int|
                        0 <= k < init.len() && slot(before, width, j) == record(
                            #[trigger] init[k],
                        );
                    assert(init[k] == ns[k]);
                }
            } else {
                assert(is_hole(slot(file, width, j)));
            }
        }
    }
}

/// Where every record has the width of a slot, the file of records written
/// at drawn slots is a row of whole slots, no more of them than records, and
/// each slot is a hole or holds one of the records.
pub proof fn lemma_scattered_slots(ns: Seq<int>, slots: Seq<int>, width: int)
    requires
        width >= 1,
        valid_slots(slots, ns.len()),
        forall|k: int| 0 <= k < ns.len() ==> (#[trigger] record(ns[k])).len() == width,
    ensures
        0 <= extent(slots, ns.len() as int) <= ns.len(),
        ns.len() > 0 ==> extent(slots, ns.len() as int) >= 1,
        scattered(ns, slots, width).len() == extent(slots, ns.len() as int) * width,
        slots_hold(scattered(ns, slots, width), width, ns),
{
    lemma_scattered_slots_upto(ns, slots, width);
}

/// Written each at the slot of its own index, the records lie in order.
pub proof fn lemma_own_slots_in_order(ns: Seq<int>, width: int)
    requires
        width >= 1,
        forall|k: int| 0 <= k < ns.len() ==> (#[trigger] record(ns[k])).len() == width,
    ensures
        scattered(ns, Seq::new(ns.len(), |k: int| k), width) == in_order(ns),
    decreases ns.len(),
{
    let own = Seq::new(ns.len(), |k: int| k);
    if ns.len() > 0 {
        let init = ns.drop_last();
        let last = ns.len() - 1;
        assert forall|k: int| 0 <= k < init.len() implies (#[trigger] record(init[k])).len()
            == width by {
            assert(init[k] == ns[k]);
        }
        lemma_own_slots_in_order(init, width);
        lemma_scattered_prefix(init, own, Seq::new(init.len(), |k: int| k), width);
        lemma_in_order_slots(init, width);
        lemma_slot_order(last, last + 1, width);
        assert(record(ns.last()) == record(ns[last]));
        assert(scattered(ns, own, width) =~= in_order(ns));
    }
}

} // verus!
