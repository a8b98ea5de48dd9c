//! What it means to bring fragments into the order of their offsets.

use crate::data::{total_size, PacketView};
use vstd::prelude::*;

verus! {

/// The fragments of `packets` that start at `offset`, in the order in which
/// they stand in `packets`.
pub open spec fn at_offset(packets: Seq<PacketView>, offset: u32) -> Seq<PacketView>
    decreases packets.len(),
{
    if packets.len() == 0 {
        Seq::empty()
    } else if packets.last().offset == offset {
        at_offset(packets.drop_last(), offset).push(packets.last())
    } else {
        at_offset(packets.drop_last(), offset)
    }
}

/// No fragment stands behind one with a greater offset.
pub open spec fn ascending(packets: Seq<PacketView>) -> bool {
    forall|i: int, j: int|
        0 <= i <= j < packets.len() ==> packets[i].offset <= packets[j].offset
}

/// No two fragments start at the same offset.
pub open spec fn distinct_offsets(packets: Seq<PacketView>) -> bool {
    forall|i: int, j: int|
        0 <= i < j < packets.len() ==> packets[i].offset != packets[j].offset
}

/// `run` holds the fragments of `given` by ascending offset, and fragments
/// with the same offset in the order that they have in `given`.
pub open spec fn stable_sort_of(run: Seq<PacketView>, given: Seq<PacketView>) -> bool {
    &&& ascending(run)
    &&& forall|offset: u32| #[trigger] at_offset(run, offset) == at_offset(given, offset)
}

/// The number of fragments at the front of `run` behind which a fragment
/// that starts at `offset` belongs: in an ascending run, the number of its
/// fragments that do not start later.
pub open spec fn rank(run: Seq<PacketView>, offset: u32) -> int
    decreases run.len(),
{
    if run.len() == 0 || run.last().offset <= offset {
        run.len() as int
    } else {
        rank(run.drop_last(), offset)
    }
}

/// The fragments of `given` by ascending offset, those with the same offset
/// in the order that they have in `given`.
pub open spec fn sorted(given: Seq<PacketView>) -> Seq<PacketView>
    decreases given.len(),
{
    if given.len() == 0 {
        Seq::empty()
    } else {
        let front = sorted(given.drop_last());
        front.insert(rank(front, given.last().offset), given.last())
    }
}

/// The fragments at an offset in a run are those in its front part followed
/// by those in its back part.
pub proof fn lemma_at_offset_concat(a: Seq<PacketView>, b: Seq<PacketView>, offset: u32)
    ensures
        at_offset(a + b, offset) == at_offset(a, offset) + at_offset(b, offset),
    decreases b.len(),
{
    if b.len() == 0 {
        assert(a + b =~= a);
        assert(at_offset(a, offset) + at_offset(b, offset) =~= at_offset(a, offset));
    } else {
        assert((a + b).drop_last() =~= a + b.drop_last());
        lemma_at_offset_concat(a, b.drop_last(), offset);
        if b.last().offset == offset {
            assert(at_offset(a + b, offset) =~= at_offset(a, offset) + at_offset(b, offset));
        }
    }
}

/// A run without a fragment at `offset` has none to show for it.
pub proof fn lemma_at_offset_absent(packets: Seq<PacketView>, offset: u32)
    requires
        forall|i: int| 0 <= i < packets.len() ==> packets[i].offset != offset,
    ensures
        at_offset(packets, offset) == Seq::<PacketView>::empty(),
    decreases packets.len(),
{
    if packets.len() > 0 {
        lemma_at_offset_absent(packets.drop_last(), offset);
    }
}

/// Every fragment at `offset` in a run is one of the run and starts there.
pub proof fn lemma_at_offset_members(packets: Seq<PacketView>, offset: u32)
    ensures
        forall|i: int|
            0 <= i < at_offset(packets, offset).len() ==> {
                &&& (#[trigger] at_offset(packets, offset)[i]).offset == offset
                &&& packets.contains(at_offset(packets, offset)[i])
            },
    decreases packets.len(),
{
    if packets.len() > 0 {
        let front = packets.drop_last();
        lemma_at_offset_members(front, offset);
        assert forall|i: int| 0 <= i < at_offset(packets, offset).len() implies {
            &&& (#[trigger] at_offset(packets, offset)[i]).offset == offset
            &&& packets.contains(at_offset(packets, offset)[i])
        } by {
            if i < at_offset(front, offset).len() {
                let p = at_offset(front, offset)[i];
                assert(front.contains(p));
                let k = choose|k: int| 0 <= k < front.len() && front[k] == p;
                assert(packets[k] == p);
            } else {
                assert(packets[packets.len() - 1] == packets.last());
            }
        }
    }
}

/// A fragment occurs in a run as often as among the fragments of the run
/// that start at its offset.
pub proof fn lemma_at_offset_count(packets: Seq<PacketView>, p: PacketView)
    ensures
        packets.to_multiset().count(p) == at_offset(packets, p.offset).to_multiset().count(p),
    decreases packets.len(),
{
    broadcast use vstd::seq_lib::group_to_multiset_ensures;

    if packets.len() == 0 {
        assert(packets =~= Seq::empty());
    } else {
        let front = packets.drop_last();
        lemma_at_offset_count(front, p);
        assert(packets =~= front.push(packets.last()));
    }
}

/// The payload lengths of a run add up to those of its front part and those
/// of its back part.
pub proof fn lemma_total_size_concat(a: Seq<PacketView>, b: Seq<PacketView>)
    ensures
        total_size(a + b) == total_size(a) + total_size(b),
    decreases b.len(),
{
    if b.len() == 0 {
        assert(a + b =~= a);
    } else {
        assert((a + b).drop_last() =~= a + b.drop_last());
        lemma_total_size_concat(a, b.drop_last());
    }
}

/// Putting a fragment into a run adds its payload length to the sum.
pub proof fn lemma_total_size_insert(packets: Seq<PacketView>, at: int, p: PacketView)
    requires
        0 <= at <= packets.len(),
    ensures
        total_size(packets.insert(at, p)) == total_size(packets) + p.data_size,
{
    let a = packets.take(at);
    let b = packets.skip(at);
    assert(packets =~= a + b);
    assert(packets.insert(at, p) =~= (a + seq![p]) + b);
    assert(seq![p].drop_last() =~= Seq::<PacketView>::empty());
    assert(total_size(Seq::<PacketView>::empty()) == 0);
    assert(total_size(seq![p]) == p.data_size);
    lemma_total_size_concat(a, b);
    lemma_total_size_concat(a + seq![p], b);
    lemma_total_size_concat(a, seq![p]);
}

/// Putting a fragment into a sorted run behind the fragments that do not
/// start later, and in front of those that do, sorts the run that the
/// fragment was added to.
pub proof fn lemma_insert_sorts(
    run: Seq<PacketView>,
    given: Seq<PacketView>,
    p: PacketView,
    at: int,
)
    requires
        stable_sort_of(run, given),
        0 <= at <= run.len(),
        forall|i: int| 0 <= i < at ==> run[i].offset <= p.offset,
        forall|i: int| at <= i < run.len() ==> run[i].offset > p.offset,
    ensures
        stable_sort_of(run.insert(at, p), given.push(p)),
{
    let front = run.take(at);
    let back = run.skip(at);
    let result = run.insert(at, p);
    assert(result =~= (front + seq![p]) + back);
    assert(run =~= front + back);
    assert(given.push(p).drop_last() =~= given);
    assert forall|offset: u32| #[trigger]
        at_offset(result, offset) == at_offset(given.push(p), offset) by {
        lemma_at_offset_concat(front + seq![p], back, offset);
        lemma_at_offset_concat(front, seq![p], offset);
        lemma_at_offset_concat(front, back, offset);
        assert(at_offset(run, offset) == at_offset(given, offset));
        assert(seq![p].drop_last() =~= Seq::<PacketView>::empty());
        assert(at_offset(Seq::<PacketView>::empty(), offset) =~= Seq::<PacketView>::empty());
        if offset == p.offset {
            lemma_at_offset_absent(back, offset);
            assert(at_offset(seq![p], offset) =~= seq![p]);
            assert(at_offset(result, offset) =~= at_offset(run, offset).push(p));
        } else {
            assert(at_offset(seq![p], offset) =~= Seq::<PacketView>::empty());
            assert(at_offset(result, offset) =~= at_offset(run, offset));
        }
    }
}

/// A sorted run holds each fragment as often as the run that it was sorted
/// from, and is as long.
pub proof fn lemma_stable_sort_permutes(run: Seq<PacketView>, given: Seq<PacketView>)
    requires
        stable_sort_of(run, given),
    ensures
        run.to_multiset() == given.to_multiset(),
        run.len() == given.len(),
{
    broadcast use vstd::seq_lib::group_to_multiset_ensures;

    assert forall|p: PacketView|
        run.to_multiset().count(p) == given.to_multiset().count(p) by {
        lemma_at_offset_count(run, p);
        lemma_at_offset_count(given, p);
        assert(at_offset(run, p.offset) == at_offset(given, p.offset));
    }
    assert(run.to_multiset() =~= given.to_multiset());
    assert(run.len() == run.to_multiset().len());
    assert(given.len() == given.to_multiset().len());
}

/// An ascending run still ascends without its last fragment.
pub proof fn lemma_ascending_front(run: Seq<PacketView>)
    requires
        ascending(run),
        run.len() > 0,
    ensures
        ascending(run.drop_last()),
{
    let front = run.drop_last();
    assert forall|i: int, j: int| 0 <= i <= j < front.len() implies front[i].offset
        <= front[j].offset by {
        assert(run[i].offset <= run[j].offset);
    }
}

/// In an ascending run the fragments in front of the rank of an offset do
/// not start later than it, and the others do.
pub proof fn lemma_rank_splits(run: Seq<PacketView>, offset: u32)
    requires
        ascending(run),
    ensures
        0 <= rank(run, offset) <= run.len(),
        forall|i: int| 0 <= i < rank(run, offset) ==> run[i].offset <= offset,
        forall|i: int| rank(run, offset) <= i < run.len() ==> run[i].offset > offset,
    decreases run.len(),
{
    if run.len() == 0 {
    } else if run.last().offset <= offset {
        assert forall|i: int| 0 <= i < run.len() implies run[i].offset <= offset by {
            assert(run[i].offset <= run[run.len() - 1].offset);
        }
    } else {
        let front = run.drop_last();
        lemma_ascending_front(run);
        lemma_rank_splits(front, offset);
        assert forall|i: int| 0 <= i < rank(run, offset) implies run[i].offset <= offset by {
            assert(front[i].offset <= offset);
        }
        assert forall|i: int| rank(run, offset) <= i < run.len() implies run[i].offset
            > offset by {
            if i < front.len() {
                assert(front[i].offset > offset);
            }
        }
    }
}

/// `sorted` sorts.
pub proof fn lemma_sorted_sorts(given: Seq<PacketView>)
    ensures
        stable_sort_of(sorted(given), given),
    decreases given.len(),
{
    if given.len() == 0 {
    } else {
        let front = sorted(given.drop_last());
        let p = given.last();
        lemma_sorted_sorts(given.drop_last());
        lemma_rank_splits(front, p.offset);
        lemma_insert_sorts(front, given.drop_last(), p, rank(front, p.offset));
        assert(given.drop_last().push(p) =~= given);
    }
}

/// Two ascending runs that hold the same fragments at each offset, in the
/// same order, end with the same fragment.
proof fn lemma_same_last(a: Seq<PacketView>, b: Seq<PacketView>)
    requires
        ascending(a),
        ascending(b),
        forall|offset: u32| #[trigger] at_offset(a, offset) == at_offset(b, offset),
        a.len() > 0,
    ensures
        b.len() > 0,
        a.last() == b.last(),
{
    let x = a.last();
    assert(at_offset(a, x.offset) == at_offset(b, x.offset));
    assert(at_offset(a, x.offset).last() == x);
    assert(b.len() > 0) by {
        if b.len() == 0 {
            assert(at_offset(b, x.offset).len() == 0);
        }
    }
    let y = b.last();
    assert(at_offset(a, y.offset) == at_offset(b, y.offset));
    assert(at_offset(b, y.offset).last() == y);
    lemma_at_offset_members(b, x.offset);
    lemma_at_offset_members(a, y.offset);
    let xi = at_offset(b, x.offset).len() - 1;
    assert(b.contains(at_offset(b, x.offset)[xi]));
    let bx = choose|k: int| 0 <= k < b.len() && b[k] == x;
    assert(b[bx].offset <= b[b.len() - 1].offset);
    let yi = at_offset(a, y.offset).len() - 1;
    assert(a.contains(at_offset(a, y.offset)[yi]));
    let ay = choose|k: int| 0 <= k < a.len() && a[k] == y;
    assert(a[ay].offset <= a[a.len() - 1].offset);
    assert(x.offset == y.offset);
}

/// Two ascending runs that hold the same fragments at each offset, in the
/// same order, are one and the same run.
pub proof fn lemma_ascending_unique(a: Seq<PacketView>, b: Seq<PacketView>)
    requires
        ascending(a),
        ascending(b),
        forall|offset: u32| #[trigger] at_offset(a, offset) == at_offset(b, offset),
    ensures
        a == b,
    decreases a.len(),
{
    if a.len() == 0 {
        if b.len() > 0 {
            let y = b.last();
            assert(at_offset(a, y.offset) == at_offset(b, y.offset));
            assert(at_offset(b, y.offset).last() == y);
        }
        assert(a =~= b);
    } else {
        lemma_same_last(a, b);
        let x = a.last();
        let a0 = a.drop_last();
        let b0 = b.drop_last();
        lemma_ascending_front(a);
        lemma_ascending_front(b);
        assert forall|offset: u32| #[trigger]
            at_offset(a0, offset) == at_offset(b0, offset) by {
            assert(at_offset(a, offset) == at_offset(b, offset));
            if offset == x.offset {
                assert(at_offset(a0, offset) =~= at_offset(a, offset).drop_last());
                assert(at_offset(b0, offset) =~= at_offset(b, offset).drop_last());
            }
        }
        lemma_ascending_unique(a0, b0);
        assert(a =~= a0.push(x));
        assert(b =~= b0.push(x));
    }
}

/// Sorting has one result: every run that is a stable sort of `given` is
/// `sorted(given)`.
pub proof fn lemma_stable_sort_unique(run: Seq<PacketView>, given: Seq<PacketView>)
    requires
        stable_sort_of(run, given),
    ensures
        run == sorted(given),
{
    lemma_sorted_sorts(given);
    assert forall|offset: u32| #[trigger]
        at_offset(run, offset) == at_offset(sorted(given), offset) by {
        assert(at_offset(run, offset) == at_offset(given, offset));
        assert(at_offset(sorted(given), offset) == at_offset(given, offset));
    }
    lemma_ascending_unique(run, sorted(given));
}

/// Sorting leaves the sum of the payload lengths as it was.
pub proof fn lemma_sorted_keeps_total_size(given: Seq<PacketView>)
    ensures
        total_size(sorted(given)) == total_size(given),
    decreases given.len(),
{
    if given.len() > 0 {
        let front = sorted(given.drop_last());
        lemma_sorted_keeps_total_size(given.drop_last());
        lemma_sorted_sorts(given.drop_last());
        lemma_rank_splits(front, given.last().offset);
        lemma_total_size_insert(front, rank(front, given.last().offset), given.last());
    }
}

/// Sorting neither adds nor drops a fragment.
pub proof fn lemma_sorted_keeps_members(given: Seq<PacketView>)
    ensures
        sorted(given).len() == given.len(),
        sorted(given).to_multiset() == given.to_multiset(),
        forall|p: PacketView| sorted(given).contains(p) <==> given.contains(p),
{
    broadcast use vstd::seq_lib::group_to_multiset_ensures;

    lemma_sorted_sorts(given);
    lemma_stable_sort_permutes(sorted(given), given);
    assert forall|p: PacketView| sorted(given).contains(p) <==> given.contains(p) by {
        assert(sorted(given).contains(p) <==> sorted(given).to_multiset().count(p) > 0);
        assert(given.contains(p) <==> given.to_multiset().count(p) > 0);
    }
}

/// In a run in which no two fragments start at the same offset, at most
/// one starts at a given offset.
pub proof fn lemma_at_offset_single(packets: Seq<PacketView>, offset: u32)
    requires
        distinct_offsets(packets),
    ensures
        at_offset(packets, offset).len() <= 1,
    decreases packets.len(),
{
    if packets.len() > 0 {
        let front = packets.drop_last();
        assert(distinct_offsets(front)) by {
            assert forall|i: int, j: int| 0 <= i < j < front.len() implies front[i].offset
                != front[j].offset by {
                assert(packets[i].offset != packets[j].offset);
            }
        }
        lemma_at_offset_single(front, offset);
        if packets.last().offset == offset && at_offset(front, offset).len() > 0 {
            lemma_at_offset_members(front, offset);
            let p = at_offset(front, offset)[0];
            assert(front.contains(p));
            let k = choose|k: int| 0 <= k < front.len() && front[k] == p;
            assert(packets[k].offset != packets[packets.len() - 1].offset);
        }
    }
}

/// Two runs that hold the same fragments, each as often as the other, hold
/// the same fragment at each offset, if no two fragments of the one start
/// at the same offset.
proof fn lemma_same_at_offset(a: Seq<PacketView>, b: Seq<PacketView>, offset: u32)
    requires
        a.to_multiset() == b.to_multiset(),
        distinct_offsets(a),
    ensures
        at_offset(a, offset) == at_offset(b, offset),
{
    broadcast use vstd::seq_lib::group_to_multiset_ensures;

    let at_a = at_offset(a, offset);
    let at_b = at_offset(b, offset);
    lemma_at_offset_members(a, offset);
    lemma_at_offset_members(b, offset);
    assert forall|p: PacketView| at_a.to_multiset().count(p) == at_b.to_multiset().count(p) by {
        if p.offset == offset {
            lemma_at_offset_count(a, p);
            lemma_at_offset_count(b, p);
        } else {
            if at_a.contains(p) {
                let k = choose|k: int| 0 <= k < at_a.len() && at_a[k] == p;
                assert(at_a[k].offset == offset);
            }
            if at_b.contains(p) {
                let k = choose|k: int| 0 <= k < at_b.len() && at_b[k] == p;
                assert(at_b[k].offset == offset);
            }
            assert(at_a.contains(p) <==> at_a.to_multiset().count(p) > 0);
            assert(at_b.contains(p) <==> at_b.to_multiset().count(p) > 0);
        }
    }
    assert(at_a.to_multiset() =~= at_b.to_multiset());
    assert(at_a.len() == at_a.to_multiset().len());
    assert(at_b.len() == at_b.to_multiset().len());
    lemma_at_offset_single(a, offset);
    if at_a.len() == 1 {
        assert(at_a.contains(at_a[0]));
        assert(at_a.to_multiset().count(at_a[0]) > 0);
        assert(at_b.contains(at_a[0]));
    }
    assert(at_a =~= at_b);
}

/// The order in which fragments arrive makes no difference to the sorted
/// run, as long as no two of them start at the same offset.
pub proof fn lemma_sorted_any_order(a: Seq<PacketView>, b: Seq<PacketView>)
    requires
        a.to_multiset() == b.to_multiset(),
        distinct_offsets(a),
    ensures
        sorted(a) == sorted(b),
{
    lemma_sorted_sorts(a);
    assert forall|offset: u32| #[trigger]
        at_offset(sorted(a), offset) == at_offset(b, offset) by {
        lemma_same_at_offset(a, b, offset);
        assert(at_offset(sorted(a), offset) == at_offset(a, offset));
    }
    lemma_stable_sort_unique(sorted(a), b);
}

} // verus!
