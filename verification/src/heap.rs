//! A binary min-heap of `(weight, id)` entries kept in a vector, ordered by
//! weight alone. Its sift steps are those of `std::collections::BinaryHeap`
//! holding `Reverse`d weights, so entries of equal weight leave it in the
//! same order as they would leave that heap.
use vstd::prelude::*;

verus! {

/// A heap entry: a weight and the id of what it weighs.
pub type Entry = (u64, usize);

/// Exchanges two entries.
pub open spec fn swap(h: Seq<Entry>, i: int, j: int) -> Seq<Entry> {
    h.update(i, h[j]).update(j, h[i])
}

/// Moves the entry at `pos` up while its parent weighs more.
pub open spec fn sift_up(h: Seq<Entry>, pos: nat) -> Seq<Entry>
    decreases pos,
{
    if pos == 0 || pos >= h.len() {
        h
    } else {
        let parent = ((pos - 1) / 2) as nat;
        if h[parent as int].0 <= h[pos as int].0 {
            h
        } else {
            sift_up(swap(h, pos as int, parent as int), parent)
        }
    }
}

/// Moves the entry at `pos` down to a leaf, always to the lighter child (the
/// right one when both weigh the same); gives the result and where the
/// entry ended.
pub open spec fn sift_down_to_bottom(h: Seq<Entry>, pos: nat) -> (Seq<Entry>, nat)
    decreases h.len() - pos,
{
    let end = h.len();
    let child = 2 * pos + 1;
    if end >= 2 && child <= end - 2 {
        let c = if h[(child + 1) as int].0 <= h[child as int].0 { child + 1 } else { child };
        sift_down_to_bottom(swap(h, pos as int, c as int), c)
    } else if end >= 1 && child == end - 1 {
        (swap(h, pos as int, child as int), child)
    } else {
        (h, pos)
    }
}

/// The heap after adding `e`.
pub open spec fn push(h: Seq<Entry>, e: Entry) -> Seq<Entry> {
    sift_up(h.push(e), h.len())
}

/// The top entry of a nonempty heap and the heap without it: the last entry
/// takes the top's place, sinks to a leaf and rises again.
pub open spec fn pop(h: Seq<Entry>) -> (Entry, Seq<Entry>)
    recommends
        h.len() > 0,
{
    let last = h.last();
    let rest = h.drop_last();
    if rest.len() == 0 {
        (last, rest)
    } else {
        let top = rest[0];
        let (sunk, p) = sift_down_to_bottom(rest.update(0, last), 0);
        (top, sift_up(sunk, p))
    }
}

proof fn lemma_swap(h: Seq<Entry>, i: int, j: int)
    requires
        0 <= i < h.len(),
        0 <= j < h.len(),
    ensures
        swap(h, i, j).len() == h.len(),
        swap(h, i, j).to_multiset() == h.to_multiset(),
{
    broadcast use vstd::seq_lib::to_multiset_update, vstd::multiset::group_multiset_properties;
    vstd::seq_lib::to_multiset_contains(h, h[i]);
    vstd::seq_lib::to_multiset_contains(h, h[j]);
    let m = h.to_multiset();
    let h1 = h.update(i, h[j]);
    assert(h1.to_multiset() == h.to_multiset().insert(h[j]).remove(h[i]));
    assert(h1[j] == if i == j { h[j] } else { h[j] });
    assert(swap(h, i, j).to_multiset() == h1.to_multiset().insert(h[i]).remove(h1[j]));
    assert forall|x: Entry| #[trigger] swap(h, i, j).to_multiset().count(x) == m.count(x) by {
        assert(m.count(h[i]) >= 1);
        assert(m.count(h[j]) >= 1);
    }
    assert(swap(h, i, j).to_multiset() =~= h.to_multiset());
}

/// Sifting up only moves entries around.
pub proof fn lemma_sift_up(h: Seq<Entry>, pos: nat)
    ensures
        sift_up(h, pos).len() == h.len(),
        sift_up(h, pos).to_multiset() == h.to_multiset(),
    decreases pos,
{
    if pos != 0 && pos < h.len() {
        let parent = ((pos - 1) / 2) as nat;
        if h[parent as int].0 > h[pos as int].0 {
            lemma_swap(h, pos as int, parent as int);
            lemma_sift_up(swap(h, pos as int, parent as int), parent);
        }
    }
}

/// Sinking only moves entries around, and ends inside the heap.
pub proof fn lemma_sift_down_to_bottom(h: Seq<Entry>, pos: nat)
    requires
        pos < h.len(),
    ensures
        sift_down_to_bottom(h, pos).0.len() == h.len(),
        sift_down_to_bottom(h, pos).0.to_multiset() == h.to_multiset(),
        sift_down_to_bottom(h, pos).1 < h.len(),
    decreases h.len() - pos,
{
    let end = h.len();
    let child = 2 * pos + 1;
    if end >= 2 && child <= end - 2 {
        let c = if h[(child + 1) as int].0 <= h[child as int].0 { child + 1 } else { child };
        lemma_swap(h, pos as int, c as int);
        lemma_sift_down_to_bottom(swap(h, pos as int, c as int), c);
    } else if end >= 1 && child == end - 1 {
        lemma_swap(h, pos as int, child as int);
    }
}

/// Pushing adds the entry.
pub proof fn lemma_push(h: Seq<Entry>, e: Entry)
    ensures
        push(h, e).len() == h.len() + 1,
        push(h, e).to_multiset() == h.to_multiset().insert(e),
{
    broadcast use vstd::seq_lib::to_multiset_build;
    lemma_sift_up(h.push(e), h.len());
}

/// Popping takes out the top entry, which was in the heap.
pub proof fn lemma_pop(h: Seq<Entry>)
    requires
        h.len() > 0,
    ensures
        pop(h).1.len() == h.len() - 1,
        pop(h).1.to_multiset().insert(pop(h).0) == h.to_multiset(),
        h.to_multiset().contains(pop(h).0),
{
    broadcast use vstd::seq_lib::to_multiset_build, vstd::seq_lib::to_multiset_update,
        vstd::multiset::group_multiset_properties;
    let last = h.last();
    let rest = h.drop_last();
    assert(h =~= rest.push(last));
    if rest.len() != 0 {
        let top = rest[0];
        let r2 = rest.update(0, last);
        lemma_sift_down_to_bottom(r2, 0);
        let (sunk, p) = sift_down_to_bottom(r2, 0);
        lemma_sift_up(sunk, p);
        assert(r2.to_multiset() == rest.to_multiset().insert(last).remove(top));
        assert(rest.to_multiset().contains(top)) by {
            assert(rest[0] == top);
            vstd::seq_lib::to_multiset_contains(rest, top);
        }
        assert(pop(h).1.to_multiset().insert(top) =~= h.to_multiset());
    }
    assert(pop(h).1.to_multiset().insert(pop(h).0) =~= h.to_multiset());
}

/// Each entry weighs no less than its parent: the lightest sits on top.
pub open spec fn heap_ordered(h: Seq<Entry>) -> bool {
    forall|i: int| 0 < i < h.len() ==> h[(i - 1) / 2].0 <= #[trigger] h[i].0
}

/// Ordered but at `pos`, which may weigh less than its parent.
spec fn ordered_except(h: Seq<Entry>, pos: int) -> bool {
    forall|i: int| 0 < i < h.len() && i != pos ==> h[(i - 1) / 2].0 <= #[trigger] h[i].0
}

/// Ordered but around `pos`, whose entry may weigh anything.
spec fn ordered_around(h: Seq<Entry>, pos: int) -> bool {
    forall|i: int| 0 < i < h.len() && i != pos && (i - 1) / 2 != pos ==> h[(i - 1) / 2].0 <= #[trigger] h[i].0
}

/// The parent of `pos` weighs no more than the children of `pos`.
spec fn parent_below_children(h: Seq<Entry>, pos: int) -> bool {
    pos > 0 ==> forall|c: int| 0 < c < h.len() && (c - 1) / 2 == pos ==> h[(pos - 1) / 2].0 <= #[trigger] h[c].0
}

proof fn lemma_sift_up_ordered(h: Seq<Entry>, pos: nat)
    requires
        pos < h.len(),
        ordered_except(h, pos as int),
        parent_below_children(h, pos as int),
    ensures
        heap_ordered(sift_up(h, pos)),
    decreases pos,
{
    if pos > 0 {
        let p = ((pos - 1) / 2) as nat;
        if h[p as int].0 > h[pos as int].0 {
            let h2 = swap(h, pos as int, p as int);
            assert forall|i: int| 0 < i < h2.len() && i != p implies h2[(i - 1) / 2].0 <= #[trigger] h2[i].0 by {
                if i == pos as int {
                } else if (i - 1) / 2 == p as int {
                    assert(h[(i - 1) / 2].0 <= h[i].0);
                } else if (i - 1) / 2 == pos as int {
                    assert(h[(pos - 1) / 2].0 <= h[i].0);
                } else {
                    assert(h[(i - 1) / 2].0 <= h[i].0);
                }
            }
            if p > 0 {
                assert forall|c: int| 0 < c < h2.len() && (c - 1) / 2 == p as int implies h2[(p - 1) / 2].0 <= #[trigger] h2[c].0 by {
                    assert(h[(p - 1) / 2].0 <= h[p as int].0);
                    if c != pos as int {
                        assert(h[(c - 1) / 2].0 <= h[c].0);
                    }
                }
            }
            lemma_sift_up_ordered(h2, p);
        }
    }
}

proof fn lemma_sift_down_ordered(h: Seq<Entry>, pos: nat)
    requires
        pos < h.len(),
        ordered_around(h, pos as int),
        parent_below_children(h, pos as int),
    ensures
        sift_down_to_bottom(h, pos).1 < h.len(),
        ordered_except(sift_down_to_bottom(h, pos).0, sift_down_to_bottom(h, pos).1 as int),
        parent_below_children(sift_down_to_bottom(h, pos).0, sift_down_to_bottom(h, pos).1 as int),
    decreases h.len() - pos,
{
    let end = h.len();
    let child = 2 * pos + 1;
    if (end >= 2 && child <= end - 2) || (end >= 1 && child == end - 1) {
        let c: nat = if end >= 2 && child <= end - 2 && h[(child + 1) as int].0 <= h[child as int].0 {
            child + 1
        } else {
            child
        };
        let h2 = swap(h, pos as int, c as int);
        assert((c - 1) / 2 == pos);
        assert forall|i: int| 0 < i < h2.len() && i != c && (i - 1) / 2 != c implies h2[(i - 1) / 2].0 <= #[trigger] h2[i].0 by {
            if i == pos as int {
                assert(h[(pos - 1) / 2].0 <= h[c as int].0);
            } else if (i - 1) / 2 == pos as int {
                assert(i == child || i == child + 1);
            } else {
                assert(h[(i - 1) / 2].0 <= h[i].0);
            }
        }
        assert forall|k: int| 0 < k < h2.len() && (k - 1) / 2 == c as int implies h2[(c - 1) / 2].0 <= #[trigger] h2[k].0 by {
            assert(h[(k - 1) / 2].0 <= h[k].0);
        }
        if end >= 2 && child <= end - 2 {
            lemma_sift_down_ordered(h2, c);
        } else {
            assert forall|i: int| 0 < i < h2.len() && i != c implies h2[(i - 1) / 2].0 <= #[trigger] h2[i].0 by {
                assert((i - 1) / 2 != c as int);
            }
        }
    } else {
        assert forall|i: int| 0 < i < h.len() && i != pos implies h[(i - 1) / 2].0 <= #[trigger] h[i].0 by {
            assert((i - 1) / 2 != pos as int);
        }
    }
}

/// The top of an ordered heap weighs no more than any entry.
proof fn lemma_top_lightest(h: Seq<Entry>, i: int)
    requires
        heap_ordered(h),
        0 <= i < h.len(),
    ensures
        h[0].0 <= h[i].0,
    decreases i,
{
    if i > 0 {
        lemma_top_lightest(h, (i - 1) / 2);
    }
}

/// Pushing onto an ordered heap keeps it ordered.
pub proof fn lemma_push_ordered(h: Seq<Entry>, e: Entry)
    requires
        heap_ordered(h),
    ensures
        heap_ordered(push(h, e)),
{
    let h2 = h.push(e);
    let n = h.len() as int;
    assert forall|i: int| 0 < i < h2.len() && i != n implies h2[(i - 1) / 2].0 <= #[trigger] h2[i].0 by {
        assert(h[(i - 1) / 2].0 <= h[i].0);
    }
    lemma_sift_up_ordered(h2, h.len());
}

/// Popping an ordered heap gives one of its lightest entries and leaves the
/// rest ordered.
pub proof fn lemma_pop_ordered(h: Seq<Entry>)
    requires
        heap_ordered(h),
        h.len() > 0,
    ensures
        pop(h).0 == h[0],
        forall|i: int| 0 <= i < h.len() ==> pop(h).0.0 <= #[trigger] h[i].0,
        heap_ordered(pop(h).1),
{
    assert forall|i: int| 0 <= i < h.len() implies pop(h).0.0 <= #[trigger] h[i].0 by {
        lemma_top_lightest(h, i);
    }
    let last = h.last();
    let rest = h.drop_last();
    if rest.len() > 0 {
        let r2 = rest.update(0, last);
        assert forall|i: int| 0 < i < r2.len() && i != 0 && (i - 1) / 2 != 0 implies r2[(i - 1) / 2].0 <= #[trigger] r2[i].0 by {
            assert(h[(i - 1) / 2].0 <= h[i].0);
        }
        lemma_sift_down_ordered(r2, 0);
        let (sunk, p) = sift_down_to_bottom(r2, 0);
        lemma_sift_down_to_bottom(r2, 0);
        lemma_sift_up_ordered(sunk, p);
    }
}

fn swap_entries(h: &mut Vec<Entry>, i: usize, j: usize)
    requires
        i < old(h).len(),
        j < old(h).len(),
    ensures
        final(h)@ == swap(old(h)@, i as int, j as int),
{
    let a = h[i];
    let b = h[j];
    h.set(i, b);
    h.set(j, a);
}

fn sift_up_in_place(h: &mut Vec<Entry>, pos: usize)
    requires
        pos < old(h).len(),
    ensures
        final(h)@ == sift_up(old(h)@, pos as nat),
{
    let ghost target = sift_up(old(h)@, pos as nat);
    let mut pos = pos;
    while pos > 0
        invariant
            pos < h.len(),
            sift_up(h@, pos as nat) == target,
        ensures
            h@ == target,
        decreases pos,
    {
        let parent = (pos - 1) / 2;
        if h[parent].0 <= h[pos].0 {
            break;
        }
        swap_entries(h, pos, parent);
        pos = parent;
    }
}

fn sift_down_to_bottom_in_place(h: &mut Vec<Entry>) -> (p: usize)
    requires
        0 < old(h).len() <= usize::MAX / 2,
    ensures
        (final(h)@, p as nat) == sift_down_to_bottom(old(h)@, 0),
{
    let ghost target = sift_down_to_bottom(old(h)@, 0);
    let end = h.len();
    let mut pos: usize = 0;
    let mut child: usize = 1;
    let limit: usize = if end >= 2 { end - 2 } else { 0 };
    while end >= 2 && child <= limit
        invariant
            end == h.len(),
            end >= 1,
            end <= usize::MAX / 2,
            limit == if end >= 2 { end - 2 } else { 0 },
            pos < end,
            child == 2 * pos + 1,
            sift_down_to_bottom(h@, pos as nat) == target,
        decreases end - pos,
    {
        if h[child + 1].0 <= h[child].0 {
            child = child + 1;
        }
        swap_entries(h, pos, child);
        pos = child;
        child = 2 * pos + 1;
    }
    if child == end - 1 {
        swap_entries(h, pos, child);
        pos = child;
    }
    pos
}

/// Adds an entry to a heap.
pub fn heap_push(h: &mut Vec<Entry>, e: Entry)
    ensures
        final(h)@ == push(old(h)@, e),
{
    let old_len = h.len();
    h.push(e);
    sift_up_in_place(h, old_len);
}

/// Takes the top entry out of a heap; `None` when it is empty. (The bound
/// on the length always holds: a vector of 16-byte entries is shorter.)
pub fn heap_pop(h: &mut Vec<Entry>) -> (r: Option<Entry>)
    requires
        old(h).len() <= usize::MAX / 2 + 1,
    ensures
        old(h).len() == 0 ==> r is None && final(h)@ == old(h)@,
        old(h).len() > 0 ==> r == Some(pop(old(h)@).0) && final(h)@ == pop(old(h)@).1,
{
    match h.pop() {
        None => None,
        Some(last) => {
            if h.len() == 0 {
                Some(last)
            } else {
                let top = h[0];
                h.set(0, last);
                let ghost sunk_from = h@;
                let p = sift_down_to_bottom_in_place(h);
                proof {
                    lemma_sift_down_to_bottom(sunk_from, 0);
                }
                sift_up_in_place(h, p);
                Some(top)
            }
        },
    }
}

} // verus!
