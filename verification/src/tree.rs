//! The array of a binary heap, read as a tree.
//!
//! The element at position `i` has its children at `2i + 1` and `2i + 2` and
//! its parent at `(i - 1) / 2`. This module says, on sequences, what the heap
//! operations compute and proves what they preserve; the queue's executable
//! methods are specified by the functions defined here.
use vstd::prelude::*;
use vstd::seq_lib::{to_multiset_build, to_multiset_insert, to_multiset_remove, to_multiset_update};
use crate::order::{
    lemma_not_less_chains, lemma_reversed_is_strict_weak_order, reversed, strict_weak_order,
};

verus! {

/// Position of the parent of position `i`, for `i > 0`.
pub open spec fn parent(i: int) -> int {
    (i - 1) / 2
}

/// Position of the left child of position `i`.
pub open spec fn left(i: int) -> int {
    2 * i + 1
}

/// Position of the right child of position `i`.
pub open spec fn right(i: int) -> int {
    2 * i + 2
}

/// The sequence with the elements at `i` and `j` exchanged.
pub open spec fn exchanged<T>(s: Seq<T>, i: int, j: int) -> Seq<T> {
    s.update(i, s[j]).update(j, s[i])
}

/// Every pair of a child and its parent whose parent sits at `from` or later
/// is in order: the child is not less than the parent.
pub open spec fn is_heap_from<T>(s: Seq<T>, from: int, lt: spec_fn(T, T) -> bool) -> bool {
    forall|i: int| 0 < i < s.len() && from <= parent(i) ==> !lt(s[i], s[#[trigger] parent(i)])
}

/// The heap invariant: no element is less than its parent.
pub open spec fn is_heap<T>(s: Seq<T>, lt: spec_fn(T, T) -> bool) -> bool {
    forall|i: int| 0 < i < s.len() ==> !lt(s[i], s[#[trigger] parent(i)])
}

/// No element of the sequence is less than one that stands before it.
pub open spec fn ascending<T>(s: Seq<T>, lt: spec_fn(T, T) -> bool) -> bool {
    forall|i: int, j: int| 0 <= i <= j < s.len() ==> !lt(#[trigger] s[j], #[trigger] s[i])
}

/// No element of the sequence is less than one that stands after it.
pub open spec fn descending<T>(s: Seq<T>, lt: spec_fn(T, T) -> bool) -> bool {
    forall|i: int, j: int| 0 <= i <= j < s.len() ==> !lt(#[trigger] s[i], #[trigger] s[j])
}

/// Whether the element at `i` has a child that is less than it.
pub open spec fn has_lesser_child<T>(s: Seq<T>, i: int, lt: spec_fn(T, T) -> bool) -> bool {
    &&& 0 <= i
    &&& left(i) < s.len()
    &&& (lt(s[left(i)], s[i]) || (right(i) < s.len() && lt(s[right(i)], s[i])))
}

/// The child that moves up when the element at `i` sinks: the left one if it
/// is the only child or is less than the right one, else the right one.
pub open spec fn lesser_child<T>(s: Seq<T>, i: int, lt: spec_fn(T, T) -> bool) -> int {
    if right(i) < s.len() && !lt(s[left(i)], s[right(i)]) {
        right(i)
    } else {
        left(i)
    }
}

/// Sift-down: the element at `i` sinks, changing places with its lesser
/// child, for as long as one of its children is less than it.
pub open spec fn sifted_down<T>(s: Seq<T>, i: int, lt: spec_fn(T, T) -> bool) -> Seq<T>
    decreases s.len() - i,
{
    if has_lesser_child(s, i, lt) {
        let child = lesser_child(s, i, lt);
        sifted_down(exchanged(s, i, child), child, lt)
    } else {
        s
    }
}

/// Sift-up: the element at `i` rises, changing places with its parent, for as
/// long as it is not at the root and is less than its parent.
pub open spec fn sifted_up<T>(s: Seq<T>, i: int, lt: spec_fn(T, T) -> bool) -> Seq<T>
    decreases i,
{
    if 0 < i < s.len() && lt(s[i], s[parent(i)]) {
        sifted_up(exchanged(s, i, parent(i)), parent(i), lt)
    } else {
        s
    }
}

/// The positions `count - 1`, ..., `1`, `0` sifted down, in that order.
pub open spec fn heapified_below<T>(s: Seq<T>, count: int, lt: spec_fn(T, T) -> bool) -> Seq<T>
    decreases count,
{
    if count <= 0 {
        s
    } else {
        heapified_below(sifted_down(s, count - 1, lt), count - 1, lt)
    }
}

/// Heapify: every position that has a child sifted down, from the last such
/// position back to the root.
pub open spec fn heapified<T>(s: Seq<T>, lt: spec_fn(T, T) -> bool) -> Seq<T> {
    heapified_below(s, s.len() as int / 2, lt)
}

/// The sequence with `element` added: appended, then sifted up.
pub open spec fn with_element<T>(s: Seq<T>, element: T, lt: spec_fn(T, T) -> bool) -> Seq<T> {
    sifted_up(s.push(element), s.len() as int, lt)
}

/// What is left when the front is taken from a non-empty sequence: the last
/// element takes the root's place and is sifted down.
pub open spec fn without_front<T>(s: Seq<T>, lt: spec_fn(T, T) -> bool) -> Seq<T> {
    sifted_down(exchanged(s, 0, s.len() - 1).drop_last(), 0, lt)
}

/// Exchanging two elements keeps the length and the elements.
pub proof fn lemma_exchanged_permutes<T>(s: Seq<T>, i: int, j: int)
    requires
        0 <= i < s.len(),
        0 <= j < s.len(),
    ensures
        exchanged(s, i, j).len() == s.len(),
        exchanged(s, i, j).to_multiset() == s.to_multiset(),
{
    let once = s.update(i, s[j]);
    to_multiset_update(s, i, s[j]);
    to_multiset_update(once, j, s[i]);
    s.to_multiset_ensures();
    assert(s.contains(s[i]) && s.contains(s[j]));
    assert(exchanged(s, i, j).to_multiset() =~= s.to_multiset());
}

/// Sift-down keeps the length and the elements, whatever the relation.
pub proof fn lemma_sifted_down_permutes<T>(s: Seq<T>, i: int, lt: spec_fn(T, T) -> bool)
    ensures
        sifted_down(s, i, lt).len() == s.len(),
        sifted_down(s, i, lt).to_multiset() == s.to_multiset(),
    decreases s.len() - i,
{
    if has_lesser_child(s, i, lt) {
        let child = lesser_child(s, i, lt);
        lemma_exchanged_permutes(s, i, child);
        lemma_sifted_down_permutes(exchanged(s, i, child), child, lt);
    }
}

/// Sift-up keeps the length and the elements, whatever the relation.
pub proof fn lemma_sifted_up_permutes<T>(s: Seq<T>, i: int, lt: spec_fn(T, T) -> bool)
    ensures
        sifted_up(s, i, lt).len() == s.len(),
        sifted_up(s, i, lt).to_multiset() == s.to_multiset(),
    decreases i,
{
    if 0 < i < s.len() && lt(s[i], s[parent(i)]) {
        lemma_exchanged_permutes(s, i, parent(i));
        lemma_sifted_up_permutes(exchanged(s, i, parent(i)), parent(i), lt);
    }
}

/// Sifting down a run of positions keeps the length and the elements.
pub proof fn lemma_heapified_below_permutes<T>(s: Seq<T>, count: int, lt: spec_fn(T, T) -> bool)
    ensures
        heapified_below(s, count, lt).len() == s.len(),
        heapified_below(s, count, lt).to_multiset() == s.to_multiset(),
    decreases count,
{
    if count > 0 {
        lemma_sifted_down_permutes(s, count - 1, lt);
        lemma_heapified_below_permutes(sifted_down(s, count - 1, lt), count - 1, lt);
    }
}

/// Adding an element makes the sequence one longer and adds that element to
/// its contents, whatever the relation.
pub proof fn lemma_with_element_permutes<T>(s: Seq<T>, element: T, lt: spec_fn(T, T) -> bool)
    ensures
        with_element(s, element, lt).len() == s.len() + 1,
        with_element(s, element, lt).to_multiset() == s.to_multiset().insert(element),
{
    to_multiset_build(s, element);
    lemma_sifted_up_permutes(s.push(element), s.len() as int, lt);
}

/// Taking the front makes a non-empty sequence one shorter and takes one
/// occurrence of its first element out of its contents, whatever the
/// relation.
pub proof fn lemma_without_front_permutes<T>(s: Seq<T>, lt: spec_fn(T, T) -> bool)
    requires
        s.len() > 0,
    ensures
        without_front(s, lt).len() == s.len() - 1,
        without_front(s, lt).to_multiset() == s.to_multiset().remove(s[0]),
{
    let last = s.len() - 1;
    let turned = exchanged(s, 0, last);
    lemma_exchanged_permutes(s, 0, last);
    to_multiset_remove(turned, last);
    assert(turned.drop_last() =~= turned.remove(last));
    lemma_sifted_down_permutes(turned.drop_last(), 0, lt);
}

/// The state in the middle of a sift-down that started at `from` and has
/// reached `hole`: pairs whose parent sits at `from` or later are in order,
/// but for those under `hole`; and the children of `hole` are not less than
/// the parent of `hole`, so either may take its place.
spec fn is_heap_from_but_under<T>(
    s: Seq<T>,
    from: int,
    hole: int,
    lt: spec_fn(T, T) -> bool,
) -> bool {
    &&& forall|i: int|
        0 < i < s.len() && from <= parent(i) && parent(i) != hole ==> !lt(
            s[i],
            s[#[trigger] parent(i)],
        )
    &&& 0 < hole && from <= parent(hole) ==> forall|i: int|
        0 < i < s.len() && #[trigger] parent(i) == hole ==> !lt(s[i], s[parent(hole)])
}

/// The state in the middle of a sift-up that has reached `hole`: every pair
/// is in order but the one of `hole` and its parent; and the children of
/// `hole` are not less than the parent of `hole`, which may take its place.
spec fn is_heap_but_at<T>(s: Seq<T>, hole: int, lt: spec_fn(T, T) -> bool) -> bool {
    &&& forall|i: int| 0 < i < s.len() && i != hole ==> !lt(s[i], s[#[trigger] parent(i)])
    &&& 0 < hole ==> forall|i: int|
        0 < i < s.len() && #[trigger] parent(i) == hole ==> !lt(s[i], s[parent(hole)])
}

/// In a strict weak ordering, the child that sift-down picks is less than
/// the element that sinks, and its sibling is not less than it.
proof fn lemma_lesser_child_is_least<T>(s: Seq<T>, i: int, lt: spec_fn(T, T) -> bool)
    requires
        strict_weak_order(lt),
        has_lesser_child(s, i, lt),
    ensures
        lt(s[lesser_child(s, i, lt)], s[i]),
        !lt(s[left(i)], s[lesser_child(s, i, lt)]),
        right(i) < s.len() ==> !lt(s[right(i)], s[lesser_child(s, i, lt)]),
{
    let l = s[left(i)];
    let top = s[i];
    assert(!lt(l, l));
    if right(i) < s.len() {
        let r = s[right(i)];
        assert(!lt(r, r));
        if lt(l, r) {
            assert(lt(l, r) ==> !lt(r, l));
            assert(lt(l, r) && lt(r, top) ==> lt(l, top));
        } else {
            if !lt(r, top) {
                lemma_not_less_chains(lt, l, r, top);
            }
        }
    }
}

/// One step of sift-down carries the state of the sift from `hole` to the
/// child that moved up.
proof fn lemma_sink_step<T>(s: Seq<T>, from: int, hole: int, lt: spec_fn(T, T) -> bool)
    requires
        strict_weak_order(lt),
        0 <= from <= hole,
        is_heap_from_but_under(s, from, hole, lt),
        has_lesser_child(s, hole, lt),
    ensures
        is_heap_from_but_under(
            exchanged(s, hole, lesser_child(s, hole, lt)),
            from,
            lesser_child(s, hole, lt),
            lt,
        ),
{
    let child = lesser_child(s, hole, lt);
    let next = exchanged(s, hole, child);
    lemma_lesser_child_is_least(s, hole, lt);
    assert(lt(s[child], s[hole]) ==> !lt(s[hole], s[child]));
    assert(parent(child) == hole);
    assert forall|i: int|
        0 < i < next.len() && from <= parent(i) && parent(i) != child implies !lt(
        next[i],
        next[#[trigger] parent(i)],
    ) by {
        if parent(i) == hole {
            assert(i == left(hole) || i == right(hole));
        } else if i == hole {
            assert(!lt(s[child], s[parent(hole)]));
        } else {
            assert(!lt(s[i], s[parent(i)]));
        }
    }
    assert forall|i: int| 0 < i < next.len() && #[trigger] parent(i) == child implies !lt(
        next[i],
        next[parent(child)],
    ) by {
        assert(!lt(s[i], s[parent(i)]));
    }
}

/// Sift-down from `hole` completes a sift that started at `from`: afterwards
/// every pair whose parent sits at `from` or later is in order.
proof fn lemma_sink_restores<T>(s: Seq<T>, from: int, hole: int, lt: spec_fn(T, T) -> bool)
    requires
        strict_weak_order(lt),
        0 <= from <= hole,
        is_heap_from_but_under(s, from, hole, lt),
    ensures
        is_heap_from(sifted_down(s, hole, lt), from, lt),
    decreases s.len() - hole,
{
    if has_lesser_child(s, hole, lt) {
        let child = lesser_child(s, hole, lt);
        lemma_sink_step(s, from, hole, lt);
        lemma_sink_restores(exchanged(s, hole, child), from, child, lt);
    } else {
        assert forall|i: int| 0 < i < s.len() && from <= parent(i) implies !lt(
            s[i],
            s[#[trigger] parent(i)],
        ) by {
            if parent(i) == hole {
                assert(i == left(hole) || i == right(hole));
            }
        }
    }
}

/// Sift-down restores the heap order below a position: if every pair whose
/// parent sits after `i` is in order, then after sifting down from `i` every
/// pair whose parent sits at `i` or later is.
pub proof fn lemma_sifted_down_restores<T>(s: Seq<T>, i: int, lt: spec_fn(T, T) -> bool)
    requires
        strict_weak_order(lt),
        0 <= i,
        is_heap_from(s, i + 1, lt),
    ensures
        is_heap_from(sifted_down(s, i, lt), i, lt),
{
    assert(i > 0 ==> parent(i) < i);
    lemma_sink_restores(s, i, i, lt);
}

/// One step of sift-up carries the state of the sift from `hole` to its
/// parent.
proof fn lemma_rise_step<T>(s: Seq<T>, hole: int, lt: spec_fn(T, T) -> bool)
    requires
        strict_weak_order(lt),
        0 < hole < s.len(),
        is_heap_but_at(s, hole, lt),
        lt(s[hole], s[parent(hole)]),
    ensures
        is_heap_but_at(exchanged(s, hole, parent(hole)), parent(hole), lt),
{
    let above = parent(hole);
    let next = exchanged(s, hole, above);
    assert(lt(s[hole], s[above]) ==> !lt(s[above], s[hole]));
    assert forall|i: int| 0 < i < next.len() && i != above implies !lt(
        next[i],
        next[#[trigger] parent(i)],
    ) by {
        if i == hole {
        } else if parent(i) == hole {
            assert(!lt(s[i], s[above]));
        } else if parent(i) == above {
            assert(!lt(s[i], s[parent(i)]));
            assert(lt(s[i], s[hole]) && lt(s[hole], s[above]) ==> lt(s[i], s[above]));
        } else {
            assert(!lt(s[i], s[parent(i)]));
        }
    }
    if above > 0 {
        assert(!lt(s[above], s[parent(above)]));
        assert forall|i: int| 0 < i < next.len() && #[trigger] parent(i) == above implies !lt(
            next[i],
            next[parent(above)],
        ) by {
            if i != hole {
                assert(!lt(s[i], s[parent(i)]));
                lemma_not_less_chains(lt, s[i], s[above], s[parent(above)]);
            }
        }
    }
}

/// Sift-up from `hole` completes a sift: afterwards the sequence is a heap.
proof fn lemma_rise_restores<T>(s: Seq<T>, hole: int, lt: spec_fn(T, T) -> bool)
    requires
        strict_weak_order(lt),
        0 <= hole,
        is_heap_but_at(s, hole, lt),
    ensures
        is_heap(sifted_up(s, hole, lt), lt),
    decreases hole,
{
    if 0 < hole < s.len() && lt(s[hole], s[parent(hole)]) {
        lemma_rise_step(s, hole, lt);
        lemma_rise_restores(exchanged(s, hole, parent(hole)), parent(hole), lt);
    } else {
        assert forall|i: int| 0 < i < s.len() implies !lt(s[i], s[#[trigger] parent(i)]) by {}
    }
}

/// Insertion preserves the heap invariant: a heap with an element appended
/// and sifted up is a heap.
pub proof fn lemma_with_element_is_heap<T>(s: Seq<T>, element: T, lt: spec_fn(T, T) -> bool)
    requires
        strict_weak_order(lt),
        is_heap(s, lt),
    ensures
        is_heap(with_element(s, element, lt), lt),
{
    let grown = s.push(element);
    let hole = s.len() as int;
    assert forall|i: int| 0 < i < grown.len() && i != hole implies !lt(
        grown[i],
        grown[#[trigger] parent(i)],
    ) by {
        assert(!lt(s[i], s[parent(i)]));
    }
    lemma_rise_restores(grown, hole, lt);
}

/// Sifting down the positions `count - 1`, ..., `0` in turn makes a heap of
/// a sequence in which the pairs with a parent at `count` or later are in
/// order already.
pub proof fn lemma_heapified_below_is_heap<T>(s: Seq<T>, count: int, lt: spec_fn(T, T) -> bool)
    requires
        strict_weak_order(lt),
        0 <= count,
        is_heap_from(s, count, lt),
    ensures
        is_heap(heapified_below(s, count, lt), lt),
    decreases count,
{
    if count > 0 {
        lemma_sifted_down_restores(s, count - 1, lt);
        lemma_heapified_below_is_heap(sifted_down(s, count - 1, lt), count - 1, lt);
    } else {
        assert forall|i: int| 0 < i < s.len() implies !lt(s[i], s[#[trigger] parent(i)]) by {}
    }
}

/// Heapify establishes the heap invariant on any sequence.
pub proof fn lemma_heapified_is_heap<T>(s: Seq<T>, lt: spec_fn(T, T) -> bool)
    requires
        strict_weak_order(lt),
    ensures
        is_heap(heapified(s, lt), lt),
        heapified(s, lt).len() == s.len(),
        heapified(s, lt).to_multiset() == s.to_multiset(),
{
    lemma_heapified_below_is_heap(s, s.len() as int / 2, lt);
    lemma_heapified_below_permutes(s, s.len() as int / 2, lt);
}

/// The root of a heap is least: no element is less than it.
pub proof fn lemma_root_is_least<T>(s: Seq<T>, i: int, lt: spec_fn(T, T) -> bool)
    requires
        strict_weak_order(lt),
        is_heap(s, lt),
        0 <= i < s.len(),
    ensures
        !lt(s[i], s[0]),
    decreases i,
{
    if i == 0 {
        assert(!lt(s[0], s[0]));
    } else {
        assert(!lt(s[i], s[parent(i)]));
        lemma_root_is_least(s, parent(i), lt);
        lemma_not_less_chains(lt, s[i], s[parent(i)], s[0]);
    }
}

/// Extraction preserves the heap invariant: what is left of a non-empty heap
/// when its front is taken is a heap.
pub proof fn lemma_without_front_is_heap<T>(s: Seq<T>, lt: spec_fn(T, T) -> bool)
    requires
        strict_weak_order(lt),
        is_heap(s, lt),
        s.len() > 0,
    ensures
        is_heap(without_front(s, lt), lt),
{
    let rest = exchanged(s, 0, s.len() - 1).drop_last();
    assert forall|i: int| 0 < i < rest.len() && 1 <= parent(i) implies !lt(
        rest[i],
        rest[#[trigger] parent(i)],
    ) by {
        assert(!lt(s[i], s[parent(i)]));
    }
    lemma_sifted_down_restores(rest, 0, lt);
    let done = sifted_down(rest, 0, lt);
    assert forall|i: int| 0 < i < done.len() implies !lt(done[i], done[#[trigger] parent(i)]) by {}
}

/// The elements in the order in which repeated extraction hands them out:
/// the front, then what draining the rest gives.
pub open spec fn drained<T>(s: Seq<T>, lt: spec_fn(T, T) -> bool) -> Seq<T>
    decreases s.len(),
    via drained_shrinks::<T>
{
    if s.len() == 0 {
        Seq::empty()
    } else {
        seq![s[0]] + drained(without_front(s, lt), lt)
    }
}

#[via_fn]
proof fn drained_shrinks<T>(s: Seq<T>, lt: spec_fn(T, T) -> bool) {
    if s.len() != 0 {
        lemma_without_front_permutes(s, lt);
    }
}

/// Draining hands out every element once: as many as the sequence holds, and
/// the same ones, whatever the relation.
pub proof fn lemma_drained_permutes<T>(s: Seq<T>, lt: spec_fn(T, T) -> bool)
    ensures
        drained(s, lt).len() == s.len(),
        drained(s, lt).to_multiset() == s.to_multiset(),
    decreases s.len(),
{
    if s.len() == 0 {
        assert(drained(s, lt) =~= s);
    } else {
        let rest = without_front(s, lt);
        lemma_without_front_permutes(s, lt);
        lemma_drained_permutes(rest, lt);
        let tail = drained(rest, lt);
        assert(drained(s, lt) =~= tail.insert(0, s[0]));
        to_multiset_insert(tail, 0, s[0]);
        s.to_multiset_ensures();
        assert(s.contains(s[0]));
        assert(s.to_multiset().remove(s[0]).insert(s[0]) =~= s.to_multiset());
    }
}

/// Extraction order: draining a heap hands its elements out in ascending
/// order, so that none is less than one handed out before it.
pub proof fn lemma_drained_ascending<T>(s: Seq<T>, lt: spec_fn(T, T) -> bool)
    requires
        strict_weak_order(lt),
        is_heap(s, lt),
    ensures
        ascending(drained(s, lt), lt),
    decreases s.len(),
{
    let out = drained(s, lt);
    if s.len() > 0 {
        let rest = without_front(s, lt);
        let tail = drained(rest, lt);
        lemma_without_front_permutes(s, lt);
        lemma_without_front_is_heap(s, lt);
        lemma_drained_permutes(rest, lt);
        lemma_drained_ascending(rest, lt);
        assert forall|i: int, j: int| 0 <= i <= j < out.len() implies !lt(
            #[trigger] out[j],
            #[trigger] out[i],
        ) by {
            if j == 0 {
                assert(!lt(s[0], s[0]));
            } else if i == 0 {
                // `out[j]` came out of the rest, so it is an element of `s`.
                let x = tail[j - 1];
                tail.to_multiset_ensures();
                s.to_multiset_ensures();
                assert(tail.contains(x));
                assert(tail.to_multiset().count(x) > 0);
                assert(s.to_multiset().count(x) > 0);
                assert(s.contains(x));
                let k = choose|k: int| 0 <= k < s.len() && s[k] == x;
                lemma_root_is_least(s, k, lt);
            } else {
                assert(!lt(tail[j - 1], tail[i - 1]));
            }
        }
    }
}

/// Extraction order under a reversed ordering: a heap kept by the reverse of
/// `lt` drains in descending order of `lt`.
pub proof fn lemma_drained_descending<T>(s: Seq<T>, lt: spec_fn(T, T) -> bool)
    requires
        strict_weak_order(lt),
        is_heap(s, reversed(lt)),
    ensures
        descending(drained(s, reversed(lt)), lt),
{
    let out = drained(s, reversed(lt));
    lemma_reversed_is_strict_weak_order(lt);
    lemma_drained_ascending(s, reversed(lt));
    assert forall|i: int, j: int| 0 <= i <= j < out.len() implies !lt(
        #[trigger] out[i],
        #[trigger] out[j],
    ) by {
        assert(!reversed(lt)(out[j], out[i]));
    }
}

} // verus!
