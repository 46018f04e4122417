//! The priority queue: a binary heap in a `Vec`, ordered by a predicate that
//! is fixed when the queue is built.
use vstd::prelude::*;
use vstd::seq_lib::{to_multiset_build, to_multiset_remove};
use vstd::std_specs::cmp::PartialOrdSpec;
use crate::order::{accepts_all, decides, natural_lt, strict_weak_order};
use crate::tree::{
    ascending, drained, exchanged, heapified, heapified_below, is_heap, lemma_drained_ascending,
    lemma_drained_permutes, lemma_exchanged_permutes, lemma_heapified_is_heap,
    lemma_root_is_least, lemma_with_element_is_heap, lemma_without_front_is_heap, parent,
    sifted_down, sifted_up, with_element, without_front,
};

verus! {

/// `<[T]>::swap` of the standard library, which `Vec` offers by dereferencing
/// to a slice. Believed, not proved: after the call the elements at `a` and
/// `b` have changed places and every other element is where it was. The
/// standard library panics if `a` or `b` is out of bounds; the precondition
/// keeps such calls out.
pub assume_specification<E>[ <[E]>::swap ](slice: &mut [E], a: usize, b: usize)
    requires
        a < old(slice)@.len(),
        b < old(slice)@.len(),
    ensures
        final(slice)@ == old(slice)@.update(a as int, old(slice)@[b as int]).update(
            b as int,
            old(slice)@[a as int],
        ),
;

/// A priority queue over elements of type `T`, ordered by the predicate `F`.
///
/// `less(a, b)` says whether `a` goes before `b`. The element that
/// `take_front` hands out is one that no other element goes before: the least
/// one under `<`, the greatest under `>`.
pub struct PriorityQueue<T, F: Fn(&T, &T) -> bool> {
    heap: Vec<T>,
    less: Box<F>,
}

impl<T, F: Fn(&T, &T) -> bool> View for PriorityQueue<T, F> {
    type V = Seq<T>;

    /// The stored elements in array order; position 0 is the front.
    closed spec fn view(&self) -> Seq<T> {
        self.heap@
    }
}

impl<T: PartialOrd> PriorityQueue<T, fn(&T, &T) -> bool> {
    /// Builds a queue of `data` ordered by the natural `<` of `T`, least
    /// element first. Elements that do not compare are not less.
    ///
    /// The function-pointer parameter of this `impl` only lets callers write
    /// `PriorityQueue::new(data)`; the queue that comes back carries the
    /// comparison itself.
    pub fn new(data: Vec<T>) -> (queue: PriorityQueue<T, impl Fn(&T, &T) -> bool>)
        ensures
            queue.wf(),
            queue@.len() == data@.len(),
            queue@.to_multiset() == data@.to_multiset(),
            forall|a: T, b: T, r: bool| #[trigger]
                call_ensures(queue.ordering(), (&a, &b), r) ==> call_ensures(T::lt, (&a, &b), r),
            T::obeys_partial_cmp_spec() ==> decides(queue.ordering(), natural_lt::<T>()),
            forall|lt: spec_fn(T, T) -> bool| #[trigger]
                decides(queue.ordering(), lt) ==> queue@ == heapified(data@, lt),
    {
        let natural = |a: &T, b: &T| -> (r: bool)
            ensures
                call_ensures(T::lt, (a, b), r),
            {
                a.lt(b)
            };
        PriorityQueue::with_ordering(data, natural)
    }
}

impl<T, F: Fn(&T, &T) -> bool> PriorityQueue<T, F> {
    /// The predicate that orders this queue.
    pub closed spec fn ordering(&self) -> F {
        *self.less
    }

    /// Well-formedness: the predicate can be called on any two elements, and
    /// the heap invariant holds under every strict weak ordering that
    /// describes the predicate.
    pub open spec fn wf(&self) -> bool {
        &&& accepts_all(self.ordering())
        &&& forall|lt: spec_fn(T, T) -> bool| #[trigger]
            decides(self.ordering(), lt) && strict_weak_order(lt) ==> is_heap(self@, lt)
    }

    /// Builds a queue of `data` ordered by `ordering`: takes the vector as
    /// its storage and heapifies it in place.
    pub fn with_ordering(data: Vec<T>, ordering: F) -> (queue: Self)
        requires
            accepts_all(ordering),
        ensures
            queue.wf(),
            queue.ordering() == ordering,
            queue@.len() == data@.len(),
            queue@.to_multiset() == data@.to_multiset(),
            forall|lt: spec_fn(T, T) -> bool| #[trigger]
                decides(ordering, lt) ==> queue@ == heapified(data@, lt),
    {
        let mut queue = Self { heap: data, less: Box::new(ordering) };
        queue.heapify();
        proof {
            assert forall|lt: spec_fn(T, T) -> bool| #[trigger]
                decides(queue.ordering(), lt) && strict_weak_order(lt) implies is_heap(
                queue@,
                lt,
            ) by {
                lemma_heapified_is_heap(data@, lt);
            }
        }
        queue
    }

    /// Removes the front of the queue and returns it, or returns `None` and
    /// leaves the queue as it is when the queue is empty.
    ///
    /// The front is the element at the root, and under a strict weak ordering
    /// no element of the queue is less than it. The last element takes its
    /// place and is sifted down. Called again and again, `take_front` hands
    /// out `drained(self@, lt)` element by element, and `None` from then on.
    pub fn take_front(&mut self) -> (front: Option<T>)
        requires
            old(self).wf(),
        ensures
            final(self).wf(),
            final(self).ordering() == old(self).ordering(),
            old(self)@.len() == 0 ==> front is None && *final(self) == *old(self),
            old(self)@.len() > 0 ==> {
                &&& front == Some(old(self)@[0])
                &&& final(self)@.len() == old(self)@.len() - 1
                &&& final(self)@.to_multiset() == old(self)@.to_multiset().remove(old(self)@[0])
                &&& forall|lt: spec_fn(T, T) -> bool| #[trigger]
                    decides(old(self).ordering(), lt) ==> {
                        &&& final(self)@ == without_front(old(self)@, lt)
                        &&& drained(old(self)@, lt) == seq![old(self)@[0]] + drained(
                            final(self)@,
                            lt,
                        )
                    }
                &&& forall|lt: spec_fn(T, T) -> bool, x: T|
                    #![trigger decides(old(self).ordering(), lt), old(self)@.contains(x)]
                    decides(old(self).ordering(), lt) && strict_weak_order(lt) && old(
                        self,
                    )@.contains(x) ==> !lt(x, front.unwrap())
            },
    {
        proof {
            assert forall|lt: spec_fn(T, T) -> bool, x: T|
                #![trigger decides(old(self).ordering(), lt), old(self)@.contains(x)]
                decides(old(self).ordering(), lt) && strict_weak_order(lt) && old(self)@.contains(
                    x,
                ) implies !lt(x, old(self)@[0]) by {
                let i = choose|i: int| 0 <= i < old(self)@.len() && old(self)@[i] == x;
                lemma_root_is_least(old(self)@, i, lt);
            }
        }
        if self.heap.is_empty() {
            return None;
        }
        let last: usize = self.heap.len() - 1;
        self.heap.swap(0, last);
        let min = self.heap.pop().unwrap();
        proof {
            let turned = exchanged(old(self)@, 0, last as int);
            lemma_exchanged_permutes(old(self)@, 0, last as int);
            to_multiset_remove(turned, last as int);
            assert(self@ =~= turned.remove(last as int));
            assert(self@ =~= turned.drop_last());
        }
        self.sift_down(0);
        proof {
            assert forall|lt: spec_fn(T, T) -> bool| #[trigger]
                decides(self.ordering(), lt) && strict_weak_order(lt) implies is_heap(
                self@,
                lt,
            ) by {
                lemma_without_front_is_heap(old(self)@, lt);
            }
        }
        Some(min)
    }

    /// Adds `element` to the queue: appends it to the storage and sifts it
    /// up.
    pub fn insert(&mut self, element: T)
        requires
            old(self).wf(),
        ensures
            final(self).wf(),
            final(self).ordering() == old(self).ordering(),
            final(self)@.len() == old(self)@.len() + 1,
            final(self)@.to_multiset() == old(self)@.to_multiset().insert(element),
            forall|lt: spec_fn(T, T) -> bool| #[trigger]
                decides(old(self).ordering(), lt) ==> final(self)@ == with_element(
                    old(self)@,
                    element,
                    lt,
                ),
    {
        self.heap.push(element);
        let mut i: usize = self.heap.len() - 1;
        proof {
            to_multiset_build(old(self)@, element);
        }
        // The root has no parent: `i != 0` is tested before the parent's
        // position is computed.
        while i != 0 && self.less(&self.heap[i], &self.heap[(i - 1) / 2])
            invariant
                i < self@.len(),
                self.ordering() == old(self).ordering(),
                accepts_all(self.ordering()),
                self@.len() == old(self)@.len() + 1,
                self@.to_multiset() == old(self)@.to_multiset().insert(element),
                forall|lt: spec_fn(T, T) -> bool| #[trigger]
                    decides(self.ordering(), lt) ==> sifted_up(self@, i as int, lt)
                        == with_element(old(self)@, element, lt),
            decreases i,
        {
            let above: usize = (i - 1) / 2;
            proof {
                lemma_exchanged_permutes(self@, i as int, above as int);
            }
            self.heap.swap(i, above);
            i = above;
        }
        proof {
            assert forall|lt: spec_fn(T, T) -> bool| #[trigger]
                decides(self.ordering(), lt) && strict_weak_order(lt) implies is_heap(
                self@,
                lt,
            ) by {
                lemma_with_element_is_heap(old(self)@, element, lt);
            }
        }
    }

    /// Asks the predicate whether `a` goes before `b`.
    fn less(&self, a: &T, b: &T) -> (r: bool)
        requires
            accepts_all(self.ordering()),
        ensures
            call_ensures(self.ordering(), (a, b), r),
            forall|lt: spec_fn(T, T) -> bool| #[trigger]
                decides(self.ordering(), lt) ==> r == lt(*a, *b),
    {
        (self.less)(a, b)
    }

    /// Establishes the heap order on the whole storage: sifts down every
    /// position that has a child, from the last one back to the root.
    fn heapify(&mut self)
        requires
            accepts_all(old(self).ordering()),
        ensures
            final(self).ordering() == old(self).ordering(),
            final(self)@.len() == old(self)@.len(),
            final(self)@.to_multiset() == old(self)@.to_multiset(),
            forall|lt: spec_fn(T, T) -> bool| #[trigger]
                decides(old(self).ordering(), lt) ==> final(self)@ == heapified(old(self)@, lt),
    {
        let mut i: usize = self.heap.len() / 2;
        while i > 0
            invariant
                self.ordering() == old(self).ordering(),
                accepts_all(self.ordering()),
                self@.len() == old(self)@.len(),
                self@.to_multiset() == old(self)@.to_multiset(),
                forall|lt: spec_fn(T, T) -> bool| #[trigger]
                    decides(self.ordering(), lt) ==> heapified_below(self@, i as int, lt)
                        == heapified(old(self)@, lt),
            decreases i,
        {
            i -= 1;
            self.sift_down(i);
        }
    }

    /// Lets the element at `i` sink to its place: while one of its children
    /// is less than it, it changes places with the lesser child.
    fn sift_down(&mut self, i: usize)
        requires
            accepts_all(old(self).ordering()),
        ensures
            final(self).ordering() == old(self).ordering(),
            final(self)@.len() == old(self)@.len(),
            final(self)@.to_multiset() == old(self)@.to_multiset(),
            forall|lt: spec_fn(T, T) -> bool| #[trigger]
                decides(old(self).ordering(), lt) ==> final(self)@ == sifted_down(
                    old(self)@,
                    i as int,
                    lt,
                ),
    {
        let len: usize = self.heap.len();
        let mut at: usize = i;
        // Only positions below `len / 2` have a child, so the children's
        // positions are computed without overflow.
        while at < len / 2
            invariant
                self.ordering() == old(self).ordering(),
                accepts_all(self.ordering()),
                self@.len() == len,
                self@.len() == old(self)@.len(),
                self@.to_multiset() == old(self)@.to_multiset(),
                forall|lt: spec_fn(T, T) -> bool| #[trigger]
                    decides(self.ordering(), lt) ==> sifted_down(self@, at as int, lt)
                        == sifted_down(old(self)@, i as int, lt),
            ensures
                forall|lt: spec_fn(T, T) -> bool| #[trigger]
                    decides(self.ordering(), lt) ==> self@ == sifted_down(
                        old(self)@,
                        i as int,
                        lt,
                    ),
            decreases len - at,
        {
            let left: usize = at * 2 + 1;
            let right: usize = at * 2 + 2;
            if !(self.less(&self.heap[left], &self.heap[at]) || right < len && self.less(
                &self.heap[right],
                &self.heap[at],
            )) {
                break;
            }
            let smallest: usize = if right < len {
                if self.less(&self.heap[left], &self.heap[right]) {
                    left
                } else {
                    right
                }
            } else {
                left
            };
            proof {
                lemma_exchanged_permutes(self@, at as int, smallest as int);
            }
            self.heap.swap(at, smallest);
            at = smallest;
        }
    }

    /// Heap-order invariant: in a well-formed queue no element is less than
    /// its parent, under any strict weak ordering that describes the
    /// predicate.
    pub proof fn lemma_heap_order(&self, lt: spec_fn(T, T) -> bool, i: int)
        requires
            self.wf(),
            decides(self.ordering(), lt),
            strict_weak_order(lt),
            0 < i < self@.len(),
        ensures
            !lt(self@[i], self@[parent(i)]),
    {
    }

    /// The front of a well-formed queue is least: no element is less than it.
    pub proof fn lemma_front_is_least(&self, lt: spec_fn(T, T) -> bool, x: T)
        requires
            self.wf(),
            decides(self.ordering(), lt),
            strict_weak_order(lt),
            self@.contains(x),
        ensures
            !lt(x, self@[0]),
    {
        let i = choose|i: int| 0 <= i < self@.len() && self@[i] == x;
        lemma_root_is_least(self@, i, lt);
    }

    /// Extraction order: emptying a well-formed queue by repeated
    /// `take_front` hands out every element once, in ascending order under
    /// the queue's ordering.
    pub proof fn lemma_drains_in_order(&self, lt: spec_fn(T, T) -> bool)
        requires
            self.wf(),
            decides(self.ordering(), lt),
            strict_weak_order(lt),
        ensures
            drained(self@, lt).len() == self@.len(),
            drained(self@, lt).to_multiset() == self@.to_multiset(),
            ascending(drained(self@, lt), lt),
    {
        lemma_drained_permutes(self@, lt);
        lemma_drained_ascending(self@, lt);
    }
}

} // verus!
