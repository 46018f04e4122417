//! Predicates that order elements, and the relations that describe them.
//!
//! A queue is handed an executable predicate `less(a, b) -> bool`. Contracts
//! cannot run it, so they speak of a mathematical relation `lt` instead, and
//! of what it means for `lt` to describe the predicate.
use vstd::prelude::*;
use vstd::relations::{asymmetric, irreflexive, transitive};
use vstd::std_specs::cmp::PartialOrdIs;

verus! {

/// The predicate may be called on every pair of elements.
pub open spec fn accepts_all<T, F: Fn(&T, &T) -> bool>(less: F) -> bool {
    forall|a: T, b: T| call_requires(less, (&a, &b))
}

/// `lt` describes `less`: whenever `less(a, b)` returns, it returns `lt(a, b)`.
///
/// A predicate that may answer differently on the same pair is described by
/// no relation at all.
pub open spec fn decides<T, F: Fn(&T, &T) -> bool>(less: F, lt: spec_fn(T, T) -> bool) -> bool {
    forall|a: T, b: T, r: bool| #[trigger] call_ensures(less, (&a, &b), r) ==> r == lt(a, b)
}

/// The relation that `<` computes on a type whose comparison is a function
/// of the two values alone. Pairs that do not compare are not less.
pub open spec fn natural_lt<T: PartialOrd>() -> spec_fn(T, T) -> bool {
    |a: T, b: T| a.is_lt(&b)
}

/// Neither element is less than the other.
pub open spec fn incomparable<T>(lt: spec_fn(T, T) -> bool, a: T, b: T) -> bool {
    !lt(a, b) && !lt(b, a)
}

/// Being incomparable carries over from `(a, b)` and `(b, c)` to `(a, c)`.
pub open spec fn incomparability_transitive<T>(lt: spec_fn(T, T) -> bool) -> bool {
    forall|a: T, b: T, c: T|
        #[trigger] incomparable(lt, a, b) && #[trigger] incomparable(lt, b, c) ==> incomparable(
            lt,
            a,
            c,
        )
}

/// A strict weak ordering: irreflexive, asymmetric and transitive, and
/// incomparability is transitive too.
pub open spec fn strict_weak_order<T>(lt: spec_fn(T, T) -> bool) -> bool {
    &&& irreflexive(lt)
    &&& asymmetric(lt)
    &&& transitive(lt)
    &&& incomparability_transitive(lt)
}

/// In a strict weak ordering "not less" chains: if `a` is not less than `b`
/// and `b` is not less than `c`, then `a` is not less than `c`.
pub proof fn lemma_not_less_chains<T>(lt: spec_fn(T, T) -> bool, a: T, b: T, c: T)
    requires
        strict_weak_order(lt),
        !lt(a, b),
        !lt(b, c),
    ensures
        !lt(a, c),
{
    if lt(a, c) {
        // `b` below `a` would put `b` below `c`; `c` below `b` would put `a` below `b`.
        assert(!lt(b, a)) by {
            if lt(b, a) {
                assert(lt(b, a) && lt(a, c) ==> lt(b, c));
            }
        }
        assert(!lt(c, b)) by {
            if lt(c, b) {
                assert(lt(a, c) && lt(c, b) ==> lt(a, b));
            }
        }
        assert(incomparable(lt, a, b));
        assert(incomparable(lt, b, c));
        assert(incomparable(lt, a, c));
    }
}

/// The relation read the other way round: `a` goes before `b` where `lt`
/// puts `b` before `a`.
pub open spec fn reversed<T>(lt: spec_fn(T, T) -> bool) -> spec_fn(T, T) -> bool {
    |a: T, b: T| lt(b, a)
}

/// The reverse of a strict weak ordering is a strict weak ordering: a queue
/// may as well be ordered by "greater than".
pub proof fn lemma_reversed_is_strict_weak_order<T>(lt: spec_fn(T, T) -> bool)
    requires
        strict_weak_order(lt),
    ensures
        strict_weak_order(reversed(lt)),
{
    let gt = reversed(lt);
    assert forall|a: T, b: T, c: T| #[trigger]
        incomparable(gt, a, b) && #[trigger] incomparable(gt, b, c) implies incomparable(
        gt,
        a,
        c,
    ) by {
        assert(incomparable(lt, c, b));
        assert(incomparable(lt, b, a));
        assert(incomparable(lt, c, a));
    }
    assert forall|a: T, b: T, c: T| #[trigger] gt(a, b) && #[trigger] gt(b, c) implies gt(a, c) by {
        assert(lt(c, b) && lt(b, a) ==> lt(c, a));
    }
}

} // verus!
