//! The total order that `Ord` promises, stated over vstd's specification of
//! `partial_cmp`, and the comparisons the sorting code makes.
use vstd::prelude::*;
use core::cmp::Ordering;
use vstd::std_specs::cmp::PartialOrdSpec;
use vstd::std_specs::cmp::OrdSpec;
use vstd::std_specs::cmp::PartialEqSpec;

verus! {

/// `T`'s comparison operators behave as a total order (the laws that
/// `Ord` asks of every implementation).
pub open spec fn total_order<T: Ord>() -> bool {
    vstd::laws_cmp::obeys_cmp::<T>()
}

/// `a` compares strictly below `b`.
pub open spec fn lt<T: Ord>(a: T, b: T) -> bool {
    a.partial_cmp_spec(&b) == Some(Ordering::Less)
}

/// `a` compares at or below `b`.
pub open spec fn le<T: Ord>(a: T, b: T) -> bool {
    !lt(b, a)
}

/// `a` and `b` compare equal: neither is below the other.
pub open spec fn equiv<T: Ord>(a: T, b: T) -> bool {
    !lt(a, b) && !lt(b, a)
}

/// Under `Ord`'s laws `partial_cmp` always answers, and `Greater` is the
/// mirror image of `Less`.
proof fn lemma_answers<T: Ord>(a: T, b: T)
    requires
        total_order::<T>(),
    ensures
        a.partial_cmp_spec(&b) == Some(Ordering::Less) || a.partial_cmp_spec(&b) == Some(
            Ordering::Equal,
        ) || a.partial_cmp_spec(&b) == Some(Ordering::Greater),
        (a.partial_cmp_spec(&b) == Some(Ordering::Greater)) == lt(b, a),
        (a.partial_cmp_spec(&b) == Some(Ordering::Equal)) == a.eq_spec(&b),
        (b.partial_cmp_spec(&a) == Some(Ordering::Equal)) == b.eq_spec(&a),
        a.eq_spec(&b) == b.eq_spec(&a),
{
    reveal(vstd::laws_cmp::obeys_cmp_partial_ord);
    reveal(vstd::laws_cmp::obeys_cmp_ord);
    reveal(vstd::laws_cmp::obeys_partial_cmp_spec_properties);
    reveal(vstd::laws_eq::obeys_eq_spec_properties);
    assert(a.partial_cmp_spec(&b) == Some(a.cmp_spec(&b)));
}

proof fn lemma_lt_trans<T: Ord>(a: T, b: T, c: T)
    requires
        total_order::<T>(),
        lt(a, b),
        lt(b, c),
    ensures
        lt(a, c),
{
    reveal(vstd::laws_cmp::obeys_partial_cmp_spec_properties);
}

proof fn lemma_eq_trans<T: Ord>(a: T, b: T, c: T)
    requires
        total_order::<T>(),
        a.eq_spec(&b),
        b.eq_spec(&c),
    ensures
        a.eq_spec(&c),
{
    reveal(vstd::laws_cmp::obeys_partial_cmp_spec_properties);
    reveal(vstd::laws_eq::obeys_eq_spec_properties);
}

proof fn lemma_le_trans<T: Ord>(a: T, b: T, c: T)
    requires
        total_order::<T>(),
        le(a, b),
        le(b, c),
    ensures
        le(a, c),
{
    lemma_answers(a, b);
    lemma_answers(b, c);
    lemma_answers(c, a);
    lemma_answers(a, c);
    lemma_answers(c, b);
    lemma_answers(b, a);
    if lt(c, a) {
        if lt(a, b) {
            lemma_lt_trans(c, a, b);
        } else if lt(b, c) {
            lemma_lt_trans(b, c, a);
        } else {
            lemma_eq_trans(c, b, a);
        }
    }
}

/// The laws of a strict total order, as the solver needs them.
pub proof fn lemma_total_order<T: Ord>()
    requires
        total_order::<T>(),
    ensures
        forall|a: T| !#[trigger] lt(a, a),
        forall|a: T, b: T| #[trigger] lt(a, b) ==> !lt(b, a),
        forall|a: T, b: T| lt(a, b) || lt(b, a) || #[trigger] equiv(a, b),
        forall|a: T, b: T, c: T| #[trigger] lt(a, b) && #[trigger] lt(b, c) ==> lt(a, c),
        forall|a: T, b: T, c: T| #[trigger] le(a, b) && #[trigger] le(b, c) ==> le(a, c),
        forall|a: T, b: T, c: T| #[trigger] lt(a, b) && #[trigger] le(b, c) ==> lt(a, c),
        forall|a: T, b: T, c: T| #[trigger] le(a, b) && #[trigger] lt(b, c) ==> lt(a, c),
{
    assert forall|a: T| !#[trigger] lt(a, a) by {
        lemma_answers(a, a);
    }
    assert forall|a: T, b: T| #[trigger] lt(a, b) implies !lt(b, a) by {
        lemma_answers(a, b);
    }
    assert forall|a: T, b: T, c: T| #[trigger] lt(a, b) && #[trigger] lt(b, c) implies lt(
        a,
        c,
    ) by {
        lemma_lt_trans(a, b, c);
    }
    assert forall|a: T, b: T, c: T| #[trigger] le(a, b) && #[trigger] le(b, c) implies le(
        a,
        c,
    ) by {
        lemma_le_trans(a, b, c);
    }
    assert forall|a: T, b: T, c: T| #[trigger] lt(a, b) && #[trigger] le(b, c) implies lt(
        a,
        c,
    ) by {
        if !lt(a, c) {
            lemma_le_trans(b, c, a);
        }
    }
    assert forall|a: T, b: T, c: T| #[trigger] le(a, b) && #[trigger] lt(b, c) implies lt(
        a,
        c,
    ) by {
        if !lt(a, c) {
            lemma_le_trans(c, a, b);
        }
    }
}

/// What the comparison operators answer, in terms of `lt`.
proof fn lemma_operators<T: Ord>()
    requires
        total_order::<T>(),
    ensures
        T::obeys_partial_cmp_spec(),
        forall|a: T, b: T|
            (#[trigger] a.partial_cmp_spec(&b) == Some(Ordering::Greater)) == lt(b, a),
        forall|a: T, b: T|
            #[trigger] a.partial_cmp_spec(&b) == Some(Ordering::Less) || a.partial_cmp_spec(&b)
                == Some(Ordering::Equal) || a.partial_cmp_spec(&b) == Some(Ordering::Greater),
{
    reveal(vstd::laws_cmp::obeys_cmp_partial_ord);
    assert forall|a: T, b: T|
        (#[trigger] a.partial_cmp_spec(&b) == Some(Ordering::Greater)) == lt(b, a) by {
        lemma_answers(a, b);
    }
    assert forall|a: T, b: T|
        #[trigger] a.partial_cmp_spec(&b) == Some(Ordering::Less) || a.partial_cmp_spec(&b)
            == Some(Ordering::Equal) || a.partial_cmp_spec(&b) == Some(Ordering::Greater) by {
        lemma_answers(a, b);
    }
}

/// `a <= b`, the comparison `Ord` gives.
pub fn is_le<T: Ord>(a: &T, b: &T) -> (r: bool)
    requires
        total_order::<T>(),
    ensures
        r == le(*a, *b),
{
    proof {
        lemma_operators::<T>();
    }
    *a <= *b
}

/// `a < b`, the comparison `Ord` gives.
pub fn is_lt<T: Ord>(a: &T, b: &T) -> (r: bool)
    requires
        total_order::<T>(),
    ensures
        r == lt(*a, *b),
{
    proof {
        lemma_operators::<T>();
    }
    *a < *b
}

} // verus!
