//! LSD radix sort of `u64` values, one byte per pass.
use vstd::prelude::*;
use vstd::multiset::Multiset;
use crate::perm::{permutes, sorted};

verus! {

/// Bits per digit.
const BITS: u32 = 8;

/// One bucket per digit value.
const BUCKETS: usize = 256;

/// Byte of `x` at bit offset `shift`.
pub open spec fn digit_of(x: u64, shift: u32) -> u64 {
    (x >> shift) & 0xFFu64
}

/// The low `bits` bits of `x`.
pub open spec fn low(x: u64, bits: u32) -> u64 {
    if bits >= 64 {
        x
    } else {
        x & !(0xFFFF_FFFF_FFFF_FFFFu64 << bits)
    }
}

/// Ordered by the low `bits` bits.
pub open spec fn sorted_low(s: Seq<u64>, bits: u32) -> bool {
    forall|i: int, j: int| 0 <= i < j < s.len() ==> low(#[trigger] s[i], bits) <= low(#[trigger] s[j], bits)
}

/// The elements of `s` whose digit at `shift` is `d`, in their order in `s`.
pub open spec fn with_digit(s: Seq<u64>, shift: u32, d: u64) -> Seq<u64> {
    s.filter(|v: u64| digit_of(v, shift) == d)
}

/// The first `d` buckets laid end to end.
pub open spec fn flat(b: Seq<Vec<u64>>, d: int) -> Seq<u64>
    decreases d,
{
    if d <= 0 {
        Seq::empty()
    } else {
        flat(b, d - 1) + b[d - 1]@
    }
}

/// Ordering by the low `bits` bits refines, one byte at a time, into the
/// numeric order.
proof fn lemma_digit_step(x: u64, y: u64, s: u32)
    by (bit_vector)
    requires
        s == 0 || s == 8 || s == 16 || s == 24 || s == 32 || s == 40 || s == 48 || s == 56,
    ensures
        (x >> s) & 0xFFu64 < (y >> s) & 0xFFu64 ==> low(x, (s + 8) as u32) < low(y, (s + 8) as u32),
        (x >> s) & 0xFFu64 == (y >> s) & 0xFFu64 && low(x, s) <= low(y, s) ==> low(x, (s + 8) as u32)
            <= low(y, (s + 8) as u32),
{
}

/// No bits compare equal.
proof fn lemma_low_zero(x: u64)
    ensures
        low(x, 0) == 0,
{
    assert(x & !(0xFFFF_FFFF_FFFF_FFFFu64 << 0u32) == 0) by (bit_vector);
}

proof fn lemma_flat_len_monotone(b: Seq<Vec<u64>>, d1: int, d2: int)
    requires
        0 <= d1 <= d2,
    ensures
        flat(b, d1).len() <= flat(b, d2).len(),
    decreases d2 - d1,
{
    if d1 < d2 {
        lemma_flat_len_monotone(b, d1, d2 - 1);
    }
}

/// Pushing `v` onto bucket `dd` adds `v` to the multiset of every prefix of
/// buckets that includes `dd`.
proof fn lemma_flat_push(b1: Seq<Vec<u64>>, b2: Seq<Vec<u64>>, dd: int, v: u64, m: int)
    requires
        b1.len() == b2.len(),
        0 <= dd < b1.len(),
        0 <= m <= b1.len(),
        forall|e: int| 0 <= e < b1.len() && e != dd ==> #[trigger] b2[e]@ == b1[e]@,
        b2[dd]@ == b1[dd]@.push(v),
    ensures
        flat(b2, m).to_multiset() == if dd < m {
            flat(b1, m).to_multiset().insert(v)
        } else {
            flat(b1, m).to_multiset()
        },
    decreases m,
{
    broadcast use vstd::seq_lib::group_to_multiset_ensures;
    broadcast use vstd::multiset::group_multiset_axioms;
    if m > 0 {
        lemma_flat_push(b1, b2, dd, v, m - 1);
        vstd::seq_lib::lemma_multiset_commutative(flat(b1, m - 1), b1[m - 1]@);
        vstd::seq_lib::lemma_multiset_commutative(flat(b2, m - 1), b2[m - 1]@);
        if m - 1 == dd {
            assert(b2[dd]@.to_multiset() =~= b1[dd]@.to_multiset().insert(v));
            assert(flat(b2, m).to_multiset() =~= flat(b1, m).to_multiset().insert(v));
        } else if dd < m - 1 {
            assert(flat(b2, m).to_multiset() =~= flat(b1, m).to_multiset().insert(v));
        } else {
            assert(flat(b2, m).to_multiset() =~= flat(b1, m).to_multiset());
        }
    } else {
        assert(flat(b2, m) =~= flat(b1, m));
    }
}

/// Filtering by a digit that every element has keeps the whole sequence;
/// by one that none has, nothing.
proof fn lemma_with_digit_uniform(s: Seq<u64>, shift: u32, d: u64, dd: u64)
    requires
        forall|i: int| 0 <= i < s.len() ==> digit_of(#[trigger] s[i], shift) == d,
    ensures
        with_digit(s, shift, dd) == if d == dd {
            s
        } else {
            Seq::<u64>::empty()
        },
    decreases s.len(),
{
    if s.len() > 0 {
        let t = s.drop_last();
        lemma_with_digit_uniform(t, shift, d, dd);
        assert(s =~= t.push(s.last()));
        t.lemma_filter_push(s.last(), |v: u64| digit_of(v, shift) == dd);
    } else {
        reveal(Seq::filter);
        assert(with_digit(s, shift, dd) =~= Seq::<u64>::empty());
    }
}

/// Laying out buckets that each hold the elements of one digit, in digit
/// order, gathers each digit's elements from its own bucket.
proof fn lemma_with_digit_flat(b: Seq<Vec<u64>>, shift: u32, m: int, dd: u64)
    requires
        0 <= m <= b.len() <= 256,
        forall|d: int, i: int|
            0 <= d < b.len() && 0 <= i < b[d]@.len() ==> digit_of(#[trigger] b[d]@[i], shift) == d,
    ensures
        with_digit(flat(b, m), shift, dd) == if dd < m {
            b[dd as int]@
        } else {
            Seq::<u64>::empty()
        },
    decreases m,
{
    if m > 0 {
        lemma_with_digit_flat(b, shift, m - 1, dd);
        Seq::filter_distributes_over_add(flat(b, m - 1), b[m - 1]@, |v: u64| digit_of(v, shift) == dd);
        assert forall|i: int| 0 <= i < b[m - 1]@.len() implies digit_of(#[trigger] b[m - 1]@[i], shift)
            == (m - 1) as u64 by {
        }
        lemma_with_digit_uniform(b[m - 1]@, shift, (m - 1) as u64, dd);
        assert(with_digit(flat(b, m), shift, dd) == with_digit(flat(b, m - 1), shift, dd)
            + with_digit(b[m - 1]@, shift, dd));
        if dd == m - 1 {
            assert(Seq::<u64>::empty() + b[dd as int]@ =~= b[dd as int]@);
        } else if dd < m - 1 {
            assert(b[dd as int]@ + Seq::<u64>::empty() =~= b[dd as int]@);
        } else {
            assert(Seq::<u64>::empty() + Seq::<u64>::empty() =~= Seq::<u64>::empty());
        }
    } else {
        reveal(Seq::filter);
        assert(with_digit(flat(b, m), shift, dd) =~= Seq::<u64>::empty());
    }
}

/// Buckets that are all empty lay out to nothing.
proof fn lemma_flat_empty(b: Seq<Vec<u64>>, m: int)
    requires
        0 <= m <= b.len(),
        forall|e: int| 0 <= e < b.len() ==> #[trigger] b[e]@ == Seq::<u64>::empty(),
    ensures
        flat(b, m) == Seq::<u64>::empty(),
    decreases m,
{
    if m > 0 {
        lemma_flat_empty(b, m - 1);
        assert(flat(b, m) =~= Seq::<u64>::empty());
    }
}

/// LSD Radix sort for unsigned integers (base 256).
///
/// Sorts in ascending order. O(d * n) where d is the number of digits.
/// Stable within each digit pass.
pub fn radix_sort(arr: &mut [u64])
    ensures
        sorted(final(arr)@),
        permutes(final(arr)@, old(arr)@),
{
    if arr.len() <= 1 {
        return;
    }
    let passes: u32 = (u64::BITS + BITS - 1) / BITS;
    let mut p: u32 = 0;
    proof {
        assert forall|i: int, j: int| 0 <= i < j < arr@.len() implies low(#[trigger] arr@[i], 0)
            <= low(#[trigger] arr@[j], 0) by {
            lemma_low_zero(arr@[i]);
            lemma_low_zero(arr@[j]);
        }
    }
    while p < passes
        invariant
            passes == 8,
            p <= passes,
            arr@.len() == old(arr)@.len(),
            sorted_low(arr@, (p * 8) as u32),
            permutes(arr@, old(arr)@),
        decreases passes - p,
    {
        let shift = p * BITS;
        radix_pass(arr, shift);
        proof {
            assert(((p + 1) * 8) as u32 == (shift + 8) as u32);
        }
        p += 1;
    }
    proof {
        assert forall|i: int, j: int| 0 <= i < j < arr@.len() implies crate::order::le(
            #[trigger] arr@[i],
            #[trigger] arr@[j],
        ) by {
            assert(low(arr@[i], 64) <= low(arr@[j], 64));
        }
    }
}

/// One pass: distribute by the digit at `shift`, keeping the order within
/// each bucket, then lay the buckets back in digit order.
#[verifier::loop_isolation(false)]
fn radix_pass(arr: &mut [u64], shift: u32)
    requires
        shift == 0 || shift == 8 || shift == 16 || shift == 24 || shift == 32 || shift == 40
            || shift == 48 || shift == 56,
        sorted_low(old(arr)@, shift),
    ensures
        final(arr)@.len() == old(arr)@.len(),
        sorted_low(final(arr)@, (shift + 8) as u32),
        permutes(final(arr)@, old(arr)@),
        forall|d: u64| #[trigger] with_digit(final(arr)@, shift, d) == with_digit(old(arr)@, shift, d),
{
    broadcast use vstd::seq_lib::group_to_multiset_ensures;
    let ghost s = arr@;
    let mut buckets: Vec<Vec<u64>> = Vec::new();
    let mut b: usize = 0;
    while b < BUCKETS
        invariant
            b <= BUCKETS,
            buckets@.len() == b,
            forall|e: int| 0 <= e < b ==> #[trigger] buckets@[e]@ == Seq::<u64>::empty(),
        decreases BUCKETS - b,
    {
        buckets.push(Vec::new());
        b += 1;
    }
    let n = arr.len();
    proof {
        lemma_flat_empty(buckets@, 256);
        assert(s.take(0) =~= Seq::<u64>::empty());
        assert forall|d: int| 0 <= d < 256 implies #[trigger] buckets@[d]@ == with_digit(s.take(0), shift, d as u64) by {
            reveal(Seq::filter);
            assert(with_digit(s.take(0), shift, d as u64) =~= Seq::<u64>::empty());
        }
    }
    let mut k: usize = 0;
    while k < n
        invariant
            arr@ == s,
            n == s.len(),
            k <= n,
            buckets@.len() == 256,
            forall|d: int, i: int|
                0 <= d < 256 && 0 <= i < buckets@[d]@.len() ==> digit_of(#[trigger] buckets@[d]@[i], shift) == d,
            forall|d: int, i: int, j: int|
                0 <= d < 256 && 0 <= i < j < buckets@[d]@.len() ==> low(#[trigger] buckets@[d]@[i], shift)
                    <= low(#[trigger] buckets@[d]@[j], shift),
            forall|d: int, i: int, m: int|
                0 <= d < 256 && 0 <= i < buckets@[d]@.len() && k <= m < n ==> low(
                    #[trigger] buckets@[d]@[i],
                    shift,
                ) <= low(#[trigger] s[m], shift),
            flat(buckets@, 256).to_multiset() == s.take(k as int).to_multiset(),
            forall|d: int| 0 <= d < 256 ==> #[trigger] buckets@[d]@ == with_digit(s.take(k as int), shift, d as u64),
        decreases n - k,
    {
        let val = arr[k];
        proof {
            assert((val >> shift) & 0xFFu64 <= 0xFFu64) by (bit_vector);
        }
        let digit = ((val >> shift) & 0xFF) as usize;
        proof {
            assert(digit == digit_of(val, shift));
        }
        let ghost b0 = buckets@;
        buckets[digit].push(val);
        proof {
            let b1 = buckets@;
            lemma_flat_push(b0, b1, digit as int, val, 256);
            assert(s.take(k + 1) =~= s.take(k as int).push(val));
            assert forall|d: int| 0 <= d < 256 implies #[trigger] b1[d]@ == with_digit(s.take(k + 1), shift, d as u64) by {
                s.take(k as int).lemma_filter_push(val, |v: u64| digit_of(v, shift) == d as u64);
            }
        }
        k += 1;
    }
    proof {
        assert(s.take(n as int) =~= s);
        flat(buckets@, 256).to_multiset_ensures();
    }
    let ghost bk = buckets@;
    let mut idx: usize = 0;
    let mut d: usize = 0;
    proof {
        assert(arr@.take(0) =~= flat(bk, 0));
    }
    while d < BUCKETS
        invariant
            buckets@ == bk,
            d <= BUCKETS,
            arr@.len() == n,
            flat(bk, 256).len() == n,
            idx == flat(bk, d as int).len(),
            arr@.take(idx as int) == flat(bk, d as int),
            forall|q: int| 0 <= q < idx ==> digit_of(#[trigger] arr@[q], shift) < d,
            sorted_low(arr@.take(idx as int), (shift + 8) as u32),
        decreases BUCKETS - d,
    {
        let bucket = &buckets[d];
        let mut i: usize = 0;
        let ghost fd = flat(bk, d as int);
        proof {
            lemma_flat_len_monotone(bk, d + 1, 256);
            assert(arr@.take(idx as int) =~= fd + bucket@.take(0));
        }
        while i < bucket.len()
            invariant
                buckets@ == bk,
                *bucket == bk[d as int],
                d < BUCKETS,
                arr@.len() == n,
                fd == flat(bk, d as int),
                fd.len() + bucket@.len() <= n,
                i <= bucket@.len(),
                idx == fd.len() + i,
                arr@.take(idx as int) == fd + bucket@.take(i as int),
                forall|q: int| 0 <= q < fd.len() ==> digit_of(#[trigger] arr@[q], shift) < d,
                sorted_low(arr@.take(idx as int), (shift + 8) as u32),
            decreases bucket@.len() - i,
        {
            let val = bucket[i];
            let ghost a0 = arr@;
            arr[idx] = val;
            proof {
                let a1 = arr@;
                assert(a1.take(idx + 1) =~= a0.take(idx as int).push(val));
                assert(bucket@.take(i + 1) =~= bucket@.take(i as int).push(val));
                assert forall|q1: int, q2: int| 0 <= q1 < q2 < idx + 1 implies low(
                    #[trigger] a1.take(idx + 1)[q1],
                    (shift + 8) as u32,
                ) <= low(#[trigger] a1.take(idx + 1)[q2], (shift + 8) as u32) by {
                    if q2 == idx {
                        let e = a0[q1];
                        assert(a0.take(idx as int)[q1] == e);
                        lemma_digit_step(e, val, shift);
                        if q1 >= fd.len() {
                            assert(bucket@.take(i as int)[q1 - fd.len()] == e);
                        }
                    } else {
                        assert(a0.take(idx as int)[q1] == a1.take(idx + 1)[q1]);
                        assert(a0.take(idx as int)[q2] == a1.take(idx + 1)[q2]);
                    }
                }
                assert forall|q: int| 0 <= q < fd.len() implies digit_of(#[trigger] a1[q], shift) < d by {
                    assert(a0.take(idx as int)[q] == a0[q]);
                }
            }
            idx += 1;
            i += 1;
        }
        proof {
            assert(bucket@.take(i as int) =~= bucket@);
            assert(flat(bk, d + 1) == fd + bk[d as int]@);
            assert forall|q: int| 0 <= q < idx implies digit_of(#[trigger] arr@[q], shift) < d + 1 by {
                if q >= fd.len() {
                    assert(arr@.take(idx as int)[q] == arr@[q]);
                    assert(bucket@[q - fd.len()] == arr@[q]);
                }
            }
        }
        d += 1;
    }
    proof {
        assert(arr@.take(n as int) =~= arr@);
        assert forall|d: u64| #[trigger] with_digit(arr@, shift, d) == with_digit(s, shift, d) by {
            lemma_with_digit_flat(bk, shift, 256, d);
            if d >= 256 {
                assert forall|i: int| 0 <= i < s.len() implies digit_of(#[trigger] s[i], shift) != d by {
                    let x = s[i];
                    assert((x >> shift) & 0xFFu64 <= 0xFFu64) by (bit_vector);
                }
                let p = |v: u64| digit_of(v, shift) == d;
                assert(s.all(|v: u64| !p(v)));
                s.lemma_all_neg_filter_empty(p);
                assert(with_digit(s, shift, d) =~= Seq::<u64>::empty());
            }
        }
    }
}

} // verus!
