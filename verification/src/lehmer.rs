//! The factorial number system: every number below `n!` stands for one
//! permutation of size `n`, and every permutation for one such number.
//!
//! The digit of weight `(k - 1)!` of a number lies below `k`. Reading the
//! digits from the heaviest down, each one picks an index out of those not
//! picked before, counted in rising order.

use vstd::prelude::*;
use vstd::arithmetic::div_mod::{
    lemma_fundamental_div_mod_converse,
    lemma_mod_bound,
    lemma_mod_breakdown,
    lemma_small_mod,
};
use vstd::arithmetic::mul::{lemma_mul_is_commutative, lemma_mul_strictly_positive};
use crate::bignum::factorial;
use crate::permutations::{is_permutation, position_of};

verus! {

/// The indices below `size` in rising order.
pub open spec fn identity(size: nat) -> Seq<usize> {
    Seq::new(size, |i: int| i as usize)
}

/// The digit of weight `(k - 1)!` of `number` in the factorial number system.
pub open spec fn digit(number: nat, k: nat) -> nat {
    (number / factorial((k - 1) as nat)) % k
}

/// The candidates in the order that the digits of `number` pick them: the
/// digit of weight `(k - 1)!` picks among the `k` candidates that are left.
pub open spec fn arrange(number: nat, candidates: Seq<usize>) -> Seq<usize>
    decreases candidates.len(),
    via arrange_decreases
{
    if candidates.len() == 0 {
        Seq::empty()
    } else {
        let a = digit(number, candidates.len()) as int;
        seq![candidates[a]] + arrange(number, candidates.remove(a))
    }
}

#[via_fn]
proof fn arrange_decreases(number: nat, candidates: Seq<usize>) {
    if candidates.len() > 0 {
        lemma_digit_bound(number, candidates.len());
    }
}

/// The permutation of the given size that `number` stands for. A number of
/// `size!` or more stands for the same permutation as its remainder by `size!`.
pub open spec fn permutation_of(number: nat, size: nat) -> Seq<usize> {
    arrange(number, identity(size))
}

/// The number whose digits pick the entries of `p` out of the candidates:
/// each entry counts with its position among the candidates that are left,
/// times the factorial of the number of entries after it.
pub open spec fn rank_sum(p: Seq<usize>, candidates: Seq<usize>) -> nat
    decreases p.len(),
{
    if p.len() == 0 {
        0
    } else {
        let a = position_of(candidates, p[0]);
        a * factorial((p.len() - 1) as nat) + rank_sum(p.drop_first(), candidates.remove(a as int))
    }
}

/// The number that stands for the permutation `p`.
pub open spec fn number_of(p: Seq<usize>) -> nat {
    rank_sum(p, identity(p.len()))
}

/// A factorial is not zero.
pub proof fn lemma_factorial_positive(n: nat)
    ensures
        factorial(n) > 0,
    decreases n,
{
    if n > 0 {
        lemma_factorial_positive((n - 1) as nat);
        lemma_mul_strictly_positive(n as int, factorial((n - 1) as nat) as int);
    }
}

/// The digit of weight `(k - 1)!` lies below `k`.
pub proof fn lemma_digit_bound(number: nat, k: nat)
    requires
        k > 0,
    ensures
        digit(number, k) < k,
{
    lemma_mod_bound((number / factorial((k - 1) as nat)) as int, k as int);
}

/// What is left of a list without duplicates when one item is taken out.
proof fn lemma_remove_distinct(c: Seq<usize>, a: int)
    requires
        c.no_duplicates(),
        0 <= a < c.len(),
    ensures
        c.remove(a).no_duplicates(),
        c.remove(a).len() == c.len() - 1,
        !c.remove(a).contains(c[a]),
        forall|v: usize| c.contains(v) && v != c[a] ==> #[trigger] c.remove(a).contains(v),
        forall|v: usize| #[trigger] c.remove(a).contains(v) ==> c.contains(v),
{
    let r = c.remove(a);
    c.remove_ensures(a);
    assert forall|v: usize| c.contains(v) && v != c[a] implies #[trigger] r.contains(v) by {
        let j = choose|j: int| 0 <= j < c.len() && c[j] == v;
        if j < a {
            assert(r[j] == v);
        } else {
            assert(r[j - 1] == v);
        }
    }
    assert forall|v: usize| #[trigger] r.contains(v) implies c.contains(v) by {
        let j = choose|j: int| 0 <= j < r.len() && r[j] == v;
        if j < a {
            assert(c[j] == v);
        } else {
            assert(c[j + 1] == v);
        }
    }
}

/// An arrangement of candidates holds each of them once.
pub proof fn lemma_arrange_shape(number: nat, candidates: Seq<usize>)
    requires
        candidates.no_duplicates(),
    ensures
        arrange(number, candidates).len() == candidates.len(),
        arrange(number, candidates).no_duplicates(),
        forall|i: int|
            0 <= i < candidates.len() ==> candidates.contains(#[trigger] arrange(number, candidates)[i]),
    decreases candidates.len(),
{
    if candidates.len() > 0 {
        lemma_digit_bound(number, candidates.len());
        let a = digit(number, candidates.len()) as int;
        let rest = candidates.remove(a);
        lemma_remove_distinct(candidates, a);
        lemma_arrange_shape(number, rest);
        let tail = arrange(number, rest);
        let all = arrange(number, candidates);
        assert(all == seq![candidates[a]] + tail);
        assert forall|i: int| 0 <= i < candidates.len() implies candidates.contains(#[trigger] all[i]) by {
            if i > 0 {
                assert(all[i] == tail[i - 1]);
                assert(rest.contains(tail[i - 1]));
            }
        }
        assert forall|i: int, j: int| 0 <= i < all.len() && 0 <= j < all.len() && i != j implies all[i]
            != all[j] by {
            if i > 0 {
                assert(all[i] == tail[i - 1]);
                assert(rest.contains(tail[i - 1]));
            }
            if j > 0 {
                assert(all[j] == tail[j - 1]);
                assert(rest.contains(tail[j - 1]));
            }
        }
    }
}

/// A multiple of `k!` added to a number changes none of its first `k` digits.
pub proof fn lemma_arrange_mod(number: nat, candidates: Seq<usize>)
    ensures
        arrange(number % factorial(candidates.len()), candidates) == arrange(number, candidates),
    decreases candidates.len(),
{
    let k = candidates.len();
    if k > 0 {
        let w = factorial((k - 1) as nat);
        lemma_factorial_positive((k - 1) as nat);
        lemma_factorial_positive(k);
        let reduced = number % factorial(k);
        let d = digit(number, k);
        let r = number % w;
        lemma_digit_bound(number, k);
        lemma_mod_bound(number as int, w as int);
        assert(reduced == w * d + r) by {
            lemma_mod_breakdown(number as int, w as int, k as int);
            lemma_mul_is_commutative(w as int, k as int);
        }
        assert(reduced / w == d && reduced % w == r) by {
            lemma_mul_is_commutative(w as int, d as int);
            lemma_fundamental_div_mod_converse(reduced as int, w as int, d as int, r as int);
        }
        assert(digit(reduced, k) == d) by {
            lemma_small_mod(d, k);
        }
        let rest = candidates.remove(d as int);
        candidates.remove_ensures(d as int);
        lemma_arrange_mod(reduced, rest);
        lemma_arrange_mod(number, rest);
    }
}

/// The digits that pick an arrangement are those of the number it was made from.
pub proof fn lemma_rank_sum_of_arrange(number: nat, candidates: Seq<usize>)
    requires
        candidates.no_duplicates(),
    ensures
        rank_sum(arrange(number, candidates), candidates) == number % factorial(candidates.len()),
    decreases candidates.len(),
{
    let k = candidates.len();
    if k == 0 {
        assert(factorial(0) == 1);
    } else {
        let w = factorial((k - 1) as nat);
        lemma_factorial_positive((k - 1) as nat);
        lemma_digit_bound(number, k);
        let a = digit(number, k);
        let rest = candidates.remove(a as int);
        lemma_remove_distinct(candidates, a as int);
        lemma_arrange_shape(number, candidates);
        let all = arrange(number, candidates);
        assert(all == seq![candidates[a as int]] + arrange(number, rest));
        assert(all.drop_first() =~= arrange(number, rest));
        assert(position_of(candidates, all[0]) == a) by {
            assert(a < candidates.len() && candidates[a as int] == all[0]);
            let at = position_of(candidates, all[0]);
            assert(at < candidates.len() && candidates[at as int] == all[0]);
        }
        lemma_rank_sum_of_arrange(number, rest);
        assert(number % factorial(k) == w * a + number % w) by {
            lemma_mod_breakdown(number as int, w as int, k as int);
            lemma_mul_is_commutative(w as int, k as int);
        }
        lemma_mul_is_commutative(w as int, a as int);
    }
}

/// The number made from the entries of a list lies below the factorial of
/// its length, and its digits pick those entries again.
pub proof fn lemma_arrange_of_rank_sum(p: Seq<usize>, candidates: Seq<usize>)
    requires
        candidates.no_duplicates(),
        p.no_duplicates(),
        p.len() == candidates.len(),
        forall|i: int| 0 <= i < p.len() ==> candidates.contains(#[trigger] p[i]),
    ensures
        rank_sum(p, candidates) < factorial(candidates.len()),
        arrange(rank_sum(p, candidates), candidates) == p,
    decreases p.len(),
{
    let k = candidates.len();
    if k == 0 {
        assert(factorial(0) == 1);
        assert(arrange(rank_sum(p, candidates), candidates) =~= p);
    } else {
        let w = factorial((k - 1) as nat);
        lemma_factorial_positive((k - 1) as nat);
        let a = position_of(candidates, p[0]);
        assert(a < k && candidates[a as int] == p[0]) by {
            assert(candidates.contains(p[0]));
            let i = choose|i: int| 0 <= i < candidates.len() && candidates[i] == p[0];
            let at = i as nat;
            assert(at < candidates.len() && candidates[at as int] == p[0]);
        }
        let tail = p.drop_first();
        let rest = candidates.remove(a as int);
        lemma_remove_distinct(candidates, a as int);
        assert forall|i: int| 0 <= i < tail.len() implies rest.contains(#[trigger] tail[i]) by {
            assert(tail[i] == p[i + 1]);
            assert(candidates.contains(p[i + 1]));
        }
        lemma_arrange_of_rank_sum(tail, rest);
        let e = rank_sum(tail, rest);
        let number = rank_sum(p, candidates);
        assert(number == a * w + e);
        assert(number < factorial(k)) by (nonlinear_arith)
            requires
                number == a * w + e,
                e < w,
                a < k,
                factorial(k) == k * w,
        ;
        lemma_fundamental_div_mod_converse(number as int, w as int, a as int, e as int);
        lemma_small_mod(a, k);
        assert(digit(number, k) == a);
        lemma_arrange_mod(number, rest);
        assert(arrange(number, candidates) =~= p);
    }
}

/// The indices below a size are a list without duplicates.
pub proof fn lemma_identity_distinct(size: nat)
    requires
        size <= usize::MAX,
    ensures
        identity(size).no_duplicates(),
        identity(size).len() == size,
        forall|v: usize| v < size ==> #[trigger] identity(size).contains(v),
        forall|v: usize| #[trigger] identity(size).contains(v) ==> v < size,
{
    assert forall|v: usize| v < size implies #[trigger] identity(size).contains(v) by {
        assert(identity(size)[v as int] == v);
    }
}

/// Every number stands for a permutation of the size asked for.
pub proof fn lemma_permutation_of_is_permutation(number: nat, size: nat)
    requires
        size <= usize::MAX,
    ensures
        permutation_of(number, size).len() == size,
        is_permutation(permutation_of(number, size)),
{
    lemma_identity_distinct(size);
    lemma_arrange_shape(number, identity(size));
    let p = permutation_of(number, size);
    assert forall|i: int| 0 <= i < p.len() implies p[i] < p.len() by {
        assert(identity(size).contains(p[i]));
    }
}

/// A number of `size!` or more stands for the same permutation as its
/// remainder by `size!`.
pub proof fn lemma_permutation_of_mod(number: nat, size: nat)
    ensures
        permutation_of(number % factorial(size), size) == permutation_of(number, size),
{
    lemma_arrange_mod(number, identity(size));
}

/// From a number to its permutation and back: the number below `size!`
/// comes back unchanged.
pub proof fn lemma_number_round_trip(number: nat, size: nat)
    requires
        size <= usize::MAX,
        number < factorial(size),
    ensures
        number_of(permutation_of(number, size)) == number,
{
    lemma_identity_distinct(size);
    lemma_arrange_shape(number, identity(size));
    lemma_rank_sum_of_arrange(number, identity(size));
    lemma_small_mod(number, factorial(size));
}

/// From a permutation to its number and back: the number lies below the
/// factorial of the size, and the permutation comes back unchanged.
pub proof fn lemma_permutation_round_trip(p: Seq<usize>)
    requires
        is_permutation(p),
    ensures
        number_of(p) < factorial(p.len()),
        permutation_of(number_of(p), p.len()) == p,
{
    lemma_identity_distinct(p.len());
    assert forall|i: int| 0 <= i < p.len() implies identity(p.len()).contains(#[trigger] p[i]) by {
        assert(p[i] < p.len());
    }
    lemma_arrange_of_rank_sum(p, identity(p.len()));
}

} // verus!
