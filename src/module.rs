//! Linear combinations of terms: [`ModuleString`] and the rules that multiply
//! its terms.
//!
//! An element is a finitely supported map from terms to coefficients. Adding a
//! pair merges it into the map: coefficients of equal terms add up, and a term
//! whose coefficient becomes zero leaves the map.

use vstd::prelude::*;
use vstd::map::*;
use crate::ring::{Ring, Term, lemma_zero_plus, lemma_neg_zero, lemma_neg_nonzero};
use core::marker::PhantomData;

verus! {

/// The map that a sequence of (coefficient, term) pairs stands for; a later pair
/// wins over an earlier one with the same term.
pub open spec fn pairs_map<R, T>(s: Seq<(R, T)>) -> Map<T, R>
    decreases s.len(),
{
    if s.len() == 0 {
        Map::empty()
    } else {
        pairs_map(s.drop_last()).insert(s.last().1, s.last().0)
    }
}

/// No term occurs twice in the pairs.
pub open spec fn distinct_terms<R, T>(s: Seq<(R, T)>) -> bool {
    forall|i: int, j: int| 0 <= i < j < s.len() ==> s[i].1 != s[j].1
}

/// No pair has a zero coefficient.
pub open spec fn nonzero_coefficients<R: Ring, T>(s: Seq<(R, T)>) -> bool {
    forall|i: int| 0 <= i < s.len() ==> s[i].0 != R::zero_spec()
}

/// The coefficient of a term: the stored one, or zero where the term is absent.
pub open spec fn coeff<R: Ring, T>(m: Map<T, R>, t: T) -> R {
    if m.contains_key(t) {
        m[t]
    } else {
        R::zero_spec()
    }
}

/// No stored coefficient is zero.
pub open spec fn no_zero<R: Ring, T>(m: Map<T, R>) -> bool {
    forall|t: T| m.contains_key(t) ==> m[t] != R::zero_spec()
}

/// The coefficient itself, or its negation.
pub open spec fn signed<R: Ring>(r: R, negate: bool) -> R {
    if negate {
        R::neg_spec(r)
    } else {
        r
    }
}

/// Merges one pair into a map: nothing happens for a zero coefficient; a present
/// term accumulates and leaves when the sum is zero; an absent term is inserted.
pub open spec fn merge<R: Ring, T>(m: Map<T, R>, r: R, t: T) -> Map<T, R> {
    if r == R::zero_spec() {
        m
    } else if m.contains_key(t) {
        let s = R::plus_spec(m[t], r);
        if s == R::zero_spec() {
            m.remove(t)
        } else {
            m.insert(t, s)
        }
    } else {
        m.insert(t, r)
    }
}

/// Merges a sequence of pairs, in order, each coefficient signed alike.
pub open spec fn merge_all<R: Ring, T>(m: Map<T, R>, s: Seq<(R, T)>, negate: bool) -> Map<T, R>
    decreases s.len(),
{
    if s.len() == 0 {
        m
    } else {
        merge(merge_all(m, s.drop_last(), negate), signed(s.last().0, negate), s.last().1)
    }
}

/// The coefficient-wise sum of two maps, with zero sums left out.
pub open spec fn map_sum<R: Ring, T>(a: Map<T, R>, b: Map<T, R>) -> Map<T, R> {
    Map::new(
        |t: T| R::plus_spec(coeff(a, t), coeff(b, t)) != R::zero_spec(),
        |t: T| R::plus_spec(coeff(a, t), coeff(b, t)),
    )
}

/// Every coefficient negated.
pub open spec fn map_neg<R: Ring, T>(m: Map<T, R>) -> Map<T, R> {
    m.map_values(|r: R| R::neg_spec(r))
}

/// The coefficient-wise difference of two maps, with zero differences left out.
pub open spec fn map_diff<R: Ring, T>(a: Map<T, R>, b: Map<T, R>) -> Map<T, R> {
    map_sum(a, map_neg(b))
}

/// Every coefficient multiplied on the right by `c`, with zero products left out.
pub open spec fn map_scaled<R: Ring, T>(m: Map<T, R>, c: R) -> Map<T, R> {
    Map::new(
        |t: T| m.contains_key(t) && R::times_spec(m[t], c) != R::zero_spec(),
        |t: T| R::times_spec(m[t], c),
    )
}

/// Every coefficient divided by `c`, with zero quotients left out.
pub open spec fn map_div_scaled<R: Ring, T>(m: Map<T, R>, c: R) -> Map<T, R> {
    Map::new(
        |t: T| m.contains_key(t) && R::div_spec(m[t], c) != R::zero_spec(),
        |t: T| R::div_spec(m[t], c),
    )
}

// Facts about the map of a sequence of pairs.
proof fn lemma_pairs_map_absent<R, T>(s: Seq<(R, T)>, t: T)
    requires
        forall|i: int| 0 <= i < s.len() ==> s[i].1 != t,
    ensures
        !pairs_map(s).contains_key(t),
    decreases s.len(),
{
    if s.len() > 0 {
        lemma_pairs_map_absent(s.drop_last(), t);
    }
}

proof fn lemma_pairs_map_present<R, T>(s: Seq<(R, T)>, i: int)
    requires
        distinct_terms(s),
        0 <= i < s.len(),
    ensures
        pairs_map(s).contains_key(s[i].1),
        pairs_map(s)[s[i].1] == s[i].0,
    decreases s.len(),
{
    if i < s.len() - 1 {
        lemma_pairs_map_present(s.drop_last(), i);
    }
}

proof fn lemma_pairs_map_has<R, T>(s: Seq<(R, T)>, t: T) -> (i: int)
    requires
        pairs_map(s).contains_key(t),
    ensures
        0 <= i < s.len(),
        s[i].1 == t,
{
    if forall|i: int| 0 <= i < s.len() ==> s[i].1 != t {
        lemma_pairs_map_absent(s, t);
    }
    choose|i: int| 0 <= i < s.len() && s[i].1 == t
}

proof fn lemma_pairs_map_finite<R, T>(s: Seq<(R, T)>)
    requires
        distinct_terms(s),
    ensures
        pairs_map(s).dom().finite(),
        pairs_map(s).dom().len() == s.len(),
    decreases s.len(),
{
    if s.len() > 0 {
        lemma_pairs_map_finite(s.drop_last());
        lemma_pairs_map_absent(s.drop_last(), s.last().1);
    }
}

proof fn lemma_pairs_map_update<R, T>(s: Seq<(R, T)>, i: int, v: R)
    requires
        distinct_terms(s),
        0 <= i < s.len(),
    ensures
        pairs_map(s.update(i, (v, s[i].1))) == pairs_map(s).insert(s[i].1, v),
    decreases s.len(),
{
    let u = s.update(i, (v, s[i].1));
    if i == s.len() - 1 {
        assert(u.drop_last() =~= s.drop_last());
        lemma_pairs_map_absent(s.drop_last(), s[i].1);
        assert(pairs_map(u) =~= pairs_map(s).insert(s[i].1, v));
    } else {
        assert(u.drop_last() =~= s.drop_last().update(i, (v, s[i].1)));
        lemma_pairs_map_update(s.drop_last(), i, v);
        assert(pairs_map(u) =~= pairs_map(s).insert(s[i].1, v));
    }
}

proof fn lemma_pairs_map_remove<R, T>(s: Seq<(R, T)>, i: int)
    requires
        distinct_terms(s),
        0 <= i < s.len(),
    ensures
        pairs_map(s.remove(i)) == pairs_map(s).remove(s[i].1),
    decreases s.len(),
{
    let u = s.remove(i);
    if i == s.len() - 1 {
        assert(u =~= s.drop_last());
        lemma_pairs_map_absent(s.drop_last(), s[i].1);
        assert(pairs_map(u) =~= pairs_map(s).remove(s[i].1));
    } else {
        assert(u.drop_last() =~= s.drop_last().remove(i));
        lemma_pairs_map_remove(s.drop_last(), i);
        assert(pairs_map(u) =~= pairs_map(s).remove(s[i].1));
    }
}

proof fn lemma_pairs_map_no_zero<R: Ring, T>(s: Seq<(R, T)>)
    requires
        distinct_terms(s),
        nonzero_coefficients(s),
    ensures
        no_zero(pairs_map(s)),
{
    assert forall|t: T| pairs_map(s).contains_key(t) implies pairs_map(s)[t] != R::zero_spec() by {
        let i = lemma_pairs_map_has(s, t);
        lemma_pairs_map_present(s, i);
    }
}

/// The coefficient of a term after a merge.
pub proof fn lemma_merge_coeff<R: Ring, T>(m: Map<T, R>, r: R, t: T, u: T)
    ensures
        coeff(merge(m, r, t), u) == if u == t {
            R::plus_spec(coeff(m, t), r)
        } else {
            coeff(m, u)
        },
{
    R::lemma_plus_zero(coeff(m, t));
    lemma_zero_plus(r);
}

/// Maps without zero coefficients are equal when all their coefficients are.
pub proof fn lemma_coeff_ext<R: Ring, T>(a: Map<T, R>, b: Map<T, R>)
    requires
        no_zero(a),
        no_zero(b),
        forall|t: T| coeff(a, t) == coeff(b, t),
    ensures
        a == b,
{
    assert forall|t: T| a.contains_key(t) <==> b.contains_key(t) by {
        assert(coeff(a, t) == coeff(b, t));
    }
    assert forall|t: T| a.contains_key(t) implies a[t] == b[t] by {
        assert(coeff(a, t) == coeff(b, t));
    }
    assert(a =~= b);
}

/// Applies `f` to every coefficient, keeping the terms and their order.
pub open spec fn map_coefficients<R, T>(s: Seq<(R, T)>, f: spec_fn(R) -> R) -> Seq<(R, T)> {
    s.map_values(|p: (R, T)| (f(p.0), p.1))
}

/// Drops the entries whose coefficient is zero.
pub open spec fn drop_zeros<R: Ring, T>(m: Map<T, R>) -> Map<T, R> {
    Map::new(|t: T| m.contains_key(t) && m[t] != R::zero_spec(), |t: T| m[t])
}

/// The sum of the coefficients that a sequence of pairs gives to one term.
pub open spec fn total_for<R: Ring, T>(s: Seq<(R, T)>, t: T) -> R
    decreases s.len(),
{
    if s.len() == 0 {
        R::zero_spec()
    } else {
        R::plus_spec(total_for(s.drop_last(), t), part_for(s.last(), t))
    }
}

/// What one pair gives to the coefficient of a term.
pub open spec fn part_for<R: Ring, T>(p: (R, T), t: T) -> R {
    if p.1 == t {
        p.0
    } else {
        R::zero_spec()
    }
}

proof fn lemma_pairs_map_coefficients<R, T>(s: Seq<(R, T)>, f: spec_fn(R) -> R)
    ensures
        pairs_map(map_coefficients(s, f)) == pairs_map(s).map_values(f),
    decreases s.len(),
{
    let p = map_coefficients(s, f);
    if s.len() > 0 {
        assert(p.drop_last() =~= map_coefficients(s.drop_last(), f));
        lemma_pairs_map_coefficients(s.drop_last(), f);
    }
    assert(pairs_map(p) =~= pairs_map(s).map_values(f));
}

/// The coefficient of a term after merging a sequence with distinct terms.
proof fn lemma_merge_all_coeff<R: Ring, T>(m: Map<T, R>, s: Seq<(R, T)>, negate: bool, u: T)
    requires
        distinct_terms(s),
    ensures
        coeff(merge_all(m, s, negate), u) == R::plus_spec(
            coeff(m, u),
            signed(coeff(pairs_map(s), u), negate),
        ),
    decreases s.len(),
{
    lemma_neg_zero::<R>();
    if s.len() == 0 {
        R::lemma_plus_zero(coeff(m, u));
    } else {
        let s0 = s.drop_last();
        let (r, t) = s.last();
        lemma_merge_all_coeff(m, s0, negate, u);
        lemma_merge_coeff(merge_all(m, s0, negate), signed(r, negate), t, u);
        if u == t {
            lemma_pairs_map_absent(s0, t);
            R::lemma_plus_zero(coeff(m, u));
        }
    }
}

proof fn lemma_merge_all_no_zero<R: Ring, T>(m: Map<T, R>, s: Seq<(R, T)>, negate: bool)
    requires
        no_zero(m),
    ensures
        no_zero(merge_all(m, s, negate)),
    decreases s.len(),
{
    if s.len() > 0 {
        lemma_merge_all_no_zero(m, s.drop_last(), negate);
    }
}

/// A map without zero coefficients whose coefficients are those of a sum is that sum.
proof fn lemma_sum_ext<R: Ring, T>(m: Map<T, R>, a: Map<T, R>, b: Map<T, R>)
    requires
        no_zero(m),
        forall|u: T| coeff(m, u) == R::plus_spec(coeff(a, u), coeff(b, u)),
    ensures
        m == map_sum(a, b),
{
    assert forall|u: T| m.contains_key(u) <==> map_sum(a, b).contains_key(u) by {
        assert(coeff(m, u) == R::plus_spec(coeff(a, u), coeff(b, u)));
    }
    assert forall|u: T| m.contains_key(u) implies m[u] == map_sum(a, b)[u] by {
        assert(coeff(m, u) == R::plus_spec(coeff(a, u), coeff(b, u)));
    }
    assert(m =~= map_sum(a, b));
}

/// Merging a sequence with distinct terms adds its map, or subtracts it.
proof fn lemma_merge_all_sum<R: Ring, T>(m: Map<T, R>, s: Seq<(R, T)>, negate: bool)
    requires
        no_zero(m),
        distinct_terms(s),
    ensures
        merge_all(m, s, negate) == map_sum(
            m,
            if negate {
                map_neg(pairs_map(s))
            } else {
                pairs_map(s)
            },
        ),
{
    lemma_neg_zero::<R>();
    lemma_merge_all_no_zero(m, s, negate);
    let b = if negate {
        map_neg(pairs_map(s))
    } else {
        pairs_map(s)
    };
    assert forall|u: T| coeff(merge_all(m, s, negate), u) == R::plus_spec(coeff(m, u), coeff(b, u)) by {
        lemma_merge_all_coeff(m, s, negate, u);
    }
    lemma_sum_ext(merge_all(m, s, negate), m, b);
}

/// Merging any sequence of pairs into the zero element leaves each term with the
/// sum of the coefficients given to it, and stores no zero coefficient.
pub proof fn lemma_merge_correct<R: Ring, T>(s: Seq<(R, T)>)
    ensures
        forall|t: T| #[trigger] coeff(merge_all(Map::empty(), s, false), t) == total_for(s, t),
        no_zero(merge_all(Map::<T, R>::empty(), s, false)),
    decreases s.len(),
{
    lemma_merge_all_no_zero(Map::<T, R>::empty(), s, false);
    if s.len() > 0 {
        let s0 = s.drop_last();
        let (r, t) = s.last();
        lemma_merge_correct(s0);
        assert forall|u: T| #[trigger] coeff(merge_all(Map::empty(), s, false), u) == total_for(s, u) by {
            lemma_merge_coeff(merge_all(Map::empty(), s0, false), r, t, u);
            R::lemma_plus_zero(total_for(s0, u));
        }
    }
}

/// Taking one pair out of a sequence takes its part out of each total.
proof fn lemma_total_remove<R: Ring, T>(s: Seq<(R, T)>, i: int, t: T)
    requires
        0 <= i < s.len(),
    ensures
        total_for(s, t) == R::plus_spec(total_for(s.remove(i), t), part_for(s[i], t)),
    decreases s.len(),
{
    if i == s.len() - 1 {
        assert(s.remove(i) =~= s.drop_last());
    } else {
        let s0 = s.drop_last();
        assert(s.remove(i).drop_last() =~= s0.remove(i));
        assert(s.remove(i).last() == s.last());
        lemma_total_remove(s0, i, t);
        let a = total_for(s0.remove(i), t);
        let b = part_for(s[i], t);
        let c = part_for(s.last(), t);
        R::lemma_plus_assoc(a, b, c);
        R::lemma_plus_comm(b, c);
        R::lemma_plus_assoc(a, c, b);
    }
}

proof fn lemma_total_permutation<R: Ring, T>(s1: Seq<(R, T)>, s2: Seq<(R, T)>, t: T)
    requires
        s1.to_multiset() == s2.to_multiset(),
    ensures
        total_for(s1, t) == total_for(s2, t),
    decreases s1.len(),
{
    broadcast use vstd::seq_lib::group_to_multiset_ensures;

    if s1.len() == 0 {
        assert(s2.len() == s2.to_multiset().len());
    } else {
        let x = s1.last();
        let s0 = s1.drop_last();
        assert(s1 =~= s0.push(x));
        assert(s1.to_multiset().count(x) > 0);
        assert(s2.contains(x));
        let i = choose|i: int| 0 <= i < s2.len() && s2[i] == x;
        assert(s2.remove(i).to_multiset() =~= s2.to_multiset().remove(x));
        assert(s0.to_multiset() =~= s1.to_multiset().remove(x));
        lemma_total_permutation(s0, s2.remove(i), t);
        lemma_total_remove(s2, i, t);
    }
}

/// Merging the same pairs in any order gives the same element.
pub proof fn lemma_merge_order_independent<R: Ring, T>(s1: Seq<(R, T)>, s2: Seq<(R, T)>)
    requires
        s1.to_multiset() == s2.to_multiset(),
    ensures
        merge_all(Map::<T, R>::empty(), s1, false) == merge_all(Map::<T, R>::empty(), s2, false),
{
    lemma_merge_correct(s1);
    lemma_merge_correct(s2);
    assert forall|t: T|
        coeff(merge_all(Map::<T, R>::empty(), s1, false), t) == coeff(
            merge_all(Map::<T, R>::empty(), s2, false),
            t,
        ) by {
        lemma_total_permutation(s1, s2, t);
    }
    lemma_coeff_ext(
        merge_all(Map::<T, R>::empty(), s1, false),
        merge_all(Map::<T, R>::empty(), s2, false),
    );
}

/// How two terms multiply: the resulting term, and an extra coefficient if the
/// rule produces one.
pub trait AlgebraRule<R, T>: Sized {
    spec fn spec_apply(t1: T, t2: T) -> (Option<R>, T);

    /// Multiplies two terms.
    fn apply(t1: T, t2: T) -> (r: (Option<R>, T))
        ensures
            r == Self::spec_apply(t1, t2),
    ;
}

/// Marks an [`AlgebraRule`] whose products do not depend on how they are grouped.
pub trait AssociativeAlgebraRule<R, T>: AlgebraRule<R, T> {
}

/// Marks an [`AlgebraRule`] whose products do not depend on the order of the factors.
pub trait CommutativeAlgebraRule<R, T>: AlgebraRule<R, T> {
}

/// An [`AlgebraRule`] with a unit term.
pub trait UnitalAlgebraRule<R, T>: AlgebraRule<R, T> {
    spec fn spec_one() -> T;

    /// The unit term.
    fn one() -> (r: T)
        ensures
            r == Self::spec_one(),
    ;

    /// Tells whether a term is the unit term.
    fn is_one(t: &T) -> (r: bool)
        ensures
            r == (*t == Self::spec_one()),
    ;
}

/// The pair that a stored pair becomes when multiplied on the right by the
/// monomial `(r1, t1)`.
pub open spec fn term_product<R: Ring, T, A: AlgebraRule<R, T>>(p: (R, T), r1: R, t1: T) -> (R, T) {
    let (c, t2) = A::spec_apply(p.1, t1);
    let r = R::times_spec(p.0, r1);
    (
        match c {
            Some(r2) => R::times_spec(r, r2),
            None => r,
        },
        t2,
    )
}

/// Each pair multiplied on the right by the monomial `(r1, t1)`.
pub open spec fn term_products<R: Ring, T, A: AlgebraRule<R, T>>(
    s: Seq<(R, T)>,
    r1: R,
    t1: T,
) -> Seq<(R, T)> {
    s.map_values(|p: (R, T)| term_product::<R, T, A>(p, r1, t1))
}

/// The element of pairs `s` multiplied on the right by the monomial `(r1, t1)`:
/// the products merged into zero.
pub open spec fn monomial_product<R: Ring, T, A: AlgebraRule<R, T>>(
    s: Seq<(R, T)>,
    r1: R,
    t1: T,
) -> Map<T, R> {
    merge_all(Map::empty(), term_products::<R, T, A>(s, r1, t1), false)
}

/// The product of the elements of pairs `a` and `b`: the sum over the pairs of `b`
/// of `a` multiplied by each.
pub open spec fn product_map<R: Ring, T, A: AlgebraRule<R, T>>(
    a: Seq<(R, T)>,
    b: Seq<(R, T)>,
) -> Map<T, R>
    decreases b.len(),
{
    if b.len() == 0 {
        Map::empty()
    } else {
        map_sum(
            product_map::<R, T, A>(a, b.drop_last()),
            monomial_product::<R, T, A>(a, b.last().0, b.last().1),
        )
    }
}

/// The sum of a sequence of maps.
pub open spec fn sum_maps<R: Ring, T>(s: Seq<Map<T, R>>) -> Map<T, R>
    decreases s.len(),
{
    if s.len() == 0 {
        Map::empty()
    } else {
        map_sum(sum_maps(s.drop_last()), s.last())
    }
}

/// The difference of a map with itself is empty.
pub proof fn lemma_diff_self<R: Ring, T>(m: Map<T, R>)
    ensures
        map_diff(m, m) == Map::<T, R>::empty(),
{
    lemma_neg_zero::<R>();
    assert forall|t: T| !map_diff(m, m).contains_key(t) by {
        R::lemma_plus_neg(coeff(m, t));
    }
    assert(map_diff(m, m) =~= Map::<T, R>::empty());
}

/// Removing a pair keeps the terms distinct.
proof fn lemma_distinct_remove<R, T>(s: Seq<(R, T)>, i: int)
    requires
        distinct_terms(s),
        0 <= i < s.len(),
    ensures
        distinct_terms(s.remove(i)),
{
    let u = s.remove(i);
    assert forall|p: int, q: int| 0 <= p < q < u.len() implies u[p].1 != u[q].1 by {
        let p0 = if p < i { p } else { p + 1 };
        let q0 = if q < i { q } else { q + 1 };
        assert(u[p] == s[p0]);
        assert(u[q] == s[q0]);
    }
}

/// Two sequences with distinct terms and the same map: the last pair of the
/// first stands in the second, and the rests have the same map too.
proof fn lemma_same_map_split<R, T>(s1: Seq<(R, T)>, s2: Seq<(R, T)>) -> (i: int)
    requires
        distinct_terms(s1),
        distinct_terms(s2),
        pairs_map(s1) == pairs_map(s2),
        s1.len() > 0,
    ensures
        0 <= i < s2.len(),
        s2[i] == s1.last(),
        distinct_terms(s1.drop_last()),
        distinct_terms(s2.remove(i)),
        pairs_map(s1.drop_last()) == pairs_map(s2.remove(i)),
{
    let x = s1.last();
    let k = x.1;
    lemma_pairs_map_present(s1, s1.len() - 1);
    let i = lemma_pairs_map_has(s2, k);
    lemma_pairs_map_present(s2, i);
    lemma_pairs_map_remove(s2, i);
    lemma_distinct_remove(s2, i);
    lemma_pairs_map_absent(s1.drop_last(), k);
    assert(pairs_map(s1.drop_last()) =~= pairs_map(s1).remove(k));
    i
}

/// The totals of the pairs transformed by `f` depend only on the map of the
/// pairs.
proof fn lemma_total_same_map<R: Ring, T>(
    s1: Seq<(R, T)>,
    s2: Seq<(R, T)>,
    f: spec_fn((R, T)) -> (R, T),
    t: T,
)
    requires
        distinct_terms(s1),
        distinct_terms(s2),
        pairs_map(s1) == pairs_map(s2),
    ensures
        total_for(s1.map_values(f), t) == total_for(s2.map_values(f), t),
    decreases s1.len(),
{
    if s1.len() == 0 {
        lemma_pairs_map_finite(s1);
        lemma_pairs_map_finite(s2);
    } else {
        let i = lemma_same_map_split(s1, s2);
        lemma_total_same_map(s1.drop_last(), s2.remove(i), f, t);
        assert(s1.map_values(f).drop_last() =~= s1.drop_last().map_values(f));
        assert(s2.remove(i).map_values(f) =~= s2.map_values(f).remove(i));
        lemma_total_remove(s2.map_values(f), i, t);
    }
}

/// Multiplying by a monomial depends only on the map of the pairs.
proof fn lemma_monomial_same_map<R: Ring, T, A: AlgebraRule<R, T>>(
    s1: Seq<(R, T)>,
    s2: Seq<(R, T)>,
    r1: R,
    t1: T,
)
    requires
        distinct_terms(s1),
        distinct_terms(s2),
        pairs_map(s1) == pairs_map(s2),
    ensures
        monomial_product::<R, T, A>(s1, r1, t1) == monomial_product::<R, T, A>(s2, r1, t1),
{
    let f = |p: (R, T)| term_product::<R, T, A>(p, r1, t1);
    let p1 = term_products::<R, T, A>(s1, r1, t1);
    let p2 = term_products::<R, T, A>(s2, r1, t1);
    assert(p1 == s1.map_values(f));
    assert(p2 == s2.map_values(f));
    lemma_merge_correct(p1);
    lemma_merge_correct(p2);
    assert forall|t: T|
        coeff(merge_all(Map::<T, R>::empty(), p1, false), t) == coeff(
            merge_all(Map::<T, R>::empty(), p2, false),
            t,
        ) by {
        lemma_total_same_map(s1, s2, f, t);
    }
    lemma_coeff_ext(merge_all(Map::<T, R>::empty(), p1, false), merge_all(Map::<T, R>::empty(), p2, false));
}

/// The coefficient of a term in a sum.
proof fn lemma_map_sum_coeff<R: Ring, T>(a: Map<T, R>, b: Map<T, R>, t: T)
    ensures
        coeff(map_sum(a, b), t) == R::plus_spec(coeff(a, t), coeff(b, t)),
        no_zero(map_sum(a, b)),
{
}

/// Sums of maps do not depend on grouping or order.
proof fn lemma_map_sum_swap<R: Ring, T>(x: Map<T, R>, y: Map<T, R>, z: Map<T, R>)
    ensures
        map_sum(map_sum(x, y), z) == map_sum(map_sum(x, z), y),
{
    let l = map_sum(map_sum(x, y), z);
    let r = map_sum(map_sum(x, z), y);
    assert forall|t: T| coeff(l, t) == coeff(r, t) by {
        lemma_map_sum_coeff(map_sum(x, y), z, t);
        lemma_map_sum_coeff(x, y, t);
        lemma_map_sum_coeff(map_sum(x, z), y, t);
        lemma_map_sum_coeff(x, z, t);
        R::lemma_plus_assoc(coeff(x, t), coeff(y, t), coeff(z, t));
        R::lemma_plus_assoc(coeff(x, t), coeff(z, t), coeff(y, t));
        R::lemma_plus_comm(coeff(y, t), coeff(z, t));
    }
    lemma_coeff_ext(l, r);
}

/// Taking one pair out of the right factor takes its monomial product out of
/// the product.
proof fn lemma_product_remove<R: Ring, T, A: AlgebraRule<R, T>>(
    a: Seq<(R, T)>,
    b: Seq<(R, T)>,
    i: int,
)
    requires
        0 <= i < b.len(),
    ensures
        product_map::<R, T, A>(a, b) == map_sum(
            product_map::<R, T, A>(a, b.remove(i)),
            monomial_product::<R, T, A>(a, b[i].0, b[i].1),
        ),
    decreases b.len(),
{
    if i == b.len() - 1 {
        assert(b.remove(i) =~= b.drop_last());
    } else {
        let b0 = b.drop_last();
        assert(b.remove(i).drop_last() =~= b0.remove(i));
        assert(b.remove(i).last() == b.last());
        lemma_product_remove::<R, T, A>(a, b0, i);
        lemma_map_sum_swap(
            product_map::<R, T, A>(a, b0.remove(i)),
            monomial_product::<R, T, A>(a, b[i].0, b[i].1),
            monomial_product::<R, T, A>(a, b.last().0, b.last().1),
        );
    }
}

/// The product depends only on the maps of its factors' pairs.
proof fn lemma_product_same_map<R: Ring, T, A: AlgebraRule<R, T>>(
    a1: Seq<(R, T)>,
    a2: Seq<(R, T)>,
    b1: Seq<(R, T)>,
    b2: Seq<(R, T)>,
)
    requires
        distinct_terms(a1),
        distinct_terms(a2),
        pairs_map(a1) == pairs_map(a2),
        distinct_terms(b1),
        distinct_terms(b2),
        pairs_map(b1) == pairs_map(b2),
    ensures
        product_map::<R, T, A>(a1, b1) == product_map::<R, T, A>(a2, b2),
    decreases b1.len(),
{
    if b1.len() == 0 {
        lemma_pairs_map_finite(b1);
        lemma_pairs_map_finite(b2);
    } else {
        let i = lemma_same_map_split(b1, b2);
        lemma_product_same_map::<R, T, A>(a1, a2, b1.drop_last(), b2.remove(i));
        lemma_product_remove::<R, T, A>(a2, b2, i);
        lemma_monomial_same_map::<R, T, A>(a1, a2, b1.last().0, b1.last().1);
    }
}

/// A map that an element can hold: finitely many terms, none with coefficient zero.
pub open spec fn is_element_map<R: Ring, T>(m: Map<T, R>) -> bool {
    m.dom().finite() && no_zero(m)
}

/// Some sequence of pairs, each term once, that stands for the map.
pub open spec fn enumeration<R, T>(m: Map<T, R>) -> Seq<(R, T)> {
    choose|s: Seq<(R, T)>| distinct_terms(s) && pairs_map(s) == m
}

/// The product of two elements, given by their maps.
pub open spec fn map_product<R: Ring, T, A: AlgebraRule<R, T>>(a: Map<T, R>, b: Map<T, R>) -> Map<
    T,
    R,
> {
    product_map::<R, T, A>(enumeration(a), enumeration(b))
}

/// The map of the multiplicative identity.
pub open spec fn unit_map<R: Ring, T, A: UnitalAlgebraRule<R, T>>() -> Map<T, R> {
    merge(Map::<T, R>::empty(), R::one_spec(), A::spec_one())
}

/// The element of map `m` multiplied by itself `n` times.
pub open spec fn map_power<R: Ring, T, A: UnitalAlgebraRule<R, T>>(m: Map<T, R>, n: nat) -> Map<
    T,
    R,
>
    decreases n,
{
    if n == 0 {
        unit_map::<R, T, A>()
    } else {
        map_product::<R, T, A>(map_power::<R, T, A>(m, (n - 1) as nat), m)
    }
}

/// The product of a sequence of element maps, from the left, starting at the unit.
pub open spec fn product_of_maps<R: Ring, T, A: UnitalAlgebraRule<R, T>>(s: Seq<Map<T, R>>) -> Map<
    T,
    R,
>
    decreases s.len(),
{
    if s.len() == 0 {
        unit_map::<R, T, A>()
    } else {
        map_product::<R, T, A>(product_of_maps::<R, T, A>(s.drop_last()), s.last())
    }
}

/// The product of elements is associative and the unit element is neutral on
/// both sides: what a unital, associative rule over a ring asserts.
pub open spec fn product_laws<R: Ring, T, A: UnitalAlgebraRule<R, T>>() -> bool {
    &&& forall|a: Map<T, R>, b: Map<T, R>, c: Map<T, R>|
        is_element_map(a) && is_element_map(b) && is_element_map(c) ==> #[trigger] map_product::<
            R,
            T,
            A,
        >(map_product::<R, T, A>(a, b), c) == map_product::<R, T, A>(
            a,
            map_product::<R, T, A>(b, c),
        )
    &&& forall|a: Map<T, R>|
        is_element_map(a) ==> #[trigger] map_product::<R, T, A>(a, unit_map::<R, T, A>()) == a
    &&& forall|a: Map<T, R>|
        is_element_map(a) ==> #[trigger] map_product::<R, T, A>(unit_map::<R, T, A>(), a) == a
}

/// A finite map has an enumeration.
proof fn lemma_enumeration<R, T>(m: Map<T, R>)
    requires
        m.dom().finite(),
    ensures
        distinct_terms(enumeration(m)),
        pairs_map(enumeration(m)) == m,
    decreases m.dom().len(),
{
    if m.dom().len() == 0 {
        vstd::set_lib::lemma_set_empty_equivalency_len(m.dom());
        assert(pairs_map(Seq::<(R, T)>::empty()) =~= m);
        assert(distinct_terms(Seq::<(R, T)>::empty()));
    } else {
        let k = m.dom().choose();
        let rest = m.remove(k);
        assert(rest.dom() =~= m.dom().remove(k));
        lemma_enumeration(rest);
        let s0 = enumeration(rest);
        let s = s0.push((m[k], k));
        assert forall|i: int| 0 <= i < s0.len() implies s0[i].1 != k by {
            lemma_pairs_map_present(s0, i);
        }
        assert(s.drop_last() =~= s0);
        assert(pairs_map(s) =~= m);
        assert(distinct_terms(s));
    }
}

proof fn lemma_merge_all_finite<R: Ring, T>(m: Map<T, R>, s: Seq<(R, T)>, negate: bool)
    requires
        m.dom().finite(),
    ensures
        merge_all(m, s, negate).dom().finite(),
    decreases s.len(),
{
    if s.len() > 0 {
        lemma_merge_all_finite(m, s.drop_last(), negate);
    }
}

proof fn lemma_map_sum_finite<R: Ring, T>(a: Map<T, R>, b: Map<T, R>)
    requires
        a.dom().finite(),
        b.dom().finite(),
    ensures
        map_sum(a, b).dom().finite(),
{
    assert(map_sum(a, b).dom().subset_of(a.dom().union(b.dom()))) by {
        lemma_zero_plus(R::zero_spec());
    }
    vstd::set_lib::lemma_set_subset_finite(a.dom().union(b.dom()), map_sum(a, b).dom());
}

proof fn lemma_product_element<R: Ring, T, A: AlgebraRule<R, T>>(a: Seq<(R, T)>, b: Seq<(R, T)>)
    ensures
        is_element_map(product_map::<R, T, A>(a, b)),
    decreases b.len(),
{
    if b.len() == 0 {
        assert(Map::<T, R>::empty().dom() =~= Set::<T>::empty());
    } else {
        lemma_product_element::<R, T, A>(a, b.drop_last());
        lemma_merge_all_finite(
            Map::<T, R>::empty(),
            term_products::<R, T, A>(a, b.last().0, b.last().1),
            false,
        );
        lemma_map_sum_finite(
            product_map::<R, T, A>(a, b.drop_last()),
            monomial_product::<R, T, A>(a, b.last().0, b.last().1),
        );
    }
}

/// Powers are element maps.
proof fn lemma_power_element<R: Ring, T, A: UnitalAlgebraRule<R, T>>(m: Map<T, R>, n: nat)
    ensures
        is_element_map(map_power::<R, T, A>(m, n)),
    decreases n,
{
    if n == 0 {
        assert(Map::<T, R>::empty().dom() =~= Set::<T>::empty());
    } else {
        lemma_product_element::<R, T, A>(
            enumeration(map_power::<R, T, A>(m, (n - 1) as nat)),
            enumeration(m),
        );
    }
}

/// Under the product laws, the power to a sum of exponents is the product of
/// the powers.
pub proof fn lemma_map_power_add<R: Ring, T, A: UnitalAlgebraRule<R, T>>(
    m: Map<T, R>,
    a: nat,
    b: nat,
)
    requires
        product_laws::<R, T, A>(),
        is_element_map(m),
    ensures
        map_power::<R, T, A>(m, a + b) == map_product::<R, T, A>(
            map_power::<R, T, A>(m, a),
            map_power::<R, T, A>(m, b),
        ),
    decreases b,
{
    lemma_power_element::<R, T, A>(m, a);
    if b > 0 {
        lemma_map_power_add::<R, T, A>(m, a, (b - 1) as nat);
        lemma_power_element::<R, T, A>(m, (b - 1) as nat);
        assert((a + b - 1) as nat == a + (b - 1) as nat);
        assert(map_product::<R, T, A>(
            map_product::<R, T, A>(map_power::<R, T, A>(m, a), map_power::<R, T, A>(m, (b - 1) as nat)),
            m,
        ) == map_product::<R, T, A>(
            map_power::<R, T, A>(m, a),
            map_product::<R, T, A>(map_power::<R, T, A>(m, (b - 1) as nat), m),
        ));
    }
}

///
/// An element of a free module: a linear combination of terms of type `T` with
/// coefficients of type `R`, whose terms multiply by the rule `A`.
///
/// Each term is stored once, with a nonzero coefficient; a term that is not
/// stored has coefficient zero.
///
pub struct ModuleString<R, T, A> {
    terms: Vec<(R, T)>,
    rule: PhantomData<A>,
}

impl<R, T, A> View for ModuleString<R, T, A> {
    type V = Map<T, R>;

    /// The map from each stored term to its coefficient.
    closed spec fn view(&self) -> Map<T, R> {
        pairs_map(self.terms@)
    }
}

impl<R: Ring, T: Term, A> ModuleString<R, T, A> {
    /// The storage holds each term once and no zero coefficient.
    pub closed spec fn wf(&self) -> bool {
        distinct_terms(self.terms@) && nonzero_coefficients(self.terms@)
    }

    /// The stored (coefficient, term) pairs, in the order in which they are iterated.
    pub closed spec fn pairs(&self) -> Seq<(R, T)> {
        self.terms@
    }

    /// The pairs stand for the map, hold each term once and no zero coefficient.
    pub proof fn lemma_wf(&self)
        requires
            self.wf(),
        ensures
            self@ == pairs_map(self.pairs()),
            distinct_terms(self.pairs()),
            nonzero_coefficients(self.pairs()),
            no_zero(self@),
            self@.dom().finite(),
            self@.len() == self.pairs().len(),
    {
        lemma_pairs_map_no_zero(self.terms@);
        lemma_pairs_map_finite(self.terms@);
    }

    /// An element has no term exactly when it is the additive identity.
    pub proof fn lemma_len_zero(&self)
        requires
            self.wf(),
        ensures
            (self@.len() == 0) <==> (self@ == Map::<T, R>::empty()),
    {
        self.lemma_wf();
        if self@.len() == 0 {
            assert forall|t: T| !self@.contains_key(t) by {
                if self@.contains_key(t) {
                    vstd::set_lib::lemma_set_empty_equivalency_len(self@.dom());
                    assert(self@.dom().contains(t));
                }
            }
            assert(self@ =~= Map::<T, R>::empty());
        }
    }

    /// The additive identity: no term at all.
    pub fn zero() -> (r: Self)
        ensures
            r.wf(),
            r@ == Map::<T, R>::empty(),
    {
        ModuleString { terms: Vec::new(), rule: PhantomData }
    }

    /// Tells whether this is the additive identity.
    pub fn is_zero(&self) -> (r: bool)
        requires
            self.wf(),
        ensures
            r == (self@ == Map::<T, R>::empty()),
    {
        proof {
            self.lemma_wf();
            self.lemma_len_zero();
        }
        self.terms.len() == 0
    }

    /// The number of terms with a nonzero coefficient.
    pub fn len(&self) -> (r: usize)
        requires
            self.wf(),
        ensures
            r == self@.len(),
    {
        proof {
            self.lemma_wf();
        }
        self.terms.len()
    }

    /// Where a term is stored, if it is.
    fn position(&self, t: &T) -> (r: Option<usize>)
        ensures
            match r {
                Some(i) => i < self.terms@.len() && self.terms@[i as int].1 == *t,
                None => forall|i: int| 0 <= i < self.terms@.len() ==> self.terms@[i].1 != *t,
            },
    {
        let mut i: usize = 0;
        while i < self.terms.len()
            invariant
                i <= self.terms@.len(),
                forall|j: int| 0 <= j < i ==> self.terms@[j].1 != *t,
            decreases self.terms@.len() - i,
        {
            if self.terms[i].1.same(t) {
                return Some(i);
            }
            i += 1;
        }
        None
    }

    /// A reference to the coefficient of a term, if the term is stored.
    pub fn get_ref(&self, t: &T) -> (r: Option<&R>)
        requires
            self.wf(),
        ensures
            match r {
                Some(c) => self@.contains_key(*t) && *c == self@[*t],
                None => !self@.contains_key(*t),
            },
    {
        match self.position(t) {
            Some(i) => {
                proof {
                    lemma_pairs_map_present(self.terms@, i as int);
                }
                Some(&self.terms[i].0)
            },
            None => {
                proof {
                    lemma_pairs_map_absent(self.terms@, *t);
                }
                None
            },
        }
    }

    /// The coefficient of a term: zero where the term is not stored.
    pub fn get(&self, t: &T) -> (r: R)
        requires
            self.wf(),
        ensures
            r == coeff(self@, *t),
    {
        match self.get_ref(t) {
            Some(c) => c.duplicate(),
            None => R::zero(),
        }
    }

    /// Merges one pair into this element, its coefficient negated when `negate`
    /// is set (which turns addition into subtraction).
    pub fn insert_term(&mut self, r: R, t: T, negate: bool)
        requires
            old(self).wf(),
        ensures
            final(self).wf(),
            final(self)@ == merge(old(self)@, signed(r, negate), t),
    {
        let r = if negate {
            r.negate()
        } else {
            r
        };
        if r.is_zero() {
            return;
        }
        match self.position(&t) {
            Some(i) => {
                let s = self.terms[i].0.plus(&r);
                proof {
                    lemma_pairs_map_present(self.terms@, i as int);
                }
                if s.is_zero() {
                    proof {
                        lemma_pairs_map_remove(self.terms@, i as int);
                    }
                    self.terms.remove(i);
                } else {
                    proof {
                        lemma_pairs_map_update(self.terms@, i as int, s);
                    }
                    self.terms.set(i, (s, t));
                }
            },
            None => {
                proof {
                    lemma_pairs_map_absent(self.terms@, t);
                }
                let ghost before = self.terms@;
                self.terms.push((r, t));
                assert(self.terms@.drop_last() =~= before);
            },
        }
    }

    /// Merges a sequence of pairs, in order, each coefficient negated when `negate`
    /// is set.
    pub fn insert(&mut self, pairs: Vec<(R, T)>, negate: bool)
        requires
            old(self).wf(),
        ensures
            final(self).wf(),
            final(self)@ == merge_all(old(self)@, pairs@, negate),
    {
        let ghost start = self@;
        let mut i: usize = 0;
        while i < pairs.len()
            invariant
                i <= pairs@.len(),
                self.wf(),
                self@ == merge_all(start, pairs@.subrange(0, i as int), negate),
            decreases pairs@.len() - i,
        {
            let r = pairs[i].0.duplicate();
            let t = pairs[i].1.duplicate();
            self.insert_term(r, t, negate);
            assert(pairs@.subrange(0, i + 1).drop_last() =~= pairs@.subrange(0, i as int));
            i += 1;
        }
        assert(pairs@.subrange(0, i as int) =~= pairs@);
    }

    /// The stored pairs, in iteration order.
    pub fn iter(&self) -> (r: &[(R, T)])
        ensures
            r@ == self.pairs(),
    {
        self.terms.as_slice()
    }

    /// A copy of this element, with its pairs in the same order.
    pub fn duplicate(&self) -> (r: Self)
        ensures
            r.pairs() == self.pairs(),
            r@ == self@,
            self.wf() ==> r.wf(),
    {
        let mut terms: Vec<(R, T)> = Vec::new();
        let mut i: usize = 0;
        while i < self.terms.len()
            invariant
                i <= self.terms@.len(),
                terms@ == self.terms@.subrange(0, i as int),
            decreases self.terms@.len() - i,
        {
            terms.push((self.terms[i].0.duplicate(), self.terms[i].1.duplicate()));
            assert(terms@ =~= self.terms@.subrange(0, i + 1));
            i += 1;
        }
        assert(terms@ =~= self.terms@);
        ModuleString { terms, rule: PhantomData }
    }

    /// Tells whether two elements hold the same terms with the same coefficients.
    pub fn equals(&self, other: &Self) -> (r: bool)
        requires
            self.wf(),
            other.wf(),
        ensures
            r == (self@ == other@),
    {
        proof {
            self.lemma_wf();
            other.lemma_wf();
        }
        if self.terms.len() != other.terms.len() {
            return false;
        }
        let mut i: usize = 0;
        while i < self.terms.len()
            invariant
                self.wf(),
                other.wf(),
                self.terms@.len() == other.terms@.len(),
                i <= self.terms@.len(),
                forall|j: int|
                    0 <= j < i ==> other@.contains_key(#[trigger] self.terms@[j].1) && other@[self.terms@[j].1]
                        == self.terms@[j].0,
            decreases self.terms@.len() - i,
        {
            proof {
                lemma_pairs_map_present(self.terms@, i as int);
            }
            match other.get_ref(&self.terms[i].1) {
                Some(c) => {
                    if !c.same(&self.terms[i].0) {
                        return false;
                    }
                },
                None => {
                    return false;
                },
            }
            i += 1;
        }
        proof {
            self.lemma_wf();
            other.lemma_wf();
            assert forall|t: T| self@.contains_key(t) implies other@.contains_key(t) && other@[t]
                == self@[t] by {
                let j = lemma_pairs_map_has(self.terms@, t);
                lemma_pairs_map_present(self.terms@, j);
            }
            assert forall|t: T| self@.dom().contains(t) implies other@.dom().contains(t) by {
                let j = lemma_pairs_map_has(self.terms@, t);
                assert(other@.contains_key(self.terms@[j].1));
            }
            assert(self@.dom().len() == other@.dom().len());
            vstd::set_lib::lemma_subset_equality(self@.dom(), other@.dom());
            assert(self@ =~= other@);
        }
        true
    }

    /// The element with one pair merged into zero.
    pub fn from_pair(r: R, t: T) -> (e: Self)
        ensures
            e.wf(),
            e@ == merge(Map::<T, R>::empty(), r, t),
    {
        let mut e = Self::zero();
        e.insert_term(r, t, false);
        e
    }

    /// The element with one term, of coefficient one.
    pub fn from_term(t: T) -> (e: Self)
        ensures
            e.wf(),
            e@ == merge(Map::<T, R>::empty(), R::one_spec(), t),
    {
        Self::from_pair(R::one(), t)
    }

    /// The element with a sequence of pairs merged, in order, into zero.
    pub fn from_pairs(pairs: Vec<(R, T)>) -> (e: Self)
        ensures
            e.wf(),
            e@ == merge_all(Map::<T, R>::empty(), pairs@, false),
    {
        let mut e = Self::zero();
        e.insert(pairs, false);
        e
    }

    /// The element with a sequence of terms merged, in order, into zero, each
    /// with coefficient one.
    pub fn from_terms(terms: Vec<T>) -> (e: Self)
        ensures
            e.wf(),
            e@ == merge_all(
                Map::<T, R>::empty(),
                terms@.map_values(|t: T| (R::one_spec(), t)),
                false,
            ),
    {
        let mut pairs: Vec<(R, T)> = Vec::new();
        let mut i: usize = 0;
        while i < terms.len()
            invariant
                i <= terms@.len(),
                pairs@ == terms@.subrange(0, i as int).map_values(|t: T| (R::one_spec(), t)),
            decreases terms@.len() - i,
        {
            pairs.push((R::one(), terms[i].duplicate()));
            assert(pairs@ =~= terms@.subrange(0, i + 1).map_values(|t: T| (R::one_spec(), t)));
            i += 1;
        }
        assert(terms@.subrange(0, i as int) =~= terms@);
        Self::from_pairs(pairs)
    }

    /// Merges a sequence of pairs, in order, into this element.
    pub fn extend(&mut self, pairs: Vec<(R, T)>)
        requires
            old(self).wf(),
        ensures
            final(self).wf(),
            final(self)@ == merge_all(old(self)@, pairs@, false),
    {
        self.insert(pairs, false);
    }

    /// Adds a pair.
    pub fn add_pair(&mut self, r: R, t: T)
        requires
            old(self).wf(),
        ensures
            final(self).wf(),
            final(self)@ == merge(old(self)@, r, t),
    {
        self.insert_term(r, t, false);
    }

    /// Subtracts a pair.
    pub fn sub_pair(&mut self, r: R, t: T)
        requires
            old(self).wf(),
        ensures
            final(self).wf(),
            final(self)@ == merge(old(self)@, R::neg_spec(r), t),
    {
        self.insert_term(r, t, true);
    }

    /// Adds a term with coefficient one.
    pub fn add_term(&mut self, t: T)
        requires
            old(self).wf(),
        ensures
            final(self).wf(),
            final(self)@ == merge(old(self)@, R::one_spec(), t),
    {
        self.insert_term(R::one(), t, false);
    }

    /// Subtracts a term with coefficient one.
    pub fn sub_term(&mut self, t: T)
        requires
            old(self).wf(),
        ensures
            final(self).wf(),
            final(self)@ == merge(old(self)@, R::neg_spec(R::one_spec()), t),
    {
        self.insert_term(R::one(), t, true);
    }

    /// Adds another element, term by term.
    pub fn add_assign(&mut self, rhs: Self)
        requires
            old(self).wf(),
            rhs.wf(),
        ensures
            final(self).wf(),
            final(self)@ == map_sum(old(self)@, rhs@),
    {
        proof {
            self.lemma_wf();
            lemma_merge_all_sum(self@, rhs.terms@, false);
        }
        self.insert(rhs.terms, false);
    }

    /// Subtracts another element, term by term.
    pub fn sub_assign(&mut self, rhs: Self)
        requires
            old(self).wf(),
            rhs.wf(),
        ensures
            final(self).wf(),
            final(self)@ == map_diff(old(self)@, rhs@),
    {
        proof {
            self.lemma_wf();
            lemma_merge_all_sum(self@, rhs.terms@, true);
        }
        self.insert(rhs.terms, true);
    }

    /// The sum of a sequence of elements.
    pub fn sum(elements: Vec<Self>) -> (r: Self)
        requires
            forall|i: int| 0 <= i < elements@.len() ==> (#[trigger] elements@[i]).wf(),
        ensures
            r.wf(),
            r@ == sum_maps(elements@.map_values(|e: Self| e@)),
    {
        let mut acc = Self::zero();
        let mut i: usize = 0;
        while i < elements.len()
            invariant
                i <= elements@.len(),
                acc.wf(),
                forall|i: int| 0 <= i < elements@.len() ==> (#[trigger] elements@[i]).wf(),
                acc@ == sum_maps(elements@.subrange(0, i as int).map_values(|e: Self| e@)),
            decreases elements@.len() - i,
        {
            acc.add_assign(elements[i].duplicate());
            assert(elements@.subrange(0, i + 1).map_values(|e: Self| e@).drop_last()
                =~= elements@.subrange(0, i as int).map_values(|e: Self| e@));
            i += 1;
        }
        assert(elements@.subrange(0, i as int) =~= elements@);
        acc
    }

    /// Drops the pairs whose coefficient is zero.
    fn clean(&mut self)
        requires
            distinct_terms(old(self).terms@),
        ensures
            final(self).wf(),
            final(self)@ == drop_zeros(old(self)@),
    {
        let mut terms: Vec<(R, T)> = Vec::new();
        core::mem::swap(&mut self.terms, &mut terms);
        let mut kept: Vec<(R, T)> = Vec::new();
        let mut i: usize = 0;
        while i < terms.len()
            invariant
                i <= terms@.len(),
                distinct_terms(terms@),
                distinct_terms(kept@),
                nonzero_coefficients(kept@),
                pairs_map(kept@) == drop_zeros(pairs_map(terms@.subrange(0, i as int))),
            decreases terms@.len() - i,
        {
            let ghost prefix = terms@.subrange(0, i as int);
            let ghost next = terms@.subrange(0, i + 1);
            proof {
                assert(next.drop_last() =~= prefix);
                assert(distinct_terms(next));
                lemma_pairs_map_absent(prefix, terms@[i as int].1);
            }
            if !terms[i].0.is_zero() {
                let ghost before = kept@;
                kept.push((terms[i].0.duplicate(), terms[i].1.duplicate()));
                proof {
                    assert(kept@.drop_last() =~= before);
                    assert forall|j: int| 0 <= j < before.len() implies before[j].1 != terms@[i as int].1 by {
                        lemma_pairs_map_present(before, j);
                    }
                    assert(pairs_map(kept@) =~= drop_zeros(pairs_map(next)));
                }
            } else {
                assert(pairs_map(kept@) =~= drop_zeros(pairs_map(next)));
            }
            i += 1;
        }
        assert(terms@.subrange(0, i as int) =~= terms@);
        self.terms = kept;
    }

    /// Multiplies every coefficient on the right by `c`, dropping the terms whose
    /// coefficient becomes zero.
    pub fn scale(&mut self, c: &R)
        requires
            old(self).wf(),
        ensures
            final(self).wf(),
            final(self)@ == map_scaled(old(self)@, *c),
            forall|t: T| #[trigger] coeff(final(self)@, t) == R::times_spec(coeff(old(self)@, t), *c),
            *c == R::zero_spec() ==> final(self)@ == Map::<T, R>::empty(),
    {
        let ghost f = |r: R| R::times_spec(r, *c);
        let mut products: Vec<(R, T)> = Vec::new();
        let mut i: usize = 0;
        while i < self.terms.len()
            invariant
                i <= self.terms@.len(),
                products@.len() == i,
                forall|j: int|
                    0 <= j < i ==> #[trigger] products@[j] == (
                        R::times_spec(self.terms@[j].0, *c),
                        self.terms@[j].1,
                    ),
            decreases self.terms@.len() - i,
        {
            products.push((self.terms[i].0.times(c), self.terms[i].1.duplicate()));
            i += 1;
        }
        proof {
            assert(products@ =~= map_coefficients(self.terms@, f));
            lemma_pairs_map_coefficients(self.terms@, f);
        }
        let ghost start = self@;
        self.terms = products;
        self.clean();
        assert(self@ =~= map_scaled(start, *c));
        proof {
            R::lemma_times_zero(*c);
            if *c == R::zero_spec() {
                assert forall|t: T| !self@.contains_key(t) by {
                    if start.contains_key(t) {
                        R::lemma_times_zero(start[t]);
                    }
                }
                assert(self@ =~= Map::<T, R>::empty());
            }
        }
    }

    /// Divides every coefficient by the nonzero `c`, dropping the terms whose
    /// coefficient becomes zero.
    pub fn div_scale(&mut self, c: &R)
        requires
            old(self).wf(),
            *c != R::zero_spec(),
        ensures
            final(self).wf(),
            final(self)@ == map_div_scaled(old(self)@, *c),
            forall|t: T| #[trigger] coeff(final(self)@, t) == R::div_spec(coeff(old(self)@, t), *c),
    {
        let ghost f = |r: R| R::div_spec(r, *c);
        let mut products: Vec<(R, T)> = Vec::new();
        let mut i: usize = 0;
        while i < self.terms.len()
            invariant
                *c != R::zero_spec(),
                i <= self.terms@.len(),
                products@.len() == i,
                forall|j: int|
                    0 <= j < i ==> #[trigger] products@[j] == (
                        R::div_spec(self.terms@[j].0, *c),
                        self.terms@[j].1,
                    ),
            decreases self.terms@.len() - i,
        {
            products.push((self.terms[i].0.divide(c), self.terms[i].1.duplicate()));
            i += 1;
        }
        proof {
            assert(products@ =~= map_coefficients(self.terms@, f));
            lemma_pairs_map_coefficients(self.terms@, f);
        }
        let ghost start = self@;
        self.terms = products;
        self.clean();
        assert(self@ =~= map_div_scaled(start, *c));
        proof {
            R::lemma_zero_div(*c);
        }
    }

    /// The element with every coefficient negated.
    pub fn neg(self) -> (r: Self)
        requires
            self.wf(),
        ensures
            r.wf(),
            r@ == map_neg(self@),
    {
        let ghost f = |r: R| R::neg_spec(r);
        let mut negated: Vec<(R, T)> = Vec::new();
        let mut i: usize = 0;
        while i < self.terms.len()
            invariant
                self.wf(),
                i <= self.terms@.len(),
                negated@.len() == i,
                forall|j: int|
                    0 <= j < i ==> #[trigger] negated@[j] == (
                        R::neg_spec(self.terms@[j].0),
                        self.terms@[j].1,
                    ),
            decreases self.terms@.len() - i,
        {
            proof {
                lemma_neg_nonzero(self.terms@[i as int].0);
            }
            negated.push((self.terms[i].0.negate(), self.terms[i].1.duplicate()));
            i += 1;
        }
        proof {
            assert forall|j: int| 0 <= j < negated@.len() implies negated@[j].0 != R::zero_spec() by {
                lemma_neg_nonzero(self.terms@[j].0);
            }
            assert forall|j: int, k: int| 0 <= j < k < negated@.len() implies negated@[j].1
                != negated@[k].1 by {
                assert(negated@[j].1 == self.terms@[j].1);
                assert(negated@[k].1 == self.terms@[k].1);
            }
            assert(negated@ =~= map_coefficients(self.terms@, f));
            lemma_pairs_map_coefficients(self.terms@, f);
            assert(pairs_map(negated@) =~= map_neg(self@));
        }
        ModuleString { terms: negated, rule: PhantomData }
    }

    /// Mutates every pair through `f`, term and coefficient alike. The pairs are
    /// taken out, each is handed to `f`, and the results are merged back into the
    /// emptied element, so pairs whose terms have become equal sum their
    /// coefficients and sums of zero leave. The merge happens within this call:
    /// no pair can be lost.
    pub fn iter_mut<F: Fn((R, T)) -> (R, T)>(&mut self, f: F)
        requires
            old(self).wf(),
            forall|p: (R, T)| #[trigger] f.requires((p,)),
        ensures
            final(self).wf(),
            exists|q: Seq<(R, T)>|
                q.len() == old(self).pairs().len() && (forall|i: int|
                    0 <= i < q.len() ==> f.ensures((old(self).pairs()[i],), #[trigger] q[i]))
                    && final(self)@ == merge_all(Map::<T, R>::empty(), q, false),
    {
        let mut staged: Vec<(R, T)> = Vec::new();
        core::mem::swap(&mut self.terms, &mut staged);
        let mut mapped: Vec<(R, T)> = Vec::new();
        let mut i: usize = 0;
        while i < staged.len()
            invariant
                i <= staged@.len(),
                mapped@.len() == i,
                forall|p: (R, T)| #[trigger] f.requires((p,)),
                forall|j: int| 0 <= j < i ==> f.ensures((staged@[j],), #[trigger] mapped@[j]),
            decreases staged@.len() - i,
        {
            let p = (staged[i].0.duplicate(), staged[i].1.duplicate());
            let q = f(p);
            mapped.push(q);
            i += 1;
        }
        let ghost q = mapped@;
        assert(self@ == Map::<T, R>::empty());
        self.insert(mapped, false);
        assert(q.len() == old(self).pairs().len() && (forall|i: int|
            0 <= i < q.len() ==> f.ensures((old(self).pairs()[i],), #[trigger] q[i])));
    }
}

impl<R: Ring, T: Term, A: AlgebraRule<R, T>> ModuleString<R, T, A> {
    /// Multiplies on the right by the monomial `(r1, t1)`: each stored pair `(r, t)`
    /// becomes `(r * r1 * r2, t2)`, where the rule multiplies `t` by `t1` into `t2`
    /// and possibly `r2`, and the results are merged.
    pub fn mul_term(&mut self, r1: R, t1: T)
        requires
            old(self).wf(),
        ensures
            final(self).wf(),
            final(self)@ == monomial_product::<R, T, A>(old(self).pairs(), r1, t1),
    {
        let mut products: Vec<(R, T)> = Vec::new();
        let mut i: usize = 0;
        while i < self.terms.len()
            invariant
                i <= self.terms@.len(),
                products@.len() == i,
                forall|j: int|
                    0 <= j < i ==> #[trigger] products@[j] == term_product::<R, T, A>(
                        self.terms@[j],
                        r1,
                        t1,
                    ),
            decreases self.terms@.len() - i,
        {
            let (c, t2) = A::apply(self.terms[i].1.duplicate(), t1.duplicate());
            let r = self.terms[i].0.times(&r1);
            let r = match c {
                Some(r2) => r.times(&r2),
                None => r,
            };
            products.push((r, t2));
            i += 1;
        }
        assert(products@ =~= term_products::<R, T, A>(self.terms@, r1, t1));
        let mut result = Self::zero();
        result.insert(products, false);
        *self = result;
    }

    /// Multiplies on the right by another element: the sum of this element
    /// multiplied by each pair of `rhs`.
    pub fn mul_assign(&mut self, rhs: Self)
        requires
            old(self).wf(),
            rhs.wf(),
        ensures
            final(self).wf(),
            final(self)@ == product_map::<R, T, A>(old(self).pairs(), rhs.pairs()),
            final(self)@ == map_product::<R, T, A>(old(self)@, rhs@),
    {
        proof {
            Self::lemma_map_product(self, &rhs);
        }
        let mut acc = Self::zero();
        let mut i: usize = 0;
        while i < rhs.terms.len()
            invariant
                i <= rhs.terms@.len(),
                self.wf(),
                acc.wf(),
                acc@ == product_map::<R, T, A>(self.terms@, rhs.terms@.subrange(0, i as int)),
            decreases rhs.terms@.len() - i,
        {
            let mut part = self.duplicate();
            part.mul_term(rhs.terms[i].0.duplicate(), rhs.terms[i].1.duplicate());
            acc.add_assign(part);
            assert(rhs.terms@.subrange(0, i + 1).drop_last() =~= rhs.terms@.subrange(0, i as int));
            i += 1;
        }
        assert(rhs.terms@.subrange(0, i as int) =~= rhs.terms@);
        *self = acc;
    }

    /// The commutator `self * rhs - rhs * self`.
    pub fn commutator(self, rhs: Self) -> (r: Self)
        requires
            self.wf(),
            rhs.wf(),
        ensures
            r.wf(),
            r@ == map_diff(
                product_map::<R, T, A>(self.pairs(), rhs.pairs()),
                product_map::<R, T, A>(rhs.pairs(), self.pairs()),
            ),
    {
        let mut ab = self.duplicate();
        ab.mul_assign(rhs.duplicate());
        let mut ba = rhs;
        ba.mul_assign(self);
        ab.sub_assign(ba);
        ab
    }

    /// The product computed from the stored pairs is the product of the maps.
    pub proof fn lemma_map_product(x: &Self, y: &Self)
        requires
            x.wf(),
            y.wf(),
        ensures
            product_map::<R, T, A>(x.pairs(), y.pairs()) == map_product::<R, T, A>(x@, y@),
    {
        x.lemma_wf();
        y.lemma_wf();
        lemma_enumeration(x@);
        lemma_enumeration(y@);
        lemma_product_same_map::<R, T, A>(x.terms@, enumeration(x@), y.terms@, enumeration(y@));
    }

    /// The product of two elements depends only on their terms and coefficients,
    /// not on the order in which their pairs are stored.
    pub proof fn lemma_product_order_independent(x1: &Self, x2: &Self, y1: &Self, y2: &Self)
        requires
            x1.wf(),
            x2.wf(),
            y1.wf(),
            y2.wf(),
            x1@ == x2@,
            y1@ == y2@,
        ensures
            product_map::<R, T, A>(x1.pairs(), y1.pairs()) == product_map::<R, T, A>(
                x2.pairs(),
                y2.pairs(),
            ),
    {
        lemma_product_same_map::<R, T, A>(x1.terms@, x2.terms@, y1.terms@, y2.terms@);
    }

    /// The commutator of an element with itself, or with any element holding the
    /// same terms and coefficients, is zero.
    pub proof fn lemma_commutator_self(&self, other: &Self)
        requires
            self.wf(),
            other.wf(),
            self@ == other@,
        ensures
            map_diff(
                product_map::<R, T, A>(self.pairs(), other.pairs()),
                product_map::<R, T, A>(other.pairs(), self.pairs()),
            ) == Map::<T, R>::empty(),
    {
        lemma_product_same_map::<R, T, A>(self.terms@, other.terms@, other.terms@, self.terms@);
        lemma_diff_self(product_map::<R, T, A>(self.pairs(), other.pairs()));
    }
}

impl<R: Ring, T: Term, A: UnitalAlgebraRule<R, T>> ModuleString<R, T, A> {
    /// The multiplicative identity: the rule's unit term with coefficient one.
    pub fn one() -> (r: Self)
        ensures
            r.wf(),
            r@ == merge(Map::<T, R>::empty(), R::one_spec(), A::spec_one()),
    {
        Self::from_pair(R::one(), A::one())
    }

    /// The power to a natural exponent, by repeated squaring. When the product
    /// of elements is associative with a two-sided unit, this is the element
    /// multiplied by itself `n` times.
    pub fn pow(self, n: u64) -> (r: Self)
        requires
            self.wf(),
        ensures
            r.wf(),
            product_laws::<R, T, A>() ==> r@ == map_power::<R, T, A>(self@, n as nat),
    {
        let ghost x = self@;
        let ghost laws = product_laws::<R, T, A>();
        let ghost e: nat = 1;
        let ghost done: nat = 0;
        proof {
            self.lemma_wf();
            if laws {
                assert(map_power::<R, T, A>(x, 0) == unit_map::<R, T, A>());
                assert(map_product::<R, T, A>(unit_map::<R, T, A>(), x) == x);
            }
        }
        let mut result = Self::one();
        let mut base = self;
        let mut k = n;
        while k > 0
            invariant
                result.wf(),
                base.wf(),
                is_element_map(x),
                laws == product_laws::<R, T, A>(),
                laws ==> result@ == map_power::<R, T, A>(x, done),
                laws ==> base@ == map_power::<R, T, A>(x, e),
                done + e * k == n,
            decreases k,
        {
            let ghost k0 = k;
            let ghost e0 = e;
            let ghost done0 = done;
            if k % 2 == 1 {
                proof {
                    if laws {
                        lemma_map_power_add::<R, T, A>(x, done, e);
                    }
                    done = done + e;
                }
                result.mul_assign(base.duplicate());
            }
            proof {
                if laws {
                    lemma_map_power_add::<R, T, A>(x, e, e);
                }
                e = e + e;
            }
            let square = base.duplicate();
            base.mul_assign(square);
            k = k / 2;
            proof {
                assert(done + e * k == n) by (nonlinear_arith)
                    requires
                        done0 + e0 * k0 == n,
                        e == e0 + e0,
                        k == k0 / 2,
                        k0 % 2 == 1 ==> done == done0 + e0,
                        k0 % 2 != 1 ==> done == done0,
                ;
            }
        }
        result
    }

    /// The product of a sequence of elements, from the left, starting at one.
    pub fn product(elements: Vec<Self>) -> (r: Self)
        requires
            forall|i: int| 0 <= i < elements@.len() ==> (#[trigger] elements@[i]).wf(),
        ensures
            r.wf(),
            r@ == product_of_maps::<R, T, A>(elements@.map_values(|e: Self| e@)),
    {
        let mut acc = Self::one();
        let mut i: usize = 0;
        while i < elements.len()
            invariant
                i <= elements@.len(),
                acc.wf(),
                forall|i: int| 0 <= i < elements@.len() ==> (#[trigger] elements@[i]).wf(),
                acc@ == product_of_maps::<R, T, A>(
                    elements@.subrange(0, i as int).map_values(|e: Self| e@),
                ),
            decreases elements@.len() - i,
        {
            acc.mul_assign(elements[i].duplicate());
            assert(elements@.subrange(0, i + 1).map_values(|e: Self| e@).drop_last()
                =~= elements@.subrange(0, i as int).map_values(|e: Self| e@));
            i += 1;
        }
        assert(elements@.subrange(0, i as int) =~= elements@);
        acc
    }

    /// Tells whether this element is exactly one term, the rule's unit, with
    /// coefficient one.
    pub fn is_one(&self) -> (r: bool)
        requires
            self.wf(),
        ensures
            r == (self@ == Map::<T, R>::empty().insert(A::spec_one(), R::one_spec())),
    {
        proof {
            self.lemma_wf();
        }
        let ghost unit = Map::<T, R>::empty().insert(A::spec_one(), R::one_spec());
        assert(unit.dom() =~= set![A::spec_one()]);
        if self.terms.len() != 1 {
            assert(self@ != unit);
            return false;
        }
        proof {
            lemma_pairs_map_present(self.terms@, 0);
        }
        let r = self.terms[0].0.is_one() && A::is_one(&self.terms[0].1);
        proof {
            if r {
                assert(self.terms@.drop_last() =~= Seq::<(R, T)>::empty());
                assert(pairs_map(self.terms@.drop_last()) == Map::<T, R>::empty());
                assert(self@ == pairs_map(self.terms@.drop_last()).insert(
                    self.terms@[0].1,
                    self.terms@[0].0,
                ));
                assert(self@ =~= unit);
            }
        }
        r
    }
}

} // verus!
