use free_algebra::{AddRule, FreeModule, ModuleString, MonoidRing, Ring, Term};

type Poly = FreeModule<i64, char>;

fn module_of(pairs: &[(i64, char)]) -> Poly {
    Poly::from_pairs(pairs.to_vec())
}

#[test]
fn module_scenario_add_until_zero() {
    let mut p = Poly::zero();
    p.add_pair(1, 'x');
    assert_eq!(p.len(), 1);
    assert_eq!(p.get(&'x'), 1);
    p.add_pair(2, 'x');
    assert_eq!(p.len(), 1);
    assert_eq!(p.get(&'x'), 3);
    p.add_pair(-3, 'x');
    assert_eq!(p.len(), 0);
    assert!(p.is_zero());
    assert!(p.equals(&Poly::zero()));
}

#[test]
fn iter_mut_merges_colliding_terms() {
    let mut p = module_of(&[(1, 'x'), (1, 'y')]);
    p.iter_mut(|(c, _)| (c, 'a'));
    assert_eq!(p.len(), 1);
    assert_eq!(p.get(&'a'), 2);
    assert_eq!(p.get(&'x'), 0);
    assert_eq!(p.get(&'y'), 0);
}

#[test]
fn iter_mut_zero_sum_removes_entry() {
    let mut p = module_of(&[(1, 'x'), (1, 'y')]);
    p.iter_mut(|(c, t)| if t == 'y' { (-1, 'a') } else { (c, 'a') });
    assert!(p.is_zero());
    assert_eq!(p.get_ref(&'a'), None);
}

#[test]
fn iter_mut_untouched_restores_element() {
    let mut p = module_of(&[(3, 'x'), (2, 'y'), (1, 'z')]);
    let copy = p.duplicate();
    p.iter_mut(|pair| pair);
    assert!(p.equals(&copy));
}

#[test]
fn iter_mut_changes_coefficients_and_drops_zeros() {
    let mut p = module_of(&[(3, 'x'), (2, 'y')]);
    p.iter_mut(|(c, t)| if t == 'x' { (c * 2, t) } else { (0, t) });
    assert_eq!(p.len(), 1);
    assert_eq!(p.get(&'x'), 6);
    assert_eq!(p.get_ref(&'y'), None);
}

#[test]
fn merge_sums_coefficients_per_term() {
    let p = module_of(&[(1, 'x'), (2, 'y'), (5, 'x'), (-2, 'y'), (4, 'z')]);
    assert_eq!(p.get(&'x'), 6);
    assert_eq!(p.get(&'y'), 0);
    assert_eq!(p.get(&'z'), 4);
    assert_eq!(p.len(), 2);
    assert_eq!(p.get_ref(&'y'), None);
    for (c, _) in p.iter() {
        assert_ne!(*c, 0);
    }
}

#[test]
fn merge_zero_coefficient_is_ignored() {
    let p = module_of(&[(0, 'x')]);
    assert!(p.is_zero());
    let q = Poly::from_pair(0, 'x');
    assert_eq!(q.len(), 0);
}

#[test]
fn merge_order_does_not_matter() {
    let a = module_of(&[(1, 'x'), (2, 'y'), (3, 'x'), (-2, 'y'), (7, 'z')]);
    let b = module_of(&[(7, 'z'), (-2, 'y'), (3, 'x'), (2, 'y'), (1, 'x')]);
    assert!(a.equals(&b));
    let c = module_of(&[(7, 'z'), (4, 'x')]);
    assert!(a.equals(&c));
    let d = module_of(&[(7, 'z'), (5, 'x')]);
    assert!(!a.equals(&d));
}

#[test]
fn len_zero_exactly_for_zero() {
    let z = Poly::zero();
    assert_eq!(z.len(), 0);
    assert!(z.is_zero());
    let p = module_of(&[(3, 'x')]);
    assert_eq!(p.len(), 1);
    assert!(!p.is_zero());
}

#[test]
fn len_counts_distinct_terms() {
    let mut p = Poly::zero();
    p.add_pair(3, 'x');
    p.add_pair(2, 'y');
    p.add_pair(2, 'x');
    assert_eq!(p.len(), 2);
    assert_eq!(p.get(&'x'), 5);
}

#[test]
fn get_ref_and_get_defaults() {
    let p = module_of(&[(3, 'x'), (2, 'y'), (1, 'z')]);
    assert_eq!(p.get_ref(&'x'), Some(&3));
    assert_eq!(p.get_ref(&'y'), Some(&2));
    assert_eq!(p.get_ref(&'w'), None);
    assert_eq!(p.get(&'w'), 0);
}

#[test]
fn from_terms_counts_repeats() {
    let p = Poly::from_terms(vec!['x', 'y', 'x']);
    assert_eq!(p.get(&'x'), 2);
    assert_eq!(p.get(&'y'), 1);
    let q = Poly::from_term('q');
    assert_eq!(q.get(&'q'), 1);
}

#[test]
fn add_sub_terms_and_elements() {
    let mut p = Poly::zero();
    p.add_term('x');
    p.add_term('x');
    p.sub_term('y');
    p.sub_pair(2, 'x');
    assert_eq!(p.get(&'x'), 0);
    assert_eq!(p.get(&'y'), -1);
    let mut a = module_of(&[(1, 'x'), (2, 'y')]);
    a.add_assign(module_of(&[(3, 'x'), (-2, 'y'), (1, 'z')]));
    assert!(a.equals(&module_of(&[(4, 'x'), (1, 'z')])));
    let mut b = a.duplicate();
    b.sub_assign(a);
    assert!(b.is_zero());
}

#[test]
fn extend_and_sum() {
    let mut p = module_of(&[(1, 'x')]);
    p.extend(vec![(2, 'y'), (-1, 'x')]);
    assert!(p.equals(&module_of(&[(2, 'y')])));
    let s = Poly::sum(vec![module_of(&[(1, 'x')]), module_of(&[(2, 'x'), (1, 'y')]), module_of(&[(-1, 'y')])]);
    assert!(s.equals(&module_of(&[(3, 'x')])));
}

#[test]
fn scale_multiplies_and_purges() {
    let mut p = module_of(&[(2, 'x'), (3, 'y')]);
    p.scale(&2);
    assert!(p.equals(&module_of(&[(4, 'x'), (6, 'y')])));
    // 4 * 2^62 wraps to zero modulo 2^64, 6 * 2^62 to 2^63
    p.scale(&(1i64 << 62));
    assert_eq!(p.len(), 1);
    assert_eq!(p.get(&'y'), i64::MIN);
    p.scale(&0);
    assert!(p.is_zero());
}

#[test]
fn neg_negates_every_coefficient() {
    let p = module_of(&[(2, 'x'), (-5, 'y')]);
    let n = p.neg();
    assert!(n.equals(&module_of(&[(-2, 'x'), (5, 'y')])));
    assert_eq!(n.len(), 2);
}

#[test]
fn coefficients_wrap_modulo_two_to_the_64() {
    let p = module_of(&[(i64::MAX, 'x'), (1, 'x')]);
    assert_eq!(p.get(&'x'), i64::MIN);
    let q = module_of(&[(i64::MIN, 'x'), (i64::MIN, 'x')]);
    assert!(q.is_zero());
}

#[test]
fn mul_rule_multiplies_terms() {
    let mut p: MonoidRing<i64, i64> = MonoidRing::from_pair(2, 3);
    p.mul_term(5, 4);
    assert_eq!(p.len(), 1);
    assert_eq!(p.get(&12), 10);
}

#[test]
fn mul_distributes_and_merges() {
    // (x^2 + x^3) * (2 x^5 + x^7) with terms as exponents under addition
    let mut p: ModuleString<i64, i64, AddRule> = ModuleString::from_pairs(vec![(1, 2), (1, 3)]);
    let q: ModuleString<i64, i64, AddRule> = ModuleString::from_pairs(vec![(2, 5), (1, 6)]);
    p.mul_assign(q);
    // x^7*2 + x^8*2 + x^8 + x^9
    assert_eq!(p.get(&7), 2);
    assert_eq!(p.get(&8), 3);
    assert_eq!(p.get(&9), 1);
    assert_eq!(p.len(), 3);
}

#[test]
fn mul_cancels_to_zero() {
    // (1 - x) * (x) + ... with AddRule: (x^0 - x^1) * (x^1) = x^1 - x^2
    let mut p: ModuleString<i64, i64, AddRule> = ModuleString::from_pairs(vec![(1, 0), (-1, 1)]);
    p.mul_assign(ModuleString::from_pairs(vec![(1, 1), (1, 0)]));
    // (1 - x)(x + 1) = 1 - x^2
    assert_eq!(p.get(&0), 1);
    assert_eq!(p.get(&1), 0);
    assert_eq!(p.get(&2), -1);
    assert_eq!(p.len(), 2);
}

#[test]
fn commutator_of_copy_is_zero() {
    let p: ModuleString<i64, i64, AddRule> = ModuleString::from_pairs(vec![(3, 1), (2, 4), (-1, 0)]);
    let c = p.duplicate().commutator(p);
    assert!(c.is_zero());
}

#[test]
fn commutator_of_commuting_rule_is_zero() {
    let p: MonoidRing<i64, i64> = MonoidRing::from_pairs(vec![(1, 2), (1, 1)]);
    let q: MonoidRing<i64, i64> = MonoidRing::from_pairs(vec![(1, 3), (4, 1)]);
    assert!(p.commutator(q).is_zero());
}

#[test]
fn one_is_unit_term_with_coefficient_one() {
    let one: MonoidRing<i64, i64> = MonoidRing::one();
    assert!(one.is_one());
    assert_eq!(one.get(&1), 1);
    let add_one: ModuleString<i64, i64, AddRule> = ModuleString::one();
    assert!(add_one.is_one());
    assert_eq!(add_one.get(&0), 1);
    let two: MonoidRing<i64, i64> = MonoidRing::from_pair(2, 1);
    assert!(!two.is_one());
    let mut p: MonoidRing<i64, i64> = MonoidRing::from_pairs(vec![(3, 5), (2, 7)]);
    let copy = p.duplicate();
    p.mul_assign(MonoidRing::one());
    assert!(p.equals(&copy));
}

#[test]
fn ring_operations_on_i64() {
    assert_eq!(<i64 as Ring>::zero(), 0);
    assert_eq!(<i64 as Ring>::one(), 1);
    assert_eq!(i64::MAX.plus(&1), i64::MIN);
    assert_eq!(i64::MIN.negate(), i64::MIN);
    assert_eq!(5i64.negate(), -5);
    assert_eq!(i64::MAX.times(&2), -2);
    assert!(0i64.is_zero());
    assert!(1i64.is_one());
    assert!('a'.same(&'a'));
    assert!(!'a'.same(&'b'));
    assert_eq!(7u64.duplicate(), 7);
}

#[test]
fn power_by_squaring_expands_binomial() {
    // (1 + x)^5 with terms as exponents under addition
    let p: ModuleString<i64, i64, AddRule> = ModuleString::from_pairs(vec![(1, 0), (1, 1)]);
    let q = p.duplicate().pow(5);
    let expected = [1, 5, 10, 10, 5, 1];
    assert_eq!(q.len(), 6);
    for (k, c) in expected.iter().enumerate() {
        assert_eq!(q.get(&(k as i64)), *c);
    }
    let mut split = p.duplicate().pow(2);
    split.mul_assign(p.duplicate().pow(3));
    assert!(split.equals(&q));
    assert!(p.duplicate().pow(0).is_one());
    assert!(p.duplicate().pow(1).equals(&p));
}

#[test]
fn power_under_ring_multiplication() {
    let p: MonoidRing<i64, i64> = MonoidRing::from_pair(3, 2);
    let q = p.pow(4);
    assert_eq!(q.len(), 1);
    assert_eq!(q.get(&16), 81);
}

#[test]
fn product_of_elements_from_one() {
    let factors: Vec<MonoidRing<i64, i64>> = vec![
        MonoidRing::from_pairs(vec![(1, 2), (1, 3)]),
        MonoidRing::from_pair(2, 5),
        MonoidRing::from_pairs(vec![(1, 1), (-1, 7)]),
    ];
    let p = MonoidRing::product(factors);
    // (t2 + t3) * 2 t5 * (t1 - t7) = 2 t10 + 2 t15 - 2 t70 - 2 t105
    assert_eq!(p.len(), 4);
    assert_eq!(p.get(&10), 2);
    assert_eq!(p.get(&15), 2);
    assert_eq!(p.get(&70), -2);
    assert_eq!(p.get(&105), -2);
    assert!(MonoidRing::<i64, i64>::product(vec![]).is_one());
}

#[test]
fn div_scale_divides_and_purges() {
    let mut p = module_of(&[(7, 'x'), (-9, 'y'), (1, 'z')]);
    p.div_scale(&2);
    // quotients round toward zero; 1 / 2 is zero and leaves
    assert!(p.equals(&module_of(&[(3, 'x'), (-4, 'y')])));
    let mut q = module_of(&[(i64::MIN, 'x')]);
    q.div_scale(&-1);
    assert_eq!(q.get(&'x'), i64::MIN);
}

#[test]
fn i64_division_rounds_toward_zero() {
    assert_eq!((-7i64).divide(&2), -3);
    assert_eq!(7i64.divide(&-2), -3);
    assert_eq!((-7i64).divide(&-2), 3);
    assert_eq!(i64::MIN.divide(&-1), i64::MIN);
    assert_eq!(0i64.divide(&5), 0);
}

#[test]
fn scale_by_zero_empties() {
    let mut p = module_of(&[(2, 'x'), (3, 'y')]);
    p.scale(&0);
    assert!(p.is_zero());
    assert_eq!(p.get(&'x'), 0);
}
