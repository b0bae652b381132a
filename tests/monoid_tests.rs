use free_algebra::{FreeGroup, FreeInv, FreeMonoid, FreePow, FreePowMonoid, InvRule, MonoidalString};

use FreeInv::{Id, Inv};

fn group_word(letters: &[FreeInv<char>]) -> FreeGroup<char> {
    FreeGroup::product_letters(letters.to_vec())
}

#[test]
fn word_scenario_concatenation_keeps_every_letter() {
    let mut w: MonoidalString<FreeInv<char>, (), ()> = MonoidalString::one();
    w.mul_letter(Id('x'));
    w.mul_letter(Id('y'));
    w.mul_letter(Inv('x'));
    assert_eq!(w.iter(), &[Id('x'), Id('y'), Inv('x')]);
}

#[test]
fn word_scenario_group_separated_letters_stay() {
    let mut w = FreeGroup::<char>::one();
    w.mul_letter(Id('x'));
    w.mul_letter(Id('y'));
    w.mul_letter(Inv('x'));
    assert_eq!(w.iter(), &[Id('x'), Id('y'), Inv('x')]);
}

#[test]
fn word_scenario_group_adjacent_inverse_cancels() {
    let mut w = FreeGroup::<char>::one();
    w.mul_letter(Id('x'));
    w.mul_letter(Inv('x'));
    assert!(w.is_one());
    assert_eq!(w.len(), 0);
}

#[test]
fn cancellation_needs_equal_base() {
    let mut w = FreeGroup::<char>::one();
    w.mul_letter(Id('x'));
    w.mul_letter(Inv('y'));
    assert_eq!(w.iter(), &[Id('x'), Inv('y')]);
    w.mul_letter(Inv('y'));
    assert_eq!(w.iter(), &[Id('x'), Inv('y'), Inv('y')]);
}

#[test]
fn multiply_then_divide_by_letter_restores_word() {
    let mut w = group_word(&[Id('x'), Inv('y'), Id('z')]);
    let copy = w.duplicate();
    w.mul_letter(Inv('z'));
    w.div_letter(Inv('z'));
    assert!(w.equals(&copy));
    w.mul_letter(Id('q'));
    w.div_letter(Id('q'));
    assert!(w.equals(&copy));
}

#[test]
fn group_inverse_reverses_and_inverts() {
    let w = group_word(&[Id('x'), Inv('y')]);
    let i = w.duplicate().inv();
    assert_eq!(i.iter(), &[Id('y'), Inv('x')]);
    let mut p = w;
    p.mul_assign(i);
    assert!(p.is_one());
}

#[test]
fn group_division_by_itself_is_one() {
    let w = group_word(&[Id('a'), Id('b'), Inv('a')]);
    let mut q = w.duplicate();
    q.div_assign(w);
    assert!(q.is_one());
}

#[test]
fn exponent_compression_adds_exponents() {
    let mut w = FreePowMonoid::<char, i64>::one();
    w.mul_letter(FreePow('x', 2));
    w.mul_letter(FreePow('x', 3));
    assert_eq!(w.iter(), &[FreePow('x', 5)]);
}

#[test]
fn exponent_compression_zero_sum_vanishes() {
    let mut w = FreePowMonoid::<char, i64>::from_letter(FreePow('y', 1));
    w.mul_letter(FreePow('x', 2));
    w.mul_letter(FreePow('x', -2));
    assert_eq!(w.iter(), &[FreePow('y', 1)]);
}

#[test]
fn exponent_compression_other_base_is_pushed() {
    let a = FreePow::<char, i64>::from_base('a');
    let b = FreePow::<char, i64>::from_base('b');
    let w = a.mul(b);
    assert_eq!(w.iter(), &[FreePow('a', 1), FreePow('b', 1)]);
    let v = a.mul(a);
    assert_eq!(v.iter(), &[FreePow('a', 2)]);
    let u = a.div(a);
    assert!(u.is_one());
}

#[test]
fn free_pow_inverse_and_conversion() {
    let x = FreePow::<char, i64>('x', 3);
    assert_eq!(x.inv(), FreePow('x', -3));
    assert_eq!(FreePow::<char, i64>::from_inv(Inv('z')), FreePow('z', -1));
    assert_eq!(FreePow::<char, i64>::from_inv(Id('z')), FreePow('z', 1));
    let mut w = FreePowMonoid::<char, i64>::from_letter(FreePow('x', 3));
    w.mul_letter(FreePow('y', 1));
    let inv = w.duplicate().inv();
    assert_eq!(inv.iter(), &[FreePow('y', -1), FreePow('x', -3)]);
}

#[test]
fn power_law_on_concatenation() {
    let w = FreeMonoid::<char>::product_letters(vec!['a', 'b']);
    let cube = w.duplicate().pow(3);
    assert_eq!(cube.iter(), &['a', 'b', 'a', 'b', 'a', 'b']);
    let mut square = w.duplicate().pow(2);
    square.mul_assign(w.duplicate().pow(3));
    assert!(square.equals(&w.duplicate().pow(5)));
    assert!(w.duplicate().pow(0).is_one());
    assert!(w.duplicate().pow(1).equals(&w));
}

#[test]
fn power_law_with_compression() {
    let w = FreePowMonoid::<char, i64>::from_letter(FreePow('x', 2));
    let p = w.duplicate().pow(6);
    assert_eq!(p.iter(), &[FreePow('x', 12)]);
    let mut a = w.duplicate().pow(2);
    a.mul_assign(w.duplicate().pow(4));
    assert!(a.equals(&p));
}

#[test]
fn signed_power_inverts_for_negative_exponent() {
    let w = group_word(&[Id('x'), Id('y')]);
    let p = w.duplicate().pow_signed(-2);
    assert_eq!(p.iter(), &[Inv('y'), Inv('x'), Inv('y'), Inv('x')]);
    let q = w.duplicate().pow_signed(2);
    assert_eq!(q.iter(), &[Id('x'), Id('y'), Id('x'), Id('y')]);
    let mut r = q;
    r.mul_assign(p);
    assert!(r.is_one());
}

#[test]
fn commutator_of_copy_is_one() {
    let p = group_word(&[Id('x'), Inv('y'), Id('z')]);
    let c = p.duplicate().commutator(p);
    assert!(c.is_one());
}

#[test]
fn commutator_of_distinct_letters() {
    let a = FreeGroup::<char>::from_letter(Id('x'));
    let b = FreeGroup::<char>::from_letter(Id('y'));
    let c = a.commutator(b);
    assert_eq!(c.iter(), &[Inv('x'), Inv('y'), Id('x'), Id('y')]);
}

#[test]
fn additive_commutator_under_cancellation() {
    type Additive = MonoidalString<FreeInv<char>, InvRule, ()>;
    let a = Additive::from_letter(Id('x'));
    let b = Additive::from_letter(Id('y'));
    let c = a.duplicate().add_commutator(b);
    assert_eq!(c.iter(), &[Inv('x'), Inv('y'), Id('x'), Id('y')]);
    let z = a.duplicate().add_commutator(a);
    assert!(z.is_zero());
}

#[test]
fn additive_operations_use_additive_rule() {
    type Additive = MonoidalString<FreeInv<char>, InvRule, ()>;
    let mut w = Additive::zero();
    w.add_letter(Id('x'));
    w.add_letter(Id('y'));
    w.sub_letter(Id('y'));
    assert_eq!(w.iter(), &[Id('x')]);
    let mut v = Additive::sum_letters(vec![Id('x'), Id('y')]);
    v.sub_assign(Additive::from_letter(Id('y')));
    assert_eq!(v.iter(), &[Id('x')]);
    let n = v.neg();
    assert_eq!(n.iter(), &[Inv('x')]);
    let mut s = Additive::from_letter(Id('a'));
    s.add_assign(Additive::from_letter(Inv('a')));
    assert!(s.is_zero());
}

#[test]
fn sum_of_words_concatenates() {
    let words = vec![
        FreeMonoid::<char>::from_letter('a'),
        FreeMonoid::<char>::product_letters(vec!['b', 'c']),
        FreeMonoid::<char>::zero(),
        FreeMonoid::<char>::from_letter('d'),
    ];
    let s = FreeMonoid::<char>::sum(words);
    assert_eq!(s.iter(), &['a', 'b', 'c', 'd']);
    assert_eq!(FreeMonoid::<char>::sum_letters(vec!['x', 'y']).into_vec(), vec!['x', 'y']);
}

#[test]
fn word_access() {
    let w = FreeMonoid::<char>::product_letters(vec!['p', 'q', 'r']);
    assert_eq!(w.len(), 3);
    assert_eq!(w.index(1), Some(&'q'));
    assert_eq!(w.index(3), None);
    assert!(!w.is_one());
    assert!(w.equals(&w.duplicate()));
    assert!(!w.equals(&FreeMonoid::<char>::from_letter('p')));
}

#[test]
fn free_inv_tags() {
    let x = Id('x');
    assert!(x.is_id());
    assert!(!x.is_inv());
    assert_eq!(x.inv(), Inv('x'));
    assert!(Inv('x').is_inv());
    assert!(x.cancels(&Inv('x')));
    assert!(!x.cancels(&Inv('y')));
    assert!(!x.cancels(&Id('x')));
    let g = Id('x').mul(Inv('x'));
    assert!(g.is_one());
    let h = Id('x').div(Id('x'));
    assert!(h.is_one());
    let k = Id('x').mul(Id('y'));
    assert_eq!(k.iter(), &[Id('x'), Id('y')]);
    let m = Inv('x').mul_group(group_word(&[Id('x'), Id('y')]));
    assert_eq!(m.iter(), &[Id('y')]);
}

#[test]
fn product_of_words_rewrites_across_boundaries() {
    let words = vec![
        group_word(&[Id('x'), Id('y')]),
        group_word(&[Inv('y'), Id('z')]),
        FreeGroup::<char>::one(),
        group_word(&[Inv('z')]),
    ];
    let p = FreeGroup::<char>::product(words);
    assert_eq!(p.iter(), &[Id('x')]);
}

#[test]
fn power_of_group_word_with_cancellation() {
    let w = group_word(&[Id('x'), Id('y'), Inv('x')]);
    let p = w.duplicate().pow(3);
    assert_eq!(p.iter(), &[Id('x'), Id('y'), Id('y'), Id('y'), Inv('x')]);
    let big = w.duplicate().pow(1000);
    assert_eq!(big.len(), 1002);
}

#[test]
fn word_slice_lookup() {
    let w = FreeMonoid::<char>::product_letters(vec!['p', 'q', 'r', 's']);
    assert_eq!(w.slice(1, 3), Some(&['q', 'r'][..]));
    assert_eq!(w.slice(0, 4), Some(&['p', 'q', 'r', 's'][..]));
    assert_eq!(w.slice(2, 2), Some(&[][..]));
    assert_eq!(w.slice(3, 2), None);
    assert_eq!(w.slice(1, 5), None);
}
