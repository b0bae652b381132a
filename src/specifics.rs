//! The catalog of rules: concatenation, cancellation of inverse letters,
//! compression of exponents, and multiplication of terms by ring addition or
//! ring multiplication; and the named constructions built from them.

use vstd::prelude::*;
use crate::ring::{Ring, Term, lemma_zero_plus, lemma_neg_nonzero, lemma_neg_neg};
use crate::module::{AlgebraRule, AssociativeAlgebraRule, CommutativeAlgebraRule, UnitalAlgebraRule, ModuleString};
use crate::monoid::{
    MonoidRule,
    AssociativeMonoidRule,
    InvMonoidRule,
    MonoidalString,
    apply_all,
    fold_letters,
    lemma_apply_all_canonical,
};

verus! {

// Concatenation: the free monoid.
/// Concatenation: every letter is pushed unchanged.
impl<C> MonoidRule<C> for () {
    open spec fn spec_apply(word: Seq<C>, letter: C) -> Seq<C> {
        word.push(letter)
    }

    open spec fn is_letter(letter: C) -> bool {
        true
    }

    open spec fn is_canonical(word: Seq<C>) -> bool {
        true
    }

    proof fn lemma_empty_canonical() {
    }

    proof fn lemma_canonical_prefix(word: Seq<C>) {
    }

    proof fn lemma_apply_canonical(word: Seq<C>, letter: C) {
    }

    proof fn lemma_apply_push(word: Seq<C>, letter: C) {
    }

    fn apply(word: Vec<C>, letter: C) -> (r: Vec<C>) {
        let mut word = word;
        word.push(letter);
        word
    }

    fn apply_many(word1: Vec<C>, word2: Vec<C>) -> (r: Vec<C>) {
        let mut word1 = word1;
        let mut word2 = word2;
        let ghost (a, b) = (word1@, word2@);
        word1.append(&mut word2);
        proof {
            lemma_concat::<C>(|w: Seq<C>, c: C| Self::spec_apply(w, c), a, b);
        }
        word1
    }
}

/// Folding letters with a function that pushes each one concatenates them.
pub proof fn lemma_concat<C>(f: spec_fn(Seq<C>, C) -> Seq<C>, word: Seq<C>, letters: Seq<C>)
    requires
        forall|w: Seq<C>, c: C| #[trigger] f(w, c) == w.push(c),
    ensures
        fold_letters(f, word, letters) == word + letters,
    decreases letters.len(),
{
    if letters.len() == 0 {
        assert(word + letters =~= word);
    } else {
        lemma_concat::<C>(f, word, letters.drop_last());
        assert(word + letters =~= (word + letters.drop_last()).push(letters.last()));
    }
}

impl<C> AssociativeMonoidRule<C> for () {
    proof fn lemma_apply_compatible(x: Seq<C>, y: Seq<C>, letter: C) {
        assert(y.push(letter).drop_last() =~= y);
    }
}

// Cancellation of inverse letters: the free group.
///
/// A letter of a free group: an element of `T`, or its symbolic inverse.
///
#[derive(Clone, Copy, Debug, PartialEq, Eq, Hash)]
pub enum FreeInv<T> {
    /// An element of `T`.
    Id(T),
    /// The symbolic inverse of an element of `T`.
    Inv(T),
}

impl<T> FreeInv<T> {
    /// The same element with the other tag.
    pub open spec fn flipped(self) -> Self {
        match self {
            FreeInv::Id(x) => FreeInv::Inv(x),
            FreeInv::Inv(x) => FreeInv::Id(x),
        }
    }

    /// Tells whether this is an inverse.
    pub fn is_inv(&self) -> (r: bool)
        ensures
            r == (*self is Inv),
    {
        match self {
            FreeInv::Inv(_) => true,
            _ => false,
        }
    }

    /// Tells whether this is not an inverse.
    pub fn is_id(&self) -> (r: bool)
        ensures
            r == (*self is Id),
    {
        match self {
            FreeInv::Id(_) => true,
            _ => false,
        }
    }

    /// The inverse letter.
    pub fn inv(self) -> (r: Self)
        ensures
            r == self.flipped(),
    {
        match self {
            FreeInv::Id(x) => FreeInv::Inv(x),
            FreeInv::Inv(x) => FreeInv::Id(x),
        }
    }
}

impl<T: Term> FreeInv<T> {
    /// Tells whether `other` is the inverse of this letter.
    pub fn cancels(&self, other: &Self) -> (r: bool)
        ensures
            r == (*other == self.flipped()),
    {
        match (self, other) {
            (FreeInv::Id(x), FreeInv::Inv(y)) => x.same(y),
            (FreeInv::Inv(x), FreeInv::Id(y)) => x.same(y),
            _ => false,
        }
    }

    /// The group element `self * rhs`.
    pub fn mul(self, rhs: Self) -> (r: FreeGroup<T>)
        ensures
            r@ == inv_apply(seq![self], rhs),
    {
        let mut r = FreeGroup::<T>::from_letter(self);
        r.mul_letter(rhs);
        r
    }

    /// The group element `self * rhs⁻¹`.
    pub fn div(self, rhs: Self) -> (r: FreeGroup<T>)
        ensures
            r@ == inv_apply(seq![self], rhs.flipped()),
    {
        self.mul(rhs.inv())
    }

    /// The group element `self * rhs`.
    pub fn mul_group(self, rhs: FreeGroup<T>) -> (r: FreeGroup<T>)
        ensures
            r@ == apply_all::<FreeInv<T>, InvRule>(seq![self], rhs@),
    {
        let mut r = FreeGroup::<T>::from_letter(self);
        r.mul_assign(rhs);
        r
    }
}

impl<T: Term> Term for FreeInv<T> {
    fn same(&self, other: &Self) -> (r: bool) {
        match (self, other) {
            (FreeInv::Id(x), FreeInv::Id(y)) => x.same(y),
            (FreeInv::Inv(x), FreeInv::Inv(y)) => x.same(y),
            _ => false,
        }
    }

    fn duplicate(&self) -> (r: Self) {
        match self {
            FreeInv::Id(x) => FreeInv::Id(x.duplicate()),
            FreeInv::Inv(x) => FreeInv::Inv(x.duplicate()),
        }
    }
}

/// Appending under cancellation: a letter that is the inverse of the last one
/// removes it; any other letter is pushed.
pub open spec fn inv_apply<T>(word: Seq<FreeInv<T>>, letter: FreeInv<T>) -> Seq<FreeInv<T>> {
    if word.len() > 0 && letter == word.last().flipped() {
        word.drop_last()
    } else {
        word.push(letter)
    }
}

/// No letter is followed by its inverse.
pub open spec fn inv_canonical<T>(word: Seq<FreeInv<T>>) -> bool {
    forall|i: int| 0 <= i < word.len() - 1 ==> word[i + 1] != (#[trigger] word[i]).flipped()
}

/// A letter followed by its inverse leaves a canonical word as it was.
pub proof fn lemma_cancellation<T>(word: Seq<FreeInv<T>>, x: FreeInv<T>)
    requires
        inv_canonical(word),
    ensures
        inv_apply(inv_apply(word, x), x.flipped()) == word,
{
    let n = word.len();
    if n > 0 && x == word.last().flipped() {
        let w0 = word.drop_last();
        assert(x.flipped() == word.last());
        if w0.len() > 0 {
            assert(word[n - 1] != word[n - 2].flipped());
        }
        assert(w0.push(word.last()) =~= word);
    } else {
        assert(word.push(x).drop_last() =~= word);
    }
}

/// Cancellation of a letter against its inverse.
pub struct InvRule;

impl<T: Term> MonoidRule<FreeInv<T>> for InvRule {
    open spec fn spec_apply(word: Seq<FreeInv<T>>, letter: FreeInv<T>) -> Seq<FreeInv<T>> {
        inv_apply(word, letter)
    }

    open spec fn is_letter(letter: FreeInv<T>) -> bool {
        true
    }

    open spec fn is_canonical(word: Seq<FreeInv<T>>) -> bool {
        inv_canonical(word)
    }

    proof fn lemma_empty_canonical() {
    }

    proof fn lemma_canonical_prefix(word: Seq<FreeInv<T>>) {
        assert forall|i: int| 0 <= i < word.drop_last().len() - 1 implies word.drop_last()[i + 1]
            != (#[trigger] word.drop_last()[i]).flipped() by {
            assert(word[i + 1] != word[i].flipped());
        }
    }

    proof fn lemma_apply_canonical(word: Seq<FreeInv<T>>, letter: FreeInv<T>) {
        let r = inv_apply(word, letter);
        assert forall|i: int| 0 <= i < r.len() - 1 implies r[i + 1] != (#[trigger] r[i]).flipped() by {
            if i < word.len() - 1 {
                assert(word[i + 1] != word[i].flipped());
            }
        }
    }

    proof fn lemma_apply_push(word: Seq<FreeInv<T>>, letter: FreeInv<T>) {
        let w = word.push(letter);
        if word.len() > 0 {
            assert(w[word.len() as int] != w[word.len() - 1].flipped());
        }
    }

    fn apply(word: Vec<FreeInv<T>>, letter: FreeInv<T>) -> (r: Vec<FreeInv<T>>) {
        let mut word = word;
        let n = word.len();
        if n > 0 && word[n - 1].cancels(&letter) {
            let _ = word.pop();
        } else {
            word.push(letter);
        }
        word
    }
}

impl<T: Term> AssociativeMonoidRule<FreeInv<T>> for InvRule {
    proof fn lemma_apply_compatible(x: Seq<FreeInv<T>>, y: Seq<FreeInv<T>>, letter: FreeInv<T>) {
        if y.len() > 0 && letter == y.last().flipped() {
            let y0 = y.drop_last();
            lemma_apply_all_canonical::<FreeInv<T>, InvRule>(x, y0);
            lemma_cancellation(apply_all::<FreeInv<T>, InvRule>(x, y0), y.last());
        } else {
            assert(y.push(letter).drop_last() =~= y);
        }
    }
}

impl<T: Term> InvMonoidRule<FreeInv<T>> for InvRule {
    open spec fn spec_invert(letter: FreeInv<T>) -> FreeInv<T> {
        letter.flipped()
    }

    proof fn lemma_invert_letter(letter: FreeInv<T>) {
    }

    proof fn lemma_apply_inverse(word: Seq<FreeInv<T>>, letter: FreeInv<T>) {
        lemma_cancellation(word, letter);
    }

    fn invert(letter: FreeInv<T>) -> (r: FreeInv<T>) {
        letter.inv()
    }
}

// Compression of exponents.
///
/// A letter raised to a power: base `C` and exponent `P`.
///
#[derive(Clone, Copy, Debug, PartialEq, Eq, Hash)]
pub struct FreePow<C, P>(pub C, pub P);

impl<C, P: Ring> FreePow<C, P> {
    /// The letter to the power one.
    pub fn from_base(c: C) -> (r: Self)
        ensures
            r == FreePow(c, P::one_spec()),
    {
        FreePow(c, P::one())
    }

    /// The letter to the power one, or to the power minus one for an inverse.
    pub fn from_inv(x: FreeInv<C>) -> (r: Self)
        ensures
            r == match x {
                FreeInv::Id(c) => FreePow(c, P::one_spec()),
                FreeInv::Inv(c) => FreePow(c, P::neg_spec(P::one_spec())),
            },
    {
        match x {
            FreeInv::Id(c) => FreePow(c, P::one()),
            FreeInv::Inv(c) => FreePow(c, P::one().negate()),
        }
    }

    /// The same base to the negated exponent.
    pub fn inv(self) -> (r: Self)
        ensures
            r == FreePow(self.0, P::neg_spec(self.1)),
    {
        FreePow(self.0, self.1.negate())
    }
}

impl<C: Term, P: Ring> FreePow<C, P> {
    /// The word `self * rhs`.
    pub fn mul(self, rhs: Self) -> (r: FreePowMonoid<C, P>)
        ensures
            r@ == pow_apply(seq![self], rhs),
    {
        let mut r = FreePowMonoid::<C, P>::from_letter(self);
        r.mul_letter(rhs);
        r
    }

    /// The word `self * rhs⁻¹`.
    pub fn div(self, rhs: Self) -> (r: FreePowMonoid<C, P>)
        ensures
            r@ == pow_apply(seq![self], FreePow(rhs.0, P::neg_spec(rhs.1))),
    {
        self.mul(rhs.inv())
    }
}

impl<C: Term, P: Ring> Term for FreePow<C, P> {
    fn same(&self, other: &Self) -> (r: bool) {
        self.0.same(&other.0) && self.1.same(&other.1)
    }

    fn duplicate(&self) -> (r: Self) {
        FreePow(self.0.duplicate(), self.1.duplicate())
    }
}

/// Appending under compression: a letter with the base of the last one adds its
/// exponent to it, and the pair leaves when the sum is zero; any other letter is
/// pushed.
pub open spec fn pow_apply<C, P: Ring>(word: Seq<FreePow<C, P>>, letter: FreePow<C, P>) -> Seq<
    FreePow<C, P>,
> {
    if word.len() > 0 && word.last().0 == letter.0 {
        let e = P::plus_spec(word.last().1, letter.1);
        if e == P::zero_spec() {
            word.drop_last()
        } else {
            word.drop_last().push(FreePow(letter.0, e))
        }
    } else {
        word.push(letter)
    }
}

/// No exponent is zero and no two neighbours share a base.
pub open spec fn pow_canonical<C, P: Ring>(word: Seq<FreePow<C, P>>) -> bool {
    &&& forall|i: int| 0 <= i < word.len() ==> (#[trigger] word[i]).1 != P::zero_spec()
    &&& forall|i: int| 0 <= i < word.len() - 1 ==> (#[trigger] word[i]).0 != word[i + 1].0
}

/// Appending the same base with exponents `p` then `q` to a word that does not
/// end in that base leaves one letter with exponent `p + q`, or none when that
/// sum is zero.
pub proof fn lemma_exponent_compression<C, P: Ring>(word: Seq<FreePow<C, P>>, b: C, p: P, q: P)
    requires
        p != P::zero_spec(),
        word.len() == 0 || word.last().0 != b,
    ensures
        pow_apply(pow_apply(word, FreePow(b, p)), FreePow(b, q)) == if P::plus_spec(p, q)
            == P::zero_spec() {
            word
        } else {
            word.push(FreePow(b, P::plus_spec(p, q)))
        },
{
    assert(word.push(FreePow(b, p)).drop_last() =~= word);
}

/// Appending the same base twice to a canonical word is appending it once with
/// the sum of the exponents, or nothing when the sum is zero.
proof fn lemma_pow_twice<C, P: Ring>(z: Seq<FreePow<C, P>>, b: C, e1: P, e2: P)
    requires
        pow_canonical(z),
        e1 != P::zero_spec(),
        e2 != P::zero_spec(),
    ensures
        pow_apply(pow_apply(z, FreePow(b, e1)), FreePow(b, e2)) == if P::plus_spec(e1, e2)
            == P::zero_spec() {
            z
        } else {
            pow_apply(z, FreePow(b, P::plus_spec(e1, e2)))
        },
{
    let n = z.len();
    if n > 0 && z.last().0 == b {
        let z0 = z.drop_last();
        let e0 = z.last().1;
        let s1 = P::plus_spec(e0, e1);
        let s12 = P::plus_spec(e1, e2);
        P::lemma_plus_assoc(e0, e1, e2);
        assert(z0.push(FreePow(b, e0)) =~= z);
        if s1 != P::zero_spec() {
            assert(z0.push(FreePow(b, s1)).drop_last() =~= z0);
            if s12 == P::zero_spec() {
                P::lemma_plus_zero(e0);
            }
        } else {
            if z0.len() > 0 {
                assert(z[n - 2].0 != z[n - 1].0);
            }
            assert(e0 != P::zero_spec());
            lemma_zero_plus(e2);
            if s12 == P::zero_spec() {
                // e0 == e0 + (e1 + e2) == (e0 + e1) + e2 == e2
                P::lemma_plus_zero(e0);
            }
        }
    } else {
        assert(z.push(FreePow(b, e1)).drop_last() =~= z);
    }
}

/// Compression of exponents on equal bases.
pub struct PowRule;

impl<C: Term, P: Ring> MonoidRule<FreePow<C, P>> for PowRule {
    open spec fn spec_apply(word: Seq<FreePow<C, P>>, letter: FreePow<C, P>) -> Seq<FreePow<C, P>> {
        pow_apply(word, letter)
    }

    open spec fn is_letter(letter: FreePow<C, P>) -> bool {
        letter.1 != P::zero_spec()
    }

    open spec fn is_canonical(word: Seq<FreePow<C, P>>) -> bool {
        pow_canonical(word)
    }

    proof fn lemma_empty_canonical() {
    }

    proof fn lemma_canonical_prefix(word: Seq<FreePow<C, P>>) {
        let w = word.drop_last();
        assert forall|i: int| 0 <= i < w.len() implies (#[trigger] w[i]).1 != P::zero_spec() by {
            assert(w[i] == word[i]);
        }
        assert forall|i: int| 0 <= i < w.len() - 1 implies (#[trigger] w[i]).0 != w[i + 1].0 by {
            assert(w[i] == word[i]);
        }
        assert(word[word.len() - 1].1 != P::zero_spec());
    }

    proof fn lemma_apply_canonical(word: Seq<FreePow<C, P>>, letter: FreePow<C, P>) {
        let r = pow_apply(word, letter);
        let n = word.len();
        assert forall|i: int| 0 <= i < r.len() implies (#[trigger] r[i]).1 != P::zero_spec() by {
            if i < n {
                assert(word[i].1 != P::zero_spec());
            }
        }
        assert forall|i: int| 0 <= i < r.len() - 1 implies (#[trigger] r[i]).0 != r[i + 1].0 by {
            if i < n - 1 {
                assert(word[i].0 != word[i + 1].0);
            }
            if i == n - 2 {
                assert(word[i].0 != word[i + 1].0);
            }
        }
    }

    proof fn lemma_apply_push(word: Seq<FreePow<C, P>>, letter: FreePow<C, P>) {
        let w = word.push(letter);
        if word.len() > 0 {
            assert(w[word.len() - 1].0 != w[word.len() as int].0);
        }
    }

    fn apply(word: Vec<FreePow<C, P>>, letter: FreePow<C, P>) -> (r: Vec<FreePow<C, P>>) {
        let mut word = word;
        let n = word.len();
        if n > 0 && word[n - 1].0.same(&letter.0) {
            let last = word.pop().unwrap();
            let e = last.1.plus(&letter.1);
            if !e.is_zero() {
                word.push(FreePow(letter.0, e));
            }
        } else {
            word.push(letter);
        }
        word
    }
}

impl<C: Term, P: Ring> AssociativeMonoidRule<FreePow<C, P>> for PowRule {
    proof fn lemma_apply_compatible(
        x: Seq<FreePow<C, P>>,
        y: Seq<FreePow<C, P>>,
        letter: FreePow<C, P>,
    ) {
        if y.len() > 0 && y.last().0 == letter.0 {
            let y0 = y.drop_last();
            let m = y.last();
            let e = P::plus_spec(m.1, letter.1);
            <PowRule as MonoidRule<FreePow<C, P>>>::lemma_canonical_prefix(y);
            lemma_apply_all_canonical::<FreePow<C, P>, PowRule>(x, y0);
            let z = apply_all::<FreePow<C, P>, PowRule>(x, y0);
            lemma_pow_twice(z, letter.0, m.1, letter.1);
            assert(FreePow(letter.0, m.1) == m);
            assert(FreePow(letter.0, letter.1) == letter);
            if e != P::zero_spec() {
                assert(y0.push(FreePow(letter.0, e)).drop_last() =~= y0);
            }
        } else {
            assert(y.push(letter).drop_last() =~= y);
        }
    }
}

impl<C: Term, P: Ring> InvMonoidRule<FreePow<C, P>> for PowRule {
    open spec fn spec_invert(letter: FreePow<C, P>) -> FreePow<C, P> {
        FreePow(letter.0, P::neg_spec(letter.1))
    }

    proof fn lemma_invert_letter(letter: FreePow<C, P>) {
        lemma_neg_nonzero(letter.1);
        lemma_neg_neg(letter.1);
    }

    proof fn lemma_apply_inverse(word: Seq<FreePow<C, P>>, letter: FreePow<C, P>) {
        lemma_neg_nonzero(letter.1);
        P::lemma_plus_neg(letter.1);
        lemma_pow_twice(word, letter.0, letter.1, P::neg_spec(letter.1));
        assert(FreePow(letter.0, letter.1) == letter);
    }

    fn invert(letter: FreePow<C, P>) -> (r: FreePow<C, P>) {
        letter.inv()
    }
}

// Rules that multiply terms which are themselves ring elements.
/// Multiplies terms by their ring addition; the unit term is zero.
pub struct AddRule;

/// Multiplies terms by their ring multiplication; the unit term is one.
pub struct MulRule;

impl<R, T: Ring> AlgebraRule<R, T> for AddRule {
    open spec fn spec_apply(t1: T, t2: T) -> (Option<R>, T) {
        (None, T::plus_spec(t1, t2))
    }

    fn apply(t1: T, t2: T) -> (r: (Option<R>, T)) {
        (None, t1.plus(&t2))
    }
}

impl<R, T: Ring> AssociativeAlgebraRule<R, T> for AddRule {
}

impl<R, T: Ring> CommutativeAlgebraRule<R, T> for AddRule {
}

impl<R, T: Ring> UnitalAlgebraRule<R, T> for AddRule {
    open spec fn spec_one() -> T {
        T::zero_spec()
    }

    fn one() -> (r: T) {
        T::zero()
    }

    fn is_one(t: &T) -> (r: bool) {
        t.is_zero()
    }
}

impl<R, T: Ring> AlgebraRule<R, T> for MulRule {
    open spec fn spec_apply(t1: T, t2: T) -> (Option<R>, T) {
        (None, T::times_spec(t1, t2))
    }

    fn apply(t1: T, t2: T) -> (r: (Option<R>, T)) {
        (None, t1.times(&t2))
    }
}

impl<R, T: Ring> UnitalAlgebraRule<R, T> for MulRule {
    open spec fn spec_one() -> T {
        T::one_spec()
    }

    fn one() -> (r: T) {
        T::one()
    }

    fn is_one(t: &T) -> (r: bool) {
        t.is_one()
    }
}

/// Linear combinations of terms of `T` over `R`, without a multiplication of terms.
pub type FreeModule<R, T> = ModuleString<R, T, ()>;

/// Linear combinations of ring elements, multiplied by the ring's multiplication.
pub type MonoidRing<R, T> = ModuleString<R, T, MulRule>;

/// Words under concatenation.
pub type FreeMonoid<C> = MonoidalString<C, (), ()>;

/// Words of letters and inverse letters, multiplied with cancellation.
pub type FreeGroup<T> = MonoidalString<FreeInv<T>, (), InvRule>;

/// Words of letters with exponents, multiplied with compression.
pub type FreePowMonoid<C, P> = MonoidalString<FreePow<C, P>, (), PowRule>;

} // verus!
