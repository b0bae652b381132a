//! Words over an alphabet: [`MonoidalString`] and the rules that rewrite a word
//! as letters are appended to it.
//!
//! A word carries two rules, one for addition and one for multiplication; each
//! operation appends letters through one of them, and the rule keeps the word in
//! its canonical form.

use vstd::prelude::*;
use crate::ring::Term;
use core::marker::PhantomData;

verus! {

/// The word that `f` makes of `word` followed by each of `letters`, in order.
pub open spec fn fold_letters<C>(f: spec_fn(Seq<C>, C) -> Seq<C>, word: Seq<C>, letters: Seq<C>) -> Seq<C>
    decreases letters.len(),
{
    if letters.len() == 0 {
        word
    } else {
        f(fold_letters(f, word, letters.drop_last()), letters.last())
    }
}

/// The word that rule `R` makes of `word` followed by each of `letters`, in order.
pub open spec fn apply_all<C, R: MonoidRule<C>>(word: Seq<C>, letters: Seq<C>) -> Seq<C> {
    fold_letters(|w: Seq<C>, c: C| R::spec_apply(w, c), word, letters)
}

/// The letters of a word in reverse order, each inverted.
pub open spec fn inverse_letters<C, R: InvMonoidRule<C>>(word: Seq<C>) -> Seq<C> {
    Seq::new(word.len(), |i: int| R::spec_invert(word[word.len() - 1 - i]))
}

/// The sum of a sequence of words under rule `R`, from the left.
pub open spec fn fold_words<C, R: MonoidRule<C>>(words: Seq<Seq<C>>) -> Seq<C>
    decreases words.len(),
{
    if words.len() == 0 {
        Seq::empty()
    } else {
        apply_all::<C, R>(fold_words::<C, R>(words.drop_last()), words.last())
    }
}

/// The inverse of a word: its inverse letters appended to the empty word.
pub open spec fn inverse_word<C, R: InvMonoidRule<C>>(word: Seq<C>) -> Seq<C> {
    apply_all::<C, R>(Seq::empty(), inverse_letters::<C, R>(word))
}

/// The word multiplied by itself `n` times.
pub open spec fn word_power<C, R: MonoidRule<C>>(word: Seq<C>, n: nat) -> Seq<C>
    decreases n,
{
    if n == 0 {
        Seq::empty()
    } else {
        apply_all::<C, R>(word_power::<C, R>(word, (n - 1) as nat), word)
    }
}

///
/// How a word and one more letter combine.
///
/// The rule also says which letters and which words it considers canonical, and
/// proves that appending keeps words canonical and that the empty word is a
/// unit for canonical words.
///
pub trait MonoidRule<C>: Sized {
    spec fn spec_apply(word: Seq<C>, letter: C) -> Seq<C>;

    /// The letters that may stand in a canonical word.
    spec fn is_letter(letter: C) -> bool;

    /// The words in canonical form.
    spec fn is_canonical(word: Seq<C>) -> bool;

    proof fn lemma_empty_canonical()
        ensures
            Self::is_canonical(Seq::empty()),
    ;

    /// A canonical word is made of letters, and so is its prefix.
    proof fn lemma_canonical_prefix(word: Seq<C>)
        requires
            Self::is_canonical(word),
            word.len() > 0,
        ensures
            Self::is_canonical(word.drop_last()),
            Self::is_letter(word.last()),
    ;

    /// Appending a letter to a canonical word gives a canonical word.
    proof fn lemma_apply_canonical(word: Seq<C>, letter: C)
        requires
            Self::is_canonical(word),
            Self::is_letter(letter),
        ensures
            Self::is_canonical(Self::spec_apply(word, letter)),
    ;

    /// Appending a letter that leaves the word canonical only pushes it.
    proof fn lemma_apply_push(word: Seq<C>, letter: C)
        requires
            Self::is_canonical(word.push(letter)),
        ensures
            Self::spec_apply(word, letter) == word.push(letter),
    ;

    /// Appends one letter to a word.
    fn apply(word: Vec<C>, letter: C) -> (r: Vec<C>)
        ensures
            r@ == Self::spec_apply(word@, letter),
    ;

    /// Appends the letters of a second word, one at a time and in order.
    fn apply_many(word1: Vec<C>, word2: Vec<C>) -> (r: Vec<C>)
        ensures
            r@ == fold_letters(|w: Seq<C>, c: C| Self::spec_apply(w, c), word1@, word2@),
    {
        let ghost letters = word2@;
        let n = word2.len();
        let mut rest = word2;
        let mut reversed: Vec<C> = Vec::new();
        while rest.len() > 0
            invariant
                n == letters.len(),
                rest@ == letters.subrange(0, rest@.len() as int),
                reversed@.len() + rest@.len() == n,
                forall|j: int|
                    0 <= j < reversed@.len() ==> #[trigger] reversed@[j] == letters[n - 1 - j],
            decreases rest@.len(),
        {
            let c = rest.pop().unwrap();
            reversed.push(c);
        }
        let mut word = word1;
        let mut k: usize = 0;
        while reversed.len() > 0
            invariant
                n == letters.len(),
                reversed@.len() + k == n,
                forall|j: int|
                    0 <= j < reversed@.len() ==> #[trigger] reversed@[j] == letters[n - 1 - j],
                word@ == fold_letters(
                    |w: Seq<C>, c: C| Self::spec_apply(w, c),
                    word1@,
                    letters.subrange(0, k as int),
                ),
            decreases reversed@.len(),
        {
            let c = reversed.pop().unwrap();
            assert(letters.subrange(0, k + 1).drop_last() =~= letters.subrange(0, k as int));
            word = Self::apply(word, c);
            k += 1;
        }
        assert(letters.subrange(0, n as int) =~= letters);
        word
    }
}

/// A [`MonoidRule`] whose products do not depend on how they are grouped.
///
/// The obligation is that appending one letter to the right factor first gives
/// the same word as appending it to the product; grouping then never matters
/// (see [`lemma_apply_all_assoc`]).
pub trait AssociativeMonoidRule<C>: MonoidRule<C> {
    proof fn lemma_apply_compatible(x: Seq<C>, y: Seq<C>, letter: C)
        requires
            Self::is_canonical(x),
            Self::is_canonical(y),
            Self::is_letter(letter),
        ensures
            apply_all::<C, Self>(x, Self::spec_apply(y, letter)) == Self::spec_apply(
                apply_all::<C, Self>(x, y),
                letter,
            ),
    ;
}

/// Marks a [`MonoidRule`] whose products do not depend on the order of the factors.
pub trait CommutativeMonoidRule<C>: MonoidRule<C> {
}

/// Marks a [`MonoidRule`] that distributes over the rule `A`.
pub trait DistributiveMonoidRule<C, A: MonoidRule<C>>: MonoidRule<C> {
}

/// A [`MonoidRule`] where each letter has an inverse that cancels it.
pub trait InvMonoidRule<C>: MonoidRule<C> {
    spec fn spec_invert(letter: C) -> C;

    /// Inverting a letter gives a letter, and inverting twice gives it back.
    proof fn lemma_invert_letter(letter: C)
        requires
            Self::is_letter(letter),
        ensures
            Self::is_letter(Self::spec_invert(letter)),
            Self::spec_invert(Self::spec_invert(letter)) == letter,
    ;

    /// A letter followed by its inverse leaves a canonical word as it was.
    proof fn lemma_apply_inverse(word: Seq<C>, letter: C)
        requires
            Self::is_canonical(word),
            Self::is_letter(letter),
        ensures
            Self::spec_apply(Self::spec_apply(word, letter), Self::spec_invert(letter)) == word,
    ;

    /// Inverts a letter.
    fn invert(letter: C) -> (r: C)
        ensures
            r == Self::spec_invert(letter),
    ;
}

/// All letters of a sequence are letters of rule `R`.
pub open spec fn all_letters<C, R: MonoidRule<C>>(s: Seq<C>) -> bool {
    forall|i: int| 0 <= i < s.len() ==> R::is_letter(#[trigger] s[i])
}

/// The letters of a canonical word are letters of the rule.
pub proof fn lemma_canonical_all_letters<C, R: MonoidRule<C>>(word: Seq<C>)
    requires
        R::is_canonical(word),
    ensures
        all_letters::<C, R>(word),
    decreases word.len(),
{
    if word.len() > 0 {
        R::lemma_canonical_prefix(word);
        lemma_canonical_all_letters::<C, R>(word.drop_last());
        assert forall|i: int| 0 <= i < word.len() implies R::is_letter(#[trigger] word[i]) by {
            if i < word.len() - 1 {
                assert(word[i] == word.drop_last()[i]);
            }
        }
    }
}

/// Appending letters to a canonical word gives a canonical word.
pub proof fn lemma_apply_all_canonical<C, R: MonoidRule<C>>(word: Seq<C>, letters: Seq<C>)
    requires
        R::is_canonical(word),
        all_letters::<C, R>(letters),
    ensures
        R::is_canonical(apply_all::<C, R>(word, letters)),
    decreases letters.len(),
{
    if letters.len() > 0 {
        lemma_apply_all_canonical::<C, R>(word, letters.drop_last());
        R::lemma_apply_canonical(apply_all::<C, R>(word, letters.drop_last()), letters.last());
    }
}

/// Appending two sequences of letters is appending their concatenation.
pub proof fn lemma_apply_all_append<C, R: MonoidRule<C>>(word: Seq<C>, s: Seq<C>, t: Seq<C>)
    ensures
        apply_all::<C, R>(word, s + t) == apply_all::<C, R>(apply_all::<C, R>(word, s), t),
    decreases t.len(),
{
    if t.len() == 0 {
        assert(s + t =~= s);
    } else {
        assert((s + t).drop_last() =~= s + t.drop_last());
        lemma_apply_all_append::<C, R>(word, s, t.drop_last());
    }
}

/// The empty word is a left unit for canonical words.
pub proof fn lemma_apply_all_unit<C, R: MonoidRule<C>>(word: Seq<C>)
    requires
        R::is_canonical(word),
    ensures
        apply_all::<C, R>(Seq::empty(), word) == word,
    decreases word.len(),
{
    if word.len() > 0 {
        R::lemma_canonical_prefix(word);
        lemma_apply_all_unit::<C, R>(word.drop_last());
        assert(word.drop_last().push(word.last()) =~= word);
        R::lemma_apply_push(word.drop_last(), word.last());
    }
}

/// Under an associative rule, appending a sequence of letters to a product is
/// appending to its right factor first.
pub proof fn lemma_apply_all_assoc<C, R: AssociativeMonoidRule<C>>(x: Seq<C>, y: Seq<C>, s: Seq<C>)
    requires
        R::is_canonical(x),
        R::is_canonical(y),
        all_letters::<C, R>(s),
    ensures
        apply_all::<C, R>(x, apply_all::<C, R>(y, s)) == apply_all::<C, R>(
            apply_all::<C, R>(x, y),
            s,
        ),
    decreases s.len(),
{
    if s.len() > 0 {
        let s0 = s.drop_last();
        lemma_apply_all_assoc::<C, R>(x, y, s0);
        lemma_apply_all_canonical::<C, R>(y, s0);
        R::lemma_apply_compatible(x, apply_all::<C, R>(y, s0), s.last());
    }
}

/// Under an associative rule, the product of canonical words does not depend on
/// grouping.
pub proof fn lemma_word_product_assoc<C, R: AssociativeMonoidRule<C>>(
    x: Seq<C>,
    y: Seq<C>,
    z: Seq<C>,
)
    requires
        R::is_canonical(x),
        R::is_canonical(y),
        R::is_canonical(z),
    ensures
        apply_all::<C, R>(x, apply_all::<C, R>(y, z)) == apply_all::<C, R>(
            apply_all::<C, R>(x, y),
            z,
        ),
{
    lemma_canonical_all_letters::<C, R>(z);
    lemma_apply_all_assoc::<C, R>(x, y, z);
}

/// Powers of a canonical word are canonical.
pub proof fn lemma_power_canonical<C, R: MonoidRule<C>>(word: Seq<C>, n: nat)
    requires
        R::is_canonical(word),
    ensures
        R::is_canonical(word_power::<C, R>(word, n)),
    decreases n,
{
    if n == 0 {
        R::lemma_empty_canonical();
    } else {
        lemma_power_canonical::<C, R>(word, (n - 1) as nat);
        lemma_canonical_all_letters::<C, R>(word);
        lemma_apply_all_canonical::<C, R>(word_power::<C, R>(word, (n - 1) as nat), word);
    }
}

/// Under an associative rule, the power to a sum of exponents is the product of
/// the powers.
pub proof fn lemma_power_add<C, R: AssociativeMonoidRule<C>>(word: Seq<C>, a: nat, b: nat)
    requires
        R::is_canonical(word),
    ensures
        word_power::<C, R>(word, a + b) == apply_all::<C, R>(
            word_power::<C, R>(word, a),
            word_power::<C, R>(word, b),
        ),
    decreases b,
{
    if b > 0 {
        lemma_power_add::<C, R>(word, a, (b - 1) as nat);
        lemma_power_canonical::<C, R>(word, a);
        lemma_power_canonical::<C, R>(word, (b - 1) as nat);
        lemma_word_product_assoc::<C, R>(
            word_power::<C, R>(word, a),
            word_power::<C, R>(word, (b - 1) as nat),
            word,
        );
        assert((a + b - 1) as nat == a + (b - 1) as nat);
    }
}

/// Appending the inverse letters of a word undoes appending the word.
pub proof fn lemma_apply_all_inverse<C, R: InvMonoidRule<C>>(z: Seq<C>, w: Seq<C>)
    requires
        R::is_canonical(z),
        all_letters::<C, R>(w),
    ensures
        apply_all::<C, R>(apply_all::<C, R>(z, w), inverse_letters::<C, R>(w)) == z,
    decreases w.len(),
{
    if w.len() > 0 {
        let w0 = w.drop_last();
        let l = w.last();
        let y = apply_all::<C, R>(z, w0);
        assert(inverse_letters::<C, R>(w) =~= seq![R::spec_invert(l)] + inverse_letters::<C, R>(
            w0,
        ));
        lemma_apply_all_append::<C, R>(
            R::spec_apply(y, l),
            seq![R::spec_invert(l)],
            inverse_letters::<C, R>(w0),
        );
        assert(seq![R::spec_invert(l)].drop_last() =~= Seq::<C>::empty());
        assert(apply_all::<C, R>(R::spec_apply(y, l), seq![R::spec_invert(l)].drop_last())
            == R::spec_apply(y, l));
        assert(apply_all::<C, R>(R::spec_apply(y, l), seq![R::spec_invert(l)]) == R::spec_apply(
            R::spec_apply(y, l),
            R::spec_invert(l),
        ));
        lemma_apply_all_canonical::<C, R>(z, w0);
        R::lemma_apply_inverse(y, l);
        lemma_apply_all_inverse::<C, R>(z, w0);
        assert(apply_all::<C, R>(z, w) == R::spec_apply(y, l));
    } else {
        assert(inverse_letters::<C, R>(w).len() == 0);
    }
}

/// Inverting the letters twice gives the word back.
pub proof fn lemma_inverse_letters_twice<C, R: InvMonoidRule<C>>(w: Seq<C>)
    requires
        all_letters::<C, R>(w),
    ensures
        all_letters::<C, R>(inverse_letters::<C, R>(w)),
        inverse_letters::<C, R>(inverse_letters::<C, R>(w)) == w,
{
    let v = inverse_letters::<C, R>(w);
    assert forall|i: int| 0 <= i < v.len() implies R::is_letter(#[trigger] v[i]) by {
        R::lemma_invert_letter(w[w.len() - 1 - i]);
    }
    assert forall|i: int| 0 <= i < w.len() implies inverse_letters::<C, R>(v)[i] == w[i] by {
        R::lemma_invert_letter(w[i]);
    }
    assert(inverse_letters::<C, R>(v) =~= w);
}

/// The inverse of a canonical word, multiplied by the word, is the empty word.
pub proof fn lemma_inverse_word_left<C, R: InvMonoidRule<C>>(w: Seq<C>)
    requires
        R::is_canonical(w),
    ensures
        apply_all::<C, R>(inverse_word::<C, R>(w), w) == Seq::<C>::empty(),
        R::is_canonical(inverse_word::<C, R>(w)),
{
    lemma_canonical_all_letters::<C, R>(w);
    lemma_inverse_letters_twice::<C, R>(w);
    R::lemma_empty_canonical();
    lemma_apply_all_inverse::<C, R>(Seq::empty(), inverse_letters::<C, R>(w));
    lemma_apply_all_canonical::<C, R>(Seq::empty(), inverse_letters::<C, R>(w));
}

/// The commutator `a⁻¹b⁻¹ab` of two words under rule `R`.
pub open spec fn commutator_word<C, R: InvMonoidRule<C>>(a: Seq<C>, b: Seq<C>) -> Seq<C> {
    apply_all::<C, R>(
        apply_all::<C, R>(apply_all::<C, R>(inverse_word::<C, R>(a), inverse_word::<C, R>(b)), a),
        b,
    )
}

/// The commutator of a canonical word with itself is the empty word.
pub proof fn lemma_commutator_self<C, R: InvMonoidRule<C> + AssociativeMonoidRule<C>>(p: Seq<C>)
    requires
        R::is_canonical(p),
    ensures
        commutator_word::<C, R>(p, p) == Seq::<C>::empty(),
{
    let ip = inverse_word::<C, R>(p);
    lemma_inverse_word_left::<C, R>(p);
    lemma_word_product_assoc::<C, R>(ip, ip, p);
    assert(apply_all::<C, R>(ip, Seq::<C>::empty()) == ip);
}

///
/// An element of a free monoid or group: a word of letters of type `C`, added by
/// the rule `A` and multiplied by the rule `M`.
///
pub struct MonoidalString<C, A, M> {
    string: Vec<C>,
    rules: PhantomData<(A, M)>,
}

impl<C, A, M> View for MonoidalString<C, A, M> {
    type V = Seq<C>;

    /// The letters of the word, in order.
    closed spec fn view(&self) -> Seq<C> {
        self.string@
    }
}


impl<C, A, M> MonoidalString<C, A, M> {
    /// The word of one letter.
    pub fn from_letter(c: C) -> (r: Self)
        ensures
            r@ == seq![c],
    {
        let mut string: Vec<C> = Vec::new();
        string.push(c);
        assert(string@ =~= seq![c]);
        MonoidalString { string, rules: PhantomData }
    }

    /// The letters of the word, in order.
    pub fn iter(&self) -> (r: &[C])
        ensures
            r@ == self@,
    {
        self.string.as_slice()
    }

    /// The number of letters.
    pub fn len(&self) -> (r: usize)
        ensures
            r == self@.len(),
    {
        self.string.len()
    }

    /// The letter at a position, or `None` past the end.
    pub fn index(&self, i: usize) -> (r: Option<&C>)
        ensures
            match r {
                Some(c) => i < self@.len() && *c == self@[i as int],
                None => i >= self@.len(),
            },
    {
        if i < self.string.len() {
            Some(&self.string[i])
        } else {
            None
        }
    }

    /// The letters from position `start` up to, not including, `end`, or `None`
    /// when that range does not lie within the word.
    pub fn slice(&self, start: usize, end: usize) -> (r: Option<&[C]>)
        ensures
            match r {
                Some(s) => start <= end <= self@.len() && s@ == self@.subrange(
                    start as int,
                    end as int,
                ),
                None => !(start <= end <= self@.len()),
            },
    {
        if start <= end && end <= self.string.len() {
            Some(vstd::slice::slice_subrange(self.string.as_slice(), start, end))
        } else {
            None
        }
    }

    /// The letters of the word, taken out.
    pub fn into_vec(self) -> (r: Vec<C>)
        ensures
            r@ == self@,
    {
        self.string
    }

    /// Appends one letter through rule `R`.
    pub fn apply_one<R: MonoidRule<C>>(&mut self, rhs: C)
        ensures
            final(self)@ == R::spec_apply(old(self)@, rhs),
    {
        let mut temp: Vec<C> = Vec::new();
        core::mem::swap(&mut self.string, &mut temp);
        self.string = R::apply(temp, rhs);
    }

    /// Appends the letters of another word through rule `R`.
    pub fn apply<R: MonoidRule<C>>(&mut self, rhs: Self)
        ensures
            final(self)@ == apply_all::<C, R>(old(self)@, rhs@),
    {
        let mut temp: Vec<C> = Vec::new();
        core::mem::swap(&mut self.string, &mut temp);
        self.string = R::apply_many(temp, rhs.string);
    }

    /// The inverse under rule `R`: the letters reversed and inverted, appended
    /// one by one to the empty word so that the rule rewrites them.
    pub fn invert<R: InvMonoidRule<C>>(self) -> (r: Self)
        ensures
            r@ == inverse_word::<C, R>(self@),
    {
        let ghost w = self@;
        let n = self.string.len();
        let mut rest = self.string;
        let mut inverted: Vec<C> = Vec::new();
        while rest.len() > 0
            invariant
                n == w.len(),
                rest@ == w.subrange(0, rest@.len() as int),
                inverted@.len() + rest@.len() == n,
                forall|j: int|
                    0 <= j < inverted@.len() ==> #[trigger] inverted@[j] == R::spec_invert(
                        w[n - 1 - j],
                    ),
            decreases rest@.len(),
        {
            let c = rest.pop().unwrap();
            inverted.push(R::invert(c));
        }
        assert(inverted@ =~= inverse_letters::<C, R>(w));
        MonoidalString { string: R::apply_many(Vec::new(), inverted), rules: PhantomData }
    }
}

impl<C: Term, A, M> MonoidalString<C, A, M> {
    /// A copy of the word.
    pub fn duplicate(&self) -> (r: Self)
        ensures
            r@ == self@,
    {
        let mut string: Vec<C> = Vec::new();
        let mut i: usize = 0;
        while i < self.string.len()
            invariant
                i <= self.string@.len(),
                string@ == self.string@.subrange(0, i as int),
            decreases self.string@.len() - i,
        {
            string.push(self.string[i].duplicate());
            assert(string@ =~= self.string@.subrange(0, i + 1));
            i += 1;
        }
        assert(string@ =~= self.string@);
        MonoidalString { string, rules: PhantomData }
    }

    /// Tells whether two words have the same letters in the same order.
    pub fn equals(&self, other: &Self) -> (r: bool)
        ensures
            r == (self@ == other@),
    {
        if self.string.len() != other.string.len() {
            return false;
        }
        let mut i: usize = 0;
        while i < self.string.len()
            invariant
                self.string@.len() == other.string@.len(),
                i <= self.string@.len(),
                forall|j: int| 0 <= j < i ==> self.string@[j] == other.string@[j],
            decreases self.string@.len() - i,
        {
            if !self.string[i].same(&other.string[i]) {
                return false;
            }
            i += 1;
        }
        assert(self.string@ =~= other.string@);
        true
    }
}

impl<C, A: MonoidRule<C>, M> MonoidalString<C, A, M> {
    /// The additive identity: the empty word.
    pub fn zero() -> (r: Self)
        ensures
            r@ == Seq::<C>::empty(),
    {
        MonoidalString { string: Vec::new(), rules: PhantomData }
    }

    /// Tells whether this is the empty word.
    pub fn is_zero(&self) -> (r: bool)
        ensures
            r == (self@ == Seq::<C>::empty()),
    {
        let r = self.string.len() == 0;
        proof {
            if r {
                assert(self.string@ =~= Seq::<C>::empty());
            }
        }
        r
    }

    /// Adds one letter: appends it through the additive rule.
    pub fn add_letter(&mut self, rhs: C)
        ensures
            final(self)@ == A::spec_apply(old(self)@, rhs),
    {
        self.apply_one::<A>(rhs);
    }

    /// Adds a word: appends its letters through the additive rule.
    pub fn add_assign(&mut self, rhs: Self)
        ensures
            final(self)@ == apply_all::<C, A>(old(self)@, rhs@),
    {
        self.apply::<A>(rhs);
    }

    /// The sum of a sequence of letters: each appended to the empty word through
    /// the additive rule.
    pub fn sum_letters(letters: Vec<C>) -> (r: Self)
        ensures
            r@ == apply_all::<C, A>(Seq::empty(), letters@),
    {
        MonoidalString { string: A::apply_many(Vec::new(), letters), rules: PhantomData }
    }

    /// The sum of a sequence of words, from the left.
    pub fn sum(words: Vec<Self>) -> (r: Self)
        ensures
            r@ == fold_words::<C, A>(words@.map_values(|w: Self| w@)),
    {
        let ghost views = words@.map_values(|w: Self| w@);
        let n = words.len();
        let mut acc = Self::zero();
        let mut rest = words;
        let mut reversed: Vec<Self> = Vec::new();
        while rest.len() > 0
            invariant
                views.len() == n,
                rest@.map_values(|w: Self| w@) == views.subrange(0, rest@.len() as int),
                reversed@.len() + rest@.len() == views.len(),
                forall|j: int|
                    0 <= j < reversed@.len() ==> #[trigger] reversed@[j]@ == views[views.len() - 1
                        - j],
            decreases rest@.len(),
        {
            let ghost before = rest@;
            let w = rest.pop().unwrap();
            assert(before.map_values(|w: Self| w@)[before.len() - 1] == w@);
            assert(rest@.map_values(|w: Self| w@) =~= views.subrange(0, rest@.len() as int));
            reversed.push(w);
        }
        let mut k: usize = 0;
        while reversed.len() > 0
            invariant
                views.len() == n,
                reversed@.len() + k == views.len(),
                forall|j: int|
                    0 <= j < reversed@.len() ==> #[trigger] reversed@[j]@ == views[views.len() - 1
                        - j],
                acc@ == fold_words::<C, A>(views.subrange(0, k as int)),
            decreases reversed@.len(),
        {
            let w = reversed.pop().unwrap();
            assert(views.subrange(0, k + 1).drop_last() =~= views.subrange(0, k as int));
            acc.add_assign(w);
            k += 1;
        }
        assert(views.subrange(0, k as int) =~= views);
        acc
    }
}

impl<C, A, M: MonoidRule<C>> MonoidalString<C, A, M> {
    /// The multiplicative identity: the empty word.
    pub fn one() -> (r: Self)
        ensures
            r@ == Seq::<C>::empty(),
    {
        MonoidalString { string: Vec::new(), rules: PhantomData }
    }

    /// Tells whether this is the empty word.
    pub fn is_one(&self) -> (r: bool)
        ensures
            r == (self@ == Seq::<C>::empty()),
    {
        let r = self.string.len() == 0;
        proof {
            if r {
                assert(self.string@ =~= Seq::<C>::empty());
            }
        }
        r
    }

    /// Multiplies by one letter: appends it through the multiplicative rule.
    pub fn mul_letter(&mut self, rhs: C)
        ensures
            final(self)@ == M::spec_apply(old(self)@, rhs),
    {
        self.apply_one::<M>(rhs);
    }

    /// Multiplies by a word: appends its letters through the multiplicative rule.
    pub fn mul_assign(&mut self, rhs: Self)
        ensures
            final(self)@ == apply_all::<C, M>(old(self)@, rhs@),
    {
        self.apply::<M>(rhs);
    }

    /// The product of a sequence of letters: each appended to the empty word
    /// through the multiplicative rule.
    pub fn product_letters(letters: Vec<C>) -> (r: Self)
        ensures
            r@ == apply_all::<C, M>(Seq::empty(), letters@),
    {
        MonoidalString { string: M::apply_many(Vec::new(), letters), rules: PhantomData }
    }

    /// The product of a sequence of words, from the left.
    pub fn product(words: Vec<Self>) -> (r: Self)
        ensures
            r@ == fold_words::<C, M>(words@.map_values(|w: Self| w@)),
    {
        let ghost views = words@.map_values(|w: Self| w@);
        let n = words.len();
        let mut acc = Self::one();
        let mut rest = words;
        let mut reversed: Vec<Self> = Vec::new();
        while rest.len() > 0
            invariant
                views.len() == n,
                rest@.map_values(|w: Self| w@) == views.subrange(0, rest@.len() as int),
                reversed@.len() + rest@.len() == views.len(),
                forall|j: int|
                    0 <= j < reversed@.len() ==> #[trigger] reversed@[j]@ == views[views.len() - 1
                        - j],
            decreases rest@.len(),
        {
            let ghost before = rest@;
            let w = rest.pop().unwrap();
            assert(before.map_values(|w: Self| w@)[before.len() - 1] == w@);
            assert(rest@.map_values(|w: Self| w@) =~= views.subrange(0, rest@.len() as int));
            reversed.push(w);
        }
        let mut k: usize = 0;
        while reversed.len() > 0
            invariant
                views.len() == n,
                reversed@.len() + k == views.len(),
                forall|j: int|
                    0 <= j < reversed@.len() ==> #[trigger] reversed@[j]@ == views[views.len() - 1
                        - j],
                acc@ == fold_words::<C, M>(views.subrange(0, k as int)),
            decreases reversed@.len(),
        {
            let w = reversed.pop().unwrap();
            assert(views.subrange(0, k + 1).drop_last() =~= views.subrange(0, k as int));
            acc.mul_assign(w);
            k += 1;
        }
        assert(views.subrange(0, k as int) =~= views);
        acc
    }
}

impl<C, A: InvMonoidRule<C>, M> MonoidalString<C, A, M> {
    /// Subtracts one letter: adds its inverse.
    pub fn sub_letter(&mut self, rhs: C)
        ensures
            final(self)@ == A::spec_apply(old(self)@, A::spec_invert(rhs)),
    {
        self.apply_one::<A>(A::invert(rhs));
    }

    /// The additive inverse.
    pub fn neg(self) -> (r: Self)
        ensures
            r@ == inverse_word::<C, A>(self@),
    {
        self.invert::<A>()
    }

    /// Subtracts a word: adds its additive inverse.
    pub fn sub_assign(&mut self, rhs: Self)
        ensures
            final(self)@ == apply_all::<C, A>(old(self)@, inverse_word::<C, A>(rhs@)),
    {
        self.apply::<A>(rhs.neg());
    }
}

impl<C, A, M: InvMonoidRule<C>> MonoidalString<C, A, M> {
    /// Divides by one letter: multiplies by its inverse.
    pub fn div_letter(&mut self, rhs: C)
        ensures
            final(self)@ == M::spec_apply(old(self)@, M::spec_invert(rhs)),
    {
        self.apply_one::<M>(M::invert(rhs));
    }

    /// The multiplicative inverse.
    pub fn inv(self) -> (r: Self)
        ensures
            r@ == inverse_word::<C, M>(self@),
    {
        self.invert::<M>()
    }

    /// Divides by a word: multiplies by its inverse.
    pub fn div_assign(&mut self, rhs: Self)
        ensures
            final(self)@ == apply_all::<C, M>(old(self)@, inverse_word::<C, M>(rhs@)),
    {
        self.apply::<M>(rhs.inv());
    }
}

impl<C: Term, A, M: InvMonoidRule<C> + AssociativeMonoidRule<C>> MonoidalString<C, A, M> {
    /// The multiplicative commutator `a⁻¹b⁻¹ab`.
    pub fn commutator(self, rhs: Self) -> (r: Self)
        ensures
            r@ == commutator_word::<C, M>(self@, rhs@),
    {
        let mut r = self.duplicate().inv();
        r.mul_assign(rhs.duplicate().inv());
        r.mul_assign(self);
        r.mul_assign(rhs);
        r
    }

    /// The power to a signed exponent: a negative exponent gives the inverse of
    /// the power to its magnitude.
    pub fn pow_signed(self, n: i64) -> (r: Self)
        requires
            M::is_canonical(self@),
        ensures
            r@ == if n >= 0 {
                word_power::<C, M>(self@, n as nat)
            } else {
                inverse_word::<C, M>(word_power::<C, M>(self@, (-n) as nat))
            },
    {
        if n >= 0 {
            self.pow(n as u64)
        } else {
            let magnitude: u64 = (-(n + 1)) as u64 + 1;
            self.pow(magnitude).inv()
        }
    }
}

impl<C: Term, A: InvMonoidRule<C> + AssociativeMonoidRule<C>, M> MonoidalString<C, A, M> {
    /// The additive commutator `-a-b+a+b`.
    pub fn add_commutator(self, rhs: Self) -> (r: Self)
        ensures
            r@ == commutator_word::<C, A>(self@, rhs@),
    {
        let mut r = self.duplicate().neg();
        r.add_assign(rhs.duplicate().neg());
        r.add_assign(self);
        r.add_assign(rhs);
        r
    }
}

impl<C: Term, A, M: AssociativeMonoidRule<C>> MonoidalString<C, A, M> {
    /// The power to a natural exponent, by repeated squaring.
    pub fn pow(self, n: u64) -> (r: Self)
        requires
            M::is_canonical(self@),
        ensures
            r@ == word_power::<C, M>(self@, n as nat),
    {
        let ghost w = self@;
        let ghost e: nat = 1;
        let ghost done: nat = 0;
        proof {
            lemma_apply_all_unit::<C, M>(w);
            assert(word_power::<C, M>(w, 0) == Seq::<C>::empty());
        }
        let mut result = Self::one();
        let mut base = self;
        let mut k = n;
        while k > 0
            invariant
                M::is_canonical(w),
                result@ == word_power::<C, M>(w, done),
                base@ == word_power::<C, M>(w, e),
                done + e * k == n,
            decreases k,
        {
            let ghost k0 = k;
            let ghost e0 = e;
            let ghost done0 = done;
            if k % 2 == 1 {
                proof {
                    lemma_power_add::<C, M>(w, done, e);
                    done = done + e;
                }
                result.mul_assign(base.duplicate());
            }
            proof {
                lemma_power_add::<C, M>(w, e, e);
                e = e + e;
            }
            let square = base.duplicate();
            base.mul_assign(square);
            k = k / 2;
            proof {
                assert(done + e * k == n) by (nonlinear_arith)
                    requires
                        done0 + e0 * k0 == n,
                        e == e0 + e0,
                        k == k0 / 2,
                        k0 % 2 == 1 ==> done == done0 + e0,
                        k0 % 2 != 1 ==> done == done0,
                ;
            }
        }
        result
    }
}

} // verus!
