//! Free algebraic constructions over an arbitrary base set: free modules and
//! algebras, whose terms merge additively, and free monoids and groups, whose
//! words are rewritten by a pluggable rule.
//!
//! - [`ring`]: what coefficients, terms and letters provide.
//! - [`module`]: linear combinations of terms and the rules that multiply terms.
//! - [`monoid`]: words of letters and the rules that rewrite them.
//! - [`specifics`]: the catalog of rules and the constructions named after them.

pub mod module;
pub mod monoid;
pub mod ring;
pub mod specifics;

pub use module::{AlgebraRule, ModuleString, UnitalAlgebraRule};
pub use monoid::{AssociativeMonoidRule, InvMonoidRule, MonoidRule, MonoidalString};
pub use ring::{Ring, Term};
pub use specifics::{
    AddRule, FreeGroup, FreeInv, FreeModule, FreeMonoid, FreePow, FreePowMonoid, InvRule,
    MonoidRing, MulRule, PowRule,
};
