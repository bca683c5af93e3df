//! The RDF data model: terms, triples, and integer id conventions.

pub mod id;
pub mod term;

use vstd::prelude::*;

pub use id::{is_entity_id, is_literal_id, EntityLiteralId, ObjectKind, PredId};
pub use term::{ObjectType, Term, Triple};
pub use id::{INVALID_ENTITY_LITERAL_ID, INVALID_PRED_ID, LITERAL_FIRST_ID};

verus! {

/// A triple expressed entirely in integer ids.
///
/// `sub` and `obj` live in the entity-or-literal space; `pred` in the predicate
/// space. The kind of `obj` is recoverable from its range via [`ObjectKind::of`].
#[derive(Debug, Clone, Copy, PartialEq, Eq, Hash, PartialOrd, Ord, Structural)]
pub struct IdTriple {
    pub sub: EntityLiteralId,
    pub pred: PredId,
    pub obj: EntityLiteralId,
}

impl IdTriple {
    pub fn new(sub: EntityLiteralId, pred: PredId, obj: EntityLiteralId) -> (t: IdTriple)
        ensures
            t == (IdTriple { sub, pred, obj }),
    {
        IdTriple { sub, pred, obj }
    }
}

} // verus!
