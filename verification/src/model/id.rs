//! Integer identifiers and id-space conventions.
//!
//! Every RDF term is an integer, and what a term is follows from its range:
//!
//! * entities (IRIs, blank nodes): `[0, LITERAL_FIRST_ID)`
//! * literals: `[LITERAL_FIRST_ID, u32::MAX)`
//! * predicates: a separate space `[0, u32::MAX)`
//!
//! Subjects are always entities and an object is either, so one `u32` is enough
//! at the object position.

use vstd::prelude::*;

verus! {

/// Type of an entity or literal id.
pub type EntityLiteralId = u32;

/// Type of a predicate id.
pub type PredId = u32;

/// Sentinel for "no such entity or literal".
pub const INVALID_ENTITY_LITERAL_ID: EntityLiteralId = 0xffff_ffff;

/// Sentinel for "no such predicate".
pub const INVALID_PRED_ID: PredId = 0xffff_ffff;

/// First literal id: object ids from here on denote literals, smaller ids
/// denote entities.
pub const LITERAL_FIRST_ID: EntityLiteralId = 2_000_000_000;

/// The ids of entities.
pub open spec fn entity_range(id: EntityLiteralId) -> bool {
    id < LITERAL_FIRST_ID
}

/// The ids of literals: the upper range without the sentinel.
pub open spec fn literal_range(id: EntityLiteralId) -> bool {
    LITERAL_FIRST_ID <= id < INVALID_ENTITY_LITERAL_ID
}

/// Is this entity-or-literal id an entity (IRI or blank node)?
pub fn is_entity_id(id: EntityLiteralId) -> (b: bool)
    ensures
        b == entity_range(id),
{
    id < LITERAL_FIRST_ID
}

/// Is this entity-or-literal id a literal?
pub fn is_literal_id(id: EntityLiteralId) -> (b: bool)
    ensures
        b == literal_range(id),
{
    id >= LITERAL_FIRST_ID && id != INVALID_ENTITY_LITERAL_ID
}

/// What an object id refers to.
#[derive(Debug, Clone, Copy, PartialEq, Eq, Structural)]
pub enum ObjectKind {
    Entity,
    Literal,
}

impl ObjectKind {
    /// Classify an object id by its range. The sentinel counts as an entity.
    pub fn of(id: EntityLiteralId) -> (kind: ObjectKind)
        ensures
            kind == (if literal_range(id) {
                ObjectKind::Literal
            } else {
                ObjectKind::Entity
            }),
    {
        if is_literal_id(id) {
            ObjectKind::Literal
        } else {
            ObjectKind::Entity
        }
    }
}

/// The three classes of id are disjoint and cover every `u32`: an id is an
/// entity, a literal, or the sentinel, and never two of these.
pub proof fn law_id_spaces_partition(id: EntityLiteralId)
    ensures
        entity_range(id) || literal_range(id) || id == INVALID_ENTITY_LITERAL_ID,
        !(entity_range(id) && literal_range(id)),
        !entity_range(INVALID_ENTITY_LITERAL_ID),
        !literal_range(INVALID_ENTITY_LITERAL_ID),
{
}

} // verus!
