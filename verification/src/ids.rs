//! Opaque unique identifiers, tagged at the type level with the kind of
//! entity they name, so that identifiers of different kinds cannot be mixed
//! up even though the underlying representation is the same.

use vstd::prelude::*;

verus! {

/// A universally-unique handle for an entity of kind `Kind`.
///
/// Equality is by the underlying value only; the tag has no runtime
/// representation. An identifier is created fresh for each new entity and is
/// never reused, but it may outlive its entity: holding an identifier does
/// not guarantee the entity still exists anywhere.
#[verifier::reject_recursive_types(Kind)]
#[derive(Debug)]
pub struct Id<Kind> {
    value: u128,
    kind: core::marker::PhantomData<Kind>,
}

/// The kind tag for scene identifiers.
#[derive(Debug)]
pub struct SceneKind;

/// The kind tag for scene-variant identifiers.
#[derive(Debug)]
pub struct SceneVariantKind;

/// The kind tag for author identifiers.
#[derive(Debug)]
pub struct AuthorKind;

/// The kind tag for character identifiers.
#[derive(Debug)]
pub struct CharacterKind;

/// The kind tag for dialogue identifiers.
#[derive(Debug)]
pub struct DialogueKind;

impl<Kind> View for Id<Kind> {
    type V = u128;

    closed spec fn view(&self) -> u128 {
        self.value
    }
}

/// Relies on `uuid::Uuid::new_v4`, which draws a fresh random version-4
/// UUID, and `Uuid::as_u128`, which returns its 128-bit value. The result
/// is random, so nothing is promised of it.
#[verifier::external_body]
fn fresh_id_value() -> u128 {
    uuid::Uuid::new_v4().as_u128()
}

impl<Kind> Id<Kind> {
    /// Draws a fresh identifier. Nothing is known of its value.
    pub fn new() -> Self {
        Id { value: fresh_id_value(), kind: core::marker::PhantomData }
    }

    /// The underlying 128-bit unique value.
    pub fn uuid(&self) -> (r: u128)
        ensures
            r == self@,
    {
        self.value
    }

    /// Wraps an existing unique value, for callers that obtained one
    /// elsewhere (for example from a stored UUID).
    pub fn from_value(value: u128) -> (r: Self)
        ensures
            r@ == value,
    {
        Id { value, kind: core::marker::PhantomData }
    }
}

impl<Kind> Clone for Id<Kind> {
    fn clone(&self) -> (r: Self)
        ensures
            r == *self,
    {
        Id { value: self.value, kind: core::marker::PhantomData }
    }
}

impl<Kind> PartialEq for Id<Kind> {
    fn eq(&self, other: &Self) -> bool {
        self.value == other.value
    }
}

impl<Kind> Eq for Id<Kind> {}

impl<Kind> vstd::std_specs::cmp::PartialEqSpecImpl for Id<Kind> {
    open spec fn obeys_eq_spec() -> bool {
        true
    }

    open spec fn eq_spec(&self, other: &Self) -> bool {
        self@ == other@
    }
}

} // verus!
