//! Scenes and their variants. A scene is a narrative unit; each of its
//! variants is an alternate draft of the same unit, and exactly one variant
//! is active at a time.

use vstd::prelude::*;
use crate::ids::{Id, SceneKind, SceneVariantKind};
use crate::metadata::{bumped_version, Metadata};
use crate::scene_elements::{SceneElement, SceneHeading};

verus! {

/// One draft of a scene: an optional heading and an ordered run of elements.
#[derive(Debug, Clone)]
pub struct SceneVariant {
    pub id: Id<SceneVariantKind>,
    pub heading: Option<SceneHeading>,
    pub elements: Vec<SceneElement>,
    pub metadata: Metadata,
}

impl SceneVariant {
    /// A fresh, empty variant with no heading.
    pub fn new() -> (r: Self)
        ensures
            r.heading is None,
            r.elements@ =~= Seq::<SceneElement>::empty(),
            r.metadata.version == 1,
            r.metadata.created_at == r.metadata.updated_at,
    {
        SceneVariant {
            id: Id::new(),
            heading: None,
            elements: Vec::new(),
            metadata: Metadata::new(),
        }
    }
}

/// A narrative unit: a collection of variants, one of which is active.
#[derive(Debug, Clone)]
pub struct Scene {
    id: Id<SceneKind>,
    active_variant: Id<SceneVariantKind>,
    variants: Vec<SceneVariant>,
    metadata: Metadata,
}

impl Scene {
    pub closed spec fn spec_id(&self) -> u128 {
        self.id@
    }

    pub closed spec fn variants_seq(&self) -> Seq<SceneVariant> {
        self.variants@
    }

    pub closed spec fn active_variant_id(&self) -> u128 {
        self.active_variant@
    }

    pub closed spec fn spec_metadata(&self) -> Metadata {
        self.metadata
    }

    /// Whether the active variant is one of the scene's variants.
    pub open spec fn wf(&self) -> bool {
        exists|i: int|
            0 <= i < self.variants_seq().len() && self.variants_seq()[i].id@
                == self.active_variant_id()
    }

    /// A fresh scene with a single fresh, empty variant, which is active.
    pub fn new() -> (r: Self)
        ensures
            r.wf(),
            r.variants_seq().len() == 1,
            r.variants_seq()[0].heading is None,
            r.variants_seq()[0].elements@ == Seq::<SceneElement>::empty(),
            r.variants_seq()[0].metadata.version == 1,
            r.variants_seq()[0].metadata.created_at == r.variants_seq()[0].metadata.updated_at,
            r.spec_metadata().version == 1,
            r.spec_metadata().created_at == r.spec_metadata().updated_at,
    {
        let variant = SceneVariant::new();
        let variant_id = variant.id.clone();
        let mut variants = Vec::new();
        variants.push(variant);

        let r = Scene {
            id: Id::new(),
            active_variant: variant_id,
            variants,
            metadata: Metadata::new(),
        };
        proof {
            assert(r.variants_seq()[0].id@ == r.active_variant_id());
        }
        r
    }

    /// The scene's own identifier.
    pub fn id(&self) -> (r: Id<SceneKind>)
        ensures
            r@ == self.spec_id(),
    {
        self.id.clone()
    }

    /// The scene's revision bookkeeping.
    pub fn metadata(&self) -> (r: &Metadata)
        ensures
            *r == self.spec_metadata(),
    {
        &self.metadata
    }

    /// Records a modification of this scene: bumps the metadata version and
    /// moves its update timestamp; identity and content are unchanged.
    pub fn touch(&mut self)
        ensures
            touched(*old(self), *final(self)),
    {
        self.metadata.touch();
    }
}

/// How a scene relates to itself after one metadata touch: identity and
/// content unchanged, version bumped once, creation timestamp kept. The new
/// update timestamp depends on the clock and is not constrained.
pub open spec fn touched(a: Scene, b: Scene) -> bool {
    &&& b.spec_id() == a.spec_id()
    &&& b.active_variant_id() == a.active_variant_id()
    &&& b.variants_seq() == a.variants_seq()
    &&& b.spec_metadata().version == bumped_version(a.spec_metadata().version)
    &&& b.spec_metadata().created_at == a.spec_metadata().created_at
    &&& b.spec_metadata().revision_notes == a.spec_metadata().revision_notes
    &&& b.spec_metadata().tags == a.spec_metadata().tags
    &&& b.spec_metadata().locked == a.spec_metadata().locked
}

/// How a scene relates to itself after `n` metadata touches; zero touches
/// leave it exactly as it was.
pub open spec fn touched_n(a: Scene, b: Scene, n: nat) -> bool {
    &&& (n == 0 ==> b == a)
    &&& b.spec_id() == a.spec_id()
    &&& b.active_variant_id() == a.active_variant_id()
    &&& b.variants_seq() == a.variants_seq()
    &&& b.spec_metadata().version == crate::metadata::bumped_n(a.spec_metadata().version, n)
    &&& b.spec_metadata().created_at == a.spec_metadata().created_at
    &&& b.spec_metadata().revision_notes == a.spec_metadata().revision_notes
    &&& b.spec_metadata().tags == a.spec_metadata().tags
    &&& b.spec_metadata().locked == a.spec_metadata().locked
}

/// One touch is the touch relation counted once.
pub proof fn lemma_touched_once(a: Scene, b: Scene)
    requires
        touched(a, b),
    ensures
        touched_n(a, b, 1),
{
    assert(crate::metadata::bumped_n(a.spec_metadata().version, 1) == bumped_version(
        crate::metadata::bumped_n(a.spec_metadata().version, 0),
    ));
}

/// Touch counts compose: `n` touches followed by `m` more are `n + m`
/// touches.
pub proof fn lemma_touched_n_compose(a: Scene, b: Scene, c: Scene, n: nat, m: nat)
    requires
        touched_n(a, b, n),
        touched_n(b, c, m),
    ensures
        touched_n(a, c, n + m),
{
    crate::metadata::lemma_bumped_n_add(a.spec_metadata().version, n, m);
}

} // verus!
