//! The storyboard: the project workbench that owns scene content, authors,
//! characters and the scene graph, and keeps them consistent.

use vstd::prelude::*;
use crate::author::Author;
use crate::character::Character;
use crate::ids::{AuthorKind, Id, SceneKind};
use crate::metadata::Metadata;
use crate::scene::{touched_n, Scene};
use crate::scene_graph::{
    graph_after_move, graph_with_edge, graph_with_member, graph_without_edge,
    graph_without_member, reaches, root_reaches, SceneGraph,
};
use crate::table::{assoc_contains, assoc_index, assoc_insert, assoc_map, assoc_remove,
    keys_distinct, lemma_assoc_row, lemma_remove_row};
use crate::title::Title;

verus! {

/// Why a structural operation was refused. Every variant names the
/// identifiers involved so a caller can report the exact failure.
#[derive(Debug, Clone)]
pub enum StoryboardError {
    /// The identifier is not present in the storyboard's content store.
    UnknownScene(Id<SceneKind>),
    /// `scene` is not currently a successor of `from`, so there is no edge
    /// to move.
    InvalidMove { scene: Id<SceneKind>, from: Id<SceneKind>, dest: Id<SceneKind> },
    /// Completing the move would make the scene its own (indirect)
    /// descendant.
    CycleDetected(Id<SceneKind>, Id<SceneKind>),
    /// The identifier is not present in the scene graph.
    SceneNotInGraph(Id<SceneKind>),
}

/// A structural change to a storyboard caused by an operation on the
/// underlying scene graph.
///
/// The graph produces an update describing *what* changed and the
/// storyboard decides *how* to react (touching metadata on the scenes the
/// update names). This keeps the graph purely structural — identifiers and
/// relationships only — while the storyboard stays the single owner of
/// scene data and side effects.
#[derive(Debug, Clone)]
pub enum StoryboardUpdate {
    Move { scene: Id<SceneKind>, from: Id<SceneKind>, dest: Id<SceneKind> },
    SceneAdded(Id<SceneKind>),
    SceneSetAsRoot(Id<SceneKind>),
    LinkedScenes { from: Id<SceneKind>, dest: Id<SceneKind> },
    SceneDeleted(Id<SceneKind>),
    EdgeDeleted { from: Id<SceneKind>, dest: Id<SceneKind> },
}

/// The script formats a story can follow.
#[derive(Debug, Clone, PartialEq, Eq, Structural)]
pub enum StoryTemplate {
    Teleplay,
    Screenplay,
    HalfHourSitcom,
    Novel,
}

/// How many times `k` occurs in `ids`.
pub open spec fn occurrences(ids: Seq<u128>, k: u128) -> nat
    decreases ids.len(),
{
    if ids.len() == 0 {
        0
    } else {
        occurrences(ids.drop_last(), k) + if ids.last() == k {
            1nat
        } else {
            0nat
        }
    }
}

/// Occurrence counts add up over concatenation.
pub proof fn lemma_occurrences_add(ids1: Seq<u128>, ids2: Seq<u128>, k: u128)
    ensures
        occurrences(ids1 + ids2, k) == occurrences(ids1, k) + occurrences(ids2, k),
    decreases ids2.len(),
{
    if ids2.len() == 0 {
        assert(ids1 + ids2 =~= ids1);
    } else {
        assert((ids1 + ids2).drop_last() =~= ids1 + ids2.drop_last());
        assert((ids1 + ids2).last() == ids2.last());
        lemma_occurrences_add(ids1, ids2.drop_last(), k);
    }
}

/// How one scene bank relates to another after the scenes named by `ids`
/// have been touched, in order, skipping names that hold no scene: the same
/// scenes, each touched as many times as its identifier occurs in `ids`.
pub open spec fn bank_touched(b0: Map<u128, Scene>, b1: Map<u128, Scene>, ids: Seq<u128>) -> bool {
    &&& b1.dom() == b0.dom()
    &&& forall|k: u128|
        #[trigger] b0.dom().contains(k) ==> touched_n(b0[k], b1[k], occurrences(ids, k))
}

/// Touching one list of scenes and then another touches their
/// concatenation.
pub proof fn lemma_bank_touched_compose(
    b0: Map<u128, Scene>,
    b1: Map<u128, Scene>,
    b2: Map<u128, Scene>,
    ids1: Seq<u128>,
    ids2: Seq<u128>,
)
    requires
        bank_touched(b0, b1, ids1),
        bank_touched(b1, b2, ids2),
    ensures
        bank_touched(b0, b2, ids1 + ids2),
{
    assert forall|k: u128| #[trigger] b0.dom().contains(k) implies touched_n(
        b0[k],
        b2[k],
        occurrences(ids1 + ids2, k),
    ) by {
        lemma_occurrences_add(ids1, ids2, k);
        crate::scene::lemma_touched_n_compose(
            b0[k],
            b1[k],
            b2[k],
            occurrences(ids1, k),
            occurrences(ids2, k),
        );
    }
}

/// The scene identifiers whose metadata a change notification touches.
pub open spec fn update_touch_ids(u: StoryboardUpdate) -> Seq<u128> {
    match u {
        StoryboardUpdate::Move { scene, from, dest } => seq![scene@, from@, dest@],
        StoryboardUpdate::SceneAdded(s) => seq![s@],
        StoryboardUpdate::SceneSetAsRoot(s) => seq![s@],
        StoryboardUpdate::SceneDeleted(s) => seq![s@],
        StoryboardUpdate::LinkedScenes { from, dest } => seq![from@, dest@],
        StoryboardUpdate::EdgeDeleted { from, dest } => seq![from@, dest@],
    }
}

/// The parts of a storyboard that structural scene operations never touch:
/// title, template, authors, characters and the storyboard's own metadata.
pub open spec fn same_side_data(a: Storyboard, b: Storyboard) -> bool {
    &&& b.spec_title() == a.spec_title()
    &&& b.spec_template() == a.spec_template()
    &&& b.authors_map() == a.authors_map()
    &&& b.characters_map() == a.characters_map()
    &&& b.spec_metadata() == a.spec_metadata()
}

/// The project workbench: the single owner of story content — title,
/// authors, scenes, characters, template — and of the scene graph that
/// orders the scenes.
///
/// Every structural operation validates the identifiers it is given against
/// the scene bank before delegating to the graph, and reacts to the graph's
/// change notification by touching the metadata of every scene the
/// notification names. The graph never sees content, and nothing mutates
/// the graph except through this coordination layer.
pub struct Storyboard {
    title: Option<Title>,
    authors: Vec<(u128, Author)>,
    scene_bank: Vec<(u128, Scene)>,
    characters: Vec<(u128, Character)>,
    template: Option<StoryTemplate>,
    scene_graph: SceneGraph,
    metadata: Metadata,
}

impl Storyboard {
    /// Well-formedness does not depend on the title, the template or the
    /// storyboard's own metadata.
    proof fn lemma_wf_same_stores(a: Storyboard, b: Storyboard)
        requires
            a.wf(),
            b.scene_bank == a.scene_bank,
            b.scene_graph == a.scene_graph,
            b.authors == a.authors,
            b.characters == a.characters,
        ensures
            b.wf(),
    {
        assert(b.bank() == a.bank());
        assert(b.graph() == a.graph());
        assert forall|x: u128| #[trigger] b.bank().dom().contains(x)
            <==> b.graph().dom().contains(x) by {
            assert(a.bank().dom().contains(x) <==> a.graph().dom().contains(x));
        }
    }

    /// Well-formedness does not depend on which authors or characters are
    /// present, as long as their tables stay duplicate-free.
    proof fn lemma_wf_same_scenes(a: Storyboard, b: Storyboard)
        requires
            a.wf(),
            b.scene_bank == a.scene_bank,
            b.scene_graph == a.scene_graph,
            keys_distinct(b.authors@),
            keys_distinct(b.characters@),
        ensures
            b.wf(),
    {
        assert(b.bank() == a.bank());
        assert(b.graph() == a.graph());
        assert forall|x: u128| #[trigger] b.bank().dom().contains(x)
            <==> b.graph().dom().contains(x) by {
            assert(a.bank().dom().contains(x) <==> a.graph().dom().contains(x));
        }
    }

    /// In a well-formed storyboard the content store and the scene graph
    /// hold exactly the same scene identifiers: every banked scene is a
    /// graph member and every graph member is banked.
    pub proof fn lemma_wf_bank_matches_graph(&self)
        requires
            self.wf(),
        ensures
            forall|x: u128| self.bank().dom().contains(x) <==> self.graph().dom().contains(x),
    {
    }

    pub closed spec fn spec_title(&self) -> Option<Title> {
        self.title
    }

    pub closed spec fn spec_template(&self) -> Option<StoryTemplate> {
        self.template
    }

    pub closed spec fn authors_map(&self) -> Map<u128, Author> {
        assoc_map(self.authors@)
    }

    pub closed spec fn characters_map(&self) -> Map<u128, Character> {
        assoc_map(self.characters@)
    }

    /// The content store: each scene identifier mapped to its scene.
    pub closed spec fn bank(&self) -> Map<u128, Scene> {
        assoc_map(self.scene_bank@)
    }

    /// The scene graph's model.
    pub closed spec fn graph(&self) -> Map<u128, Set<u128>> {
        self.scene_graph@
    }

    /// The scene graph's root entry points.
    pub closed spec fn graph_roots(&self) -> Set<u128> {
        self.scene_graph.roots()
    }

    pub closed spec fn spec_metadata(&self) -> Metadata {
        self.metadata
    }

    /// Internal well-formedness: the graph is well-formed, the three tables
    /// are duplicate-free, every banked scene sits under its own
    /// identifier, and the bank and the graph hold exactly the same scene
    /// identifiers.
    pub closed spec fn wf(&self) -> bool {
        &&& self.scene_graph.wf()
        &&& keys_distinct(self.scene_bank@)
        &&& keys_distinct(self.authors@)
        &&& keys_distinct(self.characters@)
        &&& forall|i: int|
            0 <= i < self.scene_bank@.len() ==> (#[trigger] self.scene_bank@[i]).1.spec_id()
                == self.scene_bank@[i].0
        &&& forall|x: u128| #[trigger] self.bank().dom().contains(x) <==> self.graph().dom().contains(x)
    }

    /// Sets or replaces the storyboard title.
    pub fn update_title(&mut self, title: Title)
        requires
            old(self).wf(),
        ensures
            final(self).wf(),
            final(self).spec_title() == Some(title),
            final(self).spec_template() == old(self).spec_template(),
            final(self).authors_map() == old(self).authors_map(),
            final(self).characters_map() == old(self).characters_map(),
            final(self).spec_metadata() == old(self).spec_metadata(),
            final(self).bank() == old(self).bank(),
            final(self).graph() == old(self).graph(),
            final(self).graph_roots() == old(self).graph_roots(),
    {
        self.title = Some(title);
        proof {
            Self::lemma_wf_same_stores(*old(self), *self);
        }
    }

    /// Removes the storyboard title, returning it to an unnamed state.
    pub fn clear_title(&mut self)
        requires
            old(self).wf(),
        ensures
            final(self).wf(),
            final(self).spec_title() is None,
            final(self).spec_template() == old(self).spec_template(),
            final(self).authors_map() == old(self).authors_map(),
            final(self).characters_map() == old(self).characters_map(),
            final(self).spec_metadata() == old(self).spec_metadata(),
            final(self).bank() == old(self).bank(),
            final(self).graph() == old(self).graph(),
            final(self).graph_roots() == old(self).graph_roots(),
    {
        self.title = None;
        proof {
            Self::lemma_wf_same_stores(*old(self), *self);
        }
    }

    /// Sets or replaces the active story template.
    pub fn update_template(&mut self, template: StoryTemplate)
        requires
            old(self).wf(),
        ensures
            final(self).wf(),
            final(self).spec_template() == Some(template),
            final(self).spec_title() == old(self).spec_title(),
            final(self).authors_map() == old(self).authors_map(),
            final(self).characters_map() == old(self).characters_map(),
            final(self).spec_metadata() == old(self).spec_metadata(),
            final(self).bank() == old(self).bank(),
            final(self).graph() == old(self).graph(),
            final(self).graph_roots() == old(self).graph_roots(),
    {
        self.template = Some(template);
        proof {
            Self::lemma_wf_same_stores(*old(self), *self);
        }
    }

    /// Clears the currently selected story template.
    pub fn clear_template(&mut self)
        requires
            old(self).wf(),
        ensures
            final(self).wf(),
            final(self).spec_template() is None,
            final(self).spec_title() == old(self).spec_title(),
            final(self).authors_map() == old(self).authors_map(),
            final(self).characters_map() == old(self).characters_map(),
            final(self).spec_metadata() == old(self).spec_metadata(),
            final(self).bank() == old(self).bank(),
            final(self).graph() == old(self).graph(),
            final(self).graph_roots() == old(self).graph_roots(),
    {
        self.template = None;
        proof {
            Self::lemma_wf_same_stores(*old(self), *self);
        }
    }

    /// Adds an author; an author already present under the same identifier
    /// is replaced.
    pub fn add_author(&mut self, author: Author)
        requires
            old(self).wf(),
        ensures
            final(self).wf(),
            final(self).authors_map() == old(self).authors_map().insert(
                author.spec_id(),
                author,
            ),
            final(self).spec_title() == old(self).spec_title(),
            final(self).spec_template() == old(self).spec_template(),
            final(self).characters_map() == old(self).characters_map(),
            final(self).spec_metadata() == old(self).spec_metadata(),
            final(self).bank() == old(self).bank(),
            final(self).graph() == old(self).graph(),
            final(self).graph_roots() == old(self).graph_roots(),
    {
        let id = author.id().uuid();
        assoc_insert(&mut self.authors, id, author);
        proof {
            Self::lemma_wf_same_scenes(*old(self), *self);
        }
    }

    /// Removes an author by identifier; removing an absent author changes
    /// nothing.
    pub fn remove_author(&mut self, author_id: &Id<AuthorKind>)
        requires
            old(self).wf(),
        ensures
            final(self).wf(),
            final(self).authors_map() == old(self).authors_map().remove(author_id@),
            final(self).spec_title() == old(self).spec_title(),
            final(self).spec_template() == old(self).spec_template(),
            final(self).characters_map() == old(self).characters_map(),
            final(self).spec_metadata() == old(self).spec_metadata(),
            final(self).bank() == old(self).bank(),
            final(self).graph() == old(self).graph(),
            final(self).graph_roots() == old(self).graph_roots(),
    {
        assoc_remove(&mut self.authors, author_id.uuid());
        proof {
            Self::lemma_wf_same_scenes(*old(self), *self);
        }
    }

    /// Adds a character; a character already present under the same
    /// identifier is replaced.
    pub fn add_character(&mut self, character: Character)
        requires
            old(self).wf(),
        ensures
            final(self).wf(),
            final(self).characters_map() == old(self).characters_map().insert(
                character.spec_id(),
                character,
            ),
            final(self).spec_title() == old(self).spec_title(),
            final(self).spec_template() == old(self).spec_template(),
            final(self).authors_map() == old(self).authors_map(),
            final(self).spec_metadata() == old(self).spec_metadata(),
            final(self).bank() == old(self).bank(),
            final(self).graph() == old(self).graph(),
            final(self).graph_roots() == old(self).graph_roots(),
    {
        let id = character.id().uuid();
        assoc_insert(&mut self.characters, id, character);
        proof {
            Self::lemma_wf_same_scenes(*old(self), *self);
        }
    }

    /// Adds a new scene: registers its identifier in the scene graph, stores
    /// its content in the scene bank, and touches the new scene's metadata
    /// as it does for every structural change.
    pub fn add_scene(&mut self, scene: Scene)
        requires
            old(self).wf(),
        ensures
            final(self).wf(),
            same_side_data(*old(self), *final(self)),
            bank_touched(
                old(self).bank().insert(scene.spec_id(), scene),
                final(self).bank(),
                seq![scene.spec_id()],
            ),
            final(self).graph() == graph_with_member(old(self).graph(), scene.spec_id()),
            final(self).graph_roots() == old(self).graph_roots(),
    {
        let id = scene.id();
        let v = id.uuid();
        let graph_update = self.scene_graph.add_scene(&id);
        assoc_insert(&mut self.scene_bank, v, scene);
        proof {
            let ghost pre = old(self).scene_bank@;
            assert forall|x: u128| #[trigger] self.bank().dom().contains(x)
                <==> self.graph().dom().contains(x) by {
                assert(old(self).bank().dom().contains(x) <==> old(
                    self,
                ).graph().dom().contains(x));
            }
            assert forall|j: int| 0 <= j < self.scene_bank@.len() implies (
            #[trigger] self.scene_bank@[j]).1.spec_id() == self.scene_bank@[j].0 by {
                if self.scene_bank@[j].0 != v {
                    let q = choose|q: int| 0 <= q < pre.len() && pre[q] == self.scene_bank@[j];
                } else {
                    lemma_assoc_row(self.scene_bank@, j);
                }
            }
        }
        self.apply_update(graph_update);
    }

    /// Touches the metadata of the scene `scene` names, if the bank holds
    /// it; an identifier with no banked scene is ignored.
    fn update_metadata(&mut self, scene: &Id<SceneKind>)
        requires
            old(self).wf(),
        ensures
            final(self).wf(),
            same_side_data(*old(self), *final(self)),
            final(self).graph() == old(self).graph(),
            final(self).graph_roots() == old(self).graph_roots(),
            bank_touched(old(self).bank(), final(self).bank(), seq![scene@]),
    {
        let v = scene.uuid();
        let idx = assoc_index(&self.scene_bank, v);
        match idx {
            Some(i) => {
                let ghost pre = self.scene_bank@;
                let ghost osc = self.scene_bank@[i as int].1;
                let mut row = self.scene_bank.remove(i);
                proof {
                    lemma_remove_row(pre, i as int);
                    lemma_assoc_row(pre, i as int);
                }
                row.1.touch();
                let ghost ts = row.1;
                assoc_insert(&mut self.scene_bank, v, row.1);
                proof {
                    assert(self.bank() =~= old(self).bank().insert(v, ts));
                    assert(old(self).bank()[v] == osc);
                    crate::scene::lemma_touched_once(osc, ts);
                    assert(self.bank().dom() =~= old(self).bank().dom());
                    assert forall|k: u128| #[trigger] old(self).bank().dom().contains(
                        k,
                    ) implies touched_n(
                        old(self).bank()[k],
                        self.bank()[k],
                        occurrences(seq![scene@], k),
                    ) by {
                        assert(seq![scene@].drop_last() =~= Seq::<u128>::empty());
                        assert(occurrences(Seq::<u128>::empty(), k) == 0);
                        if k == v {
                            assert(occurrences(seq![scene@], k) == 1);
                        } else {
                            assert(occurrences(seq![scene@], k) == 0);
                            assert(self.bank()[k] == old(self).bank()[k]);
                        }
                    }
                    assert forall|x: u128| #[trigger] self.bank().dom().contains(x)
                        <==> self.graph().dom().contains(x) by {
                        assert(old(self).bank().dom().contains(x) <==> old(
                            self,
                        ).graph().dom().contains(x));
                    }
                    assert forall|j: int| 0 <= j < self.scene_bank@.len() implies (
                    #[trigger] self.scene_bank@[j]).1.spec_id() == self.scene_bank@[j].0 by {
                        if self.scene_bank@[j].0 != v {
                            let q = choose|q: int|
                                0 <= q < pre.len() && pre[q] == self.scene_bank@[j];
                        } else {
                            lemma_assoc_row(self.scene_bank@, j);
                        }
                    }
                }
            },
            None => {
                proof {
                    assert forall|k: u128| #[trigger] old(self).bank().dom().contains(
                        k,
                    ) implies touched_n(
                        old(self).bank()[k],
                        self.bank()[k],
                        occurrences(seq![scene@], k),
                    ) by {
                        assert(seq![scene@].drop_last() =~= Seq::<u128>::empty());
                        assert(occurrences(Seq::<u128>::empty(), k) == 0);
                        assert(k != v);
                        assert(occurrences(seq![scene@], k) == 0);
                    }
                }
            },
        }
    }

    /// Applies a structural update emitted by the scene graph: touches the
    /// metadata of every scene the update names, in the order named.
    fn apply_update(&mut self, update: StoryboardUpdate)
        requires
            old(self).wf(),
        ensures
            final(self).wf(),
            same_side_data(*old(self), *final(self)),
            final(self).graph() == old(self).graph(),
            final(self).graph_roots() == old(self).graph_roots(),
            bank_touched(old(self).bank(), final(self).bank(), update_touch_ids(update)),
    {
        match update {
            StoryboardUpdate::Move { scene, from, dest } => {
                let ghost b0 = self.bank();
                self.update_metadata(&scene);
                let ghost b1 = self.bank();
                self.update_metadata(&from);
                let ghost b2 = self.bank();
                self.update_metadata(&dest);
                proof {
                    lemma_bank_touched_compose(b0, b1, b2, seq![scene@], seq![from@]);
                    lemma_bank_touched_compose(
                        b0,
                        b2,
                        self.bank(),
                        seq![scene@] + seq![from@],
                        seq![dest@],
                    );
                    assert(seq![scene@] + seq![from@] + seq![dest@] =~= seq![
                        scene@,
                        from@,
                        dest@,
                    ]);
                }
            },
            StoryboardUpdate::SceneAdded(scene) => {
                self.update_metadata(&scene);
            },
            StoryboardUpdate::SceneSetAsRoot(scene) => {
                self.update_metadata(&scene);
            },
            StoryboardUpdate::SceneDeleted(scene) => {
                self.update_metadata(&scene);
            },
            StoryboardUpdate::LinkedScenes { from, dest } => {
                let ghost b0 = self.bank();
                self.update_metadata(&from);
                let ghost b1 = self.bank();
                self.update_metadata(&dest);
                proof {
                    lemma_bank_touched_compose(b0, b1, self.bank(), seq![from@], seq![dest@]);
                    assert(seq![from@] + seq![dest@] =~= seq![from@, dest@]);
                }
            },
            StoryboardUpdate::EdgeDeleted { from, dest } => {
                let ghost b0 = self.bank();
                self.update_metadata(&from);
                let ghost b1 = self.bank();
                self.update_metadata(&dest);
                proof {
                    lemma_bank_touched_compose(b0, b1, self.bank(), seq![from@], seq![dest@]);
                    assert(seq![from@] + seq![dest@] =~= seq![from@, dest@]);
                }
            },
        }
    }

    /// Moves a scene from one parent to another in the scene graph.
    ///
    /// All three identifiers must name scenes in the content store, else the
    /// first missing one (checked in the order scene, from, to) is reported
    /// as `UnknownScene`. The structural rules are then the graph's: moving
    /// onto the same parent is a no-op success, a move with no current edge
    /// from `from` to `scene` fails as `InvalidMove`, and a move that would
    /// close a cycle fails as `CycleDetected`. Every failure leaves the
    /// storyboard unchanged. On success the metadata of the three scenes
    /// named is touched, once per mention.
    pub fn move_scene(
        &mut self,
        scene: &Id<SceneKind>,
        from: &Id<SceneKind>,
        to: &Id<SceneKind>,
    ) -> (r: Result<(), StoryboardError>)
        requires
            old(self).wf(),
        ensures
            final(self).wf(),
            same_side_data(*old(self), *final(self)),
            final(self).graph_roots() == old(self).graph_roots(),
            match r {
                Ok(()) => {
                    &&& old(self).bank().dom().contains(scene@)
                    &&& old(self).bank().dom().contains(from@)
                    &&& old(self).bank().dom().contains(to@)
                    &&& if from@ == to@ {
                        final(self).graph() == old(self).graph()
                    } else {
                        &&& old(self).graph()[from@].contains(scene@)
                        &&& !reaches(
                            graph_without_edge(old(self).graph(), from@, scene@),
                            to@,
                            scene@,
                        )
                        &&& final(self).graph() == graph_after_move(
                            old(self).graph(),
                            scene@,
                            from@,
                            to@,
                        )
                    }
                    &&& bank_touched(old(self).bank(), final(self).bank(), seq![
                        scene@,
                        from@,
                        to@,
                    ])
                },
                Err(StoryboardError::UnknownScene(x)) => {
                    &&& final(self).bank() == old(self).bank()
                    &&& final(self).graph() == old(self).graph()
                    &&& {
                        ||| (x == *scene && !old(self).bank().dom().contains(scene@))
                        ||| (x == *from && old(self).bank().dom().contains(scene@) && !old(
                            self,
                        ).bank().dom().contains(from@))
                        ||| (x == *to && old(self).bank().dom().contains(scene@) && old(
                            self,
                        ).bank().dom().contains(from@) && !old(self).bank().dom().contains(to@))
                    }
                },
                Err(StoryboardError::InvalidMove { scene: s, from: f, dest: d }) => {
                    &&& s == *scene && f == *from && d == *to
                    &&& final(self).bank() == old(self).bank()
                    &&& final(self).graph() == old(self).graph()
                    &&& old(self).bank().dom().contains(scene@)
                    &&& old(self).bank().dom().contains(from@)
                    &&& old(self).bank().dom().contains(to@)
                    &&& from@ != to@
                    &&& !old(self).graph()[from@].contains(scene@)
                },
                Err(StoryboardError::CycleDetected(s, d)) => {
                    &&& s == *scene && d == *to
                    &&& final(self).bank() == old(self).bank()
                    &&& final(self).graph() == old(self).graph()
                    &&& old(self).bank().dom().contains(scene@)
                    &&& old(self).bank().dom().contains(from@)
                    &&& old(self).bank().dom().contains(to@)
                    &&& from@ != to@
                    &&& old(self).graph()[from@].contains(scene@)
                    &&& reaches(graph_without_edge(old(self).graph(), from@, scene@), to@, scene@)
                },
                Err(StoryboardError::SceneNotInGraph(_)) => false,
            },
    {
        if !assoc_contains(&self.scene_bank, scene.uuid()) {
            return Err(StoryboardError::UnknownScene(scene.clone()));
        }
        if !assoc_contains(&self.scene_bank, from.uuid()) {
            return Err(StoryboardError::UnknownScene(from.clone()));
        }
        if !assoc_contains(&self.scene_bank, to.uuid()) {
            return Err(StoryboardError::UnknownScene(to.clone()));
        }

        let graph_update = match self.scene_graph.move_scene(scene, from, to) {
            Ok(u) => u,
            Err(e) => {
                proof {
                    Self::lemma_wf_graph_members_same(*old(self), *self);
                }
                return Err(e);
            },
        };
        proof {
            Self::lemma_wf_graph_members_same(*old(self), *self);
        }
        self.apply_update(graph_update);
        Ok(())
    }

    /// Creates a directed link between two scenes, both of which must be in
    /// the content store — else the first missing one (from before to) is
    /// reported as `UnknownScene` and nothing changes. On success the two
    /// scenes' metadata is touched.
    pub fn link_scenes(&mut self, from: &Id<SceneKind>, to: &Id<SceneKind>) -> (r: Result<
        (),
        StoryboardError,
    >)
        requires
            old(self).wf(),
        ensures
            final(self).wf(),
            same_side_data(*old(self), *final(self)),
            final(self).graph_roots() == old(self).graph_roots(),
            match r {
                Ok(()) => {
                    &&& old(self).bank().dom().contains(from@)
                    &&& old(self).bank().dom().contains(to@)
                    &&& final(self).graph() == graph_with_edge(old(self).graph(), from@, to@)
                    &&& bank_touched(old(self).bank(), final(self).bank(), seq![from@, to@])
                },
                Err(StoryboardError::UnknownScene(x)) => {
                    &&& final(self).bank() == old(self).bank()
                    &&& final(self).graph() == old(self).graph()
                    &&& {
                        ||| (x == *from && !old(self).bank().dom().contains(from@))
                        ||| (x == *to && old(self).bank().dom().contains(from@) && !old(
                            self,
                        ).bank().dom().contains(to@))
                    }
                },
                Err(_) => false,
            },
    {
        if !assoc_contains(&self.scene_bank, from.uuid()) {
            return Err(StoryboardError::UnknownScene(from.clone()));
        }
        if !assoc_contains(&self.scene_bank, to.uuid()) {
            return Err(StoryboardError::UnknownScene(to.clone()));
        }

        let graph_update = self.scene_graph.add_edge(from, to);
        proof {
            assert(old(self).bank().dom().contains(from@) <==> old(
                self,
            ).graph().dom().contains(from@));
            assert(old(self).bank().dom().contains(to@) <==> old(self).graph().dom().contains(
                to@,
            ));
            assert forall|x: u128| self.graph().dom().contains(x) <==> old(
                self,
            ).graph().dom().contains(x) by {}
            Self::lemma_wf_graph_members_same(*old(self), *self);
        }
        self.apply_update(graph_update);
        Ok(())
    }

    /// Removes the directed link from one scene to another, if it exists;
    /// unlinking scenes that are not linked is a silent no-op. Both scenes
    /// must be in the content store — else the first missing one (from
    /// before to) is reported as `UnknownScene` and nothing changes. On
    /// success the two scenes' metadata is touched.
    pub fn unlink_scenes(&mut self, from: &Id<SceneKind>, to: &Id<SceneKind>) -> (r: Result<
        (),
        StoryboardError,
    >)
        requires
            old(self).wf(),
        ensures
            final(self).wf(),
            same_side_data(*old(self), *final(self)),
            final(self).graph_roots() == old(self).graph_roots(),
            match r {
                Ok(()) => {
                    &&& old(self).bank().dom().contains(from@)
                    &&& old(self).bank().dom().contains(to@)
                    &&& final(self).graph() == graph_without_edge(old(self).graph(), from@, to@)
                    &&& bank_touched(old(self).bank(), final(self).bank(), seq![from@, to@])
                },
                Err(StoryboardError::UnknownScene(x)) => {
                    &&& final(self).bank() == old(self).bank()
                    &&& final(self).graph() == old(self).graph()
                    &&& {
                        ||| (x == *from && !old(self).bank().dom().contains(from@))
                        ||| (x == *to && old(self).bank().dom().contains(from@) && !old(
                            self,
                        ).bank().dom().contains(to@))
                    }
                },
                Err(_) => false,
            },
    {
        if !assoc_contains(&self.scene_bank, from.uuid()) {
            return Err(StoryboardError::UnknownScene(from.clone()));
        }
        if !assoc_contains(&self.scene_bank, to.uuid()) {
            return Err(StoryboardError::UnknownScene(to.clone()));
        }

        let graph_update = match self.scene_graph.delete_edge(from, to) {
            Ok(u) => u,
            Err(e) => {
                proof {
                    assert(old(self).bank().dom().contains(from@) <==> old(
                        self,
                    ).graph().dom().contains(from@));
                    assert(false);
                }
                return Err(e);
            },
        };
        proof {
            assert(old(self).bank().dom().contains(from@) <==> old(
                self,
            ).graph().dom().contains(from@));
            assert forall|x: u128| self.graph().dom().contains(x) <==> old(
                self,
            ).graph().dom().contains(x) by {}
            Self::lemma_wf_graph_members_same(*old(self), *self);
        }
        self.apply_update(graph_update);
        Ok(())
    }

    /// Removes a scene from the storyboard: from the content store, and from
    /// the scene graph together with its root mark and every edge that
    /// references it. Deleting a scene the content store does not hold is a
    /// no-op success.
    pub fn delete_scene(&mut self, scene: &Id<SceneKind>) -> (r: Result<(), StoryboardError>)
        requires
            old(self).wf(),
        ensures
            final(self).wf(),
            same_side_data(*old(self), *final(self)),
            match r {
                Ok(()) => if old(self).bank().dom().contains(scene@) {
                    &&& final(self).bank() == old(self).bank().remove(scene@)
                    &&& final(self).graph() == graph_without_member(old(self).graph(), scene@)
                    &&& final(self).graph_roots() == old(self).graph_roots().remove(scene@)
                } else {
                    &&& final(self).bank() == old(self).bank()
                    &&& final(self).graph() == old(self).graph()
                    &&& final(self).graph_roots() == old(self).graph_roots()
                },
                Err(_) => false,
            },
    {
        let v = scene.uuid();
        if assoc_contains(&self.scene_bank, v) {
            assoc_remove(&mut self.scene_bank, v);
            let graph_update = match self.scene_graph.delete_scene(scene) {
                Ok(u) => u,
                Err(e) => {
                    proof {
                        assert(old(self).bank().dom().contains(scene@) <==> old(
                            self,
                        ).graph().dom().contains(scene@));
                        assert(false);
                    }
                    return Err(e);
                },
            };
            let ghost mid = *self;
            proof {
                assert forall|x: u128| #[trigger] self.bank().dom().contains(x)
                    <==> self.graph().dom().contains(x) by {
                    assert(old(self).bank().dom().contains(x) <==> old(
                        self,
                    ).graph().dom().contains(x));
                }
                assert forall|j: int| 0 <= j < self.scene_bank@.len() implies (
                #[trigger] self.scene_bank@[j]).1.spec_id() == self.scene_bank@[j].0 by {
                    let q = choose|q: int|
                        0 <= q < old(self).scene_bank@.len() && old(self).scene_bank@[q]
                            == self.scene_bank@[j];
                }
            }
            self.apply_update(graph_update);
            proof {
                assert forall|k: u128| #[trigger] mid.bank().dom().contains(k)
                    implies self.bank()[k] == mid.bank()[k] by {
                    assert(seq![scene@].drop_last() =~= Seq::<u128>::empty());
                    assert(occurrences(Seq::<u128>::empty(), k) == 0);
                    assert(k != scene@);
                    assert(occurrences(seq![scene@], k) == 0);
                }
                assert(self.bank() =~= mid.bank());
            }
            Ok(())
        } else {
            Ok(())
        }
    }

    /// Marks a scene as a root entry point of the story. The scene must be
    /// in the content store — else `UnknownScene` is reported and nothing
    /// changes. On success the scene's metadata is touched.
    pub fn set_scene_as_root(&mut self, scene_id: &Id<SceneKind>) -> (r: Result<
        (),
        StoryboardError,
    >)
        requires
            old(self).wf(),
        ensures
            final(self).wf(),
            same_side_data(*old(self), *final(self)),
            match r {
                Ok(()) => {
                    &&& old(self).bank().dom().contains(scene_id@)
                    &&& old(self).graph().dom().contains(scene_id@)
                    &&& final(self).graph() == old(self).graph()
                    &&& final(self).graph_roots() == old(self).graph_roots().insert(scene_id@)
                    &&& bank_touched(old(self).bank(), final(self).bank(), seq![scene_id@])
                },
                Err(StoryboardError::UnknownScene(x)) => {
                    &&& x == *scene_id
                    &&& !old(self).bank().dom().contains(scene_id@)
                    &&& final(self).bank() == old(self).bank()
                    &&& final(self).graph() == old(self).graph()
                    &&& final(self).graph_roots() == old(self).graph_roots()
                },
                Err(_) => false,
            },
    {
        if !assoc_contains(&self.scene_bank, scene_id.uuid()) {
            return Err(StoryboardError::UnknownScene(scene_id.clone()));
        }

        let graph_update = self.scene_graph.add_root(scene_id);
        proof {
            assert(old(self).bank().dom().contains(scene_id@) <==> old(
                self,
            ).graph().dom().contains(scene_id@));
            assert(self.graph() == old(self).graph());
            Self::lemma_wf_graph_members_same(*old(self), *self);
        }
        self.apply_update(graph_update);
        Ok(())
    }

    /// The scenes the scene graph holds that no root reaches, each exactly
    /// once: orphaned content that no linearised story output would show.
    pub fn standalone_scenes(&self) -> (r: Vec<Id<SceneKind>>)
        requires
            self.wf(),
        ensures
            forall|i: int, j: int| 0 <= i < j < r@.len() ==> r@[i]@ != r@[j]@,
            forall|i: int|
                0 <= i < r@.len() ==> self.graph().dom().contains(#[trigger] r@[i]@)
                    && !root_reaches(self.graph(), self.graph_roots(), r@[i]@),
            forall|x: u128|
                self.graph().dom().contains(x) && !root_reaches(self.graph(), self.graph_roots(), x)
                    ==> exists|i: int| 0 <= i < r@.len() && #[trigger] r@[i]@ == x,
    {
        self.scene_graph.unreachable_scenes()
    }

    /// The storyboard title, if one has been set.
    pub fn title(&self) -> (r: &Option<Title>)
        ensures
            *r == self.spec_title(),
    {
        &self.title
    }

    /// Well-formedness survives a graph operation that did not change the
    /// graph's membership, and bank rows were not touched at all.
    proof fn lemma_wf_graph_members_same(a: Storyboard, b: Storyboard)
        requires
            a.wf(),
            b.scene_graph.wf(),
            b.scene_bank == a.scene_bank,
            b.authors == a.authors,
            b.characters == a.characters,
            forall|x: u128| b.graph().dom().contains(x) <==> a.graph().dom().contains(x),
        ensures
            b.wf(),
    {
        assert(b.bank() == a.bank());
        assert forall|x: u128| #[trigger] b.bank().dom().contains(x)
            <==> b.graph().dom().contains(x) by {
            assert(a.bank().dom().contains(x) <==> a.graph().dom().contains(x));
        }
    }
}

impl Default for Storyboard {
    /// An empty storyboard: no title, no template, no authors, characters or
    /// scenes, an empty scene graph, and fresh metadata.
    fn default() -> (r: Self)
        ensures
            r.wf(),
            r.spec_title() is None,
            r.spec_template() is None,
            r.authors_map() == Map::<u128, Author>::empty(),
            r.characters_map() == Map::<u128, Character>::empty(),
            r.bank() == Map::<u128, Scene>::empty(),
            r.graph() == Map::<u128, Set<u128>>::empty(),
            r.graph_roots() == Set::<u128>::empty(),
            r.spec_metadata().version == 1,
    {
        let r = Storyboard {
            title: None,
            authors: Vec::new(),
            scene_bank: Vec::new(),
            characters: Vec::new(),
            template: None,
            scene_graph: SceneGraph::new(),
            metadata: Metadata::new(),
        };
        proof {
            assert(r.bank() =~= Map::<u128, Scene>::empty());
            assert(r.authors_map() =~= Map::<u128, Author>::empty());
            assert(r.characters_map() =~= Map::<u128, Character>::empty());
        }
        r
    }
}

} // verus!
