//! The scene graph: the directed relationship structure over scene
//! identifiers that expresses what can come next in the story.
//!
//! The graph stores only relationships — members, directed edges and the set
//! of root entry points — never scene content. Its mathematical model is a
//! map from each member to the set of its direct successors, together with a
//! set of roots; reachability is defined over that model by the existence of
//! an edge path.

use vstd::prelude::*;
use crate::ids::{Id, SceneKind};
use crate::storyboard::{StoryboardError, StoryboardUpdate};

verus! {

broadcast use
    vstd::seq_lib::lemma_seq_contains_after_push,
    vstd::seq_lib::lemma_seq_subrange_elements,
    vstd::seq_lib::lemma_seq_empty_contains_nothing,
;

/// Whether the model `m` has a directed edge from `a` to `b`.
pub open spec fn graph_edge(m: Map<u128, Set<u128>>, a: u128, b: u128) -> bool {
    m.dom().contains(a) && m[a].contains(b)
}

/// `p` steps only along edges of `m`.
pub open spec fn is_path(m: Map<u128, Set<u128>>, p: Seq<u128>) -> bool {
    forall|i: int| 0 < i < p.len() ==> graph_edge(m, p[i - 1], #[trigger] p[i])
}

/// Whether `dst` can be reached from `src` along edges of `m`. Every
/// identifier trivially reaches itself.
pub open spec fn reaches(m: Map<u128, Set<u128>>, src: u128, dst: u128) -> bool {
    exists|p: Seq<u128>|
        is_path(m, p) && p.len() >= 1 && p[0] == src && p[p.len() - 1] == dst
}

/// Whether some root of `roots` reaches `x` in `m`.
pub open spec fn root_reaches(m: Map<u128, Set<u128>>, roots: Set<u128>, x: u128) -> bool {
    exists|rt: u128| roots.contains(rt) && reaches(m, rt, x)
}

/// Whether some identifier of the sequence `starts` reaches `x` in `m`.
pub open spec fn seq_reaches(m: Map<u128, Set<u128>>, starts: Seq<u128>, x: u128) -> bool {
    exists|i: int| 0 <= i < starts.len() && reaches(m, #[trigger] starts[i], x)
}

/// Every identifier reaches itself, by the one-element path.
pub proof fn lemma_reaches_self(m: Map<u128, Set<u128>>, x: u128)
    ensures
        reaches(m, x, x),
{
    let p: Seq<u128> = seq![x];
    assert(is_path(m, p));
    assert(p[0] == x && p[p.len() - 1] == x);
}

/// Reachability extends along one more edge.
pub proof fn lemma_reaches_step(m: Map<u128, Set<u128>>, src: u128, a: u128, b: u128)
    requires
        reaches(m, src, a),
        graph_edge(m, a, b),
    ensures
        reaches(m, src, b),
{
    let p = choose|p: Seq<u128>|
        is_path(m, p) && p.len() >= 1 && p[0] == src && p[p.len() - 1] == a;
    let q = p.push(b);
    assert forall|i: int| 0 < i < q.len() implies graph_edge(m, q[i - 1], #[trigger] q[i]) by {
        if i < p.len() {
            assert(graph_edge(m, p[i - 1], p[i]));
            assert(q[i - 1] == p[i - 1] && q[i] == p[i]);
        } else {
            assert(q[i - 1] == p[p.len() - 1] && q[i] == b);
        }
    }
    assert(is_path(m, q) && q.len() >= 1 && q[0] == src && q[q.len() - 1] == b);
}

/// A path that begins inside a successor-closed set ends inside it.
proof fn lemma_path_stays_in_closed(m: Map<u128, Set<u128>>, s: Set<u128>, p: Seq<u128>)
    requires
        is_path(m, p),
        p.len() >= 1,
        s.contains(p[0]),
        forall|a: u128, b: u128| s.contains(a) && #[trigger] graph_edge(m, a, b) ==> s.contains(b),
    ensures
        s.contains(p[p.len() - 1]),
    decreases p.len(),
{
    if p.len() > 1 {
        assert(graph_edge(m, p[0], p[1]));
        let q = p.drop_first();
        assert forall|i: int| 0 < i < q.len() implies graph_edge(m, q[i - 1], #[trigger] q[i]) by {
            assert(q[i] == p[i + 1]);
            assert(graph_edge(m, p[i], p[i + 1]));
            assert(q[i - 1] == p[i]);
        }
        assert(s.contains(q[0]));
        lemma_path_stays_in_closed(m, s, q);
        assert(q[q.len() - 1] == p[p.len() - 1]);
    }
}

/// Whatever is reachable from a member of a successor-closed set lies in
/// that set.
pub proof fn lemma_reach_in_closed_set(m: Map<u128, Set<u128>>, s: Set<u128>, src: u128, dst: u128)
    requires
        s.contains(src),
        forall|a: u128, b: u128| s.contains(a) && #[trigger] graph_edge(m, a, b) ==> s.contains(b),
        reaches(m, src, dst),
    ensures
        s.contains(dst),
{
    let p = choose|p: Seq<u128>|
        is_path(m, p) && p.len() >= 1 && p[0] == src && p[p.len() - 1] == dst;
    lemma_path_stays_in_closed(m, s, p);
}

/// From an identifier with no outgoing edges only the identifier itself is
/// reachable.
pub proof fn lemma_reaches_only_self_without_edges(m: Map<u128, Set<u128>>, src: u128, dst: u128)
    requires
        reaches(m, src, dst),
        forall|b: u128| !#[trigger] graph_edge(m, src, b),
    ensures
        dst == src,
{
    let p = choose|p: Seq<u128>|
        is_path(m, p) && p.len() >= 1 && p[0] == src && p[p.len() - 1] == dst;
    if p.len() > 1 {
        assert(graph_edge(m, p[0], p[1]));
    }
}

/// The model after ensuring `id` is a member: unchanged if it already is,
/// otherwise extended with an empty successor set for `id`.
pub open spec fn graph_with_member(m: Map<u128, Set<u128>>, id: u128) -> Map<u128, Set<u128>> {
    if m.dom().contains(id) {
        m
    } else {
        m.insert(id, Set::empty())
    }
}

/// The model after adding the edge `from -> dest`, ensuring both endpoints
/// are members first.
pub open spec fn graph_with_edge(m: Map<u128, Set<u128>>, from: u128, dest: u128) -> Map<
    u128,
    Set<u128>,
> {
    let m2 = graph_with_member(graph_with_member(m, from), dest);
    m2.insert(from, m2[from].insert(dest))
}

/// The model after removing the edge `from -> dest` (for a member `from`).
pub open spec fn graph_without_edge(m: Map<u128, Set<u128>>, from: u128, dest: u128) -> Map<
    u128,
    Set<u128>,
> {
    m.insert(from, m[from].remove(dest))
}

/// The model after deleting member `id`: its own entry is gone and it is
/// purged from every remaining successor set.
pub open spec fn graph_without_member(m: Map<u128, Set<u128>>, id: u128) -> Map<
    u128,
    Set<u128>,
> {
    Map::new(|k: u128| m.dom().contains(k) && k != id, |k: u128| m[k].remove(id))
}

/// The model after moving `scene` from `from`'s successors to `dest`'s (for
/// distinct member endpoints).
pub open spec fn graph_after_move(
    m: Map<u128, Set<u128>>,
    scene: u128,
    from: u128,
    dest: u128,
) -> Map<u128, Set<u128>> {
    let mid = graph_without_edge(m, from, scene);
    mid.insert(dest, mid[dest].insert(scene))
}

/// Adding a scene makes it a member. A scene that was not yet a member
/// starts with no successors, and adding one that already is a member
/// changes nothing at all.
pub proof fn lemma_add_scene_membership(m: Map<u128, Set<u128>>, id: u128)
    ensures
        graph_with_member(m, id).dom().contains(id),
        !m.dom().contains(id) ==> graph_with_member(m, id)[id] == Set::<u128>::empty(),
        m.dom().contains(id) ==> graph_with_member(m, id) == m,
{
}

/// Adding an edge makes `dest` a successor of `from`, and adding it again
/// changes nothing: the successor relation is a set, so a transition can
/// hold at most once however often it is linked.
pub proof fn lemma_add_edge_idempotent(m: Map<u128, Set<u128>>, from: u128, dest: u128)
    ensures
        graph_with_edge(m, from, dest)[from].contains(dest),
        graph_with_edge(m, from, dest).dom().contains(from),
        graph_with_edge(m, from, dest).dom().contains(dest),
        graph_with_edge(graph_with_edge(m, from, dest), from, dest) == graph_with_edge(
            m,
            from,
            dest,
        ),
{
    let m1 = graph_with_edge(m, from, dest);
    let m2 = graph_with_edge(m1, from, dest);
    assert(m1[from].insert(dest) =~= m1[from]);
    assert(m2 =~~= m1);
}

/// A successful move with distinct endpoints removes `scene` from `from`'s
/// successors and makes it a successor of `dest`.
pub proof fn lemma_move_reparents(m: Map<u128, Set<u128>>, scene: u128, from: u128, dest: u128)
    requires
        from != dest,
        m.dom().contains(from),
        m.dom().contains(dest),
    ensures
        !graph_after_move(m, scene, from, dest)[from].contains(scene),
        graph_after_move(m, scene, from, dest)[dest].contains(scene),
{
}

/// A deleted scene is no longer a member, and no remaining scene keeps an
/// edge to or from it: every edge of the resulting graph is an edge of the
/// old graph between two surviving scenes.
pub proof fn lemma_delete_purges(m: Map<u128, Set<u128>>, id: u128)
    ensures
        !graph_without_member(m, id).dom().contains(id),
        forall|k: u128, b: u128|
            #[trigger] graph_edge(graph_without_member(m, id), k, b) ==> k != id && b != id
                && graph_edge(m, k, b),
{
}

/// With no roots at all, no identifier is root-reachable: every member of
/// the graph counts as unreachable.
pub proof fn lemma_no_roots_all_unreachable(m: Map<u128, Set<u128>>, x: u128)
    ensures
        !root_reaches(m, Set::empty(), x),
{
}

/// With a single root that has no outgoing edges, the root alone is
/// root-reachable: every member but the root counts as unreachable.
pub proof fn lemma_lone_root_reaches_only_itself(m: Map<u128, Set<u128>>, r: u128, x: u128)
    requires
        m.dom().contains(r),
        m[r] == Set::<u128>::empty(),
    ensures
        root_reaches(m, set![r], x) <==> x == r,
{
    if root_reaches(m, set![r], x) {
        let rt = choose|rt: u128| set![r].contains(rt) && reaches(m, rt, x);
        assert(rt == r);
        assert forall|b: u128| !#[trigger] graph_edge(m, r, b) by {}
        lemma_reaches_only_self_without_edges(m, r, x);
    }
    if x == r {
        lemma_reaches_self(m, r);
        assert(set![r].contains(r));
    }
}

/// One line of the diagnostic outline `outline_from` produces: a heading
/// announcing a root whose subtree follows, or a scene listed at its
/// breadth-first depth.
#[derive(Debug, Clone)]
pub enum OutlineLine {
    RootHeading(Id<SceneKind>),
    Listed(Id<SceneKind>, usize),
}

/// The scene an outline line lists, if it is a listing line.
pub open spec fn line_listed_id(l: OutlineLine) -> Option<u128> {
    match l {
        OutlineLine::Listed(v, _) => Some(v@),
        OutlineLine::RootHeading(_) => None,
    }
}

/// The root an outline line announces, if it is a heading line.
pub open spec fn line_heading_id(l: OutlineLine) -> Option<u128> {
    match l {
        OutlineLine::RootHeading(v) => Some(v@),
        OutlineLine::Listed(_, _) => None,
    }
}

/// Whether some line of the outline lists scene `x`.
pub open spec fn outline_lists(lines: Seq<OutlineLine>, x: u128) -> bool {
    exists|i: int| 0 <= i < lines.len() && line_listed_id(#[trigger] lines[i]) == Some(x)
}

/// Whether some line of the outline is a heading for root `x`.
pub open spec fn outline_heads(lines: Seq<OutlineLine>, x: u128) -> bool {
    exists|i: int| 0 <= i < lines.len() && line_heading_id(#[trigger] lines[i]) == Some(x)
}

/// No two lines of the outline list the same scene.
pub open spec fn outline_lists_once(lines: Seq<OutlineLine>) -> bool {
    forall|i: int, j: int|
        0 <= i < j < lines.len() && line_listed_id(#[trigger] lines[i]) is Some
            ==> line_listed_id(lines[i]) != line_listed_id(#[trigger] lines[j])
}

/// The depth recorded for a scene reached one step below a line at depth
/// `d`: one more, saturating at the largest representable depth.
pub open spec fn next_outline_depth(d: usize) -> usize {
    if d < usize::MAX {
        (d + 1) as usize
    } else {
        d
    }
}

/// Whether line `l` lists a scene with an edge to `v` and sits one level
/// above depth `d`: the way a breadth-first traversal comes to list `v` at
/// depth `d`.
pub open spec fn listed_step(l: OutlineLine, m: Map<u128, Set<u128>>, v: u128, d: usize) -> bool {
    match l {
        OutlineLine::Listed(u, d2) => graph_edge(m, u@, v) && d == next_outline_depth(d2),
        OutlineLine::RootHeading(_) => false,
    }
}

/// Whether the line at position `i` obeys the breadth-first depth
/// discipline of the region of `lines` that starts at `lo`: a heading line
/// always does; a listing line must either list a traversal origin at depth
/// zero, or list a scene reached by one edge from the scene of an earlier
/// listing line of the region, one level deeper.
pub open spec fn line_depth_justified(
    lines: Seq<OutlineLine>,
    m: Map<u128, Set<u128>>,
    lo: int,
    i: int,
    origins: Set<u128>,
) -> bool {
    match lines[i] {
        OutlineLine::Listed(v, d) => (origins.contains(v@) && d == 0) || exists|j: int|
            lo <= j < i && listed_step(#[trigger] lines[j], m, v@, d),
        OutlineLine::RootHeading(_) => true,
    }
}

/// The breadth-first depth discipline of an outline region: every line from
/// position `lo` on is justified, so an origin is listed at depth zero and
/// every other listed scene one level below some line it was reached from.
pub open spec fn outline_depths_chained(
    lines: Seq<OutlineLine>,
    m: Map<u128, Set<u128>>,
    lo: int,
    origins: Set<u128>,
) -> bool {
    forall|i: int|
        lo <= i < lines.len() ==> #[trigger] line_depth_justified(lines, m, lo, i, origins)
}

/// Whether two outline lines respect breadth-first tightness: a scene is
/// never listed more than one level below an earlier listing line that has
/// an edge to it.
pub open spec fn depth_pair_tight(
    l1: OutlineLine,
    l2: OutlineLine,
    m: Map<u128, Set<u128>>,
) -> bool {
    match (l1, l2) {
        (OutlineLine::Listed(u, d1), OutlineLine::Listed(v, d2)) => graph_edge(m, u@, v@) ==> d2
            <= next_outline_depth(d1),
        _ => true,
    }
}

/// Breadth-first tightness of an outline region: no scene is listed more
/// than one level below any earlier listing line that reaches it by one
/// edge. Together with `outline_depths_chained`, which makes some such line
/// (or origin status) account for each listed depth exactly, this pins every
/// listed depth to the least depth at which an earlier line of the region
/// reaches the scene — the breadth-first distance.
pub open spec fn outline_depths_tight(
    lines: Seq<OutlineLine>,
    m: Map<u128, Set<u128>>,
    lo: int,
) -> bool {
    forall|i1: int, i2: int|
        lo <= i1 < i2 < lines.len() ==> depth_pair_tight(
            #[trigger] lines[i1],
            #[trigger] lines[i2],
            m,
        )
}

/// Whether the line lists a scene with an edge to `b`.
spec fn listed_edge(l: OutlineLine, m: Map<u128, Set<u128>>, b: u128) -> bool {
    match l {
        OutlineLine::Listed(u, _) => graph_edge(m, u@, b),
        OutlineLine::RootHeading(_) => false,
    }
}

/// One level below the line's listed depth (zero for a heading).
spec fn line_next_depth(l: OutlineLine) -> usize {
    match l {
        OutlineLine::Listed(_, d) => next_outline_depth(d),
        OutlineLine::RootHeading(_) => 0,
    }
}

/// Whether the line's listed depth, if any, is at most `d`.
spec fn line_depth_le(l: OutlineLine, d: usize) -> bool {
    match l {
        OutlineLine::Listed(_, d0) => d0 <= d,
        OutlineLine::RootHeading(_) => true,
    }
}

/// Justified lines stay justified when lines are appended on the right: the
/// line and every witness it relies on sit in the untouched prefix.
proof fn lemma_chained_extend(
    pre: Seq<OutlineLine>,
    cur: Seq<OutlineLine>,
    m: Map<u128, Set<u128>>,
    lo: int,
    hi: int,
    origins: Set<u128>,
)
    requires
        0 <= lo,
        hi <= pre.len(),
        hi <= cur.len(),
        forall|i: int| 0 <= i < hi ==> cur[i] == pre[i],
        forall|i: int| lo <= i < hi ==> #[trigger] line_depth_justified(pre, m, lo, i, origins),
    ensures
        forall|i: int| lo <= i < hi ==> #[trigger] line_depth_justified(cur, m, lo, i, origins),
{
    assert forall|i: int| lo <= i < hi implies #[trigger] line_depth_justified(
        cur,
        m,
        lo,
        i,
        origins,
    ) by {
        assert(line_depth_justified(pre, m, lo, i, origins));
        assert(cur[i] == pre[i]);
        match pre[i] {
            OutlineLine::Listed(v, d) => {
                if !(origins.contains(v@) && d == 0) {
                    let j = choose|j: int| lo <= j < i && listed_step(#[trigger] pre[j], m, v@, d);
                    assert(cur[j] == pre[j]);
                    assert(listed_step(cur[j], m, v@, d));
                }
            },
            OutlineLine::RootHeading(_) => {},
        }
    }
}

/// Justified lines stay justified when the region is widened on the left
/// and the origin set enlarged.
proof fn lemma_chained_weaken(
    lines: Seq<OutlineLine>,
    m: Map<u128, Set<u128>>,
    lo: int,
    lo2: int,
    origins: Set<u128>,
    origins2: Set<u128>,
)
    requires
        lo2 <= lo,
        origins.subset_of(origins2),
        forall|i: int|
            lo <= i < lines.len() ==> #[trigger] line_depth_justified(lines, m, lo, i, origins),
    ensures
        forall|i: int|
            lo <= i < lines.len() ==> #[trigger] line_depth_justified(lines, m, lo2, i, origins2),
{
    assert forall|i: int| lo <= i < lines.len() implies #[trigger] line_depth_justified(
        lines,
        m,
        lo2,
        i,
        origins2,
    ) by {
        assert(line_depth_justified(lines, m, lo, i, origins));
        match lines[i] {
            OutlineLine::Listed(v, d) => {
                if !(origins.contains(v@) && d == 0) {
                    let j = choose|j: int|
                        lo <= j < i && listed_step(#[trigger] lines[j], m, v@, d);
                    assert(lo2 <= j < i && listed_step(lines[j], m, v@, d));
                }
            },
            OutlineLine::RootHeading(_) => {},
        }
    }
}

/// What one appended line adds to an outline: its listing or heading, and
/// nothing else.
proof fn lemma_outline_push(lines: Seq<OutlineLine>, l: OutlineLine)
    ensures
        forall|x: u128|
            #[trigger] outline_lists(lines.push(l), x) <==> (outline_lists(lines, x)
                || line_listed_id(l) == Some(x)),
        forall|x: u128|
            #[trigger] outline_heads(lines.push(l), x) <==> (outline_heads(lines, x)
                || line_heading_id(l) == Some(x)),
{
    let t = lines.push(l);
    assert forall|x: u128| #[trigger] outline_lists(t, x) implies (outline_lists(lines, x)
        || line_listed_id(l) == Some(x)) by {
        let i = choose|i: int| 0 <= i < t.len() && line_listed_id(t[i]) == Some(x);
        if i < lines.len() {
            assert(line_listed_id(lines[i]) == Some(x));
        }
    }
    assert forall|x: u128| (outline_lists(lines, x) || line_listed_id(l) == Some(
        x,
    )) implies #[trigger] outline_lists(t, x) by {
        if outline_lists(lines, x) {
            let i = choose|i: int| 0 <= i < lines.len() && line_listed_id(lines[i]) == Some(x);
            assert(line_listed_id(t[i]) == Some(x));
        } else {
            assert(line_listed_id(t[t.len() - 1]) == Some(x));
        }
    }
    assert forall|x: u128| #[trigger] outline_heads(t, x) implies (outline_heads(lines, x)
        || line_heading_id(l) == Some(x)) by {
        let i = choose|i: int| 0 <= i < t.len() && line_heading_id(t[i]) == Some(x);
        if i < lines.len() {
            assert(line_heading_id(lines[i]) == Some(x));
        }
    }
    assert forall|x: u128| (outline_heads(lines, x) || line_heading_id(l) == Some(
        x,
    )) implies #[trigger] outline_heads(t, x) by {
        if outline_heads(lines, x) {
            let i = choose|i: int| 0 <= i < lines.len() && line_heading_id(lines[i]) == Some(x);
            assert(line_heading_id(t[i]) == Some(x));
        } else {
            assert(line_heading_id(t[t.len() - 1]) == Some(x));
        }
    }
}

/// An ordering and relationship model for scenes that expresses what can
/// come next. It supports branching paths, optional transitions and
/// alternate story flows; content never lives here.
#[derive(Debug, Clone)]
pub struct SceneGraph {
    members: Vec<u128>,
    edges: Vec<(u128, u128)>,
    roots: Vec<u128>,
}

impl SceneGraph {
    /// The model: each member mapped to the set of its direct successors.
    pub closed spec fn view(&self) -> Map<u128, Set<u128>> {
        Map::new(
            |k: u128| self.members@.contains(k),
            |k: u128| Set::new(|b: u128| self.edges@.contains((k, b))),
        )
    }

    /// The set of root entry points.
    pub closed spec fn roots(&self) -> Set<u128> {
        self.roots@.to_set()
    }

    /// Internal well-formedness: no duplicate members, edges or roots, and
    /// every identifier an edge or root mentions is a member.
    pub closed spec fn wf(&self) -> bool {
        &&& self.members@.no_duplicates()
        &&& self.edges@.no_duplicates()
        &&& self.roots@.no_duplicates()
        &&& forall|p: (u128, u128)|
            #[trigger] self.edges@.contains(p) ==> self.members@.contains(p.0)
                && self.members@.contains(p.1)
        &&& forall|r: u128| #[trigger] self.roots@.contains(r) ==> self.members@.contains(r)
    }

    /// In a well-formed graph, every root is a member, and every successor
    /// and every identifier with successors is a member.
    pub proof fn lemma_wf_facts(&self)
        requires
            self.wf(),
        ensures
            forall|r: u128| self.roots().contains(r) ==> self@.dom().contains(r),
            forall|a: u128, b: u128|
                graph_edge(self@, a, b) ==> self@.dom().contains(a) && self@.dom().contains(b),
    {
        assert forall|a: u128, b: u128| graph_edge(self@, a, b) implies self@.dom().contains(a)
            && self@.dom().contains(b) by {
            assert(self.edges@.contains((a, b)));
        }
    }

    /// An empty graph: no members, no edges, no roots.
    pub fn new() -> (r: Self)
        ensures
            r.wf(),
            r@ =~= Map::<u128, Set<u128>>::empty(),
            r.roots() =~= Set::<u128>::empty(),
    {
        SceneGraph { members: Vec::new(), edges: Vec::new(), roots: Vec::new() }
    }

    /// Adds a scene to the graph. Idempotent: a scene already present keeps
    /// its successors; a new scene starts with none. Roots are unchanged.
    pub fn add_scene(&mut self, scene_id: &Id<SceneKind>) -> (r: StoryboardUpdate)
        requires
            old(self).wf(),
        ensures
            final(self).wf(),
            final(self)@ == graph_with_member(old(self)@, scene_id@),
            final(self).roots() == old(self).roots(),
            r == StoryboardUpdate::SceneAdded(*scene_id),
    {
        let v = scene_id.uuid();
        if !contains_id(&self.members, v) {
            proof {
                lemma_push_no_dup(self.members@, v);
            }
            self.members.push(v);
            proof {
                assert(self@ =~~= graph_with_member(old(self)@, scene_id@));
            }
        } else {
            proof {
                assert(self@ =~~= graph_with_member(old(self)@, scene_id@));
            }
        }
        StoryboardUpdate::SceneAdded(scene_id.clone())
    }

    /// Marks a scene as a root entry point, adding it to the graph first if
    /// needed.
    pub fn add_root(&mut self, scene_id: &Id<SceneKind>) -> (r: StoryboardUpdate)
        requires
            old(self).wf(),
        ensures
            final(self).wf(),
            final(self)@ == graph_with_member(old(self)@, scene_id@),
            final(self).roots() == old(self).roots().insert(scene_id@),
            r == StoryboardUpdate::SceneSetAsRoot(*scene_id),
    {
        let v = scene_id.uuid();
        self.add_scene(scene_id);
        if !contains_id(&self.roots, v) {
            proof {
                lemma_push_no_dup(self.roots@, v);
                assert(self@.dom().contains(v));
                assert(self.members@.contains(v));
            }
            self.roots.push(v);
        }
        proof {
            assert(self.roots() =~= old(self).roots().insert(scene_id@));
        }
        StoryboardUpdate::SceneSetAsRoot(scene_id.clone())
    }

    /// Adds a directed edge from `from` to `dest`, adding either endpoint to
    /// the graph first if needed. Idempotent: re-adding an existing edge
    /// changes nothing. Roots are unchanged.
    pub fn add_edge(&mut self, from: &Id<SceneKind>, dest: &Id<SceneKind>) -> (r:
        StoryboardUpdate)
        requires
            old(self).wf(),
        ensures
            final(self).wf(),
            final(self)@ == graph_with_edge(old(self)@, from@, dest@),
            final(self).roots() == old(self).roots(),
            r == (StoryboardUpdate::LinkedScenes { from: *from, dest: *dest }),
    {
        let f = from.uuid();
        let d = dest.uuid();
        self.add_scene(from);
        self.add_scene(dest);

        if !contains_pair(&self.edges, f, d) {
            proof {
                lemma_push_no_dup(self.edges@, (f, d));
                assert(self@.dom().contains(f) && self@.dom().contains(d));
                assert(self.members@.contains(f) && self.members@.contains(d));
            }
            self.edges.push((f, d));
        }
        proof {
            assert(self@ =~~= graph_with_edge(old(self)@, from@, dest@));
        }
        StoryboardUpdate::LinkedScenes { from: from.clone(), dest: dest.clone() }
    }

    /// Removes the directed edge `from -> dest` if it exists; removing an
    /// absent edge is a silent no-op. Fails if `from` is not a member.
    /// Members and roots are unchanged.
    pub fn delete_edge(&mut self, from: &Id<SceneKind>, dest: &Id<SceneKind>) -> (r: Result<
        StoryboardUpdate,
        StoryboardError,
    >)
        requires
            old(self).wf(),
        ensures
            final(self).wf(),
            final(self).roots() == old(self).roots(),
            match r {
                Ok(u) => old(self)@.dom().contains(from@) && final(self)@ == graph_without_edge(
                    old(self)@,
                    from@,
                    dest@,
                ) && u == (StoryboardUpdate::EdgeDeleted { from: *from, dest: *dest }),
                Err(e) => !old(self)@.dom().contains(from@) && final(self)@ == old(self)@ && e
                    == StoryboardError::SceneNotInGraph(*from),
            },
    {
        let f = from.uuid();
        let d = dest.uuid();
        if !contains_id(&self.members, f) {
            return Err(StoryboardError::SceneNotInGraph(from.clone()));
        }

        remove_pair(&mut self.edges, f, d);
        proof {
            assert(self@ =~~= graph_without_edge(old(self)@, from@, dest@));
        }
        Ok(StoryboardUpdate::EdgeDeleted { from: from.clone(), dest: dest.clone() })
    }

    /// Removes a scene from the graph: its own entry, its root mark if any,
    /// and every edge that references it, incoming or outgoing. Fails if the
    /// scene is not a member.
    pub fn delete_scene(&mut self, scene_id: &Id<SceneKind>) -> (r: Result<
        StoryboardUpdate,
        StoryboardError,
    >)
        requires
            old(self).wf(),
        ensures
            final(self).wf(),
            match r {
                Ok(u) => old(self)@.dom().contains(scene_id@) && final(self)@
                    == graph_without_member(old(self)@, scene_id@) && final(self).roots() == old(
                    self,
                ).roots().remove(scene_id@) && u == StoryboardUpdate::SceneDeleted(*scene_id),
                Err(e) => !old(self)@.dom().contains(scene_id@) && final(self)@ == old(self)@
                    && final(self).roots() == old(self).roots() && e
                    == StoryboardError::SceneNotInGraph(*scene_id),
            },
    {
        let v = scene_id.uuid();
        if !contains_id(&self.members, v) {
            return Err(StoryboardError::SceneNotInGraph(scene_id.clone()));
        }

        remove_id(&mut self.members, v);
        remove_id(&mut self.roots, v);

        let mut kept: Vec<(u128, u128)> = Vec::new();
        let mut i: usize = 0;
        while i < self.edges.len()
            invariant
                i <= self.edges@.len(),
                self.edges@.no_duplicates(),
                kept@.no_duplicates(),
                forall|p: (u128, u128)|
                    kept@.contains(p) <==> (self.edges@.subrange(0, i as int).contains(p) && p.0
                        != v && p.1 != v),
            decreases self.edges@.len() - i,
        {
            let e = self.edges[i];
            proof {
                assert(self.edges@.subrange(0, i + 1).drop_last() =~= self.edges@.subrange(
                    0,
                    i as int,
                ));
                assert(forall|p: (u128, u128)|
                    self.edges@.subrange(0, i + 1).contains(p) <==> (self.edges@.subrange(
                        0,
                        i as int,
                    ).contains(p) || p == self.edges@[i as int]));
                let cur = self.edges@[i as int];
                if kept@.contains(cur) {
                    let j = choose|j: int|
                        0 <= j < i && self.edges@.subrange(0, i as int)[j] == cur;
                    assert(self.edges@[j] == cur);
                    assert(false);
                }
            }
            if e.0 != v && e.1 != v {
                kept.push(e);
            }
            i = i + 1;
        }
        proof {
            assert(self.edges@.subrange(0, self.edges@.len() as int) =~= self.edges@);
        }
        self.edges = kept;

        proof {
            assert(self@ =~~= graph_without_member(old(self)@, scene_id@));
            assert(self.roots() =~= old(self).roots().remove(scene_id@));
        }
        Ok(StoryboardUpdate::SceneDeleted(scene_id.clone()))
    }

    /// The direct successors of `scene_id`, each exactly once; empty if the
    /// scene is absent or has none.
    pub fn next_scenes(&self, scene_id: &Id<SceneKind>) -> (r: Vec<Id<SceneKind>>)
        requires
            self.wf(),
        ensures
            forall|i: int, j: int| 0 <= i < j < r@.len() ==> r@[i]@ != r@[j]@,
            forall|i: int|
                0 <= i < r@.len() ==> graph_edge(self@, scene_id@, #[trigger] r@[i]@),
            forall|b: u128|
                graph_edge(self@, scene_id@, b) ==> exists|i: int|
                    0 <= i < r@.len() && #[trigger] r@[i]@ == b,
    {
        let v = scene_id.uuid();
        let mut r: Vec<Id<SceneKind>> = Vec::new();
        let mut i: usize = 0;
        while i < self.edges.len()
            invariant
                self.wf(),
                i <= self.edges@.len(),
                forall|k: int, j: int| 0 <= k < j < r@.len() ==> r@[k]@ != r@[j]@,
                forall|k: int|
                    0 <= k < r@.len() ==> self.edges@.contains((v, #[trigger] r@[k]@)),
                forall|j: int|
                    0 <= j < i && self.edges@[j].0 == v ==> exists|k: int|
                        0 <= k < r@.len() && #[trigger] r@[k]@ == self.edges@[j].1,
            decreases self.edges@.len() - i,
        {
            let e = self.edges[i];
            if e.0 == v {
                let mut seen = false;
                let mut k: usize = 0;
                while k < r.len()
                    invariant
                        k <= r@.len(),
                        seen <==> exists|k2: int| 0 <= k2 < k && #[trigger] r@[k2]@ == e.1,
                    decreases r@.len() - k,
                {
                    if r[k].uuid() == e.1 {
                        seen = true;
                    }
                    k = k + 1;
                }
                let ghost prev = r@;
                if !seen {
                    r.push(Id::from_value(e.1));
                }
                proof {
                    assert(forall|k2: int| 0 <= k2 < prev.len() ==> r@[k2] == prev[k2]);
                    assert(exists|k2: int| 0 <= k2 < r@.len() && #[trigger] r@[k2]@ == e.1) by {
                        if !seen {
                            assert(r@[r@.len() - 1]@ == e.1);
                        }
                    }
                }
            }
            i = i + 1;
        }
        proof {
            assert forall|b: u128| graph_edge(self@, scene_id@, b) implies exists|i2: int|
                0 <= i2 < r@.len() && #[trigger] r@[i2]@ == b by {
                assert(self.edges@.contains((v, b)));
                let j = choose|j: int|
                    0 <= j < self.edges@.len() && self.edges@[j] == (v, b);
                assert(self.edges@[j].0 == v && self.edges@[j].1 == b);
            }
            assert forall|i2: int| 0 <= i2 < r@.len() implies graph_edge(
                self@,
                scene_id@,
                #[trigger] r@[i2]@,
            ) by {
                assert(self.edges@.contains((v, r@[i2]@)));
                let j = choose|j: int|
                    0 <= j < self.edges@.len() && self.edges@[j] == (v, r@[i2]@);
                assert(self.members@.contains(self.edges@[j].0));
            }
        }
        r
    }

    /// Depth-first search seeded at every identifier of `starts` at once,
    /// using an explicit stack and a visited list: exactly the identifiers
    /// reachable from some seed, each once.
    fn reachable_from(&self, starts: &Vec<u128>) -> (r: Vec<u128>)
        requires
            self.wf(),
            forall|i: int| 0 <= i < starts@.len() ==> self.members@.contains(#[trigger] starts@[i]),
        ensures
            r@.no_duplicates(),
            forall|x: u128| #[trigger] r@.contains(x) <==> seq_reaches(self@, starts@, x),
    {
        let mut visited: Vec<u128> = Vec::new();
        let mut stack: Vec<u128> = Vec::new();
        let mut i: usize = 0;
        while i < starts.len()
            invariant
                i <= starts@.len(),
                stack@ == starts@.subrange(0, i as int),
            decreases starts@.len() - i,
        {
            stack.push(starts[i]);
            proof {
                assert(stack@ =~= starts@.subrange(0, i + 1));
            }
            i = i + 1;
        }
        proof {
            assert(stack@ =~= starts@);
            assert forall|x: u128| #[trigger] stack@.contains(x) implies seq_reaches(
                self@,
                starts@,
                x,
            ) by {
                let k = choose|k: int| 0 <= k < starts@.len() && starts@[k] == x;
                lemma_reaches_self(self@, x);
                assert(reaches(self@, starts@[k], x));
            }
        }

        while stack.len() > 0
            invariant
                self.wf(),
                visited@.no_duplicates(),
                visited@.len() <= self.members@.len(),
                forall|x: u128| #[trigger] visited@.contains(x) ==> self.members@.contains(x),
                forall|x: u128| #[trigger] stack@.contains(x) ==> self.members@.contains(x),
                forall|x: u128|
                    #[trigger] visited@.contains(x) ==> seq_reaches(self@, starts@, x),
                forall|x: u128| #[trigger] stack@.contains(x) ==> seq_reaches(self@, starts@, x),
                forall|k: int|
                    0 <= k < starts@.len() ==> visited@.contains(#[trigger] starts@[k])
                        || stack@.contains(starts@[k]),
                forall|a: u128, b: u128|
                    visited@.contains(a) && #[trigger] graph_edge(self@, a, b)
                        ==> visited@.contains(b) || stack@.contains(b),
            decreases self.members@.len() - visited@.len(), stack@.len(),
        {
            let ghost top_visited = visited@;
            let ghost top_stack = stack@;
            let node = stack.pop().unwrap();
            proof {
                assert(node == top_stack.last());
                assert(top_stack.contains(node)) by {
                    assert(top_stack[top_stack.len() - 1] == node);
                }
            }
            if !contains_id(&visited, node) {
                proof {
                    lemma_push_no_dup(visited@, node);
                }
                visited.push(node);
                proof {
                    lemma_subset_len(visited@, self.members@);
                }

                let ghost snapshot = stack@;
                let mut j: usize = 0;
                while j < self.edges.len()
                    invariant
                        self.wf(),
                        j <= self.edges@.len(),
                        forall|x: u128|
                            #[trigger] stack@.contains(x) ==> snapshot.contains(x) || graph_edge(
                                self@,
                                node,
                                x,
                            ),
                        forall|x: u128| snapshot.contains(x) ==> #[trigger] stack@.contains(x),
                        forall|jj: int|
                            0 <= jj < j && self.edges@[jj].0 == node ==> stack@.contains(
                                #[trigger] self.edges@[jj].1,
                            ),
                    decreases self.edges@.len() - j,
                {
                    let e = self.edges[j];
                    if e.0 == node {
                        proof {
                            assert(self.edges@.contains((node, e.1)));
                            assert(self@.dom().contains(node));
                            assert(graph_edge(self@, node, e.1));
                        }
                        stack.push(e.1);
                    }
                    j = j + 1;
                }
                proof {
                    assert forall|x: u128| #[trigger] stack@.contains(x) implies self.members@
                        .contains(x) by {
                        if snapshot.contains(x) {
                            lemma_drop_last_others(top_stack, x);
                            assert(top_stack.contains(x) || x == node);
                        } else {
                            assert(graph_edge(self@, node, x));
                            assert(self.edges@.contains((node, x)));
                        }
                    }
                    assert forall|x: u128| #[trigger] stack@.contains(x) implies seq_reaches(
                        self@,
                        starts@,
                        x,
                    ) by {
                        if snapshot.contains(x) {
                            lemma_drop_last_others(top_stack, x);
                        } else {
                            assert(graph_edge(self@, node, x));
                            let k = choose|k: int|
                                0 <= k < starts@.len() && reaches(self@, starts@[k], node);
                            lemma_reaches_step(self@, starts@[k], node, x);
                            assert(reaches(self@, starts@[k], x));
                        }
                    }
                    assert forall|k: int| 0 <= k < starts@.len() implies visited@.contains(
                        #[trigger] starts@[k],
                    ) || stack@.contains(starts@[k]) by {
                        let st = starts@[k];
                        if !top_visited.contains(st) && st != node {
                            lemma_pop_keeps_others(top_stack, st);
                            assert(snapshot.contains(st));
                        }
                    }
                    assert forall|a: u128, b: u128|
                        visited@.contains(a) && #[trigger] graph_edge(self@, a, b)
                            implies visited@.contains(b) || stack@.contains(b) by {
                        if a == node {
                            assert(self@[node].contains(b));
                            assert(self.edges@.contains((node, b)));
                            let jj = choose|jj: int|
                                0 <= jj < self.edges@.len() && self.edges@[jj] == (node, b);
                            assert(stack@.contains(self.edges@[jj].1));
                        } else {
                            assert(top_visited.contains(a));
                            if !top_visited.contains(b) && b != node {
                                assert(top_stack.contains(b));
                                lemma_pop_keeps_others(top_stack, b);
                                assert(snapshot.contains(b));
                            }
                        }
                    }
                }
            } else {
                proof {
                    assert(visited@.contains(node));
                    assert forall|k: int| 0 <= k < starts@.len() implies visited@.contains(
                        #[trigger] starts@[k],
                    ) || stack@.contains(starts@[k]) by {
                        let st = starts@[k];
                        if !visited@.contains(st) && st != node {
                            lemma_pop_keeps_others(top_stack, st);
                        }
                    }
                    assert forall|a: u128, b: u128|
                        visited@.contains(a) && #[trigger] graph_edge(self@, a, b)
                            implies visited@.contains(b) || stack@.contains(b) by {
                        if !visited@.contains(b) && b != node {
                            assert(top_stack.contains(b));
                            lemma_pop_keeps_others(top_stack, b);
                        }
                    }
                    assert forall|x: u128| #[trigger] stack@.contains(x) implies self.members@
                        .contains(x) && seq_reaches(self@, starts@, x) by {
                        lemma_drop_last_others(top_stack, x);
                    }
                }
            }
        }
        proof {
            let vs = visited@.to_set();
            assert forall|x: u128| seq_reaches(self@, starts@, x) implies visited@.contains(
                x,
            ) by {
                let k = choose|k: int| 0 <= k < starts@.len() && reaches(self@, starts@[k], x);
                assert(visited@.contains(starts@[k]));
                assert(vs.contains(starts@[k]));
                assert forall|a: u128, b: u128|
                    vs.contains(a) && #[trigger] graph_edge(self@, a, b) implies vs.contains(
                    b,
                ) by {
                    assert(visited@.contains(a));
                }
                lemma_reach_in_closed_set(self@, vs, starts@[k], x);
            }
        }
        visited
    }

    /// Whether `target` is reachable from `start`: the descendant check that
    /// governs the cycle-avoidance policy of `move_scene`.
    fn is_descendant(&self, start: u128, target: u128) -> (r: bool)
        requires
            self.wf(),
            self@.dom().contains(start),
        ensures
            r == reaches(self@, start, target),
    {
        let mut starts: Vec<u128> = Vec::new();
        starts.push(start);
        let reachable = self.reachable_from(&starts);
        let res = contains_id(&reachable, target);
        proof {
            assert(starts@[0] == start);
            if res {
                assert(seq_reaches(self@, starts@, target));
                let k = choose|k: int|
                    0 <= k < starts@.len() && reaches(self@, starts@[k], target);
                assert(k == 0);
            } else {
                if reaches(self@, start, target) {
                    assert(seq_reaches(self@, starts@, target));
                }
            }
        }
        res
    }

    /// Reparents `scene` from `from`'s successor set to `dest`'s.
    ///
    /// All three identifiers must already be members, else the first missing
    /// one (checked in the order scene, from, dest) is reported as
    /// `SceneNotInGraph`. Moving a scene onto the same parent succeeds as a
    /// no-op. Otherwise `scene` must currently be a successor of `from`,
    /// else `InvalidMove`; and with that edge removed, `dest` must not reach
    /// `scene`, else the move would close a cycle: the graph is left exactly
    /// as it was and `CycleDetected` is reported. Every failure leaves the
    /// graph unchanged. Roots and membership never change.
    pub fn move_scene(
        &mut self,
        scene: &Id<SceneKind>,
        from: &Id<SceneKind>,
        dest: &Id<SceneKind>,
    ) -> (r: Result<StoryboardUpdate, StoryboardError>)
        requires
            old(self).wf(),
        ensures
            final(self).wf(),
            final(self).roots() == old(self).roots(),
            final(self)@.dom() == old(self)@.dom(),
            match r {
                Ok(u) => {
                    &&& u == (StoryboardUpdate::Move { scene: *scene, from: *from, dest: *dest })
                    &&& old(self)@.dom().contains(scene@)
                    &&& old(self)@.dom().contains(from@)
                    &&& old(self)@.dom().contains(dest@)
                    &&& if from@ == dest@ {
                        final(self)@ == old(self)@
                    } else {
                        &&& old(self)@[from@].contains(scene@)
                        &&& !reaches(graph_without_edge(old(self)@, from@, scene@), dest@, scene@)
                        &&& final(self)@ == graph_after_move(old(self)@, scene@, from@, dest@)
                    }
                },
                Err(StoryboardError::SceneNotInGraph(x)) => {
                    &&& final(self)@ == old(self)@
                    &&& {
                        ||| (x == *scene && !old(self)@.dom().contains(scene@))
                        ||| (x == *from && old(self)@.dom().contains(scene@) && !old(
                            self,
                        )@.dom().contains(from@))
                        ||| (x == *dest && old(self)@.dom().contains(scene@) && old(
                            self,
                        )@.dom().contains(from@) && !old(self)@.dom().contains(dest@))
                    }
                },
                Err(StoryboardError::InvalidMove { scene: s, from: f, dest: d }) => {
                    &&& s == *scene && f == *from && d == *dest
                    &&& final(self)@ == old(self)@
                    &&& old(self)@.dom().contains(scene@)
                    &&& old(self)@.dom().contains(from@)
                    &&& old(self)@.dom().contains(dest@)
                    &&& from@ != dest@
                    &&& !old(self)@[from@].contains(scene@)
                },
                Err(StoryboardError::CycleDetected(s, d)) => {
                    &&& s == *scene && d == *dest
                    &&& final(self)@ == old(self)@
                    &&& old(self)@.dom().contains(scene@)
                    &&& old(self)@.dom().contains(from@)
                    &&& old(self)@.dom().contains(dest@)
                    &&& from@ != dest@
                    &&& old(self)@[from@].contains(scene@)
                    &&& reaches(graph_without_edge(old(self)@, from@, scene@), dest@, scene@)
                },
                Err(StoryboardError::UnknownScene(_)) => false,
            },
    {
        let s = scene.uuid();
        let f = from.uuid();
        let d = dest.uuid();

        if !contains_id(&self.members, s) {
            return Err(StoryboardError::SceneNotInGraph(scene.clone()));
        }
        if !contains_id(&self.members, f) {
            return Err(StoryboardError::SceneNotInGraph(from.clone()));
        }
        if !contains_id(&self.members, d) {
            return Err(StoryboardError::SceneNotInGraph(dest.clone()));
        }

        if f == d {
            return Ok(StoryboardUpdate::Move {
                scene: scene.clone(),
                from: from.clone(),
                dest: dest.clone(),
            });
        }

        let removed = remove_pair(&mut self.edges, f, s);
        if !removed {
            proof {
                assert(self@ =~~= old(self)@);
            }
            return Err(StoryboardError::InvalidMove {
                scene: scene.clone(),
                from: from.clone(),
                dest: dest.clone(),
            });
        }

        proof {
            assert(self@ =~~= graph_without_edge(old(self)@, from@, scene@));
        }

        if self.is_descendant(d, s) {
            proof {
                lemma_push_no_dup(self.edges@, (f, s));
            }
            self.edges.push((f, s));
            proof {
                assert(self@ =~~= old(self)@);
            }
            return Err(StoryboardError::CycleDetected(scene.clone(), dest.clone()));
        }

        if !contains_pair(&self.edges, d, s) {
            proof {
                lemma_push_no_dup(self.edges@, (d, s));
            }
            self.edges.push((d, s));
        }
        proof {
            assert(self@ =~~= graph_after_move(old(self)@, scene@, from@, dest@));
            assert(self@.dom() =~= old(self)@.dom());
        }
        Ok(StoryboardUpdate::Move {
            scene: scene.clone(),
            from: from.clone(),
            dest: dest.clone(),
        })
    }

    /// The graph members that no root reaches, each exactly once. A graph
    /// with no roots has every member unreachable.
    pub fn unreachable_scenes(&self) -> (r: Vec<Id<SceneKind>>)
        requires
            self.wf(),
        ensures
            forall|i: int, j: int| 0 <= i < j < r@.len() ==> r@[i]@ != r@[j]@,
            forall|i: int|
                0 <= i < r@.len() ==> self@.dom().contains(#[trigger] r@[i]@) && !root_reaches(
                    self@,
                    self.roots(),
                    r@[i]@,
                ),
            forall|x: u128|
                self@.dom().contains(x) && !root_reaches(self@, self.roots(), x) ==> exists|i: int|
                    0 <= i < r@.len() && #[trigger] r@[i]@ == x,
    {
        proof {
            assert forall|i: int| 0 <= i < self.roots@.len() implies self.members@.contains(
                #[trigger] self.roots@[i],
            ) by {
                assert(self.roots@.contains(self.roots@[i]));
            }
        }
        let reachable = self.reachable_from(&self.roots);
        proof {
            assert forall|x: u128|
                seq_reaches(self@, self.roots@, x) == root_reaches(
                self@,
                self.roots(),
                x,
            ) by {
                if seq_reaches(self@, self.roots@, x) {
                    let k = choose|k: int|
                        0 <= k < self.roots@.len() && reaches(self@, self.roots@[k], x);
                    assert(self.roots@.contains(self.roots@[k]));
                    assert(self.roots().contains(self.roots@[k]));
                    assert(root_reaches(self@, self.roots(), x));
                }
                if root_reaches(self@, self.roots(), x) {
                    let rt = choose|rt: u128|
                        self.roots().contains(rt) && reaches(self@, rt, x);
                    assert(self.roots@.contains(rt));
                    let k = choose|k: int|
                        0 <= k < self.roots@.len() && self.roots@[k] == rt;
                    assert(reaches(self@, self.roots@[k], x));
                    assert(seq_reaches(self@, self.roots@, x));
                }
            }
        }

        let mut r: Vec<Id<SceneKind>> = Vec::new();
        let mut i: usize = 0;
        while i < self.members.len()
            invariant
                self.wf(),
                i <= self.members@.len(),
                forall|x: u128|
                    #[trigger] reachable@.contains(x) <==> root_reaches(self@, self.roots(), x),
                forall|k1: int, k2: int| 0 <= k1 < k2 < r@.len() ==> r@[k1]@ != r@[k2]@,
                forall|k: int|
                    0 <= k < r@.len() ==> self.members@.subrange(0, i as int).contains(
                        #[trigger] r@[k]@,
                    ) && !root_reaches(self@, self.roots(), r@[k]@),
                forall|x: u128|
                    self.members@.subrange(0, i as int).contains(x) && !root_reaches(
                        self@,
                        self.roots(),
                        x,
                    ) ==> exists|k: int| 0 <= k < r@.len() && #[trigger] r@[k]@ == x,
            decreases self.members@.len() - i,
        {
            let m = self.members[i];
            let ghost prev = r@;
            proof {
                assert(self.members@.subrange(0, i + 1).drop_last() =~= self.members@.subrange(
                    0,
                    i as int,
                ));
                if self.members@.subrange(0, i as int).contains(m) {
                    let k = choose|k: int|
                        0 <= k < i && self.members@.subrange(0, i as int)[k] == m;
                    assert(self.members@[k] == self.members@[i as int]);
                    assert(false);
                }
            }
            if !contains_id(&reachable, m) {
                r.push(Id::from_value(m));
            }
            proof {
                assert(forall|k: int| 0 <= k < prev.len() ==> r@[k] == prev[k]);
                if !reachable@.contains(m) {
                    assert(r@[r@.len() - 1]@ == m);
                }
                assert forall|x: u128|
                    self.members@.subrange(0, i + 1).contains(x) && !root_reaches(
                        self@,
                        self.roots(),
                        x,
                    ) implies exists|k: int| 0 <= k < r@.len() && #[trigger] r@[k]@ == x by {
                    if x == m {
                        assert(r@[r@.len() - 1]@ == m);
                    } else {
                        assert(self.members@.subrange(0, i as int).contains(x));
                        let k = choose|k: int| 0 <= k < prev.len() && prev[k]@ == x;
                        assert(r@[k]@ == x);
                    }
                }
            }
            i = i + 1;
        }
        proof {
            assert(self.members@.subrange(0, self.members@.len() as int) =~= self.members@);
            assert forall|i2: int| 0 <= i2 < r@.len() implies self@.dom().contains(
                #[trigger] r@[i2]@,
            ) by {
                assert(self.members@.contains(r@[i2]@));
            }
        }
        r
    }

    /// Breadth-first traversal from `start`, for the outline: appends one
    /// listing line per newly reached scene, at its breadth-first depth —
    /// `start` at depth zero, every other scene one level below the line it
    /// was reached from — skipping scenes already visited. `visited` must be
    /// closed under successors on entry (a finished earlier traversal); it
    /// is extended by exactly what `start` reaches, and the outline lists
    /// exactly the visited scenes throughout.
    fn bfs_from(&self, start: u128, visited: &mut Vec<u128>, lines: &mut Vec<OutlineLine>)
        requires
            self.wf(),
            self.members@.contains(start),
            old(visited)@.no_duplicates(),
            forall|x: u128| #[trigger] old(visited)@.contains(x) ==> self.members@.contains(x),
            forall|a: u128, b: u128|
                old(visited)@.contains(a) && #[trigger] graph_edge(self@, a, b) ==> old(
                    visited,
                )@.contains(b),
            forall|x: u128| #[trigger] outline_lists(old(lines)@, x) <==> old(visited)@.contains(x),
            outline_lists_once(old(lines)@),
        ensures
            final(visited)@.no_duplicates(),
            forall|x: u128| #[trigger] final(visited)@.contains(x) ==> self.members@.contains(x),
            forall|x: u128|
                #[trigger] final(visited)@.contains(x) <==> (old(visited)@.contains(x) || reaches(
                    self@,
                    start,
                    x,
                )),
            forall|a: u128, b: u128|
                final(visited)@.contains(a) && #[trigger] graph_edge(self@, a, b)
                    ==> final(visited)@.contains(b),
            forall|x: u128|
                #[trigger] outline_lists(final(lines)@, x) <==> final(visited)@.contains(x),
            outline_lists_once(final(lines)@),
            forall|x: u128|
                #[trigger] outline_heads(final(lines)@, x) == outline_heads(old(lines)@, x),
            final(lines)@.len() >= old(lines)@.len(),
            forall|i: int| 0 <= i < old(lines)@.len() ==> final(lines)@[i] == old(lines)@[i],
            outline_depths_chained(
                final(lines)@,
                self@,
                old(lines)@.len() as int,
                set![start],
            ),
            outline_depths_tight(final(lines)@, self@, old(lines)@.len() as int),
    {
        let ghost lo = old(lines)@.len() as int;
        let mut queue: Vec<(u128, usize)> = Vec::new();
        queue.push((start, 0));
        proof {
            assert(queue@[0].0 == start && queue@[0].1 == 0);
            lemma_reaches_self(self@, start);
            lemma_subset_len(visited@, self.members@);
        }
        while queue.len() > 0
            invariant
                self.wf(),
                self.members@.contains(start),
                visited@.no_duplicates(),
                visited@.len() <= self.members@.len(),
                forall|x: u128| #[trigger] visited@.contains(x) ==> self.members@.contains(x),
                forall|k: int|
                    0 <= k < queue@.len() ==> self.members@.contains(#[trigger] queue@[k].0),
                forall|x: u128|
                    #[trigger] visited@.contains(x) ==> (old(visited)@.contains(x) || reaches(
                        self@,
                        start,
                        x,
                    )),
                forall|k: int|
                    0 <= k < queue@.len() ==> reaches(self@, start, #[trigger] queue@[k].0),
                forall|x: u128| old(visited)@.contains(x) ==> #[trigger] visited@.contains(x),
                visited@.contains(start) || exists|k: int|
                    0 <= k < queue@.len() && #[trigger] queue@[k].0 == start,
                forall|a: u128, b: u128|
                    visited@.contains(a) && #[trigger] graph_edge(self@, a, b)
                        ==> visited@.contains(b) || exists|k: int|
                        0 <= k < queue@.len() && #[trigger] queue@[k].0 == b,
                forall|x: u128| #[trigger] outline_lists(lines@, x) <==> visited@.contains(x),
                outline_lists_once(lines@),
                forall|x: u128|
                    #[trigger] outline_heads(lines@, x) == outline_heads(old(lines)@, x),
                lo == old(lines)@.len() as int,
                lines@.len() >= lo,
                forall|i: int| 0 <= i < lo ==> lines@[i] == old(lines)@[i],
                outline_depths_chained(lines@, self@, lo, set![start]),
                forall|k: int|
                    0 <= k < queue@.len() ==> ((#[trigger] queue@[k]).0 == start && queue@[k].1
                        == 0) || exists|j: int|
                        lo <= j < lines@.len() && listed_step(
                            #[trigger] lines@[j],
                            self@,
                            queue@[k].0,
                            queue@[k].1,
                        ),
                outline_depths_tight(lines@, self@, lo),
                forall|k1: int, k2: int|
                    0 <= k1 <= k2 < queue@.len() ==> (#[trigger] queue@[k1]).1 <= (
                    #[trigger] queue@[k2]).1,
                forall|k1: int, k2: int|
                    0 <= k1 < queue@.len() && 0 <= k2 < queue@.len() ==> (#[trigger] queue@[k2]).1
                        <= next_outline_depth((#[trigger] queue@[k1]).1),
                forall|i: int, k: int|
                    lo <= i < lines@.len() && 0 <= k < queue@.len() ==> line_depth_le(
                        #[trigger] lines@[i],
                        (#[trigger] queue@[k]).1,
                    ),
                forall|i: int, b: u128|
                    lo <= i < lines@.len() && #[trigger] listed_edge(lines@[i], self@, b)
                        && !visited@.contains(b) ==> exists|k: int|
                        0 <= k < queue@.len() && (#[trigger] queue@[k]).0 == b && queue@[k].1
                            <= line_next_depth(lines@[i]),
            decreases self.members@.len() - visited@.len(), queue@.len(),
        {
            let ghost top_queue = queue@;
            let ghost top_visited = visited@;
            let entry = queue.remove(0);
            let node = entry.0;
            let depth = entry.1;
            proof {
                top_queue.remove_ensures(0);
                assert(node == top_queue[0].0);
                assert forall|k: int| 0 <= k < queue@.len() implies queue@[k]
                    == top_queue[k + 1] by {}
            }
            if !contains_id(visited, node) {
                proof {
                    lemma_push_no_dup(visited@, node);
                }
                visited.push(node);
                let ghost pre_lines = lines@;
                lines.push(OutlineLine::Listed(Id::from_value(node), depth));
                proof {
                    lemma_subset_len(visited@, self.members@);
                    lemma_outline_push(pre_lines, lines@[lines@.len() - 1]);
                    assert(line_listed_id(lines@[lines@.len() - 1]) == Some(node));
                    assert forall|i: int, j: int|
                        0 <= i < j < lines@.len() && line_listed_id(#[trigger] lines@[i]) is Some
                            implies line_listed_id(lines@[i]) != line_listed_id(
                        #[trigger] lines@[j],
                    ) by {
                        if j == lines@.len() - 1 {
                            if line_listed_id(pre_lines[i]) is Some {
                                let a = line_listed_id(pre_lines[i])->Some_0;
                                assert(outline_lists(pre_lines, a));
                            }
                        }
                    }
                    assert(forall|i2: int|
                        0 <= i2 < pre_lines.len() ==> #[trigger] lines@[i2] == pre_lines[i2]);
                    lemma_chained_extend(pre_lines, lines@, self@, lo, pre_lines.len() as int, set![start]);
                    assert(top_queue[0] == (node, depth));
                    assert forall|i1: int, i2: int| lo <= i1 < i2 < lines@.len() implies
                        depth_pair_tight(#[trigger] lines@[i1], #[trigger] lines@[i2], self@) by {
                        if i2 == lines@.len() - 1 {
                            match lines@[i1] {
                                OutlineLine::Listed(u, d1) => {
                                    if graph_edge(self@, u@, node) {
                                        assert(lines@[i1] == pre_lines[i1]);
                                        assert(listed_edge(pre_lines[i1], self@, node));
                                        let k = choose|k: int|
                                            0 <= k < top_queue.len() && (#[trigger] top_queue[k]).0
                                                == node && top_queue[k].1 <= line_next_depth(
                                                pre_lines[i1],
                                            );
                                        assert(top_queue[0].1 <= top_queue[k].1);
                                        assert(depth <= next_outline_depth(d1));
                                    }
                                },
                                OutlineLine::RootHeading(_) => {},
                            }
                        } else {
                            assert(lines@[i1] == pre_lines[i1] && lines@[i2] == pre_lines[i2]);
                            assert(depth_pair_tight(pre_lines[i1], pre_lines[i2], self@));
                        }
                    }
                    assert(line_depth_justified(lines@, self@, lo, lines@.len() - 1, set![start]))
                        by {
                        if !(node == start && depth == 0) {
                            let j = choose|j: int|
                                lo <= j < pre_lines.len() && listed_step(
                                    #[trigger] pre_lines[j],
                                    self@,
                                    node,
                                    depth,
                                );
                            assert(lines@[j] == pre_lines[j]);
                            assert(listed_step(lines@[j], self@, node, depth));
                        } else {
                            assert(set![start].contains(node));
                        }
                    }
                    assert(outline_depths_chained(lines@, self@, lo, set![start]));
                }
                let next_depth: usize = if depth < usize::MAX {
                    depth + 1
                } else {
                    depth
                };
                let ghost node_line = lines@[lines@.len() - 1];
                proof {
                    assert(next_depth == next_outline_depth(depth));
                    assert(node_line matches OutlineLine::Listed(u, d2) && u@ == node && d2
                        == depth);
                }
                proof {
                    assert forall|k: int| 0 <= k < queue@.len() implies ((
                    #[trigger] queue@[k]).0 == start && queue@[k].1 == 0) || exists|j2: int|
                        lo <= j2 < lines@.len() && listed_step(
                            #[trigger] lines@[j2],
                            self@,
                            queue@[k].0,
                            queue@[k].1,
                        ) by {
                        assert(queue@[k] == top_queue[k + 1]);
                        if !(queue@[k].0 == start && queue@[k].1 == 0) {
                            let j2 = choose|j2: int|
                                lo <= j2 < pre_lines.len() && listed_step(
                                    #[trigger] pre_lines[j2],
                                    self@,
                                    queue@[k].0,
                                    queue@[k].1,
                                );
                            assert(lines@[j2] == pre_lines[j2]);
                            assert(listed_step(lines@[j2], self@, queue@[k].0, queue@[k].1));
                        }
                    }
                    assert forall|k1: int, k2: int|
                        0 <= k1 <= k2 < queue@.len() implies (#[trigger] queue@[k1]).1 <= (
                    #[trigger] queue@[k2]).1 by {
                        assert(queue@[k1] == top_queue[k1 + 1] && queue@[k2] == top_queue[k2 + 1]);
                    }
                    assert forall|k: int|
                        0 <= k < queue@.len() implies depth <= (#[trigger] queue@[k]).1
                        && queue@[k].1 <= next_depth by {
                        assert(queue@[k] == top_queue[k + 1]);
                        assert(top_queue[0].1 <= top_queue[k + 1].1);
                        assert(top_queue[k + 1].1 <= next_outline_depth(top_queue[0].1));
                    }
                    assert forall|i: int| lo <= i < lines@.len() implies line_depth_le(
                        #[trigger] lines@[i],
                        depth,
                    ) by {
                        if i < pre_lines.len() {
                            assert(lines@[i] == pre_lines[i]);
                            assert(line_depth_le(pre_lines[i], top_queue[0].1));
                        }
                    }
                }
                let ghost snapshot = queue@;
                let mut j: usize = 0;
                while j < self.edges.len()
                    invariant
                        self.wf(),
                        j <= self.edges@.len(),
                        queue@.len() >= snapshot.len(),
                        forall|k: int| 0 <= k < snapshot.len() ==> #[trigger] queue@[k]
                            == snapshot[k],
                        forall|k: int|
                            snapshot.len() <= k < queue@.len() ==> graph_edge(
                                self@,
                                node,
                                (#[trigger] queue@[k]).0,
                            ),
                        forall|jj: int|
                            0 <= jj < j && self.edges@[jj].0 == node ==> exists|k: int|
                                0 <= k < queue@.len() && (#[trigger] queue@[k]).0
                                    == self.edges@[jj].1 && queue@[k].1 <= next_depth,
                        forall|k1: int, k2: int|
                            0 <= k1 <= k2 < queue@.len() ==> (#[trigger] queue@[k1]).1 <= (
                            #[trigger] queue@[k2]).1,
                        forall|k: int|
                            0 <= k < queue@.len() ==> depth <= (#[trigger] queue@[k]).1
                                && queue@[k].1 <= next_depth,
                        forall|i: int|
                            lo <= i < lines@.len() ==> line_depth_le(#[trigger] lines@[i], depth),
                        0 <= lo < lines@.len(),
                        next_depth == next_outline_depth(depth),
                        lines@[lines@.len() - 1] == node_line,
                        node_line matches OutlineLine::Listed(u, d2) && u@ == node && d2
                            == depth,
                        forall|k: int|
                            0 <= k < queue@.len() ==> ((#[trigger] queue@[k]).0 == start
                                && queue@[k].1 == 0) || exists|j2: int|
                                lo <= j2 < lines@.len() && listed_step(
                                    #[trigger] lines@[j2],
                                    self@,
                                    queue@[k].0,
                                    queue@[k].1,
                                ),
                    decreases self.edges@.len() - j,
                {
                    let e = self.edges[j];
                    if e.0 == node {
                        proof {
                            assert(self.edges@.contains((node, e.1)));
                            assert(self@.dom().contains(node));
                            assert(graph_edge(self@, node, e.1));
                        }
                        let ghost qpre = queue@;
                        queue.push((e.1, next_depth));
                        proof {
                            assert(queue@[queue@.len() - 1] == (e.1, next_depth));
                            assert(forall|k: int|
                                0 <= k < qpre.len() ==> #[trigger] queue@[k] == qpre[k]);
                            assert forall|jj: int|
                                0 <= jj <= j && self.edges@[jj].0 == node implies exists|k: int|
                                0 <= k < queue@.len() && (#[trigger] queue@[k]).0
                                    == self.edges@[jj].1 && queue@[k].1 <= next_depth by {
                                if jj < j {
                                    let k0 = choose|k0: int|
                                        0 <= k0 < qpre.len() && (#[trigger] qpre[k0]).0
                                            == self.edges@[jj].1 && qpre[k0].1 <= next_depth;
                                    assert(queue@[k0] == qpre[k0]);
                                } else {
                                    assert(queue@[queue@.len() - 1] == (e.1, next_depth));
                                }
                            }
                            assert forall|k1: int, k2: int|
                                0 <= k1 <= k2 < queue@.len() implies (#[trigger] queue@[k1]).1
                                <= (#[trigger] queue@[k2]).1 by {
                                if k2 == queue@.len() - 1 {
                                    assert(queue@[k1].1 <= next_depth);
                                } else {
                                    assert(queue@[k1] == qpre[k1] && queue@[k2] == qpre[k2]);
                                }
                            }
                            assert(listed_step(node_line, self@, e.1, next_depth));
                            assert(lines@[lines@.len() - 1] == node_line);
                            assert forall|k: int|
                                0 <= k < queue@.len() implies ((#[trigger] queue@[k]).0 == start
                                && queue@[k].1 == 0) || exists|j2: int|
                                lo <= j2 < lines@.len() && listed_step(
                                    #[trigger] lines@[j2],
                                    self@,
                                    queue@[k].0,
                                    queue@[k].1,
                                ) by {
                                if k == queue@.len() - 1 {
                                    assert(lo <= lines@.len() - 1 && listed_step(
                                        lines@[lines@.len() - 1],
                                        self@,
                                        queue@[k].0,
                                        queue@[k].1,
                                    ));
                                } else {
                                    assert(queue@[k] == qpre[k]);
                                }
                            }
                        }
                    }
                    j = j + 1;
                }
                proof {
                    assert forall|k: int| 0 <= k < queue@.len() implies self.members@.contains(
                        (#[trigger] queue@[k]).0,
                    ) && reaches(self@, start, queue@[k].0) by {
                        if k < snapshot.len() {
                            assert(snapshot[k] == top_queue[k + 1]);
                        } else {
                            assert(graph_edge(self@, node, queue@[k].0));
                            assert(self.edges@.contains((node, queue@[k].0)));
                            lemma_reaches_step(self@, start, node, queue@[k].0);
                        }
                    }
                    assert forall|a: u128, b: u128|
                        visited@.contains(a) && #[trigger] graph_edge(self@, a, b)
                            implies visited@.contains(b) || exists|k: int|
                        0 <= k < queue@.len() && #[trigger] queue@[k].0 == b by {
                        if a == node {
                            assert(self@[node].contains(b));
                            assert(self.edges@.contains((node, b)));
                            let jj = choose|jj: int|
                                0 <= jj < self.edges@.len() && self.edges@[jj] == (node, b);
                            assert(exists|k: int|
                                0 <= k < queue@.len() && (#[trigger] queue@[k]).0
                                    == self.edges@[jj].1);
                        } else if !visited@.contains(b) && b != node {
                            let k = choose|k: int|
                                0 <= k < top_queue.len() && top_queue[k].0 == b;
                            if k == 0 {
                                assert(false);
                            }
                            assert(snapshot[k - 1] == top_queue[k]);
                            assert(queue@[k - 1].0 == b);
                        }
                    }
                    if !visited@.contains(start) {
                        let k = choose|k: int|
                            0 <= k < top_queue.len() && top_queue[k].0 == start;
                        assert(k > 0);
                        assert(snapshot[k - 1] == top_queue[k]);
                        assert(queue@[k - 1].0 == start);
                    }
                    assert forall|k1: int, k2: int|
                        0 <= k1 < queue@.len() && 0 <= k2 < queue@.len() implies (
                    #[trigger] queue@[k2]).1 <= next_outline_depth((#[trigger] queue@[k1]).1) by {
                        assert(depth <= queue@[k1].1);
                        assert(queue@[k2].1 <= next_depth);
                        assert(next_outline_depth(depth) <= next_outline_depth(queue@[k1].1));
                    }
                    assert forall|i: int, k: int|
                        lo <= i < lines@.len() && 0 <= k < queue@.len() implies line_depth_le(
                        #[trigger] lines@[i],
                        (#[trigger] queue@[k]).1,
                    ) by {
                        assert(line_depth_le(lines@[i], depth));
                        assert(depth <= queue@[k].1);
                    }
                    assert forall|i: int, b: u128|
                        lo <= i < lines@.len() && #[trigger] listed_edge(lines@[i], self@, b)
                            && !visited@.contains(b) implies exists|k: int|
                        0 <= k < queue@.len() && (#[trigger] queue@[k]).0 == b && queue@[k].1
                            <= line_next_depth(lines@[i]) by {
                        if i == lines@.len() - 1 {
                            assert(graph_edge(self@, node, b));
                            assert(self.edges@.contains((node, b)));
                            let jj = choose|jj: int|
                                0 <= jj < self.edges@.len() && self.edges@[jj] == (node, b);
                            assert(exists|k: int|
                                0 <= k < queue@.len() && (#[trigger] queue@[k]).0
                                    == self.edges@[jj].1 && queue@[k].1 <= next_depth);
                            assert(line_next_depth(lines@[i]) == next_depth);
                        } else {
                            assert(lines@[i] == pre_lines[i]);
                            assert(!top_visited.contains(b));
                            assert(listed_edge(pre_lines[i], self@, b));
                            let k0 = choose|k0: int|
                                0 <= k0 < top_queue.len() && (#[trigger] top_queue[k0]).0 == b
                                    && top_queue[k0].1 <= line_next_depth(pre_lines[i]);
                            if k0 == 0 {
                                assert(b == node);
                                assert(false);
                            }
                            assert(snapshot[k0 - 1] == top_queue[k0]);
                            assert(queue@[k0 - 1] == snapshot[k0 - 1]);
                        }
                    }
                }
            } else {
                proof {
                    assert(visited@.contains(node));
                    assert forall|k: int| 0 <= k < queue@.len() implies self.members@.contains(
                        #[trigger] queue@[k].0,
                    ) && reaches(self@, start, queue@[k].0) by {
                        assert(queue@[k] == top_queue[k + 1]);
                    }
                    assert forall|k: int| 0 <= k < queue@.len() implies ((
                    #[trigger] queue@[k]).0 == start && queue@[k].1 == 0) || exists|j2: int|
                        lo <= j2 < lines@.len() && listed_step(
                            #[trigger] lines@[j2],
                            self@,
                            queue@[k].0,
                            queue@[k].1,
                        ) by {
                        assert(queue@[k] == top_queue[k + 1]);
                    }
                    assert forall|a: u128, b: u128|
                        visited@.contains(a) && #[trigger] graph_edge(self@, a, b)
                            implies visited@.contains(b) || exists|k: int|
                        0 <= k < queue@.len() && #[trigger] queue@[k].0 == b by {
                        if !visited@.contains(b) && b != node {
                            let k = choose|k: int|
                                0 <= k < top_queue.len() && top_queue[k].0 == b;
                            assert(k > 0);
                            assert(queue@[k - 1] == top_queue[k]);
                        }
                    }
                    if !visited@.contains(start) && start != node {
                        let k = choose|k: int|
                            0 <= k < top_queue.len() && top_queue[k].0 == start;
                        assert(k > 0);
                        assert(queue@[k - 1] == top_queue[k]);
                    }
                    assert forall|k1: int, k2: int|
                        0 <= k1 <= k2 < queue@.len() implies (#[trigger] queue@[k1]).1 <= (
                    #[trigger] queue@[k2]).1 by {
                        assert(queue@[k1] == top_queue[k1 + 1] && queue@[k2] == top_queue[k2 + 1]);
                    }
                    assert forall|k1: int, k2: int|
                        0 <= k1 < queue@.len() && 0 <= k2 < queue@.len() implies (
                    #[trigger] queue@[k2]).1 <= next_outline_depth((#[trigger] queue@[k1]).1) by {
                        assert(queue@[k1] == top_queue[k1 + 1] && queue@[k2] == top_queue[k2 + 1]);
                    }
                    assert forall|i: int, k: int|
                        lo <= i < lines@.len() && 0 <= k < queue@.len() implies line_depth_le(
                        #[trigger] lines@[i],
                        (#[trigger] queue@[k]).1,
                    ) by {
                        assert(queue@[k] == top_queue[k + 1]);
                    }
                    assert forall|i: int, b: u128|
                        lo <= i < lines@.len() && #[trigger] listed_edge(lines@[i], self@, b)
                            && !visited@.contains(b) implies exists|k: int|
                        0 <= k < queue@.len() && (#[trigger] queue@[k]).0 == b && queue@[k].1
                            <= line_next_depth(lines@[i]) by {
                        let k0 = choose|k0: int|
                            0 <= k0 < top_queue.len() && (#[trigger] top_queue[k0]).0 == b
                                && top_queue[k0].1 <= line_next_depth(lines@[i]);
                        if k0 == 0 {
                            assert(b == node);
                            assert(false);
                        }
                        assert(queue@[k0 - 1] == top_queue[k0]);
                    }
                }
            }
        }
        proof {
            let vs = visited@.to_set();
            assert forall|x: u128| (old(visited)@.contains(x) || reaches(
                self@,
                start,
                x,
            )) implies visited@.contains(x) by {
                if reaches(self@, start, x) {
                    assert(visited@.contains(start));
                    assert(vs.contains(start));
                    assert forall|a: u128, b: u128|
                        vs.contains(a) && #[trigger] graph_edge(self@, a, b) implies vs.contains(
                        b,
                    ) by {
                        assert(visited@.contains(a));
                    }
                    lemma_reach_in_closed_set(self@, vs, start, x);
                }
            }
        }
    }

    /// The diagnostic outline of the graph: a breadth-first listing of every
    /// scene reachable from `from`, or, when `from` is absent, from every
    /// root in turn, each root preceded by a heading line. A scene reachable
    /// more than one way is listed only the first time it is encountered.
    /// Each listing line carries the scene's breadth-first depth: an origin
    /// of the traversal is listed at depth zero, and every other scene
    /// exactly one level below the earliest-listed line that reaches it by
    /// one edge — one level below some such line, and never more than one
    /// level below any of them.
    pub fn outline_from(&self, from: Option<&Id<SceneKind>>) -> (lines: Vec<OutlineLine>)
        requires
            self.wf(),
        ensures
            outline_lists_once(lines@),
            match from {
                Some(s) => (forall|x: u128|
                    #[trigger] outline_lists(lines@, x) <==> reaches(self@, s@, x)) && (forall|
                    x: u128,
                |
                    !#[trigger] outline_heads(lines@, x)) && outline_depths_chained(
                    lines@,
                    self@,
                    0,
                    set![s@],
                ) && outline_depths_tight(lines@, self@, 0),
                None => (forall|x: u128|
                    #[trigger] outline_lists(lines@, x) <==> root_reaches(
                        self@,
                        self.roots(),
                        x,
                    )) && (forall|x: u128|
                    #[trigger] outline_heads(lines@, x) <==> self.roots().contains(x))
                    && outline_depths_chained(lines@, self@, 0, self.roots())
                    && outline_depths_tight(lines@, self@, 0),
            },
    {
        let mut visited: Vec<u128> = Vec::new();
        let mut lines: Vec<OutlineLine> = Vec::new();
        match from {
            Some(s) => {
                let v = s.uuid();
                if contains_id(&self.members, v) {
                    self.bfs_from(v, &mut visited, &mut lines);
                    proof {
                        assert forall|x: u128| #[trigger] outline_lists(lines@, x) implies reaches(
                            self@,
                            s@,
                            x,
                        ) by {
                            assert(visited@.contains(x));
                        }
                        assert(set![v] == set![s@]);
                    }
                } else {
                    let ghost pre_lines = lines@;
                    lines.push(OutlineLine::Listed(s.clone(), 0));
                    proof {
                        lemma_outline_push(pre_lines, lines@[lines@.len() - 1]);
                        lemma_reaches_self(self@, s@);
                        assert forall|b: u128| !#[trigger] graph_edge(self@, v, b) by {
                            if graph_edge(self@, v, b) {
                                assert(self@.dom().contains(v));
                            }
                        }
                        assert forall|x: u128| #[trigger] outline_lists(lines@, x) implies reaches(
                            self@,
                            s@,
                            x,
                        ) by {
                            assert(x == s@);
                        }
                        assert forall|x: u128| reaches(self@, s@, x) implies outline_lists(
                            lines@,
                            x,
                        ) by {
                            lemma_reaches_only_self_without_edges(self@, v, x);
                            assert(line_listed_id(lines@[0]) == Some(x));
                        }
                        assert forall|i: int| 0 <= i < lines@.len() implies
                            #[trigger] line_depth_justified(lines@, self@, 0, i, set![s@]) by {
                            assert(set![s@].contains(s@));
                        }
                    }
                }
            },
            None => {
                let mut ri: usize = 0;
                while ri < self.roots.len()
                    invariant
                        self.wf(),
                        ri <= self.roots@.len(),
                        visited@.no_duplicates(),
                        forall|x: u128|
                            #[trigger] visited@.contains(x) ==> self.members@.contains(x),
                        forall|a: u128, b: u128|
                            visited@.contains(a) && #[trigger] graph_edge(self@, a, b)
                                ==> visited@.contains(b),
                        forall|x: u128|
                            #[trigger] visited@.contains(x) <==> seq_reaches(
                                self@,
                                self.roots@.subrange(0, ri as int),
                                x,
                            ),
                        forall|x: u128|
                            #[trigger] outline_lists(lines@, x) <==> visited@.contains(x),
                        outline_lists_once(lines@),
                        forall|x: u128|
                            #[trigger] outline_heads(lines@, x) <==> self.roots@.subrange(
                                0,
                                ri as int,
                            ).contains(x),
                        outline_depths_chained(lines@, self@, 0, self.roots()),
                        outline_depths_tight(lines@, self@, 0),
                    decreases self.roots@.len() - ri,
                {
                    let rt = self.roots[ri];
                    proof {
                        assert(self.roots@.contains(rt));
                        assert(self.roots().contains(rt));
                    }
                    let ghost pre_lines = lines@;
                    lines.push(OutlineLine::RootHeading(Id::from_value(rt)));
                    proof {
                        lemma_outline_push(pre_lines, lines@[lines@.len() - 1]);
                        assert forall|x: u128|
                            #[trigger] outline_heads(lines@, x) <==> (self.roots@.subrange(
                                0,
                                ri as int,
                            ).contains(x) || x == rt) by {}
                        assert(forall|i2: int|
                            0 <= i2 < pre_lines.len() ==> #[trigger] lines@[i2] == pre_lines[i2]);
                        lemma_chained_extend(
                            pre_lines,
                            lines@,
                            self@,
                            0,
                            pre_lines.len() as int,
                            self.roots(),
                        );
                        assert(line_depth_justified(
                            lines@,
                            self@,
                            0,
                            lines@.len() - 1,
                            self.roots(),
                        ));
                        assert(outline_depths_chained(lines@, self@, 0, self.roots()));
                        assert forall|i1: int, i2: int| 0 <= i1 < i2 < lines@.len() implies
                            depth_pair_tight(
                            #[trigger] lines@[i1],
                            #[trigger] lines@[i2],
                            self@,
                        ) by {
                            if i2 < lines@.len() - 1 {
                                assert(lines@[i1] == pre_lines[i1] && lines@[i2] == pre_lines[i2]);
                                assert(depth_pair_tight(pre_lines[i1], pre_lines[i2], self@));
                            }
                        }
                        assert(outline_depths_tight(lines@, self@, 0));
                    }
                    let ghost mid_lines = lines@;
                    let ghost seg_lo = lines@.len() as int;
                    let ghost pre_visited = visited@;
                    self.bfs_from(rt, &mut visited, &mut lines);
                    proof {
                        lemma_chained_extend(mid_lines, lines@, self@, 0, seg_lo, self.roots());
                        assert(set![rt].subset_of(self.roots()));
                        lemma_chained_weaken(lines@, self@, seg_lo, 0, set![rt], self.roots());
                        assert(outline_depths_chained(lines@, self@, 0, self.roots()));
                        assert forall|i1: int, i2: int| 0 <= i1 < i2 < lines@.len() implies
                            depth_pair_tight(
                            #[trigger] lines@[i1],
                            #[trigger] lines@[i2],
                            self@,
                        ) by {
                            if i2 < seg_lo {
                                assert(lines@[i1] == mid_lines[i1] && lines@[i2] == mid_lines[i2]);
                                assert(depth_pair_tight(mid_lines[i1], mid_lines[i2], self@));
                            } else if i1 >= seg_lo {
                                assert(depth_pair_tight(lines@[i1], lines@[i2], self@));
                            } else {
                                match (lines@[i1], lines@[i2]) {
                                    (OutlineLine::Listed(u, d1), OutlineLine::Listed(v, d2)) => {
                                        if graph_edge(self@, u@, v@) {
                                            assert(lines@[i1] == mid_lines[i1]);
                                            assert(line_listed_id(mid_lines[i1]) == Some(u@));
                                            assert(outline_lists(mid_lines, u@));
                                            assert(pre_visited.contains(u@));
                                            assert(pre_visited.contains(v@));
                                            assert(outline_lists(mid_lines, v@));
                                            let jx = choose|jx: int|
                                                0 <= jx < mid_lines.len() && line_listed_id(
                                                    #[trigger] mid_lines[jx],
                                                ) == Some(v@);
                                            assert(lines@[jx] == mid_lines[jx]);
                                            assert(line_listed_id(lines@[jx]) == Some(v@));
                                            assert(line_listed_id(lines@[i2]) == Some(v@));
                                            assert(false);
                                        }
                                    },
                                    _ => {},
                                }
                            }
                        }
                        assert(outline_depths_tight(lines@, self@, 0));
                        assert(self.roots@.subrange(0, ri + 1).drop_last()
                            =~= self.roots@.subrange(0, ri as int));
                        assert(self.roots@.subrange(0, ri + 1).last() == rt);
                        assert forall|x: u128| #[trigger] visited@.contains(x) implies seq_reaches(
                            self@,
                            self.roots@.subrange(0, ri + 1),
                            x,
                        ) by {
                            let sub = self.roots@.subrange(0, ri + 1);
                            if pre_visited.contains(x) {
                                let k = choose|k: int|
                                    0 <= k < ri && reaches(
                                        self@,
                                        self.roots@.subrange(0, ri as int)[k],
                                        x,
                                    );
                                assert(sub[k] == self.roots@[k]);
                                assert(reaches(self@, sub[k], x));
                            } else {
                                assert(reaches(self@, rt, x));
                                assert(sub[sub.len() - 1] == rt);
                            }
                        }
                        assert forall|x: u128|
                            seq_reaches(self@, self.roots@.subrange(0, ri + 1), x)
                                implies #[trigger] visited@.contains(x) by {
                            let sub = self.roots@.subrange(0, ri + 1);
                            let k = choose|k: int| 0 <= k <= ri && reaches(self@, sub[k], x);
                            if k < ri {
                                assert(self.roots@.subrange(0, ri as int)[k] == sub[k]);
                                assert(seq_reaches(
                                    self@,
                                    self.roots@.subrange(0, ri as int),
                                    x,
                                ));
                                assert(pre_visited.contains(x));
                            } else {
                                assert(reaches(self@, rt, x));
                            }
                        }
                        assert forall|x: u128|
                            #[trigger] outline_heads(lines@, x) <==> self.roots@.subrange(
                                0,
                                ri + 1,
                            ).contains(x) by {
                            if outline_heads(lines@, x) {
                                if x == rt {
                                    assert(self.roots@.subrange(0, ri + 1)[ri as int] == rt);
                                } else {
                                    let k = choose|k: int|
                                        0 <= k < ri && self.roots@.subrange(0, ri as int)[k] == x;
                                    assert(self.roots@.subrange(0, ri + 1)[k] == x);
                                }
                            } else {
                                let sub = self.roots@.subrange(0, ri + 1);
                                if sub.contains(x) {
                                    let k = choose|k: int| 0 <= k < sub.len() && sub[k] == x;
                                    if k < ri {
                                        assert(self.roots@.subrange(0, ri as int)[k] == x);
                                    }
                                    assert(false);
                                }
                            }
                        }
                    }
                    ri = ri + 1;
                }
                proof {
                    assert(self.roots@.subrange(0, self.roots@.len() as int) =~= self.roots@);
                    assert forall|x: u128|
                        #[trigger] outline_lists(lines@, x) <==> root_reaches(
                        self@,
                        self.roots(),
                        x,
                    ) by {
                        if outline_lists(lines@, x) {
                            let k = choose|k: int|
                                0 <= k < self.roots@.len() && reaches(self@, self.roots@[k], x);
                            assert(self.roots@.contains(self.roots@[k]));
                            assert(self.roots().contains(self.roots@[k]));
                        }
                        if root_reaches(self@, self.roots(), x) {
                            let rt = choose|rt: u128|
                                self.roots().contains(rt) && reaches(self@, rt, x);
                            assert(self.roots@.contains(rt));
                            let k = choose|k: int|
                                0 <= k < self.roots@.len() && self.roots@[k] == rt;
                            assert(reaches(self@, self.roots@[k], x));
                            assert(seq_reaches(self@, self.roots@, x));
                        }
                    }
                    assert forall|x: u128|
                        #[trigger] outline_heads(lines@, x) <==> self.roots().contains(x) by {}
                }
            },
        }
        lines
    }
}

/// An element of a sequence other than its last still occurs once the last
/// element is dropped.
proof fn lemma_pop_keeps_others(s: Seq<u128>, x: u128)
    requires
        s.len() > 0,
        s.contains(x),
        x != s.last(),
    ensures
        s.drop_last().contains(x),
{
    let k = choose|k: int| 0 <= k < s.len() && s[k] == x;
    assert(k < s.len() - 1);
    assert(s.drop_last()[k] == x);
}

/// Every element of a sequence with its last dropped occurs in the whole
/// sequence.
proof fn lemma_drop_last_others(s: Seq<u128>, x: u128)
    requires
        s.len() > 0,
        s.drop_last().contains(x),
    ensures
        s.contains(x),
{
    let k = choose|k: int| 0 <= k < s.drop_last().len() && s.drop_last()[k] == x;
    assert(s[k] == x);
}

/// A duplicate-free sequence whose elements all occur in another
/// duplicate-free sequence is no longer than it.
proof fn lemma_subset_len(sub: Seq<u128>, sup: Seq<u128>)
    requires
        sub.no_duplicates(),
        sup.no_duplicates(),
        forall|x: u128| sub.contains(x) ==> sup.contains(x),
    ensures
        sub.len() <= sup.len(),
{
    broadcast use vstd::seq_lib::seq_to_set_is_finite;

    sub.unique_seq_to_set();
    sup.unique_seq_to_set();
    assert(sub.to_set().subset_of(sup.to_set()));
    vstd::set_lib::lemma_len_subset(sub.to_set(), sup.to_set());
}

/// Whether `v` holds `x`.
fn contains_id(v: &Vec<u128>, x: u128) -> (r: bool)
    ensures
        r == v@.contains(x),
{
    let mut i: usize = 0;
    while i < v.len()
        invariant
            i <= v@.len(),
            forall|j: int| 0 <= j < i ==> v@[j] != x,
        decreases v@.len() - i,
    {
        if v[i] == x {
            return true;
        }
        i = i + 1;
    }
    false
}

/// Whether `v` holds the pair `(a, b)`.
fn contains_pair(v: &Vec<(u128, u128)>, a: u128, b: u128) -> (r: bool)
    ensures
        r == v@.contains((a, b)),
{
    let mut i: usize = 0;
    while i < v.len()
        invariant
            i <= v@.len(),
            forall|j: int| 0 <= j < i ==> v@[j] != (a, b),
        decreases v@.len() - i,
    {
        let e = v[i];
        if e.0 == a && e.1 == b {
            return true;
        }
        i = i + 1;
    }
    false
}

/// Removes `x` from a duplicate-free vector, if present.
fn remove_id(v: &mut Vec<u128>, x: u128)
    requires
        old(v)@.no_duplicates(),
    ensures
        final(v)@.no_duplicates(),
        forall|y: u128| final(v)@.contains(y) <==> (old(v)@.contains(y) && y != x),
{
    let mut i: usize = 0;
    while i < v.len()
        invariant
            i <= v@.len(),
            v@ == old(v)@,
            v@.no_duplicates(),
            forall|j: int| 0 <= j < i ==> v@[j] != x,
        decreases v@.len() - i,
    {
        if v[i] == x {
            let ghost pre = v@;
            v.remove(i);
            proof {
                lemma_remove_keeps_others(pre, i as int);
            }
            return ;
        }
        i = i + 1;
    }
}

/// Removes the pair `(a, b)` from a duplicate-free vector, if present.
fn remove_pair(v: &mut Vec<(u128, u128)>, a: u128, b: u128) -> (r: bool)
    requires
        old(v)@.no_duplicates(),
    ensures
        final(v)@.no_duplicates(),
        r == old(v)@.contains((a, b)),
        forall|p: (u128, u128)| final(v)@.contains(p) <==> (old(v)@.contains(p) && p != (a, b)),
{
    let mut i: usize = 0;
    while i < v.len()
        invariant
            i <= v@.len(),
            v@ == old(v)@,
            v@.no_duplicates(),
            forall|j: int| 0 <= j < i ==> v@[j] != (a, b),
        decreases v@.len() - i,
    {
        let e = v[i];
        if e.0 == a && e.1 == b {
            let ghost pre = v@;
            v.remove(i);
            proof {
                lemma_remove_keeps_others(pre, i as int);
            }
            return true;
        }
        i = i + 1;
    }
    false
}

/// Pushing an element a duplicate-free sequence lacks keeps it
/// duplicate-free.
proof fn lemma_push_no_dup<T>(s: Seq<T>, x: T)
    requires
        s.no_duplicates(),
        !s.contains(x),
    ensures
        s.push(x).no_duplicates(),
{
    let t = s.push(x);
    assert forall|p: int, q: int| 0 <= p < q < t.len() implies t[p] != t[q] by {
        if q == s.len() {
            assert(t[p] == s[p]);
            if s[p] == x {
                assert(s.contains(x));
            }
        } else {
            assert(t[p] == s[p] && t[q] == s[q]);
        }
    }
}

/// Removing one index from a duplicate-free sequence keeps exactly the other
/// elements, and keeps it duplicate-free.
proof fn lemma_remove_keeps_others<T>(s: Seq<T>, i: int)
    requires
        s.no_duplicates(),
        0 <= i < s.len(),
    ensures
        s.remove(i).no_duplicates(),
        forall|y: T| s.remove(i).contains(y) <==> (s.contains(y) && y != s[i]),
{
    s.remove_ensures(i);
    let t = s.remove(i);
    assert forall|y: T| t.contains(y) implies (s.contains(y) && y != s[i]) by {
        let j = choose|j: int| 0 <= j < t.len() && t[j] == y;
        if j < i {
            assert(s[j] == y);
        } else {
            assert(s[j + 1] == y);
        }
    }
    assert forall|y: T| s.contains(y) && y != s[i] implies t.contains(y) by {
        let j = choose|j: int| 0 <= j < s.len() && s[j] == y;
        if j < i {
            assert(t[j] == y);
        } else {
            assert(j > i);
            assert(t[j - 1] == y);
        }
    }
    assert forall|p: int, q: int| 0 <= p < q < t.len() implies t[p] != t[q] by {
        if q < i {
            assert(t[p] == s[p] && t[q] == s[q]);
        } else if p < i {
            assert(t[p] == s[p] && t[q] == s[q + 1]);
        } else {
            assert(t[p] == s[p + 1] && t[q] == s[q + 1]);
        }
    }
}

} // verus!

