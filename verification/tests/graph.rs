use scene_it_engine::ids::{Id, SceneKind};
use scene_it_engine::scene_graph::{OutlineLine, SceneGraph};
use scene_it_engine::storyboard::StoryboardError;

fn holds(ids: &[Id<SceneKind>], id: &Id<SceneKind>) -> bool {
    ids.iter().any(|x| x.uuid() == id.uuid())
}

#[test]
fn added_scene_is_a_member_with_no_successors() {
    let mut graph = SceneGraph::new();
    let a: Id<SceneKind> = Id::new();
    graph.add_scene(&a);
    assert!(graph.next_scenes(&a).is_empty());
    // Membership is visible through deletion succeeding.
    let mut copy = graph.clone();
    assert!(copy.delete_scene(&a).is_ok());
    // Adding the same scene again changes nothing.
    graph.add_scene(&a);
    assert!(graph.next_scenes(&a).is_empty());
}

#[test]
fn add_edge_is_idempotent_and_lists_the_successor_once() {
    let mut graph = SceneGraph::new();
    let a: Id<SceneKind> = Id::new();
    let b: Id<SceneKind> = Id::new();
    graph.add_edge(&a, &b);
    graph.add_edge(&a, &b);
    graph.add_edge(&a, &b);
    let next = graph.next_scenes(&a);
    assert_eq!(next.len(), 1);
    assert_eq!(next[0].uuid(), b.uuid());
}

#[test]
fn successful_move_reparents_the_scene() {
    let mut graph = SceneGraph::new();
    let a: Id<SceneKind> = Id::new();
    let b: Id<SceneKind> = Id::new();
    let c: Id<SceneKind> = Id::new();
    graph.add_edge(&a, &c);
    graph.add_scene(&b);
    let update = graph.move_scene(&c, &a, &b);
    assert!(update.is_ok());
    assert!(!holds(&graph.next_scenes(&a), &c));
    assert!(holds(&graph.next_scenes(&b), &c));
}

#[test]
fn move_onto_the_same_parent_is_a_no_op_success() {
    let mut graph = SceneGraph::new();
    let a: Id<SceneKind> = Id::new();
    let b: Id<SceneKind> = Id::new();
    graph.add_edge(&a, &b);
    assert!(graph.move_scene(&b, &a, &a).is_ok());
    assert!(holds(&graph.next_scenes(&a), &b));
}

#[test]
fn move_reports_the_first_identifier_missing_from_the_graph() {
    let mut graph = SceneGraph::new();
    let a: Id<SceneKind> = Id::new();
    let b: Id<SceneKind> = Id::new();
    let ghost: Id<SceneKind> = Id::new();
    graph.add_edge(&a, &b);
    match graph.move_scene(&ghost, &a, &b) {
        Err(StoryboardError::SceneNotInGraph(x)) => assert_eq!(x.uuid(), ghost.uuid()),
        _ => panic!("expected the missing scene to be reported"),
    }
    match graph.move_scene(&b, &ghost, &a) {
        Err(StoryboardError::SceneNotInGraph(x)) => assert_eq!(x.uuid(), ghost.uuid()),
        _ => panic!("expected the missing parent to be reported"),
    }
    match graph.move_scene(&b, &a, &ghost) {
        Err(StoryboardError::SceneNotInGraph(x)) => assert_eq!(x.uuid(), ghost.uuid()),
        _ => panic!("expected the missing destination to be reported"),
    }
}

#[test]
fn move_without_a_source_edge_is_invalid() {
    let mut graph = SceneGraph::new();
    let a: Id<SceneKind> = Id::new();
    let b: Id<SceneKind> = Id::new();
    let c: Id<SceneKind> = Id::new();
    graph.add_edge(&a, &b);
    graph.add_scene(&c);
    assert!(matches!(
        graph.move_scene(&b, &c, &a),
        Err(StoryboardError::InvalidMove { .. })
    ));
    // The edge set is untouched by the failure.
    assert!(holds(&graph.next_scenes(&a), &b));
    assert!(graph.next_scenes(&c).is_empty());
}

#[test]
fn moving_a_scene_away_from_its_old_parent_frees_it_for_a_new_one() {
    // Scenario: scenes A, B, C, D with edges A -> B, B -> C, A -> D.
    let mut graph = SceneGraph::new();
    let a: Id<SceneKind> = Id::new();
    let b: Id<SceneKind> = Id::new();
    let c: Id<SceneKind> = Id::new();
    let d: Id<SceneKind> = Id::new();
    graph.add_edge(&a, &b);
    graph.add_edge(&b, &c);
    graph.add_edge(&a, &d);
    // C can move from under B to under A.
    assert!(graph.move_scene(&c, &b, &a).is_ok());
    assert!(holds(&graph.next_scenes(&a), &c));
    assert!(!holds(&graph.next_scenes(&b), &c));
    // With the old edge B -> C gone, C no longer descends from B, so B may
    // in turn move under C without closing a loop.
    assert!(graph.move_scene(&b, &a, &c).is_ok());
    assert!(holds(&graph.next_scenes(&c), &b));
    assert!(!holds(&graph.next_scenes(&a), &b));
}

#[test]
fn cyclic_move_is_rejected_and_leaves_the_graph_unchanged() {
    // A -> B, B -> C and a second path A -> C: C may not move from under B
    // to under A, because A already reaches C.
    let mut graph = SceneGraph::new();
    let a: Id<SceneKind> = Id::new();
    let b: Id<SceneKind> = Id::new();
    let c: Id<SceneKind> = Id::new();
    graph.add_edge(&a, &b);
    graph.add_edge(&b, &c);
    graph.add_edge(&a, &c);
    match graph.move_scene(&c, &b, &a) {
        Err(StoryboardError::CycleDetected(s, dest)) => {
            assert_eq!(s.uuid(), c.uuid());
            assert_eq!(dest.uuid(), a.uuid());
        },
        _ => panic!("expected a cycle to be detected"),
    }
    // Round trip: the edge set is exactly what it was before the call.
    assert!(holds(&graph.next_scenes(&a), &b));
    assert!(holds(&graph.next_scenes(&a), &c));
    assert_eq!(graph.next_scenes(&a).len(), 2);
    let from_b = graph.next_scenes(&b);
    assert_eq!(from_b.len(), 1);
    assert_eq!(from_b[0].uuid(), c.uuid());
    assert!(graph.next_scenes(&c).is_empty());
}

#[test]
fn moving_a_scene_under_itself_is_a_cycle() {
    let mut graph = SceneGraph::new();
    let p: Id<SceneKind> = Id::new();
    let x: Id<SceneKind> = Id::new();
    graph.add_edge(&p, &x);
    assert!(matches!(
        graph.move_scene(&x, &p, &x),
        Err(StoryboardError::CycleDetected(_, _))
    ));
    assert!(holds(&graph.next_scenes(&p), &x));
}

#[test]
fn deleted_scene_disappears_from_every_successor_set() {
    let mut graph = SceneGraph::new();
    let a: Id<SceneKind> = Id::new();
    let b: Id<SceneKind> = Id::new();
    let c: Id<SceneKind> = Id::new();
    graph.add_edge(&a, &b);
    graph.add_edge(&c, &b);
    graph.add_edge(&b, &a);
    assert!(graph.delete_scene(&b).is_ok());
    assert!(!holds(&graph.next_scenes(&a), &b));
    assert!(!holds(&graph.next_scenes(&c), &b));
    assert!(graph.next_scenes(&b).is_empty());
    // The deleted scene no longer exists anywhere: it is not even a member
    // that could count as unreachable.
    assert!(!holds(&graph.unreachable_scenes(), &b));
    // Deleting it again fails: it is gone.
    assert!(matches!(
        graph.delete_scene(&b),
        Err(StoryboardError::SceneNotInGraph(_))
    ));
}

#[test]
fn delete_edge_requires_the_source_but_not_the_edge() {
    let mut graph = SceneGraph::new();
    let a: Id<SceneKind> = Id::new();
    let b: Id<SceneKind> = Id::new();
    let ghost: Id<SceneKind> = Id::new();
    graph.add_edge(&a, &b);
    // Removing an edge that does not exist is a silent no-op.
    assert!(graph.delete_edge(&b, &a).is_ok());
    assert!(holds(&graph.next_scenes(&a), &b));
    // Removing an edge from an unknown scene is an error.
    assert!(matches!(
        graph.delete_edge(&ghost, &a),
        Err(StoryboardError::SceneNotInGraph(_))
    ));
    // Removing the real edge removes exactly it.
    assert!(graph.delete_edge(&a, &b).is_ok());
    assert!(graph.next_scenes(&a).is_empty());
}

#[test]
fn next_scenes_of_an_absent_scene_is_empty() {
    let graph = SceneGraph::new();
    let ghost: Id<SceneKind> = Id::new();
    assert!(graph.next_scenes(&ghost).is_empty());
}

#[test]
fn with_no_roots_every_member_is_unreachable() {
    let mut graph = SceneGraph::new();
    let a: Id<SceneKind> = Id::new();
    let b: Id<SceneKind> = Id::new();
    graph.add_edge(&a, &b);
    let orphans = graph.unreachable_scenes();
    assert_eq!(orphans.len(), 2);
    assert!(holds(&orphans, &a));
    assert!(holds(&orphans, &b));
}

#[test]
fn a_lone_root_with_no_edges_reaches_only_itself() {
    let mut graph = SceneGraph::new();
    let r: Id<SceneKind> = Id::new();
    let a: Id<SceneKind> = Id::new();
    let b: Id<SceneKind> = Id::new();
    graph.add_root(&r);
    graph.add_scene(&a);
    graph.add_scene(&b);
    let orphans = graph.unreachable_scenes();
    assert_eq!(orphans.len(), 2);
    assert!(!holds(&orphans, &r));
    assert!(holds(&orphans, &a));
    assert!(holds(&orphans, &b));
}

#[test]
fn unreachable_scenes_follow_edge_deletion() {
    // Scenario: scenes A, B, C; A is a root; A -> B and B -> C.
    let mut graph = SceneGraph::new();
    let a: Id<SceneKind> = Id::new();
    let b: Id<SceneKind> = Id::new();
    let c: Id<SceneKind> = Id::new();
    graph.add_scene(&a);
    graph.add_scene(&b);
    graph.add_scene(&c);
    graph.add_root(&a);
    graph.add_edge(&a, &b);
    graph.add_edge(&b, &c);
    assert!(graph.unreachable_scenes().is_empty());
    // Cutting B -> C orphans exactly C.
    assert!(graph.delete_edge(&b, &c).is_ok());
    let orphans = graph.unreachable_scenes();
    assert_eq!(orphans.len(), 1);
    assert_eq!(orphans[0].uuid(), c.uuid());
}

#[test]
fn outline_lists_each_reachable_scene_once() {
    let mut graph = SceneGraph::new();
    let a: Id<SceneKind> = Id::new();
    let b: Id<SceneKind> = Id::new();
    let c: Id<SceneKind> = Id::new();
    let stray: Id<SceneKind> = Id::new();
    graph.add_root(&a);
    graph.add_edge(&a, &b);
    graph.add_edge(&a, &c);
    graph.add_edge(&b, &c);
    graph.add_scene(&stray);
    let lines = graph.outline_from(None);
    let headings: Vec<u128> = lines
        .iter()
        .filter_map(|l| match l {
            OutlineLine::RootHeading(id) => Some(id.uuid()),
            OutlineLine::Listed(_, _) => None,
        })
        .collect();
    let listed: Vec<(u128, usize)> = lines
        .iter()
        .filter_map(|l| match l {
            OutlineLine::Listed(id, depth) => Some((id.uuid(), *depth)),
            OutlineLine::RootHeading(_) => None,
        })
        .collect();
    assert_eq!(headings, vec![a.uuid()]);
    assert_eq!(listed.len(), 3);
    // Breadth-first depths: the root at zero, its direct successors one
    // level below it.
    assert!(listed.contains(&(a.uuid(), 0)));
    assert!(listed.contains(&(b.uuid(), 1)));
    assert!(listed.contains(&(c.uuid(), 1)));
    assert!(!listed.iter().any(|(id, _)| *id == stray.uuid()));

    // A subtree outline from B has no headings and only B's descendants,
    // with depths counted from B.
    let sub = graph.outline_from(Some(&b));
    let sub_listed: Vec<(u128, usize)> = sub
        .iter()
        .filter_map(|l| match l {
            OutlineLine::Listed(id, depth) => Some((id.uuid(), *depth)),
            OutlineLine::RootHeading(_) => None,
        })
        .collect();
    assert_eq!(sub.len(), sub_listed.len());
    assert_eq!(sub_listed.len(), 2);
    assert!(sub_listed.contains(&(b.uuid(), 0)));
    assert!(sub_listed.contains(&(c.uuid(), 1)));
}
