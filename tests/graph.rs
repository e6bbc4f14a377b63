use multiverse::handle::Handle;
use multiverse::multiverse::{GraphError, Multiverse, Step};

fn h(id: u128) -> Handle {
    Handle { id }
}

fn root_graph() -> Multiverse<u32> {
    Multiverse::with_root(h(1), h(101), vec![7])
}

#[test]
fn root_graph_has_one_node() {
    let m = root_graph();
    assert_eq!(m.root_node(), h(1));
    assert_eq!(m.get_nodes(), vec![h(1)]);
    let root = m.get_node(&h(1)).unwrap();
    assert!(root.parent.is_none());
    assert_eq!(root.delta, Some(vec![7]));
    assert_eq!(root.universe, h(101));
    assert!(m.get_node(&h(2)).is_none());
}

#[test]
fn advance_sets_successor_to_new_node() {
    let mut m = root_graph();
    assert_eq!(m.advance_with(&h(1), 3, h(2), h(102)), Ok(h(2)));
    let root = m.get_node(&h(1)).unwrap();
    assert_eq!(root.next, Some(h(2)));
    assert!(root.children.is_empty());
    let n = m.get_node(&h(2)).unwrap();
    assert_eq!(n.parent, Some(h(1)));
    assert!(n.delta.is_none());
    assert_eq!(n.relative_age, 3);
    assert_eq!(n.universe, h(102));
    assert_eq!(m.get_nodes(), vec![h(1), h(2)]);
}

#[test]
fn branch_joins_children() {
    let mut m = root_graph();
    assert_eq!(m.branch_with(&h(1), 5, vec![8, 9], h(2), h(102)), Ok(h(2)));
    assert_eq!(m.branch_with(&h(1), 6, vec![], h(3), h(103)), Ok(h(3)));
    let root = m.get_node(&h(1)).unwrap();
    assert_eq!(root.children, vec![h(2), h(3)]);
    assert!(root.next.is_none());
    assert_eq!(m.get_node(&h(2)).unwrap().delta, Some(vec![8, 9]));
    assert!(m.get_node(&h(3)).unwrap().delta.is_none());
}

#[test]
fn graph_errors() {
    let mut m = root_graph();
    assert_eq!(m.advance_with(&h(9), 1, h(2), h(102)), Err(GraphError::UnknownHandle));
    assert_eq!(m.branch_with(&h(9), 1, vec![1], h(2), h(102)), Err(GraphError::UnknownHandle));
    assert_eq!(m.advance_with(&h(1), 1, h(1), h(102)), Err(GraphError::HandleInUse));
    assert_eq!(m.branch_with(&h(1), 1, vec![1], h(2), h(101)), Err(GraphError::HandleInUse));
    assert_eq!(m.get_nodes(), vec![h(1)]);
}

#[test]
fn random_handles_make_distinct_nodes() {
    let mut m = Multiverse::new(vec![1u32]);
    let root = m.root_node();
    let a = m.advance(&root, 1).unwrap();
    let b = m.branch(&root, 2, vec![3]).unwrap();
    assert_ne!(a, b);
    assert_ne!(a, root);
    assert_eq!(m.get_nodes().len(), 3);
    assert_eq!(m.advance(&h(5), 1), Err(GraphError::UnknownHandle));
}

#[test]
fn plan_derives_whole_path_then_hits_cache() {
    let mut m = root_graph();
    m.advance_with(&h(1), 4, h(2), h(102)).unwrap();
    m.branch_with(&h(2), 5, vec![3], h(3), h(103)).unwrap();
    let plan = m.plan_universe(&h(3)).unwrap();
    assert_eq!(plan.base, None);
    assert_eq!(
        plan.steps,
        vec![
            Step { node: h(1), cache: h(101), ticks: 0 },
            Step { node: h(2), cache: h(102), ticks: 4 },
            Step { node: h(3), cache: h(103), ticks: 5 },
        ]
    );
    let again = m.plan_universe(&h(3)).unwrap();
    assert_eq!(again.base, Some(h(103)));
    assert!(again.steps.is_empty());
    assert!(m.plan_universe(&h(77)).is_none());
}

#[test]
fn plan_starts_from_nearest_cached_ancestor() {
    let mut m = root_graph();
    m.advance_with(&h(1), 4, h(2), h(102)).unwrap();
    m.plan_universe(&h(2)).unwrap();
    m.branch_with(&h(2), 5, vec![3], h(3), h(103)).unwrap();
    let plan = m.plan_universe(&h(3)).unwrap();
    assert_eq!(plan.base, Some(h(102)));
    assert_eq!(plan.steps, vec![Step { node: h(3), cache: h(103), ticks: 5 }]);
}

#[test]
fn update_invalidates_descendants_only() {
    let mut m = root_graph();
    m.advance_with(&h(1), 1, h(2), h(102)).unwrap();
    m.branch_with(&h(2), 2, vec![5], h(3), h(103)).unwrap();
    m.branch_with(&h(1), 3, vec![6], h(4), h(104)).unwrap();
    m.plan_universe(&h(3)).unwrap();
    m.plan_universe(&h(4)).unwrap();
    let mut stale = m.update_multiverse(h(2), vec![9]).unwrap();
    stale.sort_by_key(|c| c.id);
    assert_eq!(stale, vec![h(102), h(103)]);
    assert_eq!(m.get_node(&h(2)).unwrap().delta, Some(vec![9]));
    let plan = m.plan_universe(&h(3)).unwrap();
    assert_eq!(plan.base, Some(h(101)));
    assert_eq!(plan.steps.len(), 2);
    assert_eq!(plan.steps[0].node, h(2));
    let other = m.plan_universe(&h(4)).unwrap();
    assert_eq!(other.base, Some(h(104)));
    assert!(other.steps.is_empty());
}

#[test]
fn update_appends_to_existing_patches() {
    let mut m = root_graph();
    m.branch_with(&h(1), 2, vec![5], h(2), h(102)).unwrap();
    assert_eq!(m.update_multiverse(h(2), vec![6, 7]), Some(vec![]));
    assert_eq!(m.get_node(&h(2)).unwrap().delta, Some(vec![5, 6, 7]));
    assert_eq!(m.update_multiverse(h(9), vec![1]), None);
}

#[test]
fn clear_root_empties_cache() {
    let mut m = root_graph();
    m.advance_with(&h(1), 1, h(2), h(102)).unwrap();
    m.plan_universe(&h(2)).unwrap();
    let mut stale = m.clear_universe(&h(1)).unwrap();
    stale.sort_by_key(|c| c.id);
    assert_eq!(stale, vec![h(101), h(102)]);
    let plan = m.plan_universe(&h(2)).unwrap();
    assert_eq!(plan.base, None);
    assert_eq!(plan.steps.len(), 2);
}

#[test]
fn cold_plans_are_identical() {
    let mut m = root_graph();
    m.advance_with(&h(1), 2, h(2), h(102)).unwrap();
    let first = m.plan_universe(&h(2)).unwrap();
    m.clear_universe(&h(1)).unwrap();
    let second = m.plan_universe(&h(2)).unwrap();
    assert_eq!(first.base, second.base);
    assert_eq!(first.steps, second.steps);
}

#[test]
fn timeline_length_is_depth_plus_one() {
    let mut m = root_graph();
    m.advance_with(&h(1), 1, h(2), h(102)).unwrap();
    m.branch_with(&h(2), 1, vec![1], h(3), h(103)).unwrap();
    m.branch_with(&h(1), 1, vec![1], h(4), h(104)).unwrap();
    assert_eq!(m.get_timeline(&h(3)), vec![h(1), h(2), h(3)]);
    assert_eq!(m.get_timeline(&h(4)), vec![h(1), h(4)]);
    assert_eq!(m.get_timeline(&h(1)), vec![h(1)]);
    assert!(m.get_timeline(&h(8)).is_empty());
}

#[test]
fn lineage_and_parent_of_node() {
    let mut m = root_graph();
    m.advance_with(&h(1), 1, h(2), h(102)).unwrap();
    m.branch_with(&h(2), 1, vec![1], h(3), h(103)).unwrap();
    let n = m.get_node(&h(3)).unwrap();
    assert_eq!(n.get_lineage(&m), vec![h(2), h(1)]);
    assert_eq!(n.get_parent(&m).unwrap().universe, h(102));
    let root = m.get_node(&h(1)).unwrap();
    assert!(root.get_lineage(&m).is_empty());
    assert!(root.get_parent(&m).is_none());
}

#[test]
fn advance_by_zero_reuses_root_state() {
    let mut m = root_graph();
    m.plan_universe(&h(1)).unwrap();
    m.advance_with(&h(1), 0, h(2), h(102)).unwrap();
    let plan = m.plan_universe(&h(2)).unwrap();
    assert_eq!(plan.base, Some(h(101)));
    assert_eq!(plan.steps, vec![Step { node: h(2), cache: h(102), ticks: 0 }]);
    assert!(m.get_node(&h(2)).unwrap().delta.is_none());
}

#[test]
fn second_advance_replaces_successor() {
    let mut m = root_graph();
    m.advance_with(&h(1), 1, h(2), h(102)).unwrap();
    m.advance_with(&h(1), 1, h(3), h(103)).unwrap();
    let root = m.get_node(&h(1)).unwrap();
    assert_eq!(root.next, Some(h(3)));
    assert!(root.children.is_empty());
    assert_eq!(m.get_node(&h(2)).unwrap().parent, Some(h(1)));
}

#[test]
fn every_node_has_one_parentless_root() {
    let mut m = root_graph();
    m.advance_with(&h(1), 1, h(2), h(102)).unwrap();
    m.branch_with(&h(2), 1, vec![1], h(3), h(103)).unwrap();
    m.branch_with(&h(1), 1, vec![2], h(4), h(104)).unwrap();
    let roots: Vec<Handle> = m.get_nodes().into_iter().filter(|x| m.get_node(x).unwrap().parent.is_none()).collect();
    assert_eq!(roots, vec![h(1)]);
    for x in m.get_nodes() {
        let n = m.get_node(&x).unwrap();
        for c in &n.children {
            assert_eq!(m.get_node(c).unwrap().parent, Some(x));
        }
        if let Some(c) = n.next {
            assert_eq!(m.get_node(&c).unwrap().parent, Some(x));
        }
    }
}

#[test]
fn update_creates_missing_patch_list() {
    let mut m = root_graph();
    m.advance_with(&h(1), 1, h(2), h(102)).unwrap();
    assert!(m.get_node(&h(2)).unwrap().delta.is_none());
    assert_eq!(m.update_multiverse(h(2), vec![]), Some(vec![]));
    assert_eq!(m.get_node(&h(2)).unwrap().delta, Some(vec![]));
}

#[test]
fn branch_with_no_patches_has_no_delta() {
    let mut m = root_graph();
    assert_eq!(m.branch(&h(1), 4, vec![]).map(|x| m.get_node(&x).unwrap().delta.is_none()), Ok(true));
}

#[test]
fn lineage_runs_nearest_first() {
    let mut m = root_graph();
    m.advance_with(&h(1), 1, h(2), h(102)).unwrap();
    m.branch_with(&h(2), 1, vec![1], h(3), h(103)).unwrap();
    m.advance_with(&h(3), 1, h(4), h(104)).unwrap();
    let n = m.get_node(&h(4)).unwrap();
    assert_eq!(n.get_lineage(&m), vec![h(3), h(2), h(1)]);
    assert_eq!(m.get_timeline(&h(4)), vec![h(1), h(2), h(3), h(4)]);
}
