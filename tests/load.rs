use multiverse::handle::Handle;
use multiverse::multiverse::{GraphError, Multiverse};
use multiverse::node::MultiverseNode;

fn h(id: u128) -> Handle {
    Handle { id }
}

fn node(parent: Option<u128>, next: Option<u128>, children: Vec<u128>, universe: u128, patches: Vec<u32>) -> MultiverseNode<u32> {
    MultiverseNode {
        parent: parent.map(h),
        delta: if patches.is_empty() { None } else { Some(patches) },
        next: next.map(h),
        children: children.into_iter().map(h).collect(),
        universe: h(universe),
        relative_age: 2,
    }
}

fn stored() -> Vec<(Handle, MultiverseNode<u32>)> {
    vec![
        (h(3), node(Some(2), None, vec![], 103, vec![5])),
        (h(2), node(Some(1), None, vec![3], 102, vec![])),
        (h(1), node(None, Some(2), vec![4], 101, vec![1])),
        (h(4), node(Some(1), None, vec![], 104, vec![6])),
    ]
}

#[test]
fn load_nothing_gives_none() {
    let r: Result<Option<Multiverse<u32>>, GraphError> = Multiverse::load(vec![], vec![]);
    assert!(matches!(r, Ok(None)));
}

#[test]
fn load_rebuilds_graph_in_any_order() {
    let m = Multiverse::load(stored(), vec![]).unwrap().unwrap();
    assert_eq!(m.root_node(), h(1));
    let mut ids = m.get_nodes();
    ids.sort_by_key(|x| x.id);
    assert_eq!(ids, vec![h(1), h(2), h(3), h(4)]);
    assert_eq!(m.get_node(&h(3)).unwrap().delta, Some(vec![5]));
    assert_eq!(m.get_timeline(&h(3)), vec![h(1), h(2), h(3)]);
    assert_eq!(m.get_node(&h(1)).unwrap().next, Some(h(2)));
}

#[test]
fn load_keeps_cached_states_with_cached_parents() {
    let mut m = Multiverse::load(stored(), vec![h(101), h(102), h(103), h(104)]).unwrap().unwrap();
    let plan = m.plan_universe(&h(3)).unwrap();
    assert_eq!(plan.base, Some(h(103)));
    assert!(plan.steps.is_empty());

    let mut orphaned = Multiverse::load(stored(), vec![h(103)]).unwrap().unwrap();
    let plan = orphaned.plan_universe(&h(3)).unwrap();
    assert_eq!(plan.base, None);
    assert_eq!(plan.steps.len(), 3);
}

#[test]
fn load_rejects_missing_root() {
    let entries = vec![(h(2), node(Some(1), None, vec![], 102, vec![]))];
    assert!(matches!(Multiverse::load(entries, vec![]), Err(GraphError::Malformed)));
}

#[test]
fn load_rejects_two_roots() {
    let entries = vec![
        (h(1), node(None, None, vec![], 101, vec![])),
        (h(2), node(None, None, vec![], 102, vec![])),
    ];
    assert!(matches!(Multiverse::load(entries, vec![]), Err(GraphError::Malformed)));
}

#[test]
fn load_rejects_dangling_child_link() {
    let entries = vec![(h(1), node(None, None, vec![9], 101, vec![]))];
    assert!(matches!(Multiverse::load(entries, vec![]), Err(GraphError::Malformed)));
}

#[test]
fn load_rejects_cycle_and_duplicates() {
    let cycle = vec![
        (h(1), node(None, None, vec![], 101, vec![])),
        (h(2), node(Some(3), None, vec![], 102, vec![])),
        (h(3), node(Some(2), None, vec![], 103, vec![])),
    ];
    assert!(matches!(Multiverse::load(cycle, vec![]), Err(GraphError::Malformed)));
    let shared_cache = vec![
        (h(1), node(None, None, vec![2], 101, vec![])),
        (h(2), node(Some(1), None, vec![], 101, vec![])),
    ];
    assert!(matches!(Multiverse::load(shared_cache, vec![]), Err(GraphError::Malformed)));
}
