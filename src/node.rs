use vstd::prelude::*;
use crate::handle::Handle;

verus! {

/// One point in the branching timeline.
///
/// `P` is the patch type; the graph stores patches and hands them out in
/// order, but never looks inside one.
#[derive(Clone, Debug)]
pub struct MultiverseNode<P> {
    /// The node this one derives from; `None` only for the root.
    pub parent: Option<Handle>,
    /// Patches applied, in order, to the parent's state; `None` when this node
    /// only lets time pass.
    pub delta: Option<Vec<P>>,
    /// The canonical continuation of this timeline.
    pub next: Option<Handle>,
    /// Branches that start here.
    pub children: Vec<Handle>,
    /// Where this node's derived state is cached; fixed for the node's life.
    pub universe: Handle,
    /// Ticks to advance after the patches are applied.
    pub relative_age: u32,
}

impl<P> MultiverseNode<P> {
    /// The patches of this node, in application order.
    pub open spec fn patches(&self) -> Seq<P> {
        match self.delta {
            Some(v) => v@,
            None => Seq::empty(),
        }
    }

    /// A node with no links yet and a fresh cache handle; an empty patch list
    /// is kept as `None`.
    pub fn new(parent: Option<Handle>, age: u32, deltas: Vec<P>) -> (r: MultiverseNode<P>)
        ensures
            r.parent == parent,
            r.relative_age == age,
            r.next is None,
            r.children@ == Seq::<Handle>::empty(),
            r.patches() == deltas@,
            r.delta is Some <==> deltas@.len() > 0,
    {
        MultiverseNode::with_cache(parent, age, deltas, Handle::new())
    }

    /// As `new`, with the cache handle given.
    pub fn with_cache(parent: Option<Handle>, age: u32, deltas: Vec<P>, universe: Handle) -> (r: MultiverseNode<P>)
        ensures
            r.parent == parent,
            r.relative_age == age,
            r.next is None,
            r.children@ == Seq::<Handle>::empty(),
            r.patches() == deltas@,
            r.delta is Some <==> deltas@.len() > 0,
            r.universe == universe,
    {
        let delta = if deltas.len() == 0 {
            None
        } else {
            Some(deltas)
        };
        MultiverseNode { parent, delta, next: None, children: Vec::new(), universe, relative_age: age }
    }
}

} // verus!
