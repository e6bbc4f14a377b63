use vstd::prelude::*;
use crate::handle::Handle;
use crate::node::MultiverseNode;

verus! {

/// Why a graph operation did nothing.
#[derive(Clone, Copy, Debug, PartialEq, Eq, Structural)]
pub enum GraphError {
    /// No node has the given handle.
    UnknownHandle,
    /// A handle meant for a new node, or for its cache entry, is already taken.
    HandleInUse,
    /// The graph holds as many nodes as it can index.
    Full,
    /// Stored nodes do not form a well-formed graph.
    Malformed,
}

/// One node to derive: apply its patches to the state at hand, advance by
/// `ticks`, and store the result in the cache under `cache`.
#[derive(Clone, Copy, Debug, PartialEq, Eq, Structural)]
pub struct Step {
    pub node: Handle,
    pub cache: Handle,
    pub ticks: u32,
}

/// How to obtain a node's state: start from the cached state under `base`
/// (the empty state when `None`) and run `steps` in order. The last step is the
/// requested node.
#[derive(Debug)]
pub struct ResolvePlan {
    pub base: Option<Handle>,
    pub steps: Vec<Step>,
}

/// The node graph: a tree rooted at one parentless node.
///
/// Nodes sit in an arena in an order where each parent precedes its children;
/// `parents` holds each node's parent position and `cached` whether the
/// node's derived state is in the state cache.
pub struct Multiverse<P> {
    root_node: Handle,
    ids: Vec<Handle>,
    nodes: Vec<MultiverseNode<P>>,
    parents: Vec<usize>,
    cached: Vec<bool>,
}

impl<P> Multiverse<P> {
    pub closed spec fn ids(&self) -> Seq<Handle> {
        self.ids@
    }

    pub closed spec fn nodes(&self) -> Seq<MultiverseNode<P>> {
        self.nodes@
    }

    pub closed spec fn parents(&self) -> Seq<usize> {
        self.parents@
    }

    pub closed spec fn cached(&self) -> Seq<bool> {
        self.cached@
    }

    pub closed spec fn root(&self) -> Handle {
        self.root_node
    }

    pub open spec fn len(&self) -> int {
        self.ids().len() as int
    }

    pub open spec fn contains(&self, h: Handle) -> bool {
        self.ids().contains(h)
    }

    /// The arena position of `h` (meaningful when `contains(h)`).
    pub open spec fn index_of(&self, h: Handle) -> int {
        choose|i: int| 0 <= i < self.len() && self.ids()[i] == h
    }

    pub open spec fn parent_of(&self, i: int) -> int {
        self.parents()[i] as int
    }

    /// Some node caches its state under `c`.
    pub open spec fn cache_in_use(&self, c: Handle) -> bool {
        exists|i: int| 0 <= i < self.len() && #[trigger] self.nodes()[i].universe == c
    }

    /// Well formed: a tree whose cached set is closed under parents and whose
    /// child and successor links are consistent with the parent links.
    pub open spec fn wf(&self) -> bool {
        &&& self.wf_tree()
        &&& forall|i: int|
            0 < i < self.len() && #[trigger] self.cached()[i] ==> self.cached()[self.parent_of(i)]
        &&& self.wf_links()
    }

    /// The arena holds a tree: the root first, each parent before its
    /// children, handles and cache handles unique.
    pub open spec fn wf_tree(&self) -> bool {
        &&& self.nodes().len() == self.len()
        &&& self.parents().len() == self.len()
        &&& self.cached().len() == self.len()
        &&& 1 <= self.len() < usize::MAX
        &&& self.ids()[0] == self.root()
        &&& self.nodes()[0].parent is None
        &&& self.parents()[0] == 0
        &&& forall|i: int|
            0 < i < self.len() ==> #[trigger] self.parent_of(i) < i && self.nodes()[i].parent == Some(
                self.ids()[self.parent_of(i)],
            )
        &&& forall|i: int, j: int|
            0 <= i < self.len() && 0 <= j < self.len() && #[trigger] self.ids()[i]
                == #[trigger] self.ids()[j] ==> i == j
        &&& forall|i: int, j: int|
            0 <= i < self.len() && 0 <= j < self.len() && #[trigger] self.nodes()[i].universe
                == #[trigger] self.nodes()[j].universe ==> i == j
    }

    /// Child and successor links name nodes of the graph whose parent is the
    /// linking node; no child is listed twice.
    pub open spec fn wf_links(&self) -> bool {
        &&& forall|i: int| 0 <= i < self.len() ==> (#[trigger] self.nodes()[i]).children@.no_duplicates()
        &&& forall|i: int, c: Handle|
            0 <= i < self.len() && #[trigger] self.nodes()[i].children@.contains(c) ==> self.contains(c)
        &&& forall|i: int, j: int|
            0 <= i < self.len() && 0 <= j < self.len() && #[trigger] self.nodes()[i].children@.contains(
                #[trigger] self.ids()[j],
            ) ==> 0 < j && self.parent_of(j) == i
        &&& forall|i: int|
            0 <= i < self.len() && (#[trigger] self.nodes()[i]).next is Some ==> self.contains(
                self.nodes()[i].next->0,
            )
        &&& forall|i: int, j: int|
            0 <= i < self.len() && 0 <= j < self.len() && #[trigger] self.nodes()[i].next == Some(
                #[trigger] self.ids()[j],
            ) ==> 0 < j && self.parent_of(j) == i
    }

    /// Number of parent links from the root down to position `i`.
    pub open spec fn depth(&self, i: int) -> nat
        decreases i,
    {
        if i <= 0 || self.parent_of(i) >= i || self.parent_of(i) < 0 {
            0
        } else {
            1 + self.depth(self.parent_of(i))
        }
    }

    /// The `k`-th ancestor of position `i`: `i` itself for `k == 0`, then its
    /// parent, and so on; it stays at the root once there.
    pub open spec fn ancestor(&self, i: int, k: nat) -> int
        decreases k,
    {
        if k == 0 {
            i
        } else {
            let a = self.ancestor(i, (k - 1) as nat);
            if 0 < a && 0 <= self.parent_of(a) < a {
                self.parent_of(a)
            } else {
                a
            }
        }
    }

    /// Positions from the root down to `i`, inclusive.
    pub open spec fn path(&self, i: int) -> Seq<int>
        decreases i,
    {
        if i <= 0 || self.parent_of(i) >= i || self.parent_of(i) < 0 {
            seq![i]
        } else {
            self.path(self.parent_of(i)).push(i)
        }
    }

    /// Position `d` lies in the subtree rooted at position `a`.
    pub open spec fn descends(&self, d: int, a: int) -> bool
        decreases d,
    {
        if d == a {
            true
        } else if d <= 0 || self.parent_of(d) >= d || self.parent_of(d) < 0 {
            false
        } else {
            self.descends(self.parent_of(d), a)
        }
    }

    /// The nearest position on the way from `i` to the root whose state is
    /// cached, `i` included.
    pub open spec fn nearest_cached(&self, i: int) -> Option<int>
        decreases i,
    {
        if self.cached()[i] {
            Some(i)
        } else if i <= 0 || self.parent_of(i) >= i || self.parent_of(i) < 0 {
            None
        } else {
            self.nearest_cached(self.parent_of(i))
        }
    }

    /// Positions whose state must be derived to obtain the state of `i`, root
    /// first: those below the nearest cached one.
    pub open spec fn plan_nodes(&self, i: int) -> Seq<int>
        decreases i,
    {
        if self.cached()[i] {
            Seq::empty()
        } else if i <= 0 || self.parent_of(i) >= i || self.parent_of(i) < 0 {
            seq![i]
        } else {
            self.plan_nodes(self.parent_of(i)).push(i)
        }
    }

    pub open spec fn step_of(&self, j: int) -> Step {
        Step {
            node: self.ids()[j],
            cache: self.nodes()[j].universe,
            ticks: self.nodes()[j].relative_age,
        }
    }

    /// `plan` is the derivation of position `i` in this graph.
    pub open spec fn is_plan_for(&self, i: int, plan: ResolvePlan) -> bool {
        &&& plan.base == (match self.nearest_cached(i) {
            Some(k) => Some(self.nodes()[k].universe),
            None => None,
        })
        &&& plan.steps@ == self.plan_nodes(i).map_values(|j: int| self.step_of(j))
    }

    /// The graph of `self` and `other` is the same, cache aside.
    pub open spec fn same_graph(&self, other: &Self) -> bool {
        &&& self.ids() == other.ids()
        &&& self.nodes() == other.nodes()
        &&& self.parents() == other.parents()
        &&& self.root() == other.root()
    }

    /// Position of `h`, if present.
    fn find(&self, h: Handle) -> (r: Option<usize>)
        requires
            self.wf_tree(),
        ensures
            r is None <==> !self.contains(h),
            r matches Some(i) ==> i < self.len() && self.ids()[i as int] == h && self.index_of(h) == i,
    {
        let mut k: usize = 0;
        while k < self.ids.len()
            invariant
                self.wf_tree(),
                k <= self.ids@.len(),
                forall|t: int| 0 <= t < k ==> self.ids@[t] != h,
            decreases self.ids@.len() - k,
        {
            if self.ids[k] == h {
                return Some(k);
            }
            k += 1;
        }
        None
    }

    /// Whether some node already caches its state under `c`.
    fn find_cache(&self, c: Handle) -> (r: bool)
        requires
            self.wf_tree(),
        ensures
            r == self.cache_in_use(c),
    {
        let mut k: usize = 0;
        while k < self.nodes.len()
            invariant
                self.wf_tree(),
                k <= self.nodes@.len(),
                forall|t: int| 0 <= t < k ==> self.nodes@[t].universe != c,
            decreases self.nodes@.len() - k,
        {
            if self.nodes[k].universe == c {
                return true;
            }
            k += 1;
        }
        false
    }

    /// A graph of one root node with handle `id`, caching its state under
    /// `cache`, whose patches set up the starting configuration.
    pub fn with_root(id: Handle, cache: Handle, patches: Vec<P>) -> (r: Multiverse<P>)
        ensures
            r.wf(),
            r.root() == id,
            r.ids() == seq![id],
            r.nodes()[0].universe == cache,
            r.nodes()[0].patches() == patches@,
            r.nodes()[0].relative_age == 0,
            r.nodes()[0].next is None,
            r.nodes()[0].children@.len() == 0,
            !r.cached()[0],
            r.all_linked(),
    {
        let node = MultiverseNode::with_cache(None, 0, patches, cache);
        let mut ids = Vec::new();
        ids.push(id);
        let mut nodes = Vec::new();
        nodes.push(node);
        let mut parents = Vec::new();
        parents.push(0usize);
        let mut cached = Vec::new();
        cached.push(false);
        Multiverse { root_node: id, ids, nodes, parents, cached }
    }

    /// A graph of one fresh root node, as `with_root` with random handles.
    pub fn new(patches: Vec<P>) -> (r: Multiverse<P>)
        ensures
            r.wf(),
            r.ids().len() == 1,
            r.nodes()[0].patches() == patches@,
            r.nodes()[0].relative_age == 0,
            !r.cached()[0],
            r.all_linked(),
    {
        Multiverse::with_root(Handle::new(), Handle::new(), patches)
    }

    /// The root's handle.
    pub fn root_node(&self) -> (r: Handle)
        ensures
            r == self.root(),
    {
        self.root_node
    }

    /// Every node handle, in arena order.
    pub fn get_nodes(&self) -> (r: Vec<Handle>)
        ensures
            r@ == self.ids(),
    {
        let mut r: Vec<Handle> = Vec::new();
        let mut k: usize = 0;
        while k < self.ids.len()
            invariant
                k <= self.ids@.len(),
                r@ == self.ids@.subrange(0, k as int),
            decreases self.ids@.len() - k,
        {
            r.push(self.ids[k]);
            k += 1;
            assert(r@ =~= self.ids@.subrange(0, k as int));
        }
        assert(r@ =~= self.ids@);
        r
    }

    /// The node with handle `h`.
    pub fn get_node(&self, h: &Handle) -> (r: Option<&MultiverseNode<P>>)
        requires
            self.wf(),
        ensures
            r is None <==> !self.contains(*h),
            r matches Some(n) ==> *n == self.nodes()[self.index_of(*h)],
    {
        match self.find(*h) {
            Some(i) => Some(&self.nodes[i]),
            None => None,
        }
    }
    /// `self` is `before` with one node `id` added under position `i`; the
    /// nodes already there keep their data, apart from the link in node `i`.
    pub open spec fn extends_with(&self, before: &Self, i: int, id: Handle) -> bool {
        let n = before.len();
        &&& self.root() == before.root()
        &&& self.ids() == before.ids().push(id)
        &&& self.parents() == before.parents().push(i as usize)
        &&& self.cached() == before.cached().push(false)
        &&& self.nodes().len() == n + 1
        &&& forall|j: int| 0 <= j < n && j != i ==> #[trigger] self.nodes()[j] == before.nodes()[j]
        &&& self.nodes()[i].parent == before.nodes()[i].parent
        &&& self.nodes()[i].delta == before.nodes()[i].delta
        &&& self.nodes()[i].universe == before.nodes()[i].universe
        &&& self.nodes()[i].relative_age == before.nodes()[i].relative_age
        &&& self.nodes()[n].parent == Some(before.ids()[i])
        &&& self.nodes()[n].next is None
        &&& self.nodes()[n].children@.len() == 0
    }

    /// Every node but the root is listed among its parent's children or is
    /// its parent's successor.
    pub open spec fn all_linked(&self) -> bool {
        forall|j: int|
            0 < j < self.len() ==> #[trigger] self.nodes()[self.parent_of(j)].children@.contains(self.ids()[j])
                || self.nodes()[self.parent_of(j)].next == Some(self.ids()[j])
    }

    fn attach(&mut self, i: usize, id: Handle, node: MultiverseNode<P>, successor: bool)
        requires
            old(self).wf(),
            i < old(self).len(),
            old(self).len() + 1 < usize::MAX,
            !old(self).contains(id),
            !old(self).cache_in_use(node.universe),
            node.parent == Some(old(self).ids()[i as int]),
            node.next is None,
            node.children@.len() == 0,
        ensures
            final(self).wf(),
            final(self).extends_with(old(self), i as int, id),
            final(self).nodes()[old(self).len()] == node,
            successor ==> final(self).nodes()[i as int].next == Some(id)
                && final(self).nodes()[i as int].children@ == old(self).nodes()[i as int].children@,
            !successor ==> final(self).nodes()[i as int].next == old(self).nodes()[i as int].next
                && final(self).nodes()[i as int].children@ == old(self).nodes()[i as int].children@.push(id),
            old(self).all_linked() && (successor ==> old(self).nodes()[i as int].next is None)
                ==> final(self).all_linked(),
    {
        if successor {
            self.nodes[i].next = Some(id);
        } else {
            self.nodes[i].children.push(id);
        }
        self.ids.push(id);
        self.nodes.push(node);
        self.parents.push(i);
        self.cached.push(false);
        proof {
            let o = old(self);
            let n = o.len();
            assert(self.ids@ =~= o.ids@.push(id));
            assert forall|a: int, c: Handle|
                0 <= a < self.len() && #[trigger] self.nodes()[a].children@.contains(c) implies self.contains(c) by {
                if a < n && !(a == i && c == id) {
                    assert(o.nodes()[a].children@.contains(c));
                    let t = choose|t: int| 0 <= t < n && o.ids()[t] == c;
                    assert(self.ids()[t] == c);
                } else {
                    assert(self.ids()[n] == id);
                }
            }
            assert forall|a: int|
                0 <= a < self.len() && (#[trigger] self.nodes()[a]).next is Some implies self.contains(
                    self.nodes()[a].next->0,
                ) by {
                if a < n && !(a == i && successor) {
                    let c = o.nodes()[a].next->0;
                    let t = choose|t: int| 0 <= t < n && o.ids()[t] == c;
                    assert(self.ids()[t] == c);
                } else {
                    assert(self.ids()[n] == id);
                }
            }
            assert forall|a: int, b: int|
                0 <= a < self.len() && 0 <= b < self.len() && #[trigger] self.nodes()[a].children@.contains(
                    #[trigger] self.ids()[b],
                ) implies 0 < b && self.parent_of(b) == a by {
                if b == n {
                    if a < n && !(a == i) {
                        assert(o.nodes()[a].children@.contains(id));
                    }
                } else if a == i && !successor && self.ids()[b] == id {
                    assert(o.ids()[b] == id);
                } else if a < n {
                    assert(o.nodes()[a].children@.contains(o.ids()[b]));
                }
            }
            assert forall|a: int, b: int|
                0 <= a < self.len() && 0 <= b < self.len() && #[trigger] self.nodes()[a].next == Some(
                    #[trigger] self.ids()[b],
                ) implies 0 < b && self.parent_of(b) == a by {
                if b == n {
                    if a < n && !(a == i && successor) {
                        assert(o.nodes()[a].next == Some(id));
                        assert(o.contains(id));
                    }
                } else if a == i && successor {
                    assert(o.ids()[b] == id);
                } else if a < n {
                    assert(o.nodes()[a].next == Some(o.ids()[b]));
                }
            }
            assert forall|a: int| 0 <= a < self.len() implies (#[trigger] self.nodes()[a]).children@.no_duplicates() by {
                if a == i && !successor {
                    assert(!o.nodes()[a].children@.contains(id)) by {
                        if o.nodes()[a].children@.contains(id) {
                            assert(o.contains(id));
                        }
                    }
                }
            }
            assert forall|a: int|
                0 < a < self.len() implies #[trigger] self.parent_of(a) < a && self.nodes()[a].parent == Some(
                    self.ids()[self.parent_of(a)],
                ) by {
                if a < n {
                    assert(o.parent_of(a) < a);
                }
            }
            assert forall|a: int, b: int|
                0 <= a < self.len() && 0 <= b < self.len() && #[trigger] self.ids()[a]
                    == #[trigger] self.ids()[b] implies a == b by {
                if a == n && b < n {
                    assert(o.ids()[b] == id);
                } else if b == n && a < n {
                    assert(o.ids()[a] == id);
                }
            }
            assert forall|a: int|
                0 < a < self.len() && #[trigger] self.cached()[a] implies self.cached()[self.parent_of(a)] by {
                if a < n {
                    assert(o.cached()[a]);
                }
            }
            assert forall|a: int, b: int|
                0 <= a < self.len() && 0 <= b < self.len() && #[trigger] self.nodes()[a].universe
                    == #[trigger] self.nodes()[b].universe implies a == b by {
                if a == n && b < n {
                    assert(o.nodes()[b].universe == node.universe);
                } else if b == n && a < n {
                    assert(o.nodes()[a].universe == node.universe);
                }
            }
            if o.all_linked() && (successor ==> o.nodes()[i as int].next is None) {
                assert forall|j: int| 0 < j < self.len() implies #[trigger] self.nodes()[self.parent_of(j)].children@.contains(
                    self.ids()[j],
                ) || self.nodes()[self.parent_of(j)].next == Some(self.ids()[j]) by {
                    if j < n {
                        let p = o.parent_of(j);
                        assert(o.nodes()[p].children@.contains(o.ids()[j]) || o.nodes()[p].next == Some(o.ids()[j]));
                        assert(self.parent_of(j) == p);
                        assert(p < j);
                        if p == i && !successor && o.nodes()[p].children@.contains(o.ids()[j]) {
                            assert(self.nodes()[p].children@ == o.nodes()[p].children@.push(id));
                            let w = choose|w: int| 0 <= w < o.nodes()[p].children@.len() && o.nodes()[p].children@[w] == o.ids()[j];
                            assert(self.nodes()[p].children@[w] == o.ids()[j]);
                        }
                    } else {
                        assert(self.ids()[j] == id);
                        if !successor {
                            assert(self.nodes()[i as int].children@.last() == id);
                        }
                    }
                }
            }
        }
    }

    /// Adds the canonical continuation of node `handle`: a node without
    /// patches that advances by `duration`, with handle `id` and cache handle
    /// `cache`. It becomes the successor of node `handle`.
    pub fn advance_with(&mut self, handle: &Handle, duration: u32, id: Handle, cache: Handle) -> (r: Result<Handle, GraphError>)
        requires
            old(self).wf(),
        ensures
            final(self).wf(),
            (r == Err::<Handle, GraphError>(GraphError::UnknownHandle)) == !old(self).contains(*handle),
            (r == Err::<Handle, GraphError>(GraphError::Full)) == (old(self).contains(*handle)
                && old(self).len() + 1 >= usize::MAX),
            (r == Err::<Handle, GraphError>(GraphError::HandleInUse)) == (old(self).contains(*handle)
                && old(self).len() + 1 < usize::MAX && (old(self).contains(id) || old(self).cache_in_use(cache))),
            (r is Ok) == (old(self).contains(*handle) && old(self).len() + 1 < usize::MAX && !old(self).contains(id)
                && !old(self).cache_in_use(cache)),
            r is Err ==> *final(self) == *old(self),
            r is Ok ==> {
                let i = old(self).index_of(*handle);
                let n = old(self).len();
                &&& r == Ok::<Handle, GraphError>(id)
                &&& final(self).extends_with(old(self), i, id)
                &&& final(self).nodes()[n].delta is None
                &&& final(self).nodes()[n].universe == cache
                &&& final(self).nodes()[n].relative_age == duration
                &&& final(self).nodes()[i].next == Some(id)
                &&& final(self).nodes()[i].children@ == old(self).nodes()[i].children@
                &&& (old(self).all_linked() && old(self).nodes()[i].next is None ==> final(self).all_linked())
            },
    {
        let i = match self.find(*handle) {
            Some(i) => i,
            None => return Err(GraphError::UnknownHandle),
        };
        if self.ids.len() >= usize::MAX - 1 {
            return Err(GraphError::Full);
        }
        if self.find(id).is_some() || self.find_cache(cache) {
            return Err(GraphError::HandleInUse);
        }
        let node = MultiverseNode::with_cache(Some(*handle), duration, Vec::new(), cache);
        self.attach(i, id, node, true);
        Ok(id)
    }

    /// Adds a branch under node `handle`: a node that applies `patches` and
    /// then advances by `duration`, with handle `id` and cache handle `cache`.
    /// It joins the children of node `handle`.
    pub fn branch_with(&mut self, handle: &Handle, duration: u32, patches: Vec<P>, id: Handle, cache: Handle) -> (r: Result<Handle, GraphError>)
        requires
            old(self).wf(),
        ensures
            final(self).wf(),
            (r == Err::<Handle, GraphError>(GraphError::UnknownHandle)) == !old(self).contains(*handle),
            (r == Err::<Handle, GraphError>(GraphError::Full)) == (old(self).contains(*handle)
                && old(self).len() + 1 >= usize::MAX),
            (r == Err::<Handle, GraphError>(GraphError::HandleInUse)) == (old(self).contains(*handle)
                && old(self).len() + 1 < usize::MAX && (old(self).contains(id) || old(self).cache_in_use(cache))),
            (r is Ok) == (old(self).contains(*handle) && old(self).len() + 1 < usize::MAX && !old(self).contains(id)
                && !old(self).cache_in_use(cache)),
            r is Err ==> *final(self) == *old(self),
            r is Ok ==> {
                let i = old(self).index_of(*handle);
                let n = old(self).len();
                &&& r == Ok::<Handle, GraphError>(id)
                &&& final(self).extends_with(old(self), i, id)
                &&& final(self).nodes()[n].patches() == patches@
                &&& (final(self).nodes()[n].delta is Some <==> patches@.len() > 0)
                &&& final(self).nodes()[n].universe == cache
                &&& final(self).nodes()[n].relative_age == duration
                &&& final(self).nodes()[i].next == old(self).nodes()[i].next
                &&& final(self).nodes()[i].children@ == old(self).nodes()[i].children@.push(id)
                &&& (old(self).all_linked() ==> final(self).all_linked())
            },
    {
        let i = match self.find(*handle) {
            Some(i) => i,
            None => return Err(GraphError::UnknownHandle),
        };
        if self.ids.len() >= usize::MAX - 1 {
            return Err(GraphError::Full);
        }
        if self.find(id).is_some() || self.find_cache(cache) {
            return Err(GraphError::HandleInUse);
        }
        let node = MultiverseNode::with_cache(Some(*handle), duration, patches, cache);
        self.attach(i, id, node, false);
        Ok(id)
    }

    /// `advance_with` with freshly drawn handles; when a drawn handle is taken
    /// the graph is left as it was and `HandleInUse` comes back.
    pub fn advance(&mut self, handle: &Handle, duration: u32) -> (r: Result<Handle, GraphError>)
        requires
            old(self).wf(),
        ensures
            final(self).wf(),
            (r == Err::<Handle, GraphError>(GraphError::UnknownHandle)) == !old(self).contains(*handle),
            (r == Err::<Handle, GraphError>(GraphError::Full)) == (old(self).contains(*handle)
                && old(self).len() + 1 >= usize::MAX),
            r is Err ==> r == Err::<Handle, GraphError>(GraphError::UnknownHandle) || r == Err::<Handle, GraphError>(
                GraphError::Full,
            ) || r == Err::<Handle, GraphError>(GraphError::HandleInUse),
            r is Err ==> *final(self) == *old(self),
            r matches Ok(id) ==> {
                let i = old(self).index_of(*handle);
                let n = old(self).len();
                &&& !old(self).contains(id)
                &&& final(self).extends_with(old(self), i, id)
                &&& final(self).nodes()[n].delta is None
                &&& !old(self).cache_in_use(final(self).nodes()[n].universe)
                &&& final(self).nodes()[n].relative_age == duration
                &&& final(self).nodes()[i].next == Some(id)
                &&& final(self).nodes()[i].children@ == old(self).nodes()[i].children@
                &&& (old(self).all_linked() && old(self).nodes()[i].next is None ==> final(self).all_linked())
            },
    {
        self.advance_with(handle, duration, Handle::new(), Handle::new())
    }

    /// `branch_with` with freshly drawn handles; when a drawn handle is taken
    /// the graph is left as it was and `HandleInUse` comes back.
    pub fn branch(&mut self, handle: &Handle, duration: u32, patches: Vec<P>) -> (r: Result<Handle, GraphError>)
        requires
            old(self).wf(),
        ensures
            final(self).wf(),
            (r == Err::<Handle, GraphError>(GraphError::UnknownHandle)) == !old(self).contains(*handle),
            (r == Err::<Handle, GraphError>(GraphError::Full)) == (old(self).contains(*handle)
                && old(self).len() + 1 >= usize::MAX),
            r is Err ==> r == Err::<Handle, GraphError>(GraphError::UnknownHandle) || r == Err::<Handle, GraphError>(
                GraphError::Full,
            ) || r == Err::<Handle, GraphError>(GraphError::HandleInUse),
            r is Err ==> *final(self) == *old(self),
            r matches Ok(id) ==> {
                let i = old(self).index_of(*handle);
                let n = old(self).len();
                &&& !old(self).contains(id)
                &&& final(self).extends_with(old(self), i, id)
                &&& final(self).nodes()[n].patches() == patches@
                &&& (final(self).nodes()[n].delta is Some <==> patches@.len() > 0)
                &&& !old(self).cache_in_use(final(self).nodes()[n].universe)
                &&& final(self).nodes()[n].relative_age == duration
                &&& final(self).nodes()[i].next == old(self).nodes()[i].next
                &&& final(self).nodes()[i].children@ == old(self).nodes()[i].children@.push(id)
                &&& (old(self).all_linked() ==> final(self).all_linked())
            },
    {
        self.branch_with(handle, duration, patches, Handle::new(), Handle::new())
    }
    /// Recording node `n` as cached keeps the graph well formed when its
    /// parent is cached already.
    proof fn lemma_mark_keeps_wf(&self, after: &Self, n: int)
        requires
            self.wf(),
            0 <= n < self.len(),
            after.same_graph(self),
            after.cached() == self.cached().update(n, true),
            n == 0 || self.cached()[self.parent_of(n)],
        ensures
            after.wf(),
    {
        assert forall|a: int| 0 < a < after.len() && #[trigger] after.cached()[a] implies after.cached()[after.parent_of(a)] by {
            if a != n {
                assert(self.cached()[a]);
            }
        }
        assert(after.ids() == self.ids());
        assert(after.nodes() == self.nodes());
        assert(after.parents() == self.parents());
        assert(after.cached().len() == self.len());
        assert forall|a: int| 0 < a < after.len() implies #[trigger] after.parent_of(a) < a && after.nodes()[a].parent == Some(
            after.ids()[after.parent_of(a)]) by {
            assert(self.parent_of(a) < a);
        }
    }

    fn mark_cached(&mut self, n: usize)
        requires
            old(self).wf(),
            n < old(self).len(),
            n == 0 || old(self).cached()[old(self).parent_of(n as int)],
        ensures
            final(self).wf(),
            final(self).same_graph(old(self)),
            final(self).cached() == old(self).cached().update(n as int, true),
    {
        let ghost before = *self;
        self.cached[n] = true;
        proof {
            before.lemma_mark_keeps_wf(self, n as int);
        }
    }

    /// The positions to derive for `i` form a parent chain ending in `i`,
    /// none of them cached, starting at the root or under a cached node.
    pub proof fn lemma_plan_chain(&self, i: int)
        requires
            self.wf(),
            0 <= i < self.len(),
        ensures
            forall|t: int|
                0 <= t < self.plan_nodes(i).len() ==> 0 <= #[trigger] self.plan_nodes(i)[t] < self.len()
                    && !self.cached()[self.plan_nodes(i)[t]],
            forall|t: int|
                0 < t < self.plan_nodes(i).len() ==> #[trigger] self.plan_nodes(i)[t] > 0
                    && self.parent_of(self.plan_nodes(i)[t]) == self.plan_nodes(i)[t - 1],
            self.plan_nodes(i).len() > 0 ==> self.plan_nodes(i).last() == i && (self.plan_nodes(i)[0] == 0
                || (self.plan_nodes(i)[0] > 0 && self.cached()[self.parent_of(self.plan_nodes(i)[0])])),
            self.plan_nodes(i).len() == 0 ==> self.cached()[i],
        decreases i,
    {
        if !self.cached()[i] && i > 0 {
            let p = self.parent_of(i);
            assert(self.parent_of(i) < i);
            self.lemma_plan_chain(p);
            let s = self.plan_nodes(p);
            assert(self.plan_nodes(i) == s.push(i));
            assert forall|t: int| 0 < t < self.plan_nodes(i).len() implies #[trigger] self.plan_nodes(i)[t] > 0
                && self.parent_of(self.plan_nodes(i)[t]) == self.plan_nodes(i)[t - 1] by {
                if t == s.len() {
                    assert(s[t - 1] == p);
                } else {
                    assert(self.plan_nodes(i)[t] == s[t]);
                }
            }
        }
    }

    /// A node whose state is not cached has no cached descendant, so deriving
    /// it leaves no stale state below it.
    pub proof fn lemma_uncached_subtree(&self, i: int, d: int)
        requires
            self.wf(),
            0 <= i < self.len(),
            0 <= d < self.len(),
            !self.cached()[i],
            self.descends(d, i),
        ensures
            !self.cached()[d],
        decreases d,
    {
        if d != i {
            let p = self.parent_of(d);
            assert(p < d);
            self.lemma_uncached_subtree(i, p);
        }
    }

    /// The derivation of node `h`: where to start and which nodes to derive,
    /// root first. The nodes it names are recorded as cached, since running
    /// the plan stores each of their states.
    ///
    /// The cached set is closed under parents, so a node that has to be derived
    /// has no cached descendant (`lemma_uncached_subtree`): deriving it leaves
    /// nothing stale below it.
    pub fn plan_universe(&mut self, h: &Handle) -> (r: Option<ResolvePlan>)
        requires
            old(self).wf(),
        ensures
            final(self).wf(),
            final(self).same_graph(old(self)),
            r is None <==> !old(self).contains(*h),
            r is None ==> final(self).cached() == old(self).cached(),
            r matches Some(plan) ==> {
                let i = old(self).index_of(*h);
                &&& old(self).is_plan_for(i, plan)
                &&& final(self).cached()[i]
                &&& forall|x: int|
                    0 <= x < old(self).len() ==> #[trigger] final(self).cached()[x] == (old(self).cached()[x]
                        || old(self).plan_nodes(i).contains(x))
            },
    {
        let i = match self.find(*h) {
            Some(i) => i,
            None => return None,
        };
        let ghost o = *self;
        let ghost mut rest: Seq<int> = Seq::empty();
        let mut up: Vec<usize> = Vec::new();
        let mut j: usize = i;
        let mut base: Option<Handle> = None;
        let mut done = false;
        while !done
            invariant
                *self == o,
                o.wf(),
                i < o.len(),
                j < o.len(),
                up@.len() == rest.len(),
                forall|t: int| 0 <= t < rest.len() ==> rest[t] == up@[up@.len() - 1 - t] as int,
                !done ==> o.plan_nodes(i as int) == o.plan_nodes(j as int) + rest && o.nearest_cached(
                    i as int,
                ) == o.nearest_cached(j as int) && base is None,
                done ==> o.plan_nodes(i as int) == rest && base == (match o.nearest_cached(i as int) {
                    Some(k) => Some(o.nodes()[k].universe),
                    None => None,
                }),
            decreases j + (if done { 0int } else { 1int }),
        {
            if self.cached[j] {
                base = Some(self.nodes[j].universe);
                done = true;
                assert(rest =~= Seq::<int>::empty() + rest);
            } else {
                up.push(j);
                proof {
                    let old_rest = rest;
                    rest = seq![j as int] + rest;
                    if j > 0 {
                        let p = o.parent_of(j as int);
                        assert(o.plan_nodes(j as int) == o.plan_nodes(p).push(j as int));
                        assert(o.plan_nodes(p).push(j as int) + old_rest =~= o.plan_nodes(p) + rest);
                    } else {
                        assert(o.plan_nodes(0) + old_rest =~= rest);
                    }
                    assert forall|t: int| 0 <= t < rest.len() implies rest[t] == up@[up@.len() - 1 - t] as int by {
                        if t > 0 {
                            assert(rest[t] == old_rest[t - 1]);
                        }
                    }
                }
                if j == 0 {
                    done = true;
                } else {
                    j = self.parents[j];
                }
            }
        }
        proof {
            o.lemma_plan_chain(i as int);
        }
        let mut steps: Vec<Step> = Vec::new();
        let mut k: usize = up.len();
        while k > 0
            invariant
                o.wf(),
                i < o.len(),
                rest == o.plan_nodes(i as int),
                up@.len() == rest.len(),
                forall|t: int| 0 <= t < rest.len() ==> rest[t] == up@[up@.len() - 1 - t] as int,
                k <= up@.len(),
                steps@.len() == up@.len() - k,
                forall|t: int| 0 <= t < steps@.len() ==> steps@[t] == o.step_of(rest[t]),
                self.same_graph(&o),
                self.wf(),
                self.cached() == marked(o.cached(), rest.subrange(0, steps@.len() as int)),
            decreases k,
        {
            k -= 1;
            let n = up[k];
            let ghost t = steps@.len() as int;
            proof {
                o.lemma_plan_chain(i as int);
                assert(rest[t] == n as int);
                assert(0 <= rest[t] < o.len());
                if t > 0 {
                    lemma_marked(o.cached(), rest.subrange(0, t), rest[t - 1]);
                    assert(rest.subrange(0, t)[t - 1] == rest[t - 1]);
                }
                assert(rest.subrange(0, t + 1).drop_last() =~= rest.subrange(0, t));
            }
            steps.push(Step { node: self.ids[n], cache: self.nodes[n].universe, ticks: self.nodes[n].relative_age });
            self.mark_cached(n);
        }
        proof {
            assert(steps@ =~= rest.map_values(|j: int| o.step_of(j)));
            assert(rest.subrange(0, rest.len() as int) =~= rest);
            o.lemma_plan_chain(i as int);
            if rest.len() > 0 {
                assert(rest[rest.len() - 1] == i as int);
            }
            assert forall|x: int| 0 <= x < o.len() implies #[trigger] self.cached()[x] == (o.cached()[x]
                || rest.contains(x)) by {
                lemma_marked(o.cached(), rest, x);
            }
            lemma_marked(o.cached(), rest, i as int);
        }
        Some(ResolvePlan { base, steps })
    }

    /// Whether position `d` lies in the subtree rooted at position `a`.
    fn descends_exec(&self, d: usize, a: usize) -> (r: bool)
        requires
            self.wf(),
            d < self.len(),
        ensures
            r == self.descends(d as int, a as int),
    {
        let mut j = d;
        while j != a && j > 0
            invariant
                self.wf(),
                j < self.len(),
                self.descends(d as int, a as int) == self.descends(j as int, a as int),
            decreases j,
        {
            j = self.parents[j];
        }
        j == a
    }

    fn unmark_cached(&mut self, n: usize)
        requires
            old(self).wf(),
            n < old(self).len(),
            forall|x: int| 0 < x < old(self).len() && old(self).parent_of(x) == n ==> !#[trigger] old(self).cached()[x],
        ensures
            final(self).wf(),
            final(self).same_graph(old(self)),
            final(self).cached() == old(self).cached().update(n as int, false),
    {
        let ghost before = *self;
        self.cached[n] = false;
        proof {
            assert forall|a: int| 0 < a < self.len() && #[trigger] self.cached()[a] implies self.cached()[self.parent_of(a)] by {
                assert(before.cached()[a]);
            }
            assert forall|a: int| 0 < a < self.len() implies #[trigger] self.parent_of(a) < a && self.nodes()[a].parent == Some(
                self.ids()[self.parent_of(a)]) by {
                assert(before.parent_of(a) < a);
            }
        }
    }

    /// Subtree membership depends on the graph alone, not on the cache.
    proof fn lemma_same_graph_descends(&self, other: &Self, d: int, a: int)
        requires
            self.parents() == other.parents(),
        ensures
            self.descends(d, a) == other.descends(d, a),
        decreases d,
    {
        if d != a && d > 0 && self.parent_of(d) < d && self.parent_of(d) >= 0 {
            self.lemma_same_graph_descends(other, self.parent_of(d), a);
        }
    }

    /// A child of a node in the subtree of `a` is in that subtree too.
    proof fn lemma_descends_child(&self, x: int, a: int)
        requires
            self.wf(),
            0 < x < self.len(),
            self.descends(self.parent_of(x), a),
        ensures
            self.descends(x, a),
    {
        assert(self.parent_of(x) < x);
    }

    /// Drops from the state cache node `h` and every node below it. The
    /// result lists the cache handles whose entries are now stale, one per
    /// node that had been cached.
    pub fn clear_universe(&mut self, h: &Handle) -> (r: Option<Vec<Handle>>)
        requires
            old(self).wf(),
        ensures
            final(self).wf(),
            final(self).same_graph(old(self)),
            r is None <==> !old(self).contains(*h),
            r is None ==> final(self).cached() == old(self).cached(),
            r is Some ==> forall|x: int|
                0 <= x < old(self).len() ==> #[trigger] final(self).cached()[x] == (old(self).cached()[x]
                    && !old(self).descends(x, old(self).index_of(*h))),
            r matches Some(v) ==> forall|x: int|
                0 <= x < old(self).len() ==> (v@.contains(#[trigger] old(self).nodes()[x].universe)
                    <==> old(self).cached()[x] && old(self).descends(x, old(self).index_of(*h))),
            r matches Some(v) ==> forall|c: Handle| #[trigger] v@.contains(c) ==> old(self).cache_in_use(c),
    {
        let i = match self.find(*h) {
            Some(i) => i,
            None => return None,
        };
        let ghost o = *self;
        let mut v: Vec<Handle> = Vec::new();
        let ghost mut src: Seq<int> = Seq::empty();
        let mut k: usize = self.ids.len();
        while k > 0
            invariant
                o.wf(),
                self.wf(),
                self.same_graph(&o),
                i < o.len(),
                k <= o.len(),
                forall|x: int|
                    k <= x < o.len() ==> #[trigger] self.cached()[x] == (o.cached()[x] && !o.descends(x, i as int)),
                forall|x: int| 0 <= x < k ==> #[trigger] self.cached()[x] == o.cached()[x],
                forall|x: int|
                    k <= x < o.len() ==> (v@.contains(#[trigger] o.nodes()[x].universe) <==> o.cached()[x]
                        && o.descends(x, i as int)),
                forall|x: int|
                    0 <= x < k ==> !v@.contains(#[trigger] o.nodes()[x].universe),
                src.len() == v@.len(),
                forall|t: int|
                    0 <= t < v@.len() ==> k <= #[trigger] src[t] < o.len() && o.nodes()[src[t]].universe == v@[t],
            decreases k,
        {
            k -= 1;
            proof {
                self.lemma_same_graph_descends(&o, k as int, i as int);
            }
            if self.cached[k] && self.descends_exec(k, i) {
                proof {
                    assert forall|x: int| 0 < x < self.len() && self.parent_of(x) == k implies !#[trigger] self.cached()[x] by {
                        if self.cached()[x] {
                            assert(self.parent_of(x) < x);
                            o.lemma_descends_child(x, i as int);
                        }
                    }
                }
                let c = self.nodes[k].universe;
                let ghost v0 = v@;
                v.push(c);
                self.unmark_cached(k);
                proof {
                    assert forall|x: int|
                        k <= x < o.len() implies (v@.contains(#[trigger] o.nodes()[x].universe) <==> o.cached()[x]
                            && o.descends(x, i as int)) by {
                        if x != k {
                            if v@.contains(o.nodes()[x].universe) && !v0.contains(o.nodes()[x].universe) {
                                assert(o.nodes()[x].universe == c);
                            }
                            if v0.contains(o.nodes()[x].universe) {
                                let w = choose|w: int| 0 <= w < v0.len() && v0[w] == o.nodes()[x].universe;
                                assert(v@[w] == v0[w]);
                            }
                        } else {
                            assert(v@[v0.len() as int] == c);
                        }
                    }
                    assert forall|x: int| 0 <= x < k implies !v@.contains(#[trigger] o.nodes()[x].universe) by {
                        if v@.contains(o.nodes()[x].universe) {
                            let w = choose|w: int| 0 <= w < v@.len() && v@[w] == o.nodes()[x].universe;
                            if w < v0.len() {
                                assert(v0[w] == v@[w]);
                                assert(v0.contains(o.nodes()[x].universe));
                            }
                        }
                    }
                    src = src.push(k as int);
                }
            }
        }
        proof {
            assert forall|c: Handle| #[trigger] v@.contains(c) implies o.cache_in_use(c) by {
                let w = choose|w: int| 0 <= w < v@.len() && v@[w] == c;
                assert(o.nodes()[src[w]].universe == c);
            }
        }
        Some(v)
    }

    /// `self` is `before` with the patches of node `i` changed and nothing
    /// else, the cache aside.
    pub open spec fn same_but_delta(&self, before: &Self, i: int) -> bool {
        &&& self.ids() == before.ids()
        &&& self.parents() == before.parents()
        &&& self.root() == before.root()
        &&& self.nodes().len() == before.nodes().len()
        &&& forall|j: int| 0 <= j < before.len() && j != i ==> #[trigger] self.nodes()[j] == before.nodes()[j]
        &&& self.nodes()[i].parent == before.nodes()[i].parent
        &&& self.nodes()[i].next == before.nodes()[i].next
        &&& self.nodes()[i].children == before.nodes()[i].children
        &&& self.nodes()[i].universe == before.nodes()[i].universe
        &&& self.nodes()[i].relative_age == before.nodes()[i].relative_age
    }

    proof fn lemma_delta_keeps_wf(&self, after: &Self, i: int)
        requires
            self.wf(),
            0 <= i < self.len(),
            after.same_but_delta(self, i),
            after.cached() == self.cached(),
        ensures
            after.wf(),
    {
        assert forall|a: int| 0 < a < after.len() implies #[trigger] after.parent_of(a) < a && after.nodes()[a].parent == Some(
            after.ids()[after.parent_of(a)]) by {
            assert(self.parent_of(a) < a);
        }
        assert forall|a: int| 0 <= a < after.len() implies (#[trigger] after.nodes()[a]).children@.no_duplicates() by {
            assert(self.nodes()[a].children@.no_duplicates());
        }
        assert forall|a: int, c: Handle| 0 <= a < after.len() && #[trigger] after.nodes()[a].children@.contains(c)
            implies after.contains(c) by {
            assert(self.nodes()[a].children@.contains(c));
        }
        assert forall|a: int, b: int|
            0 <= a < after.len() && 0 <= b < after.len() && #[trigger] after.nodes()[a].children@.contains(
                #[trigger] after.ids()[b],
            ) implies 0 < b && after.parent_of(b) == a by {
            assert(self.nodes()[a].children@.contains(self.ids()[b]));
        }
        assert forall|a: int| 0 <= a < after.len() && (#[trigger] after.nodes()[a]).next is Some implies after.contains(
            after.nodes()[a].next->0) by {
            assert(self.nodes()[a].next is Some);
        }
        assert forall|a: int, b: int|
            0 <= a < after.len() && 0 <= b < after.len() && #[trigger] after.nodes()[a].next == Some(
                #[trigger] after.ids()[b],
            ) implies 0 < b && after.parent_of(b) == a by {
            assert(self.nodes()[a].next == Some(self.ids()[b]));
        }
        assert forall|a: int, b: int|
            0 <= a < after.len() && 0 <= b < after.len() && #[trigger] after.nodes()[a].universe
                == #[trigger] after.nodes()[b].universe implies a == b by {
            assert(self.nodes()[a].universe == self.nodes()[b].universe);
        }
    }

    /// Plans once the subtree of position `i` is dropped from the cache
    /// (`o` before, `c` after): each node of the subtree has `i` among the
    /// nodes to derive, and each other node keeps its plan, whose path avoids
    /// `i`.
    pub proof fn lemma_cleared_plans(o: &Self, c: &Self, i: int, d: int)
        requires
            o.wf(),
            c.wf(),
            c.ids() == o.ids(),
            c.parents() == o.parents(),
            0 <= i < o.len(),
            0 <= d < o.len(),
            forall|x: int| 0 <= x < o.len() ==> #[trigger] c.cached()[x] == (o.cached()[x] && !o.descends(x, i)),
        ensures
            o.descends(d, i) ==> c.plan_nodes(d).contains(i),
            !o.descends(d, i) ==> c.plan_nodes(d) == o.plan_nodes(d) && c.nearest_cached(d) == o.nearest_cached(d)
                && !o.path(d).contains(i),
        decreases d,
    {
        if d == i {
            assert(!c.cached()[i]);
            if i > 0 {
                assert(c.parent_of(i) < i);
                assert(c.plan_nodes(i).last() == i);
            } else {
                assert(c.plan_nodes(i)[0] == i);
            }
        } else if d == 0 {
            assert(c.cached()[0] == o.cached()[0]);
            assert(o.path(0) == seq![0int]);
        } else {
            let p = o.parent_of(d);
            assert(p < d);
            Self::lemma_cleared_plans(o, c, i, p);
            if o.descends(d, i) {
                assert(c.plan_nodes(d) == c.plan_nodes(p).push(d));
                let w = choose|w: int| 0 <= w < c.plan_nodes(p).len() && c.plan_nodes(p)[w] == i;
                assert(c.plan_nodes(d)[w] == i);
            } else {
                assert(c.cached()[d] == o.cached()[d]);
                assert(o.path(d) == o.path(p).push(d));
                if o.path(d).contains(i) {
                    let w = choose|w: int| 0 <= w < o.path(d).len() && o.path(d)[w] == i;
                    if w < o.path(p).len() {
                        assert(o.path(p)[w] == i);
                    }
                }
            }
        }
    }

    /// Appends `edits` to the patches of node `handle` and drops from the
    /// state cache that node and every node below it, whose derivations
    /// have changed. The result lists the cache handles whose entries are now
    /// stale. Afterwards each node below `handle` re-derives it, and every
    /// other node keeps its plan, whose path does not pass through it.
    pub fn update_multiverse(&mut self, handle: Handle, edits: Vec<P>) -> (r: Option<Vec<Handle>>)
        requires
            old(self).wf(),
        ensures
            final(self).wf(),
            r is None <==> !old(self).contains(handle),
            r is None ==> *final(self) == *old(self),
            r is Some ==> final(self).same_but_delta(old(self), old(self).index_of(handle)),
            r is Some ==> final(self).nodes()[old(self).index_of(handle)].delta is Some,
            r is Some ==> final(self).nodes()[old(self).index_of(handle)].patches()
                == old(self).nodes()[old(self).index_of(handle)].patches() + edits@,
            r is Some ==> forall|x: int|
                0 <= x < old(self).len() ==> #[trigger] final(self).cached()[x] == (old(self).cached()[x]
                    && !old(self).descends(x, old(self).index_of(handle))),
            r matches Some(v) ==> forall|x: int|
                0 <= x < old(self).len() ==> (v@.contains(#[trigger] old(self).nodes()[x].universe)
                    <==> old(self).cached()[x] && old(self).descends(x, old(self).index_of(handle))),
            r matches Some(v) ==> forall|c: Handle| #[trigger] v@.contains(c) ==> old(self).cache_in_use(c),
            r is Some ==> forall|d: int|
                0 <= d < old(self).len() && #[trigger] old(self).descends(d, old(self).index_of(handle))
                    ==> final(self).plan_nodes(d).contains(old(self).index_of(handle)),
            r is Some ==> forall|d: int|
                0 <= d < old(self).len() && !#[trigger] old(self).descends(d, old(self).index_of(handle))
                    ==> final(self).plan_nodes(d) == old(self).plan_nodes(d)
                        && final(self).nearest_cached(d) == old(self).nearest_cached(d)
                        && !old(self).path(d).contains(old(self).index_of(handle)),
    {
        let i = match self.find(handle) {
            Some(i) => i,
            None => return None,
        };
        let ghost o = *self;
        let mut edits = edits;
        let previous = self.nodes[i].delta.take();
        let merged = match previous {
            Some(mut d) => {
                d.append(&mut edits);
                d
            },
            None => edits,
        };
        self.nodes[i].delta = Some(merged);
        proof {
            o.lemma_delta_keeps_wf(self, i as int);
        }
        let ghost m = *self;
        let r = self.clear_universe(&handle);
        proof {
            assert(m.index_of(handle) == i);
            assert forall|x: int| 0 <= x < o.len() implies #[trigger] m.descends(x, i as int) == o.descends(x, i as int) by {
                m.lemma_same_graph_descends(&o, x, i as int);
            }
            assert forall|x: int| 0 <= x < o.len() implies #[trigger] m.path(x) == o.path(x) by {
                m.lemma_same_graph_path(&o, x);
            }
            assert forall|d: int| 0 <= d < o.len() implies (#[trigger] o.descends(d, i as int) ==> self.plan_nodes(d).contains(i as int))
                && (!o.descends(d, i as int) ==> self.plan_nodes(d) == o.plan_nodes(d)
                        && self.nearest_cached(d) == o.nearest_cached(d)
                        && !o.path(d).contains(i as int)) by {
                Self::lemma_cleared_plans(&o, self, i as int, d);
            }
        }
        r
    }

    proof fn lemma_same_graph_path(&self, other: &Self, d: int)
        requires
            self.parents() == other.parents(),
        ensures
            self.path(d) == other.path(d),
        decreases d,
    {
        if d > 0 && self.parent_of(d) < d && self.parent_of(d) >= 0 {
            self.lemma_same_graph_path(other, self.parent_of(d));
        }
    }

    /// A path has one more position than the depth of its end.
    pub proof fn lemma_path_len(&self, i: int)
        requires
            self.wf(),
            0 <= i < self.len(),
        ensures
            self.path(i).len() == self.depth(i) + 1,
            self.path(i)[0] == 0,
            self.path(i).last() == i,
            forall|t: int| 0 <= t < self.path(i).len() ==> 0 <= #[trigger] self.path(i)[t] < self.len(),
        decreases i,
    {
        if i > 0 {
            let p = self.parent_of(i);
            assert(p < i);
            self.lemma_path_len(p);
            assert forall|t: int| 0 <= t < self.path(i).len() implies 0 <= #[trigger] self.path(i)[t] < self.len() by {
                if t < self.path(p).len() {
                    assert(self.path(i)[t] == self.path(p)[t]);
                }
            }
        }
    }

    /// The handles from the root down to node `h`, inclusive, whose states
    /// make up its timeline; empty when `h` is unknown. Its length is the depth
    /// of `h` plus one.
    pub fn get_timeline(&self, h: &Handle) -> (r: Vec<Handle>)
        requires
            self.wf(),
        ensures
            !self.contains(*h) ==> r@.len() == 0,
            self.contains(*h) ==> r@.len() == self.depth(self.index_of(*h)) + 1,
            self.contains(*h) ==> r@ == self.path(self.index_of(*h)).map_values(|j: int| self.ids()[j]),
    {
        let i = match self.find(*h) {
            Some(i) => i,
            None => return Vec::new(),
        };
        let ghost mut rest: Seq<int> = Seq::empty();
        let mut up: Vec<usize> = Vec::new();
        let mut j: usize = i;
        let mut done = false;
        while !done
            invariant
                self.wf(),
                i < self.len(),
                j < self.len(),
                up@.len() == rest.len(),
                forall|t: int| 0 <= t < rest.len() ==> rest[t] == up@[up@.len() - 1 - t] as int,
                !done ==> self.path(i as int) == self.path(j as int) + rest,
                done ==> self.path(i as int) == rest,
            decreases j + (if done { 0int } else { 1int }),
        {
            up.push(j);
            proof {
                let old_rest = rest;
                rest = seq![j as int] + rest;
                if j > 0 {
                    let p = self.parent_of(j as int);
                    assert(self.path(j as int) == self.path(p).push(j as int));
                    assert(self.path(p).push(j as int) + old_rest =~= self.path(p) + rest);
                } else {
                    assert(self.path(0) + old_rest =~= rest);
                }
                assert forall|t: int| 0 <= t < rest.len() implies rest[t] == up@[up@.len() - 1 - t] as int by {
                    if t > 0 {
                        assert(rest[t] == old_rest[t - 1]);
                    }
                }
            }
            if j == 0 {
                done = true;
            } else {
                j = self.parents[j];
            }
        }
        proof {
            self.lemma_path_len(i as int);
        }
        let mut r: Vec<Handle> = Vec::new();
        let mut k: usize = up.len();
        while k > 0
            invariant
                self.wf(),
                i < self.len(),
                rest == self.path(i as int),
                forall|t: int| 0 <= t < rest.len() ==> 0 <= #[trigger] rest[t] < self.len(),
                up@.len() == rest.len(),
                forall|t: int| 0 <= t < rest.len() ==> rest[t] == up@[up@.len() - 1 - t] as int,
                k <= up@.len(),
                r@.len() == up@.len() - k,
                forall|t: int| 0 <= t < r@.len() ==> r@[t] == self.ids()[rest[t]],
            decreases k,
        {
            k -= 1;
            let n = up[k];
            proof {
                let t = r@.len() as int;
                assert(rest[t] == n as int);
                assert(0 <= rest[t] < self.len());
            }
            r.push(self.ids[n]);
        }
        proof {
            assert(r@ =~= rest.map_values(|j: int| self.ids()[j]));
        }
        r
    }
    /// Every node lies in the subtree of the root: following parents from
    /// any node reaches the root.
    pub proof fn lemma_descends_root(&self, x: int)
        requires
            self.wf(),
            0 <= x < self.len(),
        ensures
            self.descends(x, 0),
        decreases x,
    {
        if x > 0 {
            assert(self.parent_of(x) < x);
            self.lemma_descends_root(self.parent_of(x));
        }
    }

    proof fn lemma_cold_plan_nodes(&self, i: int)
        requires
            self.wf(),
            0 <= i < self.len(),
            forall|x: int| 0 <= x < self.len() ==> !#[trigger] self.cached()[x],
        ensures
            self.plan_nodes(i) == self.path(i),
            self.nearest_cached(i) is None,
        decreases i,
    {
        if i > 0 {
            assert(self.parent_of(i) < i);
            self.lemma_cold_plan_nodes(self.parent_of(i));
        }
    }

    /// Deriving a node depends on the graph alone: with nothing cached, the
    /// plan for a node starts from the empty state and derives its whole path
    /// from the root, so two multiverses that hold the same graph give the
    /// same plan.
    pub proof fn lemma_cold_plans_agree(a: &Self, b: &Self, i: int, pa: ResolvePlan, pb: ResolvePlan)
        requires
            a.wf(),
            b.wf(),
            a.same_graph(b),
            0 <= i < a.len(),
            forall|x: int| 0 <= x < a.len() ==> !#[trigger] a.cached()[x],
            forall|x: int| 0 <= x < b.len() ==> !#[trigger] b.cached()[x],
            a.is_plan_for(i, pa),
            b.is_plan_for(i, pb),
        ensures
            pa.base is None,
            pb.base is None,
            pa.steps@ == a.path(i).map_values(|j: int| a.step_of(j)),
            pa.steps@ == pb.steps@,
    {
        a.lemma_cold_plan_nodes(i);
        b.lemma_cold_plan_nodes(i);
        a.lemma_same_graph_path(b, i);
        assert(a.path(i).map_values(|j: int| a.step_of(j)) =~= b.path(i).map_values(|j: int| b.step_of(j)));
    }

    /// The tree law in full, for a graph whose nodes are all linked, which
    /// `with_root` and `new` give, `branch` keeps, and `advance` keeps when the
    /// node advanced from had no successor yet: exactly the root has no
    /// parent, and every other node is listed among its parent's children or
    /// is its parent's successor, and in no other node's children or successor.
    pub proof fn lemma_linked_tree(&self)
        requires
            self.wf(),
            self.all_linked(),
        ensures
            forall|i: int| 0 <= i < self.len() ==> ((#[trigger] self.nodes()[i]).parent is None <==> i == 0),
            forall|j: int|
                0 < j < self.len() ==> (#[trigger] self.nodes()[self.parent_of(j)].children@.contains(self.ids()[j])
                    || self.nodes()[self.parent_of(j)].next == Some(self.ids()[j]))
                    && self.nodes()[j].parent == Some(self.ids()[self.parent_of(j)]),
            forall|a: int, j: int|
                0 <= a < self.len() && 0 < j < self.len() && a != self.parent_of(j) ==> !#[trigger] self.nodes()[a].children@.contains(
                    #[trigger] self.ids()[j],
                ) && self.nodes()[a].next != Some(self.ids()[j]),
    {
        self.lemma_tree_invariant();
        assert forall|j: int|
            0 < j < self.len() implies (#[trigger] self.nodes()[self.parent_of(j)].children@.contains(self.ids()[j])
                || self.nodes()[self.parent_of(j)].next == Some(self.ids()[j]))
                && self.nodes()[j].parent == Some(self.ids()[self.parent_of(j)]) by {
            assert(self.parent_of(j) < j);
        }
    }

    /// The tree shape that every operation here keeps: exactly the root has
    /// no parent, every other node's parent is in the graph and following
    /// parents always reaches the root, and a handle listed among a node's
    /// children or as its successor is that of a node whose parent it is.
    pub proof fn lemma_tree_invariant(&self)
        requires
            self.wf(),
        ensures
            forall|i: int| 0 <= i < self.len() ==> ((#[trigger] self.nodes()[i]).parent is None <==> i == 0),
            forall|i: int|
                0 <= i < self.len() && (#[trigger] self.nodes()[i]).parent is Some ==> self.contains(
                    self.nodes()[i].parent->0,
                ),
            forall|i: int| 0 <= i < self.len() ==> #[trigger] self.descends(i, 0),
            forall|i: int, c: Handle|
                0 <= i < self.len() && #[trigger] self.nodes()[i].children@.contains(c) ==> self.contains(c)
                    && self.nodes()[self.index_of(c)].parent == Some(self.ids()[i]),
            forall|i: int|
                0 <= i < self.len() && (#[trigger] self.nodes()[i]).next is Some ==> self.contains(
                    self.nodes()[i].next->0,
                ) && self.nodes()[self.index_of(self.nodes()[i].next->0)].parent == Some(self.ids()[i]),
    {
        assert forall|i: int| 0 <= i < self.len() implies ((#[trigger] self.nodes()[i]).parent is None <==> i == 0) by {
            if i > 0 {
                assert(self.parent_of(i) < i);
            }
        }
        assert forall|i: int|
            0 <= i < self.len() && (#[trigger] self.nodes()[i]).parent is Some implies self.contains(
                self.nodes()[i].parent->0,
            ) by {
            if i > 0 {
                assert(self.parent_of(i) < i);
                assert(self.ids()[self.parent_of(i)] == self.nodes()[i].parent->0);
            }
        }
        assert forall|i: int| 0 <= i < self.len() implies #[trigger] self.descends(i, 0) by {
            self.lemma_descends_root(i);
        }
        assert forall|i: int, c: Handle|
            0 <= i < self.len() && #[trigger] self.nodes()[i].children@.contains(c) implies self.contains(c)
                && self.nodes()[self.index_of(c)].parent == Some(self.ids()[i]) by {
            let j = self.index_of(c);
            assert(self.ids()[j] == c);
            assert(self.nodes()[i].children@.contains(self.ids()[j]));
        }
        assert forall|i: int|
            0 <= i < self.len() && (#[trigger] self.nodes()[i]).next is Some implies self.contains(
                self.nodes()[i].next->0,
            ) && self.nodes()[self.index_of(self.nodes()[i].next->0)].parent == Some(self.ids()[i]) by {
            let c = self.nodes()[i].next->0;
            let j = self.index_of(c);
            assert(self.ids()[j] == c);
            assert(self.nodes()[i].next == Some(self.ids()[j]));
        }
    }

    /// Node `i`'s child and successor links are consistent.
    pub open spec fn links_ok_at(&self, i: int) -> bool {
        &&& self.nodes()[i].children@.no_duplicates()
        &&& forall|c: Handle|
            #[trigger] self.nodes()[i].children@.contains(c) ==> self.contains(c) && 0 < self.index_of(c)
                && self.parent_of(self.index_of(c)) == i
        &&& self.nodes()[i].next matches Some(c) ==> self.contains(c) && 0 < self.index_of(c)
            && self.parent_of(self.index_of(c)) == i
    }

    proof fn lemma_links_ok(&self)
        requires
            self.wf_tree(),
            forall|i: int| 0 <= i < self.len() ==> #[trigger] self.links_ok_at(i),
        ensures
            self.wf_links(),
    {
        assert forall|i: int| 0 <= i < self.len() implies (#[trigger] self.nodes()[i]).children@.no_duplicates() by {
            assert(self.links_ok_at(i));
        }
        assert forall|i: int, c: Handle|
            0 <= i < self.len() && #[trigger] self.nodes()[i].children@.contains(c) implies self.contains(c) by {
            assert(self.links_ok_at(i));
        }
        assert forall|i: int, j: int|
            0 <= i < self.len() && 0 <= j < self.len() && #[trigger] self.nodes()[i].children@.contains(
                #[trigger] self.ids()[j],
            ) implies 0 < j && self.parent_of(j) == i by {
            assert(self.links_ok_at(i));
            let c = self.ids()[j];
            assert(self.ids()[self.index_of(c)] == c);
        }
        assert forall|i: int|
            0 <= i < self.len() && (#[trigger] self.nodes()[i]).next is Some implies self.contains(
                self.nodes()[i].next->0,
            ) by {
            assert(self.links_ok_at(i));
        }
        assert forall|i: int, j: int|
            0 <= i < self.len() && 0 <= j < self.len() && #[trigger] self.nodes()[i].next == Some(
                #[trigger] self.ids()[j],
            ) implies 0 < j && self.parent_of(j) == i by {
            assert(self.links_ok_at(i));
            let c = self.ids()[j];
            assert(self.ids()[self.index_of(c)] == c);
        }
    }

    /// Whether every child and successor link is consistent.
    fn links_consistent(&self) -> (r: bool)
        requires
            self.wf_tree(),
        ensures
            r == (forall|i: int| 0 <= i < self.len() ==> #[trigger] self.links_ok_at(i)),
            r ==> self.wf_links(),
    {
        let mut i: usize = 0;
        while i < self.nodes.len()
            invariant
                self.wf_tree(),
                i <= self.len(),
                forall|a: int| 0 <= a < i ==> #[trigger] self.links_ok_at(a),
            decreases self.len() - i,
        {
            let node = &self.nodes[i];
            let mut t: usize = 0;
            while t < node.children.len()
                invariant
                    self.wf_tree(),
                    i < self.len(),
                    *node == self.nodes()[i as int],
                    t <= node.children@.len(),
                    node.children@.subrange(0, t as int).no_duplicates(),
                    forall|c: Handle|
                        #[trigger] node.children@.subrange(0, t as int).contains(c) ==> self.contains(c) && 0
                            < self.index_of(c) && self.parent_of(self.index_of(c)) == i,
                decreases node.children@.len() - t,
            {
                let c = node.children[t];
                proof {
                    assert(node.children@.contains(c));
                }
                let j = match self.find(c) {
                    Some(j) => j,
                    None => {
                        assert(!self.links_ok_at(i as int));
                        return false;
                    },
                };
                if j == 0 || self.parents[j] != i {
                    assert(!self.links_ok_at(i as int));
                    return false;
                }
                let mut u: usize = 0;
                while u < t
                    invariant
                        self.wf_tree(),
                        i < self.len(),
                        *node == self.nodes()[i as int],
                        t < node.children@.len(),
                        u <= t,
                        c == node.children@[t as int],
                        forall|w: int| 0 <= w < u ==> node.children@[w] != c,
                    decreases t - u,
                {
                    if node.children[u] == c {
                        assert(node.children@[u as int] == node.children@[t as int]);
                        assert(!node.children@.no_duplicates());
                        assert(!self.links_ok_at(i as int));
                        return false;
                    }
                    u += 1;
                }
                proof {
                    let s0 = node.children@.subrange(0, t as int);
                    let s1 = node.children@.subrange(0, t as int + 1);
                    assert(s1 =~= s0.push(c));
                    assert(!s0.contains(c)) by {
                        if s0.contains(c) {
                            let w = choose|w: int| 0 <= w < s0.len() && s0[w] == c;
                            assert(node.children@[w] == c);
                        }
                    }
                    assert forall|x: Handle| #[trigger] s1.contains(x) implies self.contains(x) && 0 < self.index_of(x)
                        && self.parent_of(self.index_of(x)) == i by {
                        if x != c {
                            let w = choose|w: int| 0 <= w < s1.len() && s1[w] == x;
                            assert(s0[w] == x);
                            assert(s0.contains(x));
                        }
                    }
                }
                t += 1;
            }
            match node.next {
                Some(c) => {
                    let j = match self.find(c) {
                        Some(j) => j,
                        None => {
                            assert(!self.links_ok_at(i as int));
                            return false;
                        },
                    };
                    if j == 0 || self.parents[j] != i {
                        assert(!self.links_ok_at(i as int));
                        return false;
                    }
                },
                None => {},
            }
            proof {
                assert(node.children@.subrange(0, node.children@.len() as int) =~= node.children@);
                assert(self.links_ok_at(i as int));
            }
            i += 1;
        }
        proof {
            self.lemma_links_ok();
        }
        true
    }

    /// Appends node `node` with handle `h` under position `p`, nothing cached,
    /// links left for later.
    fn push_node(&mut self, h: Handle, node: MultiverseNode<P>, p: usize)
        requires
            old(self).wf_tree(),
            p < old(self).len(),
            old(self).len() + 1 < usize::MAX,
            !old(self).contains(h),
            !old(self).cache_in_use(node.universe),
            node.parent == Some(old(self).ids()[p as int]),
        ensures
            final(self).wf_tree(),
            final(self).root() == old(self).root(),
            final(self).ids() == old(self).ids().push(h),
            final(self).nodes() == old(self).nodes().push(node),
            final(self).parents() == old(self).parents().push(p),
            final(self).cached() == old(self).cached().push(false),
            forall|g: Handle| #[trigger] old(self).contains(g) ==> final(self).index_of(g) == old(self).index_of(g),
            final(self).index_of(h) == old(self).len(),
    {
        let ghost o = *self;
        self.ids.push(h);
        self.nodes.push(node);
        self.parents.push(p);
        self.cached.push(false);
        proof {
            let n = o.len();
            assert(self.ids() =~= o.ids().push(h));
            assert forall|a: int|
                0 < a < self.len() implies #[trigger] self.parent_of(a) < a && self.nodes()[a].parent == Some(
                    self.ids()[self.parent_of(a)],
                ) by {
                if a < n {
                    assert(o.parent_of(a) < a);
                }
            }
            assert forall|a: int, b: int|
                0 <= a < self.len() && 0 <= b < self.len() && #[trigger] self.ids()[a]
                    == #[trigger] self.ids()[b] implies a == b by {
                if a == n && b < n {
                    assert(o.ids()[b] == h);
                } else if b == n && a < n {
                    assert(o.ids()[a] == h);
                }
            }
            assert forall|a: int, b: int|
                0 <= a < self.len() && 0 <= b < self.len() && #[trigger] self.nodes()[a].universe
                    == #[trigger] self.nodes()[b].universe implies a == b by {
                if a == n && b < n {
                    assert(o.nodes()[b].universe == node.universe);
                } else if b == n && a < n {
                    assert(o.nodes()[a].universe == node.universe);
                }
            }
            assert forall|g: Handle| #[trigger] o.contains(g) implies self.index_of(g) == o.index_of(g) by {
                let a = o.index_of(g);
                assert(self.ids()[a] == g);
                let b = self.index_of(g);
                assert(self.ids()[b] == g);
            }
            assert(self.ids()[n] == h);
        }
    }

    /// `entries` lists the nodes of the well-formed graph `g`, each once, in
    /// some order: what a store holding exactly that graph gives back.
    pub open spec fn lists_graph(entries: Seq<(Handle, MultiverseNode<P>)>, g: Self) -> bool {
        &&& g.wf()
        &&& forall|e: int|
            0 <= e < entries.len() ==> g.contains(#[trigger] entries[e].0) && g.nodes()[g.index_of(entries[e].0)]
                == entries[e].1
        &&& forall|x: int| 0 <= x < g.len() ==> exists|e: int| 0 <= e < entries.len() && entries[e].0 == #[trigger] g.ids()[x]
        &&& forall|e: int, f: int|
            0 <= e < entries.len() && 0 <= f < entries.len() && #[trigger] entries[e].0 == #[trigger] entries[f].0 ==> e == f
    }

    /// When the entries list `g` and every entry still pending has a parent
    /// missing from the arena `m`, no entry is pending: following parents
    /// from a pending entry would reach the root entry, which was taken.
    proof fn lemma_none_stuck(
        orig: Seq<(Handle, MultiverseNode<P>)>,
        g: Self,
        pending: Seq<Option<(Handle, MultiverseNode<P>)>>,
        m: Self,
        root_slot: int,
        gi: int,
    )
        requires
            Self::lists_graph(orig, g),
            pending.len() == orig.len(),
            0 <= gi < g.len(),
            0 <= root_slot < orig.len(),
            pending[root_slot] is None,
            orig[orig.len() - 1 - root_slot].1.parent is None,
            forall|j: int| 0 <= j < orig.len() && (#[trigger] pending[j]) is None ==> m.contains(orig[orig.len() - 1 - j].0),
            forall|j: int| 0 <= j < orig.len() && (#[trigger] pending[j]) is Some ==> pending[j] == Some(orig[orig.len() - 1 - j]),
            forall|j: int|
                0 <= j < orig.len() && (#[trigger] pending[j]) is Some && (pending[j]->0).1.parent is Some ==> !m.contains(
                    ((pending[j]->0).1.parent->0),
                ),
        ensures
            forall|e: int| 0 <= e < orig.len() && #[trigger] orig[e].0 == g.ids()[gi] ==> pending[orig.len() - 1 - e] is None,
        decreases gi,
    {
        let n = orig.len();
        assert forall|e: int| 0 <= e < n && #[trigger] orig[e].0 == g.ids()[gi] implies pending[n - 1 - e] is None by {
            if pending[n - 1 - e] is Some {
                assert(g.index_of(orig[e].0) == gi);
                assert(orig[e].1 == g.nodes()[gi]);
                if gi == 0 {
                    let r = n - 1 - root_slot;
                    let gr = g.index_of(orig[r].0);
                    assert(g.nodes()[gr].parent is None);
                    if gr > 0 {
                        assert(g.parent_of(gr) < gr);
                    }
                    assert(g.ids()[gr] == orig[r].0);
                    assert(orig[r].0 == orig[e].0);
                } else {
                    let gp = g.parent_of(gi);
                    assert(gp < gi);
                    let ph = g.ids()[gp];
                    assert(g.nodes()[gi].parent == Some(ph));
                    let f = choose|f: int| 0 <= f < n && orig[f].0 == #[trigger] g.ids()[gp];
                    Self::lemma_none_stuck(orig, g, pending, m, root_slot, gp);
                    assert(pending[n - 1 - f] is None);
                    assert(orig[n - 1 - (n - 1 - f)].0 == ph);
                }
            }
        }
    }

    /// When the entries list `g` and the arena `m` holds every entry, the
    /// links of `m` are those of `g`, hence consistent.
    proof fn lemma_listed_links(orig: Seq<(Handle, MultiverseNode<P>)>, g: Self, m: Self, from: Seq<int>)
        requires
            Self::lists_graph(orig, g),
            m.wf_tree(),
            forall|e: int|
                0 <= e < orig.len() ==> m.contains(#[trigger] orig[e].0) && m.nodes()[m.index_of(orig[e].0)] == orig[e].1,
            from.len() == m.len(),
            forall|x: int| 0 <= x < m.len() ==> 0 <= #[trigger] from[x] < orig.len() && orig[from[x]].0 == m.ids()[x],
        ensures
            forall|i: int| 0 <= i < m.len() ==> #[trigger] m.links_ok_at(i),
    {
        assert forall|i: int| 0 <= i < m.len() implies #[trigger] m.links_ok_at(i) by {
            let e = from[i];
            let h = orig[e].0;
            assert(m.ids()[m.index_of(h)] == h);
            assert(m.index_of(h) == i);
            let gi = g.index_of(h);
            assert(g.ids()[gi] == h);
            let node = m.nodes()[i];
            assert(node == g.nodes()[gi]);
            assert forall|c: Handle| #[trigger] node.children@.contains(c) implies m.contains(c) && 0 < m.index_of(c)
                && m.parent_of(m.index_of(c)) == i by {
                assert(g.nodes()[gi].children@.contains(c));
                let gj = g.index_of(c);
                assert(g.ids()[gj] == c);
                assert(g.nodes()[gi].children@.contains(g.ids()[gj]));
                let f = choose|f: int| 0 <= f < orig.len() && orig[f].0 == #[trigger] g.ids()[gj];
                assert(m.contains(orig[f].0));
                let mj = m.index_of(c);
                assert(m.ids()[mj] == c);
                assert(m.nodes()[mj] == g.nodes()[gj]);
                assert(g.nodes()[gj].parent == Some(h));
                if mj > 0 {
                    let mp = m.parent_of(mj);
                    assert(m.ids()[mp] == h);
                }
            }
            if node.next is Some {
                let c = node.next->0;
                let gj = g.index_of(c);
                assert(g.ids()[gj] == c);
                assert(g.nodes()[gi].next == Some(g.ids()[gj]));
                let f = choose|f: int| 0 <= f < orig.len() && orig[f].0 == #[trigger] g.ids()[gj];
                assert(m.contains(orig[f].0));
                let mj = m.index_of(c);
                assert(m.ids()[mj] == c);
                assert(m.nodes()[mj] == g.nodes()[gj]);
                if mj > 0 {
                    let mp = m.parent_of(mj);
                    assert(m.ids()[mp] == h);
                }
            }
        }
    }

    /// Rebuilds a graph from stored `(handle, node)` entries, given in any
    /// order, and the cache handles whose states are stored. `Ok(None)` when
    /// there is no entry. A node counts as cached when its state is stored and
    /// its parent counts as cached. On success every entry is a node of the
    /// graph with its data unchanged, and every node comes from an entry.
    /// Entries that list a well-formed graph always load; a failure is
    /// `Malformed`.
    pub fn load(entries: Vec<(Handle, MultiverseNode<P>)>, present: Vec<Handle>) -> (r: Result<Option<Multiverse<P>>, GraphError>)
        ensures
            r matches Ok(None) <==> entries@.len() == 0,
            r is Err ==> r == Err::<Option<Multiverse<P>>, GraphError>(GraphError::Malformed),
            entries@.len() < usize::MAX && (exists|g: Self| #[trigger] Self::lists_graph(entries@, g)) ==> r is Ok,
            r matches Ok(Some(m)) ==> {
                &&& m.wf()
                &&& forall|e: int|
                    0 <= e < entries@.len() ==> m.contains(#[trigger] entries@[e].0) && m.nodes()[m.index_of(
                        entries@[e].0,
                    )] == entries@[e].1
                &&& forall|x: int|
                    0 <= x < m.len() ==> exists|e: int| 0 <= e < entries@.len() && entries@[e].0 == #[trigger] m.ids()[x]
                &&& forall|x: int|
                    0 <= x < m.len() ==> #[trigger] m.cached()[x] == (present@.contains(m.nodes()[x].universe) && (x == 0
                        || m.cached()[m.parent_of(x)]))
            },
    {
        let ghost orig = entries@;
        let ghost complete = orig.len() < usize::MAX && exists|g: Self| #[trigger] Self::lists_graph(orig, g);
        let ghost g = choose|g: Self| #[trigger] Self::lists_graph(orig, g);
        let n = entries.len();
        if n == 0 {
            return Ok(None);
        }
        let mut stock = entries;
        let mut pending: Vec<Option<(Handle, MultiverseNode<P>)>> = Vec::new();
        while stock.len() > 0
            invariant
                n == orig.len(),
                n > 0,
                orig == entries@,
                stock@ == orig.subrange(0, stock@.len() as int),
                pending@.len() == n - stock@.len(),
                forall|k: int| 0 <= k < pending@.len() ==> #[trigger] pending@[k] == Some(orig[n - 1 - k]),
            decreases stock@.len(),
        {
            match stock.pop() {
                Some(e) => pending.push(Some(e)),
                None => {},
            }
            assert(stock@ =~= orig.subrange(0, stock@.len() as int));
        }
        let mut root_k: usize = 0;
        let mut found = false;
        let mut k: usize = 0;
        while k < n
            invariant
                n == orig.len(),
                n > 0,
                orig == entries@,
                pending@.len() == n,
                forall|k: int| 0 <= k < n ==> #[trigger] pending@[k] == Some(orig[n - 1 - k]),
                k <= n,
                found ==> root_k < n && orig[n - 1 - root_k].1.parent is None,
                !found ==> forall|j: int| 0 <= j < k ==> (#[trigger] orig[n - 1 - j]).1.parent is Some,
            decreases n - k,
        {
            match &pending[k] {
                Some(e) => {
                    if e.1.parent.is_none() {
                        root_k = k;
                        found = true;
                    }
                },
                None => {},
            }
            k += 1;
        }
        if !found {
            proof {
                if complete {
                    let e0 = choose|e: int| 0 <= e < n && orig[e].0 == #[trigger] g.ids()[0];
                    assert(g.index_of(g.ids()[0]) == 0);
                    assert(orig[n - 1 - (n - 1 - e0)].1.parent is Some);
                }
            }
            return Err(GraphError::Malformed);
        }
        proof {
            lemma_count_none_full(pending@);
            lemma_count_none_take(pending@, root_k as int);
        }
        let (rh, rnode) = match pending[root_k].take() {
            Some(e) => e,
            None => return Err(GraphError::Malformed),
        };
        let mut m = Multiverse { root_node: rh, ids: Vec::new(), nodes: Vec::new(), parents: Vec::new(), cached: Vec::new() };
        m.ids.push(rh);
        m.nodes.push(rnode);
        m.parents.push(0);
        m.cached.push(false);
        let ghost mut from: Seq<int> = seq![n - 1 - root_k];
        proof {
            assert(m.ids()[0] == rh);
            assert(m.index_of(rh) == 0);
        }
        let mut progress = true;
        while progress
            invariant
                n == orig.len(),
                n > 0,
                orig == entries@,
                complete ==> Self::lists_graph(orig, g) && n < usize::MAX,
                complete == (orig.len() < usize::MAX && exists|g: Self| #[trigger] Self::lists_graph(orig, g)),
                pending@.len() == n,
                root_k < n,
                pending@[root_k as int] is None,
                orig[n - 1 - root_k].1.parent is None,
                m.wf_tree(),
                m.len() == count_none(pending@),
                forall|x: int| 0 <= x < m.len() ==> !#[trigger] m.cached()[x],
                forall|k: int| 0 <= k < n && (#[trigger] pending@[k]) is Some ==> pending@[k] == Some(orig[n - 1 - k]),
                forall|k: int|
                    0 <= k < n && (#[trigger] pending@[k]) is None ==> m.contains(orig[n - 1 - k].0)
                        && m.nodes()[m.index_of(orig[n - 1 - k].0)] == orig[n - 1 - k].1,
                from.len() == m.len(),
                forall|x: int|
                    0 <= x < m.len() ==> 0 <= #[trigger] from[x] < n && orig[from[x]].0 == m.ids()[x]
                        && pending@[n - 1 - from[x]] is None,
                !progress ==> forall|j: int|
                    0 <= j < n && (#[trigger] pending@[j]) is Some && (pending@[j]->0).1.parent is Some ==> !m.contains(
                        ((pending@[j]->0).1.parent->0),
                    ),
            decreases 2 * (n - m.len()) + (if progress { 1int } else { 0int }),
        {
            proof {
                lemma_count_none_le(pending@);
            }
            progress = false;
            let ghost start = m.len();
            let mut k: usize = 0;
            while k < n
                invariant
                    n == orig.len(),
                    n > 0,
                    orig == entries@,
                    complete ==> Self::lists_graph(orig, g) && n < usize::MAX,
                complete == (orig.len() < usize::MAX && exists|g: Self| #[trigger] Self::lists_graph(orig, g)),
                    pending@.len() == n,
                    root_k < n,
                    pending@[root_k as int] is None,
                    orig[n - 1 - root_k].1.parent is None,
                    k <= n,
                    m.wf_tree(),
                    m.len() == count_none(pending@),
                    m.len() >= start,
                    progress ==> m.len() > start,
                    !progress ==> m.len() == start,
                    forall|x: int| 0 <= x < m.len() ==> !#[trigger] m.cached()[x],
                    forall|k: int| 0 <= k < n && (#[trigger] pending@[k]) is Some ==> pending@[k] == Some(orig[n - 1 - k]),
                    forall|k: int|
                        0 <= k < n && (#[trigger] pending@[k]) is None ==> m.contains(orig[n - 1 - k].0)
                            && m.nodes()[m.index_of(orig[n - 1 - k].0)] == orig[n - 1 - k].1,
                    from.len() == m.len(),
                    forall|x: int|
                        0 <= x < m.len() ==> 0 <= #[trigger] from[x] < n && orig[from[x]].0 == m.ids()[x]
                            && pending@[n - 1 - from[x]] is None,
                    !progress ==> forall|j: int|
                        0 <= j < k && (#[trigger] pending@[j]) is Some && (pending@[j]->0).1.parent is Some ==> !m.contains(
                            ((pending@[j]->0).1.parent->0),
                        ),
                decreases n - k,
            {
                let ready = match &pending[k] {
                    Some(e) => match e.1.parent {
                        Some(ph) => m.find(ph),
                        None => None,
                    },
                    None => None,
                };
                match ready {
                    Some(pi) => {
                        let ghost before = pending@;
                        proof {
                            lemma_count_none_take(before, k as int);
                        }
                        let (h, node) = match pending[k].take() {
                            Some(e) => e,
                            None => return Err(GraphError::Malformed),
                        };
                        proof {
                            assert(pending@ == before.update(k as int, None));
                            assert(h == orig[n - 1 - k].0 && node == orig[n - 1 - k].1);
                            assert(complete ==> !m.contains(h) && !m.cache_in_use(node.universe) && m.len() + 1 < usize::MAX) by {
                                if complete {
                                    assert(m.len() + 1 < usize::MAX);
                                    if m.contains(h) {
                                        let x = m.index_of(h);
                                        assert(m.ids()[x] == h);
                                        assert(orig[from[x]].0 == orig[n - 1 - k].0);
                                        assert(from[x] == n - 1 - k);
                                        assert(before[k as int] is None);
                                        assert(false);
                                    }
                                    if m.cache_in_use(node.universe) {
                                        let x = choose|x: int| 0 <= x < m.len() && #[trigger] m.nodes()[x].universe == node.universe;
                                        let e = from[x];
                                        assert(m.ids()[x] == orig[e].0);
                                        assert(before[n - 1 - e] is None);
                                        assert(m.index_of(orig[e].0) == x);
                                        let ga = g.index_of(orig[e].0);
                                        let gb = g.index_of(h);
                                        assert(g.nodes()[ga].universe == g.nodes()[gb].universe);
                                        assert(g.ids()[ga] == orig[e].0);
                                        assert(g.ids()[gb] == h);
                                        assert(ga == gb);
                                        assert(e == n - 1 - k);
                                        assert(before[k as int] is None);
                                        assert(false);
                                    }
                                }
                            }
                        }
                        if m.ids.len() >= usize::MAX - 1 || m.find(h).is_some() || m.find_cache(node.universe) {
                            return Err(GraphError::Malformed);
                        }
                        let ghost mb = m;
                        m.push_node(h, node, pi);
                        proof {
                            from = from.push(n - 1 - k);
                            assert forall|j: int|
                                0 <= j < n && (#[trigger] pending@[j]) is None implies m.contains(orig[n - 1 - j].0)
                                    && m.nodes()[m.index_of(orig[n - 1 - j].0)] == orig[n - 1 - j].1 by {
                                if j == k {
                                    assert(m.ids()[mb.len()] == h);
                                } else {
                                    assert(before[j] is None);
                                    let g0 = orig[n - 1 - j].0;
                                    let a = mb.index_of(g0);
                                    assert(mb.ids()[a] == g0);
                                    assert(m.ids()[a] == g0);
                                }
                            }
                            assert forall|j: int| 0 <= j < n && (#[trigger] pending@[j]) is Some implies pending@[j] == Some(orig[n - 1 - j]) by {
                                assert(before[j] == pending@[j]);
                            }
                            assert forall|x: int|
                                0 <= x < m.len() implies 0 <= #[trigger] from[x] < n && orig[from[x]].0 == m.ids()[x]
                                    && pending@[n - 1 - from[x]] is None by {
                                if x < mb.len() {
                                    assert(m.ids()[x] == mb.ids()[x]);
                                }
                            }
                        }
                        progress = true;
                    },
                    None => {},
                }
                k += 1;
            }
            proof {
                lemma_count_none_le(pending@);
            }
        }
        let mut k: usize = 0;
        while k < n
            invariant
                n == orig.len(),
                n > 0,
                orig == entries@,
                complete ==> Self::lists_graph(orig, g) && n < usize::MAX,
                complete == (orig.len() < usize::MAX && exists|g: Self| #[trigger] Self::lists_graph(orig, g)),
                pending@.len() == n,
                root_k < n,
                pending@[root_k as int] is None,
                orig[n - 1 - root_k].1.parent is None,
                forall|k: int| 0 <= k < n && (#[trigger] pending@[k]) is Some ==> pending@[k] == Some(orig[n - 1 - k]),
                forall|k: int|
                    0 <= k < n && (#[trigger] pending@[k]) is None ==> m.contains(orig[n - 1 - k].0)
                        && m.nodes()[m.index_of(orig[n - 1 - k].0)] == orig[n - 1 - k].1,
                forall|j: int|
                    0 <= j < n && (#[trigger] pending@[j]) is Some && (pending@[j]->0).1.parent is Some ==> !m.contains(
                        ((pending@[j]->0).1.parent->0),
                    ),
                k <= n,
                forall|j: int| 0 <= j < k ==> (#[trigger] pending@[j]) is None,
            decreases n - k,
        {
            if pending[k].is_some() {
                proof {
                    if complete {
                        let e = n - 1 - k;
                        assert(g.contains(orig[e].0));
                        let gi = g.index_of(orig[e].0);
                        assert(g.ids()[gi] == orig[e].0);
                        Self::lemma_none_stuck(orig, g, pending@, m, root_k as int, gi);
                        assert(pending@[n - 1 - e] is None);
                        assert(false);
                    }
                }
                return Err(GraphError::Malformed);
            }
            k += 1;
        }
        proof {
            assert forall|e: int| 0 <= e < orig.len() implies m.contains(#[trigger] orig[e].0) && m.nodes()[m.index_of(orig[e].0)] == orig[e].1 by {
                let j = n - 1 - e;
                assert(pending@[j] is None);
            }
            if complete {
                Self::lemma_listed_links(orig, g, m, from);
            }
        }
        if !m.links_consistent() {
            return Err(GraphError::Malformed);
        }
        let ghost mt = m;
        let mut x: usize = 0;
        while x < m.nodes.len()
            invariant
                m.same_graph(&mt),
                m.wf_tree(),
                mt.wf_links(),
                x <= m.len(),
                forall|y: int| 0 <= y < x ==> #[trigger] m.cached()[y] == (present@.contains(m.nodes()[y].universe) && (y == 0
                    || m.cached()[m.parent_of(y)])),
                forall|y: int| x <= y < m.len() ==> !#[trigger] m.cached()[y],
            decreases m.len() - x,
        {
            let here = contains_handle(&present, m.nodes[x].universe);
            proof {
                if x > 0 {
                    assert(m.parent_of(x as int) < x);
                }
            }
            let up = x == 0 || m.cached[m.parents[x]];
            let ghost mb = m;
            m.cached.set(x, here && up);
            proof {
                assert forall|a: int|
                    0 < a < m.len() implies #[trigger] m.parent_of(a) < a && m.nodes()[a].parent == Some(
                        m.ids()[m.parent_of(a)],
                    ) by {
                    assert(mb.parent_of(a) < a);
                }
                assert forall|y: int| 0 <= y < x + 1 implies #[trigger] m.cached()[y] == (present@.contains(m.nodes()[y].universe) && (y == 0
                    || m.cached()[m.parent_of(y)])) by {
                    if y < x {
                        assert(mb.cached()[y] == m.cached()[y]);
                        if y > 0 {
                            assert(mb.parent_of(y) < y);
                        }
                    }
                }
            }
            x += 1;
        }
        proof {
            assert(m.wf_links());
            assert forall|e: int|
                0 <= e < orig.len() implies m.contains(#[trigger] orig[e].0) && m.nodes()[m.index_of(orig[e].0)] == orig[e].1 by {
                let j = n - 1 - e;
                assert(pending@[j] is None);
            }
            assert forall|y: int| 0 <= y < m.len() implies exists|e: int| 0 <= e < orig.len() && orig[e].0 == #[trigger] m.ids()[y] by {
                assert(orig[from[y]].0 == m.ids()[y]);
            }
        }
        Ok(Some(m))
    }
}

impl<P> MultiverseNode<P> {
    /// The handles of this node's ancestors, nearest first: the parent, its
    /// parent, and so on up to the root. Empty for the root and for a node
    /// whose parent is not in `multiverse`.
    pub fn get_lineage(&self, multiverse: &Multiverse<P>) -> (r: Vec<Handle>)
        requires
            multiverse.wf(),
        ensures
            self.parent is None ==> r@.len() == 0,
            self.parent matches Some(p) ==> !multiverse.contains(p) ==> r@.len() == 0,
            self.parent matches Some(p) ==> multiverse.contains(p) ==> {
                let pi = multiverse.index_of(p);
                &&& r@.len() == multiverse.depth(pi) + 1
                &&& r@[0] == p
                &&& r@.last() == multiverse.root()
                &&& forall|k: int| 0 <= k < r@.len() ==> #[trigger] r@[k] == multiverse.ids()[multiverse.ancestor(pi, k as nat)]
            },
    {
        let p = match self.parent {
            Some(p) => p,
            None => return Vec::new(),
        };
        let pi = match multiverse.find(p) {
            Some(pi) => pi,
            None => return Vec::new(),
        };
        let mut r: Vec<Handle> = Vec::new();
        let mut j: usize = pi;
        let mut done = false;
        while !done
            invariant
                multiverse.wf(),
                pi < multiverse.len(),
                j < multiverse.len(),
                !done ==> j as int == multiverse.ancestor(pi as int, r@.len() as nat),
                !done ==> multiverse.depth(j as int) + r@.len() == multiverse.depth(pi as int),
                done ==> r@.len() == multiverse.depth(pi as int) + 1 && j == 0 && r@.len() > 0
                    && r@.last() == multiverse.ids()[0],
                forall|k: int| 0 <= k < r@.len() ==> #[trigger] r@[k] == multiverse.ids()[multiverse.ancestor(pi as int, k as nat)],
            decreases j + (if done { 0int } else { 1int }),
        {
            let ghost t = r@.len();
            r.push(multiverse.ids[j]);
            if j == 0 {
                done = true;
            } else {
                proof {
                    assert(multiverse.parent_of(j as int) < j);
                    assert(multiverse.ancestor(pi as int, (t + 1) as nat) == multiverse.parent_of(j as int));
                }
                j = multiverse.parents[j];
            }
        }
        proof {
            assert(multiverse.ids()[multiverse.ancestor(pi as int, 0)] == p);
            assert(r@.last() == multiverse.ids()[0]);
        }
        r
    }

    /// This node's parent, when it is in `multiverse`.
    pub fn get_parent<'a>(&self, multiverse: &'a Multiverse<P>) -> (r: Option<&'a MultiverseNode<P>>)
        requires
            multiverse.wf(),
        ensures
            self.parent is None ==> r is None,
            self.parent matches Some(p) ==> (r is None <==> !multiverse.contains(p)),
            self.parent matches Some(p) ==> r matches Some(n) ==> *n == multiverse.nodes()[multiverse.index_of(p)],
    {
        match self.parent {
            Some(p) => multiverse.get_node(&p),
            None => None,
        }
    }
}

/// Whether `h` is listed in `v`.
fn contains_handle(v: &Vec<Handle>, h: Handle) -> (r: bool)
    ensures
        r == v@.contains(h),
{
    let mut k: usize = 0;
    while k < v.len()
        invariant
            k <= v@.len(),
            forall|t: int| 0 <= t < k ==> v@[t] != h,
        decreases v@.len() - k,
    {
        if v[k] == h {
            return true;
        }
        k += 1;
    }
    false
}

/// Number of empty slots in `s`.
spec fn count_none<T>(s: Seq<Option<T>>) -> nat
    decreases s.len(),
{
    if s.len() == 0 {
        0
    } else {
        count_none(s.drop_last()) + if s.last() is None {
            1nat
        } else {
            0nat
        }
    }
}

proof fn lemma_count_none_le<T>(s: Seq<Option<T>>)
    ensures
        count_none(s) <= s.len(),
    decreases s.len(),
{
    if s.len() > 0 {
        lemma_count_none_le(s.drop_last());
    }
}

proof fn lemma_count_none_full<T>(s: Seq<Option<T>>)
    requires
        forall|k: int| 0 <= k < s.len() ==> (#[trigger] s[k]) is Some,
    ensures
        count_none(s) == 0,
    decreases s.len(),
{
    if s.len() > 0 {
        assert(s.last() is Some);
        lemma_count_none_full(s.drop_last());
    }
}

/// Emptying a full slot adds one empty slot; a full slot leaves room.
proof fn lemma_count_none_take<T>(s: Seq<Option<T>>, k: int)
    requires
        0 <= k < s.len(),
        s[k] is Some,
    ensures
        count_none(s.update(k, None)) == count_none(s) + 1,
        count_none(s) < s.len(),
    decreases s.len(),
{
    let t = s.update(k, None);
    if k == s.len() - 1 {
        assert(t.drop_last() =~= s.drop_last());
        lemma_count_none_le(s.drop_last());
    } else {
        lemma_count_none_take(s.drop_last(), k);
        assert(t.drop_last() =~= s.drop_last().update(k, None));
    }
}

/// `c` with every position listed in `s` set.
spec fn marked(c: Seq<bool>, s: Seq<int>) -> Seq<bool>
    decreases s.len(),
{
    if s.len() == 0 {
        c
    } else {
        marked(c, s.drop_last()).update(s.last(), true)
    }
}

proof fn lemma_marked(c: Seq<bool>, s: Seq<int>, x: int)
    requires
        0 <= x < c.len(),
        forall|t: int| 0 <= t < s.len() ==> 0 <= #[trigger] s[t] < c.len(),
    ensures
        marked(c, s).len() == c.len(),
        marked(c, s)[x] == (c[x] || s.contains(x)),
    decreases s.len(),
{
    if s.len() > 0 {
        let d = s.drop_last();
        assert forall|t: int| 0 <= t < d.len() implies 0 <= #[trigger] d[t] < c.len() by {
            assert(d[t] == s[t]);
        }
        lemma_marked(c, d, x);
        lemma_marked(c, d, s.last());
        if d.contains(x) {
            let w = choose|w: int| 0 <= w < d.len() && d[w] == x;
            assert(s[w] == x);
        }
        if s.contains(x) && x != s.last() {
            let w = choose|w: int| 0 <= w < s.len() && s[w] == x;
            assert(d[w] == x);
        }
    }
}

} // verus!
