use vstd::prelude::*;

verus! {

/// A handle on a node slot of an [`Arena`].
///
/// Held by a graph or a caller, a handle stands for one strong owner of the
/// node (see [`Arena::share`] and [`Arena::release`]). Held in a node's
/// neighbour list it is a weak reference: it no longer resolves once the node
/// it points at has been destroyed.
#[derive(Clone, Copy, Debug, PartialEq, Eq, Structural)]
pub struct NodeRef {
    pub index: usize,
}

/// A vertex: its name, its payload and the handles of its neighbours, in the
/// order in which the edges were added.
pub struct Node<T> {
    vertex_name: i32,
    value: T,
    neighbors: Vec<NodeRef>,
}

struct Slot<T> {
    node: Option<Node<T>>,
    strong: usize,
}

/// The store that owns every node. A node lives while its count of strong
/// owners is positive; its slot is never reused, so a stale handle stays stale.
pub struct Arena<T> {
    slots: Vec<Slot<T>>,
}

impl<T> Node<T> {
    pub closed spec fn name(&self) -> i32 {
        self.vertex_name
    }

    pub closed spec fn data(&self) -> T {
        self.value
    }

    pub closed spec fn adjacent(&self) -> Seq<NodeRef> {
        self.neighbors@
    }

    /// Allocates a node with the given name and payload and no neighbours,
    /// and returns the one strong handle on it.
    pub fn new(arena: &mut Arena<T>, vertex_name: i32, value: T) -> (r: NodeRef)
        requires
            old(arena).wf(),
        ensures
            final(arena).wf(),
            r.index == old(arena).size(),
            final(arena).size() == old(arena).size() + 1,
            final(arena).live(r),
            final(arena).node(r).name() == vertex_name,
            final(arena).node(r).data() == value,
            final(arena).node(r).adjacent() == Seq::<NodeRef>::empty(),
            final(arena).strong(r) == 1,
            final(arena).agrees_except(*old(arena), r),
    {
        let node = Node { vertex_name, value, neighbors: Vec::new() };
        let r = NodeRef { index: arena.slots.len() };
        arena.slots.push(Slot { node: Some(node), strong: 1 });
        r
    }

    /// The name of this vertex.
    pub fn vertex_name(&self) -> (r: i32)
        ensures
            r == self.name(),
    {
        self.vertex_name
    }

    /// The payload of this vertex.
    pub fn value(&self) -> (r: &T)
        ensures
            *r == self.data(),
    {
        &self.value
    }

    /// Renames this vertex; nothing checks that the name is unused.
    pub fn set_vertex_name(&mut self, vertex_name: i32)
        ensures
            final(self).name() == vertex_name,
            final(self).data() == old(self).data(),
            final(self).adjacent() == old(self).adjacent(),
    {
        self.vertex_name = vertex_name;
    }

    /// The neighbour handles, in the order in which the edges were added.
    /// Some of them may no longer resolve.
    pub fn neighbors(&self) -> (r: &Vec<NodeRef>)
        ensures
            r@ == self.adjacent(),
    {
        &self.neighbors
    }
}

/// Two nodes are equal when their names are, whatever their payloads and
/// neighbours.
impl<T> PartialEq for Node<T> {
    fn eq(&self, other: &Self) -> (r: bool)
        ensures
            r == (self.name() == other.name()),
    {
        self.vertex_name == other.vertex_name
    }
}

impl<T> vstd::std_specs::cmp::PartialEqSpecImpl for Node<T> {
    open spec fn obeys_eq_spec() -> bool {
        true
    }

    open spec fn eq_spec(&self, other: &Self) -> bool {
        self.name() == other.name()
    }
}

impl<T> Arena<T> {
    /// The number of slots ever allocated.
    pub closed spec fn size(&self) -> nat {
        self.slots@.len()
    }

    /// The node a handle points at, if it is still alive.
    pub closed spec fn resolve(&self, r: NodeRef) -> Option<Node<T>> {
        if r.index < self.slots@.len() {
            self.slots@[r.index as int].node
        } else {
            None
        }
    }

    /// The number of strong owners of the node a handle points at.
    pub closed spec fn strong(&self, r: NodeRef) -> nat {
        if r.index < self.slots@.len() {
            self.slots@[r.index as int].strong as nat
        } else {
            0
        }
    }

    /// A node is alive exactly while it has a strong owner.
    pub closed spec fn wf(&self) -> bool {
        forall|i: int|
            0 <= i < self.slots@.len() ==> (#[trigger] self.slots@[i].node is Some <==> self.slots@[i].strong > 0)
    }

    pub open spec fn live(&self, r: NodeRef) -> bool {
        self.resolve(r) is Some
    }

    pub open spec fn node(&self, r: NodeRef) -> Node<T> {
        self.resolve(r)->Some_0
    }

    pub open spec fn name_of(&self, r: NodeRef) -> i32 {
        self.node(r).name()
    }

    pub open spec fn adjacent_of(&self, r: NodeRef) -> Seq<NodeRef> {
        self.node(r).adjacent()
    }

    /// Every slot but the one of `r` is as in `other`.
    pub open spec fn agrees_except(&self, other: Self, r: NodeRef) -> bool {
        forall|o: NodeRef|
            o != r ==> #[trigger] self.resolve(o) == other.resolve(o) && self.strong(o) == other.strong(o)
    }

    /// An arena with no nodes.
    pub fn new() -> (a: Self)
        ensures
            a.wf(),
            a.size() == 0,
            forall|r: NodeRef| !a.live(r),
    {
        Arena { slots: Vec::new() }
    }

    /// Resolves a handle: the node it points at, or `None` once that node
    /// has been destroyed (or for a handle this arena never gave out).
    pub fn get(&self, r: NodeRef) -> (res: Option<&Node<T>>)
        ensures
            match res {
                Some(n) => self.resolve(r) == Some(*n),
                None => self.resolve(r) is None,
            },
    {
        if r.index < self.slots.len() {
            self.slots[r.index].node.as_ref()
        } else {
            None
        }
    }

    /// Takes one more strong handle on a live node, as cloning a shared
    /// pointer does.
    pub fn share(&mut self, r: NodeRef) -> (s: NodeRef)
        requires
            old(self).wf(),
            old(self).live(r),
            old(self).strong(r) < usize::MAX,
        ensures
            final(self).wf(),
            s == r,
            final(self).size() == old(self).size(),
            final(self).resolve(r) == old(self).resolve(r),
            final(self).strong(r) == old(self).strong(r) + 1,
            final(self).agrees_except(*old(self), r),
    {
        let i = r.index;
        self.slots[i].strong = self.slots[i].strong + 1;
        r
    }

    /// Gives up one strong handle. When it was the last one the node is
    /// destroyed, and every handle on it stops resolving.
    pub fn release(&mut self, r: NodeRef)
        requires
            old(self).wf(),
            old(self).live(r),
        ensures
            final(self).wf(),
            final(self).size() == old(self).size(),
            final(self).strong(r) == old(self).strong(r) - 1,
            old(self).strong(r) == 1 ==> !final(self).live(r),
            old(self).strong(r) > 1 ==> final(self).resolve(r) == old(self).resolve(r),
            final(self).agrees_except(*old(self), r),
    {
        let i = r.index;
        if self.slots[i].strong == 1 {
            self.slots[i].node = None;
        }
        self.slots[i].strong = self.slots[i].strong - 1;
    }

    /// Renames the live node that `r` points at.
    pub fn rename(&mut self, r: NodeRef, vertex_name: i32)
        requires
            old(self).wf(),
            old(self).live(r),
        ensures
            final(self).wf(),
            final(self).size() == old(self).size(),
            final(self).live(r),
            final(self).node(r).name() == vertex_name,
            final(self).node(r).data() == old(self).node(r).data(),
            final(self).adjacent_of(r) == old(self).adjacent_of(r),
            final(self).strong(r) == old(self).strong(r),
            final(self).agrees_except(*old(self), r),
    {
        let i = r.index;
        match &mut self.slots[i].node {
            Some(n) => n.set_vertex_name(vertex_name),
            None => {},
        }
    }

    fn push_neighbor(&mut self, at: NodeRef, to: NodeRef)
        requires
            old(self).wf(),
            old(self).live(at),
        ensures
            final(self).wf(),
            final(self).size() == old(self).size(),
            final(self).live(at),
            final(self).node(at).name() == old(self).node(at).name(),
            final(self).node(at).data() == old(self).node(at).data(),
            final(self).adjacent_of(at) == old(self).adjacent_of(at).push(to),
            final(self).strong(at) == old(self).strong(at),
            final(self).agrees_except(*old(self), at),
    {
        let i = at.index;
        match &mut self.slots[i].node {
            Some(n) => n.neighbors.push(to),
            None => {},
        }
    }
}

/// Breadth-first search, as spec functions over an arena.
impl<T> Arena<T> {
    /// Some node of `visited` has the name `name`.
    pub open spec fn has_name(&self, visited: Seq<NodeRef>, name: i32) -> bool {
        exists|k: int| 0 <= k < visited.len() && #[trigger] self.name_of(visited[k]) == name
    }

    /// Handles one neighbour handle: it is appended when it resolves to a node
    /// whose name no visited node has.
    pub open spec fn discover(&self, visited: Seq<NodeRef>, r: NodeRef) -> Seq<NodeRef> {
        if self.live(r) && !self.has_name(visited, self.name_of(r)) {
            visited.push(r)
        } else {
            visited
        }
    }

    /// Handles the first `k` handles of `nbrs`, in order.
    pub open spec fn discover_all(&self, visited: Seq<NodeRef>, nbrs: Seq<NodeRef>, k: int) -> Seq<
        NodeRef,
    >
        decreases k,
    {
        if k <= 0 {
            visited
        } else {
            self.discover(self.discover_all(visited, nbrs, k - 1), nbrs[k - 1])
        }
    }

    /// Expands the visited nodes from position `i` on. The nodes not yet
    /// expanded, `visited[i..]`, are exactly the queue of the search.
    pub open spec fn explore(&self, visited: Seq<NodeRef>, i: int) -> Seq<NodeRef>
        decreases self.size() - i,
    {
        if 0 <= i < visited.len() && i < self.size() {
            let nbrs = self.adjacent_of(visited[i]);
            self.explore(self.discover_all(visited, nbrs, nbrs.len() as int), i + 1)
        } else {
            visited
        }
    }

    /// The nodes that a breadth-first search from `start` visits, in the order
    /// of their discovery.
    pub open spec fn bfs_order(&self, start: NodeRef) -> Seq<NodeRef> {
        self.explore(seq![start], 0)
    }

    /// The nodes of `s` are alive and no two of them share a name.
    pub open spec fn distinct_live(&self, s: Seq<NodeRef>) -> bool {
        &&& forall|k: int| 0 <= k < s.len() ==> self.live(#[trigger] s[k])
        &&& forall|a: int, b: int|
            0 <= a < b < s.len() ==> #[trigger] self.name_of(s[a]) != #[trigger] self.name_of(s[b])
    }

    proof fn lemma_distinct_live_fits(&self, s: Seq<NodeRef>)
        requires
            self.distinct_live(s),
        ensures
            s.len() <= self.size(),
    {
        let idx = s.map_values(|r: NodeRef| r.index as int);
        assert(idx.no_duplicates()) by {
            assert forall|a: int, b: int| 0 <= a < idx.len() && 0 <= b < idx.len() && a != b implies idx[a]
                != idx[b] by {
                if a < b {
                    assert(self.name_of(s[a]) != self.name_of(s[b]));
                } else {
                    assert(self.name_of(s[b]) != self.name_of(s[a]));
                }
            }
        }
        idx.unique_seq_to_set();
        vstd::set_lib::lemma_int_range(0, self.size() as int);
        assert(idx.to_set().subset_of(vstd::set_lib::set_int_range(0, self.size() as int))) by {
            assert forall|x: int| idx.to_set().contains(x) implies 0 <= x < self.size() by {
                let k = choose|k: int| 0 <= k < idx.len() && idx[k] == x;
                assert(self.live(s[k]));
            }
        }
        vstd::set_lib::lemma_len_subset(idx.to_set(), vstd::set_lib::set_int_range(0, self.size() as int));
    }

    proof fn lemma_discover(&self, visited: Seq<NodeRef>, r: NodeRef)
        requires
            self.distinct_live(visited),
        ensures
            self.distinct_live(self.discover(visited, r)),
            self.discover(visited, r).len() >= visited.len(),
            self.discover(visited, r).subrange(0, visited.len() as int) == visited,
            self.live(r) ==> self.has_name(self.discover(visited, r), self.name_of(r)),
            forall|x: i32| self.has_name(visited, x) ==> self.has_name(self.discover(visited, r), x),
    {
        let v2 = self.discover(visited, r);
        assert(v2.subrange(0, visited.len() as int) =~= visited);
        assert forall|x: i32| self.has_name(visited, x) implies self.has_name(v2, x) by {
            let k = choose|k: int| 0 <= k < visited.len() && self.name_of(visited[k]) == x;
            assert(v2[k] == visited[k]);
        }
        if self.live(r) {
            if self.has_name(visited, self.name_of(r)) {
            } else {
                assert(v2[visited.len() as int] == r);
                assert forall|a: int, b: int| 0 <= a < b < v2.len() implies self.name_of(v2[a])
                    != self.name_of(v2[b]) by {
                    if b == visited.len() {
                        assert(v2[a] == visited[a]);
                    } else {
                        assert(v2[a] == visited[a]);
                        assert(v2[b] == visited[b]);
                    }
                }
            }
        }
    }

    proof fn lemma_discover_all(&self, visited: Seq<NodeRef>, nbrs: Seq<NodeRef>, k: int)
        requires
            self.distinct_live(visited),
            0 <= k <= nbrs.len(),
        ensures
            self.distinct_live(self.discover_all(visited, nbrs, k)),
            self.discover_all(visited, nbrs, k).len() >= visited.len(),
            self.discover_all(visited, nbrs, k).subrange(0, visited.len() as int) == visited,
            forall|j: int|
                0 <= j < k && self.live(#[trigger] nbrs[j]) ==> self.has_name(
                    self.discover_all(visited, nbrs, k),
                    self.name_of(nbrs[j]),
                ),
            forall|x: i32|
                self.has_name(visited, x) ==> self.has_name(self.discover_all(visited, nbrs, k), x),
        decreases k,
    {
        if k > 0 {
            let prev = self.discover_all(visited, nbrs, k - 1);
            self.lemma_discover_all(visited, nbrs, k - 1);
            self.lemma_discover(prev, nbrs[k - 1]);
            let next = self.discover_all(visited, nbrs, k);
            assert(next.subrange(0, visited.len() as int) =~= prev.subrange(0, visited.len() as int)) by {
                assert(next.subrange(0, prev.len() as int) == prev);
                assert forall|i: int| 0 <= i < visited.len() implies next[i] == prev[i] by {
                    assert(next.subrange(0, prev.len() as int)[i] == next[i]);
                }
            }
        }
    }
}

/// Paths, reachability and the properties of the search order.
impl<T> Arena<T> {
    /// `p` is a walk along edges between live nodes.
    pub open spec fn is_path(&self, p: Seq<NodeRef>) -> bool {
        &&& p.len() >= 1
        &&& forall|k: int| 0 <= k < p.len() ==> self.live(#[trigger] p[k])
        &&& forall|k: int| 0 <= k < p.len() - 1 ==> self.adjacent_of(#[trigger] p[k]).contains(p[k + 1])
    }

    /// `to` lies in the connected component of `from`.
    pub open spec fn reachable(&self, from: NodeRef, to: NodeRef) -> bool {
        exists|p: Seq<NodeRef>| #[trigger] self.is_path(p) && p[0] == from && p.last() == to
    }

    /// No two distinct nodes of the component of `start` share a name.
    pub open spec fn names_unique_from(&self, start: NodeRef) -> bool {
        forall|a: NodeRef, b: NodeRef|
            self.reachable(start, a) && self.reachable(start, b) && #[trigger] self.name_of(a)
                == #[trigger] self.name_of(b) ==> a == b
    }

    /// Every live neighbour of the first `i` nodes of `v` has its name in `v`.
    pub open spec fn expanded(&self, v: Seq<NodeRef>, i: int) -> bool {
        forall|k: int, j: int|
            0 <= k < i && 0 <= j < self.adjacent_of(v[k]).len() && self.live(
                #[trigger] self.adjacent_of(v[k])[j],
            ) ==> self.has_name(v, self.name_of(self.adjacent_of(v[k])[j]))
    }

    proof fn lemma_step_reaches(&self, start: NodeRef, from: NodeRef, j: int)
        requires
            self.reachable(start, from),
            0 <= j < self.adjacent_of(from).len(),
            self.live(self.adjacent_of(from)[j]),
        ensures
            self.reachable(start, self.adjacent_of(from)[j]),
    {
        let to = self.adjacent_of(from)[j];
        let p = choose|p: Seq<NodeRef>| #[trigger] self.is_path(p) && p[0] == start && p.last() == from;
        let q = p.push(to);
        assert(self.adjacent_of(from).contains(to));
        assert forall|k: int| 0 <= k < q.len() - 1 implies self.adjacent_of(#[trigger] q[k]).contains(
            q[k + 1],
        ) by {
            if k < p.len() - 1 {
                assert(q[k] == p[k] && q[k + 1] == p[k + 1]);
            }
        }
        assert(self.is_path(q));
    }

    proof fn lemma_discover_all_reaches(
        &self,
        start: NodeRef,
        from: NodeRef,
        visited: Seq<NodeRef>,
        k: int,
    )
        requires
            self.reachable(start, from),
            forall|m: int| 0 <= m < visited.len() ==> self.reachable(start, #[trigger] visited[m]),
            0 <= k <= self.adjacent_of(from).len(),
        ensures
            forall|m: int|
                0 <= m < self.discover_all(visited, self.adjacent_of(from), k).len() ==> self.reachable(
                    start,
                    #[trigger] self.discover_all(visited, self.adjacent_of(from), k)[m],
                ),
        decreases k,
    {
        if k > 0 {
            let nbrs = self.adjacent_of(from);
            self.lemma_discover_all_reaches(start, from, visited, k - 1);
            let prev = self.discover_all(visited, nbrs, k - 1);
            let next = self.discover_all(visited, nbrs, k);
            if next != prev {
                self.lemma_step_reaches(start, from, k - 1);
                assert forall|m: int| 0 <= m < next.len() implies self.reachable(start, #[trigger] next[m]) by {
                    if m < prev.len() {
                        assert(next[m] == prev[m]);
                    }
                }
            }
        }
    }

    proof fn lemma_explore(&self, start: NodeRef, v: Seq<NodeRef>, i: int)
        requires
            self.distinct_live(v),
            0 <= i <= v.len(),
            v.len() >= 1,
            v[0] == start,
            forall|m: int| 0 <= m < v.len() ==> self.reachable(start, #[trigger] v[m]),
            self.expanded(v, i),
        ensures
            self.distinct_live(self.explore(v, i)),
            self.explore(v, i).len() >= v.len(),
            self.explore(v, i)[0] == start,
            forall|m: int|
                0 <= m < self.explore(v, i).len() ==> self.reachable(start, #[trigger] self.explore(v, i)[m]),
            self.expanded(self.explore(v, i), self.explore(v, i).len() as int),
        decreases self.size() - i,
    {
        self.lemma_distinct_live_fits(v);
        if i < v.len() {
            let nbrs = self.adjacent_of(v[i]);
            let v2 = self.discover_all(v, nbrs, nbrs.len() as int);
            self.lemma_discover_all(v, nbrs, nbrs.len() as int);
            self.lemma_discover_all_reaches(start, v[i], v, nbrs.len() as int);
            assert forall|m: int| 0 <= m < v.len() implies v2[m] == v[m] by {
                assert(v2.subrange(0, v.len() as int)[m] == v2[m]);
            }
            assert(self.expanded(v2, i + 1)) by {
                assert forall|k: int, j: int|
                    0 <= k < i + 1 && 0 <= j < self.adjacent_of(v2[k]).len() && self.live(
                        #[trigger] self.adjacent_of(v2[k])[j],
                    ) implies self.has_name(v2, self.name_of(self.adjacent_of(v2[k])[j])) by {
                    assert(v2[k] == v[k]);
                    if k < i {
                        assert(self.has_name(v, self.name_of(self.adjacent_of(v[k])[j])));
                    }
                }
            }
            self.lemma_explore(start, v2, i + 1);
        }
    }

    proof fn lemma_bfs_order(&self, start: NodeRef)
        requires
            self.live(start),
        ensures
            self.distinct_live(self.bfs_order(start)),
            self.bfs_order(start).len() >= 1,
            self.bfs_order(start)[0] == start,
            forall|m: int|
                0 <= m < self.bfs_order(start).len() ==> self.reachable(start, #[trigger] self.bfs_order(start)[m]),
            self.expanded(self.bfs_order(start), self.bfs_order(start).len() as int),
    {
        let v = seq![start];
        assert(self.is_path(v));
        assert(self.reachable(start, start));
        self.lemma_explore(start, v, 0);
    }

    /// A search starts at its start node, and does not come back to it.
    pub proof fn lemma_bfs_start_first(&self, start: NodeRef)
        requires
            self.live(start),
        ensures
            self.bfs_order(start).len() >= 1,
            self.bfs_order(start)[0] == start,
            forall|k: int| 0 < k < self.bfs_order(start).len() ==> #[trigger] self.bfs_order(start)[k] != start,
    {
        self.lemma_bfs_order(start);
        let order = self.bfs_order(start);
        assert forall|k: int| 0 < k < order.len() implies #[trigger] order[k] != start by {
            assert(self.name_of(order[0]) != self.name_of(order[k]));
        }
    }

    /// Every node a search visits lies in the connected component of its start.
    pub proof fn lemma_bfs_within_component(&self, start: NodeRef)
        requires
            self.live(start),
        ensures
            forall|k: int|
                0 <= k < self.bfs_order(start).len() ==> self.reachable(start, #[trigger] self.bfs_order(start)[k]),
    {
        self.lemma_bfs_order(start);
    }

    /// A search never visits two nodes of one name, so never one node twice,
    /// however many parallel edges lead to it.
    pub proof fn lemma_bfs_names_distinct(&self, start: NodeRef)
        requires
            self.live(start),
        ensures
            forall|a: int, b: int|
                0 <= a < b < self.bfs_order(start).len() ==> #[trigger] self.name_of(self.bfs_order(start)[a])
                    != #[trigger] self.name_of(self.bfs_order(start)[b]),
            self.bfs_order(start).no_duplicates(),
    {
        self.lemma_bfs_order(start);
        let order = self.bfs_order(start);
        assert forall|a: int, b: int| 0 <= a < order.len() && 0 <= b < order.len() && a != b implies order[a]
            != order[b] by {
            if a < b {
                assert(self.name_of(order[a]) != self.name_of(order[b]));
            } else {
                assert(self.name_of(order[b]) != self.name_of(order[a]));
            }
        }
    }

    proof fn lemma_path_visited(&self, start: NodeRef, p: Seq<NodeRef>, m: int)
        requires
            self.live(start),
            self.names_unique_from(start),
            self.is_path(p),
            p[0] == start,
            0 <= m < p.len(),
        ensures
            self.bfs_order(start).contains(p[m]),
        decreases m,
    {
        self.lemma_bfs_order(start);
        let order = self.bfs_order(start);
        if m == 0 {
            assert(order[0] == p[0]);
        } else {
            self.lemma_path_visited(start, p, m - 1);
            let k = choose|k: int| 0 <= k < order.len() && order[k] == p[m - 1];
            let nbrs = self.adjacent_of(p[m - 1]);
            assert(nbrs.contains(p[m]));
            let j = choose|j: int| 0 <= j < nbrs.len() && nbrs[j] == p[m];
            assert(self.live(p[m]));
            assert(self.adjacent_of(order[k])[j] == p[m]);
            assert(self.has_name(order, self.name_of(p[m])));
            let k2 = choose|k2: int| 0 <= k2 < order.len() && #[trigger] self.name_of(order[k2]) == self.name_of(p[m]);
            let q = p.subrange(0, m + 1);
            assert(self.is_path(q) && q[0] == start && q.last() == p[m]) by {
                assert forall|t: int| 0 <= t < q.len() - 1 implies self.adjacent_of(#[trigger] q[t]).contains(
                    q[t + 1],
                ) by {
                    assert(q[t] == p[t] && q[t + 1] == p[t + 1]);
                }
            }
            assert(self.reachable(start, p[m]));
            assert(self.reachable(start, order[k2]));
            assert(order[k2] == p[m]);
        }
    }

    /// Where the names of the component of `start` are unique, a search
    /// visits every node of that component exactly once.
    pub proof fn lemma_bfs_visits_each_once(&self, start: NodeRef, r: NodeRef)
        requires
            self.live(start),
            self.names_unique_from(start),
            self.reachable(start, r),
        ensures
            self.bfs_order(start).contains(r),
            forall|a: int, b: int|
                0 <= a < self.bfs_order(start).len() && 0 <= b < self.bfs_order(start).len()
                    && #[trigger] self.bfs_order(start)[a] == r && #[trigger] self.bfs_order(start)[b] == r
                    ==> a == b,
    {
        let p = choose|p: Seq<NodeRef>| #[trigger] self.is_path(p) && p[0] == start && p.last() == r;
        self.lemma_path_visited(start, p, p.len() - 1);
        self.lemma_bfs_names_distinct(start);
    }

    /// A search visits live nodes only: a neighbour handle whose node has been
    /// destroyed is passed over.
    pub proof fn lemma_bfs_skips_destroyed(&self, start: NodeRef)
        requires
            self.live(start),
        ensures
            forall|k: int| 0 <= k < self.bfs_order(start).len() ==> self.live(#[trigger] self.bfs_order(start)[k]),
    {
        self.lemma_bfs_order(start);
    }
}

/// A graph: the handles on its nodes, in the order in which they were added.
/// Each entry stands for one strong owner of its node, so a node added twice
/// appears twice. Edges live in the nodes themselves.
pub struct Graph {
    nodes: Vec<NodeRef>,
}

impl View for Graph {
    type V = Seq<NodeRef>;

    closed spec fn view(&self) -> Seq<NodeRef> {
        self.nodes@
    }
}

impl Graph {
    /// A graph with no nodes.
    pub fn new() -> (g: Graph)
        ensures
            g@ == Seq::<NodeRef>::empty(),
    {
        Graph { nodes: Vec::new() }
    }

    /// Appends a strong handle to the graph's nodes. A node may be added more
    /// than once.
    pub fn add_node(&mut self, node: NodeRef)
        ensures
            final(self)@ == old(self)@.push(node),
    {
        self.nodes.push(node);
    }

    /// Joins two live nodes by an edge: each gets a handle on the other at the
    /// end of its neighbours. Neither needs to belong to a graph; a second call
    /// on the same pair adds a parallel edge, and a node may be joined to
    /// itself.
    pub fn add_edge<T>(arena: &mut Arena<T>, node0: NodeRef, node1: NodeRef)
        requires
            old(arena).wf(),
            old(arena).live(node0),
            old(arena).live(node1),
        ensures
            final(arena).wf(),
            final(arena).size() == old(arena).size(),
            final(arena).live(node0),
            final(arena).live(node1),
            final(arena).adjacent_of(node0).contains(node1),
            final(arena).adjacent_of(node1).contains(node0),
            node0 != node1 ==> final(arena).adjacent_of(node0) == old(arena).adjacent_of(node0).push(node1),
            node0 != node1 ==> final(arena).adjacent_of(node1) == old(arena).adjacent_of(node1).push(node0),
            node0 == node1 ==> final(arena).adjacent_of(node0) == old(arena).adjacent_of(node0).push(
                node0,
            ).push(node0),
            final(arena).node(node0).name() == old(arena).node(node0).name(),
            final(arena).node(node0).data() == old(arena).node(node0).data(),
            final(arena).node(node1).name() == old(arena).node(node1).name(),
            final(arena).node(node1).data() == old(arena).node(node1).data(),
            forall|o: NodeRef| #[trigger] final(arena).strong(o) == old(arena).strong(o),
            forall|o: NodeRef|
                o != node0 && o != node1 ==> #[trigger] final(arena).resolve(o) == old(arena).resolve(o),
    {
        let ghost before = *arena;
        arena.push_neighbor(node0, node1);
        let ghost middle = *arena;
        arena.push_neighbor(node1, node0);
        assert forall|o: NodeRef| #[trigger] arena.strong(o) == before.strong(o) by {
            assert(arena.resolve(o) == middle.resolve(o) || o == node1);
            assert(middle.resolve(o) == before.resolve(o) || o == node0);
        }
        assert(arena.adjacent_of(node0).last() == node1 || arena.adjacent_of(node0).last() == node0);
        assert(arena.adjacent_of(node1).last() == node0);
    }

    /// The graph's node handles, in the order in which they were added.
    pub fn nodes(&self) -> (r: &Vec<NodeRef>)
        ensures
            r@ == self@,
    {
        &self.nodes
    }

    /// The nodes of the graph from a breadth-first search from `start`, in
    /// the order of their discovery. A neighbour handle that no longer
    /// resolves is skipped, and a node is left out when a visited node has its
    /// name.
    pub fn bfs<T>(&self, arena: &Arena<T>, start: NodeRef) -> (visited: Vec<NodeRef>)
        requires
            arena.live(start),
        ensures
            visited@ == arena.bfs_order(start),
            visited@.len() >= 1,
            visited@[0] == start,
            arena.distinct_live(visited@),
    {
        let mut visited: Vec<NodeRef> = Vec::new();
        visited.push(start);
        let mut i: usize = 0;
        while i < visited.len()
            invariant
                arena.live(start),
                i <= visited@.len(),
                arena.distinct_live(visited@),
                arena.explore(visited@, i as int) == arena.bfs_order(start),
            decreases arena.size() - i,
        {
            proof {
                arena.lemma_distinct_live_fits(visited@);
            }
            let current = visited[i];
            let ghost before = visited@;
            match arena.get(current) {
                Some(node) => {
                    let nbrs = node.neighbors();
                    let mut j: usize = 0;
                    while j < nbrs.len()
                        invariant
                            j <= nbrs@.len(),
                            nbrs@ == arena.adjacent_of(current),
                            arena.distinct_live(before),
                            visited@ == arena.discover_all(before, nbrs@, j as int),
                        decreases nbrs@.len() - j,
                    {
                        proof {
                            arena.lemma_discover_all(before, nbrs@, j as int);
                        }
                        let nb = nbrs[j];
                        match arena.get(nb) {
                            Some(m) => {
                                if !Self::holds_name(arena, &visited, m) {
                                    visited.push(nb);
                                }
                            },
                            None => {},
                        }
                        j += 1;
                    }
                    proof {
                        arena.lemma_discover_all(before, nbrs@, nbrs@.len() as int);
                    }
                },
                None => {},
            }
            i += 1;
        }
        proof {
            arena.lemma_bfs_order(start);
        }
        visited
    }

    /// Whether a visited node equals `node`, that is, has its name.
    fn holds_name<T>(arena: &Arena<T>, visited: &Vec<NodeRef>, node: &Node<T>) -> (r: bool)
        requires
            forall|k: int| 0 <= k < visited@.len() ==> arena.live(#[trigger] visited@[k]),
        ensures
            r == arena.has_name(visited@, node.name()),
    {
        let mut k: usize = 0;
        while k < visited.len()
            invariant
                k <= visited@.len(),
                forall|k: int| 0 <= k < visited@.len() ==> arena.live(#[trigger] visited@[k]),
                forall|m: int| 0 <= m < k ==> #[trigger] arena.name_of(visited@[m]) != node.name(),
            decreases visited@.len() - k,
        {
            match arena.get(visited[k]) {
                Some(other) => {
                    if other.eq(node) {
                        assert(arena.name_of(visited@[k as int]) == node.name());
                        return true;
                    }
                },
                None => {},
            }
            k += 1;
        }
        false
    }
}

} // verus!
