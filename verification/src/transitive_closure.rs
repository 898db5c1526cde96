use vstd::prelude::*;
use vstd::set_lib::{lemma_int_range, set_int_range};

verus! {

/// A value that can take up the contents of another: a set, with union as
/// the way to combine.
pub trait Accumulate: Sized {
    /// What the set's members are.
    type Elem;

    /// The members.
    spec fn contents(&self) -> Set<Self::Elem>;

    /// The representation invariant.
    spec fn wf(&self) -> bool;

    /// Adds the members of `other`.
    fn absorb(&mut self, other: &Self)
        requires
            old(self).wf(),
            other.wf(),
        ensures
            final(self).wf(),
            final(self).contents() == old(self).contents().union(other.contents()),
    ;

    /// A copy with the same members.
    fn duplicate(&self) -> (copy: Self)
        requires
            self.wf(),
        ensures
            copy.wf(),
            copy.contents() == self.contents(),
    ;
}


/// Every successor listed in `g` is a node of `g`.
pub open spec fn graph_ok(g: Seq<Vec<usize>>) -> bool {
    forall|x: int, k: int|
        0 <= x < g.len() && 0 <= k < g[x]@.len() ==> (#[trigger] g[x]@[k]) < g.len()
}

/// `y` is listed among the successors of `x`.
pub open spec fn edge(g: Seq<Vec<usize>>, x: int, y: int) -> bool {
    0 <= x < g.len() && exists|k: int| 0 <= k < g[x]@.len() && #[trigger] g[x]@[k] == y
}

/// A path of exactly `n` edges leads from `x` to `y`.
pub open spec fn reach_in(g: Seq<Vec<usize>>, x: int, y: int, n: nat) -> bool
    decreases n,
{
    if n == 0 {
        x == y
    } else {
        exists|z: int| #[trigger] edge(g, x, z) && reach_in(g, z, y, (n - 1) as nat)
    }
}

/// Some path, possibly empty, leads from `x` to `y`.
pub open spec fn reaches(g: Seq<Vec<usize>>, x: int, y: int) -> bool {
    exists|n: nat| reach_in(g, x, y, n)
}

/// The union of the initial sets of all nodes reachable from `x`, `x`
/// included.
pub open spec fn reach_union<T: Accumulate>(g: Seq<Vec<usize>>, init: Seq<T>, x: int) -> Set<
    T::Elem,
> {
    Set::new(
        |e: T::Elem|
            exists|y: int|
                0 <= y < init.len() && #[trigger] reaches(g, x, y) && init[y].contents().contains(
                    e,
                ),
    )
}

/// In relation `rel`, a chain of exactly `n` steps leads from `x` to `y`.
pub open spec fn rel_reach_in<V>(rel: spec_fn(V, V) -> bool, x: V, y: V, n: nat) -> bool
    decreases n,
{
    if n == 0 {
        x == y
    } else {
        exists|z: V| #[trigger] rel(x, z) && rel_reach_in(rel, z, y, (n - 1) as nat)
    }
}

/// In relation `rel`, some chain, possibly empty, leads from `x` to `y`.
pub open spec fn rel_reaches<V>(rel: spec_fn(V, V) -> bool, x: V, y: V) -> bool {
    exists|n: nat| rel_reach_in(rel, x, y, n)
}

/// Where the edges of a graph are steps of a relation between what the
/// nodes stand for, a path is a chain.
pub proof fn lemma_path_is_chain<V>(
    g: Seq<Vec<usize>>,
    rel: spec_fn(V, V) -> bool,
    node: spec_fn(int) -> V,
    x: int,
    y: int,
    n: nat,
)
    requires
        graph_ok(g),
        0 <= x < g.len(),
        forall|a: int, b: int| #[trigger] edge(g, a, b) ==> rel(node(a), node(b)),
        reach_in(g, x, y, n),
    ensures
        0 <= y < g.len(),
        rel_reach_in(rel, node(x), node(y), n),
    decreases n,
{
    if n != 0 {
        let z = choose|z: int| #[trigger] edge(g, x, z) && reach_in(g, z, y, (n - 1) as nat);
        let k = choose|k: int| 0 <= k < g[x]@.len() && #[trigger] g[x]@[k] == z;
        lemma_path_is_chain(g, rel, node, z, y, (n - 1) as nat);
        assert(rel(node(x), node(z)));
    }
}

/// Where every step of a relation from what a node stands for is an edge
/// of the graph, a chain is a path.
pub proof fn lemma_chain_is_path<V>(
    g: Seq<Vec<usize>>,
    rel: spec_fn(V, V) -> bool,
    node: spec_fn(int) -> V,
    x: int,
    v: V,
    n: nat,
)
    requires
        graph_ok(g),
        0 <= x < g.len(),
        forall|a: int, w: V|
            0 <= a < g.len() && #[trigger] rel(node(a), w) ==> exists|b: int| #[trigger]
                edge(g, a, b) && node(b) == w,
        rel_reach_in(rel, node(x), v, n),
    ensures
        exists|y: int| 0 <= y < g.len() && #[trigger] reach_in(g, x, y, n) && node(y) == v,
    decreases n,
{
    if n == 0 {
        assert(reach_in(g, x, x, 0));
    } else {
        let w = choose|w: V| #[trigger] rel(node(x), w) && rel_reach_in(rel, w, v, (n - 1) as nat);
        let b = choose|b: int| #[trigger] edge(g, x, b) && node(b) == w;
        let k = choose|k: int| 0 <= k < g[x]@.len() && #[trigger] g[x]@[k] == b;
        lemma_chain_is_path(g, rel, node, b, v, (n - 1) as nat);
        let y = choose|y: int|
            0 <= y < g.len() && #[trigger] reach_in(g, b, y, (n - 1) as nat) && node(y) == v;
        assert(edge(g, x, b) && reach_in(g, b, y, (n - 1) as nat));
        assert(reach_in(g, x, y, n));
    }
}

/// Every node reaches itself.
pub proof fn lemma_reach_self(g: Seq<Vec<usize>>, x: int)
    ensures
        reaches(g, x, x),
{
    assert(reach_in(g, x, x, 0));
}

/// Paths compose, with their lengths.
pub proof fn lemma_reach_in_trans(g: Seq<Vec<usize>>, x: int, y: int, z: int, n: nat, m: nat)
    requires
        reach_in(g, x, y, n),
        reach_in(g, y, z, m),
    ensures
        reach_in(g, x, z, n + m),
    decreases n,
{
    if n != 0 {
        let w = choose|w: int| #[trigger] edge(g, x, w) && reach_in(g, w, y, (n - 1) as nat);
        lemma_reach_in_trans(g, w, y, z, (n - 1) as nat, m);
        assert(edge(g, x, w) && reach_in(g, w, z, ((n + m) - 1) as nat));
    }
}

/// Reachability is transitive.
pub proof fn lemma_reach_trans(g: Seq<Vec<usize>>, x: int, y: int, z: int)
    requires
        reaches(g, x, y),
        reaches(g, y, z),
    ensures
        reaches(g, x, z),
{
    let n = choose|n: nat| reach_in(g, x, y, n);
    let m = choose|m: nat| reach_in(g, y, z, m);
    lemma_reach_in_trans(g, x, y, z, n, m);
}

/// An edge is a path.
pub proof fn lemma_reach_edge(g: Seq<Vec<usize>>, x: int, k: int)
    requires
        0 <= x < g.len(),
        0 <= k < g[x]@.len(),
    ensures
        edge(g, x, g[x]@[k] as int),
        reaches(g, x, g[x]@[k] as int),
{
    let y = g[x]@[k] as int;
    assert(edge(g, x, y));
    assert(reach_in(g, y, y, 0));
    assert(reach_in(g, x, y, 1));
}

/// What a reachable node collects, the node that reaches it collects too.
pub proof fn lemma_union_mono<T: Accumulate>(g: Seq<Vec<usize>>, init: Seq<T>, x: int, y: int)
    requires
        reaches(g, x, y),
    ensures
        reach_union(g, init, y).subset_of(reach_union(g, init, x)),
{
    assert forall|e: T::Elem| reach_union(g, init, y).contains(e) implies reach_union(
        g,
        init,
        x,
    ).contains(e) by {
        let z = choose|z: int|
            0 <= z < init.len() && #[trigger] reaches(g, y, z) && init[z].contents().contains(e);
        lemma_reach_trans(g, x, y, z);
    }
}

/// A node collects its own initial set.
pub proof fn lemma_union_self<T: Accumulate>(g: Seq<Vec<usize>>, init: Seq<T>, x: int)
    requires
        0 <= x < init.len(),
    ensures
        init[x].contents().subset_of(reach_union(g, init, x)),
{
    lemma_reach_self(g, x);
}

/// Slot `x` takes up the contents of slot `y`; every other slot stays as it
/// is.
fn absorb_at<T: Accumulate>(values: &mut Vec<T>, x: usize, y: usize)
    requires
        x < old(values).len(),
        y < old(values).len(),
        x != y,
        old(values)[x as int].wf(),
        old(values)[y as int].wf(),
    ensures
        final(values).len() == old(values).len(),
        final(values)[x as int].wf(),
        final(values)[x as int].contents() == old(values)[x as int].contents().union(
            old(values)[y as int].contents(),
        ),
        forall|i: int|
            0 <= i < old(values).len() && i != x ==> final(values)[i] == old(values)[i],
{
    if x > y {
        // result: [... y ... | x ...]
        let (left, right) = values.split_at_mut(x);
        right[0].absorb(&left[y]);
    } else {
        // result: [... x ... | y ...]
        let (left, right) = values.split_at_mut(y);
        left[x].absorb(&right[0]);
    }
}

fn store_copy<T: Accumulate>(values: &mut Vec<T>, x: usize, y: usize)
    requires
        x < old(values).len(),
        y < old(values).len(),
        old(values)[y as int].wf(),
    ensures
        final(values).len() == old(values).len(),
        final(values)[x as int].wf(),
        final(values)[x as int].contents() == old(values)[y as int].contents(),
        forall|i: int|
            0 <= i < old(values).len() && i != x ==> final(values)[i] == old(values)[i],
{
    let copy = values[y].duplicate();
    values[x] = copy;
}



/// Working state of the traversal.
///
/// `vertices[..stack_depth]` is the stack of nodes whose component is still
/// open; `vertices[list_base..]` lists the representatives of the
/// components closed so far. `low_link` is zero for a node not yet seen, a
/// stack position for a node on the stack, and the component's slot in the
/// representative list, plus one, for a node of a closed component.
struct Tarjan {
    vertices: Vec<usize>,
    stack_depth: usize,
    low_link: Vec<usize>,
    list_base: usize,
    has_cycle: bool,
    pos: Ghost<Seq<int>>,
}

impl Tarjan {
    /// One more than the first slot of the representative list.
    spec fn list_index(&self) -> int {
        self.list_base + 1
    }

    spec fn n(&self) -> int {
        self.low_link@.len() as int
    }

    spec fn low(&self, v: int) -> int {
        self.low_link@[v] as int
    }

    spec fn at(&self, i: int) -> int {
        self.vertices@[i] as int
    }

    spec fn white(&self, v: int) -> bool {
        self.low(v) == 0
    }

    spec fn on_stack(&self, v: int) -> bool {
        1 <= self.low(v) <= self.stack_depth
    }

    spec fn done(&self, v: int) -> bool {
        self.list_index() <= self.low(v) <= self.n()
    }

    /// For a node of a closed component, the component's representative;
    /// for a node on the stack, the stack entry its link points at.
    spec fn head(&self, v: int) -> int {
        self.at(self.low(v) - 1)
    }

    spec fn colored(&self, v: int) -> bool {
        self.white(v) || self.on_stack(v) || self.done(v)
    }

    spec fn slot_ok(&self, i: int) -> bool {
        &&& 0 <= self.at(i) < self.n()
        &&& self.on_stack(self.at(i))
        &&& self.pos@[self.at(i)] == i + 1
    }

    spec fn placed(&self, v: int) -> bool {
        self.on_stack(v) ==> {
            &&& self.low(v) <= self.pos@[v] <= self.stack_depth
            &&& self.at(self.pos@[v] - 1) == v
        }
    }

    spec fn rep_ok(&self, j: int) -> bool {
        &&& 0 <= self.at(j) < self.n()
        &&& self.low(self.at(j)) == j + 1
    }

    spec fn white_set(&self) -> Set<int> {
        Set::new(|v: int| 0 <= v < self.n() && self.white(v))
    }

    spec fn shape(&self) -> bool {
        &&& self.vertices@.len() == self.n()
        &&& self.pos@.len() == self.n()
        &&& self.stack_depth < self.list_index() <= self.n() + 1
        &&& self.white_set().finite()
        &&& self.stack_depth + (self.n() + 1 - self.list_index()) + self.white_set().len()
            <= self.n()
        &&& forall|v: int| 0 <= v < self.n() ==> #[trigger] self.colored(v)
        &&& forall|i: int| 0 <= i < self.stack_depth ==> #[trigger] self.slot_ok(i)
        &&& forall|v: int| 0 <= v < self.n() ==> #[trigger] self.placed(v)
        &&& forall|j: int| self.list_index() - 1 <= j < self.n() ==> #[trigger] self.rep_ok(j)
    }

    /// An edge out of a closed component ends in a component closed no
    /// later, whose value the component has taken up.
    spec fn closed_edge<T: Accumulate>(
        &self,
        values: Seq<T>,
        g: Seq<Vec<usize>>,
        v: int,
        k: int,
    ) -> bool {
        let y = g[v]@[k] as int;
        &&& self.done(y)
        &&& self.low(y) >= self.low(v)
        &&& values[self.head(y)].contents().subset_of(values[self.head(v)].contents())
    }

    /// An edge out of a stack node that has been looked at: it ends in a
    /// closed component whose value the node has taken up, or on the stack
    /// no deeper than the node's link says.
    spec fn edge_ok<T: Accumulate>(
        &self,
        values: Seq<T>,
        g: Seq<Vec<usize>>,
        w: int,
        k: int,
    ) -> bool {
        let y = g[w]@[k] as int;
        ||| (self.done(y) && values[self.head(y)].contents().subset_of(values[w].contents()))
        ||| (self.on_stack(y) && self.low(w) <= self.pos@[y])
    }

    spec fn value_ok<T: Accumulate>(
        &self,
        values: Seq<T>,
        g: Seq<Vec<usize>>,
        init: Seq<T>,
        v: int,
    ) -> bool {
        &&& values[v].wf()
        &&& self.white(v) ==> values[v] == init[v]
        &&& self.on_stack(v) ==> {
            &&& init[v].contents().subset_of(values[v].contents())
            &&& values[v].contents().subset_of(reach_union(g, init, v))
            &&& reaches(g, v, self.head(v))
        }
        &&& self.done(v) ==> {
            &&& init[v].contents().subset_of(values[self.head(v)].contents())
            &&& values[self.head(v)].contents().subset_of(reach_union(g, init, self.head(v)))
            &&& reaches(g, v, self.head(v))
            &&& reaches(g, self.head(v), v)
            &&& forall|k: int|
                0 <= k < g[v]@.len() ==> #[trigger] self.closed_edge(values, g, v, k)
        }
    }

    /// Two different nodes of one closed component.
    spec fn twin(&self, u: int, v: int) -> bool {
        &&& u != v
        &&& 0 <= u < self.n()
        &&& 0 <= v < self.n()
        &&& self.done(u)
        &&& self.done(v)
        &&& self.low(u) == self.low(v)
    }

    spec fn sound<T: Accumulate>(&self, values: Seq<T>, g: Seq<Vec<usize>>, init: Seq<T>) -> bool {
        &&& values.len() == self.n()
        &&& init.len() == self.n()
        &&& g.len() == self.n()
        &&& graph_ok(g)
        &&& forall|v: int| 0 <= v < self.n() ==> #[trigger] self.value_ok(values, g, init, v)
        &&& self.has_cycle <==> exists|u: int, v: int| #[trigger] self.twin(u, v)
    }

    /// The stack entry in slot `i`, above `x`: reached from `x`, finished,
    /// linked no deeper than `bound`, with all its edges looked at.
    spec fn seg_ok<T: Accumulate>(
        &self,
        values: Seq<T>,
        g: Seq<Vec<usize>>,
        x: int,
        i: int,
        bound: int,
    ) -> bool {
        &&& reaches(g, x, self.at(i))
        &&& bound <= self.low(self.at(i)) < i + 1
        &&& forall|k: int|
            0 <= k < g[self.at(i)]@.len() ==> #[trigger] self.edge_ok(values, g, self.at(i), k)
    }

    fn stack_push(&mut self, x: usize)
        requires
            old(self).stack_depth < old(self).vertices@.len(),
        ensures
            final(self).vertices@ == old(self).vertices@.update(old(self).stack_depth as int, x),
            final(self).stack_depth == old(self).stack_depth + 1,
            final(self).low_link == old(self).low_link,
            final(self).list_index() == old(self).list_index(),
            final(self).has_cycle == old(self).has_cycle,
            final(self).pos == old(self).pos,
    {
        let bound = self.vertices.len();
        self.vertices[self.stack_depth] = x;
        self.stack_depth = self.stack_depth + 1;
    }

    fn stack_pop(&mut self) -> (w: usize)
        requires
            0 < old(self).stack_depth <= old(self).vertices@.len(),
        ensures
            w == old(self).vertices@[old(self).stack_depth - 1],
            final(self).vertices == old(self).vertices,
            final(self).stack_depth == old(self).stack_depth - 1,
            final(self).low_link == old(self).low_link,
            final(self).list_index() == old(self).list_index(),
            final(self).has_cycle == old(self).has_cycle,
            final(self).pos == old(self).pos,
    {
        self.stack_depth = self.stack_depth - 1;
        self.vertices[self.stack_depth]
    }
}

/// What is kept of node `v` from state `a` to state `b`.
spec fn kept<T: Accumulate>(a: Tarjan, b: Tarjan, av: Seq<T>, bv: Seq<T>, v: int) -> bool {
    !a.white(v) ==> b.low(v) == a.low(v) && b.pos@[v] == a.pos@[v] && bv[v] == av[v]
}

/// From `a` to `b` only nodes that `a` had not seen were touched.
spec fn frame<T: Accumulate>(a: Tarjan, b: Tarjan, av: Seq<T>, bv: Seq<T>) -> bool {
    &&& b.n() == a.n()
    &&& bv.len() == av.len()
    &&& b.stack_depth >= a.stack_depth
    &&& b.list_index() <= a.list_index()
    &&& a.has_cycle ==> b.has_cycle
    &&& forall|v: int| 0 <= v < a.n() ==> #[trigger] kept(a, b, av, bv, v)
    &&& forall|i: int| 0 <= i < a.stack_depth ==> #[trigger] b.at(i) == a.at(i)
    &&& forall|j: int| a.list_index() - 1 <= j < a.n() ==> #[trigger] b.at(j) == a.at(j)
}

proof fn lemma_frame_trans<T: Accumulate>(
    a: Tarjan,
    b: Tarjan,
    c: Tarjan,
    av: Seq<T>,
    bv: Seq<T>,
    cv: Seq<T>,
)
    requires
        frame(a, b, av, bv),
        frame(b, c, bv, cv),
    ensures
        frame(a, c, av, cv),
{
    assert forall|v: int| 0 <= v < a.n() implies #[trigger] kept(a, c, av, cv, v) by {
        assert(kept(a, b, av, bv, v));
        assert(kept(b, c, bv, cv, v));
    }
    assert forall|i: int| 0 <= i < a.stack_depth implies #[trigger] c.at(i) == a.at(i) by {
        assert(b.at(i) == a.at(i));
        assert(c.at(i) == b.at(i));
    }
    assert forall|j: int| a.list_index() - 1 <= j < a.n() implies #[trigger] c.at(j) == a.at(j) by {
        assert(b.at(j) == a.at(j));
        assert(c.at(j) == b.at(j));
    }
}

/// A looked-at edge of a node that `a` had seen stays looked at.
proof fn lemma_frame_edge<T: Accumulate>(
    a: Tarjan,
    b: Tarjan,
    av: Seq<T>,
    bv: Seq<T>,
    g: Seq<Vec<usize>>,
    w: int,
    k: int,
)
    requires
        a.shape(),
        frame(a, b, av, bv),
        graph_ok(g),
        g.len() == a.n(),
        0 <= w < a.n(),
        0 <= k < g[w]@.len(),
        !a.white(w),
        a.edge_ok(av, g, w, k),
    ensures
        b.edge_ok(bv, g, w, k),
{
    let y = g[w]@[k] as int;
    assert(kept(a, b, av, bv, w));
    assert(kept(a, b, av, bv, y));
    if a.done(y) {
        let j = a.low(y) - 1;
        assert(a.rep_ok(j));
        assert(b.at(j) == a.at(j));
        assert(kept(a, b, av, bv, a.at(j)));
    }
}

/// There is room on the stack for a node not yet seen.
proof fn lemma_room(a: Tarjan, x: int)
    requires
        a.shape(),
        0 <= x < a.n(),
        a.white(x),
    ensures
        a.stack_depth + 1 < a.list_index(),
        a.stack_depth < a.n(),
{
    assert(a.white_set().contains(x));
    assert(a.white_set().len() >= 1) by {
        if a.white_set().len() == 0 {
            assert(a.white_set() =~= Set::<int>::empty());
        }
    }
}

/// The state after an unseen node was pushed.
proof fn lemma_pushed<T: Accumulate>(
    a: Tarjan,
    b: Tarjan,
    values: Seq<T>,
    g: Seq<Vec<usize>>,
    init: Seq<T>,
    x: int,
)
    requires
        a.shape(),
        a.sound(values, g, init),
        0 <= x < a.n(),
        x <= usize::MAX,
        a.white(x),
        b.vertices@ == a.vertices@.update(a.stack_depth as int, x as usize),
        b.stack_depth == a.stack_depth + 1,
        b.low_link@ == a.low_link@.update(x, b.stack_depth),
        b.pos@ == a.pos@.update(x, a.stack_depth + 1),
        b.list_index() == a.list_index(),
        b.has_cycle == a.has_cycle,
    ensures
        b.shape(),
        b.sound(values, g, init),
        frame(a, b, values, values),
        b.white_set().len() < a.white_set().len(),
        b.on_stack(x),
        b.at(a.stack_depth as int) == x,
        b.pos@[x] == a.stack_depth + 1,
        b.low(x) == a.stack_depth + 1,
{
    lemma_room(a, x);
    let d = a.stack_depth as int;
    assert(b.white_set() =~= a.white_set().remove(x));
    assert forall|v: int| 0 <= v < b.n() implies #[trigger] b.colored(v) by {
        assert(a.colored(v));
    }
    assert forall|i: int| 0 <= i < b.stack_depth implies #[trigger] b.slot_ok(i) by {
        if i < d {
            assert(a.slot_ok(i));
        }
    }
    assert forall|v: int| 0 <= v < b.n() implies #[trigger] b.placed(v) by {
        assert(a.placed(v));
        assert(a.colored(v));
    }
    assert forall|j: int| b.list_index() - 1 <= j < b.n() implies #[trigger] b.rep_ok(j) by {
        assert(a.rep_ok(j));
    }
    assert forall|v: int| 0 <= v < a.n() implies #[trigger] kept(a, b, values, values, v) by {}
    assert forall|v: int| 0 <= v < b.n() implies #[trigger] b.value_ok(values, g, init, v) by {
        assert(a.value_ok(values, g, init, v));
        assert(a.colored(v));
        if v == x {
            lemma_union_self(g, init, x);
            lemma_reach_self(g, x);
        } else if a.on_stack(v) {
            assert(a.placed(v));
            assert(b.head(v) == a.head(v));
        } else if a.done(v) {
            assert(a.rep_ok(a.low(v) - 1));
            assert(b.head(v) == a.head(v));
            assert forall|k: int| 0 <= k < g[v]@.len() implies #[trigger] b.closed_edge(
                values,
                g,
                v,
                k,
            ) by {
                assert(a.closed_edge(values, g, v, k));
                let y = g[v]@[k] as int;
                assert(a.rep_ok(a.low(y) - 1));
            }
        }
    }
    assert forall|u: int, v: int| #[trigger] b.twin(u, v) == a.twin(u, v) by {}
    if a.has_cycle {
        let (u, v) = choose|u: int, v: int| #[trigger] a.twin(u, v);
        assert(b.twin(u, v));
    }
    if b.has_cycle {
    }
    if exists|u: int, v: int| #[trigger] b.twin(u, v) {
        let (u, v) = choose|u: int, v: int| #[trigger] b.twin(u, v);
        assert(a.twin(u, v));
    }
}

/// The bound that the stack entries above `x` respect once the edge to
/// `y` has been followed.
spec fn mid_bound(c: Tarjan, x: int, y: int) -> int {
    if c.on_stack(y) && c.low(y) < c.low(x) {
        c.low(y)
    } else {
        c.low(x)
    }
}

/// Back in `traverse(x)` after the call for its successor `y`.
proof fn lemma_after_call<T: Accumulate>(
    m: Tarjan,
    c: Tarjan,
    mv: Seq<T>,
    cv: Seq<T>,
    g: Seq<Vec<usize>>,
    init: Seq<T>,
    x: int,
    y: int,
    d0: int,
    k: int,
)
    requires
        m.shape(),
        m.sound(mv, g, init),
        c.shape(),
        c.sound(cv, g, init),
        frame(m, c, mv, cv),
        0 <= x < m.n(),
        0 <= y < m.n(),
        0 <= k < g[x]@.len(),
        g[x]@[k] == y,
        0 <= d0 < m.stack_depth,
        m.at(d0) == x,
        m.pos@[x] == d0 + 1,
        m.on_stack(x),
        forall|i: int| d0 < i < m.stack_depth ==> #[trigger] m.seg_ok(mv, g, x, i, m.low(x)),
        forall|j: int| 0 <= j < k ==> #[trigger] m.edge_ok(mv, g, x, j),
        !c.white(y),
        c.done(y) ==> c.stack_depth == m.stack_depth,
        !c.done(y) ==> {
            &&& c.stack_depth > m.stack_depth
            &&& c.at(m.stack_depth as int) == y
            &&& forall|i: int|
                m.stack_depth <= i < c.stack_depth ==> #[trigger] c.seg_ok(cv, g, y, i, c.low(y))
        },
    ensures
        c.at(d0) == x,
        c.pos@[x] == d0 + 1,
        c.on_stack(x),
        c.low(x) == m.low(x),
        forall|i: int|
            d0 < i < c.stack_depth ==> #[trigger] c.seg_ok(cv, g, x, i, mid_bound(c, x, y)),
        forall|j: int| 0 <= j < k ==> #[trigger] c.edge_ok(cv, g, x, j),
{
    assert(kept(m, c, mv, cv, x));
    assert(c.at(d0) == m.at(d0));
    assert(c.colored(y));
    lemma_reach_edge(g, x, k);
    assert forall|j: int| 0 <= j < k implies #[trigger] c.edge_ok(cv, g, x, j) by {
        assert(m.edge_ok(mv, g, x, j));
        lemma_frame_edge(m, c, mv, cv, g, x, j);
    }
    assert forall|i: int| d0 < i < c.stack_depth implies #[trigger] c.seg_ok(
        cv,
        g,
        x,
        i,
        mid_bound(c, x, y),
    ) by {
        if i < m.stack_depth {
            assert(m.seg_ok(mv, g, x, i, m.low(x)));
            assert(m.slot_ok(i));
            assert(c.at(i) == m.at(i));
            let w = m.at(i);
            assert(kept(m, c, mv, cv, w));
            assert forall|j: int| 0 <= j < g[w]@.len() implies #[trigger] c.edge_ok(
                cv,
                g,
                w,
                j,
            ) by {
                assert(m.edge_ok(mv, g, w, j));
                lemma_frame_edge(m, c, mv, cv, g, w, j);
            }
        } else {
            assert(c.seg_ok(cv, g, y, i, c.low(y)));
            lemma_reach_trans(g, x, y, c.at(i));
        }
    }
}

/// The link of `x` was lowered to that of its successor `y` on the stack,
/// where that is lower.
proof fn lemma_linked<T: Accumulate>(
    e: Tarjan,
    a: Tarjan,
    b: Tarjan,
    ev: Seq<T>,
    values: Seq<T>,
    g: Seq<Vec<usize>>,
    init: Seq<T>,
    x: int,
    y: int,
    d0: int,
    k: int,
)
    requires
        e.white(x),
        frame(e, a, ev, values),
        a.shape(),
        a.sound(values, g, init),
        0 <= x < a.n(),
        0 <= y < a.n(),
        0 <= k < g[x]@.len(),
        g[x]@[k] == y,
        a.on_stack(x),
        a.on_stack(y),
        0 <= d0 < a.stack_depth,
        a.at(d0) == x,
        a.pos@[x] == d0 + 1,
        forall|i: int|
            d0 < i < a.stack_depth ==> #[trigger] a.seg_ok(values, g, x, i, mid_bound(a, x, y)),
        forall|j: int| 0 <= j < k ==> #[trigger] a.edge_ok(values, g, x, j),
        b.vertices == a.vertices,
        b.stack_depth == a.stack_depth,
        b.list_index() == a.list_index(),
        b.has_cycle == a.has_cycle,
        b.pos == a.pos,
        b.low_link@ == a.low_link@.update(x, mid_bound(a, x, y) as usize),
    ensures
        b.shape(),
        b.sound(values, g, init),
        frame(e, b, ev, values),
        b.white_set() == a.white_set(),
        b.on_stack(x),
        forall|i: int|
            d0 < i < b.stack_depth ==> #[trigger] b.seg_ok(values, g, x, i, b.low(x)),
        forall|j: int| 0 <= j <= k ==> #[trigger] b.edge_ok(values, g, x, j),
{
    let nl = mid_bound(a, x, y);
    assert(a.placed(x));
    assert(a.placed(y));
    assert(b.low(x) == nl);
    assert(b.white_set() =~= a.white_set());
    assert forall|v: int| 0 <= v < b.n() implies #[trigger] b.colored(v) by {
        assert(a.colored(v));
    }
    assert forall|i: int| 0 <= i < b.stack_depth implies #[trigger] b.slot_ok(i) by {
        assert(a.slot_ok(i));
    }
    assert forall|v: int| 0 <= v < b.n() implies #[trigger] b.placed(v) by {
        assert(a.placed(v));
    }
    assert forall|j: int| b.list_index() - 1 <= j < b.n() implies #[trigger] b.rep_ok(j) by {
        assert(a.rep_ok(j));
    }
    assert forall|v: int| 0 <= v < b.n() implies #[trigger] b.value_ok(values, g, init, v) by {
        assert(a.value_ok(values, g, init, v));
        if v == x {
            assert(a.value_ok(values, g, init, y));
            lemma_reach_edge(g, x, k);
            if nl != a.low(x) {
                lemma_reach_trans(g, x, y, a.head(y));
            }
        } else if a.done(v) {
            assert(b.head(v) == a.head(v));
            assert forall|j: int| 0 <= j < g[v]@.len() implies #[trigger] b.closed_edge(
                values,
                g,
                v,
                j,
            ) by {
                assert(a.closed_edge(values, g, v, j));
            }
        }
    }
    assert forall|u: int, v: int| #[trigger] b.twin(u, v) == a.twin(u, v) by {}
    if a.has_cycle {
        let (u, v) = choose|u: int, v: int| #[trigger] a.twin(u, v);
        assert(b.twin(u, v));
    }
    if exists|u: int, v: int| #[trigger] b.twin(u, v) {
        let (u, v) = choose|u: int, v: int| #[trigger] b.twin(u, v);
        assert(a.twin(u, v));
    }
    assert forall|v: int| 0 <= v < e.n() implies #[trigger] kept(e, b, ev, values, v) by {
        assert(kept(e, a, ev, values, v));
    }
    assert forall|i: int| 0 <= i < e.stack_depth implies #[trigger] b.at(i) == e.at(i) by {
        assert(a.at(i) == e.at(i));
    }
    assert forall|j: int| e.list_index() - 1 <= j < e.n() implies #[trigger] b.at(j) == e.at(j) by {
        assert(a.at(j) == e.at(j));
    }
    assert forall|j: int| 0 <= j <= k implies #[trigger] b.edge_ok(values, g, x, j) by {
        if j < k {
            assert(a.edge_ok(values, g, x, j));
        }
    }
    assert forall|i: int| d0 < i < b.stack_depth implies #[trigger] b.seg_ok(
        values,
        g,
        x,
        i,
        b.low(x),
    ) by {
        assert(a.seg_ok(values, g, x, i, nl));
        assert(a.slot_ok(i));
        assert(a.slot_ok(d0));
        let w = a.at(i);
        assert forall|j: int| 0 <= j < g[w]@.len() implies #[trigger] b.edge_ok(
            values,
            g,
            w,
            j,
        ) by {
            assert(a.edge_ok(values, g, w, j));
        }
    }
}

/// `x` took up the value of the closed component of its successor `y`.
proof fn lemma_absorbed<T: Accumulate>(
    e: Tarjan,
    a: Tarjan,
    ev: Seq<T>,
    av: Seq<T>,
    bv: Seq<T>,
    g: Seq<Vec<usize>>,
    init: Seq<T>,
    x: int,
    y: int,
    d0: int,
    k: int,
)
    requires
        e.white(x),
        frame(e, a, ev, av),
        a.shape(),
        a.sound(av, g, init),
        0 <= x < a.n(),
        0 <= y < a.n(),
        0 <= k < g[x]@.len(),
        g[x]@[k] == y,
        a.on_stack(x),
        a.done(y),
        0 <= d0 < a.stack_depth,
        a.at(d0) == x,
        a.pos@[x] == d0 + 1,
        forall|i: int| d0 < i < a.stack_depth ==> #[trigger] a.seg_ok(av, g, x, i, a.low(x)),
        forall|j: int| 0 <= j < k ==> #[trigger] a.edge_ok(av, g, x, j),
        bv.len() == av.len(),
        bv[x].wf(),
        bv[x].contents() == av[x].contents().union(av[a.head(y)].contents()),
        forall|i: int| 0 <= i < av.len() && i != x ==> bv[i] == av[i],
    ensures
        a.sound(bv, g, init),
        frame(e, a, ev, bv),
        forall|i: int| d0 < i < a.stack_depth ==> #[trigger] a.seg_ok(bv, g, x, i, a.low(x)),
        forall|j: int| 0 <= j <= k ==> #[trigger] a.edge_ok(bv, g, x, j),
{
    let h = a.head(y);
    assert(a.rep_ok(a.low(y) - 1));
    assert(a.value_ok(av, g, init, y));
    lemma_reach_edge(g, x, k);
    lemma_reach_trans(g, x, y, h);
    lemma_union_mono(g, init, x, h);
    assert forall|v: int| 0 <= v < a.n() implies #[trigger] a.value_ok(bv, g, init, v) by {
        assert(a.value_ok(av, g, init, v));
        if v != x && a.done(v) {
            assert(a.rep_ok(a.low(v) - 1));
            assert forall|j: int| 0 <= j < g[v]@.len() implies #[trigger] a.closed_edge(
                bv,
                g,
                v,
                j,
            ) by {
                assert(a.closed_edge(av, g, v, j));
                let z = g[v]@[j] as int;
                assert(a.rep_ok(a.low(z) - 1));
            }
        }
    }
    assert forall|v: int| 0 <= v < e.n() implies #[trigger] kept(e, a, ev, bv, v) by {
        assert(kept(e, a, ev, av, v));
    }
    assert forall|j: int| 0 <= j <= k implies #[trigger] a.edge_ok(bv, g, x, j) by {
        if j < k {
            assert(a.edge_ok(av, g, x, j));
            let z = g[x]@[j] as int;
            if a.done(z) {
                assert(a.rep_ok(a.low(z) - 1));
            }
        }
    }
    assert forall|i: int| d0 < i < a.stack_depth implies #[trigger] a.seg_ok(
        bv,
        g,
        x,
        i,
        a.low(x),
    ) by {
        assert(a.seg_ok(av, g, x, i, a.low(x)));
        assert(a.slot_ok(i));
        assert(a.slot_ok(d0));
        let w = a.at(i);
        assert forall|j: int| 0 <= j < g[w]@.len() implies #[trigger] a.edge_ok(
            bv,
            g,
            w,
            j,
        ) by {
            assert(a.edge_ok(av, g, w, j));
            let z = g[w]@[j] as int;
            if a.done(z) {
                assert(a.rep_ok(a.low(z) - 1));
            }
        }
    }
}

/// Every stack entry above a root reaches the root.
proof fn lemma_seg_root<T: Accumulate>(
    a: Tarjan,
    values: Seq<T>,
    g: Seq<Vec<usize>>,
    init: Seq<T>,
    x: int,
    d0: int,
    i: int,
)
    requires
        a.shape(),
        a.sound(values, g, init),
        0 <= x < a.n(),
        a.at(d0) == x,
        a.low(x) == d0 + 1,
        0 <= d0 < i < a.stack_depth,
        forall|j: int| d0 < j < a.stack_depth ==> #[trigger] a.seg_ok(values, g, x, j, d0 + 1),
    ensures
        reaches(g, a.at(i), x),
    decreases i,
{
    let w = a.at(i);
    assert(a.slot_ok(i));
    assert(a.value_ok(values, g, init, w));
    assert(a.seg_ok(values, g, x, i, d0 + 1));
    let s = a.low(w) - 1;
    if s != d0 {
        lemma_seg_root(a, values, g, init, x, d0, s);
        lemma_reach_trans(g, w, a.at(s), x);
    }
}

/// The state after the component rooted at `x` was closed: the stack
/// entries from `x` upwards got the component's slot, and `x` took up
/// their values.
proof fn lemma_complete<T: Accumulate>(
    e: Tarjan,
    pre: Tarjan,
    post: Tarjan,
    ev: Seq<T>,
    pv: Seq<T>,
    qv: Seq<T>,
    g: Seq<Vec<usize>>,
    init: Seq<T>,
    x: int,
    d0: int,
)
    requires
        e.shape(),
        frame(e, pre, ev, pv),
        e.white(x),
        e.stack_depth == d0,
        pre.shape(),
        pre.sound(pv, g, init),
        0 <= x < pre.n(),
        x <= usize::MAX,
        0 <= d0 < pre.stack_depth,
        pre.at(d0) == x,
        pre.pos@[x] == d0 + 1,
        pre.low(x) == d0 + 1,
        forall|i: int| d0 < i < pre.stack_depth ==> #[trigger] pre.seg_ok(pv, g, x, i, d0 + 1),
        forall|i: int| d0 < i < pre.stack_depth ==> reaches(g, #[trigger] pre.at(i), x),
        forall|k: int| 0 <= k < g[x]@.len() ==> #[trigger] pre.edge_ok(pv, g, x, k),
        post.n() == pre.n(),
        post.vertices@ == pre.vertices@.update(pre.list_index() - 2, x as usize),
        post.pos@ == pre.pos@,
        post.list_index() == pre.list_index() - 1,
        post.stack_depth == d0,
        forall|v: int|
            0 <= v < pre.n() ==> #[trigger] post.low(v) == (if pre.on_stack(v) && pre.pos@[v]
                > d0 {
                pre.list_index() - 1
            } else {
                pre.low(v)
            }),
        qv.len() == pv.len(),
        forall|v: int| 0 <= v < pre.n() && v != x ==> #[trigger] qv[v] == pv[v],
        qv[x].wf(),
        pv[x].contents().subset_of(qv[x].contents()),
        qv[x].contents().subset_of(reach_union(g, init, x)),
        forall|i: int|
            d0 < i < pre.stack_depth ==> pv[#[trigger] pre.at(i)].contents().subset_of(
                qv[x].contents(),
            ),
        post.has_cycle <==> pre.has_cycle || pre.stack_depth > d0 + 1,
    ensures
        post.shape(),
        post.sound(qv, g, init),
        frame(e, post, ev, qv),
        post.done(x),
        post.white_set() == pre.white_set(),
{
    let mark = pre.list_index() - 1;
    let n = pre.n();
    assert(pre.placed(x));
    assert(pre.slot_ok(d0));
    assert(post.at(mark - 1) == x);
    assert(post.low(x) == mark);
    // A node of the closed component sits in a slot from `d0` upwards.
    assert forall|v: int| 0 <= v < n && pre.on_stack(v) && pre.pos@[v] > d0 implies ({
        &&& d0 <= pre.pos@[v] - 1 < pre.stack_depth
        &&& #[trigger] pre.at(pre.pos@[v] - 1) == v
        &&& (v != x ==> d0 < pre.pos@[v] - 1)
        &&& post.low(v) == mark
        &&& d0 + 1 <= pre.low(v)
    }) by {
        assert(pre.placed(v));
        if v != x {
            assert(pre.seg_ok(pv, g, x, pre.pos@[v] - 1, d0 + 1));
        }
    }
    assert(post.white_set() =~= pre.white_set()) by {
        assert forall|v: int| post.white_set().contains(v) <==> pre.white_set().contains(
            v,
        ) by {
            if 0 <= v < n {
                assert(post.low(v) == (if pre.on_stack(v) && pre.pos@[v] > d0 {
                    mark
                } else {
                    pre.low(v)
                }));
            }
        }
    }
    assert forall|v: int| 0 <= v < n implies #[trigger] post.colored(v) by {
        assert(pre.colored(v));
        assert(pre.placed(v));
        assert(post.low(v) == (if pre.on_stack(v) && pre.pos@[v] > d0 {
            mark
        } else {
            pre.low(v)
        }));
    }
    assert forall|i: int| 0 <= i < post.stack_depth implies #[trigger] post.slot_ok(i) by {
        assert(pre.slot_ok(i));
        let w = pre.at(i);
        assert(pre.placed(w));
        assert(post.low(w) == pre.low(w));
    }
    assert forall|v: int| 0 <= v < n implies #[trigger] post.placed(v) by {
        assert(pre.placed(v));
        assert(post.low(v) == (if pre.on_stack(v) && pre.pos@[v] > d0 {
            mark
        } else {
            pre.low(v)
        }));
    }
    assert forall|j: int| post.list_index() - 1 <= j < n implies #[trigger] post.rep_ok(j) by {
        if j != mark - 1 {
            assert(pre.rep_ok(j));
            assert(post.low(pre.at(j)) == pre.low(pre.at(j)));
        }
    }
    assert(post.shape());
    // Heads of components closed before are what they were.
    assert forall|v: int| 0 <= v < n && pre.done(v) implies ({
        &&& post.done(v)
        &&& post.low(v) == pre.low(v)
        &&& #[trigger] post.head(v) == pre.head(v)
        &&& pre.head(v) != x
        &&& 0 <= pre.head(v) < n
        &&& qv[pre.head(v)] == pv[pre.head(v)]
    }) by {
        assert(post.low(v) == pre.low(v));
        assert(pre.rep_ok(pre.low(v) - 1));
        let h = pre.head(v);
        assert(qv[h] == pv[h]);
    }
    assert forall|v: int| 0 <= v < n implies #[trigger] post.value_ok(qv, g, init, v) by {
        assert(pre.value_ok(pv, g, init, v));
        assert(pre.colored(v));
        assert(pre.placed(v));
        assert(post.low(v) == (if pre.on_stack(v) && pre.pos@[v] > d0 {
            mark
        } else {
            pre.low(v)
        }));
        if v != x {
            assert(qv[v] == pv[v]);
        }
        if pre.on_stack(v) && pre.pos@[v] > d0 {
            let i = pre.pos@[v] - 1;
            assert(pre.at(i) == v);
            assert(post.head(v) == x);
            if v != x {
                assert(pre.seg_ok(pv, g, x, i, d0 + 1));
                assert(reaches(g, pre.at(i), x));
            } else {
                lemma_reach_self(g, x);
            }
            assert forall|k: int| 0 <= k < g[v]@.len() implies #[trigger] post.closed_edge(
                qv,
                g,
                v,
                k,
            ) by {
                assert(pre.edge_ok(pv, g, v, k));
                let y = g[v]@[k] as int;
                if pre.done(y) {
                    assert(post.head(y) == pre.head(y));
                } else {
                    assert(pre.placed(y));
                    assert(pre.at(pre.pos@[y] - 1) == y);
                    assert(post.low(y) == mark);
                }
            }
        } else if pre.on_stack(v) {
            assert(post.head(v) == pre.head(v));
        } else if pre.done(v) {
            assert(post.head(v) == pre.head(v));
            assert forall|k: int| 0 <= k < g[v]@.len() implies #[trigger] post.closed_edge(
                qv,
                g,
                v,
                k,
            ) by {
                assert(pre.closed_edge(pv, g, v, k));
                let y = g[v]@[k] as int;
                assert(post.head(y) == pre.head(y));
            }
        }
    }
    if pre.has_cycle {
        let (u, v) = choose|u: int, v: int| #[trigger] pre.twin(u, v);
        assert(post.head(u) == pre.head(u));
        assert(post.head(v) == pre.head(v));
        assert(post.twin(u, v));
    }
    if pre.stack_depth > d0 + 1 {
        let w = pre.at(d0 + 1);
        assert(pre.slot_ok(d0 + 1));
        assert(pre.placed(w));
        assert(post.low(w) == mark);
        assert(post.twin(w, x));
    }
    if exists|u: int, v: int| #[trigger] post.twin(u, v) {
        let (u, v) = choose|u: int, v: int| #[trigger] post.twin(u, v);
        assert(pre.colored(u));
        assert(pre.colored(v));
        assert(pre.placed(u));
        assert(pre.placed(v));
        assert(post.low(u) == (if pre.on_stack(u) && pre.pos@[u] > d0 {
            mark
        } else {
            pre.low(u)
        }));
        assert(post.low(v) == (if pre.on_stack(v) && pre.pos@[v] > d0 {
            mark
        } else {
            pre.low(v)
        }));
        if post.low(u) == mark {
            assert(pre.at(pre.pos@[u] - 1) == u);
            assert(pre.at(pre.pos@[v] - 1) == v);
            assert(pre.stack_depth > d0 + 1);
        } else {
            assert(pre.twin(u, v));
        }
    }
    assert forall|v: int| 0 <= v < e.n() implies #[trigger] kept(e, post, ev, qv, v) by {
        assert(kept(e, pre, ev, pv, v));
        if !e.white(v) {
            assert(e.colored(v));
            assert(e.placed(v));
            assert(pre.placed(v));
            assert(post.low(v) == (if pre.on_stack(v) && pre.pos@[v] > d0 {
                mark
            } else {
                pre.low(v)
            }));
            assert(qv[v] == pv[v]);
        }
    }
    assert forall|i: int| 0 <= i < e.stack_depth implies #[trigger] post.at(i) == e.at(i) by {
        assert(pre.at(i) == e.at(i));
    }
    assert forall|j: int| e.list_index() - 1 <= j < e.n() implies #[trigger] post.at(j) == e.at(
        j,
    ) by {
        assert(pre.at(j) == e.at(j));
    }
}

impl Tarjan {
    /// Visits `x`, not seen before, and everything reachable from it that
    /// was not seen before; closes the component of `x` if `x` is its root.
    #[verifier::rlimit(60)]
    fn traverse<T: Accumulate>(
        &mut self,
        values: &mut Vec<T>,
        successors: &Vec<Vec<usize>>,
        x: usize,
        Ghost(init): Ghost<Seq<T>>,
    )
        requires
            old(self).shape(),
            old(self).sound(old(values)@, successors@, init),
            x < old(self).n(),
            old(self).white(x as int),
        ensures
            final(self).shape(),
            final(self).sound(final(values)@, successors@, init),
            frame(*old(self), *final(self), old(values)@, final(values)@),
            !final(self).white(x as int),
            final(self).white_set().len() < old(self).white_set().len(),
            final(self).done(x as int) ==> final(self).stack_depth == old(self).stack_depth,
            !final(self).done(x as int) ==> {
                &&& final(self).stack_depth > old(self).stack_depth
                &&& final(self).at(old(self).stack_depth as int) == x
                &&& forall|i: int|
                    old(self).stack_depth <= i < final(self).stack_depth
                        ==> #[trigger] final(self).seg_ok(
                        final(values)@,
                        successors@,
                        x as int,
                        i,
                        final(self).low(x as int),
                    )
            },
        decreases old(self).white_set().len(),
    {
        let ghost e = *self;
        let ghost ev = values@;
        let ghost g = successors@;
        let d0 = self.stack_depth;
        proof {
            lemma_room(e, x as int);
        }
        self.stack_push(x);
        self.low_link[x] = self.stack_depth;
        self.pos = Ghost(self.pos@.update(x as int, d0 as int + 1));
        proof {
            lemma_pushed(e, *self, ev, g, init, x as int);
        }
        let count = successors[x].len();
        let mut k: usize = 0;
        while k < count
            invariant
                e == *old(self),
                g == successors@,
                e.shape(),
                e.white(x as int),
                e.stack_depth == d0,
                x < self.n(),
                count == g[x as int]@.len(),
                k <= count,
                self.shape(),
                self.sound(values@, g, init),
                frame(e, *self, ev, values@),
                self.white_set().len() < e.white_set().len(),
                self.stack_depth > d0,
                self.at(d0 as int) == x,
                self.pos@[x as int] == d0 + 1,
                self.on_stack(x as int),
                forall|i: int|
                    d0 < i < self.stack_depth ==> #[trigger] self.seg_ok(
                        values@,
                        g,
                        x as int,
                        i,
                        self.low(x as int),
                    ),
                forall|j: int| 0 <= j < k ==> #[trigger] self.edge_ok(values@, g, x as int, j),
            decreases count - k,
        {
            let y = successors[x][k];
            let ghost m = *self;
            let ghost mv = values@;
            proof {
                lemma_reach_edge(g, x as int, k as int);
                assert(g[x as int]@[k as int] < g.len());
            }
            if self.low_link[y] == 0 {
                self.traverse(values, successors, y, Ghost(init));
                proof {
                    lemma_after_call(m, *self, mv, values@, g, init, x as int, y as int, d0 as int,
                        k as int);
                    lemma_frame_trans(e, m, *self, ev, mv, values@);
                }
            } else {
                proof {
                    assert forall|i: int| d0 < i < self.stack_depth implies #[trigger] self.seg_ok(
                        values@,
                        g,
                        x as int,
                        i,
                        mid_bound(*self, x as int, y as int),
                    ) by {
                        assert(self.seg_ok(values@, g, x as int, i, self.low(x as int)));
                    }
                }
            }
            proof {
                assert(self.colored(y as int));
            }
            if self.low_link[y] <= self.stack_depth {
                // y is on the stack, and so in the component of x
                let ghost a = *self;
                if self.low_link[y] < self.low_link[x] {
                    self.low_link[x] = self.low_link[y];
                }
                proof {
                    assert(self.low_link@ =~= a.low_link@.update(
                        x as int,
                        mid_bound(a, x as int, y as int) as usize,
                    ));
                    lemma_linked(e, a, *self, ev, values@, g, init, x as int, y as int, d0 as int,
                        k as int);
                }
            } else {
                // y lies in a component closed before
                let head_y = self.vertices[self.low_link[y] - 1];
                let ghost av = values@;
                proof {
                    assert(self.rep_ok(self.low(y as int) - 1));
                    assert(self.value_ok(av, g, init, x as int));
                    assert(self.value_ok(av, g, init, head_y as int));
                }
                absorb_at(values, x, head_y);
                proof {
                    assert forall|i: int| d0 < i < self.stack_depth implies #[trigger] self.seg_ok(
                        av,
                        g,
                        x as int,
                        i,
                        self.low(x as int),
                    ) by {
                        assert(self.seg_ok(av, g, x as int, i, mid_bound(*self, x as int,
                            y as int)));
                    }
                    lemma_absorbed(e, *self, ev, av, values@, g, init, x as int, y as int,
                        d0 as int, k as int);
                }
            }
            k = k + 1;
        }
        proof {
            assert(self.placed(x as int));
            assert(self.slot_ok(self.low(x as int) - 1));
            assert(self.slot_ok(d0 as int));
        }
        let head_x = self.vertices[self.low_link[x] - 1];
        if x == head_x {
            let ghost pre = *self;
            let ghost pv = values@;
            proof {
                assert(pre.low(x as int) == d0 + 1);
                assert forall|i: int| d0 < i < pre.stack_depth implies reaches(
                    g,
                    #[trigger] pre.at(i),
                    x as int,
                ) by {
                    lemma_seg_root(pre, pv, g, init, x as int, d0 as int, i);
                }
                assert forall|i: int| d0 < i < pre.stack_depth implies pv[#[trigger] pre.at(
                    i,
                )].contents().subset_of(reach_union(g, init, x as int)) by {
                    assert(pre.slot_ok(i));
                    assert(pre.value_ok(pv, g, init, pre.at(i)));
                    assert(pre.seg_ok(pv, g, x as int, i, d0 + 1));
                    lemma_union_mono(g, init, x as int, pre.at(i));
                }
                assert(pre.value_ok(pv, g, init, x as int));
                assert forall|v: int| 0 <= v < pre.n() implies !(pre.on_stack(v) && pre.pos@[v]
                    > pre.stack_depth) by {
                    assert(pre.placed(v));
                }
            }
            self.list_base = self.list_base - 1;
            let mark = self.list_base + 1;
            let mut open = true;
            while open
                invariant
                    g == successors@,
                    pre.shape(),
                    pre.sound(pv, g, init),
                    x < pre.n(),
                    d0 < pre.stack_depth,
                    pre.at(d0 as int) == x,
                    pre.pos@[x as int] == d0 + 1,
                    mark == pre.list_index() - 1,
                    self.list_index() == mark,
                    self.vertices == pre.vertices,
                    self.pos == pre.pos,
                    self.n() == pre.n(),
                    values@.len() == pre.n(),
                    d0 <= self.stack_depth <= pre.stack_depth,
                    open ==> self.stack_depth > d0,
                    !open ==> self.stack_depth == d0,
                    forall|v: int|
                        0 <= v < pre.n() ==> #[trigger] self.low(v) == (if pre.on_stack(v)
                            && pre.pos@[v] > self.stack_depth {
                            mark as int
                        } else {
                            pre.low(v)
                        }),
                    forall|v: int| 0 <= v < pre.n() && v != x ==> #[trigger] values@[v] == pv[v],
                    values@[x as int].wf(),
                    pv[x as int].contents().subset_of(values@[x as int].contents()),
                    values@[x as int].contents().subset_of(reach_union(g, init, x as int)),
                    forall|i: int|
                        d0 < i < pre.stack_depth && self.stack_depth <= i ==> pv[#[trigger] pre.at(
                            i,
                        )].contents().subset_of(values@[x as int].contents()),
                    forall|i: int|
                        d0 < i < pre.stack_depth ==> pv[#[trigger] pre.at(i)].contents().subset_of(
                            reach_union(g, init, x as int),
                        ),
                    self.has_cycle <==> pre.has_cycle || (if open {
                        self.stack_depth < pre.stack_depth
                    } else {
                        pre.stack_depth > d0 + 1
                    }),
                decreases self.stack_depth,
            {
                let ghost c = *self;
                let ghost cv = values@;
                proof {
                    assert(pre.slot_ok(c.stack_depth - 1));
                    assert(pre.slot_ok(d0 as int));
                }
                let w = self.stack_pop();
                self.low_link[w] = mark;
                proof {
                    assert(pre.placed(w as int));
                }
                if w == x {
                    open = false;
                } else {
                    self.has_cycle = true;
                    proof {
                        assert(pre.value_ok(pv, g, init, w as int));
                        assert(values@[w as int] == pv[w as int]);
                    }
                    absorb_at(values, x, w);
                    proof {
                        let i = c.stack_depth - 1;
                        assert(pv[pre.at(i)].contents().subset_of(reach_union(g, init, x as int)));
                        assert forall|v: int| 0 <= v < pre.n()
                            && v != x implies #[trigger] values@[v]
                            == pv[v] by {
                            assert(cv[v] == pv[v]);
                        }
                        assert forall|j: int|
                            d0 < j < pre.stack_depth && self.stack_depth
                                <= j implies pv[#[trigger] pre.at(j)].contents().subset_of(
                            values@[x as int].contents(),
                        ) by {
                            if j != i {
                                assert(pv[pre.at(j)].contents().subset_of(cv[x as int].contents()));
                            }
                        }
                    }
                }
                proof {
                    assert forall|v: int| 0 <= v < pre.n() implies #[trigger] self.low(v) == (
                    if pre.on_stack(v) && pre.pos@[v] > self.stack_depth {
                        mark as int
                    } else {
                        pre.low(v)
                    }) by {
                        assert(c.low(v) == (if pre.on_stack(v) && pre.pos@[v] > c.stack_depth {
                            mark as int
                        } else {
                            pre.low(v)
                        }));
                        assert(pre.placed(v));
                    }
                }
            }
            let ghost last = *self;
            self.vertices[mark - 1] = x;
            proof {
                assert forall|v: int| 0 <= v < pre.n() implies #[trigger] self.low(v) == (
                if pre.on_stack(v) && pre.pos@[v] > d0 {
                    pre.list_index() - 1
                } else {
                    pre.low(v)
                }) by {
                    assert(last.low(v) == (if pre.on_stack(v) && pre.pos@[v] > last.stack_depth {
                        mark as int
                    } else {
                        pre.low(v)
                    }));
                }
                lemma_complete(e, pre, *self, ev, pv, values@, g, init, x as int, d0 as int);
            }
        } else {
            proof {
                lemma_reach_self(g, x as int);
                assert(self.low(x as int) < d0 + 1);
                assert forall|i: int| d0 <= i < self.stack_depth implies #[trigger] self.seg_ok(
                    values@,
                    g,
                    x as int,
                    i,
                    self.low(x as int),
                ) by {
                    if i == d0 {
                    }
                }
            }
        }
    }
}

/// Once every component is closed, a path leads only into components
/// closed no later, whose values the start's component has taken up.
proof fn lemma_path_closed<T: Accumulate>(
    st: Tarjan,
    values: Seq<T>,
    g: Seq<Vec<usize>>,
    init: Seq<T>,
    v: int,
    y: int,
    m: nat,
)
    requires
        st.shape(),
        st.sound(values, g, init),
        forall|u: int| 0 <= u < st.n() ==> #[trigger] st.done(u),
        0 <= v < st.n(),
        reach_in(g, v, y, m),
    ensures
        0 <= y < st.n(),
        st.low(y) >= st.low(v),
        values[st.head(y)].contents().subset_of(values[st.head(v)].contents()),
    decreases m,
{
    if m != 0 {
        let z = choose|z: int| #[trigger] edge(g, v, z) && reach_in(g, z, y, (m - 1) as nat);
        let k = choose|k: int| 0 <= k < g[v]@.len() && #[trigger] g[v]@[k] == z;
        assert(st.done(v));
        assert(st.value_ok(values, g, init, v));
        assert(st.closed_edge(values, g, v, k));
        lemma_path_closed(st, values, g, init, z, y, (m - 1) as nat);
    }
}

/// Once every component is closed, a representative holds exactly what the
/// nodes reachable from any node of its component started with.
proof fn lemma_final<T: Accumulate>(
    st: Tarjan,
    values: Seq<T>,
    g: Seq<Vec<usize>>,
    init: Seq<T>,
    v: int,
)
    requires
        st.shape(),
        st.sound(values, g, init),
        forall|u: int| 0 <= u < st.n() ==> #[trigger] st.done(u),
        0 <= v < st.n(),
    ensures
        values[st.head(v)].contents() == reach_union(g, init, v),
{
    let h = st.head(v);
    assert(st.done(v));
    assert(st.value_ok(values, g, init, v));
    lemma_union_mono(g, init, v, h);
    assert forall|e: T::Elem| reach_union(g, init,
        v).contains(e) implies values[h].contents().contains(
        e,
    ) by {
        let y = choose|y: int|
            0 <= y < init.len() && #[trigger] reaches(g, v, y) && init[y].contents().contains(e);
        let m = choose|m: nat| reach_in(g, v, y, m);
        lemma_path_closed(st, values, g, init, v, y, m);
        assert(st.done(y));
        assert(st.value_ok(values, g, init, y));
    }
    assert(values[h].contents() =~= reach_union(g, init, v));
}

/// Two different nodes that reach each other.
pub open spec fn on_common_cycle(g: Seq<Vec<usize>>, x: int, y: int) -> bool {
    &&& x != y
    &&& 0 <= x < g.len()
    &&& 0 <= y < g.len()
    &&& reaches(g, x, y)
    &&& reaches(g, y, x)
}

/// Given a directed graph where each node is associated with a set and
/// adjacency is given by `successors`, replaces the set of each node by the
/// union over the sets of all nodes reachable from it, itself included.
/// Tells whether two different nodes reach each other.
pub fn transitive_closure<T: Accumulate>(values: &mut Vec<T>,
    successors: &Vec<Vec<usize>>) -> (has_cycle:
    bool)
    requires
        successors@.len() == old(values)@.len(),
        graph_ok(successors@),
        forall|x: int| 0 <= x < old(values)@.len() ==> #[trigger] old(values)@[x].wf(),
    ensures
        final(values)@.len() == old(values)@.len(),
        forall|x: int|
            #![trigger final(values)@[x]]
            0 <= x < old(values)@.len() ==> final(values)@[x].wf() && final(values)@[x].contents()
                == reach_union(successors@, old(values)@, x),
        has_cycle <==> exists|x: int, y: int| on_common_cycle(successors@, x, y),
{
    let num_nodes = values.len();
    let ghost init = values@;
    let ghost g = successors@;
    let mut vertices: Vec<usize> = Vec::new();
    let mut low_link: Vec<usize> = Vec::new();
    let mut i: usize = 0;
    while i < num_nodes
        invariant
            i <= num_nodes,
            vertices@.len() == i,
            low_link@.len() == i,
            forall|j: int| 0 <= j < i ==> low_link@[j] == 0,
        decreases num_nodes - i,
    {
        vertices.push(0);
        low_link.push(0);
        i = i + 1;
    }
    let mut tar = Tarjan {
        vertices,
        stack_depth: 0,
        low_link,
        list_base: num_nodes,
        has_cycle: false,
        pos: Ghost(Seq::new(num_nodes as nat, |j: int| 0int)),
    };
    proof {
        assert(tar.white_set() =~= set_int_range(0, num_nodes as int));
        lemma_int_range(0, num_nodes as int);
        assert forall|v: int| 0 <= v < tar.n() implies #[trigger] tar.value_ok(
            values@,
            g,
            init,
            v,
        ) by {
            assert(init[v].wf());
        }
        assert forall|u: int, v: int| !#[trigger] tar.twin(u, v) by {}
    }
    let mut x: usize = 0;
    while x < num_nodes
        invariant
            g == successors@,
            tar.shape(),
            tar.sound(values@, g, init),
            tar.stack_depth == 0,
            tar.n() == num_nodes,
            x <= num_nodes,
            forall|v: int| 0 <= v < x ==> !#[trigger] tar.white(v),
        decreases num_nodes - x,
    {
        if tar.low_link[x] == 0 {
            let ghost m = tar;
            let ghost mv = values@;
            tar.traverse(values, successors, x, Ghost(init));
            proof {
                if !tar.done(x as int) {
                    assert(tar.seg_ok(values@, g, x as int, 0, tar.low(x as int)));
                }
                assert forall|v: int| 0 <= v < x implies !#[trigger] tar.white(v) by {
                    assert(!m.white(v));
                    assert(kept(m, tar, mv, values@, v));
                }
            }
        }
        x = x + 1;
    }
    let ghost mid = values@;
    proof {
        assert forall|v: int| 0 <= v < tar.n() implies #[trigger] tar.done(v) by {
            assert(tar.colored(v));
            assert(!tar.white(v));
        }
    }
    let mut x: usize = 0;
    while x < num_nodes
        invariant
            tar.shape(),
            tar.sound(mid, g, init),
            forall|v: int| 0 <= v < tar.n() ==> #[trigger] tar.done(v),
            tar.n() == num_nodes,
            values@.len() == num_nodes,
            x <= num_nodes,
            forall|v: int| x <= v < num_nodes ==> #[trigger] values@[v] == mid[v],
            forall|v: int|
                0 <= v < num_nodes && tar.head(v) == v ==> #[trigger] values@[v] == mid[v],
            forall|v: int|
                #![trigger values@[v]]
                0 <= v < x ==> values@[v].wf() && values@[v].contents()
                    == mid[tar.head(v)].contents(),
        decreases num_nodes - x,
    {
        proof {
            assert(tar.done(x as int));
            assert(tar.rep_ok(tar.low(x as int) - 1));
            assert(tar.value_ok(mid, g, init, x as int));
            assert(tar.value_ok(mid, g, init, tar.head(x as int)));
            assert(tar.head(tar.head(x as int)) == tar.head(x as int));
        }
        let head_x = tar.vertices[tar.low_link[x] - 1];
        if x != head_x {
            let ghost before = values@;
            proof {
                assert(values@[head_x as int] == mid[head_x as int]);
            }
            store_copy(values, x, head_x);
            proof {
                assert forall|v: int|
                    #![trigger values@[v]]
                    0 <= v < x + 1 implies values@[v].wf() && values@[v].contents()
                    == mid[tar.head(v)].contents() by {
                    if v < x {
                        assert(values@[v] == before[v]);
                    }
                }
                assert forall|v: int|
                    0 <= v < num_nodes && tar.head(v) == v implies #[trigger] values@[v]
                    == mid[v] by {
                    assert(before[v] == mid[v]);
                }
            }
        } else {
            proof {
                assert(values@[x as int] == mid[x as int]);
            }
        }
        x = x + 1;
    }
    proof {
        assert forall|v: int|
            #![trigger values@[v]]
            0 <= v < num_nodes implies values@[v].wf() && values@[v].contents() == reach_union(
            g,
            init,
            v,
        ) by {
            lemma_final(tar, mid, g, init, v);
        }
        if tar.has_cycle {
            let (u, v) = choose|u: int, v: int| #[trigger] tar.twin(u, v);
            assert(tar.value_ok(mid, g, init, u));
            assert(tar.value_ok(mid, g, init, v));
            lemma_reach_trans(g, u, tar.head(u), v);
            lemma_reach_trans(g, v, tar.head(v), u);
            assert(on_common_cycle(g, u, v));
        }
        if exists|u: int, v: int| on_common_cycle(g, u, v) {
            let (u, v) = choose|u: int, v: int| on_common_cycle(g, u, v);
            let m1 = choose|m: nat| reach_in(g, u, v, m);
            let m2 = choose|m: nat| reach_in(g, v, u, m);
            lemma_path_closed(tar, mid, g, init, u, v, m1);
            lemma_path_closed(tar, mid, g, init, v, u, m2);
            assert(tar.done(u));
            assert(tar.done(v));
            assert(tar.twin(u, v));
        }
    }
    tar.has_cycle
}

} // verus!
