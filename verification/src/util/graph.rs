//! What waits on what, and the order that gives.

use vstd::prelude::*;

verus! {

/// A relation of dependence between things known by number.
///
/// The things are kept in the order they were added, which is what breaks the
/// tie between two that could both be next.
pub struct DependencyGraph {
    nodes: Vec<usize>,
    /// Who depends on whom, by place among the nodes.
    edges: Vec<(usize, usize)>,
}

/// A graph: its nodes in the order they were added, and its edges between
/// places among them, the dependent's place first.
#[verifier::ext_equal]
pub struct GraphView {
    pub nodes: Seq<usize>,
    pub edges: Seq<(int, int)>,
}

/// An order in which everything comes after what it depends on, and the
/// circles that kept anything out of it.
pub struct DependencyOrder {
    order: Vec<usize>,
    cycles: Vec<Vec<usize>>,
}

impl GraphView {
    /// Every node is there once, and every edge is between two of them and
    /// there once.
    pub open spec fn wf(self) -> bool {
        &&& self.nodes.no_duplicates()
        &&& self.edges.no_duplicates()
        &&& forall|i: int|
            0 <= i < self.edges.len() ==> {
                &&& 0 <= (#[trigger] self.edges[i]).0 < self.nodes.len()
                &&& 0 <= self.edges[i].1 < self.nodes.len()
            }
    }

    /// Whether the node at `from` depends on the one at `to`, directly.
    pub open spec fn edge(self, from: int, to: int) -> bool {
        self.edges.contains((from, to))
    }

    /// Whether `steps` edges lead from `from` to `to`.
    pub open spec fn leads(self, steps: nat, from: int, to: int) -> bool
        decreases steps,
    {
        if steps == 0 {
            from == to
        } else {
            exists|mid: int| #[trigger] self.edge(from, mid) && self.leads((steps - 1) as nat, mid, to)
        }
    }

    /// Whether the node at `from` needs the one at `to`, directly or through
    /// others.
    pub open spec fn needs(self, from: int, to: int) -> bool {
        exists|steps: nat| steps > 0 && #[trigger] self.leads(steps, from, to)
    }

    /// Whether two nodes wait on each other in a circle.
    pub open spec fn circular(self, a: int, b: int) -> bool {
        self.needs(a, b) && self.needs(b, a)
    }

    /// The places of `keys`, and of everything they need.
    pub open spec fn wanted(self, keys: Seq<usize>) -> Set<int> {
        Set::new(
            |to: int|
                exists|from: int|
                    0 <= from < self.nodes.len() && keys.contains(#[trigger] self.nodes[from]) && (
                    from == to || self.needs(from, to)) && 0 <= to < self.nodes.len(),
        )
    }

    /// Whether the node at `place` can be next: it is wanted, not placed yet,
    /// and all it depends on is.
    pub open spec fn ready(self, wanted: Set<int>, placed: Seq<int>, place: int) -> bool {
        &&& wanted.contains(place)
        &&& !placed.contains(place)
        &&& forall|to: int| #[trigger] self.edge(place, to) ==> placed.contains(to)
    }

    /// The first place from `start` on whose node can be next, or the number
    /// of nodes if there is none.
    pub open spec fn next_ready(self, wanted: Set<int>, placed: Seq<int>, start: int) -> int
        decreases self.nodes.len() - start,
    {
        if start >= self.nodes.len() || self.ready(wanted, placed, start) {
            start
        } else {
            self.next_ready(wanted, placed, start + 1)
        }
    }

    /// `placed`, and after it up to `more` of the wanted nodes: each time the
    /// first whose dependencies are all placed.
    pub open spec fn ordered(self, wanted: Set<int>, placed: Seq<int>, more: nat) -> Seq<int>
        decreases more,
    {
        let next = self.next_ready(wanted, placed, 0);
        if more == 0 || next >= self.nodes.len() {
            placed
        } else {
            self.ordered(wanted, placed.push(next), (more - 1) as nat)
        }
    }

    /// The places of the wanted nodes, in the order that starts them.
    pub open spec fn order(self, wanted: Set<int>) -> Seq<int> {
        self.ordered(wanted, Seq::empty(), self.nodes.len())
    }

    /// The nodes at `places`.
    pub open spec fn at(self, places: Seq<int>) -> Seq<usize> {
        Seq::new(places.len(), |i: int| self.nodes[places[i]])
    }

    /// Those of the first `end` nodes that are in a circle with the one at
    /// `place`.
    pub open spec fn circle(self, place: int, end: int) -> Seq<usize>
        decreases end,
    {
        if end <= 0 {
            Seq::empty()
        } else if self.circular(place, end - 1) {
            self.circle(place, end - 1).push(self.nodes[end - 1])
        } else {
            self.circle(place, end - 1)
        }
    }

    /// Whether the node at `place` is the first of a circle.
    pub open spec fn opens_circle(self, place: int) -> bool {
        &&& self.needs(place, place)
        &&& forall|other: int| 0 <= other < place ==> !#[trigger] self.circular(place, other)
    }

    /// The circles among the wanted nodes, each as its nodes, by the first of
    /// them, as far as the first `end` nodes open any.
    pub open spec fn circles(self, wanted: Set<int>, end: int) -> Seq<Seq<usize>>
        decreases end,
    {
        if end <= 0 {
            Seq::empty()
        } else if wanted.contains(end - 1) && self.opens_circle(end - 1) {
            self.circles(wanted, end - 1).push(self.circle(end - 1, self.nodes.len() as int))
        } else {
            self.circles(wanted, end - 1)
        }
    }

    /// What `key` depends on, one edge out, as far as the first `end` edges
    /// say.
    pub open spec fn direct(self, key: usize, end: int) -> Seq<usize>
        decreases end,
    {
        if end <= 0 {
            Seq::empty()
        } else if self.nodes[self.edges[end - 1].0] == key {
            self.direct(key, end - 1).push(self.nodes[self.edges[end - 1].1])
        } else {
            self.direct(key, end - 1)
        }
    }
}

impl View for DependencyGraph {
    type V = GraphView;

    closed spec fn view(&self) -> GraphView {
        GraphView {
            nodes: self.nodes@,
            edges: Seq::new(
                self.edges@.len(),
                |i: int| (self.edges@[i].0 as int, self.edges@[i].1 as int),
            ),
        }
    }
}

impl DependencyOrder {
    /// The order it comes to.
    pub closed spec fn placed(self) -> Seq<usize> {
        self.order@
    }

    /// The circles it ran into.
    pub closed spec fn circles(self) -> Seq<Seq<usize>> {
        Seq::new(self.cycles@.len(), |i: int| self.cycles@[i]@)
    }

    /// Everything in an order that starts it.
    pub fn order(&self) -> (order: &Vec<usize>)
        ensures
            order@ == self.placed(),
    {
        &self.order
    }

    /// The circles that kept anything out of the order.
    pub fn cycles(&self) -> (cycles: &Vec<Vec<usize>>)
        ensures
            Seq::new(cycles@.len(), |i: int| cycles@[i]@) == self.circles(),
    {
        &self.cycles
    }
}

/// Two stretches of edges, end to end.
proof fn lemma_leads_on(graph: GraphView, m: nat, n: nat, a: int, b: int, c: int)
    requires
        graph.leads(m, a, b),
        graph.leads(n, b, c),
    ensures
        graph.leads(m + n, a, c),
    decreases m,
{
    if m > 0 {
        let mid = choose|mid: int| #[trigger]
            graph.edge(a, mid) && graph.leads((m - 1) as nat, mid, b);
        lemma_leads_on(graph, (m - 1) as nat, n, mid, b, c);
        assert(graph.edge(a, mid) && graph.leads((m + n - 1) as nat, mid, c));
    }
}

/// Needing goes through.
pub proof fn lemma_needs_on(graph: GraphView, a: int, b: int, c: int)
    requires
        graph.needs(a, b),
        graph.needs(b, c),
    ensures
        graph.needs(a, c),
{
    let m = choose|m: nat| m > 0 && #[trigger] graph.leads(m, a, b);
    let n = choose|n: nat| n > 0 && #[trigger] graph.leads(n, b, c);
    lemma_leads_on(graph, m, n, a, b, c);
}

/// An edge is needing.
pub proof fn lemma_edge_needs(graph: GraphView, a: int, b: int)
    requires
        graph.edge(a, b),
    ensures
        graph.needs(a, b),
{
    assert(graph.leads(0, b, b));
    assert(graph.leads(1, a, b));
}

/// What is needed is a node.
pub proof fn lemma_needs_inside(graph: GraphView, a: int, b: int)
    requires
        graph.wf(),
        graph.needs(a, b),
    ensures
        0 <= a < graph.nodes.len(),
        0 <= b < graph.nodes.len(),
{
    let n = choose|n: nat| n > 0 && #[trigger] graph.leads(n, a, b);
    lemma_leads_inside(graph, n, a, b);
}

proof fn lemma_leads_inside(graph: GraphView, n: nat, a: int, b: int)
    requires
        graph.wf(),
        n > 0,
        graph.leads(n, a, b),
    ensures
        0 <= a < graph.nodes.len(),
        0 <= b < graph.nodes.len(),
    decreases n,
{
    let mid = choose|mid: int| #[trigger]
        graph.edge(a, mid) && graph.leads((n - 1) as nat, mid, b);
    if n > 1 {
        lemma_leads_inside(graph, (n - 1) as nat, mid, b);
    }
}

/// A set that holds what every member depends on holds what every member
/// needs.
proof fn lemma_closed_holds(graph: GraphView, flags: Seq<bool>, n: nat, a: int, b: int)
    requires
        graph.wf(),
        flags.len() == graph.nodes.len(),
        0 <= a < flags.len(),
        flags[a],
        forall|i: int, j: int|
            0 <= i < flags.len() && 0 <= j < flags.len() && #[trigger] graph.edge(i, j) && flags[i]
                ==> flags[j],
        graph.leads(n, a, b),
    ensures
        0 <= b < flags.len(),
        flags[b],
    decreases n,
{
    if n > 0 {
        let mid = choose|mid: int| #[trigger]
            graph.edge(a, mid) && graph.leads((n - 1) as nat, mid, b);
        assert(0 <= mid < graph.nodes.len());
        lemma_closed_holds(graph, flags, (n - 1) as nat, mid, b);
    }
}

/// How many of the flags are down.
spec fn down(flags: Seq<bool>) -> nat
    decreases flags.len(),
{
    if flags.len() == 0 {
        0
    } else {
        down(flags.drop_last()) + if flags.last() {
            0nat
        } else {
            1nat
        }
    }
}

proof fn lemma_raised(flags: Seq<bool>, i: int)
    requires
        0 <= i < flags.len(),
        !flags[i],
    ensures
        down(flags.update(i, true)) + 1 == down(flags),
    decreases flags.len(),
{
    if i == flags.len() - 1 {
        assert(flags.update(i, true).drop_last() == flags.drop_last());
    } else {
        assert(flags.update(i, true).drop_last() == flags.drop_last().update(i, true));
        lemma_raised(flags.drop_last(), i);
    }
}

impl DependencyGraph {
    /// A graph of nothing.
    pub fn new() -> (graph: Self)
        ensures
            graph@.wf(),
            graph@.nodes == Seq::<usize>::empty(),
            graph@.edges == Seq::<(int, int)>::empty(),
    {
        DependencyGraph { nodes: Vec::new(), edges: Vec::new() }
    }

    /// Where `key` is among the nodes, or how many there are if it is not.
    fn place(&self, key: usize) -> (place: usize)
        ensures
            place <= self@.nodes.len(),
            place < self@.nodes.len() ==> self@.nodes[place as int] == key,
            place < self@.nodes.len() <==> self@.nodes.contains(key),
    {
        let mut place: usize = 0;
        while place < self.nodes.len()
            invariant
                place <= self.nodes@.len(),
                forall|i: int| 0 <= i < place ==> self.nodes@[i] != key,
            decreases self.nodes@.len() - place,
        {
            if self.nodes[place] == key {
                return place;
            }
            place = place + 1;
        }
        place
    }

    /// Whether `key` was added.
    pub fn contains(&self, key: usize) -> (found: bool)
        ensures
            found == self@.nodes.contains(key),
    {
        self.place(key) < self.nodes.len()
    }

    /// Add `key`, depending on nothing. One that is there already stays where
    /// it is.
    pub fn insert(&mut self, key: usize)
        requires
            old(self)@.wf(),
        ensures
            final(self)@.wf(),
            final(self)@.edges == old(self)@.edges,
            final(self)@.nodes == if old(self)@.nodes.contains(key) {
                old(self)@.nodes
            } else {
                old(self)@.nodes.push(key)
            },
    {
        if !self.contains(key) {
            self.nodes.push(key);
        }
        proof {
            assert(self@.edges == old(self)@.edges);
            assert(self@.wf()) by {
                assert forall|i: int| 0 <= i < self@.edges.len() implies 0
                    <= (#[trigger] self@.edges[i]).0 < self@.nodes.len() && 0 <= self@.edges[i].1
                    < self@.nodes.len() by {
                    assert(old(self)@.edges[i] == self@.edges[i]);
                }
            }
        }
    }

    /// Say that `from` depends on `to`. Said twice it is said once.
    pub fn add_dependency(&mut self, from: usize, to: usize)
        requires
            old(self)@.wf(),
            old(self)@.nodes.contains(from),
            old(self)@.nodes.contains(to),
        ensures
            final(self)@.wf(),
            final(self)@.nodes == old(self)@.nodes,
            ({
                let edge = (old(self)@.nodes.index_of(from), old(self)@.nodes.index_of(to));
                final(self)@.edges == if old(self)@.edges.contains(edge) {
                    old(self)@.edges
                } else {
                    old(self)@.edges.push(edge)
                }
            }),
    {
        let a = self.place(from);
        let b = self.place(to);
        let ghost before = self@;
        proof {
            assert(self@.nodes.index_of(from) == a) by {
                assert(self@.nodes[self@.nodes.index_of(from)] == from);
            }
            assert(self@.nodes.index_of(to) == b) by {
                assert(self@.nodes[self@.nodes.index_of(to)] == to);
            }
        }
        let mut i: usize = 0;
        while i < self.edges.len()
            invariant
                *self == *old(self),
                before == self@,
                i <= self.edges@.len(),
                forall|j: int| 0 <= j < i ==> self.edges@[j] != (a, b),
                before.nodes.index_of(from) == a,
                before.nodes.index_of(to) == b,
                self@.wf(),
            decreases self.edges@.len() - i,
        {
            if self.edges[i].0 == a && self.edges[i].1 == b {
                assert(self@.edges[i as int] == (a as int, b as int));
                return ;
            }
            i = i + 1;
        }
        self.edges.push((a, b));
        proof {
            assert(self@.edges == before.edges.push((a as int, b as int)));
            assert(!before.edges.contains((a as int, b as int))) by {
                assert forall|j: int| 0 <= j < before.edges.len() implies before.edges[j] != (
                    a as int,
                    b as int,
                ) by {
                    assert(old(self).edges@[j] != (a, b));
                }
            }
            assert(self@.edges.no_duplicates());
            assert forall|i: int| 0 <= i < self@.edges.len() implies 0 <= (
            #[trigger] self@.edges[i]).0 < self@.nodes.len() && 0 <= self@.edges[i].1
                < self@.nodes.len() by {
                if i < before.edges.len() {
                    assert(before.edges[i] == self@.edges[i]);
                }
            }
        }
    }

    /// What `key` depends on, one edge out.
    pub fn dependencies(&self, key: usize) -> (found: Vec<usize>)
        requires
            self@.wf(),
        ensures
            found@ == self@.direct(key, self@.edges.len() as int),
    {
        let mut found: Vec<usize> = Vec::new();
        let mut i: usize = 0;
        while i < self.edges.len()
            invariant
                self@.wf(),
                i <= self.edges@.len(),
                found@ == self@.direct(key, i as int),
            decreases self.edges@.len() - i,
        {
            assert(self@.edges[i as int] == (self.edges@[i as int].0 as int, self.edges@[i as int].1 as int));
            if self.nodes[self.edges[i].0] == key {
                found.push(self.nodes[self.edges[i].1]);
            }
            i = i + 1;
        }
        found
    }

    /// Raise every flag that a raised one's node needs.
    fn spread(&self, seed: Vec<bool>) -> (flags: Vec<bool>)
        requires
            self@.wf(),
            seed@.len() == self@.nodes.len(),
        ensures
            flags@.len() == seed@.len(),
            forall|to: int|
                0 <= to < flags@.len() ==> (#[trigger] flags@[to] <==> exists|from: int|
                    0 <= from < seed@.len() && #[trigger] seed@[from] && (from == to || self@.needs(
                        from,
                        to,
                    ))),
    {
        let ghost graph = self@;
        let ghost first = seed@;
        let mut flags = seed;
        let mut settled = false;
        while !settled
            invariant
                graph == self@,
                graph.wf(),
                first.len() == graph.nodes.len(),
                flags@.len() == first.len(),
                forall|i: int| 0 <= i < first.len() && first[i] ==> flags@[i],
                forall|to: int|
                    0 <= to < flags@.len() && #[trigger] flags@[to] ==> exists|from: int|
                        0 <= from < first.len() && #[trigger] first[from] && (from == to
                            || graph.needs(from, to)),
                settled ==> forall|i: int, j: int|
                    0 <= i < flags@.len() && 0 <= j < flags@.len() && #[trigger] graph.edge(i, j)
                        && flags@[i] ==> flags@[j],
            decreases down(flags@), if settled { 0int } else { 1int },
        {
            settled = true;
            let ghost before = flags@;
            let mut i: usize = 0;
            while i < self.edges.len()
                invariant
                    graph == self@,
                    graph.wf(),
                    first.len() == graph.nodes.len(),
                    flags@.len() == first.len(),
                    i <= self.edges@.len(),
                    forall|i: int| 0 <= i < first.len() && first[i] ==> flags@[i],
                    forall|to: int|
                        0 <= to < flags@.len() && #[trigger] flags@[to] ==> exists|from: int|
                            0 <= from < first.len() && #[trigger] first[from] && (from == to
                                || graph.needs(from, to)),
                    settled ==> flags@ == before,
                    !settled ==> down(flags@) < down(before),
                    settled ==> forall|k: int|
                        0 <= k < i && flags@[(#[trigger] graph.edges[k]).0]
                            ==> flags@[graph.edges[k].1],
                decreases self.edges@.len() - i,
            {
                let a = self.edges[i].0;
                let b = self.edges[i].1;
                assert(graph.edges[i as int] == (a as int, b as int));
                if flags[a] && !flags[b] {
                    proof {
                        lemma_raised(flags@, b as int);
                        assert(graph.edge(a as int, b as int));
                        lemma_edge_needs(graph, a as int, b as int);
                        let from = choose|from: int|
                            0 <= from < first.len() && #[trigger] first[from] && (from == a as int
                                || graph.needs(from, a as int));
                        if from != a as int {
                            lemma_needs_on(graph, from, a as int, b as int);
                        }
                    }
                    flags.set(b, true);
                    settled = false;
                }
                i = i + 1;
            }
            proof {
                if settled {
                    assert forall|i: int, j: int|
                        0 <= i < flags@.len() && 0 <= j < flags@.len() && #[trigger] graph.edge(
                            i,
                            j,
                        ) && flags@[i] implies flags@[j] by {
                        let k = graph.edges.index_of((i, j));
                        assert(graph.edges[k] == (i, j));
                    }
                }
            }
        }
        proof {
            assert forall|to: int|
                0 <= to < flags@.len() && (exists|from: int|
                    0 <= from < first.len() && #[trigger] first[from] && (from == to
                        || graph.needs(from, to))) implies #[trigger] flags@[to] by {
                let from = choose|from: int|
                    0 <= from < first.len() && #[trigger] first[from] && (from == to
                        || graph.needs(from, to));
                if from != to {
                    let n = choose|n: nat| n > 0 && #[trigger] graph.leads(n, from, to);
                    lemma_closed_holds(graph, flags@, n, from, to);
                }
            }
        }
        flags
    }

    /// Which nodes the one at `place` needs.
    fn needed_by(&self, place: usize) -> (flags: Vec<bool>)
        requires
            self@.wf(),
            place < self@.nodes.len(),
        ensures
            flags@.len() == self@.nodes.len(),
            forall|to: int|
                0 <= to < flags@.len() ==> (#[trigger] flags@[to] <==> self@.needs(
                    place as int,
                    to,
                )),
    {
        let ghost graph = self@;
        let ghost from = place as int;
        let mut seed: Vec<bool> = Vec::new();
        while seed.len() < self.nodes.len()
            invariant
                seed@.len() <= self.nodes@.len(),
                forall|i: int| 0 <= i < seed@.len() ==> !seed@[i],
            decreases self.nodes@.len() - seed@.len(),
        {
            seed.push(false);
        }
        let mut i: usize = 0;
        while i < self.edges.len()
            invariant
                graph == self@,
                graph.wf(),
                from == place as int,
                seed@.len() == graph.nodes.len(),
                i <= self.edges@.len(),
                forall|to: int|
                    0 <= to < seed@.len() ==> (#[trigger] seed@[to] <==> exists|k: int|
                        0 <= k < i && #[trigger] graph.edges[k] == (from, to)),
            decreases self.edges@.len() - i,
        {
            let a = self.edges[i].0;
            let b = self.edges[i].1;
            assert(graph.edges[i as int] == (a as int, b as int));
            let ghost before = seed@;
            if a == place {
                seed.set(b, true);
            }
            proof {
                assert forall|to: int| 0 <= to < seed@.len() implies (#[trigger] seed@[to]
                    <==> exists|k: int|
                    0 <= k < i + 1 && #[trigger] graph.edges[k] == (from, to)) by {
                    if before[to] {
                        let k = choose|k: int|
                            0 <= k < i && #[trigger] graph.edges[k] == (from, to);
                        assert(graph.edges[k] == (from, to));
                    }
                    if exists|k: int| 0 <= k < i + 1 && #[trigger] graph.edges[k] == (from, to) {
                        let k = choose|k: int|
                            0 <= k < i + 1 && #[trigger] graph.edges[k] == (from, to);
                        if k < i {
                            assert(before[to]);
                        }
                    }
                }
            }
            i = i + 1;
        }
        let ghost direct = seed@;
        let flags = self.spread(seed);
        proof {
            assert forall|to: int| 0 <= to < flags@.len() implies (#[trigger] flags@[to]
                <==> graph.needs(from, to)) by {
                if flags@[to] {
                    let mid = choose|mid: int|
                        0 <= mid < direct.len() && #[trigger] direct[mid] && (mid == to
                            || graph.needs(mid, to));
                    assert(graph.edge(from, mid));
                    lemma_edge_needs(graph, from, mid);
                    if mid != to {
                        lemma_needs_on(graph, from, mid, to);
                    }
                }
                if graph.needs(from, to) {
                    let n = choose|n: nat| n > 0 && #[trigger] graph.leads(n, from, to);
                    let mid = choose|mid: int| #[trigger]
                        graph.edge(from, mid) && graph.leads((n - 1) as nat, mid, to);
                    let k = graph.edges.index_of((from, mid));
                    assert(graph.edges[k] == (from, mid));
                    assert(direct[mid]);
                    if mid != to {
                        assert(n - 1 > 0);
                        assert(graph.needs(mid, to));
                    }
                }
            }
        }
        flags
    }

    /// Which nodes each node needs.
    fn needs_table(&self) -> (table: Vec<Vec<bool>>)
        requires
            self@.wf(),
        ensures
            table@.len() == self@.nodes.len(),
            forall|from: int|
                0 <= from < table@.len() ==> (#[trigger] table@[from])@.len() == self@.nodes.len(),
            forall|from: int, to: int|
                0 <= from < table@.len() && 0 <= to < self@.nodes.len() ==> (
                #[trigger] table@[from]@[to] <==> self@.needs(from, to)),
    {
        let mut table: Vec<Vec<bool>> = Vec::new();
        while table.len() < self.nodes.len()
            invariant
                self@.wf(),
                table@.len() <= self@.nodes.len(),
                forall|from: int|
                    0 <= from < table@.len() ==> (#[trigger] table@[from])@.len()
                        == self@.nodes.len(),
                forall|from: int, to: int|
                    0 <= from < table@.len() && 0 <= to < self@.nodes.len() ==> (
                    #[trigger] table@[from]@[to] <==> self@.needs(from, to)),
            decreases self.nodes@.len() - table@.len(),
        {
            let flags = self.needed_by(table.len());
            table.push(flags);
        }
        table
    }

    /// The circles among the wanted nodes.
    fn find_circles(&self, wanted: &Vec<bool>, Ghost(set): Ghost<Set<int>>) -> (cycles: Vec<
        Vec<usize>,
    >)
        requires
            self@.wf(),
            wanted@.len() == self@.nodes.len(),
            forall|i: int|
                0 <= i < wanted@.len() ==> (#[trigger] wanted@[i] <==> set.contains(i)),
        ensures
            Seq::new(cycles@.len(), |i: int| cycles@[i]@) == self@.circles(
                set,
                self@.nodes.len() as int,
            ),
    {
        let ghost graph = self@;
        let table = self.needs_table();
        let mut cycles: Vec<Vec<usize>> = Vec::new();
        let count = self.nodes.len();
        let mut place: usize = 0;
        while place < count
            invariant
                graph == self@,
                graph.wf(),
                count == graph.nodes.len(),
                place <= count,
                wanted@.len() == count,
                forall|i: int|
                    0 <= i < wanted@.len() ==> (#[trigger] wanted@[i] <==> set.contains(i)),
                table@.len() == count,
                forall|from: int| 0 <= from < table@.len() ==> (#[trigger] table@[from])@.len() == count,
                forall|from: int, to: int|
                    0 <= from < table@.len() && 0 <= to < count ==> (#[trigger] table@[from]@[to]
                        <==> graph.needs(from, to)),
                Seq::new(cycles@.len(), |i: int| cycles@[i]@) == graph.circles(set, place as int),
            decreases count - place,
        {
            let mut opens = table[place][place];
            let mut circle: Vec<usize> = Vec::new();
            let mut other: usize = 0;
            while other < count
                invariant
                    graph == self@,
                    count == graph.nodes.len(),
                    place < count,
                    other <= count,
                    table@.len() == count,
                    forall|from: int|
                        0 <= from < table@.len() ==> (#[trigger] table@[from])@.len() == count,
                    forall|from: int, to: int|
                        0 <= from < table@.len() && 0 <= to < count ==> (
                        #[trigger] table@[from]@[to] <==> graph.needs(from, to)),
                    circle@ == graph.circle(place as int, other as int),
                    opens <==> graph.needs(place as int, place as int) && forall|before: int|
                        0 <= before < other && before < place ==> !#[trigger] graph.circular(
                            place as int,
                            before,
                        ),
                decreases count - other,
            {
                let circular = table[place][other] && table[other][place];
                assert(circular == graph.circular(place as int, other as int));
                if circular {
                    circle.push(self.nodes[other]);
                    if other < place {
                        opens = false;
                    }
                }
                other = other + 1;
            }
            assert(opens == graph.opens_circle(place as int));
            let ghost before = Seq::new(cycles@.len(), |i: int| cycles@[i]@);
            if wanted[place] && opens {
                cycles.push(circle);
                assert(Seq::new(cycles@.len(), |i: int| cycles@[i]@) == before.push(circle@));
            }
            place = place + 1;
        }
        cycles
    }

    /// Whether the node at `place` can be next.
    fn is_ready(
        &self,
        wanted: &Vec<bool>,
        flags: &Vec<bool>,
        place: usize,
        Ghost(set): Ghost<Set<int>>,
        Ghost(placed): Ghost<Seq<int>>,
    ) -> (ready: bool)
        requires
            self@.wf(),
            place < self@.nodes.len(),
            wanted@.len() == self@.nodes.len(),
            flags@.len() == self@.nodes.len(),
            forall|i: int|
                0 <= i < wanted@.len() ==> (#[trigger] wanted@[i] <==> set.contains(i)),
            forall|i: int| 0 <= i < flags@.len() ==> (#[trigger] flags@[i] <==> placed.contains(i)),
        ensures
            ready == self@.ready(set, placed, place as int),
    {
        let ghost graph = self@;
        if !wanted[place] || flags[place] {
            return false;
        }
        let mut i: usize = 0;
        while i < self.edges.len()
            invariant
                graph == self@,
                graph.wf(),
                place < graph.nodes.len(),
                flags@.len() == graph.nodes.len(),
                forall|i: int|
                    0 <= i < flags@.len() ==> (#[trigger] flags@[i] <==> placed.contains(i)),
                i <= self.edges@.len(),
                forall|k: int|
                    0 <= k < i && (#[trigger] graph.edges[k]).0 == place as int
                        ==> placed.contains(graph.edges[k].1),
            decreases self.edges@.len() - i,
        {
            let a = self.edges[i].0;
            let b = self.edges[i].1;
            assert(graph.edges[i as int] == (a as int, b as int));
            if a == place && !flags[b] {
                assert(graph.edge(place as int, b as int));
                return false;
            }
            i = i + 1;
        }
        proof {
            assert forall|to: int| #[trigger] graph.edge(place as int, to) implies placed.contains(
                to,
            ) by {
                let k = graph.edges.index_of((place as int, to));
                assert(graph.edges[k] == (place as int, to));
            }
        }
        true
    }

    /// The wanted nodes, in the order that starts them.
    fn find_order(&self, wanted: &Vec<bool>, Ghost(set): Ghost<Set<int>>) -> (order: Vec<usize>)
        requires
            self@.wf(),
            wanted@.len() == self@.nodes.len(),
            forall|i: int|
                0 <= i < wanted@.len() ==> (#[trigger] wanted@[i] <==> set.contains(i)),
        ensures
            order@ == self@.at(self@.order(set)),
    {
        let ghost graph = self@;
        let count = self.nodes.len();
        let mut flags: Vec<bool> = Vec::new();
        while flags.len() < count
            invariant
                flags@.len() <= count,
                forall|i: int| 0 <= i < flags@.len() ==> !flags@[i],
            decreases count - flags@.len(),
        {
            flags.push(false);
        }
        let mut order: Vec<usize> = Vec::new();
        let ghost mut placed = Seq::<int>::empty();
        assert(order@ == graph.at(placed));
        let mut more: usize = count;
        while more > 0
            invariant_except_break
                graph.order(set) == graph.ordered(set, placed, more as nat),
            invariant
                graph == self@,
                graph.wf(),
                count == graph.nodes.len(),
                wanted@.len() == count,
                forall|i: int|
                    0 <= i < wanted@.len() ==> (#[trigger] wanted@[i] <==> set.contains(i)),
                flags@.len() == count,
                forall|i: int|
                    0 <= i < flags@.len() ==> (#[trigger] flags@[i] <==> placed.contains(i)),
                order@ == graph.at(placed),
            ensures
                graph.order(set) == placed,
            decreases more,
        {
            let mut next: usize = 0;
            while next < count && !self.is_ready(wanted, &flags, next, Ghost(set), Ghost(placed))
                invariant
                    graph == self@,
                    graph.wf(),
                    count == graph.nodes.len(),
                    next <= count,
                    wanted@.len() == count,
                    forall|i: int|
                        0 <= i < wanted@.len() ==> (#[trigger] wanted@[i] <==> set.contains(i)),
                    flags@.len() == count,
                    forall|i: int|
                        0 <= i < flags@.len() ==> (#[trigger] flags@[i] <==> placed.contains(i)),
                    graph.next_ready(set, placed, 0) == graph.next_ready(set, placed, next as int),
                ensures
                    next <= count,
                    graph.next_ready(set, placed, 0) == next,
                decreases count - next,
            {
                next = next + 1;
            }
            if next == count {
                break ;
            }
            let ghost before = placed;
            flags.set(next, true);
            order.push(self.nodes[next]);
            proof {
                placed = before.push(next as int);
                assert(order@ == graph.at(placed));
                assert forall|i: int| 0 <= i < flags@.len() implies (#[trigger] flags@[i]
                    <==> placed.contains(i)) by {
                    assert(placed[before.len() as int] == next);
                    if before.contains(i) {
                        let k = before.index_of(i);
                        assert(placed[k] == i);
                    }
                    if placed.contains(i) && i != next {
                        let k = placed.index_of(i);
                        assert(before[k] == i);
                    }
                }
            }
            more = more - 1;
        }
        order
    }

    /// Everything `keys` need, transitively, in an order that starts them. A
    /// key that was never added is passed over.
    pub fn resolve_from_many(&self, keys: &[usize]) -> (resolved: DependencyOrder)
        requires
            self@.wf(),
        ensures
            resolved.placed() == self@.at(self@.order(self@.wanted(keys@))),
            resolved.circles() == self@.circles(self@.wanted(keys@), self@.nodes.len() as int),
    {
        let ghost graph = self@;
        let mut seed: Vec<bool> = Vec::new();
        while seed.len() < self.nodes.len()
            invariant
                graph == self@,
                seed@.len() <= graph.nodes.len(),
                forall|i: int|
                    0 <= i < seed@.len() ==> (#[trigger] seed@[i] <==> keys@.contains(
                        graph.nodes[i],
                    )),
            decreases self.nodes@.len() - seed@.len(),
        {
            let named = is_among(keys, self.nodes[seed.len()]);
            seed.push(named);
        }
        let ghost direct = seed@;
        let wanted = self.spread(seed);
        let ghost set = graph.wanted(keys@);
        proof {
            assert forall|i: int| 0 <= i < wanted@.len() implies (#[trigger] wanted@[i]
                <==> set.contains(i)) by {
                if wanted@[i] {
                    let from = choose|from: int|
                        0 <= from < direct.len() && #[trigger] direct[from] && (from == i
                            || graph.needs(from, i));
                    assert(keys@.contains(graph.nodes[from]));
                }
                if set.contains(i) {
                    let from = choose|from: int|
                        0 <= from < graph.nodes.len() && keys@.contains(
                            #[trigger] graph.nodes[from],
                        ) && (from == i || graph.needs(from, i)) && 0 <= i < graph.nodes.len();
                    assert(direct[from]);
                }
            }
        }
        let order = self.find_order(&wanted, Ghost(set));
        let cycles = self.find_circles(&wanted, Ghost(set));
        DependencyOrder { order, cycles }
    }

    /// Everything in an order that starts it, and every circle.
    pub fn resolve(&self) -> (resolved: DependencyOrder)
        requires
            self@.wf(),
        ensures
            resolved.placed() == self@.at(self@.order(self@.wanted(self@.nodes))),
            resolved.circles() == self@.circles(self@.wanted(self@.nodes), self@.nodes.len() as int),
    {
        self.resolve_from_many(self.nodes.as_slice())
    }
}

/// Whether `key` is one of `keys`.
fn is_among(keys: &[usize], key: usize) -> (found: bool)
    ensures
        found == keys@.contains(key),
{
    let mut i: usize = 0;
    while i < keys.len()
        invariant
            i <= keys@.len(),
            forall|j: int| 0 <= j < i ==> keys@[j] != key,
        decreases keys@.len() - i,
    {
        if keys[i] == key {
            return true;
        }
        i = i + 1;
    }
    false
}

/// Whether `placed` is an order so far: nothing twice, nothing that is not
/// wanted, and everything after what it depends on.
pub open spec fn in_order(graph: GraphView, wanted: Set<int>, placed: Seq<int>) -> bool {
    &&& placed.no_duplicates()
    &&& forall|i: int| 0 <= i < placed.len() ==> wanted.contains(#[trigger] placed[i])
    &&& forall|i: int, to: int|
        0 <= i < placed.len() && #[trigger] graph.edge(placed[i], to) ==> placed.take(i).contains(
            to,
        )
}

proof fn lemma_next_ready(graph: GraphView, wanted: Set<int>, placed: Seq<int>, start: int)
    requires
        0 <= start <= graph.nodes.len(),
    ensures
        start <= graph.next_ready(wanted, placed, start) <= graph.nodes.len(),
        graph.next_ready(wanted, placed, start) < graph.nodes.len() ==> graph.ready(
            wanted,
            placed,
            graph.next_ready(wanted, placed, start),
        ),
        forall|i: int|
            start <= i < graph.next_ready(wanted, placed, start) ==> !#[trigger] graph.ready(
                wanted,
                placed,
                i,
            ),
    decreases graph.nodes.len() - start,
{
    if start < graph.nodes.len() && !graph.ready(wanted, placed, start) {
        lemma_next_ready(graph, wanted, placed, start + 1);
    }
}

/// Placing keeps the order, and stops only when nothing is left that could be
/// next.
proof fn lemma_ordered(graph: GraphView, wanted: Set<int>, placed: Seq<int>, more: nat)
    requires
        graph.wf(),
        in_order(graph, wanted, placed),
        forall|i: int| 0 <= i < placed.len() ==> 0 <= #[trigger] placed[i] < graph.nodes.len(),
    ensures
        in_order(graph, wanted, graph.ordered(wanted, placed, more)),
        forall|i: int|
            0 <= i < graph.ordered(wanted, placed, more).len() ==> 0 <= #[trigger] graph.ordered(
                wanted,
                placed,
                more,
            )[i] < graph.nodes.len(),
        graph.ordered(wanted, placed, more).len() == placed.len() + more || forall|i: int|
            0 <= i < graph.nodes.len() ==> !#[trigger] graph.ready(
                wanted,
                graph.ordered(wanted, placed, more),
                i,
            ),
    decreases more,
{
    let next = graph.next_ready(wanted, placed, 0);
    lemma_next_ready(graph, wanted, placed, 0);
    if more > 0 && next < graph.nodes.len() {
        let after = placed.push(next);
        assert forall|i: int, to: int|
            0 <= i < after.len() && #[trigger] graph.edge(after[i], to) implies after.take(
            i,
        ).contains(to) by {
            if i < placed.len() {
                assert(placed[i] == after[i]);
                assert(graph.edge(placed[i], to));
                assert(placed.take(i) == after.take(i));
            } else {
                assert(after.take(i) == placed);
            }
        }
        assert forall|i: int| 0 <= i < after.len() implies wanted.contains(#[trigger] after[i]) && 0
            <= after[i] < graph.nodes.len() by {
            if i < placed.len() {
                assert(placed[i] == after[i]);
            }
        }
        assert(after.no_duplicates());
        lemma_ordered(graph, wanted, after, (more - 1) as nat);
    }
}

/// The order holds nothing twice and nothing that is not wanted, and nothing
/// in it comes before what it depends on.
pub proof fn everything_comes_after_what_it_depends_on(graph: GraphView, wanted: Set<int>)
    requires
        graph.wf(),
    ensures
        in_order(graph, wanted, graph.order(wanted)),
        forall|i: int|
            0 <= i < graph.order(wanted).len() ==> 0 <= #[trigger] graph.order(wanted)[i]
                < graph.nodes.len(),
{
    lemma_ordered(graph, wanted, Seq::empty(), graph.nodes.len());
}

/// Places without a repeat, all under `bound`, are no more than `bound`.
pub proof fn lemma_no_more_than(places: Seq<int>, bound: int)
    requires
        bound >= 0,
        places.no_duplicates(),
        forall|i: int| 0 <= i < places.len() ==> 0 <= #[trigger] places[i] < bound,
    ensures
        places.len() <= bound,
        places.len() == bound ==> forall|i: int| 0 <= i < bound ==> #[trigger] places.contains(i),
{
    let all = vstd::set_lib::set_int_range(0, bound);
    vstd::set_lib::lemma_int_range(0, bound);
    places.unique_seq_to_set();
    assert(places.to_set().subset_of(all));
    vstd::set_lib::lemma_len_subset(places.to_set(), all);
    if places.len() == bound {
        vstd::set_lib::lemma_subset_equality(places.to_set(), all);
        assert forall|i: int| 0 <= i < bound implies #[trigger] places.contains(i) by {
            assert(all.contains(i));
            assert(places.to_set().contains(i));
        }
    }
}

/// Whether the node at `place` is wanted and was never placed.
spec fn left_out(graph: GraphView, wanted: Set<int>, placed: Seq<int>, place: int) -> bool {
    0 <= place < graph.nodes.len() && wanted.contains(place) && !placed.contains(place)
}

/// From a node left out, a walk of any length through nodes left out.
proof fn lemma_walk(
    graph: GraphView,
    wanted: Set<int>,
    placed: Seq<int>,
    start: int,
    length: nat,
) -> (walk: Seq<int>)
    requires
        graph.wf(),
        left_out(graph, wanted, placed, start),
        forall|i: int|
            0 <= i < graph.nodes.len() ==> !#[trigger] graph.ready(wanted, placed, i),
        forall|i: int, j: int|
            #[trigger] graph.edge(i, j) && wanted.contains(i) ==> wanted.contains(j),
    ensures
        walk.len() == length + 1,
        walk[0] == start,
        forall|i: int|
            0 <= i < walk.len() ==> left_out(graph, wanted, placed, #[trigger] walk[i]),
        forall|i: int, j: int|
            0 <= i < j < walk.len() ==> graph.needs(#[trigger] walk[i], #[trigger] walk[j]),
    decreases length,
{
    if length == 0 {
        seq![start]
    } else {
        assert(!graph.ready(wanted, placed, start));
        let next = choose|next: int| #[trigger] graph.edge(start, next) && !placed.contains(next);
        assert(graph.edge(start, next) && !placed.contains(next));
        assert(0 <= next < graph.nodes.len()) by {
            let k = graph.edges.index_of((start, next));
            assert(graph.edges[k] == (start, next));
        }
        lemma_edge_needs(graph, start, next);
        let rest = lemma_walk(graph, wanted, placed, next, (length - 1) as nat);
        let walk = seq![start] + rest;
        assert forall|i: int, j: int| 0 <= i < j < walk.len() implies graph.needs(
            #[trigger] walk[i],
            #[trigger] walk[j],
        ) by {
            if i == 0 {
                if j > 1 {
                    assert(graph.needs(rest[0], rest[j - 1]));
                    lemma_needs_on(graph, start, next, walk[j]);
                }
            } else {
                assert(graph.needs(rest[i - 1], rest[j - 1]));
            }
        }
        walk
    }
}

/// What is wanted takes in what it depends on.
pub proof fn lemma_wanted_closed(graph: GraphView, keys: Seq<usize>, from: int, to: int)
    requires
        graph.wf(),
        graph.needs(from, to),
        graph.wanted(keys).contains(from),
    ensures
        graph.wanted(keys).contains(to),
{
    lemma_needs_inside(graph, from, to);
    let first = choose|first: int|
        0 <= first < graph.nodes.len() && keys.contains(#[trigger] graph.nodes[first]) && (first
            == from || graph.needs(first, from)) && 0 <= from < graph.nodes.len();
    if first != from {
        lemma_needs_on(graph, first, from, to);
    }
    assert(keys.contains(graph.nodes[first]));
}

/// Without a circle among them, everything wanted is in the order: each key
/// asked for that is a node, and whatever it needs.
pub proof fn without_a_circle_everything_is_placed(graph: GraphView, keys: Seq<usize>)
    requires
        graph.wf(),
        forall|i: int|
            graph.wanted(keys).contains(i) ==> !#[trigger] graph.needs(i, i),
    ensures
        forall|i: int|
            #[trigger] graph.wanted(keys).contains(i) ==> graph.order(
                graph.wanted(keys),
            ).contains(i),
{
    let wanted = graph.wanted(keys);
    let placed = graph.order(wanted);
    lemma_ordered(graph, wanted, Seq::empty(), graph.nodes.len());
    lemma_no_more_than(placed, graph.nodes.len() as int);
    assert forall|i: int| #[trigger] wanted.contains(i) implies placed.contains(i) by {
        if placed.len() != graph.nodes.len() && !placed.contains(i) {
            assert forall|i: int, j: int| #[trigger]
                graph.edge(i, j) && wanted.contains(i) implies wanted.contains(j) by {
                lemma_edge_needs(graph, i, j);
                lemma_wanted_closed(graph, keys, i, j);
            }
            let walk = lemma_walk(graph, wanted, placed, i, graph.nodes.len());
            if walk.no_duplicates() {
                assert forall|k: int| 0 <= k < walk.len() implies 0 <= #[trigger] walk[k]
                    < graph.nodes.len() by {
                    assert(left_out(graph, wanted, placed, walk[k]));
                }
                lemma_no_more_than(walk, graph.nodes.len() as int);
            }
            let (a, b) = choose|a: int, b: int|
                0 <= a < walk.len() && 0 <= b < walk.len() && a != b && walk[a] == walk[b];
            assert(graph.needs(walk[a], walk[b]) || graph.needs(walk[b], walk[a]));
            assert(left_out(graph, wanted, placed, walk[a]));
        }
    }
}

/// The first node in a circle with the one at `place`.
pub proof fn lemma_first_of_circle(graph: GraphView, place: int, bound: int) -> (first: int)
    requires
        0 <= bound,
        exists|i: int| 0 <= i < bound && #[trigger] graph.circular(place, i),
    ensures
        0 <= first < bound,
        graph.circular(place, first),
        forall|i: int| 0 <= i < first ==> !#[trigger] graph.circular(place, i),
    decreases bound,
{
    if exists|i: int| 0 <= i < bound - 1 && #[trigger] graph.circular(place, i) {
        lemma_first_of_circle(graph, place, bound - 1)
    } else {
        bound - 1
    }
}

proof fn lemma_circles_found(graph: GraphView, wanted: Set<int>, end: int, place: int)
    requires
        0 <= place < end,
        wanted.contains(place),
        graph.opens_circle(place),
    ensures
        graph.circles(wanted, end).len() > 0,
    decreases end,
{
    if place < end - 1 {
        lemma_circles_found(graph, wanted, end - 1, place);
    }
}

proof fn lemma_circles_real(graph: GraphView, wanted: Set<int>, end: int)
    requires
        end >= 0,
        graph.circles(wanted, end).len() > 0,
    ensures
        exists|i: int| 0 <= i < end && wanted.contains(i) && #[trigger] graph.needs(i, i),
    decreases end,
{
    if end > 0 && wanted.contains(end - 1) && graph.opens_circle(end - 1) {
        assert(graph.needs(end - 1, end - 1));
    } else {
        lemma_circles_real(graph, wanted, end - 1);
    }
}

/// Circles are reported exactly when there are any: when something wanted
/// needs itself.
pub proof fn a_circle_never_goes_unreported(graph: GraphView, keys: Seq<usize>)
    requires
        graph.wf(),
    ensures
        graph.circles(graph.wanted(keys), graph.nodes.len() as int).len() > 0 <==> exists|i: int|
            graph.wanted(keys).contains(i) && #[trigger] graph.needs(i, i),
{
    let wanted = graph.wanted(keys);
    let end = graph.nodes.len() as int;
    if graph.circles(wanted, end).len() > 0 {
        lemma_circles_real(graph, wanted, end);
    }
    if exists|i: int| wanted.contains(i) && #[trigger] graph.needs(i, i) {
        let i = choose|i: int| wanted.contains(i) && #[trigger] graph.needs(i, i);
        assert(graph.circular(i, i));
        let first = lemma_first_of_circle(graph, i, end);
        lemma_wanted_closed(graph, keys, i, first);
        lemma_needs_on(graph, first, i, first);
        assert forall|other: int| 0 <= other < first implies !#[trigger] graph.circular(
            first,
            other,
        ) by {
            if graph.circular(first, other) {
                lemma_needs_on(graph, i, first, other);
                lemma_needs_on(graph, other, first, i);
                assert(graph.circular(i, other));
            }
        }
        lemma_circles_found(graph, wanted, end, first);
    }
}

} // verus!
