use vstd::prelude::*;

verus! {

/// `e` extended with empty neighbour lists up to length `n`.
pub open spec fn grown(e: Seq<Seq<usize>>, n: int) -> Seq<Seq<usize>> {
    if e.len() >= n {
        e
    } else {
        e + Seq::new((n - e.len()) as nat, |k: int| Seq::<usize>::empty())
    }
}

/// The adjacency after recording the undirected edge `a`–`b`.
pub open spec fn with_edge(e: Seq<Seq<usize>>, a: usize, b: usize) -> Seq<Seq<usize>> {
    let g = grown(e, if a >= b { a + 1 } else { b + 1 });
    let g1 = g.update(a as int, g[a as int].push(b));
    g1.update(b as int, g1[b as int].push(a))
}

/// The neighbour list of `v` in `g`; empty for a vertex `g` does not reach.
pub open spec fn nbrs(g: Seq<Seq<usize>>, v: int) -> Seq<usize> {
    if 0 <= v < g.len() {
        g[v]
    } else {
        Seq::empty()
    }
}

/// Recording the edge `a`–`b` appends `b` to the list of `a` and `a` to the
/// list of `b`, and leaves every other list as it was.
pub proof fn lemma_with_edge(e: Seq<Seq<usize>>, a: usize, b: usize)
    requires
        a != b,
    ensures
        with_edge(e, a, b).len() == if e.len() > a && e.len() > b {
            e.len() as int
        } else if a >= b {
            a + 1
        } else {
            b + 1
        },
        nbrs(with_edge(e, a, b), a as int) == nbrs(e, a as int).push(b),
        nbrs(with_edge(e, a, b), b as int) == nbrs(e, b as int).push(a),
        forall|v: int| v != a && v != b ==> #[trigger] nbrs(with_edge(e, a, b), v) == nbrs(e, v),
{
    let g = grown(e, if a >= b { a + 1 } else { b + 1 });
    assert forall|v: int| 0 <= v < g.len() implies #[trigger] g[v] == nbrs(e, v) by {}
}

/// An undirected graph over dense vertex numbers, as adjacency lists.
#[derive(Debug)]
pub struct Graph {
    edges: Vec<Vec<usize>>,
}

impl View for Graph {
    type V = Seq<Seq<usize>>;

    closed spec fn view(&self) -> Seq<Seq<usize>> {
        self.edges@.map_values(|v: Vec<usize>| v@)
    }
}

impl Graph {
    /// A graph without vertices.
    pub fn new() -> (r: Graph)
        ensures
            r@ == Seq::<Seq<usize>>::empty(),
    {
        let r = Graph { edges: Vec::new() };
        assert(r@ =~= Seq::<Seq<usize>>::empty());
        r
    }

    /// Records the undirected edge `a`–`b`, first adding empty vertices up to
    /// the larger of the two. A repeated edge is recorded again.
    pub fn edge(&mut self, a: usize, b: usize)
        requires
            a < usize::MAX,
            b < usize::MAX,
        ensures
            final(self)@ == with_edge(old(self)@, a, b),
    {
        let top: usize = if a >= b { a } else { b };
        let ghost start = self@;
        let ghost n: int = top + 1;
        while self.edges.len() <= top
            invariant
                top < usize::MAX,
                n == top + 1,
                self@ == grown(start, self@.len() as int),
                start.len() <= self@.len(),
                self@.len() <= n || self@.len() == start.len(),
            decreases n - self.edges@.len(),
        {
            let ghost before = self@;
            self.edges.push(Vec::new());
            assert(self@ =~= before.push(Seq::empty()));
            assert(grown(start, self@.len() as int) =~= grown(start, before.len() as int).push(Seq::empty()));
        }
        assert(self@ =~= grown(start, n));
        let ghost g = self@;
        self.edges[a].push(b);
        assert(self@ =~= g.update(a as int, g[a as int].push(b)));
        let ghost g1 = self@;
        self.edges[b].push(a);
        assert(self@ =~= g1.update(b as int, g1[b as int].push(a)));
    }

    /// The neighbours of `vertex`, empty when it has none or is unknown.
    pub fn neighbours(&self, vertex: usize) -> (r: Vec<usize>)
        ensures
            r@ == if vertex < self@.len() {
                self@[vertex as int]
            } else {
                Seq::empty()
            },
    {
        let mut r: Vec<usize> = Vec::new();
        if vertex < self.edges.len() {
            let src = &self.edges[vertex];
            let mut i: usize = 0;
            while i < src.len()
                invariant
                    i <= src@.len(),
                    r@ == src@.take(i as int),
                decreases src@.len() - i,
            {
                r.push(src[i]);
                assert(r@ =~= src@.take(i + 1));
                i = i + 1;
            }
            assert(src@.take(src@.len() as int) =~= src@);
        } else {
            assert(r@ =~= Seq::<usize>::empty());
        }
        r
    }
}

impl Default for Graph {
    fn default() -> (r: Graph)
        ensures
            r@ == Seq::<Seq<usize>>::empty(),
    {
        Graph::new()
    }
}

} // verus!
