use vstd::prelude::*;
use crate::graph::{Graph, lemma_with_edge, nbrs};
use crate::join::{lemma_push_contains, shares, shares_name};
use crate::relation::{Relation, RelationView};

verus! {

/// Relations `u` and `v` are distinct positions that share a column name.
pub open spec fn linked(rels: Seq<RelationView>, u: int, v: int) -> bool {
    u != v && shares(rels[u].cols, rels[v].cols)
}

/// The adjacency lists `g` record exactly the links between `rels`, each
/// neighbour once; the links are symmetric because sharing a name is.
pub open spec fn graph_matches(rels: Seq<RelationView>, g: Seq<Seq<usize>>) -> bool {
    &&& g.len() <= rels.len()
    &&& forall|v: int| 0 <= v < g.len() ==> #[trigger] g[v].no_duplicates()
    &&& forall|v: int, t: int|
        0 <= v < g.len() && 0 <= t < g[v].len() ==> #[trigger] g[v][t] < rels.len() && linked(
            rels,
            v,
            g[v][t] as int,
        )
    &&& forall|u: int, v: int|
        0 <= u < rels.len() && 0 <= v < rels.len() && #[trigger] linked(rels, u, v) ==> u < g.len()
            && g[u].contains(v as usize)
}

/// `order` lists each of the positions `0..n` exactly once.
pub open spec fn is_permutation(order: Seq<usize>, n: int) -> bool {
    &&& order.len() == n
    &&& order.no_duplicates()
    &&& forall|k: int| 0 <= k < order.len() ==> #[trigger] order[k] < n
    &&& forall|v: usize| v < n ==> order.contains(v)
}

/// No relation outside `prefix` is linked to one inside it.
pub open spec fn closed_set(rels: Seq<RelationView>, prefix: Seq<usize>) -> bool {
    forall|q: int, w: int|
        0 <= q < prefix.len() && 0 <= w < rels.len() && #[trigger] linked(rels, prefix[q] as int, w)
            ==> prefix.contains(w as usize)
}

/// The relation at step `k` of `order` is linked to an earlier one, or it
/// starts a new group: nothing before it is linked to anything not yet placed.
pub open spec fn step_ok(rels: Seq<RelationView>, order: Seq<usize>, k: int) -> bool {
    ||| exists|q: int| 0 <= q < k && #[trigger] linked(rels, order[q] as int, order[k] as int)
    ||| closed_set(rels, order.take(k))
}

/// Every step of `order` is linked to an earlier one or starts a new group.
pub open spec fn order_valid(rels: Seq<RelationView>, order: Seq<usize>) -> bool {
    forall|k: int| 0 <= k < order.len() ==> #[trigger] step_ok(rels, order, k)
}

/// Number of `false` entries.
pub open spec fn unvisited(s: Seq<bool>) -> nat
    decreases s.len(),
{
    if s.len() == 0 {
        0
    } else {
        unvisited(s.drop_last()) + if s.last() {
            0nat
        } else {
            1nat
        }
    }
}

proof fn lemma_unvisited_update(s: Seq<bool>, i: int)
    requires
        0 <= i < s.len(),
        !s[i],
    ensures
        unvisited(s.update(i, true)) + 1 == unvisited(s),
    decreases s.len(),
{
    let u = s.update(i, true);
    if i < s.len() - 1 {
        assert(u.drop_last() =~= s.drop_last().update(i, true));
        lemma_unvisited_update(s.drop_last(), i);
    } else {
        assert(u.drop_last() =~= s.drop_last());
    }
}

proof fn lemma_unvisited_none(s: Seq<bool>)
    requires
        forall|i: int| 0 <= i < s.len() ==> #[trigger] s[i],
    ensures
        unvisited(s) == 0,
    decreases s.len(),
{
    if s.len() > 0 {
        lemma_unvisited_none(s.drop_last());
    }
}

proof fn lemma_shares_symmetric(a: Seq<Seq<char>>, b: Seq<Seq<char>>)
    requires
        shares(a, b),
    ensures
        shares(b, a),
{
    let (i, j) = choose|i: int, j: int| 0 <= i < a.len() && 0 <= j < b.len() && #[trigger] a[i] == #[trigger] b[j];
    assert(b[j] == a[i]);
}

proof fn lemma_step_ok_push(rels: Seq<RelationView>, order: Seq<usize>, v: usize, k: int)
    requires
        0 <= k < order.len(),
        step_ok(rels, order, k),
    ensures
        step_ok(rels, order.push(v), k),
{
    let o = order.push(v);
    assert(o.take(k) =~= order.take(k));
    if exists|q: int| 0 <= q < k && #[trigger] linked(rels, order[q] as int, order[k] as int) {
        let q = choose|q: int| 0 <= q < k && #[trigger] linked(rels, order[q] as int, order[k] as int);
        assert(o[q] == order[q] && o[k] == order[k]);
        assert(linked(rels, o[q] as int, o[k] as int));
    }
}

/// Pushes onto `frontier` each of `nbrs` that is not yet visited, in order.
fn push_unvisited(frontier: &mut Vec<usize>, nbrs: &Vec<usize>, visited: &Vec<bool>)
    requires
        forall|t: int| 0 <= t < nbrs@.len() ==> #[trigger] nbrs@[t] < visited@.len(),
    ensures
        final(frontier)@.len() >= old(frontier)@.len(),
        forall|t: int| 0 <= t < old(frontier)@.len() ==> #[trigger] final(frontier)@[t] == old(frontier)@[t],
        forall|t: int|
            old(frontier)@.len() <= t < final(frontier)@.len() ==> !visited@[#[trigger] final(frontier)@[t] as int]
                && nbrs@.contains(final(frontier)@[t]),
        forall|t: int|
            0 <= t < nbrs@.len() && !visited@[#[trigger] nbrs@[t] as int] ==> final(frontier)@.contains(nbrs@[t]),
{
    let ghost start = frontier@;
    let mut i: usize = 0;
    while i < nbrs.len()
        invariant
            i <= nbrs@.len(),
            forall|t: int| 0 <= t < nbrs@.len() ==> #[trigger] nbrs@[t] < visited@.len(),
            frontier@.len() >= start.len(),
            forall|t: int| 0 <= t < start.len() ==> #[trigger] frontier@[t] == start[t],
            forall|t: int|
                start.len() <= t < frontier@.len() ==> !visited@[#[trigger] frontier@[t] as int]
                    && nbrs@.contains(frontier@[t]),
            forall|t: int|
                0 <= t < i && !visited@[#[trigger] nbrs@[t] as int] ==> frontier@.contains(nbrs@[t]),
        decreases nbrs@.len() - i,
    {
        let x = nbrs[i];
        if !visited[x] {
            let ghost before = frontier@;
            frontier.push(x);
            assert(frontier@[before.len() as int] == x);
            assert forall|t: int| 0 <= t < i + 1 && !visited@[#[trigger] nbrs@[t] as int] implies frontier@.contains(nbrs@[t]) by {
                if t < i {
                    let u = choose|u: int| 0 <= u < before.len() && before[u] == nbrs@[t];
                    assert(frontier@[u] == before[u]);
                }
            }
            assert forall|t: int| start.len() <= t < frontier@.len() implies !visited@[#[trigger] frontier@[t] as int]
                && nbrs@.contains(frontier@[t]) by {
                if t < before.len() {
                    assert(frontier@[t] == before[t]);
                } else {
                    assert(nbrs@[i as int] == x);
                }
            }
        }
        i = i + 1;
    }
}

/// Positions `0..i` of `rels` whose columns share a name with `cols`, in
/// increasing order.
pub open spec fn sharing_positions(rels: Seq<RelationView>, cols: Seq<Seq<char>>, i: int) -> Seq<usize>
    decreases i,
{
    if i <= 0 {
        Seq::empty()
    } else {
        let p = sharing_positions(rels, cols, i - 1);
        if shares(cols, rels[i - 1].cols) {
            p.push((i - 1) as usize)
        } else {
            p
        }
    }
}

/// The sharing positions below `i` are increasing, so listed once each, and
/// are exactly the positions whose relation shares a name with `cols`.
pub proof fn lemma_sharing_positions(rels: Seq<RelationView>, cols: Seq<Seq<char>>, i: int)
    requires
        0 <= i <= usize::MAX,
    ensures
        forall|t: int|
            0 <= t < sharing_positions(rels, cols, i).len() ==> #[trigger] sharing_positions(rels, cols, i)[t]
                < i,
        forall|t: int, u: int|
            0 <= t < u < sharing_positions(rels, cols, i).len() ==> sharing_positions(rels, cols, i)[t]
                < sharing_positions(rels, cols, i)[u],
        sharing_positions(rels, cols, i).no_duplicates(),
        forall|v: int|
            0 <= v < i ==> (#[trigger] sharing_positions(rels, cols, i).contains(v as usize) <==> shares(
                cols,
                rels[v].cols,
            )),
    decreases i,
{
    if i > 0 {
        lemma_sharing_positions(rels, cols, i - 1);
        let p = sharing_positions(rels, cols, i - 1);
        let x = (i - 1) as usize;
        assert forall|v: int| 0 <= v < i implies (#[trigger] sharing_positions(rels, cols, i).contains(
            v as usize,
        ) <==> shares(cols, rels[v].cols)) by {
            lemma_push_contains(p, v as usize, x);
            if v < i - 1 {
                assert(p.contains(v as usize) <==> shares(cols, rels[v].cols));
            }
            if p.contains(v as usize) {
                let t = choose|t: int| 0 <= t < p.len() && p[t] == v as usize;
                assert(p[t] < i - 1);
            }
        }
    }
}

/// The join graph after relation `n` has been linked to relations `0..i`:
/// each of them that shares a name with `cols` has `n` appended to its list,
/// `n` lists exactly those positions, and nothing else changed from `g0`.
spec fn linked_up_to(
    rels: Seq<RelationView>,
    cols: Seq<Seq<char>>,
    g0: Seq<Seq<usize>>,
    g: Seq<Seq<usize>>,
    n: int,
    i: int,
) -> bool {
    &&& g.len() <= n + 1
    &&& nbrs(g, n) == sharing_positions(rels, cols, i)
    &&& forall|v: int|
        0 <= v < n ==> #[trigger] nbrs(g, v) == if v < i && shares(cols, rels[v].cols) {
            nbrs(g0, v).push(n as usize)
        } else {
            nbrs(g0, v)
        }
}

/// Linking a new relation keeps the graph exact.
proof fn lemma_linked_graph_matches(
    rels: Seq<RelationView>,
    rel: RelationView,
    g0: Seq<Seq<usize>>,
    g: Seq<Seq<usize>>,
)
    requires
        rels.len() < usize::MAX,
        graph_matches(rels, g0),
        linked_up_to(rels, rel.cols, g0, g, rels.len() as int, rels.len() as int),
    ensures
        graph_matches(rels.push(rel), g),
{
    let n = rels.len() as int;
    let nr = rels.push(rel);
    lemma_sharing_positions(rels, rel.cols, n);
    assert(nr[n] == rel);
    assert forall|v: int| 0 <= v < n implies #[trigger] nr[v] == rels[v] by {}
    assert forall|v: int| 0 <= v < g.len() implies #[trigger] g[v].no_duplicates() by {
        assert(nbrs(g, v) == g[v]);
        if v < n {
            if v < g0.len() {
                assert(nbrs(g0, v) == g0[v]);
                assert(g0[v].no_duplicates());
                if shares(rel.cols, rels[v].cols) {
                    assert forall|t: int| 0 <= t < g0[v].len() implies g0[v][t] != n by {
                        assert(g0[v][t] < n);
                    }
                    assert(g[v] =~= g0[v].push(n as usize));
                }
            }
        }
    }
    assert forall|v: int, t: int| 0 <= v < g.len() && 0 <= t < g[v].len() implies #[trigger] g[v][t]
        < nr.len() && linked(nr, v, g[v][t] as int) by {
        assert(nbrs(g, v) == g[v]);
        if v < n {
            let o = nbrs(g0, v);
            if t < o.len() {
                assert(o[t] == g0[v][t]);
                assert(linked(rels, v, g0[v][t] as int));
                assert(g[v][t] == o[t]);
            } else {
                assert(g[v][t] == n);
                lemma_shares_symmetric(rel.cols, rels[v].cols);
            }
        } else {
            let sp = sharing_positions(rels, rel.cols, n);
            assert(v == n);
            assert(g[v] == sp);
            let w = sp[t] as int;
            assert(w < n);
            assert(sp.contains(w as usize));
            assert(shares(rel.cols, rels[w].cols));
            assert(nr[w] == rels[w]);
        }
    }
    assert forall|u: int, v: int| 0 <= u < nr.len() && 0 <= v < nr.len() && #[trigger] linked(nr, u, v)
        implies u < g.len() && g[u].contains(v as usize) by {
        if u == n {
            assert(sharing_positions(rels, rel.cols, n).contains(v as usize));
        } else if v == n {
            lemma_shares_symmetric(rels[u].cols, rel.cols);
            let o = nbrs(g0, u);
            assert(nbrs(g, u) == o.push(n as usize));
            assert(nbrs(g, u)[o.len() as int] == n);
        } else {
            assert(linked(rels, u, v));
            assert(g0[u].contains(v as usize));
            assert(nbrs(g0, u) == g0[u]);
            lemma_push_contains(g0[u], v as usize, n as usize);
            assert(nbrs(g, u).contains(v as usize));
        }
    }
}

/// Every relation waiting on `frontier` is linked to one already placed.
spec fn frontier_ok(rels: Seq<RelationView>, order: Seq<usize>, frontier: Seq<usize>) -> bool {
    forall|t: int|
        0 <= t < frontier.len() ==> #[trigger] frontier[t] < rels.len() && exists|q: int|
            0 <= q < order.len() && #[trigger] linked(rels, order[q] as int, frontier[t] as int)
}

/// Every relation linked to a placed one is visited, waiting, or `extra`.
spec fn covered(
    rels: Seq<RelationView>,
    order: Seq<usize>,
    visited: Seq<bool>,
    frontier: Seq<usize>,
    extra: int,
) -> bool {
    forall|q: int, w: int|
        0 <= q < order.len() && 0 <= w < rels.len() && #[trigger] linked(rels, order[q] as int, w)
            ==> visited[w] || frontier.contains(w as usize) || w == extra
}

/// The walk's bookkeeping: `visited` marks exactly the placed relations,
/// each placed once, and every step so far is valid.
spec fn walk_state(rels: Seq<RelationView>, visited: Seq<bool>, order: Seq<usize>) -> bool {
    &&& visited.len() == rels.len()
    &&& forall|v: int| 0 <= v < rels.len() ==> (#[trigger] visited[v] <==> order.contains(v as usize))
    &&& order.no_duplicates()
    &&& forall|k: int| 0 <= k < order.len() ==> #[trigger] order[k] < rels.len()
    &&& order.len() + unvisited(visited) == rels.len()
    &&& order_valid(rels, order)
}

proof fn lemma_contains_pop(s: Seq<usize>, x: usize)
    requires
        s.contains(x),
        s.len() > 0,
    ensures
        s.drop_last().contains(x) || x == s.last(),
{
    let t = choose|t: int| 0 <= t < s.len() && s[t] == x;
    if t < s.len() - 1 {
        assert(s.drop_last()[t] == x);
    }
}

/// Relation `k` of a plan shares a column name with an earlier one, or it
/// starts a new group: no relation before it shares a name with it or with
/// any relation after it.
pub open spec fn starts_or_follows(out: Seq<RelationView>, k: int) -> bool {
    ||| exists|q: int| 0 <= q < k && #[trigger] shares(out[q].cols, out[k].cols)
    ||| forall|q: int, w: int|
        0 <= q < k <= w < out.len() ==> !#[trigger] shares(out[q].cols, out[w].cols)
}

/// Every relation of a plan follows one it shares a column name with, unless
/// it starts a new group.
pub open spec fn plan_valid(out: Seq<RelationView>) -> bool {
    forall|k: int| 0 <= k < out.len() ==> #[trigger] starts_or_follows(out, k)
}

/// Taking the relations in a valid traversal order gives a valid plan.
pub proof fn lemma_plan_valid(rels: Seq<RelationView>, order: Seq<usize>, out: Seq<RelationView>)
    requires
        is_permutation(order, rels.len() as int),
        order_valid(rels, order),
        out.len() == order.len(),
        forall|k: int| 0 <= k < out.len() ==> #[trigger] out[k] == rels[order[k] as int],
    ensures
        plan_valid(out),
{
    assert forall|k: int| 0 <= k < out.len() implies #[trigger] starts_or_follows(out, k) by {
        assert(step_ok(rels, order, k));
        if exists|q: int| 0 <= q < k && #[trigger] linked(rels, order[q] as int, order[k] as int) {
            let q = choose|q: int| 0 <= q < k && #[trigger] linked(rels, order[q] as int, order[k] as int);
            assert(out[q] == rels[order[q] as int] && out[k] == rels[order[k] as int]);
            assert(shares(out[q].cols, out[k].cols));
        } else {
            let pre = order.take(k);
            assert(closed_set(rels, pre));
            assert forall|q: int, w: int| 0 <= q < k <= w < out.len() implies !#[trigger] shares(
                out[q].cols,
                out[w].cols,
            ) by {
                assert(out[q] == rels[order[q] as int] && out[w] == rels[order[w] as int]);
                if shares(out[q].cols, out[w].cols) {
                    assert(order[q] != order[w]);
                    assert(pre[q] == order[q]);
                    assert(linked(rels, pre[q] as int, order[w] as int));
                    assert(pre.contains(order[w]));
                    let t = choose|t: int| 0 <= t < pre.len() && pre[t] == order[w];
                    assert(order[t] == order[w]);
                }
            }
        }
    }
}

/// `p` is a walk over positions of `out` in which each step goes to a
/// relation that shares a column name with the one before.
pub open spec fn is_path(out: Seq<RelationView>, p: Seq<int>) -> bool {
    &&& p.len() >= 1
    &&& forall|t: int| 0 <= t < p.len() ==> 0 <= #[trigger] p[t] < out.len()
    &&& forall|t: int| 0 <= t < p.len() - 1 ==> shares(out[#[trigger] p[t]].cols, out[p[t + 1]].cols)
}

/// Positions `x` and `y` of `out` lie in one connected group.
pub open spec fn same_group(out: Seq<RelationView>, x: int, y: int) -> bool {
    exists|p: Seq<int>| #[trigger] is_path(out, p) && p[0] == x && p.last() == y
}

proof fn lemma_path_crosses(out: Seq<RelationView>, p: Seq<int>, k: int)
    requires
        is_path(out, p),
        p[0] < k <= p.last(),
    ensures
        exists|t: int| 0 <= t < p.len() - 1 && #[trigger] p[t] < k <= p[t + 1],
    decreases p.len(),
{
    let n = p.len() as int;
    if p[n - 2] < k {
        assert(p[n - 2] < k <= p[n - 2 + 1]);
    } else {
        let d = p.drop_last();
        assert forall|t: int| 0 <= t < d.len() - 1 implies shares(out[#[trigger] d[t]].cols, out[d[t + 1]].cols) by {
            assert(d[t] == p[t] && d[t + 1] == p[t + 1]);
        }
        assert(is_path(out, d));
        lemma_path_crosses(out, d, k);
        let t = choose|t: int| 0 <= t < d.len() - 1 && #[trigger] d[t] < k <= d[t + 1];
        assert(p[t] == d[t] && p[t + 1] == d[t + 1]);
    }
}

/// In a valid plan, a relation whose connected group has a relation earlier
/// in the plan shares a column name with some earlier relation.
pub proof fn plan_follows_within_group(out: Seq<RelationView>, j: int, k: int)
    requires
        plan_valid(out),
        0 <= j < k < out.len(),
        same_group(out, j, k),
    ensures
        exists|q: int| 0 <= q < k && #[trigger] shares(out[q].cols, out[k].cols),
{
    assert(starts_or_follows(out, k));
    if !(exists|q: int| 0 <= q < k && #[trigger] shares(out[q].cols, out[k].cols)) {
        let p = choose|p: Seq<int>| #[trigger] is_path(out, p) && p[0] == j && p.last() == k;
        lemma_path_crosses(out, p, k);
        let t = choose|t: int| 0 <= t < p.len() - 1 && #[trigger] p[t] < k <= p[t + 1];
        assert(shares(out[p[t]].cols, out[p[t + 1]].cols));
        assert(0 <= p[t + 1] < out.len());
    }
}

/// Accumulates relations and the graph of which ones share a column name.
#[derive(Debug)]
pub struct Planner {
    joined_tables: Vec<Relation>,
    query_graph: Graph,
}

impl View for Planner {
    type V = Seq<RelationView>;

    closed spec fn view(&self) -> Seq<RelationView> {
        self.joined_tables@.map_values(|r: Relation| r@)
    }
}

impl Planner {
    /// The join graph: for each position, the positions it is linked to.
    pub closed spec fn graph_view(&self) -> Seq<Seq<usize>> {
        self.query_graph@
    }

    /// The join graph links exactly the relations that share a column name,
    /// each neighbour once.
    pub open spec fn wf(&self) -> bool {
        graph_matches(self@, self.graph_view())
    }

    #[verifier::type_invariant]
    spec fn inv(&self) -> bool {
        self.wf()
    }

    /// The join graph.
    pub fn query_graph(&self) -> (r: &Graph)
        ensures
            r@ == self.graph_view(),
    {
        &self.query_graph
    }

    /// A planner holding no relation.
    pub fn new() -> (r: Planner)
        ensures
            r@ == Seq::<RelationView>::empty(),
            r.graph_view() == Seq::<Seq<usize>>::empty(),
            r.wf(),
    {
        let r = Planner { joined_tables: Vec::new(), query_graph: Graph::new() };
        assert(r@ =~= Seq::<RelationView>::empty());
        r
    }

    /// Adds `rel` at position `n`, the number of relations held. Each earlier
    /// position `i`, in increasing order, whose relation shares a column name
    /// with `rel` is appended to the list of `n`, and `n` to the list of `i`;
    /// no other list changes.
    pub fn join(self, rel: Relation) -> (r: Planner)
        requires
            self@.len() < usize::MAX,
        ensures
            r@ == self@.push(rel@),
            r.graph_view().len() <= self@.len() + 1,
            nbrs(r.graph_view(), self@.len() as int) == sharing_positions(self@, rel@.cols, self@.len() as int),
            forall|v: int|
                0 <= v < self@.len() ==> #[trigger] nbrs(r.graph_view(), v) == if shares(rel@.cols, self@[v].cols) {
                    nbrs(self.graph_view(), v).push(self@.len() as usize)
                } else {
                    nbrs(self.graph_view(), v)
                },
            r.wf(),
    {
        proof {
            use_type_invariant(&self);
        }
        let ghost rels = self@;
        let ghost g0 = self.query_graph@;
        let Planner { mut joined_tables, mut query_graph } = self;
        let n = joined_tables.len();
        proof {
            assert(nbrs(g0, n as int) =~= Seq::<usize>::empty());
        }
        let mut i: usize = 0;
        while i < n
            invariant
                i <= n,
                n == joined_tables@.len(),
                n < usize::MAX,
                rels == joined_tables@.map_values(|r: Relation| r@),
                g0.len() <= n,
                linked_up_to(rels, rel@.cols, g0, query_graph@, n as int, i as int),
            decreases n - i,
        {
            let linked_now = shares_name(rel.col_names(), joined_tables[i].col_names());
            let ghost g = query_graph@;
            proof {
                assert(rels[i as int] == joined_tables@[i as int]@);
            }
            if linked_now {
                query_graph.edge(n, i);
                proof {
                    lemma_with_edge(g, n, i);
                }
            }
            proof {
                let g1 = query_graph@;
                assert forall|v: int| 0 <= v < n implies #[trigger] nbrs(g1, v) == if v < i + 1 && shares(
                    rel@.cols,
                    rels[v].cols,
                ) {
                    nbrs(g0, v).push(n as usize)
                } else {
                    nbrs(g0, v)
                } by {
                    assert(nbrs(g, v) == if v < i && shares(rel@.cols, rels[v].cols) {
                        nbrs(g0, v).push(n as usize)
                    } else {
                        nbrs(g0, v)
                    });
                }
            }
            i = i + 1;
        }
        joined_tables.push(rel);
        proof {
            assert(joined_tables@.map_values(|r: Relation| r@) =~= rels.push(rel@));
            lemma_linked_graph_matches(rels, rel@, g0, query_graph@);
        }
        Planner { joined_tables, query_graph }
    }

    /// Places `v`: marks it visited, appends it to `order`, and pushes its
    /// unvisited neighbours onto `frontier`.
    fn visit(&self, v: usize, visited: &mut Vec<bool>, order: &mut Vec<usize>, frontier: &mut Vec<usize>)
        requires
            graph_matches(self@, self.query_graph@),
            v < self@.len(),
            walk_state(self@, old(visited)@, old(order)@),
            !old(visited)@[v as int],
            step_ok(self@, old(order)@.push(v), old(order)@.len() as int),
            frontier_ok(self@, old(order)@, old(frontier)@),
            covered(self@, old(order)@, old(visited)@, old(frontier)@, v as int),
        ensures
            walk_state(self@, final(visited)@, final(order)@),
            frontier_ok(self@, final(order)@, final(frontier)@),
            covered(self@, final(order)@, final(visited)@, final(frontier)@, -1),
            final(visited)@[v as int],
            forall|w: int| 0 <= w < old(visited)@.len() && old(visited)@[w] ==> #[trigger] final(visited)@[w],
            unvisited(final(visited)@) < unvisited(old(visited)@),
    {
        let ghost rels = self@;
        let ghost g = self.query_graph@;
        let ghost (ov, oo, of) = (visited@, order@, frontier@);
        let n = self.joined_tables.len();
        visited[v] = true;
        order.push(v);
        let nbrs = self.query_graph.neighbours(v);
        proof {
            assert forall|t: int| 0 <= t < nbrs@.len() implies #[trigger] nbrs@[t] < visited@.len() by {
                assert(nbrs@[t] == g[v as int][t]);
            }
        }
        push_unvisited(frontier, &nbrs, visited);
        proof {
            let (nv, no, nf) = (visited@, order@, frontier@);
            assert(nv == ov.update(v as int, true));
            assert(no == oo.push(v));
            lemma_unvisited_update(ov, v as int);
            assert(rels.len() == n);
            assert forall|w: int| 0 <= w < rels.len() implies (#[trigger] nv[w] <==> no.contains(w as usize)) by {
                lemma_push_contains(oo, w as usize, v);
                if w != v as int {
                    assert(nv[w] == ov[w]);
                }
            }
            assert(!oo.contains(v));
            assert forall|i: int, j: int| 0 <= i < no.len() && 0 <= j < no.len() && i != j implies no[i]
                != no[j] by {
                if i == oo.len() {
                    assert(oo[j] == no[j]);
                } else if j == oo.len() {
                    assert(oo[i] == no[i]);
                }
            }
            assert forall|k: int| 0 <= k < no.len() implies #[trigger] step_ok(rels, no, k) by {
                if k < oo.len() {
                    lemma_step_ok_push(rels, oo, v, k);
                }
            }
            assert forall|t: int| 0 <= t < nf.len() implies #[trigger] nf[t] < rels.len() && exists|q: int|
                0 <= q < no.len() && #[trigger] linked(rels, no[q] as int, nf[t] as int) by {
                if t < of.len() {
                    assert(nf[t] == of[t]);
                    let q = choose|q: int| 0 <= q < oo.len() && #[trigger] linked(rels, oo[q] as int, of[t] as int);
                    assert(no[q] == oo[q]);
                    assert(linked(rels, no[q] as int, nf[t] as int));
                } else {
                    assert(nbrs@.contains(nf[t]));
                    let u = choose|u: int| 0 <= u < nbrs@.len() && nbrs@[u] == nf[t];
                    assert(nbrs@[u] == g[v as int][u]);
                    assert(no[oo.len() as int] == v);
                    assert(linked(rels, no[oo.len() as int] as int, nf[t] as int));
                }
            }
            assert forall|q: int, w: int| 0 <= q < no.len() && 0 <= w < rels.len() && #[trigger] linked(
                rels,
                no[q] as int,
                w,
            ) implies nv[w] || nf.contains(w as usize) || w == -1 by {
                if q < oo.len() {
                    assert(no[q] == oo[q]);
                    if of.contains(w as usize) {
                        let t = choose|t: int| 0 <= t < of.len() && of[t] == w as usize;
                        assert(nf[t] == of[t]);
                    }
                } else {
                    assert(no[q] == v);
                    assert(g[v as int].contains(w as usize));
                    let u = choose|u: int| 0 <= u < g[v as int].len() && g[v as int][u] == w as usize;
                    assert(nbrs@[u] == w as usize);
                }
            }
        }
    }

    /// Positions of the held relations in traversal order: from the
    /// smallest position not yet placed, a depth-first walk over
    /// shared-column links places a whole group; then the next group.
    fn traversal_order(&self) -> (r: Vec<usize>)
        ensures
            is_permutation(r@, self@.len() as int),
            order_valid(self@, r@),
    {
        proof {
            use_type_invariant(self);
        }
        let ghost rels = self@;
        let n = self.joined_tables.len();
        let mut visited: Vec<bool> = Vec::new();
        while visited.len() < n
            invariant
                visited@.len() <= n,
                forall|v: int| 0 <= v < visited@.len() ==> !#[trigger] visited@[v],
                unvisited(visited@) == visited@.len(),
            decreases n - visited@.len(),
        {
            let ghost before = visited@;
            visited.push(false);
            assert(visited@.drop_last() =~= before);
        }
        let mut order: Vec<usize> = Vec::new();
        proof {
            assert forall|v: int| 0 <= v < rels.len() implies (#[trigger] visited@[v] <==> order@.contains(
                v as usize,
            )) by {}
        }
        let mut seed: usize = 0;
        while seed < n
            invariant
                seed <= n,
                n == rels.len(),
                rels == self@,
                graph_matches(rels, self.query_graph@),
                walk_state(rels, visited@, order@),
                closed_set(rels, order@),
                forall|v: int| 0 <= v < seed ==> #[trigger] visited@[v],
            decreases n - seed,
        {
            if !visited[seed] {
                let mut frontier: Vec<usize> = Vec::new();
                proof {
                    let o = order@;
                    assert(o.push(seed).take(o.len() as int) =~= o);
                    assert forall|q: int, w: int| 0 <= q < o.len() && 0 <= w < rels.len() && #[trigger] linked(
                        rels,
                        o[q] as int,
                        w,
                    ) implies visited@[w] || frontier@.contains(w as usize) || w == seed as int by {}
                }
                self.visit(seed, &mut visited, &mut order, &mut frontier);
                while frontier.len() > 0
                    invariant
                        seed < n,
                        n == rels.len(),
                        rels == self@,
                        graph_matches(rels, self.query_graph@),
                        walk_state(rels, visited@, order@),
                        frontier_ok(rels, order@, frontier@),
                        covered(rels, order@, visited@, frontier@, -1),
                        forall|v: int| 0 <= v <= seed ==> #[trigger] visited@[v],
                    decreases unvisited(visited@), frontier@.len(),
                {
                    let ghost of = frontier@;
                    let v = frontier.pop().unwrap();
                    proof {
                        assert(frontier@ =~= of.drop_last());
                        assert(v == of[of.len() - 1]);
                        assert forall|q: int, w: int| 0 <= q < order@.len() && 0 <= w < rels.len()
                            && #[trigger] linked(rels, order@[q] as int, w) implies visited@[w]
                            || frontier@.contains(w as usize) || w == v as int by {
                            if of.contains(w as usize) {
                                lemma_contains_pop(of, w as usize);
                            }
                        }
                        assert forall|t: int| 0 <= t < frontier@.len() implies #[trigger] frontier@[t]
                            < rels.len() && exists|q: int|
                            0 <= q < order@.len() && #[trigger] linked(
                                rels,
                                order@[q] as int,
                                frontier@[t] as int,
                            ) by {
                            assert(frontier@[t] == of[t]);
                        }
                    }
                    if !visited[v] {
                        proof {
                            let o = order@;
                            assert(o.push(v).take(o.len() as int) =~= o);
                            let t = of.len() - 1;
                            assert(of[t] == v);
                            let q = choose|q: int| 0 <= q < o.len() && #[trigger] linked(rels, o[q] as int, of[t] as int);
                            assert(o.push(v)[q] == o[q]);
                            assert(o.push(v)[o.len() as int] == v);
                            assert(linked(rels, o.push(v)[q] as int, o.push(v)[o.len() as int] as int));
                        }
                        self.visit(v, &mut visited, &mut order, &mut frontier);
                    }
                }
                proof {
                    let o = order@;
                    assert forall|q: int, w: int| 0 <= q < o.len() && 0 <= w < rels.len() && #[trigger] linked(
                        rels,
                        o[q] as int,
                        w,
                    ) implies o.contains(w as usize) by {
                        assert(visited@[w]);
                    }
                }
            }
            seed = seed + 1;
        }
        proof {
            lemma_unvisited_none(visited@);
            assert forall|v: usize| v < n implies order@.contains(v) by {
                assert(visited@[v as int]);
            }
        }
        order
    }
    /// Consumes the planner and hands out its relations in traversal order
    /// (see `traversal_order`): a permutation of the relations added in
    /// which each one follows a relation it shares a column name with, unless
    /// it starts a new group.
    pub fn plan(self) -> (r: Vec<Relation>)
        ensures
            r@.len() == self@.len(),
            exists|order: Seq<usize>|
                is_permutation(order, self@.len() as int) && order_valid(self@, order) && forall|k: int|
                    0 <= k < r@.len() ==> #[trigger] r@[k]@ == self@[order[k] as int],
            plan_valid(r@.map_values(|x: Relation| x@)),
    {
        let order = self.traversal_order();
        let ghost rels = self@;
        let Planner { mut joined_tables, query_graph: _ } = self;
        let n = joined_tables.len();
        let mut slots: Vec<Option<Relation>> = Vec::new();
        while joined_tables.len() > 0
            invariant
                slots@.len() + joined_tables@.len() == n,
                n == rels.len(),
                forall|i: int| 0 <= i < slots@.len() ==> #[trigger] slots@[i] is Some && slots@[i]->0@ == rels[i],
                forall|i: int| 0 <= i < joined_tables@.len() ==> #[trigger] joined_tables@[i]@ == rels[slots@.len() + i],
            decreases joined_tables@.len(),
        {
            let ghost before = joined_tables@;
            let rel = joined_tables.remove(0);
            assert(rel@ == rels[slots@.len() as int]);
            slots.push(Some(rel));
            assert forall|i: int| 0 <= i < joined_tables@.len() implies #[trigger] joined_tables@[i]@ == rels[slots@.len() + i] by {
                assert(joined_tables@[i] == before[i + 1]);
            }
        }
        let mut out: Vec<Relation> = Vec::new();
        let mut k: usize = 0;
        while k < order.len()
            invariant
                k <= order@.len(),
                n == rels.len(),
                slots@.len() == n,
                is_permutation(order@, n as int),
                out@.len() == k,
                forall|t: int| 0 <= t < k ==> #[trigger] out@[t]@ == rels[order@[t] as int],
                forall|t: int| 0 <= t < k ==> #[trigger] slots@[order@[t] as int] is None,
                forall|t: int|
                    k <= t < n ==> #[trigger] slots@[order@[t] as int] is Some && slots@[order@[t] as int]->0@
                        == rels[order@[t] as int],
            decreases order@.len() - k,
        {
            let idx = order[k];
            let ghost before = slots@;
            let taken = slots[idx].take();
            assert(slots@ == before.update(idx as int, None));
            assert forall|t: int| 0 <= t < n && t != k implies #[trigger] slots@[order@[t] as int] == before[order@[t] as int] by {
                assert(order@[t] != order@[k as int]);
            }
            match taken {
                Some(rel) => {
                    out.push(rel);
                },
                None => {
                    assert(false);
                },
            }
            k = k + 1;
        }
        proof {
            let views = out@.map_values(|x: Relation| x@);
            lemma_plan_valid(rels, order@, views);
        }
        out
    }
}

impl Default for Planner {
    fn default() -> (r: Planner)
        ensures
            r@ == Seq::<RelationView>::empty(),
    {
        Planner::new()
    }
}

} // verus!
