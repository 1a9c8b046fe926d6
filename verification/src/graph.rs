//! An undirected graph with fixed adjacency lists and a changing set of
//! active vertices.

use crate::counting::{lemma_occurrences_contains, lemma_occurrences_push, occurrences};
use crate::edge_list::{
    chars_of, edges, intern, labels_of, lines, linked, numbered, parse_count, split_lines,
    split_words, views, well_formed, words,
};
use crate::fastset::{swap_removed, DenseFastSet};
use vstd::pervasive::unreached;
use vstd::prelude::*;

verus! {

/// A vertex is an index into the per-vertex vectors.
pub type Vertex = usize;

/// The neighbours of one vertex, in the order in which the edges came.
pub type Adjacency = Vec<Vertex>;

/// Adjacency lists that are written once, and the set of vertices that are
/// still active.
#[derive(Debug)]
pub struct Graph {
    /// The active vertices.
    pub valid: DenseFastSet,
    /// For each vertex its neighbours; an edge between `u` and `v` stands once
    /// in the list of `u` and once in that of `v`.
    pub neighbors: Vec<Adjacency>,
    /// For each vertex the label under which the edge list named it.
    pub names: Vec<Vec<char>>,
}

impl Graph {
    /// The adjacency lists as sequences.
    pub open spec fn adj(&self) -> Seq<Seq<usize>> {
        Seq::new(self.neighbors@.len(), |v: int| self.neighbors@[v]@)
    }

    /// The number of vertices, active or not.
    pub open spec fn order(&self) -> nat {
        self.neighbors@.len()
    }

    /// The labels of the vertices as sequences of characters.
    pub open spec fn labels(&self) -> Seq<Seq<char>> {
        Seq::new(self.names@.len(), |v: int| self.names@[v]@)
    }

    /// The active set ranges over the vertices, every neighbour is a vertex,
    /// and `u` stands in the list of `v` as often as `v` in that of `u`.
    pub open spec fn wf(&self) -> bool {
        &&& self.valid.wf()
        &&& self.valid.capacity() == self.order()
        &&& self.names@.len() == self.order()
        &&& mutual(self.adj())
    }

    /// Whether every vertex is active.
    pub open spec fn all_active(&self) -> bool {
        forall|v: usize| v < self.order() ==> self.valid@.contains(v)
    }
}

/// The vertices of `list` that are in `active`, in the order of the list.
pub open spec fn active_among(list: Seq<usize>, active: Set<usize>) -> Seq<usize> {
    list.filter(|n: usize| active.contains(n))
}

/// Every neighbour is a vertex, and `u` stands in the list of `v` as often as
/// `v` stands in the list of `u`.
pub open spec fn mutual(adj: Seq<Seq<usize>>) -> bool {
    &&& forall|v: int, i: int|
        0 <= v < adj.len() && 0 <= i < adj[v].len() ==> (#[trigger] adj[v][i]) < adj.len()
    &&& forall|u: usize, v: usize|
        u < adj.len() && v < adj.len() ==> #[trigger] occurrences(adj[u as int], v) == occurrences(
            adj[v as int],
            u,
        )
}

impl Graph {
    /// Takes `v` out of the active set.
    pub fn invalidate(&mut self, v: Vertex)
        requires
            old(self).wf(),
            v < old(self).order(),
        ensures
            final(self).wf(),
            final(self).valid@ == old(self).valid@.remove(v),
            final(self).valid.order() == if old(self).valid@.contains(v) {
                swap_removed(old(self).valid.order(), v)
            } else {
                old(self).valid.order()
            },
            final(self).neighbors == old(self).neighbors,
            final(self).names == old(self).names,
    {
        self.valid.remove(v);
    }

    /// Puts `v` back into the active set.
    pub fn revalidate(&mut self, v: Vertex)
        requires
            old(self).wf(),
            v < old(self).order(),
        ensures
            final(self).wf(),
            final(self).valid@ == old(self).valid@.insert(v),
            final(self).valid.order() == if old(self).valid@.contains(v) {
                old(self).valid.order()
            } else {
                old(self).valid.order().push(v)
            },
            final(self).neighbors == old(self).neighbors,
            final(self).names == old(self).names,
    {
        self.valid.insert(v);
    }

    /// Adds an edge between two active vertices: `u` goes to the end of the
    /// list of `v`, then `v` to the end of the list of `u`.
    pub fn add_edge(&mut self, v: Vertex, u: Vertex)
        requires
            old(self).wf(),
            v < old(self).order(),
            u < old(self).order(),
            old(self).valid@.contains(v),
            old(self).valid@.contains(u),
        ensures
            final(self).wf(),
            final(self).valid == old(self).valid,
            final(self).names == old(self).names,
            final(self).adj() == with_edge(old(self).adj(), v, u),
    {
        self.neighbors[v].push(u);
        self.neighbors[u].push(v);
        proof {
            assert(self.adj() =~= with_edge(old(self).adj(), v, u));
            lemma_with_edge_mutual(old(self).adj(), v, u);
        }
    }

    /// Whether an edge joins the active vertices `v` and `u`. The shorter of
    /// the two lists is searched.
    pub fn has_edge(&self, v: Vertex, u: Vertex) -> (found: bool)
        requires
            self.wf(),
            v < self.order(),
            u < self.order(),
            self.valid@.contains(v),
            self.valid@.contains(u),
        ensures
            found == self.adj()[v as int].contains(u),
    {
        proof {
            lemma_occurrences_contains(self.adj()[v as int], u);
            lemma_occurrences_contains(self.adj()[u as int], v);
            assert(occurrences(self.adj()[v as int], u) == occurrences(self.adj()[u as int], v));
        }
        if self.neighbors[v].len() < self.neighbors[u].len() {
            holds(&self.neighbors[v], u)
        } else {
            holds(&self.neighbors[u], v)
        }
    }

    /// Whether `v` is active.
    pub fn is_valid(&self, v: Vertex) -> (active: bool)
        requires
            self.wf(),
            v < self.order(),
        ensures
            active == self.valid@.contains(v),
    {
        self.valid.contains(v)
    }

    /// The number of active vertices.
    pub fn size(&self) -> (n: usize)
        requires
            self.wf(),
        ensures
            n == self.valid@.len(),
    {
        proof {
            self.valid.lemma_size();
        }
        self.valid.size()
    }

    /// The neighbours of `v`, active or not.
    pub fn neighbors(&self, v: Vertex) -> (list: &Adjacency)
        requires
            v < self.order(),
        ensures
            list@ == self.adj()[v as int],
    {
        &self.neighbors[v]
    }

    /// The neighbours of `v` that are active, in the order of its list.
    pub fn valid_neighbors(&self, v: Vertex) -> (list: Vec<Vertex>)
        requires
            self.wf(),
            v < self.order(),
        ensures
            list@ == active_among(self.adj()[v as int], self.valid@),
    {
        let ghost active = |n: usize| self.valid@.contains(n);
        let all = &self.neighbors[v];
        let mut list: Vec<Vertex> = Vec::new();
        let mut i: usize = 0;
        assert(all@.take(0) =~= Seq::<usize>::empty());
        while i < all.len()
            invariant
                i <= all@.len(),
                self.wf(),
                v < self.order(),
                all@ == self.adj()[v as int],
                active == |n: usize| self.valid@.contains(n),
                list@ == all@.take(i as int).filter(active),
            decreases all@.len() - i,
        {
            let n: usize = all[i];
            assert(self.adj()[v as int][i as int] < self.order());
            proof {
                assert(all@.take(i as int + 1) =~= all@.take(i as int).push(n));
                all@.take(i as int).lemma_filter_push(n, active);
            }
            if self.valid.contains(n) {
                list.push(n);
            }
            i += 1;
        }
        assert(all@.take(i as int) =~= all@);
        list
    }
}

impl Graph {
    /// Whether a search may start on the graph: every vertex is active and
    /// every degree fits a counter.
    pub open spec fn ready(&self) -> bool {
        &&& self.all_active()
        &&& forall|v: int| 0 <= v < self.order() ==> (#[trigger] self.adj()[v]).len() <= u32::MAX
    }

    /// Whether a search may start on the graph.
    pub fn is_ready(&self) -> (ready: bool)
        requires
            self.wf(),
        ensures
            ready == self.ready(),
    {
        let n: usize = self.neighbors.len();
        let mut v: usize = 0;
        while v < n
            invariant
                v <= n,
                n == self.order(),
                self.wf(),
                forall|x: usize| x < v ==> self.valid@.contains(x),
                forall|x: int| 0 <= x < v ==> (#[trigger] self.adj()[x]).len() <= u32::MAX,
            decreases n - v,
        {
            if !self.valid.contains(v) {
                return false;
            }
            if self.neighbors[v].len() > u32::MAX as usize {
                assert(self.adj()[v as int].len() > u32::MAX);
                return false;
            }
            v += 1;
        }
        true
    }
}

impl Graph {
    /// The graph that the edge list `content` describes, if `content` is an
    /// edge list.
    pub fn parse_edges(content: &str) -> (parsed: Option<Graph>)
        ensures
            parsed is Some <==> well_formed(content@),
            parsed matches Some(graph) ==> graph.reads(content@),
    {
        let text = chars_of(content);
        let rows = split_lines(&text);
        if rows.len() == 0 {
            return None;
        }
        let head = split_words(&rows[0]);
        assert(views(rows@)[0] == rows@[0]@);
        if head.len() != 1 {
            return None;
        }
        assert(views(head@)[0] == head@[0]@);
        if parse_count(&head[0]).is_none() {
            return None;
        }
        let ghost all = edges(text@);
        let mut names: Vec<Vec<char>> = Vec::new();
        let mut pairs: Vec<(usize, usize)> = Vec::new();
        let mut r: usize = 1;
        assert(all.take(0) =~= Seq::<(Seq<char>, Seq<char>)>::empty());
        while r < rows.len()
            invariant
                1 <= r <= rows@.len(),
                text@ == content@,
                views(rows@) == lines(text@),
                all == edges(text@),
                all.len() == rows@.len() - 1,
                forall|q: int| 1 <= q < r ==> (#[trigger] words(lines(text@)[q])).len() == 2,
                views(names@) == labels_of(all.take(r - 1)),
                views(names@).no_duplicates(),
                pairs@.len() == r - 1,
                forall|j: int|
                    0 <= j < r - 1 ==> (#[trigger] pairs@[j]).0 < names@.len() && pairs@[j].1
                        < names@.len() && names@[pairs@[j].0 as int]@ == all[j].0
                        && names@[pairs@[j].1 as int]@ == all[j].1,
            decreases rows@.len() - r,
        {
            let mut found = split_words(&rows[r]);
            assert(views(rows@)[r as int] == rows@[r as int]@);
            if found.len() != 2 {
                assert(words(lines(text@)[r as int]).len() != 2);
                return None;
            }
            let ghost both = views(found@);
            assert(both[0] == found@[0]@ && both[1] == found@[1]@);
            let second = found.pop().unwrap();
            let first = found.pop().unwrap();
            let ghost names0 = names@;
            let v = intern(&mut names, first);
            let ghost names1 = names@;
            let u = intern(&mut names, second);
            pairs.push((v, u));
            proof {
                assert(all.take(r as int).drop_last() =~= all.take(r - 1));
                assert(all.take(r as int).last() == all[r - 1]);
                assert(all[r - 1] == (both[0], both[1]));
                assert(views(names1).len() >= views(names0).len());
                assert(views(names@).len() >= views(names1).len());
                assert forall|j: int| 0 <= j < names0.len() implies names@[j]@ == names0[j]@ by {
                    assert(views(names1)[j] == views(names0)[j]);
                    assert(views(names@)[j] == views(names1)[j]);
                }
                assert(names@[v as int]@ == first@) by {
                    assert(views(names@)[v as int] == views(names1)[v as int]);
                }
            }
            r += 1;
        }
        let ghost labels = views(names@);
        proof {
            assert(all.take(rows@.len() - 1) =~= all);
            assert forall|q: int| 1 <= q < lines(text@).len() implies (#[trigger] words(
                lines(text@)[q],
            )).len() == 2 by {}
            assert(pairs@ =~= numbered(labels, all)) by {
                assert forall|j: int| 0 <= j < pairs@.len() implies pairs@[j] == numbered(
                    labels,
                    all,
                )[j] by {
                    let p = pairs@[j];
                    assert(labels[p.0 as int] == all[j].0);
                    assert(labels[p.1 as int] == all[j].1);
                    let a = labels.index_of(all[j].0);
                    let b = labels.index_of(all[j].1);
                    assert(labels[a] == all[j].0 && 0 <= a < labels.len());
                    assert(labels[b] == all[j].1 && 0 <= b < labels.len());
                }
            }
        }
        let n: usize = names.len();
        let mut neighbors: Vec<Vec<usize>> = Vec::new();
        let mut valid = DenseFastSet::new(n);
        let mut v: usize = 0;
        while v < n
            invariant
                v <= n,
                neighbors@.len() == v,
                forall|x: int| 0 <= x < v ==> (#[trigger] neighbors@[x])@ == Seq::<usize>::empty(),
                valid.wf(),
                valid.capacity() == n,
                valid.order() == Seq::new(v as nat, |i: int| i as usize),
            decreases n - v,
        {
            neighbors.push(Vec::new());
            assert(!valid@.contains(v)) by {
                if valid@.contains(v) {
                    let i = choose|i: int| 0 <= i < valid.order().len() && valid.order()[i] == v;
                    assert(valid.order()[i] == i as usize);
                }
            }
            valid.insert_unchecked(v);
            assert(valid.order() =~= Seq::new((v + 1) as nat, |i: int| i as usize));
            v += 1;
        }
        let mut graph = Graph { valid, neighbors, names };
        let mut j: usize = 0;
        proof {
            assert(pairs@.take(0) =~= Seq::<(usize, usize)>::empty());
            assert(graph.adj() =~= linked(n as nat, pairs@.take(0)));
            assert forall|a: usize, b: usize|
                a < graph.adj().len() && b < graph.adj().len() implies #[trigger] occurrences(
                graph.adj()[a as int],
                b,
            ) == occurrences(graph.adj()[b as int], a) by {}
            assert forall|x: usize| x < graph.order() implies graph.valid@.contains(x) by {
                assert(graph.valid.order()[x as int] == x);
            }
        }
        while j < pairs.len()
            invariant
                j <= pairs@.len(),
                graph.wf(),
                graph.all_active(),
                graph.order() == n,
                graph.names@ == names@,
                graph.valid.order() == Seq::new(n as nat, |i: int| i as usize),
                graph.adj() == linked(n as nat, pairs@.take(j as int)),
                forall|k: int|
                    0 <= k < pairs@.len() ==> (#[trigger] pairs@[k]).0 < n && pairs@[k].1 < n,
            decreases pairs@.len() - j,
        {
            let pair: (usize, usize) = pairs[j];
            assert(pairs@[j as int].0 < n);
            graph.add_edge(pair.0, pair.1);
            proof {
                assert(pairs@.take(j as int + 1).drop_last() =~= pairs@.take(j as int));
                assert(pairs@.take(j as int + 1).last() == pair);
            }
            j += 1;
        }
        proof {
            assert(pairs@.take(j as int) =~= pairs@);
            assert(graph.labels() =~= labels);
        }
        Some(graph)
    }

    /// The graph that the edge list `content` describes.
    pub fn new_from_edges(content: String) -> (graph: Graph)
        requires
            well_formed(content@),
        ensures
            graph.reads(content@),
    {
        match Graph::parse_edges(content.as_str()) {
            Some(graph) => graph,
            None => unreached(),
        }
    }
}


/// The adjacency lists after an edge between `v` and `u` has been added.
pub open spec fn with_edge(adj: Seq<Seq<usize>>, v: usize, u: usize) -> Seq<Seq<usize>> {
    let first = adj.update(v as int, adj[v as int].push(u));
    first.update(u as int, first[u as int].push(v))
}

/// Adding an edge keeps the lists mutual.
pub proof fn lemma_with_edge_mutual(adj: Seq<Seq<usize>>, v: usize, u: usize)
    requires
        mutual(adj),
        v < adj.len(),
        u < adj.len(),
    ensures
        mutual(with_edge(adj, v, u)),
{
    let next = with_edge(adj, v, u);
    assert forall|a: usize, b: usize| a < next.len() && b < next.len() implies #[trigger] occurrences(
        next[a as int],
        b,
    ) == occurrences(next[b as int], a) by {
        assert(occurrences(adj[a as int], b) == occurrences(adj[b as int], a));
        lemma_occurrences_push(adj[v as int], u, b);
        lemma_occurrences_push(adj[v as int], u, a);
        if v == u {
            lemma_occurrences_push(adj[v as int].push(v), v, a);
            lemma_occurrences_push(adj[v as int].push(v), v, b);
        } else {
            lemma_occurrences_push(adj[u as int], v, b);
            lemma_occurrences_push(adj[u as int], v, a);
        }
    }
    assert forall|a: int, i: int| 0 <= a < next.len() && 0 <= i < next[a].len() implies (
    #[trigger] next[a][i]) < next.len() by {
        if i < adj[a].len() {
            assert(adj[a][i] < adj.len());
        }
    }
}

/// Whether `list` holds `x`.
fn holds(list: &Vec<usize>, x: usize) -> (found: bool)
    ensures
        found == list@.contains(x),
{
    let mut i: usize = 0;
    while i < list.len()
        invariant
            i <= list@.len(),
            forall|j: int| 0 <= j < i ==> list@[j] != x,
        decreases list@.len() - i,
    {
        if list[i] == x {
            return true;
        }
        i += 1;
    }
    false
}

} // verus!
