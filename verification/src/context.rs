//! The search state and its steps: choosing a vertex, barring a vertex, and
//! taking steps back along the journal.

use crate::board::{sound, unwound, Board};
use crate::board_lemmas::{
    lemma_chose, lemma_dimmed_whole, lemma_dom_room, lemma_lit_whole, lemma_select_lit,
    lemma_select_room, lemma_sound_inv, lemma_sound_push, lemma_unexclude_room,
    lemma_unselect_dimmed, lemma_unselect_room,
};
use crate::counting::{
    hits, lemma_hits_bounds, lemma_occurrences_prefix, lemma_occurrences_step, occurrences,
};
use crate::fastset::{swap_removed, DenseFastSet, FastSet};
use crate::graph::{Graph, Vertex};
use vstd::prelude::*;

verus! {

/// Whether some chosen vertex dominates a vertex already.
#[derive(Debug, Clone, Copy)]
pub enum Color {
    /// Dominated.
    White,
    /// Not dominated yet.
    Black,
}

/// The kinds of step that the journal records.
#[derive(Debug, Clone, Copy)]
pub enum OperationKind {
    /// A vertex was chosen.
    Select,
    /// A vertex was barred.
    Exclude,
    /// Kept for steps that change nothing; no step of this kind is recorded.
    Ignore,
}

/// One record of the journal: the vertex, the colour it had when the step was
/// made, and the kind of the step.
#[derive(Debug, Clone, Copy)]
pub struct Operation {
    /// The vertex of the step.
    pub v: usize,
    /// The colour that the vertex had when the step was made.
    pub color: Color,
    /// Whether the vertex was chosen or barred.
    pub kind: OperationKind,
}

/// The state of a search: the graph, the journal of the steps made, the
/// vertex sets and the per-vertex counters.
#[derive(Debug)]
pub struct SolverContext {
    /// The graph; its active set shrinks and grows with the steps.
    pub graph: Graph,
    /// The journal: one record for each step that has not been taken back.
    pub history: Vec<Operation>,
    /// The vertices chosen so far.
    pub solution: DenseFastSet,
    /// The white set.
    pub white: DenseFastSet,
    /// The vertices barred while they were black.
    pub excluded: FastSet,
    /// For each vertex, its degree less the neighbours chosen while black.
    pub black_neighbors: Vec<u32>,
    /// For each vertex, the places of its list that hold a white vertex.
    pub white_neighbors: Vec<u32>,
    /// For each vertex, the places of its list that hold a chosen vertex.
    pub dom_amount: Vec<u32>,
}

/// The counters as integers.
pub open spec fn levels(counters: Seq<u32>) -> Seq<int> {
    Seq::new(counters.len(), |x: int| counters[x] as int)
}

impl SolverContext {
    /// What can be observed of the state, its journal apart.
    pub open spec fn board(&self) -> Board {
        Board {
            adj: self.graph.adj(),
            active: self.graph.valid@,
            solution: self.solution@,
            white: self.white@,
            excluded: self.excluded@,
            dom: levels(self.dom_amount@),
            black_nb: levels(self.black_neighbors@),
            white_nb: levels(self.white_neighbors@),
        }
    }

    /// The sets range over the vertices and there is one counter of each kind
    /// for each vertex.
    pub open spec fn shaped(&self) -> bool {
        &&& self.graph.wf()
        &&& self.solution.wf()
        &&& self.solution.capacity() == self.graph.order()
        &&& self.white.wf()
        &&& self.white.capacity() == self.graph.order()
        &&& self.excluded.wf()
        &&& self.excluded.capacity() == self.graph.order()
        &&& self.black_neighbors@.len() == self.graph.order()
        &&& self.white_neighbors@.len() == self.graph.order()
        &&& self.dom_amount@.len() == self.graph.order()
    }

    /// The state is shaped, its journal is sound for its board, and the
    /// solution holds the chosen vertices in the order of their records.
    pub open spec fn wf(&self) -> bool {
        &&& self.shaped()
        &&& sound(self.board(), self.history@)
        &&& self.solution.order() == picks(self.history@)
    }
}

/// The vertices that the journal records as chosen, in the order of their
/// records.
pub open spec fn picks(log: Seq<Operation>) -> Seq<usize>
    decreases log.len(),
{
    if log.len() == 0 {
        Seq::empty()
    } else if log.last().kind is Select {
        picks(log.drop_last()).push(log.last().v)
    } else {
        picks(log.drop_last())
    }
}

/// Taking the last member out of a packed order without repetitions leaves
/// the members before it in their order.
proof fn lemma_swap_removed_last(order: Seq<usize>, v: usize)
    requires
        order.push(v).no_duplicates(),
    ensures
        swap_removed(order.push(v), v) == order,
{
    let full = order.push(v);
    let at = full.index_of(v);
    assert(full[order.len() as int] == v);
    assert(0 <= at < full.len() && full[at] == v);
    assert(at == order.len());
    assert(swap_removed(full, v) =~= order);
}

/// Adds to the counter of each vertex its occurrences in `list`.
fn credit_neighbors(list: &Vec<usize>, counters: &mut Vec<u32>)
    requires
        forall|j: int| 0 <= j < list@.len() ==> (#[trigger] list@[j]) < old(counters)@.len(),
        forall|x: usize|
            x < old(counters)@.len() ==> (#[trigger] old(counters)@[x as int]) + occurrences(list@, x) <= u32::MAX,
    ensures
        final(counters)@.len() == old(counters)@.len(),
        forall|x: usize|
            x < old(counters)@.len() ==> (#[trigger] final(counters)@[x as int]) == old(
                counters,
            )@[x as int] + occurrences(list@, x),
{
    let mut j: usize = 0;
    assert(list@.take(0) =~= Seq::<usize>::empty());
    while j < list.len()
        invariant
            j <= list@.len(),
            counters@.len() == old(counters)@.len(),
            forall|k: int| 0 <= k < list@.len() ==> (#[trigger] list@[k]) < counters@.len(),
            forall|x: usize|
                x < counters@.len() ==> (#[trigger] old(counters)@[x as int]) + occurrences(list@, x) <= u32::MAX,
            forall|x: usize|
                x < counters@.len() ==> (#[trigger] counters@[x as int]) == old(counters)@[x as int]
                    + occurrences(list@.take(j as int), x),
        decreases list@.len() - j,
    {
        let n: usize = list[j];
        let ghost before = counters@;
        proof {
            assert(list@[j as int] < counters@.len());
            lemma_occurrences_step(list@, j as int, n);
            lemma_occurrences_prefix(list@, j as int + 1, n);
            assert(old(counters)@[n as int] + occurrences(list@, n) <= u32::MAX);
        }
        let c: u32 = counters[n];
        counters[n] = c + 1;
        proof {
            assert forall|x: usize| x < counters@.len() implies (#[trigger] counters@[x as int])
                == old(counters)@[x as int] + occurrences(list@.take(j as int + 1), x) by {
                lemma_occurrences_step(list@, j as int, x);
                assert(before[x as int] == old(counters)@[x as int] + occurrences(
                    list@.take(j as int),
                    x,
                ));
            }
        }
        j += 1;
    }
    assert(list@.take(j as int) =~= list@);
}

/// Takes from the counter of each vertex its occurrences in `list`.
fn debit_neighbors(list: &Vec<usize>, counters: &mut Vec<u32>)
    requires
        forall|j: int| 0 <= j < list@.len() ==> (#[trigger] list@[j]) < old(counters)@.len(),
        forall|x: usize|
            x < old(counters)@.len() ==> (#[trigger] old(counters)@[x as int]) >= occurrences(list@, x),
    ensures
        final(counters)@.len() == old(counters)@.len(),
        forall|x: usize|
            x < old(counters)@.len() ==> (#[trigger] final(counters)@[x as int]) == old(
                counters,
            )@[x as int] - occurrences(list@, x),
{
    let mut j: usize = 0;
    assert(list@.take(0) =~= Seq::<usize>::empty());
    while j < list.len()
        invariant
            j <= list@.len(),
            counters@.len() == old(counters)@.len(),
            forall|k: int| 0 <= k < list@.len() ==> (#[trigger] list@[k]) < counters@.len(),
            forall|x: usize|
                x < counters@.len() ==> (#[trigger] old(counters)@[x as int]) >= occurrences(list@, x),
            forall|x: usize|
                x < counters@.len() ==> (#[trigger] counters@[x as int]) == old(counters)@[x as int]
                    - occurrences(list@.take(j as int), x),
        decreases list@.len() - j,
    {
        let n: usize = list[j];
        let ghost before = counters@;
        proof {
            assert(list@[j as int] < counters@.len());
            lemma_occurrences_step(list@, j as int, n);
            lemma_occurrences_prefix(list@, j as int + 1, n);
            assert(old(counters)@[n as int] >= occurrences(list@, n));
        }
        let c: u32 = counters[n];
        counters[n] = c - 1;
        proof {
            assert forall|x: usize| x < counters@.len() implies (#[trigger] counters@[x as int])
                == old(counters)@[x as int] - occurrences(list@.take(j as int + 1), x) by {
                lemma_occurrences_step(list@, j as int, x);
                assert(before[x as int] == old(counters)@[x as int] - occurrences(
                    list@.take(j as int),
                    x,
                ));
            }
        }
        j += 1;
    }
    assert(list@.take(j as int) =~= list@);
}

impl SolverContext {
    /// The state on which a search over `graph` starts: nothing is chosen,
    /// white or barred, the journal is empty, and the black-neighbour counter
    /// of each vertex is its degree.
    pub fn new(graph: Graph) -> (context: Self)
        requires
            graph.wf(),
            graph.ready(),
        ensures
            context.wf(),
            context.graph == graph,
            context.history@ == Seq::<Operation>::empty(),
            context.board() == Board::fresh(graph.adj()),
    {
        let size: usize = graph.neighbors.len();
        let mut black_neighbors: Vec<u32> = Vec::new();
        let mut white_neighbors: Vec<u32> = Vec::new();
        let mut dom_amount: Vec<u32> = Vec::new();
        let mut i: usize = 0;
        while i < size
            invariant
                i <= size,
                size == graph.order(),
                graph.ready(),
                black_neighbors@.len() == i,
                white_neighbors@.len() == i,
                dom_amount@.len() == i,
                forall|x: int| 0 <= x < i ==> #[trigger] black_neighbors@[x] == graph.adj()[x].len(),
                forall|x: int| 0 <= x < i ==> #[trigger] white_neighbors@[x] == 0,
                forall|x: int| 0 <= x < i ==> #[trigger] dom_amount@[x] == 0,
            decreases size - i,
        {
            assert(graph.adj()[i as int].len() <= u32::MAX);
            let degree: usize = graph.neighbors[i].len();
            black_neighbors.push(degree as u32);
            white_neighbors.push(0);
            dom_amount.push(0);
            i += 1;
        }
        let context = SolverContext {
            graph,
            history: Vec::new(),
            solution: DenseFastSet::new(size),
            white: DenseFastSet::new(size),
            excluded: FastSet::new(size),
            black_neighbors,
            white_neighbors,
            dom_amount,
        };
        proof {
            let b = context.board();
            let f = Board::fresh(graph.adj());
            graph.valid.lemma_size();
            assert(b.active =~= f.active);
            assert(b.dom =~= f.dom);
            assert(b.black_nb =~= f.black_nb);
            assert(b.white_nb =~= f.white_nb);
        }
        context
    }

    /// Puts `v`, which is not in the white set, into it if `color` is white.
    pub fn add_color(&mut self, v: Vertex, color: Color)
        requires
            old(self).white.wf(),
            v < old(self).white.capacity(),
            !old(self).white@.contains(v),
        ensures
            final(self).white.wf(),
            final(self).white.capacity() == old(self).white.capacity(),
            final(self).white@ == if color is White {
                old(self).white@.insert(v)
            } else {
                old(self).white@
            },
            *final(self) == (SolverContext { white: final(self).white, ..*old(self) }),
    {
        if let Color::White = color {
            self.white.insert_unchecked(v)
        }
    }

    /// Takes `v` out of the white set and returns the colour that it had.
    pub fn remove_color(&mut self, v: Vertex) -> (color: Color)
        requires
            old(self).white.wf(),
            v < old(self).white.capacity(),
        ensures
            final(self).white.wf(),
            final(self).white.capacity() == old(self).white.capacity(),
            color == old(self).board().color(v),
            final(self).white@ == old(self).white@.remove(v),
            *final(self) == (SolverContext { white: final(self).white, ..*old(self) }),
    {
        if self.white.remove(v) {
            Color::White
        } else {
            Color::Black
        }
    }

    /// The colour of `v`.
    pub fn get_color(&mut self, v: Vertex) -> (color: Color)
        requires
            old(self).white.wf(),
            v < old(self).white.capacity(),
        ensures
            color == old(self).board().color(v),
            *final(self) == *old(self),
    {
        if self.white.contains(v) {
            Color::White
        } else {
            Color::Black
        }
    }
}

impl SolverContext {
    /// Takes `v` into the solution: `v` leaves the active set and the white
    /// set, every place of its list adds one to the counter of chosen
    /// neighbours of the vertex there, and a vertex whose counter leaves zero
    /// turns white. The journal records the step with the colour that `v` had.
    ///
    /// The state stays well formed if `v` was choosable. The choice of an
    /// inactive vertex cannot be taken back, nor can that of a vertex without
    /// chosen neighbour that stands in its own list and so turns itself white.
    pub fn select(&mut self, v: Vertex)
        requires
            old(self).wf(),
            v < old(self).graph.order(),
            !old(self).solution@.contains(v),
            !old(self).excluded@.contains(v),
        ensures
            final(self).shaped(),
            final(self).board() == old(self).board().select(v),
            final(self).history@ == old(self).history@.push(
                Operation { v, color: old(self).board().color(v), kind: OperationKind::Select },
            ),
            final(self).solution.order() == old(self).solution.order().push(v),
            final(self).graph.valid.order() == if old(self).graph.valid@.contains(v) {
                swap_removed(old(self).graph.valid.order(), v)
            } else {
                old(self).graph.valid.order()
            },
            old(self).board().choosable(v) ==> final(self).wf(),
    {
        let ghost b0 = self.board();
        let ghost list = b0.adj[v as int];
        proof {
            lemma_sound_inv(b0, self.history@);
            lemma_lit_whole(b0, v);
        }
        self.solution.insert_unchecked(v);
        self.graph.invalidate(v);
        let color = self.remove_color(v);
        let degree: usize = self.graph.neighbors[v].len();
        let mut i: usize = 0;
        proof {
            assert(list.take(0) =~= Seq::<usize>::empty());
            assert forall|x: usize| x < b0.order() implies hits(
                b0.adj[x as int],
                b0.lit_within(v, 0),
            ) == 0 by {
                lemma_hits_bounds(b0.adj[x as int], b0.lit_within(v, 0));
            }
        }
        while i < degree
            invariant
                i <= degree,
                degree == list.len(),
                list == b0.adj[v as int],
                v < b0.order(),
                b0.inv(),
                !b0.solution.contains(v),
                self.shaped(),
                self.graph.adj() == b0.adj,
                self.history == old(self).history,
                self.graph.valid@ == b0.active.remove(v),
                self.graph.valid.order() == if b0.active.contains(v) {
                    swap_removed(old(self).graph.valid.order(), v)
                } else {
                    old(self).graph.valid.order()
                },
                self.solution@ == b0.solution.insert(v),
                self.solution.order() == old(self).solution.order().push(v),
                self.excluded@ == b0.excluded,
                color is White <==> b0.white.contains(v),
                self.white@ == b0.white.remove(v).union(b0.lit_within(v, i as int)),
                forall|x: usize|
                    x < b0.order() ==> (#[trigger] self.dom_amount@[x as int]) == b0.dom[x as int]
                        + occurrences(list.take(i as int), x),
                forall|x: usize|
                    x < b0.order() ==> (#[trigger] self.black_neighbors@[x as int])
                        == b0.black_nb[x as int] - if b0.white.contains(v) {
                        0int
                    } else {
                        occurrences(list.take(i as int), x) as int
                    },
                forall|x: usize|
                    x < b0.order() ==> (#[trigger] self.white_neighbors@[x as int])
                        == b0.white_nb[x as int] - (if b0.white.contains(v) {
                        occurrences(list.take(i as int), x) as int
                    } else {
                        0int
                    }) + hits(b0.adj[x as int], b0.lit_within(v, i as int)),
            decreases degree - i,
        {
            let n: usize = self.graph.neighbors[v][i];
            let ghost dom1 = self.dom_amount@;
            let ghost black1 = self.black_neighbors@;
            let ghost white1 = self.white_neighbors@;
            proof {
                lemma_select_room(b0, v, i as int, n);
            }
            match color {
                Color::White => {
                    let w: u32 = self.white_neighbors[n];
                    self.white_neighbors[n] = w - 1;
                },
                Color::Black => {
                    let k: u32 = self.black_neighbors[n];
                    self.black_neighbors[n] = k - 1;
                },
            }
            let d: u32 = self.dom_amount[n];
            self.dom_amount[n] = d + 1;
            let ghost white2 = self.white_neighbors@;
            proof {
                assert forall|x: usize| x < b0.order() implies (#[trigger] self.dom_amount@[x as int])
                    == b0.dom[x as int] + occurrences(list.take(i as int + 1), x) by {
                    lemma_occurrences_step(list, i as int, x);
                    assert(dom1[x as int] == b0.dom[x as int] + occurrences(
                        list.take(i as int),
                        x,
                    ));
                }
                assert forall|x: usize| x < b0.order() implies (
                #[trigger] self.black_neighbors@[x as int]) == b0.black_nb[x as int]
                    - if b0.white.contains(v) {
                    0int
                } else {
                    occurrences(list.take(i as int + 1), x) as int
                } by {
                    lemma_occurrences_step(list, i as int, x);
                    assert(black1[x as int] == b0.black_nb[x as int] - if b0.white.contains(v) {
                        0int
                    } else {
                        occurrences(list.take(i as int), x) as int
                    });
                }
                assert forall|x: usize| x < b0.order() implies (#[trigger] white2[x as int])
                    == b0.white_nb[x as int] - (if b0.white.contains(v) {
                    occurrences(list.take(i as int + 1), x) as int
                } else {
                    0int
                }) + hits(b0.adj[x as int], b0.lit_within(v, i as int)) by {
                    lemma_occurrences_step(list, i as int, x);
                    assert(white1[x as int] == b0.white_nb[x as int] - (if b0.white.contains(v) {
                        occurrences(list.take(i as int), x) as int
                    } else {
                        0int
                    }) + hits(b0.adj[x as int], b0.lit_within(v, i as int)));
                }
                lemma_select_lit(b0, v, i as int, n, n);
            }
            if self.dom_amount[n] == 1 {
                proof {
                    assert forall|x: usize| x < self.white_neighbors@.len() implies (
                    #[trigger] self.white_neighbors@[x as int]) + occurrences(
                        self.graph.neighbors@[n as int]@,
                        x,
                    ) <= u32::MAX by {
                        lemma_select_lit(b0, v, i as int, n, x);
                        lemma_occurrences_prefix(list, i as int + 1, x);
                    }
                    assert forall|j: int|
                        0 <= j < self.graph.neighbors@[n as int]@.len() implies (
                    #[trigger] self.graph.neighbors@[n as int]@[j])
                        < self.white_neighbors@.len() by {
                        assert(b0.adj[n as int][j] < b0.order());
                    }
                }
                self.white.insert_unchecked(n);
                credit_neighbors(&self.graph.neighbors[n], &mut self.white_neighbors);
                proof {
                    assert forall|x: usize| x < b0.order() implies (
                    #[trigger] self.white_neighbors@[x as int]) == b0.white_nb[x as int] - (
                    if b0.white.contains(v) {
                        occurrences(list.take(i as int + 1), x) as int
                    } else {
                        0int
                    }) + hits(b0.adj[x as int], b0.lit_within(v, i as int + 1)) by {
                        lemma_select_lit(b0, v, i as int, n, x);
                        assert(self.white_neighbors@[x as int] == white2[x as int] + occurrences(
                            b0.adj[n as int],
                            x,
                        ));
                    }
                    assert(self.white@ =~= b0.white.remove(v).union(
                        b0.lit_within(v, i as int + 1),
                    ));
                }
            }
            i += 1;
        }
        let op = Operation { v, color, kind: OperationKind::Select };
        self.history.push(op);
        proof {
            assert(list.take(i as int) =~= list);
            let a = b0.select(v);
            let b = self.board();
            assert(b.dom =~= a.dom);
            assert(b.black_nb =~= a.black_nb);
            assert(b.white_nb =~= a.white_nb);
            assert(b == a);
            assert(color == b0.color(v));
            assert(self.history@.drop_last() =~= old(self).history@);
            if b0.choosable(v) {
                lemma_sound_push(b0, old(self).history@, op);
            }
        }
    }
}

impl SolverContext {
    /// Takes back the choice of `v`, which was made while `v` had the colour
    /// `color`: `v` is active again and has that colour again, every place of
    /// its list takes one from the counter of chosen neighbours of the vertex
    /// there, and a vertex whose counter reaches zero turns black. The journal
    /// is left as it is.
    pub fn undo_select(&mut self, v: Vertex, color: Color)
        requires
            old(self).shaped(),
            old(self).board().chose(v, color),
        ensures
            final(self).shaped(),
            final(self).board() == old(self).board().unselect(v, color),
            final(self).history == old(self).history,
            final(self).solution.order() == swap_removed(old(self).solution.order(), v),
            final(self).graph.valid.order() == old(self).graph.valid.order().push(v),
    {
        let ghost b0 = self.board();
        let ghost list = b0.adj[v as int];
        let ghost base = if color is White {
            b0.white.insert(v)
        } else {
            b0.white
        };
        proof {
            lemma_chose(b0, v, color);
            lemma_dimmed_whole(b0, v);
        }
        self.solution.remove(v);
        self.graph.revalidate(v);
        self.add_color(v, color);
        let degree: usize = self.graph.neighbors[v].len();
        let mut i: usize = 0;
        proof {
            assert(list.take(0) =~= Seq::<usize>::empty());
            assert forall|x: usize| x < b0.order() implies hits(
                b0.adj[x as int],
                b0.dimmed_within(v, 0),
            ) == 0 by {
                lemma_hits_bounds(b0.adj[x as int], b0.dimmed_within(v, 0));
            }
            assert(self.white@ =~= base.difference(b0.dimmed_within(v, 0)));
        }
        while i < degree
            invariant
                i <= degree,
                degree == list.len(),
                list == b0.adj[v as int],
                b0.chose(v, color),
                b0.inv(),
                base == if color is White {
                    b0.white.insert(v)
                } else {
                    b0.white
                },
                self.shaped(),
                self.graph.adj() == b0.adj,
                self.history == old(self).history,
                self.graph.valid@ == b0.active.insert(v),
                self.graph.valid.order() == old(self).graph.valid.order().push(v),
                self.solution@ == b0.solution.remove(v),
                self.solution.order() == swap_removed(old(self).solution.order(), v),
                self.excluded@ == b0.excluded,
                self.white@ == base.difference(b0.dimmed_within(v, i as int)),
                forall|x: usize|
                    x < b0.order() ==> (#[trigger] self.dom_amount@[x as int]) == b0.dom[x as int]
                        - occurrences(list.take(i as int), x),
                forall|x: usize|
                    x < b0.order() ==> (#[trigger] self.black_neighbors@[x as int])
                        == b0.black_nb[x as int] + if color is White {
                        0int
                    } else {
                        occurrences(list.take(i as int), x) as int
                    },
                forall|x: usize|
                    x < b0.order() ==> (#[trigger] self.white_neighbors@[x as int])
                        == b0.white_nb[x as int] + (if color is White {
                        occurrences(list.take(i as int), x) as int
                    } else {
                        0int
                    }) - hits(b0.adj[x as int], b0.dimmed_within(v, i as int)),
            decreases degree - i,
        {
            let n: usize = self.graph.neighbors[v][i];
            let ghost dom1 = self.dom_amount@;
            let ghost black1 = self.black_neighbors@;
            let ghost white1 = self.white_neighbors@;
            proof {
                lemma_unselect_room(b0, v, color, i as int, n);
            }
            match color {
                Color::White => {
                    let w: u32 = self.white_neighbors[n];
                    self.white_neighbors[n] = w + 1;
                },
                Color::Black => {
                    let k: u32 = self.black_neighbors[n];
                    self.black_neighbors[n] = k + 1;
                },
            }
            let d: u32 = self.dom_amount[n];
            self.dom_amount[n] = d - 1;
            let ghost white2 = self.white_neighbors@;
            proof {
                assert forall|x: usize| x < b0.order() implies (#[trigger] self.dom_amount@[x as int])
                    == b0.dom[x as int] - occurrences(list.take(i as int + 1), x) by {
                    lemma_occurrences_step(list, i as int, x);
                    assert(dom1[x as int] == b0.dom[x as int] - occurrences(
                        list.take(i as int),
                        x,
                    ));
                }
                assert forall|x: usize| x < b0.order() implies (
                #[trigger] self.black_neighbors@[x as int]) == b0.black_nb[x as int]
                    + if color is White {
                    0int
                } else {
                    occurrences(list.take(i as int + 1), x) as int
                } by {
                    lemma_occurrences_step(list, i as int, x);
                    assert(black1[x as int] == b0.black_nb[x as int] + if color is White {
                        0int
                    } else {
                        occurrences(list.take(i as int), x) as int
                    });
                }
                assert forall|x: usize| x < b0.order() implies (#[trigger] white2[x as int])
                    == b0.white_nb[x as int] + (if color is White {
                    occurrences(list.take(i as int + 1), x) as int
                } else {
                    0int
                }) - hits(b0.adj[x as int], b0.dimmed_within(v, i as int)) by {
                    lemma_occurrences_step(list, i as int, x);
                    assert(white1[x as int] == b0.white_nb[x as int] + (if color is White {
                        occurrences(list.take(i as int), x) as int
                    } else {
                        0int
                    }) - hits(b0.adj[x as int], b0.dimmed_within(v, i as int)));
                }
                lemma_unselect_dimmed(b0, v, color, i as int, n, n);
            }
            if self.dom_amount[n] == 0 {
                proof {
                    assert(self.white@.contains(n));
                    assert forall|x: usize| x < self.white_neighbors@.len() implies (
                    #[trigger] self.white_neighbors@[x as int]) >= occurrences(
                        self.graph.neighbors@[n as int]@,
                        x,
                    ) by {
                        lemma_unselect_dimmed(b0, v, color, i as int, n, x);
                    }
                    assert forall|j: int|
                        0 <= j < self.graph.neighbors@[n as int]@.len() implies (
                    #[trigger] self.graph.neighbors@[n as int]@[j])
                        < self.white_neighbors@.len() by {
                        assert(b0.adj[n as int][j] < b0.order());
                    }
                }
                self.white.remove(n);
                debit_neighbors(&self.graph.neighbors[n], &mut self.white_neighbors);
                proof {
                    assert forall|x: usize| x < b0.order() implies (
                    #[trigger] self.white_neighbors@[x as int]) == b0.white_nb[x as int] + (
                    if color is White {
                        occurrences(list.take(i as int + 1), x) as int
                    } else {
                        0int
                    }) - hits(b0.adj[x as int], b0.dimmed_within(v, i as int + 1)) by {
                        lemma_unselect_dimmed(b0, v, color, i as int, n, x);
                        assert(self.white_neighbors@[x as int] == white2[x as int] - occurrences(
                            b0.adj[n as int],
                            x,
                        ));
                    }
                    assert(self.white@ =~= base.difference(b0.dimmed_within(v, i as int + 1)));
                }
            }
            i += 1;
        }
        proof {
            assert(list.take(i as int) =~= list);
            let a = b0.unselect(v, color);
            let b = self.board();
            assert(b.dom =~= a.dom);
            assert(b.black_nb =~= a.black_nb);
            assert(b.white_nb =~= a.white_nb);
            assert(b == a);
        }
    }
}

impl SolverContext {
    /// Bars `v` from the solution. A white vertex leaves the white set and
    /// the active set, and every place of its list takes one from the
    /// white-neighbour counter of the vertex there. A black vertex joins the
    /// excluded set and stays active. The journal records the step with the
    /// colour that `v` had.
    ///
    /// The state stays well formed unless `v` was black and barred already;
    /// such a step cannot be taken back.
    pub fn exclude(&mut self, v: Vertex)
        requires
            old(self).wf(),
            v < old(self).graph.order(),
            !old(self).solution@.contains(v),
        ensures
            final(self).shaped(),
            final(self).board() == old(self).board().exclude(v),
            final(self).history@ == old(self).history@.push(
                Operation { v, color: old(self).board().color(v), kind: OperationKind::Exclude },
            ),
            final(self).solution == old(self).solution,
            final(self).graph.valid.order() == if old(self).white@.contains(v) {
                swap_removed(old(self).graph.valid.order(), v)
            } else {
                old(self).graph.valid.order()
            },
            old(self).white@.contains(v) || !old(self).excluded@.contains(v) ==> final(self).wf(),
    {
        let ghost b0 = self.board();
        proof {
            lemma_sound_inv(b0, self.history@);
        }
        let color = self.get_color(v);
        match color {
            Color::White => {
                proof {
                    assert forall|x: usize| x < self.white_neighbors@.len() implies (
                    #[trigger] self.white_neighbors@[x as int]) >= occurrences(
                        self.graph.neighbors@[v as int]@,
                        x,
                    ) by {
                        lemma_dom_room(b0, x, v);
                    }
                    assert forall|j: int|
                        0 <= j < self.graph.neighbors@[v as int]@.len() implies (
                    #[trigger] self.graph.neighbors@[v as int]@[j])
                        < self.white_neighbors@.len() by {
                        assert(b0.adj[v as int][j] < b0.order());
                    }
                }
                self.white.remove(v);
                self.graph.invalidate(v);
                debit_neighbors(&self.graph.neighbors[v], &mut self.white_neighbors);
            },
            Color::Black => self.excluded.insert(v),
        };
        let op = Operation { v, color, kind: OperationKind::Exclude };
        self.history.push(op);
        proof {
            let a = b0.exclude(v);
            let b = self.board();
            assert(b.dom =~= a.dom);
            assert(b.black_nb =~= a.black_nb);
            assert(b.white_nb =~= a.white_nb);
            assert(b == a);
            assert(self.history@.drop_last() =~= old(self).history@);
            if b0.white.contains(v) || !b0.excluded.contains(v) {
                lemma_sound_push(b0, old(self).history@, op);
            }
        }
    }

    /// Takes back the barring of `v`, which was made while `v` had the colour
    /// `color`: a vertex barred while white is white and active again and its
    /// neighbours count it again, a vertex barred while black leaves the
    /// excluded set. The journal is left as it is.
    pub fn undo_exclude(&mut self, v: Vertex, color: Color)
        requires
            old(self).shaped(),
            old(self).board().barred(v, color),
        ensures
            final(self).shaped(),
            final(self).board() == old(self).board().unexclude(v, color),
            final(self).history == old(self).history,
            final(self).solution == old(self).solution,
            final(self).graph.valid.order() == if color is White {
                old(self).graph.valid.order().push(v)
            } else {
                old(self).graph.valid.order()
            },
    {
        let ghost b0 = self.board();
        match color {
            Color::White => {
                proof {
                    assert forall|x: usize| x < self.white_neighbors@.len() implies (
                    #[trigger] self.white_neighbors@[x as int]) + occurrences(
                        self.graph.neighbors@[v as int]@,
                        x,
                    ) <= u32::MAX by {
                        lemma_unexclude_room(b0, v, x);
                    }
                    assert forall|j: int|
                        0 <= j < self.graph.neighbors@[v as int]@.len() implies (
                    #[trigger] self.graph.neighbors@[v as int]@[j])
                        < self.white_neighbors@.len() by {
                        assert(b0.unexclude(v, color).adj[v as int][j] < b0.order());
                    }
                    lemma_unexclude_room(b0, v, v);
                }
                self.white.insert_unchecked(v);
                self.graph.revalidate(v);
                credit_neighbors(&self.graph.neighbors[v], &mut self.white_neighbors);
            },
            Color::Black => {
                self.excluded.remove(v);
            },
        }
        proof {
            let a = b0.unexclude(v, color);
            let b = self.board();
            assert(b.dom =~= a.dom);
            assert(b.black_nb =~= a.black_nb);
            assert(b.white_nb =~= a.white_nb);
            assert(b == a);
        }
    }

    /// Takes back the steps of the journal beyond its first `time` records,
    /// the last one first, and drops their records.
    pub fn rollback(&mut self, time: usize)
        requires
            old(self).wf(),
            time <= old(self).history@.len(),
        ensures
            final(self).wf(),
            final(self).board() == unwound(old(self).board(), old(self).history@, time as nat),
            final(self).history@ == old(self).history@.take(time as int),
    {
        while self.history.len() > time
            invariant
                self.wf(),
                time <= self.history@.len() <= old(self).history@.len(),
                self.history@ == old(self).history@.take(self.history@.len() as int),
                unwound(self.board(), self.history@, time as nat) == unwound(
                    old(self).board(),
                    old(self).history@,
                    time as nat,
                ),
            decreases self.history@.len(),
        {
            let ghost b = self.board();
            let ghost log = self.history@;
            let popped = self.history.pop();
            if let Some(op) = popped {
                proof {
                    assert(op == log.last());
                    assert(self.history@ == log.drop_last());
                    lemma_sound_inv(b.undo(op), log.drop_last());
                    assert(log.drop_last() =~= old(self).history@.take(log.len() - 1));
                    if op.kind is Select {
                        lemma_swap_removed_last(picks(log.drop_last()), op.v);
                    }
                }
                match op.kind {
                    OperationKind::Select => self.undo_select(op.v, op.color),
                    OperationKind::Exclude => self.undo_exclude(op.v, op.color),
                    OperationKind::Ignore => {},
                }
            }
        }
        proof {
            assert(old(self).history@.take(old(self).history@.len() as int) =~= old(self).history@);
        }
    }

    /// Whether `v` can be chosen so that the choice can be taken back.
    pub fn is_choosable(&self, v: Vertex) -> (choosable: bool)
        requires
            self.shaped(),
            v < self.graph.order(),
        ensures
            choosable == self.board().choosable(v),
    {
        if !self.is_free(v) {
            return false;
        }
        if self.dom_amount[v] != 0 {
            return true;
        }
        !self.graph.has_edge(v, v)
    }

    /// Whether `v` is active and neither chosen nor barred.
    pub fn is_free(&self, v: Vertex) -> (free: bool)
        requires
            self.shaped(),
            v < self.graph.order(),
        ensures
            free == self.board().free(v),
    {
        self.graph.is_valid(v) && !self.solution.contains(v) && !self.excluded.contains(v)
    }

    /// Whether every active vertex has a chosen neighbour.
    pub fn is_dominated(&self) -> (dominated: bool)
        requires
            self.shaped(),
        ensures
            dominated == self.board().dominated(),
    {
        let active = self.graph.valid.iter();
        let mut i: usize = 0;
        proof {
            self.graph.valid.lemma_size();
        }
        while i < active.len()
            invariant
                i <= active@.len(),
                self.shaped(),
                active@ == self.graph.valid.order(),
                forall|j: int| 0 <= j < i ==> self.dom_amount@[(#[trigger] active@[j]) as int] > 0,
            decreases active@.len() - i,
        {
            let v: usize = active[i];
            assert(self.graph.valid@.contains(active@[i as int]));
            if self.dom_amount[v] == 0 {
                assert(self.board().active.contains(v) && self.board().dom[v as int] == 0);
                return false;
            }
            i += 1;
        }
        true
    }
}

} // verus!
