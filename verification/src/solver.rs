//! The branching search: pick an undominated vertex, try each of its
//! choosable neighbours in the solution, and keep the smallest dominating set
//! found.

use crate::board::{dominating, run, sweep, unwound, Board};
use crate::board_lemmas::{
    lemma_dominated_solution, lemma_select_undone, lemma_sound_inv, lemma_sweep_admitted,
    lemma_unwound_twice,
};
use crate::context::{Operation, OperationKind, SolverContext};
use crate::counting::{hits, lemma_hits_bounds};
use crate::fastset::{lemma_all_keys, lemma_bounded_keys};
use crate::graph::{active_among, Graph, Vertex};
use crate::laws::law_round_trip;
use itertools::Itertools;
use vstd::prelude::*;
use vstd::set_lib::lemma_len_subset;

verus! {

/// A search state, the smallest dominating set found so far, and the number
/// of nodes of the search tree that were visited.
pub struct Solver {
    /// The state of the search.
    pub context: SolverContext,
    /// The best solution so far, in the order in which its vertices were
    /// stored.
    pub best_solution: Vec<Vertex>,
    /// The calls of `branch` so far; the count stops at the largest number.
    pub num_nodes: u64,
}

/// `Itertools::collect_vec` on the range `0..n`: the new vector holds the
/// numbers below `n` in rising order.
#[verifier::external_body]
fn collect_range(n: usize) -> (all: Vec<usize>)
    ensures
        all@ == Seq::new(n as nat, |i: int| i as usize),
{
    (0..n).collect_vec()
}

impl Solver {
    /// A solver on `context` whose best solution so far is the numbers below
    /// the count of active vertices: every vertex, where all are active.
    pub fn new(context: SolverContext) -> (solver: Self)
        requires
            context.wf(),
        ensures
            solver.context == context,
            solver.best_solution@ == Seq::new(context.graph.valid@.len(), |i: int| i as usize),
            solver.num_nodes == 0,
            context.graph.all_active() ==> solver.best_solution@.len() == context.graph.order()
                && dominating(context.graph.adj(), solver.best_solution@.to_set()),
    {
        let size: usize = context.graph.size();
        let best_solution = collect_range(size);
        proof {
            if context.graph.all_active() {
                let n = context.graph.neighbors.len();
                context.graph.valid.lemma_size();
                lemma_all_keys(n);
                assert(context.graph.valid@ =~= Set::new(|k: usize| k < n));
                assert forall|v: usize| v < n implies best_solution@.to_set().contains(v) by {
                    assert(best_solution@[v as int] == v);
                }
            }
        }
        Self { context, best_solution, num_nodes: 0 }
    }

    /// The graph of the search.
    pub fn graph(&self) -> (graph: &Graph)
        ensures
            *graph == self.context.graph,
    {
        &self.context.graph
    }

    /// The vertex that drives the next branching, if the state is not
    /// dominated: an active vertex without chosen neighbour that has the
    /// fewest active neighbours.
    pub fn pivot(&self) -> (pivot: Option<Vertex>)
        requires
            self.context.wf(),
        ensures
            pivot is None <==> self.context.board().dominated(),
            pivot matches Some(p) ==> self.context.board().is_pivot(p) && first_pivot(
                self.context.board(),
                self.context.graph.valid.order(),
                p,
            ),
    {
        let ghost b = self.context.board();
        let active = self.context.graph.valid.iter();
        let mut pivot: Option<Vertex> = None;
        let mut fewest: usize = 0;
        let ghost mut at: int = 0;
        let mut i: usize = 0;
        proof {
            lemma_sound_inv(b, self.context.history@);
            self.context.graph.valid.lemma_size();
        }
        while i < active.len()
            invariant
                i <= active@.len(),
                self.context.shaped(),
                b == self.context.board(),
                b.inv(),
                active@ == self.context.graph.valid.order(),
                pivot is None ==> forall|j: int|
                    0 <= j < i ==> !b.undominated(#[trigger] active@[j]),
                pivot matches Some(p) ==> b.undominated(p) && fewest == b.residual(p) && 0 <= at
                    < i && active@[at] == p && (forall|j: int|
                    0 <= j < at && b.undominated(#[trigger] active@[j]) ==> b.residual(p)
                        < b.residual(active@[j])) && (forall|j: int|
                    at <= j < i && b.undominated(#[trigger] active@[j]) ==> b.residual(p)
                        <= b.residual(active@[j])),
            decreases active@.len() - i,
        {
            let v: usize = active[i];
            assert(self.context.graph.valid@.contains(active@[i as int]));
            if !self.context.white.contains(v) {
                let degree: usize = self.context.graph.valid_neighbors(v).len();
                match pivot {
                    None => {
                        pivot = Some(v);
                        fewest = degree;
                        proof {
                            at = i as int;
                        }
                    },
                    Some(_) => {
                        if degree < fewest {
                            pivot = Some(v);
                            fewest = degree;
                            proof {
                                at = i as int;
                            }
                        }
                    },
                }
            } else {
                assert(b.white.contains(v));
            }
            i += 1;
        }
        proof {
            assert forall|q: usize| b.undominated(q) implies exists|j: int|
                0 <= j < active@.len() && active@[j] == q by {
                assert(self.context.graph.valid.order().contains(q));
            }
            if let Some(p) = pivot {
                assert forall|q: usize| #[trigger] b.undominated(q) implies b.residual(p)
                    <= b.residual(q) by {
                    let j = choose|j: int| 0 <= j < active@.len() && active@[j] == q;
                    assert(b.undominated(active@[j]));
                }
            } else {
                assert forall|v: usize| #[trigger] b.active.contains(v) implies b.dom[v as int]
                    > 0 by {
                    if b.undominated(v) {
                        let j = choose|j: int| 0 <= j < active@.len() && active@[j] == v;
                        assert(!b.undominated(active@[j]));
                    }
                }
            }
        }
        pivot
    }
}

/// Whether `p` is the pivot that a walk over `order` finds on the board `b`:
/// the first vertex of `order` with the fewest active neighbours among those
/// that are active and have no chosen neighbour.
pub open spec fn first_pivot(b: Board, order: Seq<usize>, p: usize) -> bool {
    exists|at: int|
        {
            &&& 0 <= at < order.len()
            &&& #[trigger] order[at] == p
            &&& b.undominated(p)
            &&& forall|j: int|
                0 <= j < at && b.undominated(#[trigger] order[j]) ==> b.residual(p) < b.residual(
                    order[j],
                )
            &&& forall|j: int|
                at <= j < order.len() && b.undominated(#[trigger] order[j]) ==> b.residual(p)
                    <= b.residual(order[j])
        }
}

/// Whether `best` may take the place of a best solution of `limit` vertices
/// in a search that stands on the board `from`: it is smaller, names no
/// vertex twice, dominates every vertex, holds what is chosen on `from`, and
/// holds beyond that only vertices that are free on `from`.
pub open spec fn improves(from: Board, limit: nat, best: Seq<usize>) -> bool {
    &&& best.len() < limit
    &&& best.no_duplicates()
    &&& dominating(from.adj, best.to_set())
    &&& from.solution.subset_of(best.to_set())
    &&& forall|i: int|
        0 <= i < best.len() ==> from.solution.contains(#[trigger] best[i]) || from.free(best[i])
}

/// Whether the search that stands on the board `b` comes to a dominated
/// board whose solution lies in the set `d`, however its pivots fall: `d`
/// dominates every vertex, holds what is chosen on `b` and beyond that only
/// vertices that are free on `b`, and each of those that has no chosen
/// neighbour has a neighbour in `d` and does not stand in its own list.
pub open spec fn within_reach(b: Board, d: Set<usize>) -> bool {
    &&& d.finite()
    &&& dominating(b.adj, d)
    &&& b.solution.subset_of(d)
    &&& forall|x: usize| #[trigger] d.contains(x) ==> b.solution.contains(x) || b.free(x)
    &&& forall|v: usize|
        #[trigger] d.contains(v) && !b.solution.contains(v) && b.dom[v as int] == 0 ==> {
            &&& !b.adj[v as int].contains(v)
            &&& exists|i: int|
                0 <= i < b.adj[v as int].len() && d.contains(#[trigger] b.adj[v as int][i])
        }
}

/// Whether `x` is among the first `k` of `cands`.
pub open spec fn tried(cands: Seq<usize>, k: int, x: usize) -> bool {
    exists|j: int| 0 <= j < k && #[trigger] cands[j] == x
}

/// Whether `d` holds one of the first `k` of `cands`.
pub open spec fn meets(cands: Seq<usize>, k: int, d: Set<usize>) -> bool {
    exists|j: int| 0 <= j < k && d.contains(#[trigger] cands[j])
}

/// The candidates of a branching on `p`: the active neighbours of `p`, in
/// the order of its list.
pub open spec fn candidates(b: Board, p: usize) -> Seq<usize> {
    active_among(b.adj[p as int], b.active)
}

/// The board on which the candidate `j` of the pivot `p` has its turn: the
/// candidates before it that were choosable in their turn have been barred.
pub open spec fn turn(b: Board, p: usize, j: int) -> Board {
    run(b, sweep(b, candidates(b, p).take(j)))
}

/// The board on which the search below the candidate `j` of the pivot `p`
/// starts: the candidate has been chosen on the board of its turn.
pub open spec fn below(b: Board, p: usize, j: int) -> Board {
    turn(b, p, j).select(candidates(b, p)[j])
}

/// Whether the search that stands on the board `b` comes, with at most
/// `depth` choices one below the other and whichever of the vertices that
/// may be pivot is taken, to a dominated board with at most `k` chosen
/// vertices. On a dominated board that is the board itself; otherwise some
/// candidate of the pivot, choosable in its turn, leads there.
pub open spec fn finds(b: Board, k: nat, depth: nat) -> bool
    decreases depth,
{
    if b.dominated() {
        b.solution.len() <= k
    } else if depth == 0 {
        false
    } else {
        forall|p: usize| #[trigger]
            b.is_pivot(p) ==> exists|j: int|
                0 <= j < candidates(b, p).len() && turn(b, p, j).choosable(candidates(b, p)[j])
                    && finds(#[trigger] below(b, p, j), k, (depth - 1) as nat)
    }
}

/// Whether the search that stands on the board `b`, with its active vertices
/// in the order `order`, comes with at most `depth` choices one below the
/// other to a dominated board with at most `k` chosen vertices: on this
/// board the pivot is the one that a walk over `order` finds, and below it
/// whichever vertex may be pivot is taken, since the order in which the
/// active vertices stand after steps were taken back is left open.
pub open spec fn finds_from(b: Board, order: Seq<usize>, k: nat, depth: nat) -> bool {
    if b.dominated() {
        b.solution.len() <= k
    } else {
        &&& depth > 0
        &&& forall|p: usize| #[trigger]
            first_pivot(b, order, p) && b.is_pivot(p) ==> exists|j: int|
                0 <= j < candidates(b, p).len() && turn(b, p, j).choosable(candidates(b, p)[j])
                    && finds(#[trigger] below(b, p, j), k, (depth - 1) as nat)
    }
}

/// What the search finds whichever vertex is taken as pivot, it finds with
/// the pivot of a walk over `order`.
pub proof fn lemma_finds_from(b: Board, order: Seq<usize>, k: nat, depth: nat)
    requires
        finds(b, k, depth),
    ensures
        finds_from(b, order, k, depth),
{
}

/// The node count after one more node: it stops at the largest number.
pub open spec fn counted(nodes: u64) -> u64 {
    if nodes < u64::MAX {
        (nodes + 1) as u64
    } else {
        nodes
    }
}

/// Whether the board `after`, the journal `log1` and the best solution
/// `best1` are what a branching leaves of `before`, `log0` and `best0` when
/// `p` is the pivot that a walk over `order` finds: the active neighbours of
/// `p` that were choosable in their turn have been barred in the order of its
/// list, and where there was none, the best solution is as it was.
pub open spec fn branched(
    before: Board,
    order: Seq<usize>,
    log0: Seq<Operation>,
    best0: Seq<usize>,
    p: usize,
    after: Board,
    log1: Seq<Operation>,
    best1: Seq<usize>,
) -> bool {
    let steps = sweep(before, candidates(before, p));
    &&& before.is_pivot(p)
    &&& first_pivot(before, order, p)
    &&& log1 == log0 + steps
    &&& after == run(before, steps)
    &&& steps.len() == 0 ==> best1 == best0
}

impl Solver {
    /// Visits one node of the search tree. If the state is dominated, the
    /// solution of the state replaces the best one where it is smaller.
    /// Otherwise each active neighbour of the pivot that is choosable when
    /// its turn comes is, in the order of the pivot's list, chosen, searched
    /// below, given up again and then barred. The pivot itself is not tried,
    /// so the search need not come to a smallest dominating set.
    ///
    /// The steps made below a choice are taken back before the next
    /// neighbour is tried, so what the call leaves in the journal beyond what
    /// it found there is the barring of those neighbours. The best solution
    /// never grows, one that replaced another dominates every vertex, and in
    /// the end it is no larger than the solution of any dominated board that
    /// the search is known to find, nor than any dominating set within reach
    /// of the state.
    pub fn branch(&mut self)
        requires
            old(self).context.wf(),
        ensures
            final(self).context.wf(),
            final(self).context.graph.adj() == old(self).context.graph.adj(),
            old(self).context.board().dominated() ==> final(self).context.board() == old(
                self,
            ).context.board() && final(self).context.history@ == old(self).context.history@,
            !old(self).context.board().dominated() ==> exists|p: usize| #[trigger]
                branched(
                    old(self).context.board(),
                    old(self).context.graph.valid.order(),
                    old(self).context.history@,
                    old(self).best_solution@,
                    p,
                    final(self).context.board(),
                    final(self).context.history@,
                    final(self).best_solution@,
                ),
            old(self).context.history@.is_prefix_of(final(self).context.history@),
            unwound(
                final(self).context.board(),
                final(self).context.history@,
                old(self).context.history@.len(),
            ) == old(self).context.board(),
            final(self).best_solution@.len() <= old(self).best_solution@.len(),
            old(self).context.board().dominated() ==> final(self).best_solution@ == if old(
                self,
            ).context.solution@.len() < old(self).best_solution@.len() {
                old(self).context.solution.order()
            } else {
                old(self).best_solution@
            },
            final(self).best_solution@ == old(self).best_solution@ || improves(
                old(self).context.board(),
                old(self).best_solution@.len(),
                final(self).best_solution@,
            ),
            forall|k: nat, depth: nat| #[trigger]
                finds_from(
                    old(self).context.board(),
                    old(self).context.graph.valid.order(),
                    k,
                    depth,
                ) ==> final(self).best_solution@.len() <= k,
            forall|d: Set<usize>| #[trigger]
                within_reach(old(self).context.board(), d) ==> final(self).best_solution@.len()
                    <= d.len(),
            final(self).num_nodes >= counted(old(self).num_nodes),
            final(self).context.history@.len() == old(self).context.history@.len()
                ==> final(self).num_nodes == counted(old(self).num_nodes),
        decreases old(self).context.graph.order() - old(self).context.solution@.len(),
    {
        let ghost b0 = self.context.board();
        let ghost log0 = self.context.history@;
        let ghost order0 = self.context.graph.valid.order();
        proof {
            lemma_sound_inv(b0, log0);
            self.context.solution.lemma_size();
            lemma_bounded_keys(b0.solution, b0.order());
        }
        if self.num_nodes < u64::MAX {
            self.num_nodes += 1;
        }
        if self.context.is_dominated() {
            if self.context.solution.size() < self.best_solution.len() {
                self.best_solution = self.context.solution.iter();
                proof {
                    lemma_dominated_solution(b0);
                    assert(improves(b0, old(self).best_solution@.len(), self.best_solution@));
                }
            }
        }
        let found = self.pivot();
        let candidate: usize = match found {
            Some(p) => p,
            None => {
                proof {
                    assert forall|d: Set<usize>| #[trigger] within_reach(b0, d) implies self.best_solution@.len()
                        <= d.len() by {
                        lemma_len_subset(b0.solution, d);
                    }
                }
                return ;
            },
        };
        let candidates = self.context.graph.valid_neighbors(candidate);
        let ghost cands = candidates@;
        let mut k: usize = 0;
        proof {
            assert(cands.take(0) =~= Seq::<usize>::empty());
            assert(log0 + Seq::<Operation>::empty() =~= log0);
            assert forall|j: int| 0 <= j < cands.len() implies (#[trigger] cands[j]) < b0.order() by {
                b0.adj[candidate as int].lemma_filter_pred(|n: usize| b0.active.contains(n), j);
            }
        }
        while k < candidates.len()
            invariant
                k <= cands.len(),
                cands == candidates@,
                candidate < b0.order(),
                cands == self::candidates(b0, candidate),
                forall|j: int| 0 <= j < cands.len() ==> (#[trigger] cands[j]) < b0.order(),
                b0 == old(self).context.board(),
                log0 == old(self).context.history@,
                b0.inv(),
                !b0.dominated(),
                b0.solution.finite(),
                b0.solution.len() <= b0.order(),
                old(self).context.graph.order() == b0.order(),
                old(self).context.solution@ == b0.solution,
                self.context.wf(),
                self.context.board() == turn(b0, candidate, k as int),
                self.context.history@ == log0 + sweep(b0, cands.take(k as int)),
                self.context.board().solution == b0.solution,
                self.context.board().adj == b0.adj,
                self.best_solution@.len() <= old(self).best_solution@.len(),
                self.context.board().active.subset_of(b0.active),
                b0.excluded.subset_of(self.context.board().excluded),
                b0.is_pivot(candidate),
                first_pivot(b0, order0, candidate),
                sweep(b0, cands.take(k as int)).len() == 0 ==> self.best_solution@ == old(
                    self,
                ).best_solution@ && self.num_nodes == counted(old(self).num_nodes),
                forall|x: usize|
                    b0.active.contains(x) && !(#[trigger] self.context.board().active.contains(x))
                        ==> tried(cands, k as int, x),
                forall|x: usize|
                    #[trigger] self.context.board().excluded.contains(x) && !b0.excluded.contains(
                        x,
                    ) ==> tried(cands, k as int, x),
                forall|d: Set<usize>| #[trigger]
                    within_reach(b0, d) && meets(cands, k as int, d) ==> self.best_solution@.len()
                        <= d.len(),
                forall|m: nat, depth: nat, j: int|
                    0 <= j < k && turn(b0, candidate, j).choosable(cands[j]) && #[trigger] finds(
                        below(b0, candidate, j),
                        m,
                        depth,
                    ) ==> self.best_solution@.len() <= m,
                self.best_solution@ == old(self).best_solution@ || improves(
                    b0,
                    old(self).best_solution@.len(),
                    self.best_solution@,
                ),
                self.num_nodes >= counted(old(self).num_nodes),
            decreases cands.len() - k,
        {
            let n: usize = candidates[k];
            let ghost done = sweep(b0, cands.take(k as int));
            let ghost at = self.context.board();
            let ghost log = self.context.history@;
            let ghost best0 = self.best_solution@;
            let ghost mut order1 = self.context.graph.valid.order();
            proof {
                assert(cands.take(k as int + 1).drop_last() =~= cands.take(k as int));
                assert(cands.take(k as int + 1).last() == n);
                assert(cands[k as int] < b0.order());
                lemma_sound_inv(at, log);
            }
            proof {
                assert forall|d: Set<usize>|
                    #[trigger] within_reach(b0, d) && d.contains(n) && !meets(
                        cands,
                        k as int,
                        d,
                    ) implies at.choosable(n) by {
                    lemma_untried_choosable(b0, at, cands, k as int, d, n);
                }
            }
            if self.context.is_choosable(n) {
                let time: usize = self.context.history.len();
                self.context.select(n);
                let ghost chosen = self.context.board();
                let ghost chosen_log = self.context.history@;
                proof {
                    assert forall|d: Set<usize>|
                        #[trigger] within_reach(b0, d) && d.contains(n) && !meets(
                            cands,
                            k as int,
                            d,
                        ) implies within_reach(chosen, d) by {
                        assert forall|x: usize| #[trigger] d.contains(x) implies chosen.solution.contains(
                            x,
                        ) || chosen.free(x) by {
                            if x != n && !b0.solution.contains(x) {
                                lemma_untried_free(b0, at, cands, k as int, d, x);
                            }
                        }
                    }
                    assert(chosen == below(b0, candidate, k as int));
                    assert(chosen.solution.len() == b0.solution.len() + 1);
                    lemma_bounded_keys(chosen.solution, b0.order());
                }
                let ghost best1 = self.best_solution@;
                proof {
                    order1 = self.context.graph.valid.order();
                }
                self.branch();
                proof {
                    if self.best_solution@ != best1 {
                        assert(improves(chosen, best1.len(), self.best_solution@));
                        assert forall|i: int| 0 <= i < self.best_solution@.len() implies b0.solution.contains(
                            #[trigger] self.best_solution@[i],
                        ) || b0.free(self.best_solution@[i]) by {
                            let x = self.best_solution@[i];
                            if !b0.solution.contains(x) {
                                if x != n {
                                    assert(chosen.free(x));
                                }
                                assert(at.free(x));
                            }
                        }
                        assert(improves(b0, old(self).best_solution@.len(), self.best_solution@));
                    }
                    let below_board = self.context.board();
                    let below_log = self.context.history@;
                    lemma_unwound_twice(below_board, below_log, (time + 1) as nat, time as nat);
                    assert(below_log.take(time + 1) =~= chosen_log);
                    assert(chosen_log.drop_last() =~= log);
                    lemma_select_undone(at, n);
                    let op = chosen_log.last();
                    assert(chosen.undo(op) == at);
                    assert(unwound(at, log, time as nat) == at);
                    assert(unwound(chosen, chosen_log, time as nat) == at);
                    assert(unwound(below_board, below_log, time as nat) == at);
                    assert(below_log.take(time as int) =~= log);
                }
                self.context.rollback(time);
                self.context.exclude(n);
                proof {
                    let op = Operation { v: n, color: at.color(n), kind: OperationKind::Exclude };
                    assert(sweep(b0, cands.take(k as int + 1)) == done.push(op));
                    assert(done.push(op).drop_last() =~= done);
                    assert((log0 + done).push(op) =~= log0 + done.push(op));
                }
            }
            proof {
                let now = self.context.board();
                assert forall|x: usize| tried(cands, k as int, x) || x == n implies tried(
                    cands,
                    k as int + 1,
                    x,
                ) by {
                    if x == n {
                        assert(cands[k as int] == x);
                    } else {
                        let j = choose|j: int| 0 <= j < k && #[trigger] cands[j] == x;
                        assert(cands[j] == x);
                    }
                }
                assert forall|x: usize|
                    b0.active.contains(x) && !(#[trigger] now.active.contains(x)) implies tried(
                    cands,
                    k as int + 1,
                    x,
                ) by {
                    if x != n {
                        assert(!at.active.contains(x));
                    }
                }
                assert forall|x: usize|
                    #[trigger] now.excluded.contains(x) && !b0.excluded.contains(x) implies tried(
                    cands,
                    k as int + 1,
                    x,
                ) by {
                    if x != n {
                        assert(at.excluded.contains(x));
                    }
                }
                assert forall|d: Set<usize>| #[trigger]
                    within_reach(b0, d) && meets(
                        cands,
                        k as int + 1,
                        d,
                    ) implies self.best_solution@.len() <= d.len() by {
                    if !meets(cands, k as int, d) {
                        let j = choose|j: int| 0 <= j < k + 1 && d.contains(#[trigger] cands[j]);
                        if j < k {
                            assert(meets(cands, k as int, d));
                        }
                        assert(d.contains(n));
                    }
                }
                assert forall|m: nat, depth: nat, j: int|
                    0 <= j < k + 1 && turn(b0, candidate, j).choosable(cands[j]) && #[trigger] finds(
                        below(b0, candidate, j),
                        m,
                        depth,
                    ) implies self.best_solution@.len() <= m by {
                    if j < k {
                        assert(best0.len() <= m);
                    } else {
                        lemma_finds_from(below(b0, candidate, j), order1, m, depth);
                    }
                }
            }
            k += 1;
        }
        proof {
            assert(cands.take(k as int) =~= cands);
            let steps = sweep(b0, cands);
            lemma_sweep_admitted(b0, cands);
            law_round_trip(b0, log0, steps);
            assert(branched(
                b0,
                order0,
                log0,
                old(self).best_solution@,
                candidate,
                self.context.board(),
                self.context.history@,
                self.best_solution@,
            ));
            assert forall|d: Set<usize>| #[trigger] within_reach(b0, d) implies self.best_solution@.len()
                <= d.len() by {
                lemma_pivot_met(b0, candidate, d);
            }
            assert forall|m: nat, depth: nat| #[trigger]
                finds_from(b0, order0, m, depth) implies self.best_solution@.len() <= m by {
                assert(depth > 0);
                let j = choose|j: int|
                    0 <= j < self::candidates(b0, candidate).len() && turn(
                        b0,
                        candidate,
                        j,
                    ).choosable(self::candidates(b0, candidate)[j]) && finds(
                        #[trigger] below(b0, candidate, j),
                        m,
                        (depth - 1) as nat,
                    );
                assert(finds(below(b0, candidate, j), m, (depth - 1) as nat));
            }
        }
    }
}

/// A vertex of a set within reach that is not chosen, and that no earlier
/// candidate of the set has been, is still free after the first `k`
/// candidates have been barred.
proof fn lemma_untried_free(b0: Board, at: Board, cands: Seq<usize>, k: int, d: Set<usize>, x: usize)
    requires
        within_reach(b0, d),
        !meets(cands, k, d),
        d.contains(x),
        !b0.solution.contains(x),
        at.adj == b0.adj,
        at.solution == b0.solution,
        forall|y: usize|
            b0.active.contains(y) && !(#[trigger] at.active.contains(y)) ==> tried(cands, k, y),
        forall|y: usize|
            #[trigger] at.excluded.contains(y) && !b0.excluded.contains(y) ==> tried(cands, k, y),
    ensures
        at.free(x),
{
    assert(b0.free(x));
    if tried(cands, k, x) {
        let j = choose|j: int| 0 <= j < k && #[trigger] cands[j] == x;
        assert(d.contains(cands[j]));
    }
}

/// Such a vertex is choosable there as well.
proof fn lemma_untried_choosable(
    b0: Board,
    at: Board,
    cands: Seq<usize>,
    k: int,
    d: Set<usize>,
    x: usize,
)
    requires
        within_reach(b0, d),
        !meets(cands, k, d),
        d.contains(x),
        !b0.solution.contains(x),
        b0.inv(),
        at.inv(),
        at.adj == b0.adj,
        at.solution == b0.solution,
        forall|y: usize|
            b0.active.contains(y) && !(#[trigger] at.active.contains(y)) ==> tried(cands, k, y),
        forall|y: usize|
            #[trigger] at.excluded.contains(y) && !b0.excluded.contains(y) ==> tried(cands, k, y),
    ensures
        at.choosable(x),
{
    lemma_untried_free(b0, at, cands, k, d, x);
    assert(b0.dom[x as int] == hits(b0.adj[x as int], b0.solution));
    assert(at.dom[x as int] == hits(at.adj[x as int], at.solution));
}

/// A set within reach of a board holds an active neighbour of every vertex
/// that is active and has no chosen neighbour.
proof fn lemma_pivot_met(b: Board, p: usize, d: Set<usize>)
    requires
        b.inv(),
        b.undominated(p),
        within_reach(b, d),
    ensures
        meets(candidates(b, p), candidates(b, p).len() as int, d),
{
    let list = b.adj[p as int];
    let cands = candidates(b, p);
    assert(p < b.order());
    assert(!b.solution.contains(p));
    if d.contains(p) {
        assert(exists|i: int| 0 <= i < list.len() && d.contains(#[trigger] list[i]));
    } else {
        assert(exists|i: int| 0 <= i < list.len() && d.contains(#[trigger] list[i]));
    }
    let i = choose|i: int| 0 <= i < list.len() && d.contains(#[trigger] list[i]);
    let u = list[i];
    assert(b.dom[p as int] == hits(list, b.solution));
    lemma_hits_bounds(list, b.solution);
    assert(!b.solution.contains(u));
    assert(b.free(u));
    list.lemma_filter_contains(|n: usize| b.active.contains(n), i);
    let j = choose|j: int| 0 <= j < cands.len() && cands[j] == u;
    assert(d.contains(cands[j]));
}

} // verus!
