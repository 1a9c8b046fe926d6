//! The mathematical model of the search state.
//!
//! A [`Board`] holds what can be observed of a search state apart from its
//! journal: the adjacency lists, the four vertex sets and the three counters
//! of every vertex. The steps of the search are functions from boards to
//! boards, and the journal of a state is sound when replaying it on a fresh
//! board gives the board of the state.

use crate::context::{Color, Operation, OperationKind};
use crate::counting::{hits, occurrences};
use crate::graph::{active_among, mutual};
use vstd::prelude::*;

verus! {

/// What can be observed of a search state, its journal apart.
pub struct Board {
    /// The neighbours of each vertex.
    pub adj: Seq<Seq<usize>>,
    /// The vertices that may still be chosen as pivot or candidate.
    pub active: Set<usize>,
    /// The vertices chosen so far.
    pub solution: Set<usize>,
    /// The members of the white set.
    pub white: Set<usize>,
    /// The vertices barred while they were black.
    pub excluded: Set<usize>,
    /// For each vertex the places of its list that hold a chosen vertex.
    pub dom: Seq<int>,
    /// For each vertex its degree less the places of its list that hold a
    /// vertex chosen while black.
    pub black_nb: Seq<int>,
    /// For each vertex the places of its list that hold a white vertex.
    pub white_nb: Seq<int>,
}

impl Board {
    /// The number of vertices.
    pub open spec fn order(self) -> nat {
        self.adj.len()
    }

    /// The board on which a search over `adj` starts: every vertex active,
    /// nothing chosen, white or barred.
    pub open spec fn fresh(adj: Seq<Seq<usize>>) -> Board {
        Board {
            adj,
            active: Set::new(|v: usize| v < adj.len()),
            solution: Set::empty(),
            white: Set::empty(),
            excluded: Set::empty(),
            dom: Seq::new(adj.len(), |x: int| 0int),
            black_nb: Seq::new(adj.len(), |x: int| adj[x].len() as int),
            white_nb: Seq::new(adj.len(), |x: int| 0int),
        }
    }

    /// The colour of `v`: white while it is in the white set.
    pub open spec fn color(self, v: usize) -> Color {
        if self.white.contains(v) {
            Color::White
        } else {
            Color::Black
        }
    }

    /// Whether `v` can be chosen so that the choice can be taken back: it is
    /// free, and its choice does not turn `v` itself white, as it would if `v`
    /// had no chosen neighbour and stood in its own list.
    pub open spec fn choosable(self, v: usize) -> bool {
        self.free(v) && !self.lit_by(v).contains(v)
    }

    /// A vertex is free while it is active and neither chosen nor barred.
    pub open spec fn free(self, v: usize) -> bool {
        &&& v < self.order()
        &&& self.active.contains(v)
        &&& !self.solution.contains(v)
        &&& !self.excluded.contains(v)
    }

    /// The neighbours of `v` that no chosen vertex dominates yet: choosing `v`
    /// turns them white.
    pub open spec fn lit_by(self, v: usize) -> Set<usize> {
        Set::new(
            |n: usize| n < self.order() && self.dom[n as int] == 0 && self.adj[v as int].contains(n),
        )
    }

    /// The neighbours of `v` that only `v` dominates: giving `v` up turns
    /// them black.
    pub open spec fn dimmed_by(self, v: usize) -> Set<usize> {
        Set::new(
            |n: usize|
                n < self.order() && self.adj[v as int].contains(n) && self.dom[n as int]
                    == occurrences(self.adj[v as int], n),
        )
    }

    /// The vertices that the first `k` neighbours of `v` turn white when `v`
    /// is chosen.
    pub open spec fn lit_within(self, v: usize, k: int) -> Set<usize> {
        Set::new(
            |n: usize|
                n < self.order() && self.dom[n as int] == 0 && occurrences(
                    self.adj[v as int].take(k),
                    n,
                ) > 0,
        )
    }

    /// The vertices that the first `k` neighbours of `v` turn black when `v`
    /// is given up.
    pub open spec fn dimmed_within(self, v: usize, k: int) -> Set<usize> {
        Set::new(
            |n: usize|
                n < self.order() && occurrences(self.adj[v as int].take(k), n) > 0
                    && self.dom[n as int] == occurrences(self.adj[v as int].take(k), n),
        )
    }

    /// The board after `v` has been chosen.
    pub open spec fn select(self, v: usize) -> Board {
        let lit = self.lit_by(v);
        let was_white = self.white.contains(v);
        Board {
            adj: self.adj,
            active: self.active.remove(v),
            solution: self.solution.insert(v),
            white: self.white.remove(v).union(lit),
            excluded: self.excluded,
            dom: Seq::new(
                self.order(),
                |x: int| self.dom[x] + occurrences(self.adj[v as int], x as usize),
            ),
            black_nb: Seq::new(
                self.order(),
                |x: int|
                    self.black_nb[x] - if was_white {
                        0int
                    } else {
                        occurrences(self.adj[v as int], x as usize) as int
                    },
            ),
            white_nb: Seq::new(
                self.order(),
                |x: int|
                    self.white_nb[x] - (if was_white {
                        occurrences(self.adj[v as int], x as usize) as int
                    } else {
                        0int
                    }) + hits(self.adj[x], lit),
            ),
        }
    }

    /// The board after the choice of `v`, made while `v` had the colour
    /// `color`, has been taken back.
    pub open spec fn unselect(self, v: usize, color: Color) -> Board {
        let dimmed = self.dimmed_by(v);
        let was_white = color is White;
        Board {
            adj: self.adj,
            active: self.active.insert(v),
            solution: self.solution.remove(v),
            white: (if was_white {
                self.white.insert(v)
            } else {
                self.white
            }).difference(dimmed),
            excluded: self.excluded,
            dom: Seq::new(
                self.order(),
                |x: int| self.dom[x] - occurrences(self.adj[v as int], x as usize),
            ),
            black_nb: Seq::new(
                self.order(),
                |x: int|
                    self.black_nb[x] + if was_white {
                        0int
                    } else {
                        occurrences(self.adj[v as int], x as usize) as int
                    },
            ),
            white_nb: Seq::new(
                self.order(),
                |x: int|
                    self.white_nb[x] + (if was_white {
                        occurrences(self.adj[v as int], x as usize) as int
                    } else {
                        0int
                    }) - hits(self.adj[x], dimmed),
            ),
        }
    }

    /// The board after `v` has been barred: a white vertex leaves the white
    /// set and the active set, a black one joins the excluded set.
    pub open spec fn exclude(self, v: usize) -> Board {
        if self.white.contains(v) {
            Board {
                active: self.active.remove(v),
                white: self.white.remove(v),
                white_nb: Seq::new(
                    self.order(),
                    |x: int| self.white_nb[x] - occurrences(self.adj[v as int], x as usize),
                ),
                ..self
            }
        } else {
            Board { excluded: self.excluded.insert(v), ..self }
        }
    }

    /// The board after the barring of `v`, made while `v` had the colour
    /// `color`, has been taken back.
    pub open spec fn unexclude(self, v: usize, color: Color) -> Board {
        if color is White {
            Board {
                active: self.active.insert(v),
                white: self.white.insert(v),
                white_nb: Seq::new(
                    self.order(),
                    |x: int| self.white_nb[x] + occurrences(self.adj[v as int], x as usize),
                ),
                ..self
            }
        } else {
            Board { excluded: self.excluded.remove(v), ..self }
        }
    }

    /// Whether every active vertex has a chosen neighbour.
    pub open spec fn dominated(self) -> bool {
        forall|v: usize| #[trigger] self.active.contains(v) ==> self.dom[v as int] > 0
    }

    /// Whether `v` is active and has no chosen neighbour.
    pub open spec fn undominated(self, v: usize) -> bool {
        self.active.contains(v) && self.dom[v as int] == 0
    }

    /// The number of places of the list of `v` that hold an active vertex.
    pub open spec fn residual(self, v: usize) -> nat {
        active_among(self.adj[v as int], self.active).len()
    }

    /// Whether `p` may drive the next branching: it is active, has no chosen
    /// neighbour, and no such vertex has fewer active neighbours.
    pub open spec fn is_pivot(self, p: usize) -> bool {
        &&& self.undominated(p)
        &&& forall|q: usize| #[trigger]
            self.undominated(q) ==> self.residual(p) <= self.residual(q)
    }

    /// Whether this board is what the choice of `v`, made while `v` had the
    /// colour `color`, has made of a board with all that holds of every board.
    /// That board is then the one that taking the choice back gives.
    pub open spec fn chose(self, v: usize, color: Color) -> bool {
        let before = self.unselect(v, color);
        &&& v < self.order()
        &&& before.inv()
        &&& before.color(v) == color
        &&& !before.lit_by(v).contains(v)
        &&& before.select(v) == self
    }

    /// Whether this board is what the barring of `v`, made while `v` had the
    /// colour `color`, has made of a board with all that holds of every board.
    pub open spec fn barred(self, v: usize, color: Color) -> bool {
        let before = self.unexclude(v, color);
        &&& v < self.order()
        &&& before.inv()
        &&& !before.solution.contains(v)
        &&& before.color(v) == color
        &&& before.exclude(v) == self
    }

    /// The lists are mutual and short enough for the counters.
    pub open spec fn plain(self) -> bool {
        &&& self.adj.len() <= usize::MAX
        &&& mutual(self.adj)
        &&& forall|x: int| 0 <= x < self.order() ==> (#[trigger] self.adj[x]).len() <= u32::MAX
    }

    /// What holds of the board of every sound state.
    pub open spec fn inv(self) -> bool {
        &&& self.plain()
        &&& self.dom.len() == self.order()
        &&& self.black_nb.len() == self.order()
        &&& self.white_nb.len() == self.order()
        &&& forall|x: usize| #[trigger] self.active.contains(x) ==> x < self.order()
        &&& forall|x: usize| #[trigger] self.solution.contains(x) ==> x < self.order()
        &&& forall|x: usize| #[trigger] self.white.contains(x) ==> x < self.order()
        &&& forall|x: usize| #[trigger] self.excluded.contains(x) ==> x < self.order()
        &&& forall|x: int|
            0 <= x < self.order() ==> #[trigger] self.dom[x] == hits(self.adj[x], self.solution)
        &&& forall|x: int|
            0 <= x < self.order() ==> #[trigger] self.white_nb[x] == hits(self.adj[x], self.white)
        &&& forall|x: int|
            0 <= x < self.order() ==> self.adj[x].len() - self.dom[x] <= #[trigger] self.black_nb[x]
                <= self.adj[x].len()
        &&& forall|x: usize| #[trigger] self.white.contains(x) ==> self.dom[x as int] > 0
        &&& forall|x: usize|
            x < self.order() && !self.solution.contains(x) && #[trigger] self.active.contains(x)
                && self.dom[x as int] > 0 ==> self.white.contains(x)
        &&& forall|x: usize|
            #[trigger] self.white.contains(x) ==> self.solution.contains(x) || self.active.contains(
                x,
            )
        &&& forall|x: usize|
            x < self.order() && !self.solution.contains(x) && !(#[trigger] self.active.contains(x))
                ==> self.dom[x as int] > 0
        &&& forall|x: usize| #[trigger] self.solution.contains(x) ==> !self.active.contains(x)
    }

    /// Whether the step `op` may be made on this board so that it can be
    /// taken back exactly: a vertex to choose is choosable, a vertex to bar is
    /// not chosen and, if black, not barred already; the step records the
    /// colour that the vertex has.
    pub open spec fn admits(self, op: Operation) -> bool {
        match op.kind {
            OperationKind::Select => self.choosable(op.v) && op.color == self.color(op.v),
            OperationKind::Exclude => {
                &&& op.v < self.order()
                &&& !self.solution.contains(op.v)
                &&& self.white.contains(op.v) || !self.excluded.contains(op.v)
                &&& op.color == self.color(op.v)
            },
            OperationKind::Ignore => false,
        }
    }

    /// The board after the step `op`.
    pub open spec fn apply(self, op: Operation) -> Board {
        match op.kind {
            OperationKind::Select => self.select(op.v),
            OperationKind::Exclude => self.exclude(op.v),
            OperationKind::Ignore => self,
        }
    }

    /// The board after the step `op` has been taken back.
    pub open spec fn undo(self, op: Operation) -> Board {
        match op.kind {
            OperationKind::Select => self.unselect(op.v, op.color),
            OperationKind::Exclude => self.unexclude(op.v, op.color),
            OperationKind::Ignore => self,
        }
    }
}

/// The board that is left when the steps of `log` beyond the first `mark` are
/// taken back, the last one first.
pub open spec fn unwound(b: Board, log: Seq<Operation>, mark: nat) -> Board
    decreases log.len(),
{
    if log.len() <= mark {
        b
    } else {
        unwound(b.undo(log.last()), log.drop_last(), mark)
    }
}

/// The board after the steps of `steps` have been made in turn.
pub open spec fn run(b: Board, steps: Seq<Operation>) -> Board
    decreases steps.len(),
{
    if steps.len() == 0 {
        b
    } else {
        run(b, steps.drop_last()).apply(steps.last())
    }
}

/// Whether each step of `steps` is admitted by the board on which it is made.
pub open spec fn admitted(b: Board, steps: Seq<Operation>) -> bool
    decreases steps.len(),
{
    if steps.len() == 0 {
        true
    } else {
        admitted(b, steps.drop_last()) && run(b, steps.drop_last()).admits(steps.last())
    }
}

/// A journal is sound for a board when the board is what the steps of the
/// journal, each admitted in its turn, make of a fresh board; taking the
/// steps back leads through the boards in between.
pub open spec fn sound(b: Board, log: Seq<Operation>) -> bool
    decreases log.len(),
{
    if log.len() == 0 {
        b.plain() && b == Board::fresh(b.adj)
    } else {
        let before = b.undo(log.last());
        &&& sound(before, log.drop_last())
        &&& before.admits(log.last())
        &&& before.apply(log.last()) == b
    }
}

/// The records of barring, in turn, each vertex of `cands` that is choosable
/// when its turn comes.
pub open spec fn sweep(b: Board, cands: Seq<usize>) -> Seq<Operation>
    decreases cands.len(),
{
    if cands.len() == 0 {
        Seq::empty()
    } else {
        let done = sweep(b, cands.drop_last());
        let at = run(b, done);
        if at.choosable(cands.last()) {
            done.push(
                Operation {
                    v: cands.last(),
                    color: at.color(cands.last()),
                    kind: OperationKind::Exclude,
                },
            )
        } else {
            done
        }
    }
}

/// Whether every vertex is in `chosen` or has a neighbour in it.
pub open spec fn dominating(adj: Seq<Seq<usize>>, chosen: Set<usize>) -> bool {
    forall|v: usize|
        v < adj.len() ==> chosen.contains(v) || exists|i: int|
            0 <= i < adj[v as int].len() && chosen.contains(#[trigger] adj[v as int][i])
}

} // verus!
