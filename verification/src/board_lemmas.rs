//! Why the steps keep what holds of every board, and why a step that was
//! admitted can be taken back exactly.

use crate::board::{admitted, dominating, run, sound, sweep, unwound, Board};
use crate::context::{Color, Operation, OperationKind};
use crate::counting::{
    hits, lemma_hits_bounds, lemma_hits_disjoint, lemma_hits_insert,
    lemma_hits_remove, lemma_occurrences_contains, lemma_occurrences_prefix,
    lemma_occurrences_step, occurrences,
};
use vstd::prelude::*;

verus! {

/// A fresh board over plain lists has all that holds of every board.
pub proof fn lemma_fresh_inv(b: Board)
    requires
        b.plain(),
        b == Board::fresh(b.adj),
    ensures
        b.inv(),
{
    assert forall|x: int| 0 <= x < b.order() implies #[trigger] b.dom[x] == hits(
        b.adj[x],
        b.solution,
    ) by {
        lemma_hits_bounds(b.adj[x], b.solution);
    }
    assert forall|x: int| 0 <= x < b.order() implies #[trigger] b.white_nb[x] == hits(
        b.adj[x],
        b.white,
    ) by {
        lemma_hits_bounds(b.adj[x], b.white);
    }
}

/// On a board with all that holds of every board, each counter of chosen
/// neighbours is at most the degree, and a vertex that is not chosen leaves
/// room for its occurrences.
pub proof fn lemma_dom_room(b: Board, x: usize, v: usize)
    requires
        b.inv(),
        x < b.order(),
        v < b.order(),
    ensures
        0 <= b.dom[x as int] <= b.adj[x as int].len(),
        0 <= b.white_nb[x as int] <= b.adj[x as int].len(),
        occurrences(b.adj[x as int], v) == occurrences(b.adj[v as int], x),
        !b.solution.contains(v) ==> b.dom[x as int] + occurrences(b.adj[v as int], x)
            <= b.adj[x as int].len(),
        b.solution.contains(v) ==> b.dom[x as int] >= occurrences(b.adj[v as int], x),
        !b.white.contains(v) ==> b.white_nb[x as int] + occurrences(b.adj[v as int], x)
            <= b.adj[x as int].len(),
        b.white.contains(v) ==> b.white_nb[x as int] >= occurrences(b.adj[v as int], x),
{
    let s = b.adj[x as int];
    assert(b.dom[x as int] == hits(s, b.solution));
    assert(b.white_nb[x as int] == hits(s, b.white));
    assert(occurrences(b.adj[x as int], v) == occurrences(b.adj[v as int], x));
    lemma_hits_bounds(s, b.solution);
    lemma_hits_bounds(s, b.white);
    if !b.solution.contains(v) {
        lemma_hits_insert(s, b.solution, v);
        lemma_hits_bounds(s, b.solution.insert(v));
    } else {
        lemma_hits_remove(s, b.solution, v);
    }
    if !b.white.contains(v) {
        lemma_hits_insert(s, b.white, v);
        lemma_hits_bounds(s, b.white.insert(v));
    } else {
        lemma_hits_remove(s, b.white, v);
    }
}

/// What the three counters of `x` are after `v` has been chosen.
proof fn lemma_select_counters(b: Board, v: usize, x: int)
    requires
        b.inv(),
        v < b.order(),
        !b.solution.contains(v),
        0 <= x < b.order(),
    ensures
        b.select(v).dom[x] == hits(b.adj[x], b.select(v).solution),
        b.select(v).white_nb[x] == hits(b.adj[x], b.select(v).white),
        b.adj[x].len() - b.select(v).dom[x] <= b.select(v).black_nb[x] <= b.adj[x].len(),
{
    let lit = b.lit_by(v);
    lemma_dom_room(b, x as usize, v);
    lemma_hits_insert(b.adj[x], b.solution, v);
    assert(b.white.remove(v).disjoint(lit));
    lemma_hits_disjoint(b.adj[x], b.white.remove(v), lit);
    if b.white.contains(v) {
        lemma_hits_remove(b.adj[x], b.white, v);
    } else {
        assert(b.white.remove(v) =~= b.white);
    }
}

/// Choosing a vertex that is not chosen yet keeps what holds of every board.
pub proof fn lemma_select_inv(b: Board, v: usize)
    requires
        b.inv(),
        v < b.order(),
        !b.solution.contains(v),
    ensures
        b.select(v).inv(),
{
    let a = b.select(v);
    let lit = b.lit_by(v);
    assert forall|x: int| 0 <= x < a.order() implies #[trigger] a.dom[x] == hits(
        a.adj[x],
        a.solution,
    ) by {
        lemma_select_counters(b, v, x);
    }
    assert forall|x: int| 0 <= x < a.order() implies #[trigger] a.white_nb[x] == hits(
        a.adj[x],
        a.white,
    ) by {
        lemma_select_counters(b, v, x);
    }
    assert forall|x: int| 0 <= x < a.order() implies a.adj[x].len() - a.dom[x]
        <= #[trigger] a.black_nb[x] <= a.adj[x].len() by {
        lemma_select_counters(b, v, x);
    }
    assert forall|x: usize| #[trigger] a.white.contains(x) implies a.dom[x as int] > 0 && (
    a.solution.contains(x) || a.active.contains(x)) by {
        if lit.contains(x) {
            lemma_occurrences_contains(b.adj[v as int], x);
            assert(b.active.contains(x) || b.solution.contains(x));
        } else {
            lemma_dom_room(b, x, v);
        }
    }
    assert forall|x: usize|
        x < a.order() && !a.solution.contains(x) && #[trigger] a.active.contains(x) && a.dom[x as int]
            > 0 implies a.white.contains(x) by {
        lemma_occurrences_contains(b.adj[v as int], x);
    }
    assert forall|x: usize|
        x < a.order() && !a.solution.contains(x) && !(#[trigger] a.active.contains(
            x,
        )) implies a.dom[x as int] > 0 by {
        assert(!b.active.contains(x));
    }
}

/// Barring a vertex that is not chosen keeps what holds of every board.
pub proof fn lemma_exclude_inv(b: Board, v: usize)
    requires
        b.inv(),
        v < b.order(),
        !b.solution.contains(v),
    ensures
        b.exclude(v).inv(),
{
    let a = b.exclude(v);
    if b.white.contains(v) {
        assert forall|x: int| 0 <= x < a.order() implies #[trigger] a.white_nb[x] == hits(
            a.adj[x],
            a.white,
        ) by {
            lemma_dom_room(b, x as usize, v);
            lemma_hits_remove(b.adj[x], b.white, v);
        }
        assert forall|x: usize|
            x < a.order() && !a.solution.contains(x) && !(#[trigger] a.active.contains(
                x,
            )) implies a.dom[x as int] > 0 by {
            if x != v {
                assert(!b.active.contains(x));
            }
        }
    }
}

/// A choice made on an active vertex that it does not turn white itself is
/// taken back exactly.
pub proof fn lemma_select_undone(b: Board, v: usize)
    requires
        b.inv(),
        v < b.order(),
        b.active.contains(v),
        !b.solution.contains(v),
        !b.lit_by(v).contains(v),
    ensures
        b.select(v).unselect(v, b.color(v)) == b,
{
    let a = b.select(v);
    let r = a.unselect(v, b.color(v));
    let lit = b.lit_by(v);
    let dimmed = a.dimmed_by(v);
    assert forall|n: usize| lit.contains(n) <==> dimmed.contains(n) by {
        if n < b.order() {
            lemma_occurrences_contains(b.adj[v as int], n);
            lemma_dom_room(b, n, v);
        }
    }
    assert(lit =~= dimmed);
    assert(r.active =~= b.active);
    assert(r.solution =~= b.solution);
    assert(r.white =~= b.white);
    assert(r.dom =~= b.dom);
    assert(r.black_nb =~= b.black_nb);
    assert(r.white_nb =~= b.white_nb);
}

/// A barring is taken back exactly, unless it barred a black vertex that was
/// barred already.
pub proof fn lemma_exclude_undone(b: Board, v: usize)
    requires
        b.inv(),
        v < b.order(),
        !b.solution.contains(v),
        b.white.contains(v) || !b.excluded.contains(v),
    ensures
        b.exclude(v).unexclude(v, b.color(v)) == b,
{
    let r = b.exclude(v).unexclude(v, b.color(v));
    assert(r.active =~= b.active);
    assert(r.white =~= b.white);
    assert(r.excluded =~= b.excluded);
    assert(r.white_nb =~= b.white_nb);
}

/// A step that a board admits keeps what holds of every board and is taken
/// back exactly.
pub proof fn lemma_step(b: Board, op: Operation)
    requires
        b.inv(),
        b.admits(op),
    ensures
        b.apply(op).inv(),
        b.apply(op).undo(op) == b,
{
    match op.kind {
        OperationKind::Select => {
            lemma_select_inv(b, op.v);
            lemma_select_undone(b, op.v);
        },
        OperationKind::Exclude => {
            lemma_exclude_inv(b, op.v);
            lemma_exclude_undone(b, op.v);
        },
        OperationKind::Ignore => {},
    }
}

/// The board of a sound journal has all that holds of every board.
pub proof fn lemma_sound_inv(b: Board, log: Seq<Operation>)
    requires
        sound(b, log),
    ensures
        b.inv(),
    decreases log.len(),
{
    if log.len() == 0 {
        lemma_fresh_inv(b);
    } else {
        let before = b.undo(log.last());
        lemma_sound_inv(before, log.drop_last());
        lemma_step(before, log.last());
    }
}

/// An admitted step extends a sound journal.
pub proof fn lemma_sound_push(b: Board, log: Seq<Operation>, op: Operation)
    requires
        sound(b, log),
        b.admits(op),
    ensures
        sound(b.apply(op), log.push(op)),
{
    lemma_sound_inv(b, log);
    lemma_step(b, op);
    assert(log.push(op).drop_last() =~= log);
}

/// After the whole list of `v`, the vertices turned white are those that
/// choosing `v` turns white.
pub proof fn lemma_lit_whole(b: Board, v: usize)
    requires
        v < b.order(),
    ensures
        b.lit_within(v, b.adj[v as int].len() as int) == b.lit_by(v),
        b.lit_within(v, 0) == Set::<usize>::empty(),
{
    let s = b.adj[v as int];
    assert(s.take(s.len() as int) =~= s);
    assert forall|n: usize| b.lit_within(v, s.len() as int).contains(n) <==> b.lit_by(v).contains(
        n,
    ) by {
        lemma_occurrences_contains(s, n);
    }
    assert(b.lit_within(v, s.len() as int) =~= b.lit_by(v));
    assert(b.lit_within(v, 0) =~= Set::<usize>::empty());
}

/// What the place `i` of the list of `v` allows when `v` is being chosen: the
/// counters of the neighbour `n` that stands there can take the step.
pub proof fn lemma_select_room(b: Board, v: usize, i: int, n: usize)
    requires
        b.inv(),
        v < b.order(),
        !b.solution.contains(v),
        0 <= i < b.adj[v as int].len(),
        n == b.adj[v as int][i],
    ensures
        n < b.order(),
        occurrences(b.adj[v as int].take(i + 1), n) == occurrences(b.adj[v as int].take(i), n) + 1,
        b.dom[n as int] + occurrences(b.adj[v as int].take(i + 1), n) <= u32::MAX,
        b.white.contains(v) ==> b.white_nb[n as int] - occurrences(b.adj[v as int].take(i), n)
            >= 1,
        !b.white.contains(v) ==> b.black_nb[n as int] - occurrences(b.adj[v as int].take(i), n)
            >= 1,
{
    let s = b.adj[v as int];
    assert(s[i] < b.order());
    assert(s.contains(n));
    lemma_occurrences_step(s, i, n);
    lemma_occurrences_prefix(s, i + 1, n);
    lemma_dom_room(b, n, v);
    assert(b.adj[n as int].len() <= u32::MAX);
    assert(b.adj[n as int].len() - b.dom[n as int] <= b.black_nb[n as int]);
}

/// What the place `i` of the list of `v` does to the vertices turned white,
/// and the room that the white-neighbour counter of `x` has for the
/// occurrences of a vertex `n` that turns white there.
pub proof fn lemma_select_lit(b: Board, v: usize, i: int, n: usize, x: usize)
    requires
        b.inv(),
        v < b.order(),
        !b.solution.contains(v),
        0 <= i < b.adj[v as int].len(),
        n == b.adj[v as int][i],
        x < b.order(),
    ensures
        b.dom[n as int] == 0 && occurrences(b.adj[v as int].take(i), n) == 0 ==> {
            &&& !b.white.contains(n)
            &&& !b.lit_within(v, i).contains(n)
            &&& b.lit_within(v, i + 1) == b.lit_within(v, i).insert(n)
            &&& hits(b.adj[x as int], b.lit_within(v, i + 1)) == hits(
                b.adj[x as int],
                b.lit_within(v, i),
            ) + occurrences(b.adj[n as int], x)
            &&& b.white_nb[x as int] + hits(b.adj[x as int], b.lit_within(v, i + 1))
                <= u32::MAX
        },
        !(b.dom[n as int] == 0 && occurrences(b.adj[v as int].take(i), n) == 0) ==> b.lit_within(
            v,
            i + 1,
        ) == b.lit_within(v, i),
        b.white_nb[x as int] - occurrences(b.adj[v as int].take(i), x) >= 0 || !b.white.contains(
            v,
        ),
{
    let s = b.adj[v as int];
    let lit = b.lit_within(v, i);
    let next = b.lit_within(v, i + 1);
    assert(s[i] < b.order());
    assert forall|m: usize| next.contains(m) <==> (lit.contains(m) || (m == n && b.dom[n as int]
        == 0)) by {
        lemma_occurrences_step(s, i, m);
    }
    lemma_dom_room(b, x, v);
    lemma_occurrences_prefix(s, i, x);
    if b.dom[n as int] == 0 && occurrences(s.take(i), n) == 0 {
        assert(next =~= lit.insert(n));
        lemma_hits_insert(b.adj[x as int], lit, n);
        assert(occurrences(b.adj[x as int], n) == occurrences(b.adj[n as int], x));
        assert(b.white.disjoint(next));
        lemma_hits_disjoint(b.adj[x as int], b.white, next);
        assert(b.adj[x as int].len() <= u32::MAX);
    } else {
        assert(next =~= lit);
    }
}

/// After the whole list of `v`, the vertices turned black are those that
/// giving `v` up turns black.
pub proof fn lemma_dimmed_whole(b: Board, v: usize)
    requires
        v < b.order(),
    ensures
        b.dimmed_within(v, b.adj[v as int].len() as int) == b.dimmed_by(v),
        b.dimmed_within(v, 0) == Set::<usize>::empty(),
{
    let s = b.adj[v as int];
    assert(s.take(s.len() as int) =~= s);
    assert forall|n: usize| b.dimmed_within(v, s.len() as int).contains(n) <==> b.dimmed_by(
        v,
    ).contains(n) by {
        lemma_occurrences_contains(s, n);
    }
    assert(b.dimmed_within(v, s.len() as int) =~= b.dimmed_by(v));
    assert(b.dimmed_within(v, 0) =~= Set::<usize>::empty());
}

/// A board made by a choice of `v` has all that holds of every board; `v` is
/// chosen, inactive and not white on it.
pub proof fn lemma_chose(b: Board, v: usize, color: Color)
    requires
        b.chose(v, color),
    ensures
        b.inv(),
        b.solution.contains(v),
        !b.white.contains(v),
        !b.active.contains(v),
{
    let before = b.unselect(v, color);
    lemma_select_inv(before, v);
}

/// What the place `i` of the list of `v` allows when the choice of `v` is
/// being taken back: the counters of the neighbour `n` that stands there can
/// take the step.
pub proof fn lemma_unselect_room(b: Board, v: usize, color: Color, i: int, n: usize)
    requires
        b.chose(v, color),
        0 <= i < b.adj[v as int].len(),
        n == b.adj[v as int][i],
    ensures
        n < b.order(),
        occurrences(b.adj[v as int].take(i + 1), n) == occurrences(b.adj[v as int].take(i), n) + 1,
        b.dom[n as int] - occurrences(b.adj[v as int].take(i), n) >= 1,
        color is White ==> b.white_nb[n as int] + occurrences(b.adj[v as int].take(i + 1), n)
            <= u32::MAX,
        color is Black ==> b.black_nb[n as int] + occurrences(b.adj[v as int].take(i + 1), n)
            <= u32::MAX,
{
    let before = b.unselect(v, color);
    let s = b.adj[v as int];
    lemma_chose(b, v, color);
    assert(s[i] < b.order());
    assert(s.contains(n));
    lemma_occurrences_step(s, i, n);
    lemma_occurrences_prefix(s, i + 1, n);
    lemma_dom_room(b, n, v);
    assert(b.adj[n as int].len() <= u32::MAX);
    assert(before.black_nb[n as int] <= before.adj[n as int].len());
}

/// What the place `i` of the list of `v` does to the vertices turned black,
/// and what the white-neighbour counter of `x` can give when a vertex `n`
/// turns black there.
pub proof fn lemma_unselect_dimmed(b: Board, v: usize, color: Color, i: int, n: usize, x: usize)
    requires
        b.chose(v, color),
        0 <= i < b.adj[v as int].len(),
        n == b.adj[v as int][i],
        x < b.order(),
    ensures
        b.dom[n as int] == occurrences(b.adj[v as int].take(i + 1), n) ==> {
            &&& b.white.contains(n)
            &&& !b.dimmed_within(v, i).contains(n)
            &&& b.dimmed_within(v, i + 1) == b.dimmed_within(v, i).insert(n)
            &&& hits(b.adj[x as int], b.dimmed_within(v, i + 1)) == hits(
                b.adj[x as int],
                b.dimmed_within(v, i),
            ) + occurrences(b.adj[n as int], x)
            &&& b.white_nb[x as int] - hits(b.adj[x as int], b.dimmed_within(v, i + 1)) >= 0
        },
        b.dom[n as int] != occurrences(b.adj[v as int].take(i + 1), n) ==> b.dimmed_within(
            v,
            i + 1,
        ) == b.dimmed_within(v, i),
{
    let before = b.unselect(v, color);
    let s = b.adj[v as int];
    let dim = b.dimmed_within(v, i);
    let next = b.dimmed_within(v, i + 1);
    lemma_chose(b, v, color);
    assert(s[i] < b.order());
    lemma_occurrences_step(s, i, n);
    lemma_occurrences_prefix(s, i, n);
    lemma_occurrences_prefix(s, i + 1, n);
    assert(b.dom[n as int] == before.dom[n as int] + occurrences(s, n));
    assert(before.dom[n as int] == hits(before.adj[n as int], before.solution));
    assert forall|m: usize| next.contains(m) <==> (dim.contains(m) && m != n) || (m == n
        && b.dom[n as int] == occurrences(s.take(i + 1), n)) by {
        lemma_occurrences_step(s, i, m);
    }
    assert forall|m: usize| next.contains(m) implies b.white.contains(m) by {
        lemma_occurrences_prefix(s, i + 1, m);
        lemma_occurrences_contains(s, m);
        assert(b.dom[m as int] == before.dom[m as int] + occurrences(s, m));
        assert(before.dom[m as int] == hits(before.adj[m as int], before.solution));
        assert(before.lit_by(v).contains(m));
    }
    if b.dom[n as int] == occurrences(s.take(i + 1), n) {
        assert(next =~= dim.insert(n));
        lemma_hits_insert(b.adj[x as int], dim, n);
        assert(occurrences(b.adj[x as int], n) == occurrences(b.adj[n as int], x));
        assert(next.disjoint(b.white.difference(next)));
        lemma_hits_disjoint(b.adj[x as int], next, b.white.difference(next));
        assert(next.union(b.white.difference(next)) =~= b.white);
        assert(b.white_nb[x as int] == hits(b.adj[x as int], b.white));
    } else {
        assert(next =~= dim);
    }
}

/// A board made by a barring of `v` that found `v` white leaves room in the
/// white-neighbour counters for the occurrences of `v`.
pub proof fn lemma_unexclude_room(b: Board, v: usize, x: usize)
    requires
        b.barred(v, Color::White),
        x < b.order(),
    ensures
        !b.white.contains(v),
        b.white_nb[x as int] + occurrences(b.adj[v as int], x) <= u32::MAX,
{
    let before = b.unexclude(v, Color::White);
    lemma_dom_room(before, x, v);
    assert(before.adj[x as int].len() <= u32::MAX);
}

/// Taking steps back to a mark may be done in two goes.
pub proof fn lemma_unwound_twice(b: Board, log: Seq<Operation>, mid: nat, mark: nat)
    requires
        mark <= mid <= log.len(),
    ensures
        unwound(b, log, mark) == unwound(unwound(b, log, mid), log.take(mid as int), mark),
    decreases log.len(),
{
    if log.len() <= mid {
        assert(log.take(mid as int) =~= log);
    } else {
        lemma_unwound_twice(b.undo(log.last()), log.drop_last(), mid, mark);
        assert(log.drop_last().take(mid as int) =~= log.take(mid as int));
    }
}

/// Each step of a sweep is admitted in its turn.
pub proof fn lemma_sweep_admitted(b: Board, cands: Seq<usize>)
    ensures
        admitted(b, sweep(b, cands)),
    decreases cands.len(),
{
    if cands.len() > 0 {
        let done = sweep(b, cands.drop_last());
        lemma_sweep_admitted(b, cands.drop_last());
        if run(b, done).choosable(cands.last()) {
            assert(sweep(b, cands).drop_last() =~= done);
        }
    }
}

/// On a dominated board with all that holds of every board, the chosen
/// vertices dominate every vertex of the graph.
pub proof fn lemma_dominated_solution(b: Board)
    requires
        b.inv(),
        b.dominated(),
    ensures
        dominating(b.adj, b.solution),
{
    assert forall|v: usize| v < b.adj.len() implies b.solution.contains(v) || exists|i: int|
        0 <= i < b.adj[v as int].len() && b.solution.contains(#[trigger] b.adj[v as int][i]) by {
        if !b.solution.contains(v) {
            if b.active.contains(v) {
                assert(b.dom[v as int] > 0);
            } else {
                assert(b.dom[v as int] > 0);
            }
            assert(b.dom[v as int] == hits(b.adj[v as int], b.solution));
            lemma_hits_bounds(b.adj[v as int], b.solution);
        }
    }
}

} // verus!
