//! What holds of every state that the steps of the search can reach, stated
//! over the board and the journal of the state.

use crate::board::{admitted, dominating, run, sound, sweep, unwound, Board};
use crate::board_lemmas::{
    lemma_dominated_solution, lemma_sound_inv, lemma_sound_push, lemma_step,
};
use crate::context::Operation;
use crate::graph::active_among;
use crate::solver::{below, candidates, finds, finds_from, improves, lemma_finds_from, turn};
use crate::counting::{
    hits, lemma_hits_bounds, lemma_hits_insert, lemma_occurrences_contains,
    lemma_occurrences_push, occurrences,
};
use vstd::prelude::*;

verus! {

/// Whether the journal holds a step that found `x` white.
pub open spec fn left_white(log: Seq<Operation>, x: usize) -> bool {
    exists|i: int| 0 <= i < log.len() && (#[trigger] log[i]).v == x && log[i].color is White
}

/// The vertex `x` and its neighbours.
pub open spec fn closed_neighborhood(adj: Seq<Seq<usize>>, x: usize) -> Set<usize> {
    adj[x as int].to_set().insert(x)
}

/// Steps taken back leave no trace: when steps are made on a state, each
/// admitted in its turn, and the journal is then rolled back to the length it
/// had before them, the board is the one on which the steps were made, with
/// every set and every counter as it was.
pub proof fn law_round_trip(b: Board, log: Seq<Operation>, steps: Seq<Operation>)
    requires
        sound(b, log),
        admitted(b, steps),
    ensures
        sound(run(b, steps), log + steps),
        unwound(run(b, steps), log + steps, log.len()) == b,
    decreases steps.len(),
{
    if steps.len() == 0 {
        assert(log + steps =~= log);
    } else {
        let init = steps.drop_last();
        let op = steps.last();
        law_round_trip(b, log, init);
        lemma_sound_inv(run(b, init), log + init);
        lemma_step(run(b, init), op);
        lemma_sound_push(run(b, init), log + init, op);
        assert((log + init).push(op) =~= log + steps);
        assert((log + steps).drop_last() =~= log + init);
    }
}

/// No board admits the choice of a vertex that is chosen or barred already.
pub proof fn law_select_rejects(b: Board, op: Operation)
    requires
        op.kind is Select,
        b.solution.contains(op.v) || b.excluded.contains(op.v),
    ensures
        !b.admits(op),
{
}

/// A vertex is in the white set exactly when it has a chosen neighbour,
/// unless a step of the journal found it white: such a vertex has left the
/// white set and keeps its chosen neighbours.
pub proof fn law_partition(b: Board, log: Seq<Operation>, x: usize)
    requires
        sound(b, log),
        x < b.order(),
    ensures
        b.white.contains(x) ==> b.dom[x as int] > 0,
        !left_white(log, x) ==> (b.white.contains(x) <==> b.dom[x as int] > 0),
        left_white(log, x) ==> !b.white.contains(x) && b.dom[x as int] > 0,
        b.color(x) is White || b.color(x) is Black,
    decreases log.len(),
{
    lemma_sound_inv(b, log);
    assert(b.dom[x as int] == hits(b.adj[x as int], b.solution));
    if log.len() > 0 {
        let op = log.last();
        let init = log.drop_last();
        let before = b.undo(op);
        law_partition(before, init, x);
        lemma_sound_inv(before, init);
        assert(before.dom[x as int] == hits(before.adj[x as int], before.solution));
        lemma_occurrences_contains(before.adj[op.v as int], op.v);
        lemma_occurrences_contains(before.adj[op.v as int], x);
        if left_white(init, x) {
            let i = choose|i: int| 0 <= i < init.len() && (#[trigger] init[i]).v == x
                && init[i].color is White;
            assert(log[i].v == x && log[i].color is White);
        }
        if op.v == x && op.color is White {
            assert(log[log.len() - 1].v == x && log[log.len() - 1].color is White);
        }
        if left_white(log, x) {
            let i = choose|i: int| 0 <= i < log.len() && (#[trigger] log[i]).v == x
                && log[i].color is White;
            if i < log.len() - 1 {
                assert(init[i].v == x && init[i].color is White);
            }
        }
    }
}

/// The counter of chosen neighbours of a vertex is the number of places of
/// its list that hold a chosen vertex.
pub proof fn law_accounting(b: Board, log: Seq<Operation>, x: usize)
    requires
        sound(b, log),
        x < b.order(),
    ensures
        b.dom[x as int] == hits(b.adj[x as int], b.solution),
{
    lemma_sound_inv(b, log);
}

/// In a list that holds no member of `among` twice, the places that hold a
/// member are as many as the members that the list holds.
pub proof fn lemma_hits_as_set(s: Seq<usize>, among: Set<usize>)
    requires
        forall|a: usize| among.contains(a) ==> occurrences(s, a) <= 1,
    ensures
        s.to_set().intersect(among).finite(),
        hits(s, among) == s.to_set().intersect(among).len(),
    decreases s.len(),
{
    if s.len() == 0 {
        assert(s.to_set().intersect(among) =~= Set::<usize>::empty());
    } else {
        let t = s.drop_last();
        let a = s.last();
        assert(t.to_set().insert(a) =~= s.to_set()) by {
            assert(t.push(a) =~= s);
            t.lemma_push_to_set_commute(a);
        }
        assert forall|c: usize| among.contains(c) implies occurrences(t, c) <= 1 by {
            assert(occurrences(s, c) <= 1);
        }
        lemma_hits_as_set(t, among);
        if among.contains(a) {
            assert(occurrences(s, a) <= 1);
            lemma_occurrences_contains(t, a);
            assert(!t.to_set().contains(a));
            assert(s.to_set().intersect(among) =~= t.to_set().intersect(among).insert(a));
        } else {
            assert(s.to_set().intersect(among) =~= t.to_set().intersect(among));
        }
    }
}

/// The counter of chosen neighbours of a vertex that is not chosen itself,
/// and whose list holds no chosen vertex twice, is the number of chosen
/// vertices in its closed neighbourhood.
pub proof fn law_closed_accounting(b: Board, log: Seq<Operation>, x: usize)
    requires
        sound(b, log),
        x < b.order(),
        !b.solution.contains(x),
        forall|a: usize| b.solution.contains(a) ==> occurrences(b.adj[x as int], a) <= 1,
    ensures
        closed_neighborhood(b.adj, x).intersect(b.solution).finite(),
        b.dom[x as int] == closed_neighborhood(b.adj, x).intersect(b.solution).len(),
{
    lemma_sound_inv(b, log);
    lemma_hits_as_set(b.adj[x as int], b.solution);
    assert(closed_neighborhood(b.adj, x).intersect(b.solution) =~= b.adj[x as int].to_set().intersect(
        b.solution,
    ));
}

/// When every active vertex has a chosen neighbour, the chosen vertices
/// dominate the whole graph: a vertex that is neither active nor chosen was
/// barred while white and has kept its chosen neighbours.
pub proof fn law_solution_dominates(b: Board, log: Seq<Operation>)
    requires
        sound(b, log),
        b.dominated(),
    ensures
        dominating(b.adj, b.solution),
{
    lemma_sound_inv(b, log);
    lemma_dominated_solution(b);
}

/// The vertices that the journal records as chosen while they were black.
pub open spec fn chosen_black(log: Seq<Operation>) -> Set<usize> {
    Set::new(
        |v: usize|
            exists|i: int|
                0 <= i < log.len() && (#[trigger] log[i]).v == v && log[i].kind is Select
                    && log[i].color is Black,
    )
}

/// What a further record adds to the vertices chosen while black.
proof fn lemma_chosen_black_push(init: Seq<Operation>, op: Operation)
    ensures
        chosen_black(init.push(op)) == if op.kind is Select && op.color is Black {
            chosen_black(init).insert(op.v)
        } else {
            chosen_black(init)
        },
{
    let log = init.push(op);
    let next = if op.kind is Select && op.color is Black {
        chosen_black(init).insert(op.v)
    } else {
        chosen_black(init)
    };
    assert forall|v: usize| chosen_black(log).contains(v) <==> next.contains(v) by {
        if chosen_black(log).contains(v) {
            let i = choose|i: int|
                0 <= i < log.len() && (#[trigger] log[i]).v == v && log[i].kind is Select
                    && log[i].color is Black;
            if i < init.len() {
                assert(init[i].v == v && init[i].kind is Select && init[i].color is Black);
            }
        }
        if chosen_black(init).contains(v) {
            let i = choose|i: int|
                0 <= i < init.len() && (#[trigger] init[i]).v == v && init[i].kind is Select
                    && init[i].color is Black;
            assert(log[i].v == v && log[i].kind is Select && log[i].color is Black);
        }
        if op.kind is Select && op.color is Black && v == op.v {
            assert(log[init.len() as int].v == v);
        }
    }
    assert(chosen_black(log) =~= next);
}

/// The black-neighbour counter of a vertex is its degree less the places of
/// its list that hold a vertex chosen while black; such a vertex is still
/// chosen.
pub proof fn law_black_accounting(b: Board, log: Seq<Operation>, x: usize)
    requires
        sound(b, log),
        x < b.order(),
    ensures
        b.black_nb[x as int] == b.adj[x as int].len() - hits(b.adj[x as int], chosen_black(log)),
        chosen_black(log).subset_of(b.solution),
    decreases log.len(),
{
    if log.len() == 0 {
        assert(chosen_black(log) =~= Set::<usize>::empty());
        lemma_hits_bounds(b.adj[x as int], chosen_black(log));
    } else {
        let op = log.last();
        let init = log.drop_last();
        let before = b.undo(op);
        law_black_accounting(before, init, x);
        lemma_sound_inv(before, init);
        assert(init.push(op) =~= log);
        lemma_chosen_black_push(init, op);
        if op.kind is Select && op.color is Black {
            lemma_hits_insert(before.adj[x as int], chosen_black(init), op.v);
            assert(occurrences(before.adj[x as int], op.v) == occurrences(
                before.adj[op.v as int],
                x,
            ));
        }
    }
}

/// Whether the lists are those of a star around `c`: every other vertex has
/// `c` for its only neighbour, and `c` is not its own neighbour.
pub open spec fn star(adj: Seq<Seq<usize>>, c: usize) -> bool {
    &&& 2 <= adj.len()
    &&& c < adj.len()
    &&& !adj[c as int].contains(c)
    &&& forall|v: usize| v < adj.len() && v != c ==> #[trigger] adj[v as int] == seq![c]
}

/// Where every vertex of a list is active, every vertex of the list is
/// among its active ones.
proof fn lemma_all_active_among(list: Seq<usize>, active: Set<usize>)
    requires
        forall|i: int| 0 <= i < list.len() ==> active.contains(#[trigger] list[i]),
    ensures
        active_among(list, active) == list,
    decreases list.len(),
{
    reveal(Seq::filter);
    if list.len() > 0 {
        assert forall|i: int| 0 <= i < list.drop_last().len() implies active.contains(
            #[trigger] list.drop_last()[i],
        ) by {
            assert(list.drop_last()[i] == list[i]);
        }
        lemma_all_active_among(list.drop_last(), active);
        assert(active.contains(list[list.len() - 1]));
        assert(list.drop_last().push(list.last()) =~= list);
    }
}

/// On a star the search finds a dominated board with one chosen vertex below
/// its first choice, whichever vertex is the pivot: a leaf leads to the
/// centre, and the centre can be pivot only where it has a single leaf.
/// Where the star has two leaves or more, the centre alone is the only
/// dominating set of one vertex at most.
pub proof fn law_star(adj: Seq<Seq<usize>>, c: usize)
    requires
        star(adj, c),
        Board::fresh(adj).plain(),
    ensures
        finds(Board::fresh(adj), 1, 1),
        adj.len() >= 3 ==> forall|s: Seq<usize>|
            #[trigger] dominating(adj, s.to_set()) && s.len() <= 1 ==> s == seq![c],
{
    let b = Board::fresh(adj);
    let other: usize = if c == 0 {
        1
    } else {
        0
    };
    assert(adj[other as int] == seq![c]);
    assert(b.active.contains(c) && b.dom[c as int] == 0);
    assert(!b.dominated());
    assert forall|v: usize| v < adj.len() && v != c implies occurrences(adj[c as int], v) == 1 by {
        assert(adj[v as int] == seq![c]);
        assert(seq![c] =~= Seq::<usize>::empty().push(c));
        lemma_occurrences_push(Seq::<usize>::empty(), c, c);
        assert(occurrences(adj[v as int], c) == occurrences(adj[c as int], v));
    }
    assert forall|p: usize| #[trigger] b.is_pivot(p) implies exists|j: int|
        0 <= j < candidates(b, p).len() && turn(b, p, j).choosable(candidates(b, p)[j]) && finds(
            #[trigger] below(b, p, j),
            1,
            0,
        ) by {
        let list = adj[p as int];
        assert forall|i: int| 0 <= i < list.len() implies b.active.contains(
            #[trigger] list[i],
        ) by {
            assert(adj[p as int][i] < adj.len());
        }
        lemma_all_active_among(list, b.active);
        assert(candidates(b, p) == list);
        if p == c {
            assert(adj[other as int][0] == c);
            lemma_all_active_among(adj[other as int], b.active);
            assert(b.undominated(other));
            assert(b.residual(c) <= b.residual(other));
            lemma_occurrences_contains(list, other);
            assert(list.len() == 1);
            assert(list[0] == other) by {
                let i = choose|i: int| 0 <= i < list.len() && list[i] == other;
                assert(i == 0);
            }
        }
        let n = list[0];
        assert(n != p && n < adj.len());
        assert(candidates(b, p).take(0) =~= Seq::<usize>::empty());
        assert(sweep(b, Seq::<usize>::empty()) =~= Seq::<Operation>::empty());
        assert(turn(b, p, 0) == b);
        assert(!adj[n as int].contains(n)) by {
            if n != c {
                assert(adj[n as int] == seq![c]);
            }
        }
        assert(b.choosable(n));
        let a = b.select(n);
        assert(below(b, p, 0) == a);
        assert forall|v: usize| #[trigger] a.active.contains(v) implies a.dom[v as int] > 0 by {
            if n == c {
                assert(occurrences(adj[c as int], v) == 1);
            } else {
                if v != c {
                    lemma_occurrences_contains(adj[c as int], v);
                    assert(adj[c as int].contains(v));
                    let i = choose|i: int| 0 <= i < adj[c as int].len() && adj[c as int][i] == v;
                    assert(i == 0);
                }
                assert(occurrences(adj[c as int], n) == 1);
                assert(occurrences(adj[n as int], c) == occurrences(adj[c as int], n));
            }
        }
        assert(a.dominated());
        assert(a.solution =~= set![n]);
        assert(finds(a, 1, 0));
    }
    if adj.len() >= 3 {
        assert forall|s: Seq<usize>| #[trigger]
            dominating(adj, s.to_set()) && s.len() <= 1 implies s == seq![c] by {
            let d = s.to_set();
            assert(d.contains(c) || exists|i: int|
                0 <= i < adj[c as int].len() && d.contains(#[trigger] adj[c as int][i]));
            assert(s.len() == 1) by {
                if s.len() == 0 {
                    assert(forall|x: usize| !d.contains(x));
                }
            }
            let x = s[0];
            assert forall|y: usize| d.contains(y) implies y == x by {
                let i = choose|i: int| 0 <= i < s.len() && s[i] == y;
                assert(i == 0);
            }
            if x != c {
                let far: usize = if x != 0 && c != 0 {
                    0
                } else if x != 1 && c != 1 {
                    1
                } else {
                    2
                };
                assert(far != x && far != c && far < adj.len());
                assert(adj[far as int] == seq![c]);
                assert(d.contains(far) || exists|i: int|
                    0 <= i < adj[far as int].len() && d.contains(#[trigger] adj[far as int][i]));
            }
            assert(s =~= seq![c]);
        }
    }
}

/// A search that starts on the fresh board of a star with every vertex as
/// its best solution ends with a single vertex, and with the centre where the
/// star has two leaves or more. `best0` and `best1` are the best solution
/// before and after the first node is visited; what is asked of them is what
/// `Solver::branch` ensures.
pub proof fn law_star_result(
    adj: Seq<Seq<usize>>,
    c: usize,
    order: Seq<usize>,
    best0: Seq<usize>,
    best1: Seq<usize>,
)
    requires
        star(adj, c),
        Board::fresh(adj).plain(),
        best0.len() == adj.len(),
        best1 == best0 || improves(Board::fresh(adj), best0.len(), best1),
        forall|k: nat, depth: nat| #[trigger]
            finds_from(Board::fresh(adj), order, k, depth) ==> best1.len() <= k,
    ensures
        best1.len() == 1,
        best1[0] < adj.len(),
        adj.len() >= 3 ==> best1 == seq![c],
{
    let b = Board::fresh(adj);
    law_star(adj, c);
    lemma_finds_from(b, order, 1, 1);
    assert(best1.len() <= 1);
    assert(improves(b, best0.len(), best1));
    let d = best1.to_set();
    assert(d.contains(c) || exists|i: int|
        0 <= i < adj[c as int].len() && d.contains(#[trigger] adj[c as int][i]));
    if best1.len() == 0 {
        assert(forall|x: usize| !d.contains(x));
    }
    assert(b.solution.contains(best1[0]) || b.free(best1[0]));
}

} // verus!
