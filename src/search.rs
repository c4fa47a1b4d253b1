use vstd::prelude::*;

use crate::grid::{
    allows, complete, extends, fewest_below, grid_ok, is_solution, lemma_open_count_refines,
    lemma_open_count_update, open_count, refines, unassigned_variable, Assignment, Domain,
    SudokuError, Variable,
};
use crate::propagate::{
    ac3, ac3_spec, fixed_point, has_conflict, lemma_extends_refines, lemma_fixed_point_consistent,
    outcome, pending_ok, prop, prop_fuel, propagate, queue_ok, queued, settled,
};

verus! {

/// Diagnostic counters of a search: calls of the search driver, and branches whose
/// recursive search failed. Both saturate at `u64::MAX`.
#[derive(Clone, Copy, Debug, PartialEq, Eq, Structural)]
pub struct SearchStats {
    pub called: u64,
    pub failed: u64,
}

impl SearchStats {
    /// The counters before any search.
    pub open spec fn zero() -> SearchStats {
        SearchStats { called: 0, failed: 0 }
    }

    /// Counters at zero.
    pub fn new() -> (r: SearchStats)
        ensures
            r == SearchStats::zero(),
    {
        SearchStats { called: 0, failed: 0 }
    }
}

/// Whether some solution completes `g`.
pub open spec fn solvable(g: Seq<Variable>) -> bool {
    exists|s: Seq<Variable>| #[trigger] is_solution(s) && extends(s, g)
}

/// A cell-for-cell copy of a grid, for a search branch of its own.
fn copy_grid(g: &Assignment) -> (r: Assignment)
    ensures
        r@ == g@,
{
    let mut r: Assignment = Vec::with_capacity(g.len());
    let mut i: usize = 0;
    while i < g.len()
        invariant
            i <= g.len(),
            r@ == g@.subrange(0, i as int),
        decreases g.len() - i,
    {
        r.push(g[i]);
        i = i + 1;
        assert(r@ =~= g@.subrange(0, i as int));
    }
    assert(r@ =~= g@);
    r
}

/// A complete, propagated grid completes itself.
proof fn lemma_complete_is_solution(g: Seq<Variable>)
    requires
        grid_ok(g),
        fixed_point(g),
        complete(g),
    ensures
        is_solution(g),
        extends(g, g),
{
    lemma_fixed_point_consistent(g);
    assert forall|i: int| 0 <= i < 81 implies allows(#[trigger] g[i], g[i]->Assigned_0 as int) by {
        assert(g[i] is Assigned);
    }
}

/// `c + 1`, saturating at `u64::MAX`.
pub open spec fn sat_inc(c: u64) -> u64 {
    if c == u64::MAX {
        c
    } else {
        (c + 1) as u64
    }
}

/// The outcome of the search over `g` with counters `st`, for a recursion of at most
/// `fuel` levels: the solution found, if any, and the counters after it.
pub open spec fn search(g: Seq<Variable>, st: SearchStats, fuel: nat) -> (
    Option<Seq<Variable>>,
    SearchStats,
)
    decreases fuel, 10int,
{
    if fuel == 0 {
        (None, st)
    } else {
        let st1 = SearchStats { called: sat_inc(st.called), failed: st.failed };
        match fewest_below(g, 81) {
            None => (Some(g), st1),
            Some((x, d)) => try_values(g, x, d, 1, st1, fuel),
        }
    }
}

/// The outcome of trying the candidates of `d` from `v` on for cell `x` of `g`.
pub open spec fn try_values(
    g: Seq<Variable>,
    x: usize,
    d: Domain,
    v: int,
    st: SearchStats,
    fuel: nat,
) -> (Option<Seq<Variable>>, SearchStats)
    decreases fuel, 10 - v,
{
    if fuel == 0 || v >= 10 {
        (None, st)
    } else if d.has(v) {
        let child = g.update(x as int, Variable::Assigned(v as u8));
        let seed = seq![(x, v as u8)];
        match prop(child, seed, prop_fuel(child, seed)) {
            None => try_values(g, x, d, v + 1, st, fuel),
            Some(g2) => {
                let (r, st2) = search(g2, st, (fuel - 1) as nat);
                if r is Some {
                    (r, st2)
                } else {
                    try_values(
                        g,
                        x,
                        d,
                        v + 1,
                        SearchStats { called: st2.called, failed: sat_inc(st2.failed) },
                        fuel,
                    )
                }
            },
        }
    } else {
        try_values(g, x, d, v + 1, st, fuel)
    }
}

/// The search of a propagated grid, with a bound on its depth that it never reaches.
fn search_with(assignment: Assignment, stats: &mut SearchStats, Ghost(fuel): Ghost<nat>) -> (r: Result<
    Assignment,
    SudokuError,
>)
    requires
        grid_ok(assignment@),
        fixed_point(assignment@),
        fuel > open_count(assignment@),
    ensures
        (outcome(r), *final(stats)) == search(assignment@, *old(stats), fuel),
        r matches Ok(g) ==> is_solution(g@) && extends(g@, assignment@),
        r matches Err(e) ==> e == SudokuError::SearchExhausted,
        r is Ok <==> solvable(assignment@),
        complete(assignment@) ==> (r matches Ok(g) && g@ == assignment@),
        complete(assignment@) ==> final(stats).failed == old(stats).failed,
        final(stats).called >= old(stats).called,
        final(stats).called > old(stats).called || old(stats).called == u64::MAX,
        final(stats).failed >= old(stats).failed,
    decreases fuel,
{
    let ghost s_in = *stats;
    let ghost total = search(assignment@, s_in, fuel);
    stats.called = stats.called.saturating_add(1);
    let ghost a0 = assignment@;
    match unassigned_variable(&assignment) {
        None => {
            proof {
                lemma_complete_is_solution(a0);
            }
            Ok(assignment)
        },
        Some((x, d)) => {
            let ghost stats0 = *stats;
            let mut v: u8 = 1;
            while v < 10
                invariant
                    try_values(a0, x, d, v as int, *stats, fuel) == total,
                    total == search(a0, s_in, fuel),
                    fuel > open_count(a0),
                    1 <= v <= 10,
                    a0 == assignment@,
                    grid_ok(a0),
                    fixed_point(a0),
                    x < 81,
                    a0[x as int] == Variable::Unassigned(d),
                    s_in == *old(stats),
                    stats0.called >= s_in.called,
                    stats0.called > s_in.called || s_in.called == u64::MAX,
                    stats0.failed == s_in.failed,
                    stats.called >= stats0.called,
                    stats.failed >= stats0.failed,
                    forall|s: Seq<Variable>|
                        #[trigger] is_solution(s) && extends(s, a0) ==> s[x as int]->Assigned_0
                            >= v,
                decreases 10 - v,
            {
                if d.contains(v) {
                    let mut child = copy_grid(&assignment);
                    let cell = Variable::Assigned(v);
                    child.set(x, cell);
                    let mut seed: Vec<(usize, u8)> = Vec::new();
                    seed.push((x, v));
                    let ghost c0 = child@;
                    proof {
                        assert(seed@ =~= seq![(x, v)]);
                        assert(c0 == a0.update(x as int, cell));
                        lemma_open_count_update(a0, x as int, cell);
                        assert(grid_ok(c0));
                        assert(queue_ok(c0, seed@));
                        assert(refines(c0, a0));
                        assert forall|z: int|
                            0 <= z < 81 && (#[trigger] c0[z]) is Assigned implies settled(c0, z)
                            || queued(seed@, z) by {
                            if z == x {
                                assert(seed@[0].0 == z);
                            } else {
                                assert(c0[z] == a0[z]);
                                assert(settled(a0, z));
                                assert forall|p: int| #[trigger]
                                    crate::grid::are_peers(z, p) implies !allows(
                                    c0[p],
                                    c0[z]->Assigned_0 as int,
                                ) by {
                                    assert(!allows(a0[p], a0[z]->Assigned_0 as int));
                                }
                            }
                        }
                        assert(pending_ok(c0, seed@));
                    }
                    match propagate(child, seed) {
                        Ok(g2) => {
                            proof {
                                lemma_open_count_refines(g2@, c0);
                            }
                            match search_with(g2, stats, Ghost((fuel - 1) as nat)) {
                                Ok(sol) => {
                                    proof {
                                        lemma_extends_refines(sol@, c0, a0);
                                    }
                                    return Ok(sol);
                                },
                                Err(_) => {
                                    stats.failed = stats.failed.saturating_add(1);
                                },
                            }
                        },
                        Err(_) => {},
                    }
                    proof {
                        assert forall|s: Seq<Variable>| #[trigger]
                            is_solution(s) && extends(s, a0) implies s[x as int]->Assigned_0 >= v
                            + 1 by {
                            if s[x as int]->Assigned_0 == v {
                                assert forall|i: int| 0 <= i < 81 implies allows(
                                    #[trigger] c0[i],
                                    s[i]->Assigned_0 as int,
                                ) by {
                                    assert(allows(a0[i], s[i]->Assigned_0 as int));
                                }
                                assert(extends(s, c0));
                            }
                        }
                    }
                } else {
                    proof {
                        assert forall|s: Seq<Variable>| #[trigger]
                            is_solution(s) && extends(s, a0) implies s[x as int]->Assigned_0 >= v
                            + 1 by {
                            assert(allows(a0[x as int], s[x as int]->Assigned_0 as int));
                        }
                    }
                }
                v = v + 1;
            }
            proof {
                assert forall|s: Seq<Variable>| #[trigger]
                    is_solution(s) implies !extends(s, a0) by {
                    if extends(s, a0) {
                        assert(allows(a0[x as int], s[x as int]->Assigned_0 as int));
                    }
                }
            }
            Err(SudokuError::SearchExhausted)
        },
    }
}

/// Depth-first search over a propagated grid. It picks the open cell with the fewest
/// candidates (lowest index among equals), tries its candidates in increasing order on
/// a copy of the grid, propagates each choice and recurses; the first completed grid
/// is returned. `SearchExhausted` comes exactly when no solution completes the grid.
/// `stats.called` grows by one for each call, `stats.failed` by one for each branch
/// whose recursive search failed.
pub fn backtrack(assignment: Assignment, stats: &mut SearchStats) -> (r: Result<
    Assignment,
    SudokuError,
>)
    requires
        grid_ok(assignment@),
        fixed_point(assignment@),
    ensures
        (outcome(r), *final(stats)) == search(
            assignment@,
            *old(stats),
            open_count(assignment@) + 1,
        ),
        r matches Ok(g) ==> is_solution(g@) && extends(g@, assignment@),
        r matches Err(e) ==> e == SudokuError::SearchExhausted,
        r is Ok <==> solvable(assignment@),
        complete(assignment@) ==> (r matches Ok(g) && g@ == assignment@),
        complete(assignment@) ==> final(stats).failed == old(stats).failed,
        final(stats).called >= old(stats).called,
        final(stats).called > old(stats).called || old(stats).called == u64::MAX,
        final(stats).failed >= old(stats).failed,
{
    search_with(assignment, stats, Ghost(open_count(assignment@) + 1))
}

/// The outcome of solving `g`: the solution found, if any, and the counters.
pub open spec fn solve_spec(g: Seq<Variable>) -> (Option<Seq<Variable>>, SearchStats) {
    match ac3_spec(g) {
        None => (None, SearchStats::zero()),
        Some(p) => search(p, SearchStats::zero(), open_count(p) + 1),
    }
}

/// Solving is deterministic: grids with the same cells give the same solution and the
/// same counters.
pub proof fn lemma_solve_deterministic(
    a1: Seq<Variable>,
    a2: Seq<Variable>,
    r1: (Option<Seq<Variable>>, SearchStats),
    r2: (Option<Seq<Variable>>, SearchStats),
)
    requires
        a1 == a2,
        r1 == solve_spec(a1),
        r2 == solve_spec(a2),
    ensures
        r1 == r2,
{
}

/// Solves a puzzle: propagates its clues, then searches. Returns a solution that keeps
/// every clue, or `SearchExhausted` exactly when no solution keeps them; clues in
/// conflict are found by propagation, before any search.
pub fn solve(assignment: Assignment) -> (r: (Result<Assignment, SudokuError>, SearchStats))
    requires
        grid_ok(assignment@),
    ensures
        r.0 matches Ok(g) ==> is_solution(g@) && extends(g@, assignment@),
        r.0 matches Ok(g) ==> forall|i: int|
            0 <= i < 81 && (#[trigger] assignment@[i]) is Assigned ==> g@[i] == assignment@[i],
        r.0 matches Err(e) ==> e == SudokuError::SearchExhausted,
        r.0 is Ok <==> solvable(assignment@),
        (outcome(r.0), r.1) == solve_spec(assignment@),
        has_conflict(assignment@) ==> r.0 is Err && r.1 == SearchStats::zero(),
{
    let ghost a0 = assignment@;
    let mut stats = SearchStats::new();
    match ac3(assignment) {
        Ok(g) => {
            let ghost g0 = g@;
            let res = backtrack(g, &mut stats);
            proof {
                if let Ok(sol) = &res {
                    lemma_extends_refines(sol@, g0, a0);
                    assert forall|i: int|
                        0 <= i < 81 && (#[trigger] a0[i]) is Assigned implies sol@[i] == a0[i] by {
                        assert(allows(a0[i], sol@[i]->Assigned_0 as int));
                        assert(sol@[i] is Assigned);
                    }
                }
                if solvable(a0) {
                    let s = choose|s: Seq<Variable>| #[trigger] is_solution(s) && extends(s, a0);
                    assert(extends(s, g0));
                }
            }
            (res, stats)
        },
        Err(_) => (Err(SudokuError::SearchExhausted), stats),
    }
}

} // verus!
