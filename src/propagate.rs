use vstd::prelude::*;

use crate::grid::{
    allows, are_peers, assigned_below, assigned_variables, cell_ok, consistent, extends,
    generate_constraints, grid_ok, is_solution, lemma_open_count_update, lemma_size, open_count,
    peers_below, refines, Assignment, SudokuError, Variable,
};

verus! {

/// Whether decided cell `x` has been propagated: no peer still allows its value.
pub open spec fn settled(g: Seq<Variable>, x: int) -> bool {
    g[x] is Assigned ==> forall|y: int|
        #[trigger] are_peers(x, y) ==> !allows(g[y], g[x]->Assigned_0 as int)
}

/// Whether every decided cell has been propagated: no open cell keeps the value of a
/// decided peer, and no two decided peers are equal.
pub open spec fn fixed_point(g: Seq<Variable>) -> bool {
    forall|x: int| 0 <= x < 81 ==> #[trigger] settled(g, x)
}

/// Whether cell `x` waits in the worklist.
pub open spec fn queued(q: Seq<(usize, u8)>, x: int) -> bool {
    exists|k: int| 0 <= k < q.len() && q[k].0 == x
}

/// Whether each worklist entry names a decided cell of `g` with its value.
pub open spec fn queue_ok(g: Seq<Variable>, q: Seq<(usize, u8)>) -> bool {
    forall|k: int|
        0 <= k < q.len() ==> #[trigger] q[k].0 < 81 && g[q[k].0 as int] == Variable::Assigned(
            q[k].1,
        )
}

/// Whether every decided cell of `g` is propagated or waits in `q`.
pub open spec fn pending_ok(g: Seq<Variable>, q: Seq<(usize, u8)>) -> bool {
    forall|z: int|
        0 <= z < 81 && (#[trigger] g[z]) is Assigned ==> settled(g, z) || queued(q, z)
}

/// A fixed point holds no two decided peers with one value.
pub proof fn lemma_fixed_point_consistent(g: Seq<Variable>)
    requires
        g.len() == 81,
        fixed_point(g),
    ensures
        consistent(g),
{
    assert forall|i: int, j: int|
        #![trigger g[i], g[j]]
        are_peers(i, j) && g[i] is Assigned && g[j] is Assigned implies g[i]->Assigned_0
        != g[j]->Assigned_0 by {
        assert(settled(g, i));
    }
}

/// A solution that completes a narrowed grid completes the grid it was narrowed from.
pub proof fn lemma_extends_refines(s: Seq<Variable>, g2: Seq<Variable>, g1: Seq<Variable>)
    requires
        g1.len() == 81,
        refines(g2, g1),
        extends(s, g2),
    ensures
        extends(s, g1),
{
    assert forall|i: int| 0 <= i < 81 implies allows(#[trigger] g1[i], s[i]->Assigned_0 as int) by {
        assert(allows(g2[i], s[i]->Assigned_0 as int));
    }
}

/// What a grid-building step returned: the cells on success, `None` on an error.
pub open spec fn outcome(r: Result<Assignment, SudokuError>) -> Option<Seq<Variable>> {
    match r {
        Ok(g) => Some(g@),
        Err(_) => None,
    }
}

/// One sweep of propagation: value `val` is removed from the cells `nbrs[k..]` in
/// turn. A peer decided to `val` or left without candidates ends the sweep with
/// `None`; a peer left with one candidate is decided and pushed on the worklist.
pub open spec fn sweep(
    g: Seq<Variable>,
    q: Seq<(usize, u8)>,
    val: u8,
    nbrs: Seq<usize>,
    k: int,
) -> Option<(Seq<Variable>, Seq<(usize, u8)>)>
    decreases nbrs.len() - k,
{
    if k < 0 || k >= nbrs.len() {
        Some((g, q))
    } else {
        let y = nbrs[k] as int;
        match g[y] {
            Variable::Assigned(w) => if w == val {
                None
            } else {
                sweep(g, q, val, nbrs, k + 1)
            },
            Variable::Unassigned(d) => if d.has(val as int) {
                let d2 = d.remove_spec(val);
                match d2.first_from(1) {
                    None => None,
                    Some(u) => if d2.size() == 1 {
                        sweep(
                            g.update(y, Variable::Assigned(u)),
                            q.push((y as usize, u)),
                            val,
                            nbrs,
                            k + 1,
                        )
                    } else {
                        sweep(g.update(y, Variable::Unassigned(d2)), q, val, nbrs, k + 1)
                    },
                }
            } else {
                sweep(g, q, val, nbrs, k + 1)
            },
        }
    }
}

/// Propagation to a fixed point, last in first out, with at most `fuel` sweeps.
pub open spec fn prop(g: Seq<Variable>, q: Seq<(usize, u8)>, fuel: nat) -> Option<Seq<Variable>>
    decreases fuel,
{
    if q.len() == 0 {
        Some(g)
    } else if fuel == 0 {
        None
    } else {
        let (x, val) = q.last();
        match sweep(g, q.drop_last(), val, peers_below(x as int, 81), 0) {
            None => None,
            Some((g2, q2)) => prop(g2, q2, (fuel - 1) as nat),
        }
    }
}

/// The sweeps that propagation of worklist `q` over `g` can take: one for each entry,
/// and one for each cell that it may decide.
pub open spec fn prop_fuel(g: Seq<Variable>, q: Seq<(usize, u8)>) -> nat {
    open_count(g) + q.len()
}

/// Propagates the decided cells of the worklist to a fixed point. Each popped cell
/// removes its value from the candidates of its peers; a peer left with one candidate
/// is decided and queued in turn.
///
/// On success the result narrows the input, is a fixed point, and is completed by
/// exactly the solutions that complete the input. `Inconsistent` comes exactly when
/// a contradiction shows, and then no solution completes the input.
pub fn propagate(assignment: Assignment, worklist: Vec<(usize, u8)>) -> (r: Result<
    Assignment,
    SudokuError,
>)
    requires
        grid_ok(assignment@),
        queue_ok(assignment@, worklist@),
        pending_ok(assignment@, worklist@),
    ensures
        outcome(r) == prop(assignment@, worklist@, prop_fuel(assignment@, worklist@)),
        r matches Ok(g) ==> {
            &&& grid_ok(g@)
            &&& refines(g@, assignment@)
            &&& fixed_point(g@)
            &&& forall|s: Seq<Variable>|
                #[trigger] is_solution(s) ==> (extends(s, g@) <==> extends(s, assignment@))
        },
        r matches Err(e) ==> {
            &&& e == SudokuError::Inconsistent
            &&& forall|s: Seq<Variable>| #[trigger] is_solution(s) ==> !extends(s, assignment@)
        },
{
    let ghost a0 = assignment@;
    let ghost total = prop(assignment@, worklist@, prop_fuel(assignment@, worklist@));
    let ghost mut fuel: nat = prop_fuel(assignment@, worklist@);
    let mut g = assignment;
    let mut queue = worklist;
    while queue.len() > 0
        invariant
            prop(g@, queue@, fuel) == total,
            fuel >= open_count(g@) + queue.len(),
            total == prop(assignment@, worklist@, prop_fuel(assignment@, worklist@)),
            grid_ok(g@),
            a0 == assignment@,
            a0.len() == 81,
            refines(g@, a0),
            queue_ok(g@, queue@),
            pending_ok(g@, queue@),
            forall|s: Seq<Variable>| #[trigger] is_solution(s) && extends(s, a0) ==> extends(s, g@),
        decreases open_count(g@), queue.len(),
    {
        let ghost n0 = open_count(g@);
        let ghost q_before = queue@;
        let (x, val) = match queue.pop() {
            Some(e) => e,
            None => {
                return Err(SudokuError::Inconsistent);
            },
        };
        let ghost q0 = queue.len();
        assert(q_before[q0 as int] == (x, val));
        assert(g@[x as int] == Variable::Assigned(val));
        assert(cell_ok(g@[x as int]));
        assert forall|z: int|
            0 <= z < 81 && (#[trigger] g@[z]) is Assigned implies settled(g@, z) || queued(
            queue@,
            z,
        ) || z == x by {
            if !settled(g@, z) && z != x {
                let k = choose|k: int| 0 <= k < q_before.len() && q_before[k].0 == z;
                assert(queue@[k].0 == z);
            }
        }
        let nbrs = generate_constraints(x);
        let ghost swept = sweep(g@, queue@, val, nbrs@, 0);
        assert(queue@ == q_before.drop_last());
        let mut k: usize = 0;
        while k < nbrs.len()
            invariant
                sweep(g@, queue@, val, nbrs@, k as int) == swept,
                swept is None ==> total is None,
                total == prop(assignment@, worklist@, prop_fuel(assignment@, worklist@)),
                swept matches Some((g2, q2)) ==> prop(g2, q2, (fuel - 1) as nat) == total,
                nbrs@ == peers_below(x as int, 81),
                grid_ok(g@),
                a0 == assignment@,
                a0.len() == 81,
                refines(g@, a0),
                queue_ok(g@, queue@),
                x < 81,
                1 <= val <= 9,
                g@[x as int] == Variable::Assigned(val),
                forall|z: int|
                    0 <= z < 81 && (#[trigger] g@[z]) is Assigned ==> settled(g@, z) || queued(
                        queue@,
                        z,
                    ) || z == x,
                forall|s: Seq<Variable>|
                    #[trigger] is_solution(s) && extends(s, a0) ==> extends(s, g@),
                k <= nbrs.len(),
                fuel >= n0 + q0 + 1,
                forall|j: int| 0 <= j < nbrs.len() ==> are_peers(x as int, #[trigger] nbrs[j] as int),
                forall|y: int| #[trigger] are_peers(x as int, y) ==> exists|j: int|
                    0 <= j < nbrs.len() && nbrs[j] == y,
                forall|a: int, b: int| 0 <= a < b < nbrs.len() ==> nbrs[a] < nbrs[b],
                forall|j: int| 0 <= j < k ==> !allows(g@[#[trigger] nbrs[j] as int], val as int),
                open_count(g@) + queue.len() == n0 + q0,
                queue.len() >= q0,
            decreases nbrs.len() - k,
        {
            let y = nbrs[k];
            let ghost gk = g@;
            let ghost qk = queue@;
            match g[y] {
                Variable::Assigned(w) => {
                    if w == val {
                        proof {
                            assert forall|s: Seq<Variable>| #[trigger]
                                is_solution(s) implies !extends(s, a0) by {
                                if extends(s, a0) {
                                    assert(extends(s, g@));
                                    assert(allows(g@[x as int], s[x as int]->Assigned_0 as int));
                                    assert(allows(g@[y as int], s[y as int]->Assigned_0 as int));
                                    assert(are_peers(x as int, y as int));
                                    assert(s[x as int] is Assigned && s[y as int] is Assigned);
                                    assert(consistent(s));
                                }
                            }
                        }
                        return Err(SudokuError::Inconsistent);
                    }
                },
                Variable::Unassigned(d) => {
                    if d.contains(val) {
                        let d2 = d.without(val);
                        proof {
                            assert(a0[y as int] is Unassigned);
                            assert forall|s: Seq<Variable>| #[trigger]
                                is_solution(s) && extends(s, a0) implies d2.has(
                                s[y as int]->Assigned_0 as int,
                            ) by {
                                assert(extends(s, g@));
                                assert(allows(g@[x as int], s[x as int]->Assigned_0 as int));
                                assert(allows(g@[y as int], s[y as int]->Assigned_0 as int));
                                assert(are_peers(x as int, y as int));
                                assert(s[x as int] is Assigned && s[y as int] is Assigned);
                                assert(consistent(s));
                            }
                        }
                        match d2.smallest() {
                            None => {
                                proof {
                                    assert forall|s: Seq<Variable>| #[trigger]
                                        is_solution(s) implies !extends(s, a0) by {
                                        if extends(s, a0) {
                                            assert(d2.has(s[y as int]->Assigned_0 as int));
                                        }
                                    }
                                }
                                return Err(SudokuError::Inconsistent);
                            },
                            Some(u) => {
                                let single = d2.len() == 1;
                                let new_cell = if single {
                                    proof {
                                        lemma_size(d2);
                                    }
                                    Variable::Assigned(u)
                                } else {
                                    Variable::Unassigned(d2)
                                };
                                assert forall|v: int| #[trigger]
                                    allows(new_cell, v) implies allows(gk[y as int], v) && v
                                    != val by {}
                                g.set(y, new_cell);
                                proof {
                                    lemma_open_count_update(gk, y as int, new_cell);
                                }
                                if single {
                                    queue.push((y, u));
                                }
                                proof {
                                    assert(g@ == gk.update(y as int, new_cell));
                                    assert forall|s: Seq<Variable>| #[trigger]
                                        is_solution(s) && extends(s, a0) implies extends(
                                        s,
                                        g@,
                                    ) by {
                                        assert(extends(s, gk));
                                        assert(d2.has(s[y as int]->Assigned_0 as int));
                                    }
                                    assert forall|z: int|
                                        0 <= z < 81 && (#[trigger] g@[z]) is Assigned implies settled(
                                        g@,
                                        z,
                                    ) || queued(queue@, z) || z == x by {
                                        if z == y {
                                            assert(queue@[queue.len() - 1].0 == z);
                                        } else {
                                            assert(gk[z] == g@[z]);
                                            if settled(gk, z) {
                                                assert forall|p: int| #[trigger]
                                                    are_peers(z, p) implies !allows(
                                                    g@[p],
                                                    g@[z]->Assigned_0 as int,
                                                ) by {
                                                    assert(!allows(gk[p], gk[z]->Assigned_0 as int));
                                                }
                                            } else if queued(qk, z) {
                                                let j = choose|j: int|
                                                    0 <= j < qk.len() && qk[j].0 == z;
                                                assert(queue@[j].0 == z);
                                            }
                                        }
                                    }
                                    assert forall|j: int| 0 <= j < k + 1 implies !allows(
                                        g@[#[trigger] nbrs[j] as int],
                                        val as int,
                                    ) by {
                                        if j < k {
                                            assert(nbrs[j] != y);
                                        }
                                    }
                                    assert forall|kk: int|
                                        0 <= kk < queue.len() implies #[trigger] queue@[kk].0
                                        < 81 && g@[queue@[kk].0 as int] == Variable::Assigned(
                                        queue@[kk].1,
                                    ) by {
                                        if kk < qk.len() {
                                            assert(qk[kk] == queue@[kk]);
                                            assert(qk[kk].0 != y);
                                        }
                                    }
                                }
                            },
                        }
                    }
                },
            }
            k = k + 1;
        }
        proof {
            fuel = (fuel - 1) as nat;
            assert(settled(g@, x as int)) by {
                assert forall|y: int| #[trigger]
                    are_peers(x as int, y) implies !allows(g@[y], val as int) by {
                    let j = choose|j: int| 0 <= j < nbrs.len() && nbrs[j] == y;
                    assert(!allows(g@[nbrs[j] as int], val as int));
                }
            }
        }
    }
    proof {
        assert forall|x: int| 0 <= x < 81 implies #[trigger] settled(g@, x) by {
            if g@[x] is Assigned {
                assert(settled(g@, x) || queued(queue@, x));
            }
        }
        assert forall|s: Seq<Variable>| #[trigger]
            is_solution(s) implies (extends(s, g@) <==> extends(s, a0)) by {
            if extends(s, g@) {
                lemma_extends_refines(s, g@, a0);
            }
        }
    }
    Ok(g)
}

/// Whether two decided peers of `g` hold one value.
pub open spec fn has_conflict(g: Seq<Variable>) -> bool {
    exists|i: int, j: int|
        #![trigger g[i], g[j]]
        are_peers(i, j) && g[i] is Assigned && g[j] is Assigned && g[i]->Assigned_0
            == g[j]->Assigned_0
}

/// Propagation of every decided cell of `g`, seeded in index order.
pub open spec fn ac3_spec(g: Seq<Variable>) -> Option<Seq<Variable>> {
    prop(g, assigned_below(g, 81), prop_fuel(g, assigned_below(g, 81)))
}

/// Propagates every decided cell of the grid to a fixed point (arc consistency for the
/// not-equal constraints). A grid in which two peers are decided to one value is always
/// reported `Inconsistent`.
pub fn ac3(assignment: Assignment) -> (r: Result<Assignment, SudokuError>)
    requires
        grid_ok(assignment@),
    ensures
        outcome(r) == ac3_spec(assignment@),
        r matches Ok(g) ==> {
            &&& grid_ok(g@)
            &&& refines(g@, assignment@)
            &&& fixed_point(g@)
            &&& consistent(g@)
            &&& forall|s: Seq<Variable>|
                #[trigger] is_solution(s) ==> (extends(s, g@) <==> extends(s, assignment@))
        },
        r matches Err(e) ==> {
            &&& e == SudokuError::Inconsistent
            &&& forall|s: Seq<Variable>| #[trigger] is_solution(s) ==> !extends(s, assignment@)
        },
        has_conflict(assignment@) ==> r is Err,
{
    let worklist = assigned_variables(&assignment);
    let ghost a0 = assignment@;
    let r = propagate(assignment, worklist);
    proof {
        if let Ok(g) = &r {
            lemma_fixed_point_consistent(g@);
            if has_conflict(a0) {
                let (i, j) = choose|i: int, j: int|
                    #![trigger a0[i], a0[j]]
                    are_peers(i, j) && a0[i] is Assigned && a0[j] is Assigned && a0[i]->Assigned_0
                        == a0[j]->Assigned_0;
                assert(g@[i] == a0[i]);
                assert(g@[j] == a0[j]);
            }
        }
    }
    r
}

} // verus!
