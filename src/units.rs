use vstd::prelude::*;
use vstd::set_lib::{lemma_int_range, lemma_len_subset, set_int_range};

use crate::grid::{are_peers, cell_ok, is_solution, Variable};

verus! {

/// The `k`-th cell (0 to 8) of unit `u` (0 to 8), where `kind` 0 picks rows, 1 columns,
/// and 2 the 3x3 boxes.
pub open spec fn unit_cell(kind: int, u: int, k: int) -> int {
    if kind == 0 {
        u * 9 + k
    } else if kind == 1 {
        k * 9 + u
    } else {
        (u / 3) * 27 + (u % 3) * 3 + (k / 3) * 9 + k % 3
    }
}

/// The value of cell `i` of a complete grid.
pub open spec fn value_at(s: Seq<Variable>, i: int) -> int {
    s[i]->Assigned_0 as int
}

/// Two distinct cells of one box are peers.
proof fn lemma_box_peers(u: int, k1: int, k2: int)
    requires
        0 <= u < 9,
        0 <= k1 < 9,
        0 <= k2 < 9,
        k1 != k2,
    ensures
        are_peers(unit_cell(2, u, k1), unit_cell(2, u, k2)),
{
    let q = u / 3;
    let r = u % 3;
    let p1 = k1 / 3;
    let m1 = k1 % 3;
    let p2 = k2 / 3;
    let m2 = k2 % 3;
    let a = unit_cell(2, u, k1);
    let b = unit_cell(2, u, k2);
    assert(a == 27 * q + 3 * r + 9 * p1 + m1);
    assert(b == 27 * q + 3 * r + 9 * p2 + m2);
    assert(a / 27 == q);
    assert(b / 27 == q);
    assert(a % 9 == 3 * r + m1);
    assert(b % 9 == 3 * r + m2);
    assert((a % 9) / 3 == r);
    assert((b % 9) / 3 == r);
}

/// Two distinct cells of one unit are peers.
pub proof fn lemma_unit_peers(kind: int, u: int, k1: int, k2: int)
    requires
        0 <= kind < 3,
        0 <= u < 9,
        0 <= k1 < 9,
        0 <= k2 < 9,
        k1 != k2,
    ensures
        are_peers(unit_cell(kind, u, k1), unit_cell(kind, u, k2)),
{
    if kind == 0 {
        assert((u * 9 + k1) / 9 == u);
        assert((u * 9 + k2) / 9 == u);
    } else if kind == 1 {
        assert((k1 * 9 + u) % 9 == u);
        assert((k2 * 9 + u) % 9 == u);
    } else {
        lemma_box_peers(u, k1, k2);
    }
}

/// In a solution, every row, every column and every 3x3 box holds each value from 1
/// to 9 exactly once.
pub proof fn lemma_solution_units(s: Seq<Variable>, kind: int, u: int, v: int)
    requires
        is_solution(s),
        0 <= kind < 3,
        0 <= u < 9,
        1 <= v <= 9,
    ensures
        exists|k: int| 0 <= k < 9 && value_at(s, #[trigger] unit_cell(kind, u, k)) == v,
        forall|k1: int, k2: int|
            0 <= k1 < 9 && 0 <= k2 < 9 && value_at(s, #[trigger] unit_cell(kind, u, k1)) == v
                && value_at(s, #[trigger] unit_cell(kind, u, k2)) == v ==> k1 == k2,
{
    assert forall|k1: int, k2: int|
        0 <= k1 < 9 && 0 <= k2 < 9 && value_at(s, #[trigger] unit_cell(kind, u, k1)) == v
            && value_at(s, #[trigger] unit_cell(kind, u, k2)) == v implies k1 == k2 by {
        if k1 != k2 {
            lemma_unit_peers(kind, u, k1, k2);
            let a = unit_cell(kind, u, k1);
            let b = unit_cell(kind, u, k2);
            assert(s[a] is Assigned && s[b] is Assigned);
        }
    }
    let vals = Seq::new(9, |k: int| value_at(s, unit_cell(kind, u, k)));
    if !exists|k: int| 0 <= k < 9 && value_at(s, #[trigger] unit_cell(kind, u, k)) == v {
        assert(vals.no_duplicates()) by {
            assert forall|k1: int, k2: int|
                0 <= k1 < vals.len() && 0 <= k2 < vals.len() && k1 != k2 implies vals[k1]
                != vals[k2] by {
                lemma_unit_peers(kind, u, k1, k2);
                let a = unit_cell(kind, u, k1);
                let b = unit_cell(kind, u, k2);
                assert(s[a] is Assigned && s[b] is Assigned);
            }
        }
        vals.unique_seq_to_set();
        lemma_int_range(1, 10);
        let others = set_int_range(1, 10).remove(v);
        assert(vals.to_set().subset_of(others)) by {
            assert forall|w: int| vals.to_set().contains(w) implies others.contains(w) by {
                let k = choose|k: int| 0 <= k < vals.len() && vals[k] == w;
                lemma_unit_peers(kind, u, k, (k + 1) % 9);
                assert(cell_ok(s[unit_cell(kind, u, k)]));
            }
        }
        lemma_len_subset(vals.to_set(), others);
    }
}

} // verus!
