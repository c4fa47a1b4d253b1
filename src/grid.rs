use vstd::prelude::*;

verus! {

/// The candidate values of an undecided cell, as a bit set: bit `v` stands for value `v`.
/// Only bits 1 to 9 carry meaning.
#[derive(Clone, Copy, Debug)]
pub struct Domain {
    pub bits: u16,
}

/// The state of one cell: decided, or still open with a set of candidates.
#[derive(Clone, Copy, Debug)]
pub enum Variable {
    Assigned(u8),
    Unassigned(Domain),
}

/// A grid: 81 cell states in row-major order.
pub type Assignment = Vec<Variable>;

/// The errors of the engine.
#[derive(Clone, Copy, Debug, PartialEq, Eq, Structural)]
pub enum SudokuError {
    /// The input is not 81 digit tokens.
    MalformedInput,
    /// Propagation forced two constrained cells to one value, or emptied a domain.
    Inconsistent,
    /// Every candidate of the search was ruled out: the puzzle has no solution.
    SearchExhausted,
}

/// A domain that holds every value from 1 to 9.
pub const FULL_DOMAIN_BITS: u16 = 0x3fe;

impl Domain {
    /// Whether `v` is a candidate.
    pub open spec fn has(self, v: int) -> bool {
        1 <= v <= 9 && self.bits & (1u16 << (v as u16)) != 0
    }

    /// How many of the values below `k` (from 1 on) are candidates.
    pub open spec fn count_below(self, k: int) -> nat
        decreases k,
    {
        if k <= 1 {
            0
        } else {
            self.count_below(k - 1) + if self.has(k - 1) {
                1nat
            } else {
                0nat
            }
        }
    }

    /// The number of candidates.
    pub open spec fn size(self) -> nat {
        self.count_below(10)
    }

    /// The domain with `v` removed.
    pub open spec fn remove_spec(self, v: u8) -> Domain {
        Domain { bits: self.bits & !(1u16 << (v as u16)) }
    }

    /// The smallest candidate from `v` on, if any.
    pub open spec fn first_from(self, v: int) -> Option<u8>
        decreases 10 - v,
    {
        if v >= 10 {
            None
        } else if self.has(v) {
            Some(v as u8)
        } else {
            self.first_from(v + 1)
        }
    }

    /// The domain of a blank cell: every value from 1 to 9.
    pub fn full() -> (r: Domain)
        ensures
            forall|v: int| #[trigger] r.has(v) <==> 1 <= v <= 9,
    {
        let r = Domain { bits: FULL_DOMAIN_BITS };
        assert(forall|w: u16| 1 <= w <= 9 ==> #[trigger] (0x3feu16 & (1u16 << w)) != 0)
            by (bit_vector);
        r
    }

    /// Whether `v` is a candidate.
    pub fn contains(&self, v: u8) -> (r: bool)
        requires
            1 <= v <= 9,
        ensures
            r == self.has(v as int),
    {
        self.bits & (1u16 << (v as u16)) != 0
    }

    /// The domain with `v` removed.
    pub fn without(&self, v: u8) -> (r: Domain)
        requires
            1 <= v <= 9,
        ensures
            r == self.remove_spec(v),
            forall|w: int| #[trigger] r.has(w) == (self.has(w) && w != v),
    {
        let vv = v as u16;
        let r = Domain { bits: self.bits & !(1u16 << vv) };
        let b = self.bits;
        assert(forall|w: u16|
            w < 16 ==> (#[trigger] ((b & !(1u16 << vv)) & (1u16 << w)) != 0) == ((b & (1u16
                << w)) != 0 && w != vv)) by (bit_vector)
            requires
                vv < 16,
        ;
        assert forall|w: int| #[trigger] r.has(w) == (self.has(w) && w != v) by {
            if 1 <= w <= 9 {
                let wu = w as u16;
                assert(((b & !(1u16 << vv)) & (1u16 << wu)) != 0 == ((b & (1u16 << wu)) != 0
                    && wu != vv));
            }
        }
        r
    }

    /// The number of candidates.
    pub fn len(&self) -> (r: u8)
        ensures
            r as nat == self.size(),
    {
        let mut n: u8 = 0;
        let mut v: u8 = 1;
        while v < 10
            invariant
                1 <= v <= 10,
                n < v,
                n as nat == self.count_below(v as int),
            decreases 10 - v,
        {
            if self.contains(v) {
                n = n + 1;
            }
            v = v + 1;
        }
        n
    }

    /// The smallest candidate, if any.
    pub fn smallest(&self) -> (r: Option<u8>)
        ensures
            r == self.first_from(1),
            r is None ==> forall|w: int| !(#[trigger] self.has(w)),
            r matches Some(u) ==> self.has(u as int) && forall|w: int|
                #[trigger] self.has(w) ==> u <= w,
    {
        let mut v: u8 = 1;
        while v < 10
            invariant
                1 <= v <= 10,
                forall|w: int| w < v ==> !(#[trigger] self.has(w)),
                self.first_from(1) == self.first_from(v as int),
            decreases 10 - v,
        {
            if self.contains(v) {
                return Some(v);
            }
            v = v + 1;
        }
        None
    }
}

/// A candidate below `k` makes the count below `k` at least one.
pub proof fn lemma_count_below_bounds(d: Domain, a: int, k: int)
    requires
        d.has(a),
        a < k,
    ensures
        d.count_below(k) >= 1,
    decreases k,
{
    if k - 1 != a {
        lemma_count_below_bounds(d, a, k - 1);
    }
}

/// Two distinct candidates below `k` make the count below `k` at least two.
pub proof fn lemma_count_below_two(d: Domain, a: int, b: int, k: int)
    requires
        d.has(a),
        d.has(b),
        a < b < k,
    ensures
        d.count_below(k) >= 2,
    decreases k,
{
    if k - 1 != b {
        lemma_count_below_two(d, a, b, k - 1);
    } else {
        lemma_count_below_bounds(d, a, k - 1);
    }
}

/// A domain of size zero has no candidate; one of size one has exactly one.
pub proof fn lemma_size(d: Domain)
    ensures
        d.size() == 0 ==> forall|w: int| !(#[trigger] d.has(w)),
        d.size() == 1 ==> forall|a: int, b: int| d.has(a) && d.has(b) ==> a == b,
{
    assert forall|w: int| d.size() == 0 implies !(#[trigger] d.has(w)) by {
        if d.has(w) {
            lemma_count_below_bounds(d, w, 10);
        }
    }
    assert forall|a: int, b: int| d.size() == 1 && d.has(a) && d.has(b) implies a == b by {
        if a < b {
            lemma_count_below_two(d, a, b, 10);
        } else if b < a {
            lemma_count_below_two(d, b, a, 10);
        }
    }
}

/// Whether cell state `c` leaves value `v` possible.
pub open spec fn allows(c: Variable, v: int) -> bool {
    match c {
        Variable::Assigned(w) => w as int == v,
        Variable::Unassigned(d) => d.has(v),
    }
}

/// Whether a cell state is well formed: a decided value lies in 1 to 9.
pub open spec fn cell_ok(c: Variable) -> bool {
    match c {
        Variable::Assigned(w) => 1 <= w <= 9,
        Variable::Unassigned(_) => true,
    }
}

/// A well-formed grid: 81 well-formed cells.
pub open spec fn grid_ok(g: Seq<Variable>) -> bool {
    &&& g.len() == 81
    &&& forall|i: int| 0 <= i < 81 ==> cell_ok(#[trigger] g[i])
}

/// The row of cell `i`.
pub open spec fn row_of(i: int) -> int {
    i / 9
}

/// The column of cell `i`.
pub open spec fn col_of(i: int) -> int {
    i % 9
}

/// Whether cells `i` and `j` lie in one 3x3 box.
pub open spec fn same_box(i: int, j: int) -> bool {
    i / 27 == j / 27 && (i % 9) / 3 == (j % 9) / 3
}

/// Whether two distinct cells share a row, a column or a box, and so must differ.
pub open spec fn are_peers(i: int, j: int) -> bool {
    &&& 0 <= i < 81
    &&& 0 <= j < 81
    &&& i != j
    &&& (row_of(i) == row_of(j) || col_of(i) == col_of(j) || same_box(i, j))
}

/// Whether every cell is decided.
pub open spec fn complete(g: Seq<Variable>) -> bool {
    forall|i: int| 0 <= i < g.len() ==> (#[trigger] g[i]) is Assigned
}

/// Whether no two decided peers hold one value.
pub open spec fn consistent(g: Seq<Variable>) -> bool {
    forall|i: int, j: int|
        #![trigger g[i], g[j]]
        are_peers(i, j) && g[i] is Assigned && g[j] is Assigned ==> g[i]->Assigned_0
            != g[j]->Assigned_0
}

/// A solved grid: well formed, every cell decided, no two peers equal.
pub open spec fn is_solution(s: Seq<Variable>) -> bool {
    grid_ok(s) && complete(s) && consistent(s)
}

/// Whether solution `s` is a completion of `g`: each of its values is allowed by `g`.
pub open spec fn extends(s: Seq<Variable>, g: Seq<Variable>) -> bool {
    forall|i: int| 0 <= i < 81 ==> allows(#[trigger] g[i], s[i]->Assigned_0 as int)
}

/// Whether `g2` is `g1` with some cells narrowed: decided cells are kept, and an open
/// cell either keeps a subset of its candidates or is decided to one of them.
pub open spec fn refines(g2: Seq<Variable>, g1: Seq<Variable>) -> bool {
    &&& g2.len() == g1.len()
    &&& forall|i: int|
        #![trigger g2[i]]
        0 <= i < g1.len() ==> {
            &&& (g1[i] is Assigned ==> g2[i] == g1[i])
            &&& forall|v: int| #[trigger] allows(g2[i], v) ==> allows(g1[i], v)
        }
}

/// The number of open cells.
pub open spec fn open_count(g: Seq<Variable>) -> nat
    decreases g.len(),
{
    if g.len() == 0 {
        0
    } else {
        open_count(g.drop_last()) + if g.last() is Unassigned {
            1nat
        } else {
            0nat
        }
    }
}

/// Replacing one cell changes the number of open cells by what that cell contributed.
pub proof fn lemma_open_count_update(g: Seq<Variable>, i: int, c: Variable)
    requires
        0 <= i < g.len(),
    ensures
        open_count(g.update(i, c)) + (if g[i] is Unassigned {
            1int
        } else {
            0int
        }) == open_count(g) + (if c is Unassigned {
            1int
        } else {
            0int
        }),
    decreases g.len(),
{
    let h = g.update(i, c);
    if i == g.len() - 1 {
        assert(h.drop_last() =~= g.drop_last());
    } else {
        assert(h.drop_last() =~= g.drop_last().update(i, c));
        lemma_open_count_update(g.drop_last(), i, c);
    }
}

/// Narrowing a grid never opens a cell, so the number of open cells does not grow.
pub proof fn lemma_open_count_refines(g2: Seq<Variable>, g1: Seq<Variable>)
    requires
        refines(g2, g1),
    ensures
        open_count(g2) <= open_count(g1),
    decreases g1.len(),
{
    if g1.len() > 0 {
        let n = g1.len() - 1;
        assert(g2[n] == g2.last());
        assert(refines(g2.drop_last(), g1.drop_last())) by {
            assert forall|i: int| 0 <= i < n implies #[trigger] g2.drop_last()[i] == g2[i] by {}
        }
        lemma_open_count_refines(g2.drop_last(), g1.drop_last());
    }
}

/// The peers of cell `x` below `n`, in increasing order.
pub open spec fn peers_below(x: int, n: int) -> Seq<usize>
    decreases n,
{
    if n <= 0 {
        Seq::empty()
    } else if are_peers(x, n - 1) {
        peers_below(x, n - 1).push((n - 1) as usize)
    } else {
        peers_below(x, n - 1)
    }
}

/// The cells that must differ from cell `x`: the others of its row, column and box,
/// in increasing order.
pub fn generate_constraints(x: usize) -> (r: Vec<usize>)
    requires
        x < 81,
    ensures
        r@ == peers_below(x as int, 81),
        forall|k: int| 0 <= k < r.len() ==> are_peers(x as int, #[trigger] r[k] as int),
        forall|y: int| #[trigger] are_peers(x as int, y) ==> exists|k: int|
            0 <= k < r.len() && r[k] == y,
        forall|a: int, b: int| 0 <= a < b < r.len() ==> r[a] < r[b],
{
    let mut r: Vec<usize> = Vec::with_capacity(20);
    let mut y: usize = 0;
    while y < 81
        invariant
            y <= 81,
            x < 81,
            r@ == peers_below(x as int, y as int),
            forall|k: int| 0 <= k < r.len() ==> are_peers(x as int, #[trigger] r[k] as int),
            forall|k: int| 0 <= k < r.len() ==> #[trigger] r[k] < y,
            forall|z: int|
                #[trigger] are_peers(x as int, z) && z < y ==> exists|k: int|
                    0 <= k < r.len() && r[k] == z,
            forall|a: int, b: int| 0 <= a < b < r.len() ==> r[a] < r[b],
        decreases 81 - y,
    {
        let peer = x != y && (x / 9 == y / 9 || x % 9 == y % 9 || (x / 27 == y / 27 && (x % 9)
            / 3 == (y % 9) / 3));
        let ghost prev = r@;
        if peer {
            r.push(y);
        }
        proof {
            assert forall|z: int| #[trigger] are_peers(x as int, z) && z < y + 1 implies exists|
                k: int,
            | 0 <= k < r.len() && r[k] == z by {
                if z == y {
                    assert(r[r.len() - 1] == z);
                } else {
                    let k = choose|k: int| 0 <= k < prev.len() && prev[k] == z;
                    assert(r[k] == z);
                }
            }
        }
        y = y + 1;
    }
    r
}

/// The decided cells below `n` with their values, in index order.
pub open spec fn assigned_below(g: Seq<Variable>, n: int) -> Seq<(usize, u8)>
    decreases n,
{
    if n <= 0 {
        Seq::empty()
    } else if let Variable::Assigned(v) = g[n - 1] {
        assigned_below(g, n - 1).push(((n - 1) as usize, v))
    } else {
        assigned_below(g, n - 1)
    }
}

/// The decided cells with their values, in index order.
pub fn assigned_variables(assignment: &Assignment) -> (r: Vec<(usize, u8)>)
    requires
        assignment.len() == 81,
    ensures
        r@ == assigned_below(assignment@, 81),
        forall|k: int|
            0 <= k < r.len() ==> #[trigger] r[k].0 < 81 && assignment[r[k].0 as int]
                == Variable::Assigned(r[k].1),
        forall|i: int|
            0 <= i < 81 && (#[trigger] assignment[i]) is Assigned ==> exists|k: int|
                0 <= k < r.len() && r[k].0 == i,
        forall|a: int, b: int| 0 <= a < b < r.len() ==> r[a].0 < r[b].0,
{
    let mut r: Vec<(usize, u8)> = Vec::new();
    let mut i: usize = 0;
    while i < 81
        invariant
            i <= 81,
            assignment.len() == 81,
            r@ == assigned_below(assignment@, i as int),
            forall|k: int|
                0 <= k < r.len() ==> #[trigger] r[k].0 < i && assignment[r[k].0 as int]
                    == Variable::Assigned(r[k].1),
            forall|j: int|
                0 <= j < i && (#[trigger] assignment[j]) is Assigned ==> exists|k: int|
                    0 <= k < r.len() && r[k].0 == j,
            forall|a: int, b: int| 0 <= a < b < r.len() ==> r[a].0 < r[b].0,
        decreases 81 - i,
    {
        let ghost prev = r@;
        match assignment[i] {
            Variable::Assigned(v) => {
                r.push((i, v));
            },
            Variable::Unassigned(_) => {},
        }
        proof {
            assert forall|j: int|
                0 <= j < i + 1 && (#[trigger] assignment[j]) is Assigned implies exists|k: int|
                0 <= k < r.len() && r[k].0 == j by {
                if j == i {
                    assert(r[r.len() - 1].0 == j);
                } else {
                    let k = choose|k: int| 0 <= k < prev.len() && prev[k].0 == j;
                    assert(r[k].0 == j);
                }
            }
        }
        i = i + 1;
    }
    r
}

/// Among the cells below `n`, an open one with the fewest candidates, the lowest
/// index among equals.
pub open spec fn fewest_below(g: Seq<Variable>, n: int) -> Option<(usize, Domain)>
    decreases n,
{
    if n <= 0 {
        None
    } else {
        let prev = fewest_below(g, n - 1);
        match g[n - 1] {
            Variable::Assigned(_) => prev,
            Variable::Unassigned(d) => match prev {
                None => Some(((n - 1) as usize, d)),
                Some((_, b)) => if d.size() < b.size() {
                    Some(((n - 1) as usize, d))
                } else {
                    prev
                },
            },
        }
    }
}

/// An open cell with the fewest candidates, the lowest index among equals, or `None`
/// when every cell is decided.
pub fn unassigned_variable(assignment: &Assignment) -> (r: Option<(usize, Domain)>)
    requires
        assignment.len() == 81,
    ensures
        r == fewest_below(assignment@, 81),
        r is None <==> complete(assignment@),
        r matches Some((x, d)) ==> {
            &&& x < 81
            &&& assignment[x as int] == Variable::Unassigned(d)
            &&& forall|i: int|
                0 <= i < 81 && (#[trigger] assignment[i]) is Unassigned ==> d.size()
                    <= assignment[i]->Unassigned_0.size()
            &&& forall|i: int|
                0 <= i < x && (#[trigger] assignment[i]) is Unassigned ==> d.size()
                    < assignment[i]->Unassigned_0.size()
        },
{
    let mut best: Option<(usize, Domain)> = None;
    let mut best_len: u8 = 0;
    let mut i: usize = 0;
    while i < 81
        invariant
            i <= 81,
            assignment.len() == 81,
            best == fewest_below(assignment@, i as int),
            best is None ==> forall|j: int| 0 <= j < i ==> (#[trigger] assignment[j]) is Assigned,
            best matches Some((x, d)) ==> {
                &&& x < i
                &&& assignment[x as int] == Variable::Unassigned(d)
                &&& best_len as nat == d.size()
                &&& forall|j: int|
                    0 <= j < i && (#[trigger] assignment[j]) is Unassigned ==> d.size()
                        <= assignment[j]->Unassigned_0.size()
                &&& forall|j: int|
                    0 <= j < x && (#[trigger] assignment[j]) is Unassigned ==> d.size()
                        < assignment[j]->Unassigned_0.size()
            },
        decreases 81 - i,
    {
        match assignment[i] {
            Variable::Assigned(_) => {},
            Variable::Unassigned(d) => {
                let n = d.len();
                if best.is_none() || n < best_len {
                    best = Some((i, d));
                    best_len = n;
                }
            },
        }
        i = i + 1;
    }
    best
}

} // verus!
