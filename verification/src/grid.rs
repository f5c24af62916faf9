//! The grid as mathematics: cells, neighbours, paths and connected components.
//!
//! A cell is a pair of a 0-based column index and a 0-based row index.

use vstd::prelude::*;

verus! {

/// Whether the pair names a cell of the 8 x 6 grid.
pub open spec fn in_grid(p: (int, int)) -> bool {
    0 <= p.0 < 8 && 0 <= p.1 < 6
}

/// Whether two cells of the grid share an edge.
pub open spec fn adjacent(a: (int, int), b: (int, int)) -> bool {
    &&& in_grid(a)
    &&& in_grid(b)
    &&& (a.0 == b.0 && (a.1 - b.1 == 1 || b.1 - a.1 == 1)) || (a.1 == b.1 && (a.0 - b.0 == 1 || b.0
        - a.0 == 1))
}

/// Whether `p` is a walk inside `s`: it is not empty, every cell of it lies in `s`, and
/// each cell shares an edge with the next.
pub open spec fn is_path(s: Set<(int, int)>, p: Seq<(int, int)>) -> bool {
    &&& p.len() > 0
    &&& forall|i: int| 0 <= i < p.len() ==> s.contains(#[trigger] p[i])
    &&& forall|i: int| 0 <= i < p.len() - 1 ==> adjacent(#[trigger] p[i], p[i + 1])
}

/// Whether a walk inside `s` leads from `a` to `b`.
pub open spec fn connected(s: Set<(int, int)>, a: (int, int), b: (int, int)) -> bool {
    exists|p: Seq<(int, int)>| is_path(s, p) && #[trigger] p[0] == a && p.last() == b
}

/// The cells that a walk inside `s` reaches from `a`.
pub open spec fn component(s: Set<(int, int)>, a: (int, int)) -> Set<(int, int)> {
    Set::new(|b: (int, int)| connected(s, a, b))
}

/// 1 if `p` lies in `s`, else 0.
pub open spec fn indicator(s: Set<(int, int)>, p: (int, int)) -> int {
    if s.contains(p) {
        1
    } else {
        0
    }
}

/// The number of cells of column `c` that lie in `s`.
pub open spec fn col_count(s: Set<(int, int)>, c: int) -> int {
    indicator(s, (c, 0)) + indicator(s, (c, 1)) + indicator(s, (c, 2)) + indicator(s, (c, 3))
        + indicator(s, (c, 4)) + indicator(s, (c, 5))
}

/// The number of cells of the grid that lie in `s`.
#[verifier::opaque]
pub open spec fn cell_count(s: Set<(int, int)>) -> int {
    col_count(s, 0) + col_count(s, 1) + col_count(s, 2) + col_count(s, 3) + col_count(s, 4)
        + col_count(s, 5) + col_count(s, 6) + col_count(s, 7)
}

/// Whether every cell of the grid that lies in `s` lies in `t`.
pub open spec fn grid_subset(s: Set<(int, int)>, t: Set<(int, int)>) -> bool {
    forall|c: int, r: int| 0 <= c < 8 && 0 <= r < 6 && s.contains((c, r)) ==> t.contains((c, r))
}

/// A cell of `s` is connected to itself.
pub proof fn lemma_connected_refl(s: Set<(int, int)>, a: (int, int))
    requires
        s.contains(a),
    ensures
        connected(s, a, a),
{
    let p = seq![a];
    assert(p[0] == a);
    assert(is_path(s, p));
    assert(p.last() == a);
}

/// A walk can be carried on by one step to a neighbour that lies in `s`.
pub proof fn lemma_connected_step(s: Set<(int, int)>, a: (int, int), b: (int, int), c: (int, int))
    requires
        connected(s, a, b),
        adjacent(b, c),
        s.contains(c),
    ensures
        connected(s, a, c),
{
    let p = choose|p: Seq<(int, int)>| is_path(s, p) && #[trigger] p[0] == a && p.last() == b;
    let q = p.push(c);
    assert forall|i: int| 0 <= i < q.len() implies s.contains(#[trigger] q[i]) by {
        if i < p.len() {
            assert(q[i] == p[i]);
        }
    }
    assert forall|i: int| 0 <= i < q.len() - 1 implies adjacent(#[trigger] q[i], q[i + 1]) by {
        if i < p.len() - 1 {
            assert(q[i] == p[i]);
            assert(q[i + 1] == p[i + 1]);
        } else {
            assert(q[i] == p.last());
            assert(q[i + 1] == c);
        }
    }
    assert(q[0] == a);
    assert(q.last() == c);
    assert(is_path(s, q));
}

/// The cells that a walk visits lie in `s`, and so do its two ends.
pub proof fn lemma_connected_in(s: Set<(int, int)>, a: (int, int), b: (int, int))
    requires
        connected(s, a, b),
    ensures
        s.contains(a),
        s.contains(b),
{
    let p = choose|p: Seq<(int, int)>| is_path(s, p) && #[trigger] p[0] == a && p.last() == b;
    assert(s.contains(p[0]));
    assert(s.contains(p[p.len() - 1]));
}

/// Connection runs both ways.
pub proof fn lemma_connected_sym(s: Set<(int, int)>, a: (int, int), b: (int, int))
    requires
        connected(s, a, b),
    ensures
        connected(s, b, a),
{
    let p = choose|p: Seq<(int, int)>| is_path(s, p) && #[trigger] p[0] == a && p.last() == b;
    let q = Seq::new(p.len(), |i: int| p[p.len() - 1 - i]);
    assert forall|i: int| 0 <= i < q.len() implies s.contains(#[trigger] q[i]) by {
        assert(s.contains(p[p.len() - 1 - i]));
    }
    assert forall|i: int| 0 <= i < q.len() - 1 implies adjacent(#[trigger] q[i], q[i + 1]) by {
        let j = p.len() - 2 - i;
        assert(adjacent(p[j], p[j + 1]));
    }
    assert(q[0] == b);
    assert(q.last() == a);
    assert(is_path(s, q));
}

/// Two walks that meet make one walk.
pub proof fn lemma_connected_trans(
    s: Set<(int, int)>,
    a: (int, int),
    b: (int, int),
    c: (int, int),
)
    requires
        connected(s, a, b),
        connected(s, b, c),
    ensures
        connected(s, a, c),
{
    let p = choose|p: Seq<(int, int)>| is_path(s, p) && #[trigger] p[0] == a && p.last() == b;
    let q = choose|q: Seq<(int, int)>| is_path(s, q) && #[trigger] q[0] == b && q.last() == c;
    lemma_walk_along(s, a, q, q.len() - 1);
}

/// From a cell connected to the start of a walk every cell of the walk is reached.
pub proof fn lemma_walk_along(s: Set<(int, int)>, a: (int, int), q: Seq<(int, int)>, i: int)
    requires
        is_path(s, q),
        connected(s, a, q[0]),
        0 <= i < q.len(),
    ensures
        connected(s, a, q[i]),
    decreases i,
{
    if i > 0 {
        lemma_walk_along(s, a, q, i - 1);
        assert(adjacent(q[i - 1], q[i - 1 + 1]));
        assert(s.contains(q[i]));
        lemma_connected_step(s, a, q[i - 1], q[i]);
    }
}

/// A walk inside a smaller set is a walk inside a larger one.
pub proof fn lemma_connected_mono(
    s: Set<(int, int)>,
    t: Set<(int, int)>,
    a: (int, int),
    b: (int, int),
)
    requires
        connected(s, a, b),
        forall|p: (int, int)| s.contains(p) ==> t.contains(p),
    ensures
        connected(t, a, b),
{
    let p = choose|p: Seq<(int, int)>| is_path(s, p) && #[trigger] p[0] == a && p.last() == b;
    assert(is_path(t, p));
}

/// Whether `t` holds, with each of its cells, the neighbours of that cell that lie in `s`.
pub open spec fn closed_in(s: Set<(int, int)>, t: Set<(int, int)>) -> bool {
    forall|b: (int, int), c: (int, int)|
        t.contains(b) && #[trigger] adjacent(b, c) && s.contains(c) ==> t.contains(c)
}

/// A set that is closed under stepping to neighbours in `s` holds every cell of a walk
/// that starts in it.
pub proof fn lemma_walk_stays(s: Set<(int, int)>, t: Set<(int, int)>, p: Seq<(int, int)>, i: int)
    requires
        is_path(s, p),
        t.contains(p[0]),
        closed_in(s, t),
        0 <= i < p.len(),
    ensures
        t.contains(p[i]),
    decreases i,
{
    if i > 0 {
        lemma_walk_stays(s, t, p, i - 1);
        assert(adjacent(p[i - 1], p[i - 1 + 1]));
        assert(s.contains(p[i]));
    }
}

/// A set that holds `a`, lies within the component of `a` and is closed under stepping
/// to neighbours in `s` is the component of `a`.
pub proof fn lemma_component_is(s: Set<(int, int)>, t: Set<(int, int)>, a: (int, int))
    requires
        t.contains(a),
        closed_in(s, t),
        forall|b: (int, int)| t.contains(b) ==> connected(s, a, b),
    ensures
        t == component(s, a),
{
    assert forall|b: (int, int)| component(s, a).contains(b) implies t.contains(b) by {
        let p = choose|p: Seq<(int, int)>| is_path(s, p) && #[trigger] p[0] == a && p.last() == b;
        lemma_walk_stays(s, t, p, p.len() - 1);
    }
    assert(t =~= component(s, a));
}

/// A set that lies within another has no more cells, and fewer if a cell of the grid
/// is missing from it.
pub proof fn lemma_count_subset(s: Set<(int, int)>, t: Set<(int, int)>)
    requires
        grid_subset(s, t),
    ensures
        cell_count(s) <= cell_count(t),
        forall|c: int, r: int|
            0 <= c < 8 && 0 <= r < 6 && t.contains((c, r)) && !s.contains((c, r)) ==> cell_count(s)
                < cell_count(t),
{
    reveal(cell_count);
    assert forall|c: int| 0 <= c < 8 implies col_count(s, c) <= #[trigger] col_count(t, c) by {
        assert(forall|r: int| 0 <= r < 6 ==> indicator(s, (c, r)) <= indicator(t, (c, r)));
    }
    assert forall|c: int, r: int|
        0 <= c < 8 && 0 <= r < 6 && t.contains((c, r)) && !s.contains((c, r)) implies cell_count(s)
        < cell_count(t) by {
        assert(forall|q: int| 0 <= q < 6 ==> indicator(s, (c, q)) <= indicator(t, (c, q)));
        assert(indicator(s, (c, r)) < indicator(t, (c, r)));
        assert(col_count(s, c) < col_count(t, c));
    }
}

/// No set has more than 48 cells of the grid.
pub proof fn lemma_count_range(s: Set<(int, int)>)
    ensures
        0 <= cell_count(s) <= 48,
{
    reveal(cell_count);
}

/// A set that holds no cell of the grid has no cells to count, and a set with no cells
/// to count holds no cell of the grid.
pub proof fn lemma_count_zero(s: Set<(int, int)>)
    ensures
        cell_count(s) == 0 <==> forall|c: int, r: int|
            0 <= c < 8 && 0 <= r < 6 ==> !#[trigger] s.contains((c, r)),
{
    reveal(cell_count);
    if cell_count(s) == 0 {
        assert forall|c: int, r: int| 0 <= c < 8 && 0 <= r < 6 implies !#[trigger] s.contains(
            (c, r),
        ) by {
            assert(indicator(s, (c, r)) >= 0);
            assert(forall|k: int| 0 <= k < 8 ==> #[trigger] col_count(s, k) >= 0);
            if s.contains((c, r)) {
                assert(indicator(s, (c, r)) == 1);
                assert(col_count(s, c) >= 1);
            }
        }
    }
}

/// One more cell of the grid is at most one more cell to count.
pub proof fn lemma_count_insert(s: Set<(int, int)>, a: (int, int))
    ensures
        cell_count(s.insert(a)) <= cell_count(s) + 1,
{
    reveal(cell_count);
    let t = s.insert(a);
    assert forall|c: int| 0 <= c < 8 && c != a.0 implies #[trigger] col_count(t, c) == col_count(
        s,
        c,
    ) by {}
    if 0 <= a.0 < 8 {
        assert(forall|r: int| 0 <= r < 6 && r != a.1 ==> indicator(t, (a.0, r)) == indicator(s, (a.0, r)));
        assert(col_count(t, a.0) <= col_count(s, a.0) + 1);
    }
}

/// The number of cells of the columns below column `n` that lie in `s`.
pub open spec fn count_below(s: Set<(int, int)>, n: int) -> int
    decreases n,
{
    if n <= 0 {
        0
    } else {
        count_below(s, n - 1) + col_count(s, n - 1)
    }
}

/// The cells of all eight columns are the cells of the grid.
pub proof fn lemma_count_below_all(s: Set<(int, int)>)
    ensures
        count_below(s, 8) == cell_count(s),
{
    reveal(cell_count);
    reveal_with_fuel(count_below, 9);
}

/// The place of a cell in the order of the squares: column by column, bottom up.
pub open spec fn cell_index(p: (int, int)) -> int {
    6 * p.0 + p.1
}

/// Whether `a` is the first cell of `s` in the order of the squares.
pub open spec fn is_least(s: Set<(int, int)>, a: (int, int)) -> bool {
    s.contains(a) && forall|p: (int, int)| s.contains(p) && in_grid(p) ==> cell_index(a) <= cell_index(p)
}

/// The component of a cell holds the cell and is the component of each of its cells.
pub proof fn lemma_component_same(s: Set<(int, int)>, a: (int, int), b: (int, int))
    requires
        connected(s, a, b),
    ensures
        component(s, a) == component(s, b),
{
    lemma_connected_sym(s, a, b);
    assert forall|p: (int, int)| component(s, a).contains(p) == component(s, b).contains(p) by {
        if connected(s, a, p) {
            lemma_connected_trans(s, b, a, p);
        }
        if connected(s, b, p) {
            lemma_connected_trans(s, a, b, p);
        }
    }
    assert(component(s, a) =~= component(s, b));
}

/// Inside a part of `s` that is closed under stepping to neighbours in `s`, the
/// component of a cell is its component in `s`.
pub proof fn lemma_component_in_closed(s: Set<(int, int)>, t: Set<(int, int)>, a: (int, int))
    requires
        t.contains(a),
        closed_in(s, t),
        forall|p: (int, int)| t.contains(p) ==> s.contains(p),
    ensures
        component(t, a) == component(s, a),
{
    assert forall|b: (int, int)| component(s, a).contains(b) implies component(t, a).contains(
        b,
    ) by {
        let p = choose|p: Seq<(int, int)>| is_path(s, p) && #[trigger] p[0] == a && p.last() == b;
        assert forall|i: int| 0 <= i < p.len() implies t.contains(#[trigger] p[i]) by {
            lemma_walk_stays(s, t, p, i);
        }
        assert(is_path(t, p));
    }
    assert forall|b: (int, int)| component(t, a).contains(b) implies component(s, a).contains(
        b,
    ) by {
        lemma_connected_mono(t, s, a, b);
    }
    assert(component(t, a) =~= component(s, a));
}

/// What is left of a closed part of `s` when a whole component of it is taken out is
/// closed again.
pub proof fn lemma_closed_minus_component(s: Set<(int, int)>, t: Set<(int, int)>, a: (int, int))
    requires
        closed_in(s, t),
        forall|p: (int, int)| t.contains(p) ==> s.contains(p),
    ensures
        closed_in(s, t.difference(component(t, a))),
{
    let u = t.difference(component(t, a));
    assert forall|b: (int, int), c: (int, int)|
        u.contains(b) && #[trigger] adjacent(b, c) && s.contains(c) implies u.contains(c) by {
        assert(t.contains(c));
        if connected(t, a, c) {
            assert(adjacent(c, b));
            lemma_connected_step(t, a, c, b);
        }
    }
}

/// Whether `s` holds two cells that share an edge.
pub open spec fn pair_in(s: Set<(int, int)>) -> bool {
    exists|a: (int, int), b: (int, int)| #[trigger] adjacent(a, b) && s.contains(a) && s.contains(b)
}

/// Whether `s` holds two cells of column `k` one above the other.
pub open spec fn pair_above(s: Set<(int, int)>, k: int) -> bool {
    exists|r: int| 0 <= r < 5 && s.contains((k, r)) && #[trigger] s.contains((k, r + 1))
}

/// Whether `s` holds a cell of column `k` and the cell to the left of it.
pub open spec fn pair_beside(s: Set<(int, int)>, k: int) -> bool {
    exists|r: int| 0 <= r < 6 && #[trigger] s.contains((k, r)) && s.contains((k - 1, r))
}

/// A set with no two cells one above the other and no two cells side by side holds no
/// two cells that share an edge.
pub proof fn lemma_no_pair(s: Set<(int, int)>)
    requires
        forall|k: int| 0 <= k < 8 ==> !pair_above(s, k),
        forall|k: int| 1 <= k < 8 ==> !pair_beside(s, k),
    ensures
        !pair_in(s),
{
    if pair_in(s) {
        let (a, b) = choose|a: (int, int), b: (int, int)|
            #[trigger] adjacent(a, b) && s.contains(a) && s.contains(b);
        if a.0 == b.0 {
            let r = if a.1 < b.1 {
                a.1
            } else {
                b.1
            };
            assert(s.contains((a.0, r)) && s.contains((a.0, r + 1)));
            assert(pair_above(s, a.0));
        } else {
            let k = if a.0 < b.0 {
                b.0
            } else {
                a.0
            };
            assert(s.contains((k, a.1)) && s.contains((k - 1, a.1)));
            assert(pair_beside(s, k));
        }
    }
}

} // verus!
