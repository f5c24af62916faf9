//! Games as mathematics: sequences of moves, what they score, and the bound on it.

use vstd::prelude::*;
use crate::action::{is_move_at, move_cells};
use crate::bitcol::lemma_fall_values;
use crate::counting::lemma_erase_kind;
use crate::grid::{
    adjacent, cell_count, component, connected, in_grid, is_path, lemma_connected_in,
    lemma_count_range, lemma_count_zero,
};
use crate::position::{gain_bound, kind_bound, no_lone_kind};
use crate::rules::{
    blank_col, cells_of, col_is_blank, compact, count_value, erase_grid, fallen, grid_shape,
    has_move, kept_cols, lemma_kept_cols_len, rows_in,
};
use crate::score::erase_score;

verus! {

/// Whether the grid has eight columns of six cells, each empty or one of the five kinds.
pub open spec fn cells_ok(g: Seq<Seq<int>>) -> bool {
    grid_shape(g) && forall|c: int, r: int| 0 <= c < 8 && 0 <= r < 6 ==> 0 <= #[trigger] g[c][r] <= 5
}

/// Whether the grid holds no piece.
pub open spec fn is_clear(g: Seq<Seq<int>>) -> bool {
    forall|c: int, r: int| 0 <= c < 8 && 0 <= r < 6 ==> #[trigger] g[c][r] == 0
}

/// What the end of the game adds to the score: the bonus if the board is clear.
pub open spec fn final_gain_of(g: Seq<Seq<int>>) -> int {
    if is_clear(g) {
        200
    } else {
        0
    }
}

/// The score of the move on the cell `a`.
pub open spec fn step_gain(g: Seq<Seq<int>>, a: (int, int)) -> int {
    erase_score(cell_count(move_cells(g, a)))
}

/// The grid after the move on the cell `a`.
pub open spec fn step_grid(g: Seq<Seq<int>>, a: (int, int)) -> Seq<Seq<int>> {
    erase_grid(g, move_cells(g, a))
}

/// What the game `h` scores from the grid `g` on: `h` names a cell for each move, each
/// move must be one that can be made, and after the last no move must be left. The
/// result is the sum of the scores of the moves and of the bonus, or `None` if `h` is
/// no such game.
pub open spec fn play_gain(g: Seq<Seq<int>>, h: Seq<(int, int)>) -> Option<int>
    decreases h.len(),
{
    if h.len() == 0 {
        if has_move(g) {
            None
        } else {
            Some(final_gain_of(g))
        }
    } else if !is_move_at(g, h[0]) {
        None
    } else {
        match play_gain(step_grid(g, h[0]), h.drop_first()) {
            None => None,
            Some(r) => Some(step_gain(g, h[0]) + r),
        }
    }
}

/// Where the moves of `h` lead from the grid `g` and what they score, or `None` if one
/// of them cannot be made. The game need not be over after them.
pub open spec fn follow(g: Seq<Seq<int>>, h: Seq<(int, int)>) -> Option<(Seq<Seq<int>>, int)>
    decreases h.len(),
{
    if h.len() == 0 {
        Some((g, 0int))
    } else {
        match follow(g, h.drop_last()) {
            None => None,
            Some((mid, s)) => if is_move_at(mid, h.last()) {
                Some((step_grid(mid, h.last()), s + step_gain(mid, h.last())))
            } else {
                None
            },
        }
    }
}

/// The grid to which the moves of `h` lead from the grid `g`.
pub open spec fn reached(g: Seq<Seq<int>>, h: Seq<(int, int)>) -> Seq<Seq<int>> {
    follow(g, h).unwrap().0
}

/// What the moves of `h` score from the grid `g` on.
pub open spec fn scored(g: Seq<Seq<int>>, h: Seq<(int, int)>) -> int {
    follow(g, h).unwrap().1
}

/// The cell of the square numbered `n`.
pub open spec fn cell_of_number(n: int) -> (int, int) {
    ((n - 1) / 6, (n - 1) % 6)
}

/// The cells of the squares numbered in `h`.
pub open spec fn cells_of_numbers(h: Seq<int>) -> Seq<(int, int)> {
    h.map_values(|n: int| cell_of_number(n))
}

/// Whether every game from the grid `g` on scores at most `s`.
pub open spec fn bounds_games(g: Seq<Seq<int>>, s: int) -> bool {
    forall|h: Seq<(int, int)>| #[trigger] play_gain(g, h) is Some ==> play_gain(g, h)->0 <= s
}

/// A move that can be made on a cell is made of cells of the kind of that cell, and
/// two of them share an edge.
pub proof fn lemma_move_cells(g: Seq<Seq<int>>, a: (int, int))
    requires
        is_move_at(g, a),
    ensures
        forall|b: (int, int)| move_cells(g, a).contains(b) ==> cells_of(g, g[a.0][a.1]).contains(b),
        has_move(g),
{
    let v = g[a.0][a.1];
    let s = cells_of(g, v);
    let m = move_cells(g, a);
    assert forall|b: (int, int)| m.contains(b) implies s.contains(b) by {
        lemma_connected_in(s, a, b);
    }
    // a second cell of the move
    if forall|c: int, r: int| 0 <= c < 8 && 0 <= r < 6 && (c, r) != a ==> !m.contains((c, r)) {
        lemma_count_zero(m.remove(a));
        crate::grid::lemma_count_insert(m.remove(a), a);
        assert(m.remove(a).insert(a) =~= m.insert(a));
        assert(cell_count(m.insert(a)) <= 1);
        if m.contains(a) {
            assert(m.insert(a) =~= m);
        } else {
            lemma_count_zero(m);
        }
        assert(false);
    }
    let (c, r) = choose|c: int, r: int| 0 <= c < 8 && 0 <= r < 6 && (c, r) != a && m.contains((c, r));
    let b = (c, r);
    let p = choose|p: Seq<(int, int)>| is_path(s, p) && #[trigger] p[0] == a && p.last() == b;
    assert(p.len() >= 2);
    assert(adjacent(p[0], p[0int + 1]));
    assert(s.contains(p[1]));
    assert(adjacent(a, p[1]) && g[a.0][a.1] != 0 && g[a.0][a.1] == g[p[1].0][p[1].1]);
}

/// Where no move is left, the only game is the game of no move.
pub proof fn lemma_over(g: Seq<Seq<int>>, h: Seq<(int, int)>)
    requires
        !has_move(g),
    ensures
        play_gain(g, h) is Some <==> h.len() == 0,
        h.len() == 0 ==> play_gain(g, h) == Some(final_gain_of(g)),
{
    if h.len() > 0 && is_move_at(g, h[0]) {
        lemma_move_cells(g, h[0]);
    }
}

/// An erasure leaves a grid of eight columns of six cells, each empty or one of the
/// five kinds.
pub proof fn lemma_erase_cells_ok(g: Seq<Seq<int>>, m: Set<(int, int)>)
    requires
        cells_ok(g),
    ensures
        cells_ok(erase_grid(g, m)),
{
    let f = fallen(g, m);
    assert forall|c: int| 0 <= c < 8 implies (#[trigger] f[c]).len() == 6 && forall|r: int|
        0 <= r < 6 ==> 0 <= #[trigger] f[c][r] <= 5 by {
        assert forall|r: int| 0 <= r < 6 implies 0 <= #[trigger] g[c][r] <= 5 by {}
        lemma_fall_values(g[c], rows_in(m, c), 0, 5);
    }
    crate::rules::lemma_kept_cols_are_cols(f, 8);
    lemma_kept_cols_len(f, 8);
    let kept = kept_cols(f, 8);
    let e = erase_grid(g, m);
    assert forall|c: int, r: int| 0 <= c < 8 && 0 <= r < 6 implies 0 <= #[trigger] e[c][r] <= 5
        && e[c].len() == 6 by {
        if c < kept.len() {
            let j = choose|j: int| 0 <= j < 8 && #[trigger] kept[c] == f[j];
            assert(0 <= f[j][r] <= 5);
        }
    }
    assert forall|c: int| 0 <= c < 8 implies (#[trigger] e[c]).len() == 6 by {
        assert(0 <= e[c][0] <= 5 && e[c].len() == 6);
    }
}

/// The kinds of a grid of pieces are numbered 1 to 5.
pub proof fn lemma_move_kind(g: Seq<Seq<int>>, a: (int, int))
    requires
        cells_ok(g),
        is_move_at(g, a),
    ensures
        1 <= g[a.0][a.1] <= 5,
{
    assert(0 <= g[a.0][a.1] <= 5);
}

/// What one move scores and what the pieces left of its kind can score is at most what
/// all the pieces of the kind can score.
proof fn lemma_square_sum(n: int, rest: int)
    by (nonlinear_arith)
    requires
        2 <= n,
        0 <= rest,
    ensures
        erase_score(n) + kind_bound(rest) <= kind_bound(n + rest),
        erase_score(n) <= kind_bound(n + rest),
        0 <= erase_score(n),
        0 <= kind_bound(rest),
{
}

/// A move and what is left after it are together bounded by the bound before it.
pub proof fn lemma_bound_step(g: Seq<Seq<int>>, a: (int, int))
    requires
        cells_ok(g),
        is_move_at(g, a),
    ensures
        step_gain(g, a) + gain_bound(step_grid(g, a)) <= gain_bound(g),
        0 <= step_gain(g, a),
{
    let p = g[a.0][a.1];
    let m = move_cells(g, a);
    let e = step_grid(g, a);
    let n = cell_count(m);
    lemma_move_cells(g, a);
    lemma_move_kind(g, a);
    assert forall|v: int| 1 <= v <= 5 implies count_value(e, v) == if v == p {
        count_value(g, p) - n
    } else {
        count_value(g, v)
    } by {
        lemma_erase_kind(g, m, p, v);
    }
    lemma_count_range(cells_of(e, p));
    lemma_count_range(cells_of(g, 1));
    lemma_count_range(cells_of(g, 2));
    lemma_count_range(cells_of(g, 3));
    lemma_count_range(cells_of(g, 4));
    lemma_count_range(cells_of(g, 5));
    let rest = count_value(e, p);
    lemma_square_sum(n, rest);
    assert(count_value(g, p) == n + rest);
    assert(count_value(e, 1) == if p == 1 { rest } else { count_value(g, 1) });
    assert(count_value(e, 2) == if p == 2 { rest } else { count_value(g, 2) });
    assert(count_value(e, 3) == if p == 3 { rest } else { count_value(g, 3) });
    assert(count_value(e, 4) == if p == 4 { rest } else { count_value(g, 4) });
    assert(count_value(e, 5) == if p == 5 { rest } else { count_value(g, 5) });
    if rest == 1 {
        assert(!no_lone_kind(e));
    } else if no_lone_kind(e) {
        assert(no_lone_kind(g));
    }
}

/// The bound is never negative, and it holds the bonus where the board is clear.
pub proof fn lemma_bound_final(g: Seq<Seq<int>>)
    ensures
        final_gain_of(g) <= gain_bound(g),
        0 <= gain_bound(g),
{
    lemma_count_range(cells_of(g, 1));
    lemma_count_range(cells_of(g, 2));
    lemma_count_range(cells_of(g, 3));
    lemma_count_range(cells_of(g, 4));
    lemma_count_range(cells_of(g, 5));
    lemma_square_sum(2, count_value(g, 1));
    lemma_square_sum(2, count_value(g, 2));
    lemma_square_sum(2, count_value(g, 3));
    lemma_square_sum(2, count_value(g, 4));
    lemma_square_sum(2, count_value(g, 5));
    if is_clear(g) {
        assert forall|v: int| 1 <= v <= 5 implies count_value(g, v) == 0 by {
            lemma_count_zero(cells_of(g, v));
        }
    }
}

/// The bound is admissible: no game from the grid on scores more than the bound.
pub proof fn lemma_admissible(g: Seq<Seq<int>>, h: Seq<(int, int)>)
    requires
        cells_ok(g),
        play_gain(g, h) is Some,
    ensures
        play_gain(g, h)->0 <= gain_bound(g),
    decreases h.len(),
{
    if h.len() == 0 {
        lemma_bound_final(g);
    } else {
        lemma_erase_cells_ok(g, move_cells(g, h[0]));
        lemma_admissible(step_grid(g, h[0]), h.drop_first());
        lemma_bound_step(g, h[0]);
    }
}

/// The bound bounds the games from the grid on.
pub proof fn lemma_bound_bounds(g: Seq<Seq<int>>)
    requires
        cells_ok(g),
    ensures
        bounds_games(g, gain_bound(g)),
{
    assert forall|h: Seq<(int, int)>| #[trigger] play_gain(g, h) is Some implies play_gain(g, h)->0
        <= gain_bound(g) by {
        lemma_admissible(g, h);
    }
}

/// Moves that lead to a grid, and a game from that grid on, are together a game: it
/// scores what the moves score and what the game scores.
pub proof fn lemma_follow_then_play(
    g: Seq<Seq<int>>,
    h: Seq<(int, int)>,
    t: Seq<(int, int)>,
)
    requires
        follow(g, h) is Some,
        play_gain(reached(g, h), t) is Some,
    ensures
        play_gain(g, h + t) == Some(scored(g, h) + play_gain(reached(g, h), t)->0),
    decreases h.len(),
{
    if h.len() == 0 {
        assert(h + t =~= t);
    } else {
        let front = h.drop_last();
        let a = h.last();
        let (mid, s) = follow(g, front)->0;
        let t2 = seq![a] + t;
        assert(t2[0] == a);
        assert(t2.drop_first() =~= t);
        assert(play_gain(mid, t2) == Some(step_gain(mid, a) + play_gain(step_grid(mid, a), t)->0));
        lemma_follow_then_play(g, front, t2);
        assert(front + t2 =~= h + t);
    }
}

/// One more move: where the moves of `h` lead to `mid` and the move on `a` can be
/// made there, the moves of `h` and the move on `a` lead to the grid after it.
pub proof fn lemma_follow_push(g: Seq<Seq<int>>, h: Seq<(int, int)>, a: (int, int))
    requires
        follow(g, h) is Some,
        is_move_at(reached(g, h), a),
    ensures
        follow(g, h.push(a)) == Some(
            (
                step_grid(reached(g, h), a),
                scored(g, h) + step_gain(reached(g, h), a),
            ),
        ),
{
    assert(h.push(a).drop_last() =~= h);
}

} // verus!
