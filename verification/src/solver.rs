//! The search for the game that scores most.
//!
//! The search walks the games depth first. For each position it keeps, in a table, a
//! bound on what can still be scored from there; a position whose bound shows that no
//! game through it can score more than the prune threshold is not searched further.

use vstd::prelude::*;
use std::collections::HashMap;
use crate::action::{is_move_at, move_cells, Action, ActionHistory};
use crate::board::Board;
use crate::counting::lemma_erase_pieces;
use crate::grid::{cell_count, lemma_count_range, lemma_count_subset, lemma_count_zero};
use crate::play::{
    bounds_games, cell_of_number, cells_of_numbers, cells_ok, final_gain_of, follow, is_clear,
    lemma_bound_bounds, lemma_bound_final, lemma_bound_step, lemma_erase_cells_ok,
    lemma_follow_push, lemma_follow_then_play, lemma_move_cells, lemma_move_kind, lemma_over,
    play_gain, step_gain, step_grid,
};
use crate::position::{gain_bound, Position};
use crate::rules::{cells_of, count_pieces, count_value, erase_grid, has_move, occupied};
use crate::score::{erase_score, Score, SCORE_PERFECT};
use crate::zobrist::grid_key;

verus! {

/// No bound on what can still be scored is larger than this.
pub const SCORE_LIMIT: u32 = 11245;

/// Whether the entry of the table is sound: the board is well-formed, and its number
/// bounds the games from the board on and is at most the bound that the numbers of the
/// pieces give.
pub open spec fn entry_ok(e: (Board, u32)) -> bool {
    e.0.wf() && bounds_games(e.0@, e.1 as int) && e.1 <= gain_bound(e.0@)
}

/// Whether every entry of the table is sound.
pub open spec fn table_ok(m: Map<u64, Vec<(Board, u32)>>) -> bool {
    forall|k: u64, i: int|
        m.contains_key(k) && 0 <= i < m[k].len() ==> entry_ok(#[trigger] m[k][i])
}

/// Whether the first `n` of the moves hold a move on the cell `a`.
pub open spec fn covered(actions: Seq<Action>, n: int, a: (int, int)) -> bool {
    exists|k: int| 0 <= k < n && #[trigger] actions[k].cells().contains(a)
}

/// What the search of the first `n` moves of a position has shown: each game that
/// starts with one of them scores at most `ub`, and at most `best - score` if with
/// the `score` made so far it gets over the threshold `limit`.
pub open spec fn searched(
    g: Seq<Seq<int>>,
    score: int,
    limit: int,
    best: int,
    ub: int,
    actions: Seq<Action>,
    n: int,
) -> bool {
    forall|h: Seq<(int, int)>|
        #[trigger] play_gain(g, h) is Some && h.len() > 0 && covered(actions, n, h[0]) ==> play_gain(
            g,
            h,
        )->0 <= ub && (score + play_gain(g, h)->0 > limit ==> best >= score + play_gain(g, h)->0)
}

/// What the search of a whole position has shown: each game from it on scores at most
/// `ub`, and at most `best - score` if with the `score` made so far it gets over the
/// threshold `limit`.
pub open spec fn search_done(g: Seq<Seq<int>>, score: int, limit: int, best: int, ub: int) -> bool {
    &&& bounds_games(g, ub)
    &&& forall|h: Seq<(int, int)>|
        #[trigger] play_gain(g, h) is Some && score + play_gain(g, h)->0 > limit ==> best >= score
            + play_gain(g, h)->0
}

/// One more move searched.
pub proof fn lemma_searched_step(
    g: Seq<Seq<int>>,
    score: int,
    limit: int,
    best0: int,
    ub0: int,
    best1: int,
    ub1: int,
    ubc: int,
    actions: Seq<Action>,
    n: int,
)
    requires
        0 <= n < actions.len(),
        searched(g, score, limit, best0, ub0, actions, n),
        actions[n].wf(),
        actions[n].is_move_of(g),
        search_done(
            erase_grid(g, actions[n].cells()),
            score + erase_score(cell_count(actions[n].cells())),
            limit,
            best1,
            ubc,
        ),
        best1 >= best0,
        ub1 >= ub0,
        ub1 >= erase_score(cell_count(actions[n].cells())) + ubc,
    ensures
        searched(g, score, limit, best1, ub1, actions, n + 1),
{
    let action = actions[n];
    let child = erase_grid(g, action.cells());
    let gain = erase_score(cell_count(action.cells()));
    action.lemma_move_of(g);
    assert forall|h: Seq<(int, int)>|
        #[trigger] play_gain(g, h) is Some && h.len() > 0 && covered(
            actions,
            n + 1,
            h[0],
        ) implies play_gain(g, h)->0 <= ub1 && (score + play_gain(g, h)->0 > limit ==> best1
        >= score + play_gain(g, h)->0) by {
        if covered(actions, n, h[0]) {
        } else {
            let k = choose|k: int| 0 <= k < n + 1 && #[trigger] actions[k].cells().contains(h[0]);
            assert(k == n);
            assert(action.cells() == move_cells(g, h[0]));
            assert(step_grid(g, h[0]) == child);
            assert(step_gain(g, h[0]) == gain);
            let t = h.drop_first();
            assert(play_gain(child, t) is Some);
            assert(play_gain(g, h)->0 == gain + play_gain(child, t)->0);
        }
    }
}

/// All the moves searched: the position is searched.
pub proof fn lemma_searched_all(
    g: Seq<Seq<int>>,
    score: int,
    limit: int,
    best: int,
    ub: int,
    actions: Seq<Action>,
)
    requires
        has_move(g),
        searched(g, score, limit, best, ub, actions, actions.len() as int),
        forall|a: (int, int)|
            is_move_at(g, a) ==> exists|i: int|
                0 <= i < actions.len() && #[trigger] actions[i].cells().contains(a),
    ensures
        search_done(g, score, limit, best, ub),
{
    assert forall|h: Seq<(int, int)>| #[trigger] play_gain(g, h) is Some implies h.len() > 0
        && covered(actions, actions.len() as int, h[0]) by {
        assert(is_move_at(g, h[0]));
    }
}

/// A position with no move left is searched by looking at it.
pub proof fn lemma_searched_over(g: Seq<Seq<int>>, score: int, limit: int, best: int)
    requires
        !has_move(g),
        best >= score + final_gain_of(g),
    ensures
        search_done(g, score, limit, best, final_gain_of(g)),
        final_gain_of(g) <= gain_bound(g),
{
    lemma_bound_final(g);
    assert forall|h: Seq<(int, int)>| #[trigger] play_gain(g, h) is Some implies play_gain(g, h)->0
        == final_gain_of(g) by {
        lemma_over(g, h);
    }
}

/// A position whose bound does not get over the threshold need not be searched.
pub proof fn lemma_searched_pruned(g: Seq<Seq<int>>, score: int, limit: int, best: int, ub: int)
    requires
        bounds_games(g, ub),
        score + ub <= limit,
    ensures
        search_done(g, score, limit, best, ub),
{
}

/// What the search knows when it goes down by the move `action`, recorded by the
/// square numbered `number`: where the moves made lead, that the scores stay below
/// the limit, and that fewer pieces are left.
pub proof fn lemma_descend(
    root: Seq<Seq<int>>,
    hist: Seq<int>,
    g: Seq<Seq<int>>,
    score: int,
    action: Action,
    number: int,
)
    requires
        cells_ok(g),
        follow(root, cells_of_numbers(hist)) == Some((g, score)),
        action.wf(),
        action.is_move_of(g),
        action.cells().contains(cell_of_number(number)),
        score + gain_bound(g) <= SCORE_LIMIT,
    ensures
        action.fits(g),
        follow(root, cells_of_numbers(hist.push(number))) == Some(
            (
                erase_grid(g, action.cells()),
                score + erase_score(cell_count(action.cells())),
            ),
        ),
        0 <= erase_score(cell_count(action.cells())),
        erase_score(cell_count(action.cells())) + gain_bound(erase_grid(g, action.cells()))
            <= gain_bound(g),
        count_pieces(erase_grid(g, action.cells())) + 2 <= count_pieces(g),
        0 <= count_pieces(erase_grid(g, action.cells())),
        cells_ok(erase_grid(g, action.cells())),
{
    let a = cell_of_number(number);
    let m = action.cells();
    action.lemma_move_of(g);
    action.lemma_wf();
    assert(is_move_at(g, a) && m == move_cells(g, a));
    lemma_follow_push(root, cells_of_numbers(hist), a);
    assert(cells_of_numbers(hist.push(number)) =~= cells_of_numbers(hist).push(a));
    lemma_bound_step(g, a);
    lemma_move_kind(g, a);
    lemma_move_cells(g, a);
    lemma_erase_cells_ok(g, m);
    lemma_erase_pieces(g, m, g[a.0][a.1]);
    lemma_count_range(occupied(erase_grid(g, m)));
}

/// The bound that the numbers of the pieces give is never over the limit.
pub proof fn lemma_bound_limit(g: Seq<Seq<int>>)
    ensures
        0 <= gain_bound(g) <= SCORE_LIMIT,
{
    lemma_bound_final(g);
    lemma_count_range(cells_of(g, 1));
    lemma_count_range(cells_of(g, 2));
    lemma_count_range(cells_of(g, 3));
    lemma_count_range(cells_of(g, 4));
    lemma_count_range(cells_of(g, 5));
    lemma_square_limit(count_value(g, 1));
    lemma_square_limit(count_value(g, 2));
    lemma_square_limit(count_value(g, 3));
    lemma_square_limit(count_value(g, 4));
    lemma_square_limit(count_value(g, 5));
}

/// No kind can score more than 2209.
proof fn lemma_square_limit(n: int)
    by (nonlinear_arith)
    requires
        0 <= n <= 48,
    ensures
        crate::position::kind_bound(n) <= 2209,
{
}

/// What the game adds to the score when it is over in the position: the bonus if the
/// board is clear, else nothing; `None` if a move can still be made.
pub fn final_gain(pos: &Position) -> (res: Option<Score>)
    ensures
        res is None <==> has_move(pos.grid()),
        res is Some ==> res->0 == final_gain_of(pos.grid()),
{
    if pos.has_action() {
        None
    } else {
        proof {
            use_type_invariant(pos);
            pos.lemma_caches();
            pos.board_spec().lemma_clear();
        }
        if pos.board().is_empty() {
            Some(SCORE_PERFECT)
        } else {
            Some(0)
        }
    }
}

/// The bound that the table holds for the position, if it holds one.
fn table_get(dp: &HashMap<u64, Vec<(Board, u32)>>, pos: &Position) -> (res: Option<u32>)
    requires
        table_ok(dp@),
    ensures
        res == table_value(dp@, pos.grid()),
        res is Some ==> entry_ok((pos.board_spec(), res->0)),
{
    broadcast use vstd::std_specs::hash::group_hash_axioms;

    let ghost g = pos.grid();
    let key: u64 = pos.key();
    match dp.get(&key) {
        None => None,
        Some(bucket) => {
            let mut i: usize = 0;
            while i < bucket.len()
                invariant
                    0 <= i <= bucket.len(),
                    g == pos.grid(),
                    key == grid_key(g),
                    dp@.contains_key(key),
                    dp@[key]@ == bucket@,
                    forall|j: int| 0 <= j < bucket.len() ==> entry_ok(#[trigger] bucket[j]),
                    bucket_value(bucket@, g, i as int) is None,
                decreases bucket.len() - i,
            {
                if bucket[i].0.same(pos.board()) {
                    proof {
                        assert(entry_ok(bucket[i as int]));
                        assert(bucket_value(bucket@, g, i + 1) == Some(bucket[i as int].1));
                        lemma_bucket_value_stays(bucket@, g, i + 1, bucket@.len() as int);
                    }
                    return Some(bucket[i].1);
                }
                i = i + 1;
            }
            None
        },
    }
}

/// Puts the bound `value` for the position into the table, in the place of the bound
/// that the table holds for it, if it holds one. The bounds that the table holds for
/// other positions stay as they are.
fn table_put(dp: &mut HashMap<u64, Vec<(Board, u32)>>, pos: &Position, value: u32)
    requires
        table_ok(old(dp)@),
        entry_ok((pos.board_spec(), value)),
    ensures
        table_ok(final(dp)@),
        table_value(final(dp)@, pos.grid()) == Some(value),
        forall|g: Seq<Seq<int>>|
            g != pos.grid() ==> #[trigger] table_value(final(dp)@, g) == table_value(old(dp)@, g),
{
    broadcast use vstd::std_specs::hash::group_hash_axioms;

    let ghost before = dp@;
    let ghost here = pos.grid();
    let key: u64 = pos.key();
    let board: Board = *pos.board();
    let mut bucket: Vec<(Board, u32)> = match dp.remove(&key) {
        Some(b) => b,
        None => Vec::new(),
    };
    let ghost rest = dp@;
    let ghost old_bucket = bucket@;
    proof {
        assert(rest == before.remove(key));
        if before.contains_key(key) {
            assert(old_bucket == before[key]@);
        } else {
            assert(old_bucket.len() == 0);
        }
    }
    let mut i: usize = 0;
    let mut found = false;
    while i < bucket.len() && !found
        invariant
            0 <= i <= bucket.len(),
            bucket@ == old_bucket,
            here == board@,
            forall|j: int| 0 <= j < bucket.len() ==> entry_ok(#[trigger] bucket[j]),
            bucket_value(bucket@, here, i as int) is None,
            found ==> i < bucket.len() && bucket[i as int].0 == board,
        decreases bucket.len() - i + if found { 0int } else { 1 },
    {
        if bucket[i].0.same(&board) {
            found = true;
        } else {
            i = i + 1;
        }
    }
    let entry: (Board, u32) = (board, value);
    if found {
        bucket.set(i, entry);
        proof {
            lemma_bucket_value_set(old_bucket, i as int, entry);
        }
    } else {
        bucket.push(entry);
        proof {
            lemma_bucket_value_push(old_bucket, entry);
        }
    }
    let ghost new_bucket = bucket@;
    let _ = dp.insert(key, bucket);
    proof {
        let after = dp@;
        assert(after == rest.insert(key, after[key]));
        assert(after[key]@ == new_bucket);
        assert(table_value(after, here) == Some(value));
        assert forall|g: Seq<Seq<int>>| g != here implies #[trigger] table_value(after, g)
            == table_value(before, g) by {
            let k = grid_key(g);
            if k == key {
                if before.contains_key(key) {
                    assert(table_value(before, g) == bucket_value(
                        old_bucket,
                        g,
                        old_bucket.len() as int,
                    ));
                } else {
                    assert(bucket_value(old_bucket, g, 0) is None);
                }
            } else {
                assert(after.contains_key(k) == before.contains_key(k));
                if before.contains_key(k) {
                    assert(after[k] == before[k]);
                }
            }
        }
        assert forall|k: u64, j: int|
            after.contains_key(k) && 0 <= j < after[k].len() implies entry_ok(
            #[trigger] after[k][j],
        ) by {
            if k != key {
                assert(before.contains_key(k) && after[k] == before[k]);
            }
        }
    }
}

/// The bound that the first `n` entries of the bucket hold for the grid: the bound of
/// the first of them whose board has the grid.
pub open spec fn bucket_value(bucket: Seq<(Board, u32)>, g: Seq<Seq<int>>, n: int) -> Option<u32>
    decreases n,
{
    if n <= 0 {
        None
    } else {
        match bucket_value(bucket, g, n - 1) {
            Some(v) => Some(v),
            None => if bucket[n - 1].0@ == g {
                Some(bucket[n - 1].1)
            } else {
                None
            },
        }
    }
}

/// The bound that the table holds for the grid, if it holds one: the table keeps the
/// entries of a grid in the bucket of the hash of the grid.
pub open spec fn table_value(m: Map<u64, Vec<(Board, u32)>>, g: Seq<Seq<int>>) -> Option<u32> {
    if m.contains_key(grid_key(g)) {
        bucket_value(m[grid_key(g)]@, g, m[grid_key(g)]@.len() as int)
    } else {
        None
    }
}

/// Once an entry for the grid is found, it stays the first.
pub proof fn lemma_bucket_value_stays(bucket: Seq<(Board, u32)>, g: Seq<Seq<int>>, n: int, m: int)
    requires
        0 <= n <= m,
        bucket_value(bucket, g, n) is Some,
    ensures
        bucket_value(bucket, g, m) == bucket_value(bucket, g, n),
    decreases m,
{
    if m > n {
        lemma_bucket_value_stays(bucket, g, n, m - 1);
    }
}

/// Buckets that agree in their first `n` entries hold the same there.
pub proof fn lemma_bucket_value_agree(
    a: Seq<(Board, u32)>,
    b: Seq<(Board, u32)>,
    g: Seq<Seq<int>>,
    n: int,
)
    requires
        forall|j: int| 0 <= j < n ==> a[j] == b[j],
    ensures
        bucket_value(a, g, n) == bucket_value(b, g, n),
    decreases n,
{
    if n > 0 {
        lemma_bucket_value_agree(a, b, g, n - 1);
    }
}

/// An entry put in the place of the first entry for its grid is what the bucket holds
/// for that grid, and the bucket holds for the other grids what it held.
pub proof fn lemma_bucket_value_set(bucket: Seq<(Board, u32)>, i: int, entry: (Board, u32))
    requires
        0 <= i < bucket.len(),
        bucket[i].0@ == entry.0@,
        bucket_value(bucket, entry.0@, i) is None,
    ensures
        bucket_value(bucket.update(i, entry), entry.0@, bucket.len() as int) == Some(entry.1),
        forall|g: Seq<Seq<int>>|
            g != entry.0@ ==> #[trigger] bucket_value(
                bucket.update(i, entry),
                g,
                bucket.len() as int,
            ) == bucket_value(bucket, g, bucket.len() as int),
{
    let after = bucket.update(i, entry);
    lemma_bucket_value_agree(after, bucket, entry.0@, i);
    assert(bucket_value(after, entry.0@, i + 1) == Some(entry.1));
    lemma_bucket_value_stays(after, entry.0@, i + 1, bucket.len() as int);
    assert forall|g: Seq<Seq<int>>| g != entry.0@ implies #[trigger] bucket_value(
        after,
        g,
        bucket.len() as int,
    ) == bucket_value(bucket, g, bucket.len() as int) by {
        lemma_bucket_value_same_elsewhere(bucket, i, entry, g, bucket.len() as int);
    }
}

/// An entry put in the place of an entry for the same grid changes nothing of what
/// the bucket holds for another grid.
pub proof fn lemma_bucket_value_same_elsewhere(
    bucket: Seq<(Board, u32)>,
    i: int,
    entry: (Board, u32),
    g: Seq<Seq<int>>,
    n: int,
)
    requires
        0 <= i < bucket.len(),
        0 <= n <= bucket.len(),
        bucket[i].0@ == entry.0@,
        g != entry.0@,
    ensures
        bucket_value(bucket.update(i, entry), g, n) == bucket_value(bucket, g, n),
    decreases n,
{
    if n > 0 {
        lemma_bucket_value_same_elsewhere(bucket, i, entry, g, n - 1);
    }
}

/// An entry put behind a bucket that holds nothing for its grid is what the bucket
/// holds for that grid, and the bucket holds for the other grids what it held.
pub proof fn lemma_bucket_value_push(bucket: Seq<(Board, u32)>, entry: (Board, u32))
    requires
        bucket_value(bucket, entry.0@, bucket.len() as int) is None,
    ensures
        bucket_value(bucket.push(entry), entry.0@, bucket.len() as int + 1) == Some(entry.1),
        forall|g: Seq<Seq<int>>|
            g != entry.0@ ==> #[trigger] bucket_value(
                bucket.push(entry),
                g,
                bucket.len() as int + 1,
            )
                == bucket_value(bucket, g, bucket.len() as int),
{
    let after = bucket.push(entry);
    lemma_bucket_value_agree(after, bucket, entry.0@, bucket.len() as int);
    assert forall|g: Seq<Seq<int>>| g != entry.0@ implies #[trigger] bucket_value(
        after,
        g,
        bucket.len() as int + 1,
    ) == bucket_value(bucket, g, bucket.len() as int) by {
        lemma_bucket_value_agree(after, bucket, g, bucket.len() as int);
    }
}

/// What the search has found so far, and the moves that lead to the position that it
/// looks at.
struct Best {
    score: Score,
    solution: Option<ActionHistory>,
    history: ActionHistory,
}

/// Whether the best game found so far is a game from `root` on that scores what is
/// recorded for it; where none is found the recorded score is 0.
spec fn best_ok(best: Best, root: Seq<Seq<int>>) -> bool {
    match best.solution {
        None => best.score == 0,
        Some(hs) => best.score > 0 && play_gain(root, cells_of_numbers(hs@)) == Some(
            best.score as int,
        ),
    }
}

/// The solver: it finds, for one board after another, the game that scores most among
/// the games that score more than the prune threshold.
#[derive(Debug)]
pub struct Solver {
    prune_score_max: Score,
    dp: HashMap<u64, Vec<(Board, u32)>>,
}

impl Solver {
    /// The prune threshold.
    pub closed spec fn limit(self) -> int {
        self.prune_score_max as int
    }

    /// The solver with the prune threshold `prune_score_max`.
    pub fn new(prune_score_max: Score) -> (res: Solver)
        ensures
            res.limit() == prune_score_max,
    {
        Solver { prune_score_max, dp: HashMap::new() }
    }

    /// The prune threshold.
    pub fn prune_score_max(&self) -> (res: Score)
        ensures
            res == self.limit(),
    {
        self.prune_score_max
    }

    /// Sets the prune threshold.
    pub fn set_prune_score_max(&mut self, prune_score_max: Score)
        ensures
            final(self).limit() == prune_score_max,
    {
        self.prune_score_max = prune_score_max;
    }

    /// Raises the prune threshold to `score` if it is below it.
    pub fn chmax_prune_score_max(&mut self, score: Score)
        ensures
            final(self).limit() == if score > old(self).limit() {
                score as int
            } else {
                old(self).limit()
            },
    {
        if score > self.prune_score_max {
            self.prune_score_max = score;
        }
    }

    /// Searches the games from the position on. `score` is the score of the moves made
    /// so far, which `best.history` records. Returns a bound on what can still be
    /// scored from the position.
    fn dfs(
        &mut self,
        best: &mut Best,
        pos: &Position,
        score: Score,
        Ghost(root): Ghost<Seq<Seq<int>>>,
    ) -> (ub: Score)
        requires
            table_ok(old(self).dp@),
            best_ok(*old(best), root),
            follow(root, cells_of_numbers(old(best).history@)) == Some((pos.grid(), score as int)),
            score + gain_bound(pos.grid()) <= SCORE_LIMIT,
            count_pieces(pos.grid()) + 2 * old(best).history@.len() <= 48,
            0 <= count_pieces(pos.grid()),
        ensures
            table_ok(final(self).dp@),
            final(self).prune_score_max == old(self).prune_score_max,
            best_ok(*final(best), root),
            final(best).history@ == old(best).history@,
            final(best).score >= old(best).score,
            ub <= gain_bound(pos.grid()),
            search_done(
                pos.grid(),
                score as int,
                old(self).prune_score_max as int,
                final(best).score as int,
                ub as int,
            ),
        decreases count_pieces(pos.grid()),
    {
        proof {
            use_type_invariant(pos);
            pos.lemma_caches();
            pos.board_spec().lemma_grid();
        }
        let ghost g = pos.grid();
        let ghost hist = best.history@;
        let ghost limit = self.prune_score_max as int;
        let ghost best0 = best.score as int;
        match final_gain(pos) {
            Some(gain) => {
                proof {
                    lemma_bound_final(g);
                }
                let total: u32 = score + gain;
                if total > best.score {
                    best.score = total;
                    best.solution = Some(best.history.clone());
                    proof {
                        lemma_over(g, Seq::<(int, int)>::empty());
                        lemma_follow_then_play(
                            root,
                            cells_of_numbers(hist),
                            Seq::<(int, int)>::empty(),
                        );
                        assert(cells_of_numbers(hist) + Seq::<(int, int)>::empty()
                            =~= cells_of_numbers(hist));
                    }
                }
                proof {
                    lemma_searched_over(g, score as int, limit, best.score as int);
                }
                return gain;
            },
            None => {},
        }
        let known = table_get(&self.dp, pos);
        let first_ub: u32 = match known {
            Some(v) => v,
            None => {
                let v = pos.gain_upper_bound();
                proof {
                    lemma_bound_bounds(g);
                }
                table_put(&mut self.dp, pos, v);
                v
            },
        };
        if score + first_ub <= self.prune_score_max {
            proof {
                lemma_searched_pruned(g, score as int, limit, best.score as int, first_ub as int);
            }
            return first_ub;
        }
        let actions = pos.actions();
        let mut gain_ub: u32 = 0;
        let mut i: usize = 0;
        while i < actions.len()
            invariant
                0 <= i <= actions.len(),
                g == pos.grid(),
                cells_ok(g),
                table_ok(self.dp@),
                self.prune_score_max == limit,
                best_ok(*best, root),
                best.history@ == hist,
                best.score >= best0,
                follow(root, cells_of_numbers(hist)) == Some((g, score as int)),
                score + gain_bound(g) <= SCORE_LIMIT,
                count_pieces(g) + 2 * hist.len() <= 48,
                forall|k: int|
                    0 <= k < actions.len() ==> (#[trigger] actions[k]).wf() && actions[k].is_move_of(g),
                gain_ub <= gain_bound(g),
                searched(g, score as int, limit, best.score as int, gain_ub as int, actions@, i as int),
            decreases actions.len() - i,
        {
            let action = &actions[i];
            let sq = action.least_square();
            proof {
                use_type_invariant(&sq);
                sq.lemma_cell();
                assert(cell_of_number(sq.value()) == sq.cell());
                lemma_descend(root, hist, g, score as int, *action, sq.value());
            }
            best.history.push(sq);
            let child = pos.do_action(action);
            let gain_action: u32 = action.gain();
            let ghost before = best.score as int;
            let ghost ub_before = gain_ub as int;
            let ub_child: u32 = self.dfs(best, &child, score + gain_action, Ghost(root));
            if gain_action + ub_child > gain_ub {
                gain_ub = gain_action + ub_child;
            }
            best.history.remove_last();
            proof {
                assert(hist.push(sq.value()).drop_last() =~= hist);
                lemma_searched_step(
                    g,
                    score as int,
                    limit,
                    before,
                    ub_before,
                    best.score as int,
                    gain_ub as int,
                    ub_child as int,
                    actions@,
                    i as int,
                );
            }
            i = i + 1;
        }
        proof {
            lemma_searched_all(g, score as int, limit, best.score as int, gain_ub as int, actions@);
        }
        table_put(&mut self.dp, pos, gain_ub);
        gain_ub
    }

    /// Searches the games from the board on for the one that scores most.
    ///
    /// What is returned is a game that was found and what it scores. If some game
    /// scores more than the prune threshold, a game is returned, and no game scores
    /// more than it. `None` is returned only where no game scores more than the
    /// threshold.
    pub fn solve(&mut self, board: Board) -> (res: Option<(Score, ActionHistory)>)
        ensures
            final(self).limit() == old(self).limit(),
            is_found(board@, res),
            forall|h: Seq<(int, int)>|
                #[trigger] play_gain(board@, h) is Some && play_gain(board@, h)->0 > old(
                    self,
                ).limit() ==> res is Some && play_gain(board@, h)->0 <= found_score(res),
    {
        self.dp.clear();
        let pos = Position::new(board);
        let mut best = Best { score: 0, solution: None, history: ActionHistory::new() };
        proof {
            use_type_invariant(&board);
            board.lemma_grid();
            lemma_bound_limit(board@);
            lemma_count_range(occupied(board@));
            assert(cells_of_numbers(Seq::<int>::empty()) =~= Seq::<(int, int)>::empty());
        }
        let _ = self.dfs(&mut best, &pos, 0, Ghost(board@));
        self.dp.clear();
        match best.solution {
            Some(solution) => Some((best.score, solution)),
            None => None,
        }
    }
}

/// The score of what the search returned, or 0 where it returned nothing.
pub open spec fn found_score(res: Option<(Score, ActionHistory)>) -> int {
    match res {
        Some((score, _)) => score as int,
        None => 0,
    }
}

/// Whether what the search returned is a game from the grid on together with what it
/// scores, which is more than 0.
pub open spec fn is_found(g: Seq<Seq<int>>, res: Option<(Score, ActionHistory)>) -> bool {
    match res {
        Some((score, history)) => score > 0 && play_gain(g, cells_of_numbers(history@)) == Some(
            score as int,
        ),
        None => true,
    }
}

} // verus!
