//! The random number generator of the game, and the boards that it deals.

use vstd::prelude::*;
use crate::array::{ColArray, RowArray};
use crate::board::Board;
use crate::piece::Piece;
use crate::rules::count_value;

verus! {

/// The little that the main loop of the game adds to the choice of a piece: 0 to 4.
#[derive(Clone, Copy, Debug, PartialEq, Eq, Structural)]
pub struct GameEntropy(u8);

impl GameEntropy {
    /// Number of values.
    pub const NUM: usize = 5;

    /// Smallest value.
    pub const MIN_VALUE: u8 = 0;

    /// Largest value.
    pub const MAX_VALUE: u8 = 4;

    /// Whether the entropy is well-formed: its value is 0 to 4.
    #[verifier::type_invariant]
    pub closed spec fn wf(self) -> bool {
        self.0 <= 4
    }

    /// The value, 0 to 4.
    pub closed spec fn value(self) -> int {
        self.0 as int
    }

    /// The entropy of the value `e`.
    pub closed spec fn of(e: int) -> GameEntropy {
        GameEntropy(e as u8)
    }

    /// The entropy of a value from 0 to 4 is well-formed and has that value.
    pub broadcast proof fn lemma_of(e: int)
        requires
            0 <= e <= 4,
        ensures
            (#[trigger] GameEntropy::of(e)).value() == e,
            GameEntropy::of(e).wf(),
    {
    }

    /// A well-formed entropy is 0 to 4, and its value determines it.
    pub broadcast proof fn lemma_value(self)
        ensures
            #![trigger self.value()]
            self.wf() <==> 0 <= self.value() <= 4,
            forall|other: GameEntropy| #[trigger] other.value() == self.value() ==> other == self,
    {
    }

    /// The entropy of the value `inner`, if there is one.
    pub fn from_inner(inner: u8) -> (res: Option<GameEntropy>)
        ensures
            res is Some <==> inner <= 4,
            res is Some ==> res->0.value() == inner && res->0.wf(),
    {
        if inner <= 4 {
            Some(GameEntropy(inner))
        } else {
            None
        }
    }

    /// The entropy at 0-based index `idx`, if there is one.
    pub fn from_index(idx: usize) -> (res: Option<GameEntropy>)
        ensures
            res is Some <==> idx < 5,
            res is Some ==> res->0.value() == idx && res->0.wf(),
    {
        if idx < 5 {
            Some(GameEntropy(idx as u8))
        } else {
            None
        }
    }

    /// The value, 0 to 4.
    pub fn to_inner(self) -> (res: u8)
        ensures
            res == self.value(),
            res <= 4,
    {
        proof {
            use_type_invariant(&self);
        }
        self.0
    }

    /// The 0-based index, 0 to 4.
    pub fn to_index(self) -> (res: usize)
        ensures
            res == self.value(),
            res < 5,
    {
        proof {
            use_type_invariant(&self);
        }
        self.0 as usize
    }

    /// All values in ascending order.
    pub fn all() -> (res: Vec<GameEntropy>)
        ensures
            res.len() == 5,
            forall|i: int| 0 <= i < 5 ==> (#[trigger] res[i]).value() == i && res[i].wf(),
    {
        let mut res: Vec<GameEntropy> = Vec::new();
        let mut inner: u8 = 0;
        while inner <= 4
            invariant
                0 <= inner <= 5,
                res.len() == inner,
                forall|i: int| 0 <= i < res.len() ==> (#[trigger] res[i]).value() == i && res[i].wf(),
            decreases 5 - inner,
        {
            res.push(GameEntropy(inner));
            inner = inner + 1;
        }
        res
    }
}

/// The state of the generator after one step from the state `s`, with the NMI counter
/// at `nmi`.
pub open spec fn rng_next(s: u16, nmi: u8) -> u16 {
    let bit = ((s >> 14) ^ s) & 1;
    let t = s ^ ((s << 8) | (nmi as u16));
    (t << 1) | bit
}

/// The number that the generator gives in the state `s`: 0 to 255.
pub open spec fn rng_out(s: u16) -> u8 {
    ((s ^ (s >> 8)) & 0xff) as u8
}

/// The number of the kind that is drawn from the random number `r` with the entropy
/// `e`.
pub open spec fn piece_of(r: int, e: int) -> int {
    1 + (5 * r + e) / 256
}

/// The NMI counter at the draw of the piece of index `i`: the counter steps by one
/// after `timing` pieces.
pub open spec fn nmi_at(nmi: u8, timing: int, i: int) -> u8 {
    if i < timing {
        nmi
    } else {
        nmi.wrapping_add(1)
    }
}

/// The state of the generator after `n` pieces are drawn.
pub open spec fn rng_after(s: u16, nmi: u8, timing: int, n: int) -> u16
    decreases n,
{
    if n <= 0 {
        s
    } else {
        rng_next(rng_after(s, nmi, timing, n - 1), nmi_at(nmi, timing, n - 1))
    }
}

/// The number of the kind of the piece of index `i` that is drawn.
pub open spec fn drawn_piece(s: u16, nmi: u8, timing: int, e: int, i: int) -> int {
    piece_of(rng_out(rng_after(s, nmi, timing, i + 1)) as int, e)
}

/// The grid that is dealt: the pieces are drawn row by row from the bottom up, each
/// row from left to right.
pub open spec fn drawn_grid(s: u16, nmi: u8, timing: int, e: int) -> Seq<Seq<int>> {
    Seq::new(8, |c: int| Seq::new(6, |r: int| drawn_piece(s, nmi, timing, e, 8 * r + c)))
}

/// Whether the grid can appear in the game: the game deals again where 24 or more
/// pieces are of one kind.
pub open spec fn is_legal(g: Seq<Seq<int>>) -> bool {
    count_value(g, 1) < 24 && count_value(g, 2) < 24 && count_value(g, 3) < 24 && count_value(g, 4)
        < 24 && count_value(g, 5) < 24
}

/// The number that the generator gives is below 256.
proof fn bv_rng_out(s: u16)
    by (bit_vector)
    ensures
        (s ^ (s >> 8)) & 0xff < 256,
{
}

/// From the state 0, with the NMI counter at 0, the step leads to the state 0 and gives
/// 0.
proof fn bv_rng_dead()
    by (bit_vector)
    ensures
        (((0u16 ^ ((0u16 << 8) | 0u16)) << 1) | (((0u16 >> 14) ^ 0u16) & 1)) == 0u16,
        (0u16 ^ (0u16 >> 8)) & 0xff == 0u16,
{
}

/// Shifting right by 8 bits divides by 256.
proof fn bv_piece(x: u32)
    by (bit_vector)
    requires
        x <= 1279,
    ensures
        x >> 8 == x / 256,
        x >> 8 <= 4,
{
}

/// The state 0 is dead: the generator stays in it with the NMI counter at 0, and gives
/// the number 0.
pub proof fn lemma_dead_state()
    ensures
        rng_next(0, 0) == 0,
        rng_out(0) == 0,
{
    bv_rng_dead();
}

/// The generator of the game: a 16-bit shift register that the NMI counter disturbs.
/// Bit 15 of its state has no effect on what follows.
#[derive(Clone, Copy, Debug, PartialEq, Eq, Structural)]
pub struct GameRng(u16);

impl GameRng {
    /// The state.
    pub closed spec fn state_spec(self) -> u16 {
        self.0
    }

    /// The generator in the state `state`.
    pub fn new(state: u16) -> (res: GameRng)
        ensures
            res.state_spec() == state,
    {
        GameRng(state)
    }

    /// The state.
    pub fn state(self) -> (res: u16)
        ensures
            res == self.state_spec(),
    {
        self.0
    }

    /// Steps the generator with the NMI counter at `nmi_counter` and gives a number
    /// from 0 to 255.
    pub fn gen(&mut self, nmi_counter: u8) -> (res: u8)
        ensures
            final(self).state_spec() == rng_next(old(self).state_spec(), nmi_counter),
            res == rng_out(final(self).state_spec()),
    {
        let s: u16 = self.0;
        let bit: u16 = ((s >> 14) ^ s) & 1;
        let t: u16 = s ^ ((s << 8) | (nmi_counter as u16));
        let next: u16 = (t << 1) | bit;
        self.0 = next;
        proof {
            bv_rng_out(next);
        }
        ((next ^ (next >> 8)) & 0xff) as u8
    }

    /// Draws a piece, with the NMI counter at `nmi_counter` and the entropy `entropy`.
    pub fn gen_piece(&mut self, nmi_counter: u8, entropy: GameEntropy) -> (res: Piece)
        ensures
            final(self).state_spec() == rng_next(old(self).state_spec(), nmi_counter),
            res.value() == piece_of(rng_out(final(self).state_spec()) as int, entropy.value()),
            res.wf(),
    {
        let r: u8 = self.gen(nmi_counter);
        let x: u32 = 5 * (r as u32) + (entropy.to_inner() as u32);
        proof {
            bv_piece(x);
        }
        let v: u8 = (x >> 8) as u8;
        Piece::from_inner(1 + v).unwrap()
    }

    /// Deals a board: 48 pieces are drawn, the first `nmi_timing`, which are at most
    /// 48, with the NMI counter at `nmi_counter` and the others with the counter one
    /// further. Returns the board and whether it can appear in the game.
    pub fn gen_board(&mut self, nmi_counter: u8, nmi_timing: usize, entropy: GameEntropy) -> (res: (
        Board,
        bool,
    ))
        requires
            nmi_timing <= 48,
        ensures
            final(self).state_spec() == rng_after(
                old(self).state_spec(),
                nmi_counter,
                nmi_timing as int,
                48,
            ),
            res.0.wf(),
            res.0@ == drawn_grid(
                old(self).state_spec(),
                nmi_counter,
                nmi_timing as int,
                entropy.value(),
            ),
            res.1 == is_legal(res.0@),
            crate::rules::settled(res.0@),
    {
        let ghost s0 = self.0;
        let ghost t = nmi_timing as int;
        let ghost e = entropy.value();
        let mut pieces: Vec<Piece> = Vec::new();
        let mut i: usize = 0;
        while i < 48
            invariant
                0 <= i <= 48,
                nmi_timing <= 48,
                t == nmi_timing,
                e == entropy.value(),
                pieces.len() == i,
                self.0 == rng_after(s0, nmi_counter, t, i as int),
                forall|k: int|
                    0 <= k < i ==> (#[trigger] pieces[k]).value() == drawn_piece(
                        s0,
                        nmi_counter,
                        t,
                        e,
                        k,
                    ) && pieces[k].wf(),
            decreases 48 - i,
        {
            let nmi: u8 = if i < nmi_timing {
                nmi_counter
            } else {
                nmi_counter.wrapping_add(1)
            };
            let piece = self.gen_piece(nmi, entropy);
            pieces.push(piece);
            i = i + 1;
        }
        let first = pieces[0];
        let mut cols: [RowArray<Piece>; 8] = [RowArray::from_elem(first); 8];
        let mut c: usize = 0;
        while c < 8
            invariant
                0 <= c <= 8,
                pieces.len() == 48,
                forall|k: int|
                    0 <= k < 48 ==> (#[trigger] pieces[k]).value() == drawn_piece(
                        s0,
                        nmi_counter,
                        t,
                        e,
                        k,
                    ),
                forall|k: int, r: int|
                    0 <= k < c && 0 <= r < 6 ==> #[trigger] cols[k].0[r] == pieces[8 * r + k],
            decreases 8 - c,
        {
            let ghost before = cols;
            let col: [Piece; 6] = [
                pieces[c],
                pieces[8 + c],
                pieces[16 + c],
                pieces[24 + c],
                pieces[32 + c],
                pieces[40 + c],
            ];
            cols[c] = RowArray::new(col);
            proof {
                assert forall|k: int, r: int| 0 <= k < c + 1 && 0 <= r < 6 implies #[trigger] cols[k].0[r]
                    == pieces[8 * r + k] by {
                    if k != c {
                        assert(cols[k] == before[k]);
                    }
                }
            }
            c = c + 1;
        }
        let arrays = ColArray::new(cols);
        let board = Board::from_piece_arrays(&arrays);
        proof {
            let g = drawn_grid(s0, nmi_counter, t, e);
            assert forall|k: int| 0 <= k < 8 implies board@[k] == g[k] by {
                board.lemma_grid();
                assert forall|r: int| 0 <= r < 6 implies board@[k][r] == g[k][r] by {
                    assert(board@[k][r] == arrays.0[k].0[r].value());
                    assert(cols[k].0[r] == pieces[8 * r + k]);
                }
                assert(board@[k] =~= g[k]);
            }
            board.lemma_grid();
            assert(board@ =~= g);
        }
        let pieces_all = Piece::all();
        let mut legal = true;
        let mut v: usize = 0;
        while v < 5
            invariant
                0 <= v <= 5,
                pieces_all.len() == 5,
                forall|j: int| 0 <= j < 5 ==> (#[trigger] pieces_all[j]).value() == j + 1,
                legal == legal_below(board@, v as int),
            decreases 5 - v,
        {
            if board.piece_count(pieces_all[v]) >= 24 {
                legal = false;
            }
            v = v + 1;
        }
        proof {
            reveal_with_fuel(legal_below, 6);
        }
        (board, legal)
    }
}

/// Whether fewer than 24 pieces are of each of the first `n` kinds.
pub open spec fn legal_below(g: Seq<Seq<int>>, n: int) -> bool
    decreases n,
{
    if n <= 0 {
        true
    } else {
        legal_below(g, n - 1) && count_value(g, n) < 24
    }
}

/// What decides the board that is dealt.
#[derive(Clone, Copy, Debug, PartialEq, Eq, Structural)]
pub struct RandomBoardParam {
    /// The state of the generator.
    pub rng_state: u16,
    /// The NMI counter.
    pub nmi_counter: u8,
    /// The number of pieces after which the NMI counter steps by one; 40 in the game.
    pub nmi_timing: usize,
    /// The entropy.
    pub entropy: GameEntropy,
}

/// The number of the parameters that are listed: 32768 states, 256 counters, one timing
/// and 5 entropies.
pub const PARAM_COUNT: u64 = 41_943_040;

/// The parameters at the place `i` of the list of all parameters.
pub open spec fn param_at(i: int) -> RandomBoardParam {
    RandomBoardParam {
        rng_state: (i / 1280) as u16,
        nmi_counter: ((i / 5) % 256) as u8,
        nmi_timing: 40,
        entropy: GameEntropy::of(i % 5),
    }
}

/// Whether `p` comes before `q` in the order of the parameters: by state, then by
/// counter, then by timing, then by entropy.
pub open spec fn param_less(p: RandomBoardParam, q: RandomBoardParam) -> bool {
    p.rng_state < q.rng_state || (p.rng_state == q.rng_state && (p.nmi_counter < q.nmi_counter || (
    p.nmi_counter == q.nmi_counter && (p.nmi_timing < q.nmi_timing || (p.nmi_timing == q.nmi_timing
        && p.entropy.value() < q.entropy.value())))))
}

/// The grid that is dealt with the parameters.
pub open spec fn dealt(p: RandomBoardParam) -> Seq<Seq<int>> {
    drawn_grid(p.rng_state, p.nmi_counter, p.nmi_timing as int, p.entropy.value())
}

/// The state of the generator after the board is dealt.
pub open spec fn dealt_state(p: RandomBoardParam) -> u16 {
    rng_after(p.rng_state, p.nmi_counter, p.nmi_timing as int, 48)
}

/// The list of all parameters is in strictly ascending order, and the states in it are
/// below 0x8000.
pub proof fn lemma_params_ascend(i: int, j: int)
    requires
        0 <= i < j < PARAM_COUNT,
    ensures
        param_less(param_at(i), param_at(j)),
        param_at(i).rng_state < 0x8000,
        param_at(i).nmi_timing == 40,
{
    GameEntropy::lemma_of(i % 5);
    GameEntropy::lemma_of(j % 5);
}

impl RandomBoardParam {
    /// The parameters at the place `i` of the list of all parameters, if `i` is below
    /// their number.
    pub fn nth(i: u64) -> (res: Option<RandomBoardParam>)
        ensures
            res == if i < PARAM_COUNT {
                Some(param_at(i as int))
            } else {
                None
            },
            res is Some ==> res->0.entropy.wf(),
    {
        if i < PARAM_COUNT {
            let entropy = GameEntropy::from_index((i % 5) as usize).unwrap();
            proof {
                GameEntropy::lemma_of((i % 5) as int);
                GameEntropy::lemma_value(entropy);
            }
            Some(
                RandomBoardParam {
                    rng_state: (i / 1280) as u16,
                    nmi_counter: ((i / 5) % 256) as u8,
                    nmi_timing: 40,
                    entropy,
                },
            )
        } else {
            None
        }
    }

    /// Deals the board of the parameters, whose timing is at most 48. Returns the
    /// board, whether it can appear in the game, and the generator after it.
    pub fn gen_board(&self) -> (res: (Board, bool, GameRng))
        requires
            self.nmi_timing <= 48,
        ensures
            res.0.wf(),
            res.0@ == dealt(*self),
            res.1 == is_legal(dealt(*self)),
            res.2.state_spec() == dealt_state(*self),
    {
        let mut rng = GameRng::new(self.rng_state);
        let (board, legal) = rng.gen_board(self.nmi_counter, self.nmi_timing, self.entropy);
        (board, legal, rng)
    }

    /// Deals the board of the parameters, whose timing is at most 48, if it can appear
    /// in the game.
    pub fn gen_legal_board(&self) -> (res: Option<(Board, GameRng)>)
        requires
            self.nmi_timing <= 48,
        ensures
            res is Some <==> is_legal(dealt(*self)),
            res matches Some(d) ==> d.0.wf() && d.0@ == dealt(*self) && d.1.state_spec()
                == dealt_state(*self),
    {
        let (board, legal, rng_after) = self.gen_board();
        if legal {
            Some((board, rng_after))
        } else {
            None
        }
    }

    /// All parameters in ascending order: the states from 0 to 0x7FFF, the counters
    /// from 0 to 255, the timing 40 and the entropies from 0 to 4.
    pub fn all() -> (res: AllParams)
        ensures
            res.place() == 0,
    {
        AllParams { next: 0 }
    }
}

/// A walk through the list of all parameters.
#[derive(Clone, Copy, Debug)]
pub struct AllParams {
    next: u64,
}

impl AllParams {
    /// Whether the walk is well-formed: its place is at most the number of parameters.
    #[verifier::type_invariant]
    pub closed spec fn wf(self) -> bool {
        self.next <= PARAM_COUNT
    }

    /// The place in the list of what comes next.
    pub closed spec fn place(self) -> int {
        self.next as int
    }

    /// The next parameters, if any are left.
    pub fn next(&mut self) -> (res: Option<RandomBoardParam>)
        ensures
            res == if old(self).place() < PARAM_COUNT {
                Some(param_at(old(self).place()))
            } else {
                None
            },
            final(self).place() == if old(self).place() < PARAM_COUNT {
                old(self).place() + 1
            } else {
                old(self).place()
            },
    {
        proof {
            use_type_invariant(&*self);
        }
        let res = RandomBoardParam::nth(self.next);
        if self.next < PARAM_COUNT {
            self.next = self.next + 1;
        }
        res
    }
}

/// A walk through the boards of all parameters.
#[derive(Clone, Copy, Debug)]
pub struct AllBoards {
    next: u64,
}

impl AllBoards {
    /// Whether the walk is well-formed: its place is at most the number of parameters.
    #[verifier::type_invariant]
    pub closed spec fn wf(self) -> bool {
        self.next <= PARAM_COUNT
    }

    /// The place in the list of the parameters of what comes next.
    pub closed spec fn place(self) -> int {
        self.next as int
    }

    /// The next parameters with their board, whether the board can appear in the game,
    /// and the generator after the board is dealt; `None` if none are left.
    pub fn next(&mut self) -> (res: Option<(RandomBoardParam, Board, bool, GameRng)>)
        ensures
            res is Some <==> old(self).place() < PARAM_COUNT,
            res is Some ==> is_deal_of(res->0, param_at(old(self).place())) && final(self).place()
                == old(self).place() + 1,
            res is None ==> final(self).place() == old(self).place(),
    {
        match RandomBoardParam::nth(self.next) {
            Some(param) => {
                let (board, legal, rng_after) = param.gen_board();
                self.next = self.next + 1;
                Some((param, board, legal, rng_after))
            },
            None => None,
        }
    }
}

/// Whether `d` is the parameters `p` with what is dealt with them.
pub open spec fn is_deal_of(d: (RandomBoardParam, Board, bool, GameRng), p: RandomBoardParam) -> bool {
    &&& d.0 == p
    &&& d.1.wf()
    &&& d.1@ == dealt(p)
    &&& d.2 == is_legal(dealt(p))
    &&& d.3.state_spec() == dealt_state(p)
}

/// A walk through the boards that can appear in the game.
#[derive(Clone, Copy, Debug)]
pub struct AllLegalBoards {
    next: u64,
}

impl AllLegalBoards {
    /// Whether the walk is well-formed: its place is at most the number of parameters.
    #[verifier::type_invariant]
    pub closed spec fn wf(self) -> bool {
        self.next <= PARAM_COUNT
    }

    /// The place in the list of the parameters from which the walk goes on.
    pub closed spec fn place(self) -> int {
        self.next as int
    }

    /// The next parameters whose board can appear in the game, with their board and
    /// the generator after the board is dealt; `None` if none are left.
    ///
    /// The walk gives what the walk through all boards gives, without the boards that
    /// cannot appear in the game.
    pub fn next(&mut self) -> (res: Option<(RandomBoardParam, Board, GameRng)>)
        ensures
            old(self).place() <= final(self).place() <= PARAM_COUNT,
            res matches Some(d) ==> old(self).place() < final(self).place() && is_deal_of(
                (d.0, d.1, true, d.2),
                param_at(final(self).place() - 1),
            ) && forall|k: int|
                old(self).place() <= k < final(self).place() - 1 ==> !is_legal(
                    dealt(#[trigger] param_at(k)),
                ),
            res is None ==> final(self).place() == PARAM_COUNT && forall|k: int|
                old(self).place() <= k < PARAM_COUNT ==> !is_legal(dealt(#[trigger] param_at(k))),
    {
        proof {
            use_type_invariant(&*self);
        }
        let ghost start = self.next as int;
        let mut i: u64 = self.next;
        let mut res: Option<(RandomBoardParam, Board, GameRng)> = None;
        while i < PARAM_COUNT
            invariant_except_break
                res is None,
            invariant
                start <= i <= PARAM_COUNT,
                forall|k: int| start <= k < i ==> !is_legal(dealt(#[trigger] param_at(k))),
            ensures
                start <= i <= PARAM_COUNT,
                forall|k: int| start <= k < i ==> !is_legal(dealt(#[trigger] param_at(k))),
                res is None ==> i == PARAM_COUNT,
                res matches Some(d) ==> i < PARAM_COUNT && is_deal_of(
                    (d.0, d.1, true, d.2),
                    param_at(i as int),
                ),
            decreases PARAM_COUNT - i,
        {
            let param = RandomBoardParam::nth(i).unwrap();
            let (board, legal, rng_after) = param.gen_board();
            if legal {
                res = Some((param, board, rng_after));
                break;
            }
            i = i + 1;
        }
        if res.is_some() {
            self.next = i + 1;
        } else {
            self.next = i;
        }
        res
    }
}

/// The walk through the boards of all parameters.
pub fn enumerate_all_board() -> (res: AllBoards)
    ensures
        res.place() == 0,
{
    AllBoards { next: 0 }
}

/// The walk through the boards that can appear in the game.
pub fn enumerate_all_legal_board() -> (res: AllLegalBoards)
    ensures
        res.place() == 0,
{
    AllLegalBoards { next: 0 }
}

} // verus!
