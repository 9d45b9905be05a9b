use crate::position::{has_four, is_move_text, lemma_free_column, lemma_moves_bound, lemma_play_unplay, lemma_played, Position6, NBCOINS, WIDTH};
use vstd::prelude::*;

verus! {

/// Best score that the side to move can still reach once `m` stones are
/// down: the faster a win, the higher its score.
pub open spec fn max_score(m: int) -> int {
    (NBCOINS as int + 1 - m) / 2
}

/// The order in which the search tries the columns, center first.
pub open spec fn column_order_spec() -> Seq<usize> {
    seq![3usize, 2, 4, 1, 5, 0, 6]
}

/// Some free column wins at once for the side to move.
pub open spec fn wins_now(p: Position6) -> bool {
    exists|c: int| 0 <= c < 7 && p.lane(c) < 6 && #[trigger] has_four(p.after_drop(c))
}

/// Score below every reachable one, for a search over no column at all.
pub open spec fn no_score() -> int {
    -1000
}

/// Depth-bounded negamax value of `p` for the side to move: zero when the
/// depth runs out or the board is full, the ply's best score when a move
/// wins at once, and otherwise the best of the negated values of the moves.
pub open spec fn value(p: Position6, depth: nat) -> int
    decreases depth, 0nat,
{
    if depth == 0 || p.moves >= NBCOINS {
        0
    } else if wins_now(p) {
        max_score(p.moves as int)
    } else {
        best_of(p, (depth - 1) as nat, column_order_spec())
    }
}

/// Best negated value, searched `depth` deep, over the free columns of `cols`.
pub open spec fn best_of(p: Position6, depth: nat, cols: Seq<usize>) -> int
    decreases depth, cols.len() + 1,
{
    if cols.len() == 0 {
        no_score()
    } else {
        let rest = best_of(p, depth, cols.drop_last());
        let c = cols.last() as int;
        if 0 <= c < 7 && p.lane(c) < 6 {
            let s = -value(p.played(c), depth);
            if s > rest {
                s
            } else {
                rest
            }
        } else {
            rest
        }
    }
}

/// The search of `p` in the window `(alpha, beta)`, `depth` plies deep, as a
/// function of its inputs: the score it returns and the number of positions
/// it visits.
pub open spec fn search(p: Position6, alpha: int, beta: int, depth: nat) -> (int, nat)
    decreases depth, 0int,
{
    if depth == 0 || p.moves >= NBCOINS {
        (0, 1)
    } else if wins_now(p) {
        (max_score(p.moves as int), 1)
    } else {
        let max = max_score(p.moves as int);
        if beta > max && alpha >= max {
            (max, 1)
        } else {
            let b = if beta > max {
                max
            } else {
                beta
            };
            let (r, n) = scan(p, alpha, b, (depth - 1) as nat, 0);
            (r, n + 1)
        }
    }
}

/// The search's loop over the columns from place `i` of the order on, with
/// the window `(a, b)`: the score and the number of positions visited.
pub open spec fn scan(p: Position6, a: int, b: int, depth: nat, i: nat) -> (int, nat)
    decreases depth, 7 - i,
{
    if i >= 7 {
        (a, 0)
    } else {
        let c = column_order_spec()[i as int] as int;
        if p.lane(c) < 6 {
            let (r, n) = search(p.played(c), -b, -a, depth);
            let s = -r;
            if s >= b {
                (s, n)
            } else {
                let (r2, n2) = scan(
                    p,
                    if s > a {
                        s
                    } else {
                        a
                    },
                    b,
                    depth,
                    i + 1,
                );
                (r2, n + n2)
            }
        } else {
            scan(p, a, b, depth, i + 1)
        }
    }
}

/// A count of positions as a wrapping 32-bit counter holds it.
pub open spec fn wrap(x: int) -> u32 {
    (x % 0x1_0000_0000) as u32
}

proof fn lemma_wrap_add(x: int, y: int)
    requires
        x >= 0,
        y >= 0,
    ensures
        wrap(wrap(x) + y) == wrap(x + y),
{
    vstd::arithmetic::div_mod::lemma_add_mod_noop(x, y, 0x1_0000_0000);
    vstd::arithmetic::div_mod::lemma_add_mod_noop(x % 0x1_0000_0000, y, 0x1_0000_0000);
    vstd::arithmetic::div_mod::lemma_mod_twice(x, 0x1_0000_0000);
}

/// `x` brought into `[lo, hi]`.
pub open spec fn clip(x: int, lo: int, hi: int) -> int {
    if x < lo {
        lo
    } else if x > hi {
        hi
    } else {
        x
    }
}

/// The best of a list of columns is at least the score of each free one.
proof fn lemma_best_ge(p: Position6, depth: nat, cols: Seq<usize>, j: int)
    requires
        0 <= j < cols.len(),
        0 <= cols[j] < 7,
        p.lane(cols[j] as int) < 6,
    ensures
        best_of(p, depth, cols) >= -value(p.played(cols[j] as int), depth),
    decreases cols.len(),
{
    if j < cols.len() - 1 {
        lemma_best_ge(p, depth, cols.drop_last(), j);
    }
}

/// The best of a list of columns is one of their scores or `no_score`, so
/// it lies under any bound that all of them lie under.
proof fn lemma_best_le(p: Position6, depth: nat, cols: Seq<usize>, bound: int)
    requires
        no_score() <= bound,
        forall|j: int|
            0 <= j < cols.len() && 0 <= cols[j] < 7 && p.lane(cols[j] as int) < 6 ==> -value(
                #[trigger] p.played(cols[j] as int),
                depth,
            ) <= bound,
    ensures
        best_of(p, depth, cols) <= bound,
    decreases cols.len(),
{
    if cols.len() > 0 {
        let c = cols.last() as int;
        assert(cols.last() == cols[cols.len() - 1]);
        assert forall|j: int|
            0 <= j < cols.drop_last().len() && 0 <= cols.drop_last()[j] < 7 && p.lane(
                cols.drop_last()[j] as int,
            ) < 6 implies -value(#[trigger] p.played(cols.drop_last()[j] as int), depth)
            <= bound by {
            assert(cols.drop_last()[j] == cols[j]);
        }
        lemma_best_le(p, depth, cols.drop_last(), bound);
    }
}

/// Every column appears in the search order.
proof fn lemma_order_covers(c: int)
    requires
        0 <= c < 7,
    ensures
        exists|j: int| 0 <= j < 7 && #[trigger] column_order_spec()[j] as int == c,
{
    let o = column_order_spec();
    if c == 0 {
        assert(o[5] as int == c);
    } else if c == 1 {
        assert(o[3] as int == c);
    } else if c == 2 {
        assert(o[1] as int == c);
    } else if c == 3 {
        assert(o[0] as int == c);
    } else if c == 4 {
        assert(o[2] as int == c);
    } else if c == 5 {
        assert(o[4] as int == c);
    } else {
        assert(o[6] as int == c);
    }
}

/// The value of a position lies between minus the opponent's best score
/// after one more stone and the side to move's best score.
pub proof fn lemma_value_bounds(p: Position6, depth: nat)
    requires
        p.wf(),
    ensures
        -max_score(p.moves + 1) <= value(p, depth) <= max_score(p.moves as int),
    decreases depth,
{
    lemma_moves_bound(p);
    if depth == 0 || p.moves >= NBCOINS {
    } else if wins_now(p) {
    } else {
        let d = (depth - 1) as nat;
        let o = column_order_spec();
        assert(max_score(p.moves + 2) <= max_score(p.moves as int));
        assert forall|j: int|
            0 <= j < o.len() && 0 <= o[j] < 7 && p.lane(o[j] as int) < 6 implies -value(
            #[trigger] p.played(o[j] as int),
            d,
        ) <= max_score(p.moves as int) by {
            lemma_played(p, o[j] as int);
            lemma_value_bounds(p.played(o[j] as int), d);
        }
        lemma_best_le(p, d, o, max_score(p.moves as int));
        lemma_free_column(p);
        let c = choose|c: int| 0 <= c < 7 && #[trigger] p.lane(c) < 6;
        lemma_order_covers(c);
        let j = choose|j: int| 0 <= j < 7 && #[trigger] o[j] as int == c;
        lemma_played(p, c);
        lemma_value_bounds(p.played(c), d);
        lemma_best_ge(p, d, o, j);
    }
}

/// Two solvers that replayed the same move sequence from the empty board
/// and then search to the same depth return the same score and visit the
/// same number of positions: what `solve` returns and counts depends on the
/// position and the depth alone.
pub proof fn lemma_solve_deterministic(
    a: AlphaBetaLevel6Solver,
    b: AlphaBetaLevel6Solver,
    seq: Seq<char>,
    depth: nat,
)
    requires
        a.position() == Position6::empty().replay(seq).0,
        b.position() == Position6::empty().replay(seq).0,
    ensures
        value(a.position(), depth) == value(b.position(), depth),
        wrap(search(a.position(), -(NBCOINS as int / 2), NBCOINS as int / 2, depth).1 as int)
            == wrap(search(b.position(), -(NBCOINS as int / 2), NBCOINS as int / 2, depth).1 as int),
{
}

/// With no depth left the search returns zero and visits only the position
/// itself, whatever the position and the window.
pub proof fn lemma_search_depth_zero(p: Position6, alpha: int, beta: int)
    ensures
        search(p, alpha, beta, 0) == (0int, 1nat),
        value(p, 0) == 0,
{
}

/// Negamax search with alpha-beta pruning over an owned position.
pub struct AlphaBetaLevel6Solver {
    node_count: u32,
    elapsed_time_ms: u32,
    column_order: [usize; 7],
    max_alpha_beta: [i8; NBCOINS],
    pos: Position6,
}

impl AlphaBetaLevel6Solver {
    /// The position, the fixed column order and the table of best scores.
    pub closed spec fn wf(self) -> bool {
        &&& self.pos.wf()
        &&& self.column_order@ == column_order_spec()
        &&& forall|m: int| 0 <= m < NBCOINS ==> #[trigger] self.max_alpha_beta@[m] == max_score(m)
    }

    /// The position the solver searches from.
    pub closed spec fn position(self) -> Position6 {
        self.pos
    }

    /// Number of positions visited by the last search.
    pub closed spec fn nodes(self) -> u32 {
        self.node_count
    }

    /// A solver on the empty board.
    pub fn new(_player: u8) -> (r: Self)
        ensures
            r.wf(),
            r.position() == Position6::empty(),
            r.nodes() == 0,
    {
        Self {
            node_count: 0,
            elapsed_time_ms: 0,
            column_order: [3, 2, 4, 1, 5, 0, 6],
            max_alpha_beta: Self::max_alpha_beta_init(),
            pos: Position6::new(),
        }
    }

    /// The best score still reachable after each number of stones.
    pub fn max_alpha_beta_init() -> (r: [i8; NBCOINS])
        ensures
            forall|m: int| 0 <= m < NBCOINS ==> #[trigger] r@[m] == max_score(m),
    {
        let mut result = [0i8; NBCOINS];
        let mut i: usize = 0;
        while i < NBCOINS
            invariant
                i <= NBCOINS,
                forall|m: int| 0 <= m < i ==> #[trigger] result@[m] == max_score(m),
            decreases NBCOINS - i,
        {
            result[i] = ((NBCOINS + 1 - i) / 2) as i8;
            i = i + 1;
        }
        result
    }

    /// Alpha-beta search of the solver's position, `depth` plies deep, in the
    /// window `(alpha, beta)`. Within the window the result is the position's
    /// negamax value; a result at or below `alpha` means the value is no
    /// higher than `alpha`, one at or above `beta` that it is at least `beta`.
    /// The position is the same afterwards, and the node count has grown by
    /// the number of positions visited.
    pub fn negamax(&mut self, alpha: i8, beta: i8, depth: u8) -> (r: i8)
        requires
            old(self).wf(),
            i8::MIN < alpha < beta,
        ensures
            final(self).wf(),
            final(self).position() == old(self).position(),
            clip(r as int, alpha as int, beta as int) == clip(
                value(old(self).position(), depth as nat),
                alpha as int,
                beta as int,
            ),
            -max_score(old(self).position().moves + 1) <= r <= max_score(
                old(self).position().moves as int,
            ),
            depth == 0 ==> r == 0,
            depth == 0 ==> final(self).nodes() == wrap(old(self).nodes() + 1),
            r == search(old(self).position(), alpha as int, beta as int, depth as nat).0,
            final(self).nodes() == wrap(
                old(self).nodes() + search(
                    old(self).position(),
                    alpha as int,
                    beta as int,
                    depth as nat,
                ).1,
            ),
        decreases depth,
    {
        let ghost p = self.pos;
        let ghost n0 = self.node_count as int;
        proof {
            lemma_moves_bound(p);
            lemma_value_bounds(p, depth as nat);
        }
        let mut a: i8 = alpha;
        let mut b: i8 = beta;
        self.node_count = self.node_count.wrapping_add(1);
        assert(self.node_count == wrap(n0 + 1));
        if depth == 0 || self.pos.moves as usize == NBCOINS {
            return 0;
        }
        let mut col: usize = 0;
        while col < WIDTH
            invariant
                self.wf(),
                self.pos == p,
                old(self).pos == p,
                i8::MIN < alpha < beta,
                a == alpha,
                b == beta,
                depth > 0,
                self.nodes() == wrap(n0 + 1),
                old(self).nodes() == n0,
                p.moves < NBCOINS,
                -max_score(p.moves + 1) <= value(p, depth as nat) <= max_score(p.moves as int),
                col <= WIDTH,
                forall|c: int|
                    0 <= c < col ==> !(p.lane(c) < 6 && #[trigger] has_four(p.after_drop(c))),
            decreases WIDTH - col,
        {
            if self.pos.can_play(col) && self.pos.is_winning_move(col) {
                return self.max_alpha_beta[self.pos.moves as usize];
            }
            col = col + 1;
        }
        assert(!wins_now(p));
        let max = self.max_alpha_beta[self.pos.moves as usize];
        if b > max {
            b = max;
            if a >= b {
                return b;
            }
        }
        let ghost alpha0 = a as int;
        let ghost mut so_far: nat = 1;
        let ghost d = (depth - 1) as nat;
        let ghost o = column_order_spec();
        assert(max_score(p.moves + 2) <= max_score(p.moves as int));
        let mut i: usize = 0;
        while i < WIDTH
            invariant
                self.wf(),
                self.pos == p,
                old(self).pos == p,
                i8::MIN < alpha0,
                alpha0 == alpha,
                b == (if beta > max_score(p.moves as int) {
                    max_score(p.moves as int)
                } else {
                    beta as int
                }),
                -max_score(p.moves + 1) <= value(p, depth as nat) <= max_score(p.moves as int),
                p.moves < NBCOINS,
                !wins_now(p),
                depth > 0,
                d == depth - 1,
                o == column_order_spec(),
                i <= WIDTH,
                alpha0 <= a < b <= max_score(p.moves as int),
                a as int == if best_of(p, d, o.take(i as int)) > alpha0 {
                    best_of(p, d, o.take(i as int))
                } else {
                    alpha0
                },
                best_of(p, d, o.take(i as int)) < b,
                value(p, depth as nat) == best_of(p, d, o),
                n0 >= 0,
                self.nodes() == wrap(n0 + so_far),
                old(self).nodes() == n0,
                search(p, alpha as int, beta as int, depth as nat) == (
                    scan(p, a as int, b as int, d, i as nat).0,
                    so_far + scan(p, a as int, b as int, d, i as nat).1,
                ),
            decreases WIDTH - i,
        {
            let real_col = self.column_order[i];
            assert(o.take(i + 1).drop_last() =~= o.take(i as int));
            assert(o.take(i + 1).last() == real_col);
            if self.pos.can_play(real_col) {
                proof {
                    lemma_play_unplay(p, real_col as int);
                    lemma_played(p, real_col as int);
                    lemma_value_bounds(p.played(real_col as int), d);
                }
                self.pos.play(real_col);
                let r_c = self.negamax(-b, -a, depth - 1);
                proof {
                    let n_c = search(p.played(real_col as int), -b, -a, d).1;
                    lemma_wrap_add(n0 + so_far, n_c as int);
                    so_far = so_far + n_c;
                }
                let score = -r_c;
                self.pos.unplay(real_col);
                if score >= b {
                    proof {
                        lemma_best_ge(p, d, o, i as int);
                    }
                    return score;
                }
                if score > a {
                    a = score;
                }
            }
            i = i + 1;
        }
        assert(o.take(7) =~= o);
        a
    }

    /// Starts again from the empty board and plays the moves of `seq` up to
    /// the first one that is off the board, full, or an immediate win.
    pub fn play_sequence(&mut self, seq: &str)
        requires
            old(self).wf(),
            is_move_text(seq@),
        ensures
            final(self).wf(),
            final(self).position() == Position6::empty().replay(seq@).0,
            final(self).nodes() == old(self).nodes(),
    {
        self.pos = Position6::new();
        self.pos.play_sequence(seq);
    }

    /// The negamax value of the solver's position, searched `max_depth`
    /// plies deep. The position is the same afterwards.
    pub fn solve(&mut self, max_depth: u8) -> (r: i8)
        requires
            old(self).wf(),
        ensures
            final(self).wf(),
            final(self).position() == old(self).position(),
            r == value(old(self).position(), max_depth as nat),
            -max_score(old(self).position().moves + 1) <= r <= max_score(
                old(self).position().moves as int,
            ),
            final(self).nodes() == wrap(
                search(
                    old(self).position(),
                    -(NBCOINS as int / 2),
                    NBCOINS as int / 2,
                    max_depth as nat,
                ).1 as int,
            ),
    {
        proof {
            lemma_moves_bound(self.pos);
            lemma_value_bounds(self.pos, max_depth as nat);
        }
        self.node_count = 0;
        let init_val: i8 = (NBCOINS as i8) / 2;
        self.negamax(-init_val, init_val, max_depth)
    }

    /// Number of positions visited by the last search.
    pub fn node_count(&self) -> (r: u32)
        ensures
            r == self.nodes(),
    {
        self.node_count
    }
}

} // verus!
