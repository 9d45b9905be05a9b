use vstd::array::spec_array_update;
use vstd::prelude::*;

verus! {

/// Number of columns of the board.
pub const WIDTH: usize = 7;

/// Number of playable rows in each column.
pub const HEIGHT: u8 = 6;

/// Number of cells of the board.
pub const NBCOINS: usize = 42;

/// Whether bit `i` of `x` is set.
pub open spec fn bit(x: u64, i: u64) -> bool {
    (x >> i) & 1u64 == 1u64
}

/// Four set bits of `p`, each `s` places above the one before.
pub open spec fn four_in_line(p: u64, s: u64) -> bool {
    exists|i: u64|
        #![trigger bit(p, i)]
        i + 3 * s < 64 && bit(p, i) && bit(p, (i + s) as u64) && bit(p, (i + 2 * s) as u64)
            && bit(p, (i + 3 * s) as u64)
}

/// Four stones of `p` in a row: vertically (step 1), along either diagonal
/// (steps 6 and 8) or horizontally (step 7).
pub open spec fn has_four(p: u64) -> bool {
    four_in_line(p, 1) || four_in_line(p, 6) || four_in_line(p, 7) || four_in_line(p, 8)
}

/// Stones in the first `n` columns, given the absolute heights `h`.
pub open spec fn filled(h: Seq<u8>, n: int) -> int
    decreases n,
{
    if n <= 0 {
        0
    } else {
        filled(h, n - 1) + (h[n - 1] - 7 * (n - 1))
    }
}

/// The column, counted from zero, that a move character names.
pub open spec fn column_of(c: char) -> int {
    c as int - '1' as int
}

/// Every character of `s` is a digit from `1` to `9`.
pub open spec fn is_move_text(s: Seq<char>) -> bool {
    forall|i: int| 0 <= i < s.len() ==> '1' <= #[trigger] s[i] <= '9'
}

/// A position as two bitboards, one per move parity.
///
/// Column `c` owns bits `7c ..= 7c + 6` of each word: bits `0..6` of that lane
/// are the rows from the bottom, bit `6` is a guard that is never occupied.
pub struct Position6 {
    /// Absolute index of the next free bit of each column.
    pub heights: [u8; 7],
    /// Number of stones placed so far.
    pub moves: u8,
    /// Stones placed at even plies, then those placed at odd plies.
    pub bitboard: [u64; 2],
}

impl Position6 {
    /// Number of stones in column `c`.
    pub open spec fn lane(self, c: int) -> int {
        self.heights@[c] - 7 * c
    }

    /// Whether bit `i` is a cell under the top of its column.
    pub open spec fn occupied_cell(self, i: u64) -> bool {
        i < 49 && i < self.heights@[(i / 7) as int]
    }

    /// Index of the word that the next stone goes to.
    pub open spec fn side(self) -> int {
        self.moves as int % 2
    }

    /// Heights stay inside their lanes, `moves` counts the stones, the two
    /// players' stones are disjoint, every cell under a column's top holds a
    /// stone, and no stone lies above it.
    pub open spec fn wf(self) -> bool {
        &&& forall|c: int| 0 <= c < 7 ==> 0 <= #[trigger] self.lane(c) <= 6
        &&& self.moves as int == filled(self.heights@, 7)
        &&& self.bitboard[0] & self.bitboard[1] == 0
        &&& forall|i: u64|
            #![trigger bit(self.bitboard[0], i)]
            #![trigger bit(self.bitboard[1], i)]
            i < 64 && !self.occupied_cell(i) ==> !bit(self.bitboard[0], i) && !bit(
                self.bitboard[1],
                i,
            )
        &&& forall|i: u64|
            #![trigger self.occupied_cell(i)]
            i < 64 && self.occupied_cell(i) ==> bit(self.bitboard[0], i) || bit(
                self.bitboard[1],
                i,
            )
    }

    /// The empty board.
    pub open spec fn empty() -> Position6 {
        Position6 { heights: [0, 7, 14, 21, 28, 35, 42], moves: 0, bitboard: [0, 0] }
    }

    /// The stones of the side to move, with one more at the top of `col`.
    pub open spec fn after_drop(self, col: int) -> u64 {
        self.bitboard[self.side()] ^ (1u64 << (self.heights@[col] as u64))
    }

    /// The position after the side to move drops a stone into `col`.
    pub open spec fn played(self, col: int) -> Position6 {
        Position6 {
            heights: spec_array_update(self.heights, col, (self.heights@[col] + 1) as u8),
            moves: (self.moves + 1) as u8,
            bitboard: spec_array_update(
                self.bitboard,
                self.side(),
                self.bitboard[self.side()] | (1u64 << (self.heights@[col] as u64)),
            ),
        }
    }

    /// Column `col` has a stone on top, and it belongs to the side that moved
    /// last, as it does right after that side played there.
    pub open spec fn last_in(self, col: int) -> bool {
        &&& self.lane(col) > 0
        &&& self.moves > 0
        &&& bit(self.bitboard[(self.moves - 1) % 2], (self.heights@[col] - 1) as u64)
    }

    /// The position before the top stone of `col` was placed.
    pub open spec fn unplayed(self, col: int) -> Position6 {
        let h = (self.heights@[col] - 1) as u8;
        let side = (self.moves - 1) % 2;
        Position6 {
            heights: spec_array_update(self.heights, col, h),
            moves: (self.moves - 1) as u8,
            bitboard: spec_array_update(
                self.bitboard,
                side,
                self.bitboard[side] & !(1u64 << (h as u64)),
            ),
        }
    }

    /// A sequence stops before a column that is off the board, full, or that
    /// would win at once for the side to move.
    pub open spec fn stops_at(self, col: int) -> bool {
        col >= 7 || self.lane(col) >= 6 || has_four(self.after_drop(col))
    }

    /// Replays the moves of `s` from this position, up to the first one that
    /// stops it: the position reached and the number of moves applied.
    pub open spec fn replay(self, s: Seq<char>) -> (Position6, nat)
        decreases s.len(),
    {
        if s.len() == 0 || column_of(s[0]) < 0 || self.stops_at(column_of(s[0])) {
            (self, 0)
        } else {
            let (q, n) = self.played(column_of(s[0])).replay(s.drop_first());
            (q, n + 1)
        }
    }

    /// The empty board: every column at the bottom of its lane, no stone.
    pub fn new() -> (r: Position6)
        ensures
            r == Position6::empty(),
            r.wf(),
    {
        let r = Position6 { heights: [0, 7, 14, 21, 28, 35, 42], moves: 0, bitboard: [0, 0] };
        proof {
            let b0: u64 = r.bitboard[0];
            let b1: u64 = r.bitboard[1];
            assert(b0 & b1 == 0) by (bit_vector)
                requires
                    b0 == 0u64,
            ;
            assert forall|i: u64| i < 64 implies !bit(r.bitboard[0], i) && !bit(r.bitboard[1], i) by {
                lemma_zero_bit(i);
            }
            assert forall|i: u64| i < 64 implies !#[trigger] r.occupied_cell(i) by {
                if i < 49 {
                    lemma_cell_column(i);
                    let k = (i / 7) as int;
                    assert(r.heights@[k] == 7 * k);
                    assert(7 * (i / 7) <= i) by (nonlinear_arith);
                }
            }
            assert(filled(r.heights@, 7) == 0) by {
                reveal_with_fuel(filled, 8);
            }
        }
        r
    }

    /// Whether column `col` has a free cell.
    pub fn can_play(&self, col: usize) -> (r: bool)
        requires
            col < WIDTH,
        ensures
            r == (self.heights@[col as int] % 7 != 6),
            self.wf() ==> (r == (self.lane(col as int) < 6)),
    {
        self.heights[col] % 7 != HEIGHT
    }

    /// Whether dropping a stone of the side to move into `col` makes four in a
    /// row for that side. The position is left as it is.
    pub fn is_winning_move(&self, col: usize) -> (r: bool)
        requires
            self.wf(),
            col < WIDTH,
        ensures
            r == has_four(self.after_drop(col as int)),
    {
        let ghost moves = self.moves;
        assert(moves & 1 == moves % 2) by (bit_vector);
        assert(0 <= self.lane(col as int) <= 6);
        let mut pos: u64 = self.bitboard[(self.moves & 1) as usize];
        pos = pos ^ (1u64 << (self.heights[col] as u64));
        proof {
            lemma_line_mask(pos, 1);
            lemma_line_mask(pos, 6);
            lemma_line_mask(pos, 7);
            lemma_line_mask(pos, 8);
        }
        // horizontal
        let mut m: u64 = pos & (pos >> 7u64);
        if m & (m >> 14u64) != 0 {
            return true;
        }
        // diagonal, rising to the left

        m = pos & (pos >> 6u64);
        if m & (m >> 12u64) != 0 {
            return true;
        }
        // diagonal, rising to the right

        m = pos & (pos >> 8u64);
        if m & (m >> 16u64) != 0 {
            return true;
        }
        // vertical

        m = pos & (pos >> 1u64);
        if m & (m >> 2u64) != 0 {
            return true;
        }
        false
    }

    /// Drops a stone of the side to move into `col`.
    pub fn play(&mut self, col: usize)
        requires
            old(self).wf(),
            col < WIDTH,
            old(self).lane(col as int) < 6,
        ensures
            *final(self) == old(self).played(col as int),
            final(self).wf(),
    {
        proof {
            lemma_played(*self, col as int);
        }
        let ghost moves = self.moves;
        assert(moves & 1 == moves % 2) by (bit_vector);
        let ghost h = self.heights@[col as int] as u64;
        let ghost a = self.bitboard[self.side()];
        assert(h < 64);
        let mov: u64 = 1u64 << (self.heights[col] as u64);
        self.heights[col] = self.heights[col] + 1;
        let side = (self.moves & 1) as usize;
        self.bitboard[side] = self.bitboard[side] ^ mov;
        self.moves = self.moves + 1;
        proof {
            lemma_bit_ops(a, h, h);
            assert(self.heights =~= old(self).played(col as int).heights);
            assert(self.bitboard =~= old(self).played(col as int).bitboard);
        }
    }

    /// Plays the columns named by `seq` (`1` is the leftmost) in turn, and
    /// returns the index of the first one that is off the board, full, or an
    /// immediate win for the side to move; that one is not played. Returns the
    /// length of `seq` when every move was played.
    pub fn play_sequence(&mut self, seq: &str) -> (r: usize)
        requires
            old(self).wf(),
            is_move_text(seq@),
        ensures
            (*final(self), r as nat) == old(self).replay(seq@),
            final(self).wf(),
    {
        let bytes = seq.as_bytes();
        proof {
            assert(vstd::string::is_ascii(seq)) by {
                assert forall|i: int| 0 <= i < seq@.len() implies '\0' <= #[trigger] seq@[i]
                    <= '\u{7f}' by {
                    assert('1' <= seq@[i] <= '9');
                }
            }
            vstd::string::is_ascii_spec_bytes(seq);
            assert(seq@.skip(0) =~= seq@);
        }
        let mut i: usize = 0;
        while i < bytes.len()
            invariant
                self.wf(),
                0 <= i <= bytes@.len(),
                bytes@.len() == seq@.len(),
                is_move_text(seq@),
                forall|j: int| 0 <= j < seq@.len() ==> bytes@[j] == #[trigger] seq@[j] as u8,
                old(self).replay(seq@) == (
                    self.replay(seq@.skip(i as int)).0,
                    (i + self.replay(seq@.skip(i as int)).1) as nat,
                ),
            decreases bytes@.len() - i,
        {
            let ghost c = seq@[i as int];
            assert('1' <= c <= '9');
            assert(seq@.skip(i as int)[0] == c);
            assert(seq@.skip(i as int).drop_first() =~= seq@.skip(i + 1));
            let col = (bytes[i] - 49u8) as usize;
            assert(col as int == column_of(c));
            if col >= WIDTH || !self.can_play(col) || self.is_winning_move(col) {
                return i;
            }
            proof {
                lemma_played(*self, col as int);
            }
            self.play(col);
            i = i + 1;
        }
        proof {
            assert(seq@.skip(i as int).len() == 0);
        }
        i
    }

    /// Takes back the top stone of `col`, which must be the last one placed.
    pub fn unplay(&mut self, col: usize)
        requires
            old(self).wf(),
            col < WIDTH,
            old(self).last_in(col as int),
        ensures
            *final(self) == old(self).unplayed(col as int),
            final(self).wf(),
    {
        proof {
            lemma_unplayed(*self, col as int);
        }
        let ghost moves = (self.moves - 1) as u8;
        assert(moves & 1 == moves % 2) by (bit_vector);
        let ghost h = (self.heights@[col as int] - 1) as u64;
        let ghost a = self.bitboard[(self.moves - 1) % 2];
        self.moves = self.moves - 1;
        self.heights[col] = self.heights[col] - 1;
        let mov: u64 = 1u64 << (self.heights[col] as u64);
        let side = (self.moves & 1) as usize;
        self.bitboard[side] = self.bitboard[side] ^ mov;
        proof {
            lemma_bit_ops(a, h, h);
            assert(self.heights =~= old(self).unplayed(col as int).heights);
            assert(self.bitboard =~= old(self).unplayed(col as int).bitboard);
        }
    }
}

/// Bit `i` of the four-in-a-row mask along step `s` is set exactly when
/// bits `i`, `i + s`, `i + 2s` and `i + 3s` of `p` are.
proof fn lemma_line_bit(p: u64, s: u64, i: u64)
    by (bit_vector)
    requires
        1 <= s <= 8,
        i < 64,
    ensures
        bit((p & (p >> s)) & ((p & (p >> s)) >> (2 * s) as u64), i) == (i + 3 * s < 64 && bit(p, i)
            && bit(p, (i + s) as u64) && bit(p, (i + 2 * s) as u64) && bit(p, (i + 3 * s) as u64)),
{
}

/// A word is nonzero exactly when one of its bits is set.
proof fn lemma_nonzero_bit(x: u64)
    ensures
        x != 0 <==> exists|i: u64| i < 64 && #[trigger] bit(x, i),
    decreases x,
{
    if x != 0 {
        if x & 1 == 1 {
            assert(bit(x, 0)) by (bit_vector)
                requires
                    x & 1 == 1,
            ;
        } else {
            let y: u64 = x >> 1;
            assert(y != 0 && y < x) by (bit_vector)
                requires
                    x != 0,
                    x & 1 != 1,
                    y == x >> 1,
            ;
            lemma_nonzero_bit(y);
            let i: u64 = choose|i: u64| i < 64 && #[trigger] bit(y, i);
            assert(i < 63 && bit(x, (i + 1) as u64)) by (bit_vector)
                requires
                    i < 64,
                    bit(y, i),
                    y == x >> 1,
            ;
        }
    } else {
        assert forall|i: u64| i < 64 implies !bit(x, i) by {
            lemma_zero_bit(i);
        }
    }
}

/// The doubled-shift test along step `s` detects exactly four in a line.
proof fn lemma_line_mask(p: u64, s: u64)
    requires
        1 <= s <= 8,
    ensures
        ((p & (p >> s)) & ((p & (p >> s)) >> (2 * s) as u64) != 0) == four_in_line(p, s),
{
    let r: u64 = (p & (p >> s)) & ((p & (p >> s)) >> (2 * s) as u64);
    lemma_nonzero_bit(r);
    if r != 0 {
        let i: u64 = choose|i: u64| i < 64 && #[trigger] bit(r, i);
        lemma_line_bit(p, s, i);
    }
    if four_in_line(p, s) {
        let i: u64 = choose|i: u64|
            #![trigger bit(p, i)]
            i + 3 * s < 64 && bit(p, i) && bit(p, (i + s) as u64) && bit(p, (i + 2 * s) as u64)
                && bit(p, (i + 3 * s) as u64);
        lemma_line_bit(p, s, i);
    }
}

/// How setting or clearing one bit acts on each bit.
proof fn lemma_bit_ops(a: u64, h: u64, i: u64)
    by (bit_vector)
    requires
        h < 64,
        i < 64,
    ensures
        bit(a | (1u64 << h), i) == (i == h || bit(a, i)),
        bit(a & !(1u64 << h), i) == (i != h && bit(a, i)),
        !bit(a, h) ==> a ^ (1u64 << h) == a | (1u64 << h),
        !bit(a, h) ==> (a | (1u64 << h)) & !(1u64 << h) == a,
        bit(a, h) ==> a ^ (1u64 << h) == a & !(1u64 << h),
{
}

/// Setting or clearing a bit keeps two words disjoint, where it may.
proof fn lemma_disjoint(a: u64, b: u64, h: u64)
    by (bit_vector)
    requires
        h < 64,
        a & b == 0,
    ensures
        !bit(b, h) ==> (a | (1u64 << h)) & b == 0 && b & (a | (1u64 << h)) == 0,
        (a & !(1u64 << h)) & b == 0 && b & (a & !(1u64 << h)) == 0,
        bit(a, h) ==> !bit(b, h),
        bit(b, h) ==> !bit(a, h),
        b & a == 0,
{
}

/// Updating one column's height changes `filled` by the difference.
proof fn lemma_filled_update(h: Seq<u8>, col: int, v: u8, n: int)
    requires
        0 <= col < h.len(),
        0 <= n <= h.len(),
    ensures
        filled(h.update(col, v), n) == filled(h, n) + (if col < n {
            v - h[col]
        } else {
            0
        }),
    decreases n,
{
    if n > 0 {
        lemma_filled_update(h, col, v, n - 1);
    }
}

/// `filled` lies between one column's count and six per column.
proof fn lemma_filled_bounds(h: Seq<u8>, col: int, n: int)
    requires
        0 <= col < n <= h.len(),
        forall|c: int| 0 <= c < n ==> 0 <= #[trigger] h[c] - 7 * c <= 6,
    ensures
        h[col] - 7 * col <= filled(h, n) <= 6 * n - 6 + (h[col] - 7 * col),
    decreases n,
{
    if n - 1 > col {
        lemma_filled_update(h, col, h[col], n - 1);
        lemma_filled_bounds(h, col, n - 1);
    } else if n - 1 == col {
        lemma_filled_nonneg(h, n - 1);
    }
}

proof fn lemma_filled_nonneg(h: Seq<u8>, n: int)
    requires
        0 <= n <= h.len(),
        forall|c: int| 0 <= c < n ==> 0 <= #[trigger] h[c] - 7 * c <= 6,
    ensures
        0 <= filled(h, n) <= 6 * n,
    decreases n,
{
    if n > 0 {
        lemma_filled_nonneg(h, n - 1);
    }
}

proof fn lemma_filled_full(h: Seq<u8>, n: int)
    requires
        0 <= n <= h.len(),
        forall|c: int| 0 <= c < n ==> #[trigger] h[c] - 7 * c == 6,
    ensures
        filled(h, n) == 6 * n,
    decreases n,
{
    if n > 0 {
        lemma_filled_full(h, n - 1);
    }
}

/// A well-formed board holds at most one stone per cell.
pub proof fn lemma_moves_bound(p: Position6)
    requires
        p.wf(),
    ensures
        p.moves <= NBCOINS,
{
    assert forall|c: int| 0 <= c < 7 implies 0 <= #[trigger] p.heights@[c] - 7 * c <= 6 by {
        assert(0 <= p.lane(c) <= 6);
    }
    lemma_filled_nonneg(p.heights@, 7);
}

/// A board with fewer than all its stones has a free column.
pub proof fn lemma_free_column(p: Position6)
    requires
        p.wf(),
        p.moves < NBCOINS,
    ensures
        exists|c: int| 0 <= c < 7 && #[trigger] p.lane(c) < 6,
{
    if forall|c: int| 0 <= c < 7 ==> #[trigger] p.lane(c) >= 6 {
        assert forall|c: int| 0 <= c < 7 implies #[trigger] p.heights@[c] - 7 * c == 6 by {
            assert(p.lane(c) >= 6);
            assert(p.lane(c) <= 6);
        }
        lemma_filled_full(p.heights@, 7);
    }
}

/// The bit at the top of column `col` lies in that column's lane.
proof fn lemma_top_cell(p: Position6, col: int)
    requires
        p.wf(),
        0 <= col < 7,
    ensures
        p.heights@[col] < 49,
        p.heights@[col] / 7 == col,
        p.lane(col) < 6 ==> (p.heights@[col] % 7 != 6),
        p.lane(col) == 6 ==> (p.heights@[col] % 7 == 6),
{
    assert(0 <= p.lane(col) <= 6);
    let h = p.heights@[col] as int;
    let l = p.lane(col);
    assert(h / 7 == col && h % 7 == l) by (nonlinear_arith)
        requires
            h == 7 * col + l,
            0 <= l < 7,
    ;
}

/// A cell's index divided by seven is its column.
proof fn lemma_cell_column(i: u64)
    requires
        i < 49,
    ensures
        0 <= i / 7 < 7,
{
}

/// Dropping a stone keeps a position well formed.
pub proof fn lemma_played(p: Position6, col: int)
    requires
        p.wf(),
        0 <= col < 7,
        p.lane(col) < 6,
    ensures
        p.played(col).wf(),
        p.played(col).last_in(col),
        p.played(col).heights@ == p.heights@.update(col, (p.heights@[col] + 1) as u8),
        p.played(col).bitboard@ == p.bitboard@.update(
            p.side(),
            p.bitboard[p.side()] | (1u64 << (p.heights@[col] as u64)),
        ),
        p.played(col).moves == p.moves + 1,
{
    let q = p.played(col);
    let h = p.heights@[col] as u64;
    lemma_top_cell(p, col);
    assert forall|c: int| 0 <= c < 7 implies 0 <= #[trigger] p.heights@[c] - 7 * c <= 6 by {
        assert(0 <= p.lane(c) <= 6);
    }
    lemma_filled_bounds(p.heights@, col, 7);
    lemma_filled_update(p.heights@, col, (p.heights@[col] + 1) as u8, 7);
    assert(q.heights@ == p.heights@.update(col, (p.heights@[col] + 1) as u8));
    assert(q.bitboard@ == p.bitboard@.update(
        p.side(),
        p.bitboard[p.side()] | (1u64 << (p.heights@[col] as u64)),
    ));
    assert forall|c: int| 0 <= c < 7 implies 0 <= #[trigger] q.lane(c) <= 6 by {
        assert(0 <= p.lane(c) <= 6);
    }
    let a = p.bitboard[p.side()];
    let b = p.bitboard[1 - p.side()];
    assert(!p.occupied_cell(h));
    assert(!bit(p.bitboard[0], h) && !bit(p.bitboard[1], h));
    lemma_disjoint(p.bitboard[0], p.bitboard[1], h);
    lemma_disjoint(a, b, h);
    lemma_bit_ops(a, h, h);
    assert forall|i: u64| i < 64 && !q.occupied_cell(i) implies !bit(q.bitboard[0], i) && !bit(
        q.bitboard[1],
        i,
    ) by {
        if i < 49 {
            lemma_cell_column(i);
        }
        assert(!p.occupied_cell(i));
        assert(i != h);
        lemma_bit_ops(a, h, i);
    }
    assert forall|i: u64| i < 64 && #[trigger] q.occupied_cell(i) implies bit(q.bitboard[0], i)
        || bit(q.bitboard[1], i) by {
        lemma_cell_column(i);
        lemma_bit_ops(a, h, i);
        if i != h {
            assert(p.occupied_cell(i));
        }
    }
}

/// Taking back the last stone keeps a position well formed.
proof fn lemma_unplayed(p: Position6, col: int)
    requires
        p.wf(),
        0 <= col < 7,
        p.last_in(col),
    ensures
        p.unplayed(col).wf(),
        p.unplayed(col).heights@ == p.heights@.update(col, (p.heights@[col] - 1) as u8),
        p.unplayed(col).bitboard@ == p.bitboard@.update(
            (p.moves - 1) % 2,
            p.bitboard[(p.moves - 1) % 2] & !(1u64 << ((p.heights@[col] - 1) as u64)),
        ),
        p.unplayed(col).moves == p.moves - 1,
{
    let q = p.unplayed(col);
    let h = (p.heights@[col] - 1) as u64;
    let s = (p.moves - 1) % 2;
    lemma_top_cell(p, col);
    assert forall|c: int| 0 <= c < 7 implies 0 <= #[trigger] p.heights@[c] - 7 * c <= 6 by {
        assert(0 <= p.lane(c) <= 6);
    }
    lemma_filled_bounds(p.heights@, col, 7);
    lemma_filled_update(p.heights@, col, (p.heights@[col] - 1) as u8, 7);
    assert(q.heights@ == p.heights@.update(col, (p.heights@[col] - 1) as u8));
    assert(q.bitboard@ == p.bitboard@.update(s, p.bitboard[s] & !(1u64 << h)));
    assert forall|c: int| 0 <= c < 7 implies 0 <= #[trigger] q.lane(c) <= 6 by {
        assert(0 <= p.lane(c) <= 6);
    }
    let a = p.bitboard[s];
    let b = p.bitboard[1 - s];
    lemma_disjoint(p.bitboard[0], p.bitboard[1], h);
    lemma_disjoint(a, b, h);
    assert(h / 7 == col as u64) by (nonlinear_arith)
        requires
            h == 7 * col + p.lane(col) - 1,
            0 < p.lane(col) <= 6,
    ;
    assert forall|i: u64| i < 64 && !q.occupied_cell(i) implies !bit(q.bitboard[0], i) && !bit(
        q.bitboard[1],
        i,
    ) by {
        if i < 49 {
            lemma_cell_column(i);
        }
        lemma_bit_ops(a, h, i);
        if i != h {
            assert(!p.occupied_cell(i));
        }
    }
    assert forall|i: u64| i < 64 && #[trigger] q.occupied_cell(i) implies bit(q.bitboard[0], i)
        || bit(q.bitboard[1], i) by {
        lemma_cell_column(i);
        lemma_bit_ops(a, h, i);
        assert(p.occupied_cell(i));
        assert(i != h);
    }
}

/// With `h` stones in column `c`, the test that `can_play` makes on the
/// column's height holds exactly when `h < 6`.
pub proof fn lemma_can_play_height(p: Position6, c: int, h: int)
    requires
        0 <= c < 7,
        0 <= h <= 6,
        p.heights@[c] == 7 * c + h,
    ensures
        (p.heights@[c] % 7 != 6) == (h < 6),
{
    assert((7 * c + h) % 7 == h) by (nonlinear_arith)
        requires
            0 <= h < 7,
            0 <= c,
    ;
}

/// Dropping a stone into a column and taking it back again gives the
/// position that was there before.
pub proof fn lemma_play_unplay(p: Position6, col: int)
    requires
        p.wf(),
        0 <= col < 7,
        p.lane(col) < 6,
    ensures
        p.played(col).wf(),
        p.played(col).last_in(col),
        p.played(col).unplayed(col) == p,
{
    lemma_played(p, col);
    let q = p.played(col);
    lemma_unplayed(q, col);
    let r = q.unplayed(col);
    let h = p.heights@[col] as u64;
    lemma_top_cell(p, col);
    assert(!bit(p.bitboard[p.side()], h)) by {
        assert(!p.occupied_cell(h));
    }
    lemma_bit_ops(p.bitboard[p.side()], h, h);
    assert(r.heights =~= p.heights);
    assert(r.bitboard =~= p.bitboard);
}

proof fn lemma_zero_bit(i: u64)
    requires
        i < 64,
    ensures
        !bit(0u64, i),
{
    assert(!bit(0u64, i)) by (bit_vector);
}

} // verus!
