//! A simpler round of the game: its shift slides and merges tiles without adding a new one,
//! and records each move in a 4 x 4 grid of hints.
use vstd::prelude::*;

use rand::rngs::SmallRng;

use crate::random::gen_below;
use crate::tui::geometry::Direction;

verus! {

/// A slot of the board: its column and its row.
#[derive(Clone, Copy, Debug, Default, PartialEq, Eq, Structural)]
pub struct Idx(pub usize, pub usize);

/// For each slot (indexed by row, then column) the slot its tile moved to, if it moved.
pub struct AnimationHint {
    hint: [[Option<Idx>; 4]; 4],
    changed: bool,
}

impl View for AnimationHint {
    type V = Seq<Seq<Option<Idx>>>;

    closed spec fn view(&self) -> Seq<Seq<Option<Idx>>> {
        Seq::new(4, |y: int| self.hint[y]@)
    }
}

impl AnimationHint {
    /// Whether any move was recorded.
    pub closed spec fn spec_changed(&self) -> bool {
        self.changed
    }

    /// A record of no move.
    pub fn default() -> (r: AnimationHint)
        ensures
            forall|x: int, y: int| 0 <= x < 4 && 0 <= y < 4 ==> #[trigger] r@[y][x] is None,
            !r.spec_changed(),
    {
        AnimationHint {
            hint: [[None, None, None, None], [None, None, None, None], [None, None, None, None], [
                None,
                None,
                None,
                None,
            ]],
            changed: false,
        }
    }

    fn get_mut(&mut self, idx: &Idx) -> (r: &mut Option<Idx>)
        requires
            idx.0 < 4 && idx.1 < 4,
        ensures
            *r == old(self)@[idx.1 as int][idx.0 as int],
            final(self).changed == old(self).changed,
            forall|x: int, y: int|
                0 <= x < 4 && 0 <= y < 4 ==> #[trigger] final(self)@[y][x] == if x == idx.0 && y
                    == idx.1 {
                    *final(r)
                } else {
                    old(self)@[y][x]
                },
    {
        &mut self.hint[idx.1][idx.0]
    }

    /// Records that the tile of slot `idx` moved to slot `value`.
    pub fn set(&mut self, idx: &Idx, value: Idx)
        requires
            idx.0 < 4 && idx.1 < 4,
        ensures
            final(self).spec_changed(),
            forall|x: int, y: int|
                0 <= x < 4 && 0 <= y < 4 ==> #[trigger] final(self)@[y][x] == if x == idx.0 && y
                    == idx.1 {
                    Some(value)
                } else {
                    old(self)@[y][x]
                },
    {
        self.changed = true;
        let rf = self.get_mut(idx);
        *rf = Some(value);
    }

    /// Whether any move was recorded.
    pub fn changed(&self) -> (r: bool)
        ensures
            r == self.spec_changed(),
    {
        self.changed
    }
}

/// One round of the game: the values of the 16 slots (zero for an empty slot, indexed by
/// row and then by column) and the score.
#[derive(Debug, Default, PartialEq, Eq)]
pub struct Round {
    pub slots: [[u16; 4]; 4],
    pub score: u16,
}

impl Clone for Round {
    fn clone(&self) -> (r: Round)
        ensures
            r == *self,
    {
        Round { slots: self.slots, score: self.score }
    }
}

/// The column and row of position `j` of row `r` when the board is read towards `d`.
pub open spec fn traversal_idx(d: Direction, r: int, j: int) -> Idx {
    match d {
        Direction::Left => Idx(j as usize, r as usize),
        Direction::Right => Idx((3 - j) as usize, r as usize),
        Direction::Up => Idx(r as usize, j as usize),
        Direction::Down => Idx(r as usize, (3 - j) as usize),
    }
}

/// The row and the position in that row of the slot at column `x` and row `y`.
pub open spec fn row_of(d: Direction, x: int, y: int) -> (int, int) {
    match d {
        Direction::Left => (y, x),
        Direction::Right => (y, 3 - x),
        Direction::Up => (x, y),
        Direction::Down => (x, 3 - y),
    }
}

pub open spec fn row_values(slots: [[u16; 4]; 4], d: Direction, r: int) -> Seq<u16> {
    Seq::new(4, |j: int| { let i = traversal_idx(d, r, j); slots[i.1 as int][i.0 as int] })
}

/// Where one row stands during a shift: its values, the pivot position, the score gained
/// and the moves so far (the position a tile came from and the position it went to).
pub struct LegacyScan {
    pub row: Seq<int>,
    pub pivot: int,
    pub gain: int,
    pub moves: Seq<(int, int)>,
}

/// Compares position `c` with the pivot: an empty slot is skipped; a tile goes to an empty
/// pivot, which stays the pivot; a tile equal to the pivot merges into it; then, unless the
/// tile went to an empty pivot, position `c` becomes the pivot.
pub open spec fn legacy_step(s: LegacyScan, c: int) -> LegacyScan {
    let pv = s.row[s.pivot];
    let cv = s.row[c];
    if cv == 0 {
        s
    } else if pv == 0 {
        LegacyScan {
            row: s.row.update(s.pivot, cv).update(c, 0),
            moves: s.moves.push((c, s.pivot)),
            ..s
        }
    } else if pv == cv {
        LegacyScan {
            row: s.row.update(s.pivot, 2 * cv).update(c, 0),
            pivot: c,
            gain: s.gain + cv,
            moves: s.moves.push((c, s.pivot)),
        }
    } else {
        LegacyScan { pivot: c, ..s }
    }
}

/// The row after comparing positions `1..c` with the pivot.
pub open spec fn legacy_scan(row: Seq<u16>, c: nat) -> LegacyScan
    decreases c,
{
    if c <= 1 {
        LegacyScan {
            row: Seq::new(4, |j: int| row[j] as int),
            pivot: 0,
            gain: 0,
            moves: Seq::empty(),
        }
    } else {
        legacy_step(legacy_scan(row, (c - 1) as nat), c - 1)
    }
}

/// In a row read towards the shift, when the first two tiles are equal, only empty slots
/// before and between them, the first slot of the row ends up holding one tile of twice their
/// value, and the row scores at least that value: a tile that moves into the empty first slot
/// stays the pivot, so the next equal tile merges into it.
pub proof fn law_legacy_first_equal_pair_merges(row: Seq<u16>, i: int, j: int)
    requires
        row.len() == 4,
        0 <= i < j < 4,
        row[i] > 0,
        row[j] == row[i],
        forall|k: int| 0 <= k < j && k != i ==> row[k] == 0,
    ensures
        legacy_scan(row, 4).row[0] == 2 * row[i],
        legacy_scan(row, 4).gain >= row[i],
{
    reveal_with_fuel(legacy_scan, 5);
}

/// In a row read towards the shift, when the first two tiles differ, only empty slots before
/// and between them, the first slot of the row ends up holding the first tile unchanged.
pub proof fn law_legacy_first_unequal_pair_stays(row: Seq<u16>, i: int, j: int)
    requires
        row.len() == 4,
        0 <= i < j < 4,
        row[i] > 0,
        row[j] > 0,
        row[j] != row[i],
        forall|k: int| 0 <= k < j && k != i ==> row[k] == 0,
    ensures
        legacy_scan(row, 4).row[0] == row[i],
{
    reveal_with_fuel(legacy_scan, 5);
}

/// In a row read towards the shift that holds a single tile, the tile ends up in the first
/// slot and nothing is scored.
pub proof fn law_legacy_single_tile_goes_first(row: Seq<u16>, i: int)
    requires
        row.len() == 4,
        0 <= i < 4,
        row[i] > 0,
        forall|k: int| 0 <= k < 4 && k != i ==> row[k] == 0,
    ensures
        legacy_scan(row, 4).row[0] == row[i],
        forall|k: int| 1 <= k < 4 ==> legacy_scan(row, 4).row[k] == 0,
        legacy_scan(row, 4).gain == 0,
{
    reveal_with_fuel(legacy_scan, 5);
}

/// A shift keeps the total of a row, and scores at most half of it: every merge turns two equal
/// tiles into one of their sum, scoring one of them, and no tile takes part in two merges.
pub proof fn law_legacy_row_keeps_its_total(row: Seq<u16>)
    requires
        row.len() == 4,
    ensures
        legacy_scan(row, 4).row[0] + legacy_scan(row, 4).row[1] + legacy_scan(row, 4).row[2] + legacy_scan(row, 4).row[3]
            == row[0] + row[1] + row[2] + row[3],
        2 * legacy_scan(row, 4).gain <= row[0] + row[1] + row[2] + row[3],
        legacy_scan(row, 4).gain >= 0,
{
    reveal_with_fuel(legacy_scan, 5);
}

/// The shift of a round (see `Round::shift`) merges the first two tiles of a row when they are
/// equal with only empty slots before and between them: the first slot of the row, towards the
/// shift, holds twice their value afterwards, and the row adds at least that value to the score.
pub proof fn law_legacy_shift_merges_first_equal_pair(slots: [[u16; 4]; 4], d: Direction, r: int, i: int, j: int)
    requires
        0 <= r < 4,
        0 <= i < j < 4,
        row_values(slots, d, r)[i] > 0,
        row_values(slots, d, r)[j] == row_values(slots, d, r)[i],
        forall|k: int| 0 <= k < j && k != i ==> row_values(slots, d, r)[k] == 0,
    ensures
        legacy_value(slots, d, traversal_idx(d, r, 0).0 as int, traversal_idx(d, r, 0).1 as int) == 2 * row_values(slots, d, r)[i],
        legacy_gain_upto(slots, d, (r + 1) as nat) >= legacy_gain_upto(slots, d, r as nat) + row_values(slots, d, r)[i],
{
    lemma_traversal(d);
    law_legacy_first_equal_pair_merges(row_values(slots, d, r), i, j);
}

/// Whether every merge of the row and the new score stay within `u16`, given the score
/// before the row.
pub open spec fn legacy_row_fits(row: Seq<u16>, score: int) -> bool {
    &&& forall|c: int, j: int|
        1 <= c <= 4 && 0 <= j < 4 ==> #[trigger] legacy_scan(row, c as nat).row[j] <= u16::MAX
    &&& score + legacy_scan(row, 4).gain <= u16::MAX
}

pub open spec fn legacy_gain_upto(slots: [[u16; 4]; 4], d: Direction, n: nat) -> int
    decreases n,
{
    if n == 0 {
        0
    } else {
        legacy_gain_upto(slots, d, (n - 1) as nat) + legacy_scan(row_values(slots, d, n - 1), 4).gain
    }
}

/// Whether a shift of `round` towards `d` stays within `u16`.
pub open spec fn legacy_fits(round: Round, d: Direction) -> bool {
    legacy_slots_fit(round.slots, round.score as int, d)
}

/// Whether shifting `slots` towards `d`, from score `score`, stays within `u16`.
pub open spec fn legacy_slots_fit(slots: [[u16; 4]; 4], score: int, d: Direction) -> bool {
    forall|r: int|
        0 <= r < 4 ==> legacy_row_fits(
            #[trigger] row_values(slots, d, r),
            score + legacy_gain_upto(slots, d, r as nat),
        )
}

/// The value of the slot at column `x` and row `y` after a shift towards `d`.
pub open spec fn legacy_value(slots: [[u16; 4]; 4], d: Direction, x: int, y: int) -> int {
    let (r, j) = row_of(d, x, y);
    legacy_scan(row_values(slots, d, r), 4).row[j]
}

/// The position that the last move from position `j` among the first `n` moves went to.
pub open spec fn find_move(moves: Seq<(int, int)>, n: int, j: int) -> Option<int>
    decreases n,
{
    if n <= 0 {
        None
    } else if moves[n - 1].0 == j {
        Some(moves[n - 1].1)
    } else {
        find_move(moves, n - 1, j)
    }
}

/// The hint a shift towards `d` records for the slot at column `x` and row `y`: the slot
/// its tile moved to, if it moved.
pub open spec fn legacy_hint_at(slots: [[u16; 4]; 4], d: Direction, x: int, y: int) -> Option<Idx> {
    let (r, j) = row_of(d, x, y);
    let moves = legacy_scan(row_values(slots, d, r), 4).moves;
    match find_move(moves, moves.len() as int, j) {
        Some(t) => Some(traversal_idx(d, r, t)),
        None => None,
    }
}

/// Whether any tile moves in a shift towards `d`.
pub open spec fn legacy_moves_any(slots: [[u16; 4]; 4], d: Direction) -> bool {
    exists|r: int| 0 <= r < 4 && #[trigger] legacy_scan(row_values(slots, d, r), 4).moves.len() > 0
}

/// The state of a `RoundIterator` after it has yielded `n` slots towards `d`.
pub open spec fn iterator_position(d: Direction, n: int) -> (usize, usize) {
    match d {
        Direction::Left => ((n % 4) as usize, (n / 4) as usize),
        Direction::Right => ((3 - n % 4) as usize, (n / 4) as usize),
        Direction::Up => ((n / 4) as usize, (n % 4) as usize),
        Direction::Down => ((n / 4) as usize, (3 - n % 4) as usize),
    }
}

/// Lists the slots of a round row by row, each row read towards `direction`.
pub struct RoundIterator {
    pub direction: Direction,
    pub x_width: usize,
    pub y_width: usize,
    pub xdx: usize,
    pub ydx: usize,
}

/// Whether a `RoundIterator` is in a state from which it can step.
pub open spec fn iterator_wf(it: RoundIterator) -> bool {
    &&& it.x_width > 0
    &&& it.y_width > 0
    &&& match it.direction {
        Direction::Left | Direction::Right => it.xdx < it.x_width && it.ydx <= it.y_width,
        Direction::Up | Direction::Down => it.ydx < it.y_width && it.xdx <= it.x_width,
    }
}

/// One step of a `RoundIterator`: the slot it yields and its next state.
pub open spec fn iterator_step(it: RoundIterator) -> (Option<Idx>, RoundIterator) {
    match it.direction {
        Direction::Left => if it.ydx == it.y_width {
            (None, it)
        } else if it.xdx == it.x_width - 1 {
            (Some(Idx(it.xdx, it.ydx)), RoundIterator { xdx: 0, ydx: (it.ydx + 1) as usize, ..it })
        } else {
            (Some(Idx(it.xdx, it.ydx)), RoundIterator { xdx: (it.xdx + 1) as usize, ..it })
        },
        Direction::Right => if it.ydx == it.y_width {
            (None, it)
        } else if it.xdx == 0 {
            (
                Some(Idx(it.xdx, it.ydx)),
                RoundIterator {
                    xdx: (it.x_width - 1) as usize,
                    ydx: (it.ydx + 1) as usize,
                    ..it
                },
            )
        } else {
            (Some(Idx(it.xdx, it.ydx)), RoundIterator { xdx: (it.xdx - 1) as usize, ..it })
        },
        Direction::Up => if it.xdx == it.x_width {
            (None, it)
        } else if it.ydx == it.y_width - 1 {
            (Some(Idx(it.xdx, it.ydx)), RoundIterator { ydx: 0, xdx: (it.xdx + 1) as usize, ..it })
        } else {
            (Some(Idx(it.xdx, it.ydx)), RoundIterator { ydx: (it.ydx + 1) as usize, ..it })
        },
        Direction::Down => if it.xdx == it.x_width {
            (None, it)
        } else if it.ydx == 0 {
            (
                Some(Idx(it.xdx, it.ydx)),
                RoundIterator {
                    ydx: (it.y_width - 1) as usize,
                    xdx: (it.xdx + 1) as usize,
                    ..it
                },
            )
        } else {
            (Some(Idx(it.xdx, it.ydx)), RoundIterator { ydx: (it.ydx - 1) as usize, ..it })
        },
    }
}

impl RoundIterator {
    /// Starts at the first slot of the first row read towards `direction`.
    pub fn new(round: &Round, direction: Direction) -> (r: RoundIterator)
        ensures
            r.direction == direction,
            r.x_width == 4,
            r.y_width == 4,
            (r.xdx, r.ydx) == iterator_position(direction, 0),
    {
        let (x_width, y_width) = (round.slots.len(), round.slots[0].len());
        let (xdx, ydx) = match direction {
            Direction::Left => (0, 0),
            Direction::Right => (x_width - 1, 0),
            Direction::Up => (0, 0),
            Direction::Down => (0, y_width - 1),
        };
        RoundIterator { direction, x_width, y_width, xdx, ydx }
    }

    /// Yields the next slot, or `None` once every slot was yielded.
    pub fn next(&mut self) -> (r: Option<Idx>)
        requires
            iterator_wf(*old(self)),
        ensures
            (r, *final(self)) == iterator_step(*old(self)),
            iterator_wf(*final(self)),
    {
        match (&self.direction, self.xdx, self.ydx) {
            (Direction::Left, _, ydx) if ydx == self.y_width => None,
            (Direction::Left, xdx, ydx) => {
                if xdx == self.x_width - 1 {
                    self.xdx = 0;
                    self.ydx = self.ydx + 1;
                } else {
                    self.xdx = self.xdx + 1;
                }
                Some(Idx(xdx, ydx))
            },
            (Direction::Right, _, ydx) if ydx == self.y_width => None,
            (Direction::Right, xdx, ydx) => {
                if xdx == 0 {
                    self.xdx = self.x_width - 1;
                    self.ydx = self.ydx + 1;
                } else {
                    self.xdx = self.xdx - 1;
                }
                Some(Idx(xdx, ydx))
            },
            (Direction::Up, xdx, _) if xdx == self.x_width => None,
            (Direction::Up, xdx, ydx) => {
                if ydx == self.y_width - 1 {
                    self.ydx = 0;
                    self.xdx = self.xdx + 1;
                } else {
                    self.ydx = self.ydx + 1;
                }
                Some(Idx(xdx, ydx))
            },
            (Direction::Down, xdx, _) if xdx == self.x_width => None,
            (Direction::Down, xdx, ydx) => {
                if ydx == 0 {
                    self.ydx = self.y_width - 1;
                    self.xdx = self.xdx + 1;
                } else {
                    self.ydx = self.ydx - 1;
                }
                Some(Idx(xdx, ydx))
            },
        }
    }
}

proof fn lemma_traversal(d: Direction)
    ensures
        forall|r: int, j: int|
            0 <= r < 4 && 0 <= j < 4 ==> {
                let i = #[trigger] traversal_idx(d, r, j);
                &&& i.0 < 4 && i.1 < 4
                &&& row_of(d, i.0 as int, i.1 as int) == (r, j)
            },
        forall|x: int, y: int|
            0 <= x < 4 && 0 <= y < 4 ==> {
                let (r, j) = #[trigger] row_of(d, x, y);
                &&& 0 <= r < 4
                &&& 0 <= j < 4
                &&& traversal_idx(d, r, j) == Idx(x as usize, y as usize)
            },
{
}

proof fn lemma_find_move_push(moves: Seq<(int, int)>, mv: (int, int), n: int, j: int)
    requires
        0 <= n <= moves.len(),
    ensures
        find_move(moves.push(mv), n, j) == find_move(moves, n, j),
    decreases n,
{
    if n > 0 {
        assert(moves.push(mv)[n - 1] == moves[n - 1]);
        lemma_find_move_push(moves, mv, n - 1, j);
    }
}

proof fn lemma_legacy_basics(row: Seq<u16>, c: nat)
    requires
        c <= 4,
        row.len() == 4,
    ensures
        legacy_scan(row, c).row.len() == 4,
        0 <= legacy_scan(row, c).pivot < 4,
        c >= 1 ==> legacy_scan(row, c).pivot < c,
        legacy_scan(row, c).gain >= 0,
        forall|j: int| c <= j < 4 ==> legacy_scan(row, c).row[j] == row[j],
        forall|j: int| 0 <= j < 4 ==> legacy_scan(row, c).row[j] >= 0,
        forall|m: int|
            0 <= m < legacy_scan(row, c).moves.len() ==> {
                let mv = #[trigger] legacy_scan(row, c).moves[m];
                &&& 0 <= mv.0 < 4
                &&& 0 <= mv.1 < 4
            },
    decreases c,
{
    if c > 1 {
        lemma_legacy_basics(row, (c - 1) as nat);
    }
}

proof fn lemma_legacy_gain_monotone(row: Seq<u16>, c: nat, e: nat)
    requires
        1 <= c <= e <= 4,
        row.len() == 4,
    ensures
        legacy_scan(row, c).gain <= legacy_scan(row, e).gain,
    decreases e - c,
{
    if c < e {
        lemma_legacy_gain_monotone(row, c, (e - 1) as nat);
        lemma_legacy_basics(row, (e - 1) as nat);
    }
}

/// Whether `grid` is `before` with the moves `moves` of row `r` (read towards `d`) recorded:
/// each slot of the row whose tile moved names the slot it moved to; all other slots keep
/// their hint.
pub open spec fn hints_recorded(
    before: Seq<Seq<Option<Idx>>>,
    grid: Seq<Seq<Option<Idx>>>,
    d: Direction,
    r: int,
    moves: Seq<(int, int)>,
) -> bool {
    forall|x: int, y: int|
        0 <= x < 4 && 0 <= y < 4 ==> #[trigger] grid[y][x] == {
            let (rr, j) = row_of(d, x, y);
            if rr == r {
                match find_move(moves, moves.len() as int, j) {
                    Some(t) => Some(traversal_idx(d, r, t)),
                    None => before[y][x],
                }
            } else {
                before[y][x]
            }
        }
}

proof fn lemma_record_move(
    h0: Seq<Seq<Option<Idx>>>,
    grid: Seq<Seq<Option<Idx>>>,
    grid2: Seq<Seq<Option<Idx>>>,
    d: Direction,
    r: int,
    moves: Seq<(int, int)>,
    from: int,
    to: int,
)
    requires
        0 <= r < 4,
        0 <= from < 4,
        0 <= to < 4,
        hints_recorded(h0, grid, d, r, moves),
        forall|x: int, y: int|
            0 <= x < 4 && 0 <= y < 4 ==> #[trigger] grid2[y][x] == if x == traversal_idx(
                d,
                r,
                from,
            ).0 && y == traversal_idx(d, r, from).1 {
                Some(traversal_idx(d, r, to))
            } else {
                grid[y][x]
            },
    ensures
        hints_recorded(h0, grid2, d, r, moves.push((from, to))),
{
    lemma_traversal(d);
    let m2 = moves.push((from, to));
    assert forall|x: int, y: int| 0 <= x < 4 && 0 <= y < 4 implies #[trigger] grid2[y][x] == {
        let (rr, j) = row_of(d, x, y);
        if rr == r {
            match find_move(m2, m2.len() as int, j) {
                Some(t) => Some(traversal_idx(d, r, t)),
                None => h0[y][x],
            }
        } else {
            h0[y][x]
        }
    } by {
        let (rr, j) = row_of(d, x, y);
        lemma_find_move_push(moves, (from, to), moves.len() as int, j);
        assert(grid[y][x] == {
            if rr == r {
                match find_move(moves, moves.len() as int, j) {
                    Some(t) => Some(traversal_idx(d, r, t)),
                    None => h0[y][x],
                }
            } else {
                h0[y][x]
            }
        });
    }
}

/// Slides one row: `vals` are its values and `idxs[base..base + 4]` its slots, row `r` read
/// towards `d`.
fn legacy_slide_row(
    vals: &mut [u16; 4],
    idxs: &Vec<Idx>,
    base: usize,
    hint: &mut AnimationHint,
    score: &mut u16,
    Ghost(d): Ghost<Direction>,
    Ghost(r): Ghost<int>,
)
    requires
        0 <= r < 4,
        base + 4 <= idxs@.len(),
        forall|j: int| 0 <= j < 4 ==> idxs@[base + j] == traversal_idx(d, r, j),
        legacy_row_fits(old(vals)@, *old(score) as int),
    ensures
        forall|j: int| 0 <= j < 4 ==> final(vals)@[j] as int == legacy_scan(old(vals)@, 4).row[j],
        *final(score) == *old(score) + legacy_scan(old(vals)@, 4).gain,
        hints_recorded(old(hint)@, final(hint)@, d, r, legacy_scan(old(vals)@, 4).moves),
        final(hint).spec_changed() == (old(hint).spec_changed() || legacy_scan(
            old(vals)@,
            4,
        ).moves.len() > 0),
{
    let ghost o: Seq<u16> = vals@;
    let ghost h0 = hint@;
    let ghost c0 = hint.spec_changed();
    let ghost g0: int = *score as int;
    proof {
        lemma_traversal(d);
        assert(hints_recorded(h0, hint@, d, r, legacy_scan(o, 1).moves));
    }
    let len = idxs.len();
    let mut p: usize = 0;
    let mut empty_slot_idx: Option<Idx> = None;
    let mut c: usize = 1;
    while c < 4
        invariant
            len == idxs@.len(),
            o.len() == 4,
            o == old(vals)@,
            h0 == old(hint)@,
            c0 == old(hint).spec_changed(),
            g0 == *old(score) as int,
            0 <= r < 4,
            base + 4 <= idxs@.len(),
            forall|j: int| 0 <= j < 4 ==> idxs@[base + j] == traversal_idx(d, r, j),
            forall|rr: int, j: int|
                0 <= rr < 4 && 0 <= j < 4 ==> {
                    let i = #[trigger] traversal_idx(d, rr, j);
                    &&& i.0 < 4 && i.1 < 4
                    &&& row_of(d, i.0 as int, i.1 as int) == (rr, j)
                },
            legacy_row_fits(o, g0),
            1 <= c <= 4,
            vals@.len() == 4,
            forall|j: int| 0 <= j < 4 ==> vals@[j] as int == legacy_scan(o, c as nat).row[j],
            p as int == legacy_scan(o, c as nat).pivot,
            *score as int == g0 + legacy_scan(o, c as nat).gain,
            hints_recorded(h0, hint@, d, r, legacy_scan(o, c as nat).moves),
            hint.spec_changed() == (c0 || legacy_scan(o, c as nat).moves.len() > 0),
        decreases 4 - c,
    {
        let ghost s = legacy_scan(o, c as nat);
        proof {
            lemma_legacy_basics(o, c as nat);
            lemma_legacy_basics(o, (c + 1) as nat);
            lemma_legacy_gain_monotone(o, (c + 1) as nat, 4);
            assert(legacy_scan(o, (c + 1) as nat) == legacy_step(s, c as int));
        }
        let pivot = vals[p];
        let probe_pos = c;
        let probe = vals[c];
        assert(idxs@[base + probe_pos] == traversal_idx(d, r, probe_pos as int));
        assert(idxs@[base + p] == traversal_idx(d, r, p as int));
        c = c + 1;
        if probe == 0 {
            if empty_slot_idx.is_none() {
                empty_slot_idx = Some(idxs[base + probe_pos]);
            }
            continue ;
        }
        if pivot == 0 {
            vals[p] = probe;
            vals[probe_pos] = 0;
            let ghost grid_before = hint@;
            hint.set(&idxs[base + probe_pos], idxs[base + p]);
            proof {
                let s2 = legacy_scan(o, c as nat);
                assert(s2.moves == s.moves.push((probe_pos as int, p as int)));
                lemma_record_move(
                    h0,
                    grid_before,
                    hint@,
                    d,
                    r,
                    s.moves,
                    probe_pos as int,
                    p as int,
                );
            }
            continue ;
        }
        if pivot == probe {
            proof {
                assert(legacy_scan(o, c as nat).row[p as int] == 2 * probe);
            }
            *score = *score + probe;
            vals[p] = pivot + probe;
            vals[probe_pos] = 0;
            let ghost grid_before = hint@;
            hint.set(&idxs[base + probe_pos], idxs[base + p]);
            proof {
                let s2 = legacy_scan(o, c as nat);
                assert(s2.moves == s.moves.push((probe_pos as int, p as int)));
                lemma_record_move(
                    h0,
                    grid_before,
                    hint@,
                    d,
                    r,
                    s.moves,
                    probe_pos as int,
                    p as int,
                );
            }
        }
        p = probe_pos;
    }
}

/// Whether `slots` holds tiles of value 2 at `a` and at the top left slot, and nothing
/// else, `a` within the first three columns and rows.
pub open spec fn starting_tiles(slots: [[u16; 4]; 4], a: Idx) -> bool {
    &&& a.0 < 3 && a.1 < 3
    &&& forall|x: int, y: int|
        0 <= x < 4 && 0 <= y < 4 ==> #[trigger] slots[y][x] == if (x == a.0 && y == a.1) || (x
            == 0 && y == 0) {
            2u16
        } else {
            0u16
        }
}

pub open spec fn row_pos(r: int, j: int) -> int {
    4 * r + j
}

impl Round {
    pub fn score(&self) -> (r: u16)
        ensures
            r == self.score,
    {
        self.score
    }

    /// A round with a tile of value 2 at a random slot among the first three columns and
    /// rows, and another at the top left slot. The random slot is followed by draws that
    /// repeat until they differ from it; those draws advance the generator only.
    pub fn random(rng: &mut SmallRng) -> (r: Round)
        ensures
            r.score == 0,
            exists|a: Idx| #[trigger] starting_tiles(r.slots, a),
    {
        let mut r = Round {
            slots: [[0, 0, 0, 0], [0, 0, 0, 0], [0, 0, 0, 0], [0, 0, 0, 0]],
            score: 0,
        };
        let (xdx2, ydx2): (usize, usize) = (0, 0);
        let (xdx1, ydx1) = (gen_below(rng, 3), gen_below(rng, 3));
        // Each attempt draws a fresh pair; the pair is not kept. The attempt count only bounds
        // the loop for the proof of termination, and no run comes near it.
        let mut attempts: u64 = 0;
        while attempts < u64::MAX
            decreases u64::MAX - attempts,
        {
            let (xdx3, ydx3) = (gen_below(rng, 3), gen_below(rng, 3));
            if xdx1 == xdx3 && ydx1 == ydx3 {
                attempts = attempts + 1;
                continue ;
            }
            break ;
        }
        r.slots[ydx1][xdx1] = 2;
        r.slots[ydx2][xdx2] = 2;
        assert(starting_tiles(r.slots, Idx(xdx1, ydx1)));
        r
    }

    pub fn iter_mut(&self, direction: Direction) -> (r: RoundIterator)
        ensures
            r.direction == direction,
            r.x_width == 4,
            r.y_width == 4,
            (r.xdx, r.ydx) == iterator_position(direction, 0),
    {
        RoundIterator::new(self, direction)
    }

    fn collect_indices(&self, direction: Direction) -> (idxs: Vec<Idx>)
        ensures
            idxs@.len() == 16,
            forall|r: int, j: int|
                0 <= r < 4 && 0 <= j < 4 ==> #[trigger] idxs@[row_pos(r, j)] == traversal_idx(
                    direction,
                    r,
                    j,
                ),
    {
        let mut it = self.iter_mut(direction);
        let mut idxs: Vec<Idx> = Vec::new();
        loop
            invariant_except_break
                idxs@.len() <= 16,
                it == (RoundIterator {
                    direction,
                    x_width: 4,
                    y_width: 4,
                    xdx: iterator_position(direction, idxs@.len() as int).0,
                    ydx: iterator_position(direction, idxs@.len() as int).1,
                }),
                forall|n: int|
                    0 <= n < idxs@.len() ==> #[trigger] idxs@[n] == traversal_idx(
                        direction,
                        n / 4,
                        n % 4,
                    ),
            ensures
                idxs@.len() == 16,
                forall|n: int|
                    0 <= n < idxs@.len() ==> #[trigger] idxs@[n] == traversal_idx(
                        direction,
                        n / 4,
                        n % 4,
                    ),
            decreases 16 - idxs@.len(),
        {
            proof {
                lemma_iterator_step(direction, idxs@.len() as int);
            }
            match it.next() {
                Some(idx) => idxs.push(idx),
                None => break ,
            }
        }
        assert forall|r: int, j: int| 0 <= r < 4 && 0 <= j < 4 implies #[trigger] idxs@[row_pos(
            r,
            j,
        )] == traversal_idx(direction, r, j) by {
            assert(row_pos(r, j) / 4 == r && row_pos(r, j) % 4 == j);
        }
        idxs
    }

    fn get(&self, idx: &Idx) -> (r: u16)
        requires
            idx.0 < 4 && idx.1 < 4,
        ensures
            r == self.slots[idx.1 as int][idx.0 as int],
    {
        self.slots[idx.1][idx.0]
    }

    fn get_mut(&mut self, idx: &Idx) -> (r: &mut u16)
        requires
            idx.0 < 4 && idx.1 < 4,
        ensures
            *r == old(self).slots[idx.1 as int][idx.0 as int],
            final(self).score == old(self).score,
            forall|x: int, y: int|
                0 <= x < 4 && 0 <= y < 4 ==> #[trigger] final(self).slots[y][x] == if x == idx.0
                    && y == idx.1 {
                    *final(r)
                } else {
                    old(self).slots[y][x]
                },
    {
        &mut self.slots[idx.1][idx.0]
    }

    fn set(&mut self, idx: &Idx, value: u16)
        requires
            idx.0 < 4 && idx.1 < 4,
        ensures
            final(self).score == old(self).score,
            forall|x: int, y: int|
                0 <= x < 4 && 0 <= y < 4 ==> #[trigger] final(self).slots[y][x] == if x == idx.0
                    && y == idx.1 {
                    value
                } else {
                    old(self).slots[y][x]
                },
    {
        let rf = self.get_mut(idx);
        *rf = value;
    }

    /// Shifts the round towards `direction`, row after row: each tile is compared with a
    /// pivot, moves to it when the pivot is empty, merges into it when equal (scoring its
    /// value), and otherwise becomes the pivot. The hints name, for each slot whose tile
    /// moved, the slot it moved to; they come back when any tile moved.
    #[verifier::rlimit(50)]
    pub fn shift(&mut self, direction: &Direction) -> (r: Option<AnimationHint>)
        requires
            legacy_fits(*old(self), *direction),
        ensures
            forall|x: int, y: int|
                0 <= x < 4 && 0 <= y < 4 ==> #[trigger] final(self).slots[y][x] == legacy_value(
                    old(self).slots,
                    *direction,
                    x,
                    y,
                ),
            final(self).score == old(self).score + legacy_gain_upto(old(self).slots, *direction, 4),
            r is Some <==> legacy_moves_any(old(self).slots, *direction),
            r matches Some(h) ==> forall|x: int, y: int|
                0 <= x < 4 && 0 <= y < 4 ==> #[trigger] h@[y][x] == legacy_hint_at(
                    old(self).slots,
                    *direction,
                    x,
                    y,
                ),
    {
        let d = *direction;
        let mut hint = AnimationHint::default();
        let idxs = self.collect_indices(d);
        let ghost old_slots = self.slots;
        let ghost old_score = self.score;
        proof {
            lemma_traversal(d);
        }
        let mut score = self.score;
        let mut row: usize = 0;
        while row < 4
            invariant
                idxs@.len() == 16,
                forall|r: int, j: int|
                    0 <= r < 4 && 0 <= j < 4 ==> #[trigger] idxs@[row_pos(r, j)] == traversal_idx(
                        d,
                        r,
                        j,
                    ),
                forall|rr: int, j: int|
                    0 <= rr < 4 && 0 <= j < 4 ==> {
                        let i = #[trigger] traversal_idx(d, rr, j);
                        &&& i.0 < 4 && i.1 < 4
                        &&& row_of(d, i.0 as int, i.1 as int) == (rr, j)
                    },
                forall|x: int, y: int|
                    0 <= x < 4 && 0 <= y < 4 ==> {
                        let (rr, j) = #[trigger] row_of(d, x, y);
                        &&& 0 <= rr < 4
                        &&& 0 <= j < 4
                        &&& traversal_idx(d, rr, j) == Idx(x as usize, y as usize)
                    },
                legacy_slots_fit(old_slots, old_score as int, d),
                row <= 4,
                forall|x: int, y: int|
                    0 <= x < 4 && 0 <= y < 4 ==> #[trigger] self.slots[y][x] == if row_of(
                        d,
                        x,
                        y,
                    ).0 < row {
                        legacy_value(old_slots, d, x, y)
                    } else {
                        old_slots[y][x] as int
                    },
                forall|x: int, y: int|
                    0 <= x < 4 && 0 <= y < 4 ==> #[trigger] hint@[y][x] == if row_of(d, x, y).0
                        < row {
                        legacy_hint_at(old_slots, d, x, y)
                    } else {
                        None
                    },
                hint.spec_changed() == (exists|r: int|
                    0 <= r < row && #[trigger] legacy_scan(row_values(old_slots, d, r), 4).moves.len()
                        > 0),
                score == old_score + legacy_gain_upto(old_slots, d, row as nat),
            decreases 4 - row,
        {
            let base = row * 4;
            assert(idxs@[row_pos(row as int, 0)] == traversal_idx(d, row as int, 0));
            assert(idxs@[row_pos(row as int, 1)] == traversal_idx(d, row as int, 1));
            assert(idxs@[row_pos(row as int, 2)] == traversal_idx(d, row as int, 2));
            assert(idxs@[row_pos(row as int, 3)] == traversal_idx(d, row as int, 3));
            let mut vals: [u16; 4] = [
                self.get(&idxs[base]),
                self.get(&idxs[base + 1]),
                self.get(&idxs[base + 2]),
                self.get(&idxs[base + 3]),
            ];
            let ghost hint_before = hint@;
            let ghost changed_before = hint.spec_changed();
            proof {
                assert(vals@ =~= row_values(old_slots, d, row as int));
                assert(legacy_row_fits(
                    row_values(old_slots, d, row as int),
                    old_score + legacy_gain_upto(old_slots, d, row as nat),
                ));
                assert forall|j: int| 0 <= j < 4 implies idxs@[base + j] == traversal_idx(
                    d,
                    row as int,
                    j,
                ) by {
                    assert(idxs@[row_pos(row as int, j)] == traversal_idx(d, row as int, j));
                }
            }
            legacy_slide_row(
                &mut vals,
                &idxs,
                base,
                &mut hint,
                &mut score,
                Ghost(d),
                Ghost(row as int),
            );
            self.set(&idxs[base], vals[0]);
            self.set(&idxs[base + 1], vals[1]);
            self.set(&idxs[base + 2], vals[2]);
            self.set(&idxs[base + 3], vals[3]);
            proof {
                let rv = row_values(old_slots, d, row as int);
                assert forall|x: int, y: int| 0 <= x < 4 && 0 <= y < 4 implies #[trigger] hint@[y][x]
                    == if row_of(d, x, y).0 < row + 1 {
                    legacy_hint_at(old_slots, d, x, y)
                } else {
                    None
                } by {
                    assert(hint_before[y][x] == if row_of(d, x, y).0 < row {
                        legacy_hint_at(old_slots, d, x, y)
                    } else {
                        None
                    });
                }
                assert forall|x: int, y: int| 0 <= x < 4 && 0 <= y < 4 implies #[trigger] self.slots[y][x]
                    == if row_of(d, x, y).0 < row + 1 {
                    legacy_value(old_slots, d, x, y)
                } else {
                    old_slots[y][x] as int
                } by {
                    let (rr, j) = row_of(d, x, y);
                    if rr == row {
                        assert(traversal_idx(d, rr, j) == Idx(x as usize, y as usize));
                    }
                }
                if legacy_scan(rv, 4).moves.len() > 0 {
                    assert(legacy_scan(row_values(old_slots, d, row as int), 4).moves.len() > 0);
                }
                if changed_before {
                    let w = choose|w: int|
                        0 <= w < row && #[trigger] legacy_scan(row_values(old_slots, d, w), 4).moves.len()
                            > 0;
                    assert(legacy_scan(row_values(old_slots, d, w), 4).moves.len() > 0);
                }
            }
            row = row + 1;
        }
        self.score = score;
        if hint.changed() {
            Some(hint)
        } else {
            None
        }
    }
}

proof fn lemma_iterator_step(d: Direction, n: int)
    requires
        0 <= n <= 16,
    ensures
        ({
            let (xdx, ydx) = iterator_position(d, n);
            let it = RoundIterator { direction: d, x_width: 4, y_width: 4, xdx, ydx };
            &&& iterator_wf(it)
            &&& n < 16 ==> {
                let (nx, ny) = iterator_position(d, n + 1);
                iterator_step(it) == (
                    Some(traversal_idx(d, n / 4, n % 4)),
                    RoundIterator { direction: d, x_width: 4, y_width: 4, xdx: nx, ydx: ny },
                )
            }
            &&& n == 16 ==> iterator_step(it).0 is None
        }),
{
}

} // verus!
