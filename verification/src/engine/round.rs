use vstd::prelude::*;

use rand::rngs::SmallRng;

use crate::random::{choose_one, gen_below, sample_weighted};
use crate::tui::geometry::Direction;

verus! {

/// A slot of the 4 x 4 board: its column and its row.
#[derive(Clone, Copy, Debug, Default, PartialEq, Eq, Hash, Structural)]
pub struct Idx(pub usize, pub usize);

impl Idx {
    pub fn x(&self) -> (r: usize)
        ensures
            r == self.0,
    {
        self.0
    }

    pub fn y(&self) -> (r: usize)
        ensures
            r == self.1,
    {
        self.1
    }
}

/// What became of the tile of a slot during a shift: it slid to another slot, it merged
/// into another slot which now holds the given value, or it is a new tile.
#[derive(Clone, Copy, Debug, PartialEq, Eq, Structural)]
pub enum Hint {
    ToIdx(Idx),
    NewValueToIdx(u16, Idx),
    NewTile(u16, Direction),
}

/// The moves of one shift, slot by slot, in the order in which they happened.
#[derive(Debug, PartialEq)]
pub struct AnimationHint {
    hint: Vec<(Idx, Hint)>,
    changed: bool,
}

impl View for AnimationHint {
    type V = Seq<(Idx, Hint)>;

    closed spec fn view(&self) -> Seq<(Idx, Hint)> {
        self.hint@
    }
}

/// The position of the last entry of `s` equal to `(idx, hint)` among its first `n`
/// entries, or zero when there is none.
pub open spec fn last_match(s: Seq<(Idx, Hint)>, n: int, idx: Idx, hint: Hint) -> int
    decreases n,
{
    if n <= 0 {
        0
    } else if s[n - 1] == (idx, hint) {
        n - 1
    } else {
        last_match(s, n - 1, idx, hint)
    }
}

impl AnimationHint {
    /// Whether any move was recorded.
    pub closed spec fn spec_changed(&self) -> bool {
        self.changed
    }

    pub fn new() -> (r: AnimationHint)
        ensures
            r@ == Seq::<(Idx, Hint)>::empty(),
            !r.spec_changed(),
    {
        AnimationHint { hint: Vec::new(), changed: false }
    }

    /// Records that the tile of slot `idx` went as `value` says.
    pub fn set(&mut self, idx: &Idx, value: Hint)
        ensures
            final(self)@ == old(self)@.push((*idx, value)),
            final(self).spec_changed(),
    {
        self.changed = true;
        self.hint.push((*idx, value));
    }

    /// Whether any move was recorded.
    pub fn changed(&self) -> (r: bool)
        ensures
            r == self.spec_changed(),
    {
        self.changed
    }

    /// The recorded moves, in order.
    pub fn hints(&self) -> (r: Vec<(Idx, Hint)>)
        ensures
            r@ == self@,
    {
        let mut r: Vec<(Idx, Hint)> = Vec::new();
        let mut i: usize = 0;
        while i < self.hint.len()
            invariant
                i <= self.hint@.len(),
                r@ == self.hint@.subrange(0, i as int),
            decreases self.hint@.len() - i,
        {
            r.push(self.hint[i]);
            i = i + 1;
        }
        r
    }

    /// Removes the last recorded move equal to `(idx, hint)`, or the first recorded move
    /// when none is equal.
    pub fn remove(&mut self, idx: &Idx, hint: &Hint)
        requires
            old(self)@.len() > 0,
        ensures
            final(self)@ == old(self)@.remove(
                last_match(old(self)@, old(self)@.len() as int, *idx, *hint),
            ),
            final(self).spec_changed() == old(self).spec_changed(),
    {
        let mut remove_idx: usize = 0;
        let mut hint_idx: usize = 0;
        while hint_idx < self.hint.len()
            invariant
                hint_idx <= self.hint@.len(),
                self.hint@.len() > 0,
                remove_idx as int == last_match(self.hint@, hint_idx as int, *idx, *hint),
                remove_idx < self.hint@.len(),
            decreases self.hint@.len() - hint_idx,
        {
            let (i, h) = self.hint[hint_idx];
            if i == *idx && h == *hint {
                remove_idx = hint_idx;
            }
            hint_idx = hint_idx + 1;
        }
        let _ = self.hint.remove(remove_idx);
    }
}

/// The values of tiles that a shift adds, and how much each weighs in the draw.
pub const NEW_CARD_CHOICES: [u16; 2] = [2, 4];

pub const NEW_CARD_WEIGHTS: [u8; 2] = [9, 1];

/// One round of the game: the values of the 16 slots (zero for an empty slot, indexed by
/// row and then by column) and the score.
#[derive(Debug, PartialEq, Eq)]
pub struct Round {
    pub slots: [[u16; 4]; 4],
    pub score: u16,
}

impl Clone for Round {
    fn clone(&self) -> (r: Round)
        ensures
            r == *self,
    {
        Round { slots: self.slots, score: self.score }
    }
}

impl Default for Round {
    fn default() -> (r: Round)
        ensures
            r.score == 0,
            forall|x: int, y: int| 0 <= x < 4 && 0 <= y < 4 ==> r.slots[y][x] == 0,
    {
        Round { slots: [[0, 0, 0, 0], [0, 0, 0, 0], [0, 0, 0, 0], [0, 0, 0, 0]], score: 0 }
    }
}

/// The value of slot `idx`.
pub open spec fn slot_value(slots: [[u16; 4]; 4], idx: Idx) -> u16 {
    slots[idx.1 as int][idx.0 as int]
}

/// Whether `idx` names a slot of the board.
pub open spec fn on_board(idx: Idx) -> bool {
    idx.0 < 4 && idx.1 < 4
}

/// The column and row of position `j` of row `r` when the board is read towards `d`: the
/// rows of a shift left run from left to right, those of a shift up from top to bottom,
/// and so on; position zero is the slot that the tiles slide towards.
pub open spec fn traversal_idx(d: Direction, r: int, j: int) -> Idx {
    match d {
        Direction::Left => Idx(j as usize, r as usize),
        Direction::Right => Idx((3 - j) as usize, r as usize),
        Direction::Up => Idx(r as usize, j as usize),
        Direction::Down => Idx(r as usize, (3 - j) as usize),
    }
}

/// The row and the position in that row of the slot at column `x` and row `y`, when the
/// board is read towards `d`.
pub open spec fn row_of(d: Direction, x: int, y: int) -> (int, int) {
    match d {
        Direction::Left => (y, x),
        Direction::Right => (y, 3 - x),
        Direction::Up => (x, y),
        Direction::Down => (x, 3 - y),
    }
}

/// The slots of row `r` read towards `d`.
pub open spec fn row_slots(d: Direction, r: int) -> Seq<Idx> {
    Seq::new(4, |j: int| traversal_idx(d, r, j))
}

/// The values of row `r` read towards `d`.
pub open spec fn row_values(slots: [[u16; 4]; 4], d: Direction, r: int) -> Seq<u16> {
    Seq::new(4, |j: int| slot_value(slots, traversal_idx(d, r, j)))
}

/// Where one row stands after its first tiles were slid: the values placed so far, whether
/// the last of them may still merge, the moves so far (the position a tile came from, the
/// position it went to, and the merged value or zero for a plain move) and the score gained.
pub struct RowScan {
    pub out: Seq<int>,
    pub open: bool,
    pub events: Seq<(int, int, int)>,
    pub gain: int,
}

/// Takes the tile of value `v` at position `i` of a row into the scan: an empty slot is
/// skipped; a tile equal to the last placed one, which has not merged yet, merges into it
/// and scores its own value; any other tile goes to the next free position.
pub open spec fn scan_step(s: RowScan, i: int, v: int) -> RowScan {
    if v == 0 {
        s
    } else if s.open && s.out.len() > 0 && s.out.last() == v {
        RowScan {
            out: s.out.update(s.out.len() - 1, 2 * v),
            open: false,
            events: s.events.push((i, s.out.len() - 1, 2 * v)),
            gain: s.gain + v,
        }
    } else {
        RowScan {
            out: s.out.push(v),
            open: true,
            events: if i == s.out.len() {
                s.events
            } else {
                s.events.push((i, s.out.len() as int, 0))
            },
            gain: s.gain,
        }
    }
}

/// The scan of the first `k` positions of a row.
pub open spec fn row_scan(row: Seq<u16>, k: nat) -> RowScan
    decreases k,
{
    if k == 0 {
        RowScan { out: Seq::empty(), open: false, events: Seq::empty(), gain: 0 }
    } else {
        scan_step(row_scan(row, (k - 1) as nat), k - 1, row[k - 1] as int)
    }
}

/// A row after a shift: the placed values followed by empty slots.
pub open spec fn slid_row(row: Seq<u16>) -> Seq<int> {
    let out = row_scan(row, 4).out;
    Seq::new(4, |j: int| if j < out.len() { out[j] } else { 0 })
}

/// The value of the slot at column `x` and row `y` after a shift towards `d`.
pub open spec fn slid_value(slots: [[u16; 4]; 4], d: Direction, x: int, y: int) -> int {
    let (r, j) = row_of(d, x, y);
    slid_row(row_values(slots, d, r))[j]
}

/// The hint that records a move of a row whose positions are the slots `ri`.
pub open spec fn event_hint(ri: Seq<Idx>, e: (int, int, int)) -> (Idx, Hint) {
    (
        ri[e.0],
        if e.2 == 0 {
            Hint::ToIdx(ri[e.1])
        } else {
            Hint::NewValueToIdx(e.2 as u16, ri[e.1])
        },
    )
}

pub open spec fn events_to_hints(ri: Seq<Idx>, events: Seq<(int, int, int)>) -> Seq<(Idx, Hint)> {
    events.map_values(|e: (int, int, int)| event_hint(ri, e))
}

/// The hints of the moves of row `r` in a shift towards `d`.
pub open spec fn row_hints(slots: [[u16; 4]; 4], d: Direction, r: int) -> Seq<(Idx, Hint)> {
    events_to_hints(row_slots(d, r), row_scan(row_values(slots, d, r), 4).events)
}

/// The hints of the moves of the first `n` rows.
pub open spec fn hints_upto(slots: [[u16; 4]; 4], d: Direction, n: nat) -> Seq<(Idx, Hint)>
    decreases n,
{
    if n == 0 {
        Seq::empty()
    } else {
        hints_upto(slots, d, (n - 1) as nat) + row_hints(slots, d, n - 1)
    }
}

/// The hints of the moves of a shift towards `d`, row after row.
pub open spec fn slide_hints(slots: [[u16; 4]; 4], d: Direction) -> Seq<(Idx, Hint)> {
    hints_upto(slots, d, 4)
}

/// The score gained in the first `n` rows.
pub open spec fn gain_upto(slots: [[u16; 4]; 4], d: Direction, n: nat) -> int
    decreases n,
{
    if n == 0 {
        0
    } else {
        gain_upto(slots, d, (n - 1) as nat) + row_scan(row_values(slots, d, n - 1), 4).gain
    }
}

/// The score gained by a shift towards `d`: the sum of the values of the tiles that merged
/// into another.
pub open spec fn slide_gain(slots: [[u16; 4]; 4], d: Direction) -> int {
    gain_upto(slots, d, 4)
}

/// Whether every merged value of a shift towards `d` fits in a `u16`.
pub open spec fn merges_fit(slots: [[u16; 4]; 4], d: Direction) -> bool {
    forall|r: int, e: int|
        0 <= r < 4 && 0 <= e < row_scan(row_values(slots, d, r), 4).events.len()
            ==> #[trigger] row_scan(row_values(slots, d, r), 4).events[e].2 <= u16::MAX
}

/// Whether a shift of `round` towards `d` stays within `u16`: every merged value and the
/// new score fit.
pub open spec fn shift_fits(round: Round, d: Direction) -> bool {
    &&& merges_fit(round.slots, d)
    &&& round.score + slide_gain(round.slots, d) <= u16::MAX
}

/// Whether `idx` is the last slot of a row read towards `d`, the slot farthest from where
/// the tiles slide.
pub open spec fn is_row_end(d: Direction, idx: Idx) -> bool {
    exists|r: int| 0 <= r < 4 && idx == #[trigger] traversal_idx(d, r, 3)
}

/// The first value different from zero at or after position `k` of a row, or zero.
pub open spec fn next_nonzero(row: Seq<u16>, k: int) -> int
    decreases 4 - k,
{
    if k >= 4 || k < 0 {
        0
    } else if row[k] != 0 {
        row[k] as int
    } else {
        next_nonzero(row, k + 1)
    }
}

/// Where position `j` of row `r` stands in the list of the 16 slots read row after row.
pub open spec fn row_pos(r: int, j: int) -> int {
    4 * r + j
}

proof fn lemma_scan_basics(row: Seq<u16>, k: nat)
    ensures
        row_scan(row, k).out.len() <= k,
        row_scan(row, k).gain >= 0,
        forall|j: int|
            0 <= j < row_scan(row, k).out.len() ==> #[trigger] row_scan(row, k).out[j] > 0,
        forall|e: int|
            0 <= e < row_scan(row, k).events.len() ==> {
                let ev = #[trigger] row_scan(row, k).events[e];
                &&& 0 <= ev.0 < k
                &&& 0 <= ev.1 < row_scan(row, k).out.len()
                &&& ev.2 >= 0
            },
        row_scan(row, k).events.len() > 0 ==> row_scan(row, k).out.len() < k,
    decreases k,
{
    if k > 0 {
        lemma_scan_basics(row, (k - 1) as nat);
    }
}

proof fn lemma_scan_prefix(row: Seq<u16>, k: nat, m: nat)
    requires
        k <= m,
    ensures
        row_scan(row, k).events.len() <= row_scan(row, m).events.len(),
        forall|e: int|
            0 <= e < row_scan(row, k).events.len() ==> #[trigger] row_scan(row, k).events[e]
                == row_scan(row, m).events[e],
        row_scan(row, k).gain <= row_scan(row, m).gain,
    decreases m - k,
{
    if k < m {
        lemma_scan_prefix(row, k, (m - 1) as nat);
        lemma_scan_basics(row, (m - 1) as nat);
    }
}

/// Whether every merged value of the scan of `vals` fits in a `u16`, and the score it gains.
fn row_fits(vals: &[u16; 4]) -> (r: (bool, u32))
    ensures
        r.0 == (forall|e: int|
            0 <= e < row_scan(vals@, 4).events.len() ==> #[trigger] row_scan(vals@, 4).events[e].2
                <= u16::MAX),
        r.1 == row_scan(vals@, 4).gain,
        r.1 <= 4 * 65535,
{
    let mut out: [u32; 4] = [0, 0, 0, 0];
    let mut len: usize = 0;
    let mut open = false;
    let mut gain: u32 = 0;
    let mut fits = true;
    let mut i: usize = 0;
    while i < 4
        invariant
            i <= 4,
            len <= i,
            len == row_scan(vals@, i as nat).out.len(),
            forall|j: int| 0 <= j < len ==> out@[j] == #[trigger] row_scan(vals@, i as nat).out[j],
            forall|j: int| 0 <= j < len ==> out@[j] <= 2 * 65535,
            open == row_scan(vals@, i as nat).open,
            gain == row_scan(vals@, i as nat).gain,
            gain <= i * 65535,
            fits == (forall|e: int|
                0 <= e < row_scan(vals@, i as nat).events.len() ==> #[trigger] row_scan(
                    vals@,
                    i as nat,
                ).events[e].2 <= u16::MAX),
        decreases 4 - i,
    {
        proof {
            lemma_scan_basics(vals@, i as nat);
            lemma_scan_basics(vals@, (i + 1) as nat);
        }
        let v = vals[i] as u32;
        let ghost s = row_scan(vals@, i as nat);
        assert(row_scan(vals@, (i + 1) as nat) == scan_step(s, i as int, v as int));
        if v == 0 {
        } else if open && len > 0 && out[len - 1] == v {
            out[len - 1] = 2 * v;
            open = false;
            if 2 * v > 65535 {
                fits = false;
            }
            gain = gain + v;
            proof {
                let s2 = row_scan(vals@, (i + 1) as nat);
                assert(s2.events == s.events.push((i as int, len - 1, 2 * v)));
                if fits {
                    assert forall|e: int| 0 <= e < s2.events.len() implies #[trigger] s2.events[e].2
                        <= u16::MAX by {
                        if e < s.events.len() {
                            assert(s2.events[e] == s.events[e]);
                        }
                    }
                } else {
                    if 2 * v > 65535 {
                        assert(s2.events[s.events.len() as int].2 > u16::MAX);
                    } else {
                        let e = choose|e: int|
                            0 <= e < s.events.len() && !(#[trigger] s.events[e].2 <= u16::MAX);
                        assert(s2.events[e] == s.events[e]);
                    }
                }
            }
        } else {
            out[len] = v;
            len = len + 1;
            open = true;
            proof {
                let s2 = row_scan(vals@, (i + 1) as nat);
                if fits {
                    assert forall|e: int| 0 <= e < s2.events.len() implies #[trigger] s2.events[e].2
                        <= u16::MAX by {
                        if e < s.events.len() {
                            assert(s2.events[e] == s.events[e]);
                        }
                    }
                } else {
                    let e = choose|e: int|
                        0 <= e < s.events.len() && !(#[trigger] s.events[e].2 <= u16::MAX);
                    assert(s2.events[e] == s.events[e]);
                }
            }
        }
        i = i + 1;
    }
    (fits, gain)
}

/// Slides the values of one row towards its first position: `vals` are the values and
/// `idxs[base..base + 4]` their slots. Each move is recorded in `hint`, and the value of
/// each tile that merged into another is added to `score`.
fn slide_row(
    vals: &mut [u16; 4],
    idxs: &Vec<Idx>,
    base: usize,
    hint: &mut AnimationHint,
    score: &mut u16,
)
    requires
        base + 4 <= idxs@.len(),
        forall|e: int|
            0 <= e < row_scan(old(vals)@, 4).events.len() ==> #[trigger] row_scan(
                old(vals)@,
                4,
            ).events[e].2 <= u16::MAX,
        *old(score) + row_scan(old(vals)@, 4).gain <= u16::MAX,
    ensures
        forall|j: int| 0 <= j < 4 ==> final(vals)@[j] as int == #[trigger] slid_row(old(vals)@)[j],
        final(hint)@ == old(hint)@ + events_to_hints(
            idxs@.subrange(base as int, base + 4),
            row_scan(old(vals)@, 4).events,
        ),
        final(hint).spec_changed() == (old(hint).spec_changed() || row_scan(
            old(vals)@,
            4,
        ).events.len() > 0),
        *final(score) == *old(score) + row_scan(old(vals)@, 4).gain,
{
    let ghost o: Seq<u16> = vals@;
    let ghost ri: Seq<Idx> = idxs@.subrange(base as int, base + 4);
    let ghost h0 = hint@;
    let ghost c0 = hint.spec_changed();
    let ghost g0: int = *score as int;
    proof {
        lemma_scan_basics(o, 4);
        assert(row_scan(o, 1) == scan_step(row_scan(o, 0), 0, o[0] as int));
        assert(events_to_hints(ri, row_scan(o, 1).events) =~= Seq::empty());
    }
    let len = idxs.len();
    let mut p: usize = 0;
    let mut c: usize = 1;
    let ghost mut k: int = 1;
    while c < 4
        invariant
            len == idxs@.len(),
            o == old(vals)@,
            ri == idxs@.subrange(base as int, base + 4),
            base + 4 <= idxs@.len(),
            h0 == old(hint)@,
            c0 == old(hint).spec_changed(),
            g0 == *old(score) as int,
            forall|e: int|
                0 <= e < row_scan(o, 4).events.len() ==> #[trigger] row_scan(o, 4).events[e].2
                    <= u16::MAX,
            g0 + row_scan(o, 4).gain <= u16::MAX,
            0 <= p < c <= 4,
            p < k <= 4,
            c <= k,
            vals@.len() == 4,
            forall|j: int| p < j < k ==> vals@[j] == 0,
            forall|j: int| k <= j < 4 ==> vals@[j] == o[j],
            forall|j: int|
                0 <= j < p ==> vals@[j] as int == #[trigger] row_scan(o, k as nat).out[j],
            vals@[p as int] != 0 ==> {
                &&& row_scan(o, k as nat).out.len() == p + 1
                &&& row_scan(o, k as nat).out[p as int] == vals@[p as int]
                &&& row_scan(o, k as nat).open
            },
            vals@[p as int] == 0 ==> {
                &&& row_scan(o, k as nat).out.len() == p
                &&& row_scan(o, k as nat).open ==> (p > 0 && next_nonzero(o, k) != row_scan(
                    o,
                    k as nat,
                ).out[p - 1])
            },
            hint@ == h0 + events_to_hints(ri, row_scan(o, k as nat).events),
            hint.spec_changed() == (c0 || row_scan(o, k as nat).events.len() > 0),
            *score as int == g0 + row_scan(o, k as nat).gain,
        ensures
            k == 4,
        decreases 4 - p, 4 - c,
    {
        let ghost s = row_scan(o, k as nat);
        proof {
            lemma_scan_basics(o, k as nat);
            lemma_scan_prefix(o, k as nat, 4);
            if k < 4 {
                lemma_scan_prefix(o, (k + 1) as nat, 4);
                assert(row_scan(o, (k + 1) as nat) == scan_step(s, k, o[k] as int));
            }
        }
        let pivot = vals[p];
        let probe_pos = c;
        let probe = vals[c];
        c = c + 1;
        if probe == 0 {
            proof {
                if probe_pos as int == k {
                    assert(next_nonzero(o, k) == next_nonzero(o, k + 1));
                    k = k + 1;
                }
            }
            continue ;
        }
        assert(probe_pos as int == k);
        if pivot == 0 {
            vals[p] = probe;
            vals[probe_pos] = 0;
            hint.set(&idxs[base + probe_pos], Hint::ToIdx(idxs[base + p]));
            proof {
                let s2 = row_scan(o, (k + 1) as nat);
                assert(s2.events == s.events.push((k, p as int, 0)));
                assert(events_to_hints(ri, s2.events) =~= events_to_hints(ri, s.events).push(
                    event_hint(ri, (k, p as int, 0)),
                ));
                k = k + 1;
            }
            continue ;
        }
        if pivot == probe {
            proof {
                let s2 = row_scan(o, (k + 1) as nat);
                assert(s2.events[s.events.len() as int] == (k, p as int, 2 * probe));
                assert(s2.events.len() == s.events.len() + 1);
                assert(s.events.len() < row_scan(o, 4).events.len());
                assert(row_scan(o, 4).events[s.events.len() as int] == (k, p as int, 2 * probe));
                assert(row_scan(o, 4).events[s.events.len() as int].2 <= u16::MAX);
            }
            let new_value = pivot + probe;
            *score = *score + probe;
            vals[p] = pivot + probe;
            vals[probe_pos] = 0;
            hint.set(&idxs[base + probe_pos], Hint::NewValueToIdx(new_value, idxs[base + p]));
            proof {
                let s2 = row_scan(o, (k + 1) as nat);
                assert(events_to_hints(ri, s2.events) =~= events_to_hints(ri, s.events).push(
                    event_hint(ri, (k, p as int, 2 * probe)),
                ));
                k = k + 1;
            }
        } else {
            proof {
                if p + 1 == k {
                    k = k + 1;
                }
            }
        }
        assert(p + 1 < 4);
        if p + 1 < 4 {
            p = p + 1;
            c = p + 1;
        } else {
            break ;
        }
    }
    proof {
        assert(k == 4);
        lemma_scan_basics(o, 4);
    }
}

/// The values of the row ends that are empty, row after row, among the first `n` rows.
pub open spec fn vacant_ends_upto(slots: [[u16; 4]; 4], d: Direction, n: nat) -> Seq<Idx>
    decreases n,
{
    if n == 0 {
        Seq::empty()
    } else if slot_value(slots, traversal_idx(d, n - 1, 3)) == 0 {
        vacant_ends_upto(slots, d, (n - 1) as nat).push(traversal_idx(d, n - 1, 3))
    } else {
        vacant_ends_upto(slots, d, (n - 1) as nat)
    }
}

/// The state of an `Indices` after it has yielded `n` slots towards `d`.
pub open spec fn indices_position(d: Direction, n: int) -> (usize, usize) {
    match d {
        Direction::Left => ((n % 4) as usize, (n / 4) as usize),
        Direction::Right => ((3 - n % 4) as usize, (n / 4) as usize),
        Direction::Up => ((n / 4) as usize, (n % 4) as usize),
        Direction::Down => ((n / 4) as usize, (3 - n % 4) as usize),
    }
}

/// Lists the slots of a round row by row, each row read towards `direction`.
pub struct Indices {
    pub direction: Direction,
    pub x_width: usize,
    pub y_width: usize,
    pub xdx: usize,
    pub ydx: usize,
}

/// Whether an `Indices` is in a state from which it can step.
pub open spec fn indices_wf(it: Indices) -> bool {
    &&& it.x_width > 0
    &&& it.y_width > 0
    &&& match it.direction {
        Direction::Left | Direction::Right => it.xdx < it.x_width && it.ydx <= it.y_width,
        Direction::Up | Direction::Down => it.ydx < it.y_width && it.xdx <= it.x_width,
    }
}

/// One step along rows read from left to right: the slot it yields and the next state.
pub open spec fn left_step(it: Indices) -> (Option<Idx>, Indices) {
    if it.ydx == it.y_width {
        (None, it)
    } else if it.xdx == it.x_width - 1 {
        (Some(Idx(it.xdx, it.ydx)), Indices { xdx: 0, ydx: (it.ydx + 1) as usize, ..it })
    } else {
        (Some(Idx(it.xdx, it.ydx)), Indices { xdx: (it.xdx + 1) as usize, ..it })
    }
}

/// One step along rows read from right to left.
pub open spec fn right_step(it: Indices) -> (Option<Idx>, Indices) {
    if it.ydx == it.y_width {
        (None, it)
    } else if it.xdx == 0 {
        (
            Some(Idx(it.xdx, it.ydx)),
            Indices { xdx: (it.x_width - 1) as usize, ydx: (it.ydx + 1) as usize, ..it },
        )
    } else {
        (Some(Idx(it.xdx, it.ydx)), Indices { xdx: (it.xdx - 1) as usize, ..it })
    }
}

/// One step along columns read from top to bottom.
pub open spec fn up_step(it: Indices) -> (Option<Idx>, Indices) {
    if it.xdx == it.x_width {
        (None, it)
    } else if it.ydx == it.y_width - 1 {
        (Some(Idx(it.xdx, it.ydx)), Indices { ydx: 0, xdx: (it.xdx + 1) as usize, ..it })
    } else {
        (Some(Idx(it.xdx, it.ydx)), Indices { ydx: (it.ydx + 1) as usize, ..it })
    }
}

/// One step along columns read from bottom to top.
pub open spec fn down_step(it: Indices) -> (Option<Idx>, Indices) {
    if it.xdx == it.x_width {
        (None, it)
    } else if it.ydx == 0 {
        (
            Some(Idx(it.xdx, it.ydx)),
            Indices { ydx: (it.y_width - 1) as usize, xdx: (it.xdx + 1) as usize, ..it },
        )
    } else {
        (Some(Idx(it.xdx, it.ydx)), Indices { ydx: (it.ydx - 1) as usize, ..it })
    }
}

pub open spec fn indices_step(it: Indices) -> (Option<Idx>, Indices) {
    match it.direction {
        Direction::Left => left_step(it),
        Direction::Right => right_step(it),
        Direction::Up => up_step(it),
        Direction::Down => down_step(it),
    }
}

impl Indices {
    /// Starts at the first slot of the first row read towards `direction`.
    pub fn new(round: &Round, direction: Direction) -> (r: Indices)
        ensures
            r.direction == direction,
            r.x_width == 4,
            r.y_width == 4,
            (r.xdx, r.ydx) == indices_position(direction, 0),
    {
        let (x_width, y_width) = (round.slots.len(), round.slots[0].len());
        let (xdx, ydx) = match direction {
            Direction::Left => (0, 0),
            Direction::Right => (x_width - 1, 0),
            Direction::Up => (0, 0),
            Direction::Down => (0, y_width - 1),
        };
        Indices { direction, x_width, y_width, xdx, ydx }
    }

    /// Yields the next slot, or `None` once every slot was yielded.
    pub fn next(&mut self) -> (r: Option<Idx>)
        requires
            indices_wf(*old(self)),
        ensures
            (r, *final(self)) == indices_step(*old(self)),
            indices_wf(*final(self)),
    {
        match &self.direction {
            Direction::Left => self.next_left(),
            Direction::Right => self.next_right(),
            Direction::Up => self.next_up(),
            Direction::Down => self.next_down(),
        }
    }

    pub fn next_left(&mut self) -> (r: Option<Idx>)
        requires
            old(self).x_width > 0,
            old(self).xdx < old(self).x_width,
            old(self).ydx <= old(self).y_width,
        ensures
            (r, *final(self)) == left_step(*old(self)),
    {
        let (xdx, ydx) = (self.xdx, self.ydx);
        if ydx == self.y_width {
            return None;
        }
        if xdx == self.x_width - 1 {
            self.xdx = 0;
            self.ydx = self.ydx + 1;
        } else {
            self.xdx = self.xdx + 1;
        }
        Some(Idx(xdx, ydx))
    }

    pub fn next_right(&mut self) -> (r: Option<Idx>)
        requires
            old(self).x_width > 0,
            old(self).xdx < old(self).x_width,
            old(self).ydx <= old(self).y_width,
        ensures
            (r, *final(self)) == right_step(*old(self)),
    {
        let (xdx, ydx) = (self.xdx, self.ydx);
        if ydx == self.y_width {
            return None;
        }
        if xdx == 0 {
            self.xdx = self.x_width - 1;
            self.ydx = self.ydx + 1;
        } else {
            self.xdx = self.xdx - 1;
        }
        Some(Idx(xdx, ydx))
    }

    pub fn next_up(&mut self) -> (r: Option<Idx>)
        requires
            old(self).y_width > 0,
            old(self).ydx < old(self).y_width,
            old(self).xdx <= old(self).x_width,
        ensures
            (r, *final(self)) == up_step(*old(self)),
    {
        let (xdx, ydx) = (self.xdx, self.ydx);
        if xdx == self.x_width {
            return None;
        }
        if ydx == self.y_width - 1 {
            self.ydx = 0;
            self.xdx = self.xdx + 1;
        } else {
            self.ydx = self.ydx + 1;
        }
        Some(Idx(xdx, ydx))
    }

    pub fn next_down(&mut self) -> (r: Option<Idx>)
        requires
            old(self).y_width > 0,
            old(self).ydx < old(self).y_width,
            old(self).xdx <= old(self).x_width,
        ensures
            (r, *final(self)) == down_step(*old(self)),
    {
        let (xdx, ydx) = (self.xdx, self.ydx);
        if xdx == self.x_width {
            return None;
        }
        if ydx == 0 {
            self.ydx = self.y_width - 1;
            self.xdx = self.xdx + 1;
        } else {
            self.ydx = self.ydx - 1;
        }
        Some(Idx(xdx, ydx))
    }
}

/// Whether `slots` equals `before` except at `idx`, which holds `value`.
pub open spec fn slots_set(before: [[u16; 4]; 4], slots: [[u16; 4]; 4], idx: Idx, value: u16) -> bool {
    forall|x: int, y: int|
        0 <= x < 4 && 0 <= y < 4 ==> #[trigger] slots[y][x] == if x == idx.0 && y == idx.1 {
            value
        } else {
            before[y][x]
        }
}

/// Whether `slots` holds tiles of value 2 at `a` and `b`, both within the first three
/// columns and rows, and nothing else.
pub open spec fn starting_tiles(slots: [[u16; 4]; 4], a: Idx, b: Idx) -> bool {
    &&& a.0 < 3 && a.1 < 3 && b.0 < 3 && b.1 < 3
    &&& forall|x: int, y: int|
        0 <= x < 4 && 0 <= y < 4 ==> #[trigger] slots[y][x] == if (x == a.0 && y == a.1) || (x
            == b.0 && y == b.1) {
            2u16
        } else {
            0u16
        }
}

/// A starting round holds a tile of 2 at each of its two slots, the first and the second,
/// and nothing else: two tiles, adding up to 4, whenever the slots differ, and one tile when
/// they are the same.
pub proof fn law_starting_tiles_at_both_slots(slots: [[u16; 4]; 4], a: Idx, b: Idx)
    requires
        starting_tiles(slots, a, b),
    ensures
        slots[a.1 as int][a.0 as int] == 2,
        slots[b.1 as int][b.0 as int] == 2,
        forall|x: int, y: int| 0 <= x < 4 && 0 <= y < 4 && #[trigger] slots[y][x] != 0 ==> (x == a.0 && y == a.1) || (x == b.0 && y == b.1),
        a != b ==> tile_total(slots) == 4,
        a == b ==> tile_total(slots) == 2,
{
    assert(slots[a.1 as int][a.0 as int] == 2);
    assert(slots[b.1 as int][b.0 as int] == 2);
    assert forall|y: int| 0 <= y < 4 implies #[trigger] row_total(slots[y]) == (if y == a.1 { 2int } else { 0int })
        + (if y == b.1 && !(a == b) { 2int } else { 0int }) by {
        assert(slots[y][0] == (if (0 == a.0 && y == a.1) || (0 == b.0 && y == b.1) { 2u16 } else { 0u16 }));
        assert(slots[y][1] == (if (1 == a.0 && y == a.1) || (1 == b.0 && y == b.1) { 2u16 } else { 0u16 }));
        assert(slots[y][2] == (if (2 == a.0 && y == a.1) || (2 == b.0 && y == b.1) { 2u16 } else { 0u16 }));
        assert(slots[y][3] == (if (3 == a.0 && y == a.1) || (3 == b.0 && y == b.1) { 2u16 } else { 0u16 }));
    }
}

/// The sum of the values of a row of slots.
pub open spec fn row_total(row: [u16; 4]) -> int {
    row[0] + row[1] + row[2] + row[3]
}

/// The sum of the values of the tiles on the board.
pub open spec fn tile_total(slots: [[u16; 4]; 4]) -> int {
    row_total(slots[0]) + row_total(slots[1]) + row_total(slots[2]) + row_total(slots[3])
}

/// The value of the tile that `choice` names: 2 for the first choice, 4 for the second.
pub open spec fn new_card_value(choice: int) -> u16 {
    if choice == 0 {
        2
    } else {
        4
    }
}

/// Whether `after` is `before` shifted towards `d` with a new tile, and `hints` the record
/// of it: the slide as `slide` states it, then a new tile of value 2 or 4 at a row end that
/// the slide left empty, recorded last.
pub open spec fn shifted_by(before: Round, after: Round, hints: Seq<(Idx, Hint)>, d: Direction) -> bool {
    let slid = slide_hints(before.slots, d);
    &&& hints.len() == slid.len() + 1
    &&& hints.subrange(0, slid.len() as int) == slid
    &&& {
        let (idx, last) = hints.last();
        let v = slot_value(after.slots, idx);
        &&& on_board(idx)
        &&& is_row_end(d, idx)
        &&& slid_value(before.slots, d, idx.0 as int, idx.1 as int) == 0
        &&& (v == 2 || v == 4)
        &&& last == Hint::NewTile(v, d)
        &&& forall|x: int, y: int|
            0 <= x < 4 && 0 <= y < 4 && !(x == idx.0 && y == idx.1) ==> #[trigger] after.slots[y][x]
                == slid_value(before.slots, d, x, y)
    }
    &&& after.score == before.score + slide_gain(before.slots, d)
}

proof fn lemma_hints_empty(slots: [[u16; 4]; 4], d: Direction, n: nat, r: int)
    requires
        hints_upto(slots, d, n).len() == 0,
        0 <= r < n,
    ensures
        row_scan(row_values(slots, d, r), 4).events.len() == 0,
    decreases n,
{
    if r < n - 1 {
        lemma_hints_empty(slots, d, (n - 1) as nat, r);
    }
}

proof fn lemma_gain_zero(slots: [[u16; 4]; 4], d: Direction, n: nat)
    requires
        forall|r: int| 0 <= r < n ==> #[trigger] row_scan(row_values(slots, d, r), 4).gain == 0,
    ensures
        gain_upto(slots, d, n) == 0,
    decreases n,
{
    if n > 0 {
        lemma_gain_zero(slots, d, (n - 1) as nat);
    }
}

proof fn lemma_traversal(d: Direction)
    ensures
        forall|r: int, j: int|
            0 <= r < 4 && 0 <= j < 4 ==> on_board(#[trigger] traversal_idx(d, r, j)) && row_of(
                d,
                traversal_idx(d, r, j).0 as int,
                traversal_idx(d, r, j).1 as int,
            ) == (r, j),
        forall|x: int, y: int|
            0 <= x < 4 && 0 <= y < 4 ==> {
                let (r, j) = #[trigger] row_of(d, x, y);
                &&& 0 <= r < 4
                &&& 0 <= j < 4
                &&& traversal_idx(d, r, j) == Idx(x as usize, y as usize)
            },
{
}

proof fn lemma_gain_monotone(slots: [[u16; 4]; 4], d: Direction, n: nat, m: nat)
    requires
        n <= m,
    ensures
        gain_upto(slots, d, n) <= gain_upto(slots, d, m),
    decreases m - n,
{
    if n < m {
        lemma_gain_monotone(slots, d, n, (m - 1) as nat);
        lemma_scan_basics(row_values(slots, d, m - 1), 4);
    }
}

proof fn lemma_no_events_no_change(row: Seq<u16>, k: nat)
    requires
        k <= 4,
        row.len() == 4,
        row_scan(row, k).events.len() == 0,
    ensures
        forall|j: int| 0 <= j < row_scan(row, k).out.len() ==> row_scan(row, k).out[j] == row[j],
        forall|j: int| row_scan(row, k).out.len() <= j < k ==> row[j] == 0,
        row_scan(row, k).gain == 0,
    decreases k,
{
    if k > 0 {
        let s = row_scan(row, (k - 1) as nat);
        lemma_scan_basics(row, (k - 1) as nat);
        if s.events.len() > 0 {
            lemma_scan_prefix(row, (k - 1) as nat, k);
        } else {
            lemma_no_events_no_change(row, (k - 1) as nat);
        }
    }
}

proof fn lemma_hints_nonempty(slots: [[u16; 4]; 4], d: Direction, n: nat)
    requires
        hints_upto(slots, d, n).len() > 0,
    ensures
        exists|r: int|
            0 <= r < n && #[trigger] row_scan(row_values(slots, d, r), 4).events.len() > 0,
    decreases n,
{
    if n > 0 {
        if row_scan(row_values(slots, d, n - 1), 4).events.len() == 0 {
            lemma_hints_nonempty(slots, d, (n - 1) as nat);
        }
    }
}

proof fn lemma_vacant_ends(slots: [[u16; 4]; 4], d: Direction, n: nat)
    requires
        n <= 4,
    ensures
        forall|r: int|
            0 <= r < n && slot_value(slots, traversal_idx(d, r, 3)) == 0 ==> vacant_ends_upto(
                slots,
                d,
                n,
            ).contains(#[trigger] traversal_idx(d, r, 3)),
        forall|i: int|
            0 <= i < vacant_ends_upto(slots, d, n).len() ==> {
                let idx = #[trigger] vacant_ends_upto(slots, d, n)[i];
                &&& is_row_end(d, idx)
                &&& on_board(idx)
                &&& slot_value(slots, idx) == 0
            },
    decreases n,
{
    lemma_traversal(d);
    if n > 0 {
        lemma_vacant_ends(slots, d, (n - 1) as nat);
        let prev = vacant_ends_upto(slots, d, (n - 1) as nat);
        let cur = vacant_ends_upto(slots, d, n);
        assert forall|r: int|
            0 <= r < n && slot_value(slots, traversal_idx(d, r, 3)) == 0 implies cur.contains(
            #[trigger] traversal_idx(d, r, 3),
        ) by {
            if r < n - 1 {
                let w = choose|w: int| 0 <= w < prev.len() && prev[w] == traversal_idx(d, r, 3);
                assert(cur[w] == traversal_idx(d, r, 3));
            } else {
                assert(cur[cur.len() - 1] == traversal_idx(d, r, 3));
            }
        }
        assert forall|i: int| 0 <= i < cur.len() implies ({
            let idx = #[trigger] cur[i];
            &&& is_row_end(d, idx)
            &&& on_board(idx)
            &&& slot_value(slots, idx) == 0
        }) by {
            if i < prev.len() {
                assert(cur[i] == prev[i]);
            } else {
                assert(cur[i] == traversal_idx(d, n - 1, 3));
            }
        }
    }
}

impl Round {
    pub fn score(&self) -> (r: u16)
        ensures
            r == self.score,
    {
        self.score
    }

    /// A round with two tiles of value 2, drawn at random among the first three columns and
    /// rows; both draws may name the same slot. The second draw is followed by draws that
    /// repeat until they differ from the first; those draws advance the generator only.
    pub fn random(rng: &mut SmallRng) -> (r: Round)
        ensures
            r.score == 0,
            exists|a: Idx, b: Idx| #[trigger] starting_tiles(r.slots, a, b),
    {
        let (xdx1, ydx1) = (gen_below(rng, 3), gen_below(rng, 3));
        let (xdx2, ydx2) = (gen_below(rng, 3), gen_below(rng, 3));
        // Each attempt draws a fresh pair; the pair is not kept. The attempt count only bounds
        // the loop for the proof of termination, and no run comes near it.
        let mut attempts: u64 = 0;
        while attempts < u64::MAX
            decreases u64::MAX - attempts,
        {
            let (xdx3, ydx3) = (gen_below(rng, 3), gen_below(rng, 3));
            if xdx1 == xdx3 && ydx1 == ydx3 {
                attempts = attempts + 1;
                continue ;
            }
            break ;
        }
        let r = Round::with_starting_tiles(xdx1, ydx1, xdx2, ydx2);
        r
    }

    /// The starting round of two draws: a tile of 2 at the slot of the first draw (column
    /// `xdx1`, row `ydx1`) and one at the slot of the second draw (column `xdx2`, row `ydx2`),
    /// every other slot empty, and no score.
    pub fn with_starting_tiles(xdx1: usize, ydx1: usize, xdx2: usize, ydx2: usize) -> (r: Round)
        requires
            xdx1 < 3,
            ydx1 < 3,
            xdx2 < 3,
            ydx2 < 3,
        ensures
            r.score == 0,
            starting_tiles(r.slots, Idx(xdx1, ydx1), Idx(xdx2, ydx2)),
    {
        let mut r = Round::default();
        r.slots[ydx1][xdx1] = 2;
        r.slots[ydx2][xdx2] = 2;
        assert(starting_tiles(r.slots, Idx(xdx1, ydx1), Idx(xdx2, ydx2)));
        r
    }

    /// The value of slot `idx`.
    pub fn get(&self, idx: &Idx) -> (r: u16)
        requires
            on_board(*idx),
        ensures
            r == slot_value(self.slots, *idx),
    {
        self.slots[idx.1][idx.0]
    }

    /// The slots of the round, row after row, each row read towards `direction`.
    pub fn iter_mut(&self, direction: Direction) -> (r: Indices)
        ensures
            r.direction == direction,
            r.x_width == 4,
            r.y_width == 4,
            (r.xdx, r.ydx) == indices_position(direction, 0),
    {
        Indices::new(self, direction)
    }

    /// All slots, row after row, each row read towards `direction`.
    fn collect_indices(&self, direction: Direction) -> (idxs: Vec<Idx>)
        ensures
            idxs@.len() == 16,
            forall|r: int, j: int|
                0 <= r < 4 && 0 <= j < 4 ==> #[trigger] idxs@[row_pos(r, j)] == traversal_idx(
                    direction,
                    r,
                    j,
                ),
    {
        let mut it = self.iter_mut(direction);
        let mut idxs: Vec<Idx> = Vec::new();
        loop
            invariant_except_break
                idxs@.len() <= 16,
                it == (Indices {
                    direction,
                    x_width: 4,
                    y_width: 4,
                    xdx: indices_position(direction, idxs@.len() as int).0,
                    ydx: indices_position(direction, idxs@.len() as int).1,
                }),
                forall|n: int|
                    0 <= n < idxs@.len() ==> #[trigger] idxs@[n] == traversal_idx(
                        direction,
                        n / 4,
                        n % 4,
                    ),
            ensures
                idxs@.len() == 16,
                forall|n: int|
                    0 <= n < idxs@.len() ==> #[trigger] idxs@[n] == traversal_idx(
                        direction,
                        n / 4,
                        n % 4,
                    ),
            decreases 16 - idxs@.len(),
        {
            proof {
                lemma_indices_step(direction, idxs@.len() as int);
            }
            match it.next() {
                Some(idx) => idxs.push(idx),
                None => break ,
            }
        }
        assert forall|r: int, j: int| 0 <= r < 4 && 0 <= j < 4 implies #[trigger] idxs@[row_pos(
            r,
            j,
        )] == traversal_idx(direction, r, j) by {
            assert(row_pos(r, j) / 4 == r && row_pos(r, j) % 4 == j);
        }
        idxs
    }

    /// Slides every row towards `direction`: the tiles of a row slide to its first free
    /// positions, and a tile equal to the one before it, which has not merged yet, merges into
    /// it; the score grows by the value of each tile that merged into another. The hints
    /// record every move, row after row.
    pub fn slide(&mut self, direction: &Direction) -> (hint: AnimationHint)
        requires
            shift_fits(*old(self), *direction),
        ensures
            hint@ == slide_hints(old(self).slots, *direction),
            hint.spec_changed() == (hint@.len() > 0),
            forall|x: int, y: int|
                0 <= x < 4 && 0 <= y < 4 ==> #[trigger] final(self).slots[y][x] == slid_value(
                    old(self).slots,
                    *direction,
                    x,
                    y,
                ),
            final(self).score == old(self).score + slide_gain(old(self).slots, *direction),
    {
        let d = *direction;
        let idxs = self.collect_indices(d);
        let ghost old_slots = self.slots;
        let ghost old_score = self.score;
        proof {
            lemma_traversal(d);
            lemma_gain_monotone(old_slots, d, 0, 4);
        }
        let mut hint = AnimationHint::new();
        let mut score = self.score;
        let mut row: usize = 0;
        while row < 4
            invariant
                idxs@.len() == 16,
                forall|r: int, j: int|
                    0 <= r < 4 && 0 <= j < 4 ==> #[trigger] idxs@[row_pos(r, j)] == traversal_idx(
                        d,
                        r,
                        j,
                    ),
                forall|r: int, j: int|
                    0 <= r < 4 && 0 <= j < 4 ==> on_board(#[trigger] traversal_idx(d, r, j)),
                merges_fit(old_slots, d),
                old_score + slide_gain(old_slots, d) <= u16::MAX,
                0 <= row <= 4,
                forall|r: int, j: int|
                    0 <= r < row && 0 <= j < 4 ==> slot_value(
                        self.slots,
                        #[trigger] traversal_idx(d, r, j),
                    ) == slid_row(row_values(old_slots, d, r))[j],
                forall|r: int, j: int|
                    row <= r < 4 && 0 <= j < 4 ==> slot_value(
                        self.slots,
                        #[trigger] traversal_idx(d, r, j),
                    ) == slot_value(old_slots, traversal_idx(d, r, j)),
                hint@ == hints_upto(old_slots, d, row as nat),
                hint.spec_changed() == (hint@.len() > 0),
                score == old_score + gain_upto(old_slots, d, row as nat),
                self.score == old_score,
            decreases 4 - row,
        {
            let base = row * 4;
            assert(idxs@[row_pos(row as int, 0)] == traversal_idx(d, row as int, 0));
            assert(idxs@[row_pos(row as int, 1)] == traversal_idx(d, row as int, 1));
            assert(idxs@[row_pos(row as int, 2)] == traversal_idx(d, row as int, 2));
            assert(idxs@[row_pos(row as int, 3)] == traversal_idx(d, row as int, 3));
            let mut vals: [u16; 4] = [
                self.get(&idxs[base]),
                self.get(&idxs[base + 1]),
                self.get(&idxs[base + 2]),
                self.get(&idxs[base + 3]),
            ];
            let ghost row_before = self.slots;
            proof {
                assert(vals@ =~= row_values(old_slots, d, row as int));
                assert(idxs@.subrange(base as int, base + 4) =~= row_slots(d, row as int));
                lemma_gain_monotone(old_slots, d, (row + 1) as nat, 4);
                assert forall|e: int|
                    0 <= e < row_scan(vals@, 4).events.len() implies #[trigger] row_scan(
                    vals@,
                    4,
                ).events[e].2 <= u16::MAX by {
                    assert(row_scan(row_values(old_slots, d, row as int), 4).events[e].2
                        <= u16::MAX);
                }
            }
            slide_row(&mut vals, &idxs, base, &mut hint, &mut score);
            self.set(&idxs[base], vals[0]);
            self.set(&idxs[base + 1], vals[1]);
            self.set(&idxs[base + 2], vals[2]);
            self.set(&idxs[base + 3], vals[3]);
            proof {
                let rv = row_values(old_slots, d, row as int);
                assert(hints_upto(old_slots, d, (row + 1) as nat) == hints_upto(
                    old_slots,
                    d,
                    row as nat,
                ) + row_hints(old_slots, d, row as int));
                assert forall|r: int, j: int|
                    0 <= r < row + 1 && 0 <= j < 4 implies slot_value(
                    self.slots,
                    #[trigger] traversal_idx(d, r, j),
                ) == slid_row(row_values(old_slots, d, r))[j] by {
                    if r == row {
                        assert(slid_row(rv)[j] == vals@[j]);
                    }
                }
            }
            row = row + 1;
        }
        self.score = score;
        hint
    }

    /// The last slots of the rows read towards `direction` that are empty, row after row.
    pub fn vacant_row_ends(&self, direction: &Direction) -> (r: Vec<Idx>)
        ensures
            r@ == vacant_ends_upto(self.slots, *direction, 4),
    {
        let d = *direction;
        let idxs = self.collect_indices(d);
        proof {
            lemma_traversal(d);
        }
        let mut ends: Vec<Idx> = Vec::new();
        let mut row: usize = 0;
        while row < 4
            invariant
                idxs@.len() == 16,
                forall|r: int, j: int|
                    0 <= r < 4 && 0 <= j < 4 ==> #[trigger] idxs@[row_pos(r, j)] == traversal_idx(
                        d,
                        r,
                        j,
                    ),
                forall|r: int, j: int|
                    0 <= r < 4 && 0 <= j < 4 ==> on_board(#[trigger] traversal_idx(d, r, j)),
                row <= 4,
                ends@ == vacant_ends_upto(self.slots, d, row as nat),
            decreases 4 - row,
        {
            assert(idxs@[row_pos(row as int, 3)] == traversal_idx(d, row as int, 3));
            let idx = idxs[row * 4 + 3];
            if self.get(&idx) == 0 {
                ends.push(idx);
            }
            row = row + 1;
        }
        ends
    }

    /// Puts a new tile at the empty slot `idx`: the first of `NEW_CARD_CHOICES` when `choice`
    /// is zero, the second otherwise, and records it in `hint`.
    pub fn place_new_tile(
        &mut self,
        hint: &mut AnimationHint,
        idx: &Idx,
        choice: usize,
        direction: &Direction,
    )
        requires
            on_board(*idx),
            choice < 2,
        ensures
            final(self).score == old(self).score,
            slots_set(old(self).slots, final(self).slots, *idx, new_card_value(choice as int)),
            final(hint)@ == old(hint)@.push(
                (*idx, Hint::NewTile(new_card_value(choice as int), *direction)),
            ),
            final(hint).spec_changed(),
    {
        let new_value = NEW_CARD_CHOICES[choice];
        self.set(idx, new_value);
        hint.set(idx, Hint::NewTile(new_value, *direction));
    }

    /// Shifts the round towards `direction`. When no tile moves, nothing changes and the
    /// result is `None`. Otherwise the tiles slide and merge as `slide` says, a new tile of
    /// value 2 or 4 (weighted 9 to 1) appears at one of the empty row ends, chosen at random,
    /// and the hints of the slide come back followed by that of the new tile.
    pub fn shift(&mut self, rng: &mut SmallRng, direction: &Direction) -> (r: Option<
        AnimationHint,
    >)
        requires
            shift_fits(*old(self), *direction),
        ensures
            slide_hints(old(self).slots, *direction).len() == 0 ==> r is None && *final(self)
                == *old(self),
            slide_hints(old(self).slots, *direction).len() > 0 ==> r is Some,
            r matches Some(h) ==> shifted_by(*old(self), *final(self), h@, *direction),
            r matches Some(h) ==> h.spec_changed(),
    {
        let ghost before = *self;
        let mut hint = self.slide(direction);
        if hint.changed() {
            let candidates = self.vacant_row_ends(direction);
            proof {
                let d = *direction;
                lemma_hints_nonempty(before.slots, d, 4);
                let r = choose|r: int|
                    0 <= r < 4 && #[trigger] row_scan(row_values(before.slots, d, r), 4).events.len()
                        > 0;
                lemma_scan_basics(row_values(before.slots, d, r), 4);
                lemma_traversal(d);
                let end = traversal_idx(d, r, 3);
                assert(slot_value(self.slots, end) == slid_value(
                    before.slots,
                    d,
                    end.0 as int,
                    end.1 as int,
                ));
                lemma_vacant_ends(self.slots, d, 4);
                assert(candidates@.contains(end));
            }
            let idx = choose_one(candidates, rng).unwrap();
            proof {
                lemma_vacant_ends(self.slots, *direction, 4);
            }
            let choice = sample_weighted(&NEW_CARD_WEIGHTS, rng);
            let ghost mid = *self;
            let ghost slid_hints = hint@;
            self.place_new_tile(&mut hint, &idx, choice, direction);
            proof {
                let d = *direction;
                assert(candidates@.contains(idx));
                let w = choose|w: int| 0 <= w < candidates@.len() && candidates@[w] == idx;
                assert(candidates@[w] == idx);
                assert(slot_value(mid.slots, idx) == 0);
                assert(mid.slots[idx.1 as int][idx.0 as int] == slid_value(
                    before.slots,
                    d,
                    idx.0 as int,
                    idx.1 as int,
                ));
                assert(hint@.subrange(0, slid_hints.len() as int) =~= slid_hints);
                assert(slot_value(self.slots, idx) == new_card_value(choice as int));
                assert forall|x: int, y: int|
                    0 <= x < 4 && 0 <= y < 4 && !(x == idx.0 && y == idx.1) implies #[trigger] self.slots[y][x]
                    == slid_value(before.slots, d, x, y) by {
                    assert(mid.slots[y][x] == slid_value(before.slots, d, x, y));
                }
            }
            Some(hint)
        } else {
            proof {
                let d = *direction;
                lemma_traversal(d);
                assert forall|r: int| 0 <= r < 4 implies #[trigger] row_scan(
                    row_values(before.slots, d, r),
                    4,
                ).events.len() == 0 by {
                    lemma_hints_empty(before.slots, d, 4, r);
                }
                assert forall|x: int, y: int| 0 <= x < 4 && 0 <= y < 4 implies #[trigger] self.slots[y][x]
                    == before.slots[y][x] by {
                    let (r, j) = row_of(d, x, y);
                    let rv = row_values(before.slots, d, r);
                    assert(row_scan(rv, 4).events.len() == 0);
                    lemma_no_events_no_change(rv, 4);
                    lemma_scan_basics(rv, 4);
                    assert(rv[j] == before.slots[y][x]);
                    assert(slid_row(rv)[j] == rv[j]);
                    assert(self.slots[y][x] == slid_value(before.slots, d, x, y));
                }
                assert forall|r: int| 0 <= r < 4 implies #[trigger] row_scan(
                    row_values(before.slots, d, r),
                    4,
                ).gain == 0 by {
                    lemma_no_events_no_change(row_values(before.slots, d, r), 4);
                }
                lemma_gain_zero(before.slots, d, 4);
                assert(self.slots[0] =~= before.slots[0]);
                assert(self.slots[1] =~= before.slots[1]);
                assert(self.slots[2] =~= before.slots[2]);
                assert(self.slots[3] =~= before.slots[3]);
                assert(self.slots =~= before.slots);
            }
            None
        }
    }

    /// Whether shifting the round towards `direction` stays within `u16`: no merged value and
    /// not the new score exceeds `u16::MAX`.
    pub fn shift_stays_in_range(&self, direction: &Direction) -> (r: bool)
        ensures
            r == shift_fits(*self, *direction),
    {
        let d = *direction;
        let idxs = self.collect_indices(d);
        proof {
            lemma_traversal(d);
        }
        let mut fits = true;
        let mut total: u32 = 0;
        let mut row: usize = 0;
        while row < 4
            invariant
                idxs@.len() == 16,
                forall|r: int, j: int|
                    0 <= r < 4 && 0 <= j < 4 ==> #[trigger] idxs@[row_pos(r, j)] == traversal_idx(
                        d,
                        r,
                        j,
                    ),
                forall|r: int, j: int|
                    0 <= r < 4 && 0 <= j < 4 ==> on_board(#[trigger] traversal_idx(d, r, j)),
                row <= 4,
                total == gain_upto(self.slots, d, row as nat),
                total <= row * 4 * 65535,
                fits == (forall|r: int, e: int|
                    0 <= r < row && 0 <= e < row_scan(row_values(self.slots, d, r), 4).events.len()
                        ==> #[trigger] row_scan(row_values(self.slots, d, r), 4).events[e].2
                        <= u16::MAX),
            decreases 4 - row,
        {
            let base = row * 4;
            assert(idxs@[row_pos(row as int, 0)] == traversal_idx(d, row as int, 0));
            assert(idxs@[row_pos(row as int, 1)] == traversal_idx(d, row as int, 1));
            assert(idxs@[row_pos(row as int, 2)] == traversal_idx(d, row as int, 2));
            assert(idxs@[row_pos(row as int, 3)] == traversal_idx(d, row as int, 3));
            let vals: [u16; 4] = [
                self.get(&idxs[base]),
                self.get(&idxs[base + 1]),
                self.get(&idxs[base + 2]),
                self.get(&idxs[base + 3]),
            ];
            assert(vals@ =~= row_values(self.slots, d, row as int));
            let (row_ok, row_gain) = row_fits(&vals);
            fits = fits && row_ok;
            total = total + row_gain;
            row = row + 1;
        }
        fits && (self.score as u32) + total <= 65535
    }

    fn get_mut(&mut self, idx: &Idx) -> (r: &mut u16)
        requires
            on_board(*idx),
        ensures
            *r == slot_value(old(self).slots, *idx),
            final(self).score == old(self).score,
            slots_set(old(self).slots, final(self).slots, *idx, *final(r)),
    {
        &mut self.slots[idx.1][idx.0]
    }

    fn set(&mut self, idx: &Idx, value: u16)
        requires
            on_board(*idx),
        ensures
            final(self).score == old(self).score,
            slots_set(old(self).slots, final(self).slots, *idx, value),
    {
        let rf = self.get_mut(idx);
        *rf = value;
    }

    /// Sets slot `idx` to `value`.
    pub fn set_value(&mut self, idx: &Idx, value: u16)
        requires
            on_board(*idx),
        ensures
            final(self).score == old(self).score,
            slots_set(old(self).slots, final(self).slots, *idx, value),
    {
        let rf = self.get_mut(idx);
        *rf = value;
    }
}

proof fn lemma_indices_step(d: Direction, n: int)
    requires
        0 <= n <= 16,
    ensures
        ({
            let (xdx, ydx) = indices_position(d, n);
            let it = Indices { direction: d, x_width: 4, y_width: 4, xdx, ydx };
            &&& indices_wf(it)
            &&& n < 16 ==> {
                let (nx, ny) = indices_position(d, n + 1);
                indices_step(it) == (
                    Some(traversal_idx(d, n / 4, n % 4)),
                    Indices { direction: d, x_width: 4, y_width: 4, xdx: nx, ydx: ny },
                )
            }
            &&& n == 16 ==> indices_step(it).0 is None
        }),
{
}

/// The sum of a sequence of tile values.
pub open spec fn seq_total(s: Seq<int>) -> int
    decreases s.len(),
{
    if s.len() == 0 {
        0
    } else {
        seq_total(s.drop_last()) + s.last()
    }
}

/// The values of a row as integers.
pub open spec fn row_ints(row: Seq<u16>) -> Seq<int> {
    Seq::new(row.len(), |j: int| row[j] as int)
}

proof fn lemma_total_update_last(s: Seq<int>, v: int)
    requires
        s.len() > 0,
    ensures
        seq_total(s.update(s.len() - 1, v)) == seq_total(s) - s.last() + v,
{
    assert(s.update(s.len() - 1, v).drop_last() =~= s.drop_last());
}

proof fn lemma_total_zeros(s: Seq<int>, n: int)
    requires
        0 <= n <= s.len(),
        forall|j: int| n <= j < s.len() ==> s[j] == 0,
    ensures
        seq_total(s) == seq_total(s.take(n)),
    decreases s.len(),
{
    if s.len() > n {
        assert(s.drop_last().take(n) =~= s.take(n));
        lemma_total_zeros(s.drop_last(), n);
    } else {
        assert(s.take(n) =~= s);
    }
}

proof fn lemma_scan_total(row: Seq<u16>, k: nat)
    requires
        k <= row.len(),
    ensures
        seq_total(row_scan(row, k).out) == seq_total(row_ints(row).take(k as int)),
    decreases k,
{
    if k > 0 {
        lemma_scan_total(row, (k - 1) as nat);
        let s = row_scan(row, (k - 1) as nat);
        assert(row_ints(row).take(k as int).drop_last() =~= row_ints(row).take(k - 1));
        let v = row[k - 1] as int;
        if v != 0 && s.open && s.out.len() > 0 && s.out.last() == v {
            lemma_total_update_last(s.out, 2 * v);
        } else if v != 0 {
            assert(s.out.push(v).drop_last() =~= s.out);
        }
    }
}

/// A slide keeps the sum of the tile values of every row: merging two tiles of value `v`
/// gives one tile of value `2 * v`.
pub proof fn slide_keeps_row_total(row: Seq<u16>)
    requires
        row.len() == 4,
    ensures
        seq_total(slid_row(row)) == seq_total(row_ints(row)),
{
    lemma_scan_total(row, 4);
    lemma_scan_basics(row, 4);
    let out = row_scan(row, 4).out;
    lemma_total_zeros(slid_row(row), out.len() as int);
    assert(slid_row(row).take(out.len() as int) =~= out);
    assert(row_ints(row).take(4) =~= row_ints(row));
}

/// After a slide every row holds its tiles first and its empty slots last.
pub proof fn slide_compacts_rows(row: Seq<u16>, i: int, j: int)
    requires
        0 <= i < j < 4,
        slid_row(row)[i] == 0,
    ensures
        slid_row(row)[j] == 0,
{
    lemma_scan_basics(row, 4);
}

/// In a slide every tile moves towards the side the board is shifted to: each move goes
/// from a position of its row to an earlier one.
pub proof fn slide_moves_towards_direction(row: Seq<u16>, e: int)
    requires
        0 <= e < row_scan(row, 4).events.len(),
    ensures
        row_scan(row, 4).events[e].1 < row_scan(row, 4).events[e].0,
{
    lemma_scan_moves_forward(row, 4);
}

proof fn lemma_scan_moves_forward(row: Seq<u16>, k: nat)
    ensures
        forall|e: int|
            0 <= e < row_scan(row, k).events.len() ==> #[trigger] row_scan(row, k).events[e].1
                < row_scan(row, k).events[e].0,
    decreases k,
{
    if k > 0 {
        lemma_scan_moves_forward(row, (k - 1) as nat);
        lemma_scan_basics(row, (k - 1) as nat);
    }
}

/// A row in which nothing moves keeps its values, and scores nothing.
pub proof fn unmoved_row_is_unchanged(row: Seq<u16>)
    requires
        row.len() == 4,
        row_scan(row, 4).events.len() == 0,
    ensures
        slid_row(row) == row_ints(row),
        row_scan(row, 4).gain == 0,
{
    lemma_no_events_no_change(row, 4);
    lemma_scan_basics(row, 4);
    assert(slid_row(row) =~= row_ints(row));
}

/// A shift never lowers the score.
pub proof fn slide_never_lowers_score(slots: [[u16; 4]; 4], d: Direction)
    ensures
        slide_gain(slots, d) >= 0,
{
    lemma_gain_monotone(slots, d, 0, 4);
}

/// Removing a move right after recording it gives back the record from before.
pub proof fn remove_undoes_set(hints: Seq<(Idx, Hint)>, idx: Idx, hint: Hint)
    ensures
        hints.push((idx, hint)).remove(
            last_match(hints.push((idx, hint)), (hints.len() + 1) as int, idx, hint),
        ) == hints,
{
    let s = hints.push((idx, hint));
    assert(s[hints.len() as int] == (idx, hint));
    assert(last_match(s, (hints.len() + 1) as int, idx, hint) == hints.len());
    assert(s.remove(hints.len() as int) =~= hints);
}

} // verus!
