use vstd::prelude::*;

use crate::engine::round::Idx as BoardIdx;
use crate::tui::canvas::{Canvas, CanvasView};
use crate::tui::geometry::Idx;
use crate::tui48::{decimal_chars, decimal_usize, done_slots_of, rect_of, Slot, Tui48Board};

verus! {

/// `n` copies of `c`.
pub open spec fn repeated(c: char, n: int) -> Seq<char> {
    Seq::new(n as nat, |i: int| c)
}

/// `s` against the right edge of `n` columns, spaces to its left; a longer `s` as it is.
pub open spec fn aligned_right(s: Seq<char>, n: int) -> Seq<char> {
    if s.len() < n {
        repeated(' ', n - s.len()) + s
    } else {
        s
    }
}

/// `s` against the left edge of `n` columns, spaces to its right; a longer `s` as it is.
pub open spec fn aligned_left(s: Seq<char>, n: int) -> Seq<char> {
    if s.len() < n {
        s + repeated(' ', n - s.len())
    } else {
        s
    }
}

/// A place of the board as text: `ridx(x,y)`.
pub open spec fn board_idx_text(i: BoardIdx) -> Seq<char> {
    "ridx("@ + decimal_chars(i.0 as nat) + ","@ + decimal_chars(i.1 as nat) + ")"@
}

/// A place of the canvas as text: `idx(x,y,z)`.
pub open spec fn idx_text(i: Idx) -> Seq<char> {
    "idx("@ + decimal_chars(i.0 as nat) + ","@ + decimal_chars(i.1 as nat) + ","@ + decimal_chars(i.2 as nat) + ")"@
}

/// The first of the slots that holds a moving tile of place `i`, if any.
pub open spec fn first_sliding_at(s: Seq<Slot>, i: BoardIdx) -> Option<Slot>
    decreases s.len(),
{
    if s.len() == 0 {
        None
    } else if s[0] matches Slot::Sliding(st) && st.inner.idx == i {
        Some(s[0])
    } else {
        first_sliding_at(s.drop_first(), i)
    }
}

/// The slot described at column `x` and row `y` of the board: the board's own slot when it
/// holds a tile; otherwise the first moving tile of that place, or else the first arrived one.
pub open spec fn described_slot(tb: Tui48Board, x: int, y: int) -> Option<Slot> {
    let s = tb.slot_grid()[y][x];
    if !(s is Empty) {
        Some(s)
    } else {
        match first_sliding_at(tb.moving_slots@, BoardIdx(x as usize, y as usize)) {
            Some(m) => Some(m),
            None => first_sliding_at(done_slots_of(tb.done_slots@), BoardIdx(x as usize, y as usize)),
        }
    }
}

/// Field `k` of a described slot, on canvas `v`: its value, its place on the board, the place
/// of its buffer, its new value and the place it moves to, each empty where the slot has none.
pub open spec fn slot_field(v: CanvasView, s: Option<Slot>, k: int) -> Seq<char> {
    match s {
        Some(Slot::Static(t)) => if k == 0 {
            decimal_chars(t.value as nat)
        } else if k == 1 {
            board_idx_text(t.idx)
        } else if k == 2 {
            idx_text(rect_of(v, t.buf.id as int).0)
        } else {
            Seq::empty()
        },
        Some(Slot::Sliding(st)) => if k == 0 {
            decimal_chars(st.inner.value as nat)
        } else if k == 1 {
            board_idx_text(st.inner.idx)
        } else if k == 2 {
            idx_text(rect_of(v, st.inner.buf.id as int).0)
        } else if k == 3 {
            match st.new_value {
                Some(nv) => decimal_chars(nv as nat),
                None => Seq::empty(),
            }
        } else {
            idx_text(st.to_rectangle.0)
        },
        _ => Seq::empty(),
    }
}

/// The label of field `k`.
pub open spec fn field_label(k: int) -> Seq<char> {
    if k == 0 {
        "val"@
    } else if k == 1 {
        "bidx"@
    } else if k == 2 {
        "cidx"@
    } else if k == 3 {
        "newval"@
    } else {
        "to_cidx"@
    }
}

/// Field `k` of the slot at column `x` and row `y`: its label in 7 columns, a colon, the field in
/// 14 columns against the right, and a bar.
pub open spec fn field_cell(tb: Tui48Board, v: CanvasView, x: int, y: int, k: int) -> Seq<char> {
    aligned_left(field_label(k), 7) + ":"@ + aligned_right(slot_field(v, described_slot(tb, x, y), k), 14) + "|"@
}

/// Field `k` of the first `n` slots of row `y`, one after the other.
pub open spec fn field_cells(tb: Tui48Board, v: CanvasView, y: int, k: int, n: int) -> Seq<char>
    decreases n,
{
    if n <= 0 {
        Seq::empty()
    } else {
        field_cells(tb, v, y, k, n - 1) + field_cell(tb, v, n - 1, y, k)
    }
}

/// The first `n` fields of row `y`, one line each.
pub open spec fn field_lines(tb: Tui48Board, v: CanvasView, y: int, n: int) -> Seq<char>
    decreases n,
{
    if n <= 0 {
        Seq::empty()
    } else {
        field_lines(tb, v, y, n - 1) + field_cells(tb, v, y, n - 1, tb.slot_grid()[y].len() as int) + "\n"@
    }
}

/// Row `y` of the description: a line of `=`, the five fields of its slots, a line of `.`.
pub open spec fn row_text(tb: Tui48Board, v: CanvasView, y: int) -> Seq<char> {
    repeated('=', 92) + "\n"@ + field_lines(tb, v, y, 5) + repeated('.', 92) + "\n"@
}

/// The first `n` rows of the description.
pub open spec fn rows_text(tb: Tui48Board, v: CanvasView, n: int) -> Seq<char>
    decreases n,
{
    if n <= 0 {
        Seq::empty()
    } else {
        rows_text(tb, v, n - 1) + row_text(tb, v, n - 1)
    }
}

/// The description of the board, on canvas `v`, row by row.
pub open spec fn description(tb: Tui48Board, v: CanvasView) -> Seq<char> {
    rows_text(tb, v, tb.slot_grid().len() as int)
}

/// Appends `n` copies of the one character of `piece`.
fn append_repeated(s: &mut String, piece: &str, n: usize)
    requires
        piece@.len() == 1,
    ensures
        final(s)@ == old(s)@ + repeated(piece@[0], n as int),
{
    let ghost s0 = s@;
    let mut i: usize = 0;
    while i < n
        invariant
            i <= n,
            piece@.len() == 1,
            s@ == s0 + repeated(piece@[0], i as int),
        decreases n - i,
    {
        s.append(piece);
        proof {
            assert(repeated(piece@[0], i + 1) =~= repeated(piece@[0], i as int) + piece@);
            assert(s0 + repeated(piece@[0], i + 1) =~= s0 + repeated(piece@[0], i as int) + piece@);
        }
        i = i + 1;
    }
}

/// Appends `text` against the right edge of `n` columns.
fn append_aligned_right(s: &mut String, text: &str, n: usize)
    ensures
        final(s)@ == old(s)@ + aligned_right(text@, n as int),
{
    let len = text.unicode_len();
    let ghost s0 = s@;
    if len < n {
        proof {
            reveal_strlit(" ");
        }
        append_repeated(s, " ", n - len);
    }
    s.append(text);
    proof {
        if len < n {
            assert(s@ =~= s0 + (repeated(' ', n - len) + text@));
        }
    }
}

/// Appends `text` against the left edge of `n` columns.
fn append_aligned_left(s: &mut String, text: &str, n: usize)
    ensures
        final(s)@ == old(s)@ + aligned_left(text@, n as int),
{
    let len = text.unicode_len();
    let ghost s0 = s@;
    s.append(text);
    if len < n {
        proof {
            reveal_strlit(" ");
        }
        append_repeated(s, " ", n - len);
        proof {
            assert(s@ =~= s0 + (text@ + repeated(' ', n - len)));
        }
    }
}

/// A place of the board as text; see `board_idx_text`.
fn board_idx_string(i: BoardIdx) -> (s: String)
    ensures
        s@ == board_idx_text(i),
{
    let mut s = String::from_str("ridx(");
    s.append(decimal_usize(i.0).as_str());
    s.append(",");
    s.append(decimal_usize(i.1).as_str());
    s.append(")");
    s
}

/// A place of the canvas as text; see `idx_text`.
fn idx_string(i: Idx) -> (s: String)
    ensures
        s@ == idx_text(i),
{
    let mut s = String::from_str("idx(");
    s.append(decimal_usize(i.0).as_str());
    s.append(",");
    s.append(decimal_usize(i.1).as_str());
    s.append(",");
    s.append(decimal_usize(i.2).as_str());
    s.append(")");
    s
}

/// Skipping slots that do not hold a moving tile of place `i` keeps the first one that does.
proof fn lemma_first_sliding_skip(s: Seq<Slot>, i: BoardIdx, k: int)
    requires
        0 <= k < s.len(),
        !(s[k] matches Slot::Sliding(st) && st.inner.idx == i),
    ensures
        first_sliding_at(s.subrange(k, s.len() as int), i) == first_sliding_at(s.subrange(k + 1, s.len() as int), i),
{
    assert(s.subrange(k, s.len() as int).drop_first() =~= s.subrange(k + 1, s.len() as int));
}

/// The first of the moving slots that holds a moving tile of place `i`.
fn find_moving(s: &Vec<Slot>, i: BoardIdx) -> (r: Option<usize>)
    ensures
        r matches Some(k) ==> k < s@.len() && first_sliding_at(s@, i) == Some(s@[k as int]),
        r is None ==> first_sliding_at(s@, i) is None,
{
    let mut k: usize = 0;
    proof {
        assert(s@.subrange(0, s@.len() as int) =~= s@);
    }
    while k < s.len()
        invariant
            k <= s@.len(),
            first_sliding_at(s@, i) == first_sliding_at(s@.subrange(k as int, s@.len() as int), i),
        decreases s@.len() - k,
    {
        let hit = match &s[k] {
            Slot::Sliding(st) => st.inner.idx == i,
            _ => false,
        };
        if hit {
            proof {
                assert(s@.subrange(k as int, s@.len() as int)[0] == s@[k as int]);
            }
            return Some(k);
        }
        proof {
            lemma_first_sliding_skip(s@, i, k as int);
        }
        k = k + 1;
    }
    proof {
        assert(s@.subrange(k as int, s@.len() as int).len() == 0);
    }
    None
}

/// The first of the arrived slots that holds a moving tile of place `i`.
fn find_done(s: &Vec<(BoardIdx, Slot)>, i: BoardIdx) -> (r: Option<usize>)
    ensures
        r matches Some(k) ==> k < s@.len() && first_sliding_at(done_slots_of(s@), i) == Some(s@[k as int].1),
        r is None ==> first_sliding_at(done_slots_of(s@), i) is None,
{
    let ghost d = done_slots_of(s@);
    let mut k: usize = 0;
    proof {
        assert(d.subrange(0, d.len() as int) =~= d);
    }
    while k < s.len()
        invariant
            k <= s@.len(),
            d == done_slots_of(s@),
            d.len() == s@.len(),
            first_sliding_at(d, i) == first_sliding_at(d.subrange(k as int, d.len() as int), i),
        decreases s@.len() - k,
    {
        let hit = match &s[k].1 {
            Slot::Sliding(st) => st.inner.idx == i,
            _ => false,
        };
        proof {
            assert(d[k as int] == s@[k as int].1);
        }
        if hit {
            proof {
                assert(d.subrange(k as int, d.len() as int)[0] == d[k as int]);
            }
            return Some(k);
        }
        proof {
            lemma_first_sliding_skip(d, i, k as int);
        }
        k = k + 1;
    }
    proof {
        assert(d.subrange(k as int, d.len() as int).len() == 0);
    }
    None
}

/// Field `k` of slot `s` on the canvas; see `slot_field`.
fn slot_field_string(canvas: &Canvas, s: &Slot, k: usize) -> (r: String)
    ensures
        r@ == slot_field(canvas@, Some(*s), k as int),
{
    match s {
        Slot::Static(t) => {
            if k == 0 {
                decimal_usize(t.value as usize)
            } else if k == 1 {
                board_idx_string(t.idx)
            } else if k == 2 {
                idx_string(t.buf.rectangle(canvas).0)
            } else {
                String::new()
            }
        },
        Slot::Sliding(st) => {
            if k == 0 {
                decimal_usize(st.inner.value as usize)
            } else if k == 1 {
                board_idx_string(st.inner.idx)
            } else if k == 2 {
                idx_string(st.inner.buf.rectangle(canvas).0)
            } else if k == 3 {
                match st.new_value {
                    Some(nv) => decimal_usize(nv as usize),
                    None => String::new(),
                }
            } else {
                idx_string(st.to_rectangle.0)
            }
        },
        Slot::Empty => String::new(),
    }
}

/// The label of field `k`; see `field_label`.
fn field_label_str(k: usize) -> (r: &'static str)
    ensures
        r@ == field_label(k as int),
{
    if k == 0 {
        proof {
            reveal_strlit("val");
        }
        "val"
    } else if k == 1 {
        proof {
            reveal_strlit("bidx");
        }
        "bidx"
    } else if k == 2 {
        proof {
            reveal_strlit("cidx");
        }
        "cidx"
    } else if k == 3 {
        proof {
            reveal_strlit("newval");
        }
        "newval"
    } else {
        proof {
            reveal_strlit("to_cidx");
        }
        "to_cidx"
    }
}

impl Tui48Board {
    /// The slot described at column `x` and row `y`; see `described_slot`.
    fn described_slot_field(&self, canvas: &Canvas, x: usize, y: usize, k: usize) -> (r: String)
        requires
            self.wf(),
            x < 4,
            y < 4,
        ensures
            r@ == slot_field(canvas@, described_slot(*self, x as int, y as int), k as int),
    {
        proof {
            assert(self.slot_grid()[y as int][x as int] == self.slots@[y as int]@[x as int]);
        }
        let own = &self.slots[y][x];
        let empty = match own {
            Slot::Empty => true,
            _ => false,
        };
        if !empty {
            return slot_field_string(canvas, own, k);
        }
        match find_moving(&self.moving_slots, BoardIdx(x, y)) {
            Some(m) => slot_field_string(canvas, &self.moving_slots[m], k),
            None => match find_done(&self.done_slots, BoardIdx(x, y)) {
                Some(d) => slot_field_string(canvas, &self.done_slots[d].1, k),
                None => String::new(),
            },
        }
    }

    /// The board as a table of text, row by row, for tracing: for each slot, its value, its
    /// place, the place of its buffer, its new value and its target (see `description`).
    pub fn describe(&self, canvas: &Canvas) -> (s: String)
        requires
            self.wf(),
        ensures
            s@ == description(*self, canvas@),
    {
        let mut s = String::new();
        let mut y: usize = 0;
        while y < self.slots.len()
            invariant
                self.wf(),
                y <= 4,
                s@ == rows_text(*self, canvas@, y as int),
            decreases 4 - y,
        {
            let ghost start = s@;
            proof {
                reveal_strlit("=");
                reveal_strlit("\n");
                reveal_strlit(":");
                reveal_strlit("|");
                reveal_strlit(".");
            }
            append_repeated(&mut s, "=", 92);
            s.append("\n");
            let ghost lines_start = s@;
            let mut k: usize = 0;
            while k < 5
                invariant
                    self.wf(),
                    y < 4,
                    k <= 5,
                    s@ == lines_start + field_lines(*self, canvas@, y as int, k as int),
                    ":"@ == seq![':'],
                    "|"@ == seq!['|'],
                    "\n"@ == seq!['\n'],
                decreases 5 - k,
            {
                let ghost line_start = s@;
                let row_len = self.slots[y].len();
                proof {
                    assert(row_len == self.slot_grid()[y as int].len());
                }
                let mut x: usize = 0;
                while x < row_len
                    invariant
                        self.wf(),
                        y < 4,
                        k < 5,
                        x <= row_len,
                        row_len == 4,
                        row_len == self.slot_grid()[y as int].len(),
                        s@ == line_start + field_cells(*self, canvas@, y as int, k as int, x as int),
                        ":"@ == seq![':'],
                        "|"@ == seq!['|'],
                    decreases row_len - x,
                {
                    let ghost cell_start = s@;
                    append_aligned_left(&mut s, field_label_str(k), 7);
                    s.append(":");
                    let field = self.described_slot_field(canvas, x, y, k);
                    append_aligned_right(&mut s, field.as_str(), 14);
                    s.append("|");
                    proof {
                        assert(s@ =~= cell_start + field_cell(*self, canvas@, x as int, y as int, k as int));
                        assert(s@ =~= line_start + field_cells(*self, canvas@, y as int, k as int, x + 1));
                    }
                    x = x + 1;
                }
                s.append("\n");
                proof {
                    assert(s@ =~= lines_start + field_lines(*self, canvas@, y as int, k + 1));
                }
                k = k + 1;
            }
            append_repeated(&mut s, ".", 92);
            s.append("\n");
            proof {
                assert(s@ =~= start + row_text(*self, canvas@, y as int));
                assert(s@ =~= rows_text(*self, canvas@, y + 1));
            }
            y = y + 1;
        }
        s
    }
}

} // verus!
