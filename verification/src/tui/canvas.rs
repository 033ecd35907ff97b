use vstd::prelude::*;
use vstd::string::StringSliceAdditionalSpecFns;

use crate::tui::colors::Rgb;
use crate::tui::drawbuffer::{
    block_places, cleared, drop_order, err_of, inner_left, locate, min, places_of, run_length,
    run_places, side_places, write_left_post, write_center_post, write_right_post, fill_post,
    border_post, colored_run, center_offset, available_width, right_edge, BufferView, DrawBufferInner,
};
use crate::tui::error::{InnerError, TuiError};
use crate::tui::geometry::{
    covers, extents_fit, spec_translated, translation_fits, Direction, lemma_rect_cols_inside, lemma_rect_cols_len, rect_cells,
    spec_containment_error, Bounds2D, Geometry, Idx, Position, Rectangle,
};
use crate::tui::tuxel::Tuxel;

verus! {

/// How many layers a canvas stacks.
pub const CANVAS_DEPTH: usize = 8;

/// A change applied to the colors of every tuxel of a draw buffer when it is shown. A
/// lightness is given in thousandths.
#[derive(Clone, Copy, Debug, PartialEq, Eq, Structural)]
pub enum Modifier {
    SetForegroundColor(u8, u8, u8),
    SetBackgroundColor(u8, u8, u8),
    SetBGLightness(u16),
    SetFGLightness(u16),
}

/// A tuxel of a draw buffer that fills a cell of the canvas: the buffer (by its number among the
/// buffers of the canvas), the tuxel's place on the canvas and its place in the buffer.
#[derive(Clone, Copy, Debug, PartialEq, Eq, Structural)]
pub struct DBTuxel {
    pub buffer: usize,
    pub canvas_idx: Idx,
    pub buf_idx: Idx,
}

/// One layer of a place of the canvas: empty, or filled by a tuxel of a draw buffer.
#[derive(Clone, Copy, Debug, PartialEq, Eq, Structural)]
pub enum Cell {
    Empty,
    DBTuxel(DBTuxel),
}

/// The layers of one place of the canvas, the lowest first.
pub struct Stack {
    pub idx: Idx,
    pub cells: Vec<Cell>,
}

/// What a canvas holds, as plain values: its cells by row, column and layer, its draw buffers
/// (`None` for one that was released), the places that changed since they were last collected,
/// and the tuxels of released buffers that have not been reclaimed yet.
pub struct CanvasView {
    pub rectangle: Rectangle,
    pub cells: Seq<Seq<Seq<Cell>>>,
    pub buffers: Seq<Option<BufferView>>,
    pub changed: Seq<Idx>,
    pub released: Seq<Tuxel>,
}

/// A grid of stacks of cells, the draw buffers that fill them, and the queues that connect them.
pub struct Canvas {
    pub rectangle: Rectangle,
    pub grid: Vec<Vec<Stack>>,
    pub buffers: Vec<Option<DrawBufferInner>>,
    pub changed: Vec<Idx>,
    pub released: Vec<Tuxel>,
}

/// A draw buffer of a canvas, by its number among the canvas's buffers.
pub struct DrawBuffer {
    pub id: usize,
}

impl View for Canvas {
    type V = CanvasView;

    open spec fn view(&self) -> CanvasView {
        CanvasView {
            rectangle: self.rectangle,
            cells: Seq::new(
                self.grid@.len(),
                |y: int| Seq::new(self.grid@[y]@.len(), |x: int| self.grid@[y]@[x].cells@),
            ),
            buffers: Seq::new(
                self.buffers@.len(),
                |i: int|
                    match self.buffers@[i] {
                        Some(b) => Some(b@),
                        None => None,
                    },
            ),
            changed: self.changed@,
            released: self.released@,
        }
    }
}

impl CanvasView {
    pub open spec fn width(&self) -> int {
        self.rectangle.1.0 as int
    }

    pub open spec fn height(&self) -> int {
        self.rectangle.1.1 as int
    }

    /// Whether a place lies on the canvas, on one of its layers.
    pub open spec fn in_grid(&self, idx: Idx) -> bool {
        idx.0 < self.width() && idx.1 < self.height() && idx.2 < CANVAS_DEPTH
    }

    /// The cell at column `x`, row `y` and layer `z`.
    pub open spec fn cell(&self, x: int, y: int, z: int) -> Cell {
        self.cells[y][x][z]
    }

    /// The canvas with the cell at `idx` replaced.
    pub open spec fn with_cell(self, idx: Idx, c: Cell) -> CanvasView {
        CanvasView {
            cells: self.cells.update(
                idx.1 as int,
                self.cells[idx.1 as int].update(
                    idx.0 as int,
                    self.cells[idx.1 as int][idx.0 as int].update(idx.2 as int, c),
                ),
            ),
            ..self
        }
    }

    /// The canvas with `places` announced as changed, in order.
    pub open spec fn with_changes(self, places: Seq<Idx>) -> CanvasView {
        CanvasView { changed: self.changed + places, ..self }
    }

    /// The canvas with `idx` announced as changed.
    pub open spec fn with_change(self, idx: Idx) -> CanvasView {
        CanvasView { changed: self.changed.push(idx), ..self }
    }

    /// Whether the grid has the canvas's size and every stack holds every layer.
    pub open spec fn shape_wf(&self) -> bool {
        &&& self.rectangle.0 == Idx(0, 0, 0)
        &&& self.cells.len() == self.height()
        &&& forall|y: int| 0 <= y < self.height() ==> #[trigger] self.cells[y].len() == self.width()
        &&& forall|y: int, x: int|
            0 <= y < self.height() && 0 <= x < self.width() ==> #[trigger] self.cells[y][x].len()
                == CANVAS_DEPTH
    }

    /// Whether every tuxel of every draw buffer, and every tuxel waiting to be reclaimed, lies on
    /// the canvas, and every changed place lies on the canvas.
    pub open spec fn places_wf(&self) -> bool {
        &&& forall|i: int| 0 <= i < self.released.len() ==> #[trigger] self.in_grid(self.released[i].idx)
        &&& forall|i: int| 0 <= i < self.changed.len() ==> #[trigger] self.in_grid(self.changed[i])
        &&& forall|i: int| 0 <= i < self.buffers.len() && #[trigger] self.buffers[i] is Some ==> buffer_wf(self.buffers[i].unwrap(), *self)
    }

    pub open spec fn wf(&self) -> bool {
        self.shape_wf() && self.places_wf()
    }
}

/// Whether a draw buffer holds one row per line of its rectangle, each as wide as it, and all
/// its tuxels lie on the canvas.
pub open spec fn buffer_wf(b: BufferView, c: CanvasView) -> bool {
    &&& b.tuxels.len() == b.rectangle.1.1
    &&& forall|y: int| 0 <= y < b.tuxels.len() ==> #[trigger] b.tuxels[y].len() == b.rectangle.1.0
    &&& forall|y: int, x: int|
        0 <= y < b.tuxels.len() && 0 <= x < b.tuxels[y].len() ==> c.in_grid(#[trigger] b.tuxels[y][x].idx)
}

/// The tuxel that a cell of a draw buffer refers to, or the error that looking it up gives: a
/// released buffer holds no tuxels any more.
pub open spec fn tuxel_of(v: CanvasView, d: DBTuxel) -> Result<Tuxel, InnerError> {
    if d.buffer < v.buffers.len() && v.buffers[d.buffer as int] is Some {
        let b = v.buffers[d.buffer as int].unwrap();
        match locate(b.rectangle, b.tuxels, Position::Coordinates(d.buf_idx.0, d.buf_idx.1)) {
            Ok((x, y)) => Ok(b.tuxels[y][x]),
            Err(e) => Err(e),
        }
    } else {
        Err(InnerError::OutOfBoundsX(d.buf_idx.0))
    }
}

/// Whether a cell shows a tuxel.
pub open spec fn cell_shows(v: CanvasView, c: Cell) -> bool {
    match c {
        Cell::Empty => false,
        Cell::DBTuxel(d) => tuxel_of(v, d) matches Ok(t) && t.active,
    }
}

/// The highest of the lowest `n` layers that shows a tuxel.
pub open spec fn top_below(v: CanvasView, cells: Seq<Cell>, n: int) -> Option<int>
    decreases n,
{
    if n <= 0 {
        None
    } else if cell_shows(v, cells[n - 1]) {
        Some(n - 1)
    } else {
        top_below(v, cells, n - 1)
    }
}

/// The layer that `top_below` finds shows a tuxel.
pub proof fn lemma_top_below(v: CanvasView, cells: Seq<Cell>, n: int)
    ensures
        top_below(v, cells, n) matches Some(z) ==> 0 <= z < n && cell_shows(v, cells[z]),
    decreases n,
{
    if n > 0 && !cell_shows(v, cells[n - 1]) {
        lemma_top_below(v, cells, n - 1);
    }
}

/// What a stack shows: the character of its highest shown tuxel, or a blank.
pub open spec fn stack_content(v: CanvasView, cells: Seq<Cell>) -> char {
    match top_below(v, cells, cells.len() as int) {
        Some(z) => match cells[z] {
            Cell::DBTuxel(d) => tuxel_of(v, d)->Ok_0.content,
            Cell::Empty => ' ',
        },
        None => ' ',
    }
}

/// The canvas after the first `n` released tuxels were reclaimed: each one's cell is emptied and
/// its place announced as changed.
pub open spec fn reclaim_upto(v: CanvasView, n: int) -> CanvasView
    decreases n,
{
    if n <= 0 {
        v
    } else {
        let idx = v.released[n - 1].idx;
        reclaim_upto(v, n - 1).with_cell(idx, Cell::Empty).with_change(idx)
    }
}

/// The canvas after every released tuxel was reclaimed.
pub open spec fn reclaimed(v: CanvasView) -> CanvasView {
    CanvasView { released: Seq::empty(), ..reclaim_upto(v, v.released.len() as int) }
}

/// The places of all the stacks of the first `n` rows of a grid `w` wide, row by row.
pub open spec fn grid_places(w: int, n: int) -> Seq<Idx>
    decreases n,
{
    if n <= 0 {
        Seq::empty()
    } else {
        grid_places(w, n - 1) + Seq::new(w as nat, |x: int| Idx(x as usize, (n - 1) as usize, 0))
    }
}

/// Whether column `x` and row `y` lie in the rectangle.
pub open spec fn in_rect(r: Rectangle, x: int, y: int) -> bool {
    r.0.0 <= x < r.0.0 + r.1.0 && r.0.1 <= y < r.0.1 + r.1.1
}

/// Whether the place at column `x` and row `y` comes before the one at `cx` and `cy`, row by row.
pub open spec fn earlier(x: int, y: int, cx: int, cy: int) -> bool {
    y < cy || (y == cy && x < cx)
}

/// The cell of draw buffer `id` at column `x` and row `y` of the canvas, for a buffer covering
/// the rectangle `r`.
pub open spec fn owned_cell(r: Rectangle, id: int, x: int, y: int) -> Cell {
    Cell::DBTuxel(
        DBTuxel {
            buffer: id as usize,
            canvas_idx: Idx(x as usize, y as usize, r.0.2),
            buf_idx: Idx((x - r.0.0) as usize, (y - r.0.1) as usize, 0),
        },
    )
}

/// A new, hidden tuxel at `idx`.
pub open spec fn fresh_tuxel(idx: Idx) -> Tuxel {
    Tuxel { active: false, content: '-', idx, fgcolor: None, bgcolor: None }
}

/// The rows of a buffer for `r` that holds the tuxels of the places before `cx` and `cy`.
pub open spec fn partial_rows(r: Rectangle, cx: int, cy: int) -> Seq<Seq<Tuxel>> {
    Seq::new(
        r.1.1 as nat,
        |j: int|
            {
                let y = r.0.1 + j;
                let n: int = if y < cy {
                    r.1.0 as int
                } else if y == cy {
                    cx - r.0.0
                } else {
                    0
                };
                Seq::new(n as nat, |i: int| fresh_tuxel(Idx((r.0.0 + i) as usize, y as usize, r.0.2)))
            },
    )
}

/// Whether `after` holds the cells of `before`, except that the places of `r` before `cx` and
/// `cy` hold the cells of draw buffer `id` on the layer of `r`.
pub open spec fn placed_cells(before: CanvasView, after: CanvasView, r: Rectangle, id: int, cx: int, cy: int) -> bool {
    &&& after.cells.len() == before.cells.len()
    &&& forall|y: int| 0 <= y < before.cells.len() ==> #[trigger] after.cells[y].len() == before.cells[y].len()
    &&& forall|y: int, x: int|
        0 <= y < before.cells.len() && 0 <= x < before.cells[y].len() ==> #[trigger] after.cells[y][x].len()
            == before.cells[y][x].len()
    &&& forall|y: int, x: int, z: int|
        0 <= y < before.cells.len() && 0 <= x < before.cells[y].len() && 0 <= z < before.cells[y][x].len()
            ==> #[trigger] after.cells[y][x][z] == if z == r.0.2 && in_rect(r, x, y) && earlier(x, y, cx, cy) {
            owned_cell(r, id, x, y)
        } else {
            before.cells[y][x][z]
        }
}

/// The first filled column of row `y` among the first `n` columns of `r`, on the layer of `r`.
pub open spec fn row_conflict(v: CanvasView, r: Rectangle, y: int, n: int) -> Option<int>
    decreases n,
{
    if n <= 0 {
        None
    } else {
        match row_conflict(v, r, y, n - 1) {
            Some(x) => Some(x),
            None => if v.cell(r.0.0 + n - 1, y, r.0.2 as int) is DBTuxel {
                Some(r.0.0 + n - 1)
            } else {
                None
            },
        }
    }
}

/// The first filled place of the first `m` rows of `r`, row by row, on the layer of `r`.
pub open spec fn conflict_upto(v: CanvasView, r: Rectangle, m: int) -> Option<(int, int)>
    decreases m,
{
    if m <= 0 {
        None
    } else {
        match conflict_upto(v, r, m - 1) {
            Some(p) => Some(p),
            None => match row_conflict(v, r, r.0.1 + m - 1, r.1.0 as int) {
                Some(x) => Some((x, r.0.1 + m - 1)),
                None => None,
            },
        }
    }
}

/// The canvas once a new draw buffer for `r`, numbered `id`, filled the places of `r` before
/// `cx` and `cy`.
pub open spec fn placed_upto_ok(before: CanvasView, after: CanvasView, r: Rectangle, id: int, cx: int, cy: int) -> bool {
    &&& placed_cells(before, after, r, id, cx, cy)
    &&& after.rectangle == before.rectangle
    &&& after.buffers == before.buffers
    &&& after.changed == before.changed
    &&& after.released == before.released
}

/// A buffer for `r` just taken from the canvas: every tuxel new and hidden, no border, no
/// modifiers.
pub open spec fn fresh_buffer(r: Rectangle) -> BufferView {
    BufferView {
        rectangle: r,
        border: false,
        tuxels: partial_rows(r, r.0.0 as int, r.0.1 + r.1.1),
        modifiers: Seq::empty(),
    }
}

/// Once a row holds a filled place among its first `n` columns, the first one stays the same.
pub proof fn lemma_row_conflict_stable(v: CanvasView, r: Rectangle, y: int, n: int, m: int)
    requires
        row_conflict(v, r, y, n) is Some,
        n <= m,
    ensures
        row_conflict(v, r, y, m) == row_conflict(v, r, y, n),
    decreases m - n,
{
    if n < m {
        lemma_row_conflict_stable(v, r, y, n, m - 1);
    }
}

/// Once the first `a` rows hold a filled place, the first one stays the same.
pub proof fn lemma_conflict_stable(v: CanvasView, r: Rectangle, a: int, b: int)
    requires
        conflict_upto(v, r, a) is Some,
        a <= b,
    ensures
        conflict_upto(v, r, b) == conflict_upto(v, r, a),
    decreases b - a,
{
    if a < b {
        lemma_conflict_stable(v, r, a, b - 1);
    }
}

/// A filled place at column `i` of row `j` of `r`, with none before it, is the first one.
pub proof fn lemma_first_conflict(v: CanvasView, r: Rectangle, j: int, i: int)
    requires
        0 <= j < r.1.1,
        0 <= i < r.1.0,
        conflict_upto(v, r, j) is None,
        row_conflict(v, r, r.0.1 + j, i) is None,
        v.cell(r.0.0 + i, r.0.1 + j, r.0.2 as int) is DBTuxel,
    ensures
        conflict_upto(v, r, r.1.1 as int) == Some((r.0.0 + i, r.0.1 + j)),
{
    assert(row_conflict(v, r, r.0.1 + j, i + 1) == Some(r.0.0 + i));
    lemma_row_conflict_stable(v, r, r.0.1 + j, i + 1, r.1.0 as int);
    assert(conflict_upto(v, r, j + 1) == Some((r.0.0 + i, r.0.1 + j)));
    lemma_conflict_stable(v, r, j + 1, r.1.1 as int);
}

/// Whether a buffer is well formed depends on the canvas only through its size.
pub proof fn lemma_buffer_wf_rect(b: BufferView, v: CanvasView, w: CanvasView)
    requires
        buffer_wf(b, v),
        v.rectangle == w.rectangle,
    ensures
        buffer_wf(b, w),
{
    assert forall|y: int, x: int| 0 <= y < b.tuxels.len() && 0 <= x < b.tuxels[y].len() implies w.in_grid(#[trigger] b.tuxels[y][x].idx) by {
        assert(v.in_grid(b.tuxels[y][x].idx));
    }
}

/// The tuxels of a partly filled buffer for a rectangle on the canvas lie on the canvas.
pub proof fn lemma_partial_rows_in_grid(r: Rectangle, cx: int, cy: int, v: CanvasView)
    requires
        r.0.0 + r.1.0 <= v.width(),
        r.0.1 + r.1.1 <= v.height(),
        r.0.2 < CANVAS_DEPTH,
        r.0.0 <= cx <= r.0.0 + r.1.0,
    ensures
        forall|j: int, k: int|
            0 <= j < partial_rows(r, cx, cy).len() && 0 <= k < partial_rows(r, cx, cy)[j].len() ==> v.in_grid(
                #[trigger] partial_rows(r, cx, cy)[j][k].idx,
            ),
{
}

/// A fresh buffer for a rectangle on the canvas is well formed.
pub proof fn lemma_fresh_buffer_wf(r: Rectangle, v: CanvasView)
    requires
        r.0.0 + r.1.0 <= v.width(),
        r.0.1 + r.1.1 <= v.height(),
        r.0.2 < CANVAS_DEPTH,
    ensures
        buffer_wf(fresh_buffer(r), v),
{
    lemma_partial_rows_in_grid(r, r.0.0 as int, r.0.1 + r.1.1, v);
}

/// The tuxels that releasing a buffer hands back lie where the buffer's tuxels lay.
pub proof fn lemma_drop_order_in_grid(v: CanvasView, rows: Seq<Seq<Tuxel>>)
    requires
        forall|j: int, k: int| 0 <= j < rows.len() && 0 <= k < rows[j].len() ==> v.in_grid(#[trigger] rows[j][k].idx),
    ensures
        forall|i: int| 0 <= i < drop_order(rows).len() ==> v.in_grid(#[trigger] drop_order(rows)[i].idx),
    decreases rows.len(),
{
    if rows.len() > 0 {
        let init = rows.drop_last();
        assert forall|j: int, k: int| 0 <= j < init.len() && 0 <= k < init[j].len() implies v.in_grid(#[trigger] init[j][k].idx) by {
            assert(rows[j][k] == init[j][k]);
        }
        lemma_drop_order_in_grid(v, init);
        let last = rows.last().reverse().map_values(|t: Tuxel| cleared(t));
        assert forall|i: int| 0 <= i < drop_order(rows).len() implies v.in_grid(#[trigger] drop_order(rows)[i].idx) by {
            if i >= drop_order(init).len() {
                let k = i - drop_order(init).len();
                assert(drop_order(rows)[i] == last[k]);
                assert(last[k] == cleared(rows.last()[rows.last().len() - 1 - k]));
                assert(v.in_grid(rows[rows.len() - 1][rows.last().len() - 1 - k].idx));
            }
        }
    }
}

/// Whether two grids of tuxels have the same shape and the same places.
pub open spec fn same_places(a: Seq<Seq<Tuxel>>, b: Seq<Seq<Tuxel>>) -> bool {
    &&& b.len() == a.len()
    &&& forall|y: int| 0 <= y < a.len() ==> #[trigger] b[y].len() == a[y].len()
    &&& forall|y: int, x: int| 0 <= y < a.len() && 0 <= x < a[y].len() ==> #[trigger] b[y][x].idx == a[y][x].idx
}

/// The canvas after draw buffer `id` became `b` and the places `extra` were announced.
pub open spec fn buffer_stepped(v: CanvasView, id: int, b: BufferView, extra: Seq<Idx>) -> CanvasView {
    CanvasView { buffers: v.buffers.update(id, Some(b)), changed: v.changed + extra, ..v }
}

/// The error of taking the cell at `idx` out of the canvas, if any.
pub open spec fn acquire_error(v: CanvasView, idx: Idx) -> Option<InnerError> {
    if idx.1 >= v.height() {
        Some(InnerError::OutOfBoundsY(idx.1))
    } else if idx.0 >= v.width() {
        Some(InnerError::OutOfBoundsX(idx.0))
    } else {
        None
    }
}

/// The canvas after the tuxel that `d` refers to moved to `to`, unless its buffer is `held`
/// (locked by the caller, which then moves it itself); moving it announces `to`. Fails when the
/// tuxel cannot be found.
pub open spec fn tuxel_moved(v: CanvasView, d: DBTuxel, to: Idx, held: Option<usize>) -> Result<CanvasView, InnerError> {
    if held == Some(d.buffer) {
        Ok(v)
    } else {
        match tuxel_of(v, d) {
            Err(e) => Err(e),
            Ok(t) => {
                let b = v.buffers[d.buffer as int].unwrap();
                let x = d.buf_idx.0 as int;
                let y = d.buf_idx.1 as int;
                Ok(
                    CanvasView {
                        buffers: v.buffers.update(
                            d.buffer as int,
                            Some(
                                BufferView {
                                    tuxels: b.tuxels.update(y, b.tuxels[y].update(x, Tuxel { idx: to, ..t })),
                                    ..b
                                },
                            ),
                        ),
                        changed: v.changed.push(to),
                        ..v
                    },
                )
            },
        }
    }
}

/// A cell moved to `to`: it records its new place, and the canvas after its tuxel moved.
pub open spec fn cell_moved(v: CanvasView, c: Cell, to: Idx, held: Option<usize>) -> (Cell, Result<CanvasView, InnerError>) {
    match c {
        Cell::Empty => (Cell::Empty, Ok(v)),
        Cell::DBTuxel(d) => (Cell::DBTuxel(DBTuxel { canvas_idx: to, ..d }), tuxel_moved(v, d, to, held)),
    }
}

/// The canvas after swapping the cells at `from` and `to`, with draw buffer `held` locked by
/// the caller, and the result. Both places must lie in the canvas's rectangle (its far edges
/// included) and on its grid. The tuxels of the two cells move with them; when one of them cannot
/// be found, the swap stops there, with both cells taken out of the grid.
#[verifier::opaque]
pub open spec fn swap_result(v: CanvasView, from: Idx, to: Idx, held: Option<usize>) -> (CanvasView, Result<(), InnerError>) {
    match spec_containment_error(v.rectangle, Geometry::Idx(&from)) {
        Some(e) => (v, Err(e)),
        None => match spec_containment_error(v.rectangle, Geometry::Idx(&to)) {
            Some(e) => (v, Err(e)),
            None => match acquire_error(v, from) {
                Some(e) => (v, Err(e)),
                None => {
                    let from_cell = v.cell(from.0 as int, from.1 as int, from.2 as int);
                    let v1 = v.with_cell(from, Cell::Empty);
                    match acquire_error(v1, to) {
                        Some(e) => (v1.with_cell(from, from_cell), Err(e)),
                        None => {
                            let to_cell = v1.cell(to.0 as int, to.1 as int, to.2 as int);
                            let v2 = v1.with_cell(to, Cell::Empty);
                            let (fc, r1) = cell_moved(v2, from_cell, to, held);
                            match r1 {
                                Err(e) => (v2, Err(e)),
                                Ok(v3) => {
                                    let (tc, r2) = cell_moved(v3, to_cell, from, held);
                                    match r2 {
                                        Err(e) => (v3, Err(e)),
                                        Ok(v4) => (
                                            v4.with_cell(from, tc).with_cell(to, fc).with_change(from).with_change(to),
                                            Ok(()),
                                        ),
                                    }
                                },
                            }
                        },
                    }
                },
            },
        },
    }
}

/// The cell `c` recording the place `to` as its own.
pub open spec fn cell_at(c: Cell, to: Idx) -> Cell {
    match c {
        Cell::Empty => Cell::Empty,
        Cell::DBTuxel(d) => Cell::DBTuxel(DBTuxel { canvas_idx: to, ..d }),
    }
}

/// Whether the cell at `idx` records `idx` as its place.
pub open spec fn cell_placed(v: CanvasView, idx: Idx) -> bool {
    v.cell(idx.0 as int, idx.1 as int, idx.2 as int) matches Cell::DBTuxel(d) ==> d.canvas_idx == idx
}

/// Swapping two cells of the grid whose tuxels can be found succeeds: their cells change
/// places, each recording its new place, both places are announced, and no other cell changes;
/// swapping them again succeeds too and gives back every cell, where the cells recorded their
/// own places.
pub proof fn law_swap_round_trip(v: CanvasView, a: Idx, b: Idx, held: Option<usize>)
    requires
        v.wf(),
        v.in_grid(a),
        v.in_grid(b),
        a != b,
        cell_found(v, v.cell(a.0 as int, a.1 as int, a.2 as int), held),
        cell_found(v, v.cell(b.0 as int, b.1 as int, b.2 as int), held),
    ensures
        swap_result(v, a, b, held).1 is Ok,
        ({
            let w = swap_result(v, a, b, held).0;
            &&& w.cell(a.0 as int, a.1 as int, a.2 as int) == cell_at(v.cell(b.0 as int, b.1 as int, b.2 as int), a)
            &&& w.cell(b.0 as int, b.1 as int, b.2 as int) == cell_at(v.cell(a.0 as int, a.1 as int, a.2 as int), b)
            &&& forall|x: int, y: int, z: int| 0 <= x < v.width() && 0 <= y < v.height() && 0 <= z < CANVAS_DEPTH
                && Idx(x as usize, y as usize, z as usize) != a && Idx(x as usize, y as usize, z as usize) != b
                ==> #[trigger] w.cell(x, y, z) == v.cell(x, y, z)
            &&& w.changed.len() >= 2
            &&& w.changed[w.changed.len() - 2] == a
            &&& w.changed[w.changed.len() - 1] == b
            &&& swap_result(w, a, b, held).1 is Ok
            &&& (cell_placed(v, a) && cell_placed(v, b)) ==> forall|x: int, y: int, z: int|
                0 <= x < v.width() && 0 <= y < v.height() && 0 <= z < CANVAS_DEPTH
                ==> #[trigger] swap_result(w, a, b, held).0.cell(x, y, z) == v.cell(x, y, z)
        }),
{
    law_swap_on_grid_succeeds(v, a, b, held);
    reveal(swap_result);
    let w = swap_result(v, a, b, held).0;
    assert(v.cells[a.1 as int].len() == v.width());
    assert(v.cells[b.1 as int].len() == v.width());
    assert(v.cells[a.1 as int][a.0 as int].len() == CANVAS_DEPTH);
    assert(v.cells[b.1 as int][b.0 as int].len() == CANVAS_DEPTH);
    let from_cell = v.cell(a.0 as int, a.1 as int, a.2 as int);
    let v1 = v.with_cell(a, Cell::Empty);
    let to_cell = v1.cell(b.0 as int, b.1 as int, b.2 as int);
    assert(to_cell == v.cell(b.0 as int, b.1 as int, b.2 as int));
    let v2 = v1.with_cell(b, Cell::Empty);
    let (fc, r1) = cell_moved(v2, from_cell, b, held);
    let v3 = r1->Ok_0;
    let (tc, r2) = cell_moved(v3, to_cell, a, held);
    let v4 = r2->Ok_0;
    assert(v3.cells == v2.cells);
    assert(v4.cells == v2.cells);
    assert(v3.rectangle == v.rectangle);
    assert(v4.rectangle == v.rectangle);
    assert(w == v4.with_cell(a, tc).with_cell(b, fc).with_change(a).with_change(b));
    // the second swap
    let g1 = w.with_cell(a, Cell::Empty);
    let g2 = g1.with_cell(b, Cell::Empty);
    assert(w.cell(a.0 as int, a.1 as int, a.2 as int) == tc);
    assert(w.cell(b.0 as int, b.1 as int, b.2 as int) == fc);
    assert(g1.cell(b.0 as int, b.1 as int, b.2 as int) == fc);
    assert(g2.buffers == v4.buffers);
    match to_cell {
        Cell::Empty => {},
        Cell::DBTuxel(d) => {
            if held != Some(d.buffer) {
                assert(tuxel_of(v3, d) is Ok);
                assert(tuxel_of(v4, d) is Ok);
                assert(tuxel_of(g2, DBTuxel { canvas_idx: a, ..d }) is Ok);
            }
        },
    }
    let (fc2, s1) = cell_moved(g2, tc, b, held);
    assert(s1 is Ok);
    let u3 = s1->Ok_0;
    match from_cell {
        Cell::Empty => {},
        Cell::DBTuxel(d) => {
            if held != Some(d.buffer) {
                assert(tuxel_of(v2, d) is Ok);
                assert(tuxel_of(v3, d) is Ok);
                assert(tuxel_of(v4, d) is Ok);
                assert(tuxel_of(u3, DBTuxel { canvas_idx: b, ..d }) is Ok);
            }
        },
    }
    let (tc2, s2) = cell_moved(u3, fc, a, held);
    assert(s2 is Ok);
}

/// Whether the tuxel of cell `c` can be found on canvas `v`, unless the cell is empty or its
/// buffer is `held` by the caller.
pub open spec fn cell_found(v: CanvasView, c: Cell, held: Option<usize>) -> bool {
    match c {
        Cell::Empty => true,
        Cell::DBTuxel(d) => held == Some(d.buffer) || tuxel_of(v, d) is Ok,
    }
}

/// Swapping two places of the grid whose tuxels can be found succeeds.
pub proof fn law_swap_on_grid_succeeds(v: CanvasView, a: Idx, b: Idx, held: Option<usize>)
    requires
        v.wf(),
        v.in_grid(a),
        v.in_grid(b),
        cell_found(v, v.cell(a.0 as int, a.1 as int, a.2 as int), held),
        cell_found(v, v.cell(b.0 as int, b.1 as int, b.2 as int), held),
    ensures
        swap_result(v, a, b, held).1 is Ok,
{
    reveal(swap_result);
    assert(v.cells[a.1 as int].len() == v.width());
    assert(v.cells[b.1 as int].len() == v.width());
    assert(v.cells[a.1 as int][a.0 as int].len() == CANVAS_DEPTH);
    assert(v.cells[b.1 as int][b.0 as int].len() == CANVAS_DEPTH);
    let from_cell = v.cell(a.0 as int, a.1 as int, a.2 as int);
    let v1 = v.with_cell(a, Cell::Empty);
    let to_cell = v1.cell(b.0 as int, b.1 as int, b.2 as int);
    let v2 = v1.with_cell(b, Cell::Empty);
    assert(v2.buffers == v.buffers);
    let (fc, r1) = cell_moved(v2, from_cell, b, held);
    match from_cell {
        Cell::Empty => {},
        Cell::DBTuxel(d) => {
            if held != Some(d.buffer) {
                assert(tuxel_of(v2, d) is Ok);
            }
        },
    }
    assert(r1 is Ok);
    let v3 = r1->Ok_0;
    if a != b {
        assert(to_cell == v.cell(b.0 as int, b.1 as int, b.2 as int));
        match to_cell {
            Cell::Empty => {},
            Cell::DBTuxel(d) => {
                if held != Some(d.buffer) {
                    assert(tuxel_of(v, d) is Ok);
                    assert(tuxel_of(v3, d) is Ok);
                }
            },
        }
    } else {
        assert(to_cell == Cell::Empty);
    }
    let (tc, r2) = cell_moved(v3, to_cell, a, held);
    assert(r2 is Ok);
}

/// Swapping with a place off the grid fails and changes no cell.
pub proof fn law_swap_off_grid_fails(v: CanvasView, a: Idx, b: Idx, held: Option<usize>)
    requires
        v.wf(),
        a.2 < CANVAS_DEPTH,
        b.2 < CANVAS_DEPTH,
        !v.in_grid(a) || !v.in_grid(b),
    ensures
        swap_result(v, a, b, held).1 is Err,
        forall|x: int, y: int, z: int| 0 <= x < v.width() && 0 <= y < v.height() && 0 <= z < CANVAS_DEPTH
            ==> #[trigger] swap_result(v, a, b, held).0.cell(x, y, z) == v.cell(x, y, z),
{
    reveal(swap_result);
    if v.in_grid(a) {
        assert(v.cells[a.1 as int].len() == v.width());
        assert(v.cells[a.1 as int][a.0 as int].len() == CANVAS_DEPTH);
    }
}

/// The canvas after the first `n` swaps of the places of `p1` with those of `p2`, stopping at
/// the first one that fails, and the result.
pub open spec fn swaps_upto(v: CanvasView, p1: Seq<Idx>, p2: Seq<Idx>, held: Option<usize>, n: int) -> (CanvasView, Result<(), InnerError>)
    decreases n,
{
    if n <= 0 {
        (v, Ok(()))
    } else {
        let (w, r) = swaps_upto(v, p1, p2, held, n - 1);
        match r {
            Err(e) => (w, Err(e)),
            Ok(()) => swap_result(w, p1[n - 1], p2[n - 1], held),
        }
    }
}

/// After a failed swap, later ones are not made.
pub proof fn lemma_swaps_stable(v: CanvasView, p1: Seq<Idx>, p2: Seq<Idx>, held: Option<usize>, n: int, m: int)
    requires
        swaps_upto(v, p1, p2, held, n).1 is Err,
        0 <= n <= m,
    ensures
        swaps_upto(v, p1, p2, held, m) == swaps_upto(v, p1, p2, held, n),
    decreases m - n,
{
    if n < m {
        lemma_swaps_stable(v, p1, p2, held, n, m - 1);
    }
}

/// The canvas after swapping the cells of two rectangles of the same size, column by column,
/// and reclaiming released tuxels, with draw buffer `held` locked by the caller; and the result.
pub open spec fn swap_rectangles_result(v: CanvasView, r1: Rectangle, r2: Rectangle, held: Option<usize>) -> (CanvasView, Result<(), InnerError>) {
    if r1 == r2 {
        (v, Ok(()))
    } else if r1.1 != r2.1 {
        (v, Err(InnerError::RectangleDimensionsMustMatch))
    } else {
        let (w, r) = swaps_upto(v, rect_cells(r1), rect_cells(r2), held, rect_cells(r1).len() as int);
        match r {
            Err(e) => (w, Err(e)),
            Ok(()) => (reclaimed(w), Ok(())),
        }
    }
}

/// The tuxels moved to layer `z`.
pub open spec fn relayered(t: Seq<Seq<Tuxel>>, z: usize) -> Seq<Seq<Tuxel>> {
    Seq::new(
        t.len(),
        |y: int| Seq::new(t[y].len(), |x: int| Tuxel { idx: Idx(t[y][x].idx.0, t[y][x].idx.1, z), ..t[y][x] }),
    )
}

/// Whether `after` is `before` with the rows before `j`, and the first `i` tuxels of row `j`,
/// taken from `target`.
pub open spec fn rows_taken(before: Seq<Seq<Tuxel>>, after: Seq<Seq<Tuxel>>, target: Seq<Seq<Tuxel>>, j: int, i: int) -> bool {
    &&& after.len() == before.len()
    &&& forall|y: int| 0 <= y < before.len() ==> #[trigger] after[y].len() == before[y].len()
    &&& forall|y: int, x: int|
        0 <= y < before.len() && 0 <= x < before[y].len() ==> #[trigger] after[y][x] == if earlier(x, y, i, j) {
            target[y][x]
        } else {
            before[y][x]
        }
}

/// What moving draw buffer `id`, which is `b`, to layer `zdx` gives: the canvas (with the
/// buffer in place) and the result. The buffer's rectangle moves to the layer first; then the
/// cells of the two rectangles are swapped; then every tuxel, row by row, moves to the layer,
/// which announces its place.
pub open spec fn switch_layer_result(v: CanvasView, id: int, b: BufferView, zdx: usize) -> (CanvasView, Result<(), InnerError>) {
    if b.rectangle.0.2 == zdx {
        (v, Ok(()))
    } else {
        let v0 = CanvasView { buffers: v.buffers.update(id, None), ..v };
        let nr = Rectangle(Idx(b.rectangle.0.0, b.rectangle.0.1, zdx), b.rectangle.1);
        let (w, res) = swap_rectangles_result(v0, nr, b.rectangle, Some(id as usize));
        match res {
            Err(e) => (CanvasView { buffers: w.buffers.update(id, Some(BufferView { rectangle: nr, ..b })), ..w }, Err(e)),
            Ok(()) => {
                let t = relayered(b.tuxels, zdx);
                (
                    CanvasView {
                        buffers: w.buffers.update(id, Some(BufferView { rectangle: nr, tuxels: t, ..b })),
                        changed: w.changed + block_places(t, 0, b.rectangle.1.0 as int, 0, b.rectangle.1.1 as int),
                        ..w
                    },
                    Ok(()),
                )
            },
        }
    }
}

/// Whether tuxels are moved in reading order for a step towards `dir`; otherwise they are moved
/// in reverse, so that none lands on a place that another has yet to leave.
pub open spec fn forward(dir: Direction) -> bool {
    dir is Left || dir is Up
}

/// Where a tuxel at `cur` goes when its buffer steps towards `dir` on a canvas `w` wide and `h`
/// high: moves left or up stop at zero, a move right stops past the right edge, and a move down
/// past the bottom edge fails.
pub open spec fn step_target(cur: Idx, dir: Direction, w: int, h: int) -> Option<Idx> {
    match dir {
        Direction::Left => Some(if cur.0 > 0 { Idx((cur.0 - 1) as usize, cur.1, cur.2) } else { cur }),
        Direction::Right => Some(if cur.0 < w { Idx((cur.0 + 1) as usize, cur.1, cur.2) } else { cur }),
        Direction::Up => Some(if cur.1 > 0 { Idx(cur.0, (cur.1 - 1) as usize, cur.2) } else { cur }),
        Direction::Down => if cur.1 < h {
            Some(Idx(cur.0, (cur.1 + 1) as usize, cur.2))
        } else {
            None
        },
    }
}

/// The index of the `k`-th of `n` items in the order of a step towards `dir`.
pub open spec fn step_index(dir: Direction, n: int, k: int) -> int {
    if forward(dir) {
        k
    } else {
        n - 1 - k
    }
}

/// One tuxel (row `y`, column `x`) of draw buffer `id` stepping towards `dir`: its cell is
/// swapped with the one where it goes, then the tuxel records its new place, which announces
/// it. `Err(None)` is a move down past the bottom edge.
pub open spec fn translate_step(v: CanvasView, t: Seq<Seq<Tuxel>>, id: int, dir: Direction, y: int, x: int) -> (CanvasView, Seq<Seq<Tuxel>>, Result<(), Option<InnerError>>) {
    let cur = t[y][x].idx;
    match step_target(cur, dir, v.width(), v.height()) {
        None => (v, t, Err(None)),
        Some(nw) => {
            let (w, r) = swap_result(v, cur, nw, Some(id as usize));
            match r {
                Err(e) => (w, t, Err(Some(e))),
                Ok(()) => (w.with_change(nw), t.update(y, t[y].update(x, Tuxel { idx: nw, ..t[y][x] })), Ok(())),
            }
        },
    }
}

/// The first `n` tuxels of row `y`, in the order of the step, stepping towards `dir`; stops at
/// the first failure.
pub open spec fn translate_row(v: CanvasView, t: Seq<Seq<Tuxel>>, id: int, dir: Direction, y: int, n: int) -> (CanvasView, Seq<Seq<Tuxel>>, Result<(), Option<InnerError>>)
    decreases n,
{
    if n <= 0 {
        (v, t, Ok(()))
    } else {
        let (v1, t1, r1) = translate_row(v, t, id, dir, y, n - 1);
        match r1 {
            Err(e) => (v1, t1, Err(e)),
            Ok(()) => translate_step(v1, t1, id, dir, y, step_index(dir, t[y].len() as int, n - 1)),
        }
    }
}

/// The first `n` rows, in the order of the step, stepping towards `dir`; stops at the first
/// failure.
pub open spec fn translate_rows(v: CanvasView, t: Seq<Seq<Tuxel>>, id: int, dir: Direction, n: int) -> (CanvasView, Seq<Seq<Tuxel>>, Result<(), Option<InnerError>>)
    decreases n,
{
    if n <= 0 {
        (v, t, Ok(()))
    } else {
        let (v1, t1, r1) = translate_rows(v, t, id, dir, n - 1);
        match r1 {
            Err(e) => (v1, t1, Err(e)),
            Ok(()) => {
                let y = step_index(dir, t.len() as int, n - 1);
                translate_row(v1, t1, id, dir, y, t[y].len() as int)
            },
        }
    }
}

/// What moving draw buffer `id`, which is `b`, one step towards `dir` gives: the canvas (with
/// the buffer in place) and the result. The buffer's rectangle moves first; then its tuxels
/// step one by one.
pub open spec fn translate_result(v: CanvasView, id: int, b: BufferView, dir: Direction) -> (CanvasView, Result<(), Option<InnerError>>) {
    let v0 = CanvasView { buffers: v.buffers.update(id, None), ..v };
    let (w, t, r) = translate_rows(v0, b.tuxels, id, dir, b.tuxels.len() as int);
    (
        CanvasView {
            buffers: w.buffers.update(id, Some(BufferView { rectangle: spec_translated(b.rectangle, 1, dir), tuxels: t, ..b })),
            ..w
        },
        r,
    )
}

/// Stepping the tuxels of a row keeps the canvas's number of buffers.
pub proof fn lemma_translate_row_len(v: CanvasView, t: Seq<Seq<Tuxel>>, id: int, dir: Direction, y: int, n: int)
    ensures
        translate_row(v, t, id, dir, y, n).0.buffers.len() == v.buffers.len(),
    decreases n,
{
    if n > 0 {
        lemma_translate_row_len(v, t, id, dir, y, n - 1);
        let (v1, t1, r1) = translate_row(v, t, id, dir, y, n - 1);
        let x = step_index(dir, t[y].len() as int, n - 1);
        let cur = t1[y][x].idx;
        match step_target(cur, dir, v1.width(), v1.height()) {
            None => {},
            Some(nw) => {
                lemma_swap_frame(v1, cur, nw, Some(id as usize));
            },
        }
    }
}

/// Stepping the tuxels of the rows keeps the canvas's number of buffers.
pub proof fn lemma_translate_rows_len(v: CanvasView, t: Seq<Seq<Tuxel>>, id: int, dir: Direction, n: int)
    ensures
        translate_rows(v, t, id, dir, n).0.buffers.len() == v.buffers.len(),
    decreases n,
{
    if n > 0 {
        lemma_translate_rows_len(v, t, id, dir, n - 1);
        let (v1, t1, r1) = translate_rows(v, t, id, dir, n - 1);
        let y = step_index(dir, t.len() as int, n - 1);
        lemma_translate_row_len(v1, t1, id, dir, y, t[y].len() as int);
    }
}

/// Moving a live draw buffer one step keeps it live, with its rectangle moved one step.
pub proof fn lemma_translate_rect(v: CanvasView, id: int, dir: Direction)
    requires
        0 <= id < v.buffers.len(),
        v.buffers[id] is Some,
    ensures
        translate_result(v, id, vbuf(v, id), dir).0.buffers.len() == v.buffers.len(),
        translate_result(v, id, vbuf(v, id), dir).0.buffers[id] is Some,
        vbuf(translate_result(v, id, vbuf(v, id), dir).0, id).rectangle == spec_translated(vbuf(v, id).rectangle, 1, dir),
{
    let b = vbuf(v, id);
    let v0 = CanvasView { buffers: v.buffers.update(id, None), ..v };
    lemma_translate_rows_len(v0, b.tuxels, id, dir, b.tuxels.len() as int);
}

/// Whether the grid of canvas `v` has the canvas's shape and every cell of layer `z` is empty
/// or holds a tuxel of draw buffer `id`.
pub open spec fn layer_clean(v: CanvasView, id: int, z: int) -> bool {
    &&& v.shape_wf()
    &&& 0 <= z < CANVAS_DEPTH
    &&& forall|x: int, y: int| 0 <= x < v.width() && 0 <= y < v.height() ==> match #[trigger] v.cell(x, y, z) {
        Cell::Empty => true,
        Cell::DBTuxel(d) => d.buffer == id,
    }
}

/// Swapping two places of layer `z` of a canvas whose layer `z` holds only tuxels of the held
/// draw buffer `id` succeeds and keeps the layer so.
proof fn lemma_swap_clean(v: CanvasView, from: Idx, to: Idx, id: int)
    requires
        layer_clean(v, id, from.2 as int),
        v.in_grid(from),
        v.in_grid(to),
        to.2 == from.2,
        0 <= id <= usize::MAX,
    ensures
        swap_result(v, from, to, Some(id as usize)).1 is Ok,
        layer_clean(swap_result(v, from, to, Some(id as usize)).0, id, from.2 as int),
        swap_result(v, from, to, Some(id as usize)).0.rectangle == v.rectangle,
        swap_result(v, from, to, Some(id as usize)).0.buffers == v.buffers,
{
    reveal(swap_result);
    let z = from.2 as int;
    assert(v.cells[from.1 as int].len() == v.width());
    assert(v.cells[to.1 as int].len() == v.width());
    assert(v.cells[from.1 as int][from.0 as int].len() == CANVAS_DEPTH);
    assert(v.cells[to.1 as int][to.0 as int].len() == CANVAS_DEPTH);
    let from_cell = v.cell(from.0 as int, from.1 as int, z);
    assert(match from_cell { Cell::Empty => true, Cell::DBTuxel(d) => d.buffer == id });
    let v1 = v.with_cell(from, Cell::Empty);
    let to_cell = v1.cell(to.0 as int, to.1 as int, z);
    assert(match to_cell { Cell::Empty => true, Cell::DBTuxel(d) => d.buffer == id }) by {
        if to != from {
            assert(to_cell == v.cell(to.0 as int, to.1 as int, z));
        }
    }
    let w = swap_result(v, from, to, Some(id as usize)).0;
    assert(w.shape_wf()) by {
        assert forall|y: int| 0 <= y < w.height() implies #[trigger] w.cells[y].len() == w.width() by {
            assert(v.cells[y].len() == v.width());
        }
        assert forall|y: int, x: int| 0 <= y < w.height() && 0 <= x < w.width() implies #[trigger] w.cells[y][x].len() == CANVAS_DEPTH by {
            assert(v.cells[y].len() == v.width());
            assert(v.cells[y][x].len() == CANVAS_DEPTH);
        }
    }
    assert forall|x: int, y: int| 0 <= x < w.width() && 0 <= y < w.height() implies match #[trigger] w.cell(x, y, z) {
        Cell::Empty => true,
        Cell::DBTuxel(d) => d.buffer == id,
    } by {
        assert(v.cells[y].len() == v.width());
        assert(v.cells[y][x].len() == CANVAS_DEPTH);
        match v.cell(x, y, z) {
            Cell::Empty => {},
            Cell::DBTuxel(d) => {},
        }
    }
}

/// Whether the `x`-th of `n` items is among the first `k` in the order of a step towards `dir`.
pub open spec fn step_done(dir: Direction, n: int, k: int, x: int) -> bool {
    if forward(dir) {
        x < k
    } else {
        x >= n - k
    }
}

/// A tuxel after its step towards `dir` on a canvas `w` wide and `h` high.
pub open spec fn stepped_tuxel(t: Tuxel, dir: Direction, w: int, h: int) -> Tuxel {
    Tuxel { idx: step_target(t.idx, dir, w, h)->0, ..t }
}

/// Whether a tuxel at `p` on layer `z` of canvas `v` can take its step towards `dir` without
/// leaving the grid.
pub open spec fn step_on_grid(v: CanvasView, p: Idx, dir: Direction, z: int) -> bool {
    &&& v.in_grid(p)
    &&& p.2 == z
    &&& step_target(p, dir, v.width(), v.height()) matches Some(q) && v.in_grid(q)
}

/// The tuxels of a row stepping towards `dir` on a layer that holds only their buffer's
/// tuxels, each with its step on the grid: every step succeeds and each tuxel taken so far has
/// taken its step.
proof fn lemma_translate_row_ok(v: CanvasView, t: Seq<Seq<Tuxel>>, id: int, dir: Direction, y: int, n: int, z: int)
    requires
        layer_clean(v, id, z),
        0 <= id <= usize::MAX,
        0 <= y < t.len(),
        0 <= n <= t[y].len(),
        forall|x: int| 0 <= x < t[y].len() ==> step_on_grid(v, (#[trigger] t[y][x]).idx, dir, z),
    ensures
        ({
            let (w, t2, r) = translate_row(v, t, id, dir, y, n);
            &&& r is Ok
            &&& layer_clean(w, id, z)
            &&& w.rectangle == v.rectangle
            &&& w.buffers == v.buffers
            &&& t2.len() == t.len()
            &&& forall|yy: int| 0 <= yy < t.len() && yy != y ==> #[trigger] t2[yy] == t[yy]
            &&& t2[y].len() == t[y].len()
            &&& forall|x: int| 0 <= x < t[y].len() ==> #[trigger] t2[y][x] == if step_done(dir, t[y].len() as int, n, x) {
                stepped_tuxel(t[y][x], dir, v.width(), v.height())
            } else {
                t[y][x]
            }
        }),
    decreases n,
{
    if n > 0 {
        lemma_translate_row_ok(v, t, id, dir, y, n - 1, z);
        let (v1, t1, r1) = translate_row(v, t, id, dir, y, n - 1);
        let len = t[y].len() as int;
        let x = step_index(dir, len, n - 1);
        assert(!step_done(dir, len, n - 1, x));
        assert(t1[y][x] == t[y][x]);
        assert(step_on_grid(v, t[y][x].idx, dir, z));
        let cur = t1[y][x].idx;
        assert(v1.width() == v.width() && v1.height() == v.height());
        assert(v1.in_grid(cur));
        let nw = step_target(cur, dir, v1.width(), v1.height())->0;
        assert(v1.in_grid(nw));
        lemma_swap_clean(v1, cur, nw, id);
        let (sw, sr) = swap_result(v1, cur, nw, Some(id as usize));
        assert(layer_clean(sw.with_change(nw), id, z)) by {
            let u = sw.with_change(nw);
            assert forall|xx: int, yy: int| 0 <= xx < u.width() && 0 <= yy < u.height() implies match #[trigger] u.cell(xx, yy, z) {
                Cell::Empty => true,
                Cell::DBTuxel(d) => d.buffer == id,
            } by {
                assert(u.cell(xx, yy, z) == sw.cell(xx, yy, z));
            }
        }
        let (w, t2, r) = translate_row(v, t, id, dir, y, n);
        assert(r is Ok);
        assert(w == sw.with_change(nw));
        assert(t2 == t1.update(y, t1[y].update(x, Tuxel { idx: nw, ..t1[y][x] })));
        assert forall|xx: int| 0 <= xx < t[y].len() implies #[trigger] t2[y][xx] == if step_done(dir, len, n, xx) {
            stepped_tuxel(t[y][xx], dir, v.width(), v.height())
        } else {
            t[y][xx]
        } by {
            if xx != x {
                assert(t2[y][xx] == t1[y][xx]);
            }
        }
    }
}

/// The rows of a buffer stepping towards `dir`, row by row, on a layer that holds only its
/// tuxels, each with its step on the grid: every step succeeds and each tuxel of the rows taken
/// so far has taken its step.
proof fn lemma_translate_rows_ok(v: CanvasView, t: Seq<Seq<Tuxel>>, id: int, dir: Direction, n: int, z: int)
    requires
        layer_clean(v, id, z),
        0 <= id <= usize::MAX,
        0 <= n <= t.len(),
        forall|y: int, x: int| 0 <= y < t.len() && 0 <= x < t[y].len() ==> step_on_grid(v, (#[trigger] t[y][x]).idx, dir, z),
    ensures
        ({
            let (w, t2, r) = translate_rows(v, t, id, dir, n);
            &&& r is Ok
            &&& layer_clean(w, id, z)
            &&& w.rectangle == v.rectangle
            &&& w.buffers == v.buffers
            &&& t2.len() == t.len()
            &&& forall|y: int| 0 <= y < t.len() ==> #[trigger] t2[y].len() == t[y].len()
            &&& forall|y: int, x: int| 0 <= y < t.len() && 0 <= x < t[y].len() ==> #[trigger] t2[y][x] == if step_done(dir, t.len() as int, n, y) {
                stepped_tuxel(t[y][x], dir, v.width(), v.height())
            } else {
                t[y][x]
            }
        }),
    decreases n,
{
    if n > 0 {
        lemma_translate_rows_ok(v, t, id, dir, n - 1, z);
        let (v1, t1, r1) = translate_rows(v, t, id, dir, n - 1);
        let y = step_index(dir, t.len() as int, n - 1);
        assert(!step_done(dir, t.len() as int, n - 1, y));
        assert forall|x: int| 0 <= x < t1[y].len() implies step_on_grid(v1, (#[trigger] t1[y][x]).idx, dir, z) by {
            assert(t1[y][x] == t[y][x]);
            assert(step_on_grid(v, t[y][x].idx, dir, z));
        }
        lemma_translate_row_ok(v1, t1, id, dir, y, t[y].len() as int, z);
        let (w, t2, r) = translate_rows(v, t, id, dir, n);
        assert forall|yy: int, x: int| 0 <= yy < t.len() && 0 <= x < t[yy].len() implies #[trigger] t2[yy][x] == if step_done(dir, t.len() as int, n, yy) {
            stepped_tuxel(t[yy][x], dir, v.width(), v.height())
        } else {
            t[yy][x]
        } by {
            if yy != y {
                assert(t2[yy] == t1[yy]);
            } else {
                assert(t1[y][x] == t[y][x]);
                assert(step_done(dir, t[y].len() as int, t[y].len() as int, x));
            }
        }
    }
}

/// Moving a live draw buffer one step towards `dir` succeeds when its layer holds no tuxel of
/// another buffer and each of its tuxels steps to a place of the grid: its rectangle moves one
/// step and each of its tuxels moves one step.
pub proof fn law_translate_succeeds(v: CanvasView, id: int, dir: Direction)
    requires
        v.wf(),
        0 <= id < v.buffers.len(),
        id <= usize::MAX,
        v.buffers[id] is Some,
        layer_clean(v, id, vbuf(v, id).rectangle.0.2 as int),
        forall|y: int, x: int| 0 <= y < vbuf(v, id).tuxels.len() && 0 <= x < vbuf(v, id).tuxels[y].len()
            ==> step_on_grid(v, (#[trigger] vbuf(v, id).tuxels[y][x]).idx, dir, vbuf(v, id).rectangle.0.2 as int),
    ensures
        ({
            let b = vbuf(v, id);
            let w = translate_result(v, id, b, dir).0;
            &&& translate_result(v, id, b, dir).1 is Ok
            &&& w.buffers.len() == v.buffers.len()
            &&& w.buffers[id] is Some
            &&& vbuf(w, id).rectangle == spec_translated(b.rectangle, 1, dir)
            &&& vbuf(w, id).tuxels.len() == b.tuxels.len()
            &&& forall|y: int| 0 <= y < b.tuxels.len() ==> #[trigger] vbuf(w, id).tuxels[y].len() == b.tuxels[y].len()
            &&& forall|y: int, x: int| 0 <= y < b.tuxels.len() && 0 <= x < b.tuxels[y].len()
                ==> #[trigger] vbuf(w, id).tuxels[y][x] == stepped_tuxel(b.tuxels[y][x], dir, v.width(), v.height())
        }),
{
    let b = vbuf(v, id);
    let z = b.rectangle.0.2 as int;
    let v0 = CanvasView { buffers: v.buffers.update(id, None), ..v };
    assert(layer_clean(v0, id, z)) by {
        assert forall|x: int, y: int| 0 <= x < v0.width() && 0 <= y < v0.height() implies match #[trigger] v0.cell(x, y, z) {
            Cell::Empty => true,
            Cell::DBTuxel(d) => d.buffer == id,
        } by {
            assert(v0.cell(x, y, z) == v.cell(x, y, z));
        }
    }
    assert forall|y: int, x: int| 0 <= y < b.tuxels.len() && 0 <= x < b.tuxels[y].len()
        implies step_on_grid(v0, (#[trigger] b.tuxels[y][x]).idx, dir, z) by {
        assert(step_on_grid(v, b.tuxels[y][x].idx, dir, z));
    }
    lemma_translate_rows_ok(v0, b.tuxels, id, dir, b.tuxels.len() as int, z);
    let (w, t, r) = translate_rows(v0, b.tuxels, id, dir, b.tuxels.len() as int);
    lemma_translate_rect(v, id, dir);
    assert forall|y: int, x: int| 0 <= y < b.tuxels.len() && 0 <= x < b.tuxels[y].len()
        implies #[trigger] t[y][x] == stepped_tuxel(b.tuxels[y][x], dir, v.width(), v.height()) by {
        assert(step_done(dir, b.tuxels.len() as int, b.tuxels.len() as int, y));
    }
}

/// Whether a result matches one of `translate_result`, where `Err(None)` is the failure to
/// move down past the bottom edge, reported with an empty message.
pub open spec fn translate_err_matches(r: Result<(), TuiError>, s: Result<(), Option<InnerError>>) -> bool {
    match s {
        Ok(()) => r is Ok,
        Err(Some(e)) => r matches Err(err) && err.inner == e,
        Err(None) => r matches Err(err) && (err.inner matches InnerError::DrawBufferTranslationFailed(m) && m@.len() == 0),
    }
}

/// Whether two grids of tuxels have the same shape.
pub open spec fn same_shape(a: Seq<Seq<Tuxel>>, b: Seq<Seq<Tuxel>>) -> bool {
    &&& b.len() == a.len()
    &&& forall|y: int| 0 <= y < a.len() ==> #[trigger] b[y].len() == a[y].len()
}

/// After a failed step, the rest of a row does not move.
pub proof fn lemma_translate_row_failed(v: CanvasView, t: Seq<Seq<Tuxel>>, id: int, dir: Direction, y: int, k: int, n: int)
    requires
        translate_row(v, t, id, dir, y, k).2 is Err,
        0 <= k <= n,
    ensures
        translate_row(v, t, id, dir, y, n) == translate_row(v, t, id, dir, y, k),
    decreases n - k,
{
    if k < n {
        lemma_translate_row_failed(v, t, id, dir, y, k, n - 1);
    }
}

/// After a failed row, the other rows do not move.
pub proof fn lemma_translate_rows_failed(v: CanvasView, t: Seq<Seq<Tuxel>>, id: int, dir: Direction, j: int, n: int)
    requires
        translate_rows(v, t, id, dir, j).2 is Err,
        0 <= j <= n,
    ensures
        translate_rows(v, t, id, dir, n) == translate_rows(v, t, id, dir, j),
    decreases n - j,
{
    if j < n {
        lemma_translate_rows_failed(v, t, id, dir, j, n - 1);
    }
}

/// A buffer shaped like a well formed one, whose tuxels lie on the canvas, is well formed.
pub proof fn lemma_inner_wf_view(orig: BufferView, nb: BufferView, v: CanvasView, u: CanvasView, w: CanvasView)
    requires
        buffer_wf(orig, v),
        nb.rectangle.1 == orig.rectangle.1,
        same_shape(orig.tuxels, nb.tuxels),
        forall|y: int, x: int| 0 <= y < orig.tuxels.len() && 0 <= x < orig.tuxels[y].len() ==> u.in_grid(#[trigger] nb.tuxels[y][x].idx),
        u.rectangle == w.rectangle,
    ensures
        buffer_wf(nb, w),
{
    assert forall|y: int, x: int| 0 <= y < nb.tuxels.len() && 0 <= x < nb.tuxels[y].len() implies w.in_grid(#[trigger] nb.tuxels[y][x].idx) by {
        assert(u.in_grid(nb.tuxels[y][x].idx));
    }
}

/// A successful swap involves two places on the canvas.
pub proof fn lemma_swap_in_grid(v: CanvasView, from: Idx, to: Idx, held: Option<usize>)
    requires
        swap_result(v, from, to, held).1 is Ok,
        from.2 < CANVAS_DEPTH,
        to.2 < CANVAS_DEPTH,
        v.rectangle.0 == Idx(0, 0, 0),
    ensures
        v.in_grid(from),
        v.in_grid(to),
{
    reveal(swap_result);
}

/// Whether `res` and the canvas `after` are what taking a draw buffer for `r` from the canvas
/// `before` gives: released tuxels are reclaimed first; then, when `r` fits the canvas and none
/// of its places is filled on its layer, a new buffer fills them; when one is filled, that cell is
/// emptied, the places before it (row by row) are left to the abandoned buffer, whose number is
/// used up, and its tuxels are released.
pub open spec fn buffer_taken(before: CanvasView, r: Rectangle, after: CanvasView, res: Result<DrawBuffer, TuiError>) -> bool {
    let v = reclaimed(before);
    let id = v.buffers.len() as int;
    match spec_containment_error(v.rectangle, Geometry::Rectangle(&r)) {
        Some(e) => (res matches Err(err) && err.inner == e) && after == v,
        None => match conflict_upto(v, r, r.1.1 as int) {
            None => (res matches Ok(db) && db.id == id) && {
                &&& placed_cells(v, after, r, id, r.0.0 as int, r.0.1 + r.1.1)
                &&& after.rectangle == v.rectangle
                &&& after.buffers == v.buffers.push(Some(fresh_buffer(r)))
                &&& after.changed == v.changed
                &&& after.released == v.released
            },
            Some((cx, cy)) => (res matches Err(err) && err.inner == InnerError::CellAlreadyOwned) && {
                let lost = drop_order(partial_rows(r, cx, cy));
                &&& placed_cells(v.with_cell(Idx(cx as usize, cy as usize, r.0.2), Cell::Empty), after, r, id, cx, cy)
                &&& after.rectangle == v.rectangle
                &&& after.buffers == v.buffers.push(None)
                &&& after.changed == v.changed + places_of(lost)
                &&& after.released == v.released + lost
            },
        },
    }
}

/// A buffer with the shape and the places of a well formed one is well formed.
pub proof fn lemma_same_places_wf(v: CanvasView, a: BufferView, b: BufferView)
    requires
        buffer_wf(a, v),
        b.rectangle.1 == a.rectangle.1,
        same_places(a.tuxels, b.tuxels),
    ensures
        buffer_wf(b, v),
{
    assert forall|y: int, x: int| 0 <= y < b.tuxels.len() && 0 <= x < b.tuxels[y].len() implies v.in_grid(#[trigger] b.tuxels[y][x].idx) by {
        assert(v.in_grid(a.tuxels[y][x].idx));
    }
}

/// Changing a live buffer into another well formed one, and announcing places of the canvas,
/// keeps the canvas well formed.
pub proof fn lemma_buffer_step_wf(v: CanvasView, id: int, b: BufferView, extra: Seq<Idx>)
    requires
        v.wf(),
        0 <= id < v.buffers.len(),
        buffer_wf(b, v),
        forall|i: int| 0 <= i < extra.len() ==> v.in_grid(#[trigger] extra[i]),
    ensures
        buffer_stepped(v, id, b, extra).wf(),
{
    let w = buffer_stepped(v, id, b, extra);
    assert forall|k: int| 0 <= k < w.buffers.len() && #[trigger] w.buffers[k] is Some implies buffer_wf(w.buffers[k].unwrap(), w) by {
        if k == id {
            lemma_buffer_wf_rect(b, v, w);
        } else {
            lemma_buffer_wf_rect(v.buffers[k].unwrap(), v, w);
        }
    }
    assert forall|k: int| 0 <= k < w.changed.len() implies #[trigger] w.in_grid(w.changed[k]) by {
        if k < v.changed.len() {
            assert(v.in_grid(v.changed[k]));
        } else {
            assert(w.changed[k] == extra[k - v.changed.len()]);
        }
    }
    assert forall|k: int| 0 <= k < w.released.len() implies #[trigger] w.in_grid(w.released[k].idx) by {
        assert(v.in_grid(v.released[k].idx));
    }
}

/// The places of a run of tuxels of a well formed buffer lie on the canvas.
pub proof fn lemma_run_places_in_grid(v: CanvasView, b: BufferView, y: int, x0: int, m: int)
    requires
        buffer_wf(b, v),
        0 <= m,
        m == 0 || (0 <= y < b.tuxels.len() && 0 <= x0 && x0 + m <= b.tuxels[y].len()),
    ensures
        forall|i: int| 0 <= i < run_places(b.tuxels, y, x0, m).len() ==> v.in_grid(#[trigger] run_places(b.tuxels, y, x0, m)[i]),
{
    assert forall|i: int| 0 <= i < run_places(b.tuxels, y, x0, m).len() implies v.in_grid(#[trigger] run_places(b.tuxels, y, x0, m)[i]) by {
        assert(v.in_grid(b.tuxels[y][x0 + i].idx));
    }
}

/// The places of a block of rows of a well formed buffer lie on the canvas.
pub proof fn lemma_block_places_in_grid(v: CanvasView, b: BufferView, x0: int, w: int, y0: int, n: int)
    requires
        buffer_wf(b, v),
        0 <= w,
        n <= 0 || w == 0 || (0 <= y0 && y0 + n <= b.tuxels.len() && 0 <= x0 && x0 + w <= b.rectangle.1.0),
    ensures
        forall|i: int| 0 <= i < block_places(b.tuxels, x0, w, y0, n).len() ==> v.in_grid(#[trigger] block_places(b.tuxels, x0, w, y0, n)[i]),
    decreases n,
{
    if n > 0 {
        lemma_block_places_in_grid(v, b, x0, w, y0, n - 1);
        if w > 0 {
            assert(b.tuxels[y0 + n - 1].len() == b.rectangle.1.0);
        }
        lemma_run_places_in_grid(v, b, y0 + n - 1, x0, w);
        let prev = block_places(b.tuxels, x0, w, y0, n - 1);
        let run = run_places(b.tuxels, y0 + n - 1, x0, w);
        assert forall|i: int| 0 <= i < block_places(b.tuxels, x0, w, y0, n).len() implies v.in_grid(#[trigger] block_places(b.tuxels, x0, w, y0, n)[i]) by {
            if i < prev.len() {
                assert(block_places(b.tuxels, x0, w, y0, n)[i] == prev[i]);
            } else {
                assert(block_places(b.tuxels, x0, w, y0, n)[i] == run[i - prev.len()]);
            }
        }
    }
}

/// The places of the sides of a well formed buffer lie on the canvas.
pub proof fn lemma_side_places_in_grid(v: CanvasView, b: BufferView, n: int)
    requires
        buffer_wf(b, v),
        b.rectangle.1.0 >= 1,
        n <= 0 || n + 1 <= b.tuxels.len(),
    ensures
        forall|i: int| 0 <= i < side_places(b.tuxels, b.rectangle.1.0 as int, n).len() ==> v.in_grid(#[trigger] side_places(b.tuxels, b.rectangle.1.0 as int, n)[i]),
    decreases n,
{
    let w = b.rectangle.1.0 as int;
    if n > 0 {
        lemma_side_places_in_grid(v, b, n - 1);
        let prev = side_places(b.tuxels, w, n - 1);
        assert(v.in_grid(b.tuxels[n][0].idx));
        assert(v.in_grid(b.tuxels[n][w - 1].idx));
        assert forall|i: int| 0 <= i < side_places(b.tuxels, w, n).len() implies v.in_grid(#[trigger] side_places(b.tuxels, w, n)[i]) by {
            if i < prev.len() {
                assert(side_places(b.tuxels, w, n)[i] == prev[i]);
            }
        }
    }
}

/// Draw buffer `id` of a canvas.
pub open spec fn vbuf(v: CanvasView, id: int) -> BufferView {
    v.buffers[id].unwrap()
}

/// The canvas after dropping draw buffer `id`: its tuxels are cleared, which announces their
/// places, and handed back to be reclaimed; a buffer that is not live is left alone.
pub open spec fn dropped_view(v: CanvasView, id: int) -> CanvasView {
    if 0 <= id < v.buffers.len() && v.buffers[id] is Some {
        let lost = drop_order(vbuf(v, id).tuxels);
        CanvasView {
            buffers: v.buffers.update(id, None),
            changed: v.changed + places_of(lost),
            released: v.released + lost,
            ..v
        }
    } else {
        v
    }
}

/// The canvas after releasing draw buffer `id`: the buffer is dropped (see `dropped_view`) and
/// the tuxels handed back are reclaimed at once, emptying their cells; a buffer that is not
/// live is left alone.
pub open spec fn released_view(v: CanvasView, id: int) -> CanvasView {
    if 0 <= id < v.buffers.len() && v.buffers[id] is Some {
        reclaimed(dropped_view(v, id))
    } else {
        v
    }
}

/// Whether `w` is `v` with only draw buffer `id` and the changed places possibly different.
pub open spec fn only_buffer_changed(v: CanvasView, w: CanvasView, id: int) -> bool {
    &&& w.rectangle == v.rectangle
    &&& w.cells == v.cells
    &&& w.released == v.released
    &&& w.buffers.len() == v.buffers.len()
    &&& w.buffers[id] is Some
    &&& forall|k: int| 0 <= k < v.buffers.len() && k != id ==> #[trigger] w.buffers[k] == v.buffers[k]
}

/// Moving a cell's tuxel keeps the canvas's size, its number of buffers and a held buffer.
pub proof fn lemma_moved_frame(v: CanvasView, c: Cell, to: Idx, held: Option<usize>)
    ensures
        cell_moved(v, c, to, held).1 matches Ok(w) ==> w.rectangle == v.rectangle
            && w.buffers.len() == v.buffers.len() && w.cells == v.cells && w.released == v.released
            && (held matches Some(h) ==> (h < v.buffers.len() ==> w.buffers[h as int] == v.buffers[h as int])),
{
}

/// Swapping two cells keeps the canvas's size, its number of buffers and a held buffer.
pub proof fn lemma_swap_frame(v: CanvasView, from: Idx, to: Idx, held: Option<usize>)
    ensures
        swap_result(v, from, to, held).0.rectangle == v.rectangle,
        swap_result(v, from, to, held).0.buffers.len() == v.buffers.len(),
        swap_result(v, from, to, held).0.released == v.released,
        held matches Some(h) ==> (h < v.buffers.len() ==> swap_result(v, from, to, held).0.buffers[h as int] == v.buffers[h as int]),
{
    reveal(swap_result);
    if spec_containment_error(v.rectangle, Geometry::Idx(&from)) is None && spec_containment_error(v.rectangle, Geometry::Idx(&to)) is None
        && acquire_error(v, from) is None {
        let from_cell = v.cell(from.0 as int, from.1 as int, from.2 as int);
        let v1 = v.with_cell(from, Cell::Empty);
        if acquire_error(v1, to) is None {
            let to_cell = v1.cell(to.0 as int, to.1 as int, to.2 as int);
            let v2 = v1.with_cell(to, Cell::Empty);
            lemma_moved_frame(v2, from_cell, to, held);
            if let Ok(v3) = cell_moved(v2, from_cell, to, held).1 {
                lemma_moved_frame(v3, to_cell, from, held);
            }
        }
    }
}

/// A sequence of swaps keeps the canvas's size, its number of buffers and a held buffer.
pub proof fn lemma_swaps_frame(v: CanvasView, p1: Seq<Idx>, p2: Seq<Idx>, held: Option<usize>, n: int)
    ensures
        swaps_upto(v, p1, p2, held, n).0.rectangle == v.rectangle,
        swaps_upto(v, p1, p2, held, n).0.buffers.len() == v.buffers.len(),
        swaps_upto(v, p1, p2, held, n).0.released == v.released,
        held matches Some(h) ==> (h < v.buffers.len() ==> swaps_upto(v, p1, p2, held, n).0.buffers[h as int] == v.buffers[h as int]),
    decreases n,
{
    if n > 0 {
        lemma_swaps_frame(v, p1, p2, held, n - 1);
        let w = swaps_upto(v, p1, p2, held, n - 1).0;
        lemma_swap_frame(w, p1[n - 1], p2[n - 1], held);
    }
}

/// Reclaiming keeps the canvas's size and its buffers.
pub proof fn lemma_reclaim_frame(v: CanvasView, n: int)
    ensures
        reclaim_upto(v, n).rectangle == v.rectangle,
        reclaim_upto(v, n).buffers == v.buffers,
    decreases n,
{
    if n > 0 {
        lemma_reclaim_frame(v, n - 1);
    }
}

/// Swapping two rectangles keeps the canvas's size, its number of buffers and a held buffer.
pub proof fn lemma_swap_rectangles_frame(v: CanvasView, r1: Rectangle, r2: Rectangle, held: Option<usize>)
    ensures
        swap_rectangles_result(v, r1, r2, held).0.rectangle == v.rectangle,
        swap_rectangles_result(v, r1, r2, held).0.buffers.len() == v.buffers.len(),
        held matches Some(h) ==> (h < v.buffers.len() ==> swap_rectangles_result(v, r1, r2, held).0.buffers[h as int] == v.buffers[h as int]),
{
    let n = rect_cells(r1).len() as int;
    lemma_swaps_frame(v, rect_cells(r1), rect_cells(r2), held, n);
    let w = swaps_upto(v, rect_cells(r1), rect_cells(r2), held, n).0;
    lemma_reclaim_frame(w, w.released.len() as int);
}

/// A canvas without one of its buffers is well formed.
pub proof fn lemma_wf_without(v: CanvasView, id: int)
    requires
        v.wf(),
        0 <= id < v.buffers.len(),
    ensures
        (CanvasView { buffers: v.buffers.update(id, None), ..v }).wf(),
{
    let w = CanvasView { buffers: v.buffers.update(id, None), ..v };
    assert forall|k: int| 0 <= k < w.buffers.len() && #[trigger] w.buffers[k] is Some implies buffer_wf(w.buffers[k].unwrap(), w) by {
        lemma_buffer_wf_rect(v.buffers[k].unwrap(), v, w);
    }
    assert forall|k: int| 0 <= k < w.changed.len() implies #[trigger] w.in_grid(w.changed[k]) by {
        assert(v.in_grid(v.changed[k]));
    }
    assert forall|k: int| 0 <= k < w.released.len() implies #[trigger] w.in_grid(w.released[k].idx) by {
        assert(v.in_grid(v.released[k].idx));
    }
}

/// Replacing a cell keeps a canvas well formed.
pub proof fn lemma_with_cell_wf(v: CanvasView, idx: Idx, c: Cell)
    requires
        v.wf(),
        v.in_grid(idx),
    ensures
        v.with_cell(idx, c).wf(),
{
    let w = v.with_cell(idx, c);
    assert forall|y: int| 0 <= y < w.height() implies #[trigger] w.cells[y].len() == w.width() by {
        assert(v.cells[y].len() == v.width());
    }
    assert forall|y: int, x: int| 0 <= y < w.height() && 0 <= x < w.width() implies #[trigger] w.cells[y][x].len() == CANVAS_DEPTH by {
        assert(v.cells[y][x].len() == CANVAS_DEPTH);
    }
    assert forall|i: int| 0 <= i < w.buffers.len() && #[trigger] w.buffers[i] is Some implies buffer_wf(w.buffers[i].unwrap(), w) by {
        assert(buffer_wf(v.buffers[i].unwrap(), v));
    }
    assert forall|i: int| 0 <= i < w.released.len() implies #[trigger] w.in_grid(w.released[i].idx) by {
        assert(v.in_grid(v.released[i].idx));
    }
    assert forall|i: int| 0 <= i < w.changed.len() implies #[trigger] w.in_grid(w.changed[i]) by {
        assert(v.in_grid(v.changed[i]));
    }
}

/// Announcing a place of the canvas as changed keeps it well formed.
pub proof fn lemma_with_change_wf(v: CanvasView, idx: Idx)
    requires
        v.wf(),
        v.in_grid(idx),
    ensures
        v.with_change(idx).wf(),
{
    let w = v.with_change(idx);
    assert forall|i: int| 0 <= i < w.buffers.len() && #[trigger] w.buffers[i] is Some implies buffer_wf(w.buffers[i].unwrap(), w) by {
        assert(buffer_wf(v.buffers[i].unwrap(), v));
    }
    assert forall|i: int| 0 <= i < w.changed.len() implies #[trigger] w.in_grid(w.changed[i]) by {
        if i < v.changed.len() {
            assert(v.in_grid(v.changed[i]));
        }
    }
    assert forall|i: int| 0 <= i < w.released.len() implies #[trigger] w.in_grid(w.released[i].idx) by {
        assert(v.in_grid(v.released[i].idx));
    }
}

/// Reclaiming keeps a canvas well formed, its size, its buffers and what waits to be reclaimed.
pub proof fn lemma_reclaim_upto(v: CanvasView, n: int)
    requires
        v.wf(),
        0 <= n <= v.released.len(),
    ensures
        reclaim_upto(v, n).wf(),
        reclaim_upto(v, n).rectangle == v.rectangle,
        reclaim_upto(v, n).buffers == v.buffers,
        reclaim_upto(v, n).released == v.released,
    decreases n,
{
    if n > 0 {
        lemma_reclaim_upto(v, n - 1);
        let p = reclaim_upto(v, n - 1);
        let idx = v.released[n - 1].idx;
        assert(p.in_grid(p.released[n - 1].idx));
        lemma_with_cell_wf(p, idx, Cell::Empty);
        lemma_with_change_wf(p.with_cell(idx, Cell::Empty), idx);
    }
}

impl DBTuxel {
    /// The character of the tuxel.
    pub fn content(&self, canvas: &Canvas) -> (r: Result<char, TuiError>)
        ensures
            match tuxel_of(canvas@, *self) {
                Ok(t) => r == Ok::<char, TuiError>(t.content),
                Err(e) => r matches Err(err) && err.inner == e,
            },
    {
        if self.buffer < canvas.buffers.len() {
            match &canvas.buffers[self.buffer] {
                Some(inner) => {
                    return inner.tuxel_content(self.buf_idx.0, self.buf_idx.1);
                },
                None => {},
            }
        }
        Err(TuiError::from(InnerError::OutOfBoundsX(self.buf_idx.0)))
    }

    /// Whether the tuxel shows.
    pub fn active(&self, canvas: &Canvas) -> (r: Result<bool, TuiError>)
        ensures
            match tuxel_of(canvas@, *self) {
                Ok(t) => r == Ok::<bool, TuiError>(t.active),
                Err(e) => r matches Err(err) && err.inner == e,
            },
    {
        if self.buffer < canvas.buffers.len() {
            match &canvas.buffers[self.buffer] {
                Some(inner) => {
                    return inner.tuxel_is_active(self.buf_idx.0, self.buf_idx.1);
                },
                None => {},
            }
        }
        Err(TuiError::from(InnerError::OutOfBoundsX(self.buf_idx.0)))
    }

    /// The column and row of the tuxel on the canvas.
    pub fn coordinates(&self) -> (r: (usize, usize))
        ensures
            r == (self.canvas_idx.0, self.canvas_idx.1),
    {
        (self.canvas_idx.0, self.canvas_idx.1)
    }

    /// The colors of the tuxel and the modifiers of its buffer, to be applied in order.
    pub fn colors(&self, canvas: &Canvas) -> (r: (Option<Rgb>, Option<Rgb>, Vec<Modifier>))
        requires
            tuxel_of(canvas@, *self) is Ok,
        ensures
            r.0 == tuxel_of(canvas@, *self)->Ok_0.fgcolor,
            r.1 == tuxel_of(canvas@, *self)->Ok_0.bgcolor,
            r.2@ == canvas@.buffers[self.buffer as int].unwrap().modifiers,
    {
        match &canvas.buffers[self.buffer] {
            Some(inner) => {
                let (fg, bg) = inner.tuxel_colors(self.buf_idx.0, self.buf_idx.1);
                let mut modifiers: Vec<Modifier> = Vec::new();
                let mut i: usize = 0;
                while i < inner.modifiers.len()
                    invariant
                        i <= inner.modifiers@.len(),
                        modifiers@ == inner.modifiers@.subrange(0, i as int),
                    decreases inner.modifiers@.len() - i,
                {
                    modifiers.push(inner.modifiers[i]);
                    i = i + 1;
                    proof {
                        assert(modifiers@ =~= inner.modifiers@.subrange(0, i as int));
                    }
                }
                proof {
                    assert(modifiers@ =~= inner.modifiers@);
                }
                (fg, bg, modifiers)
            },
            None => {
                proof {
                    assert(false);
                }
                (None, None, Vec::new())
            },
        }
    }
}

impl DBTuxel {
    /// Records that the tuxel moved to `new_idx`, and moves the buffer's tuxel there too. When the
    /// buffer is `held` (locked by the caller) that fails with a retry error and leaves the
    /// canvas as it is; it also fails when the tuxel cannot be found.
    pub fn set_canvas_idx(&mut self, canvas: &mut Canvas, new_idx: &Idx, held: Option<usize>) -> (r: Result<(), TuiError>)
        requires
            old(canvas).wf(),
            old(canvas)@.in_grid(*new_idx),
        ensures
            final(self).canvas_idx == *new_idx,
            final(self).buffer == old(self).buffer,
            final(self).buf_idx == old(self).buf_idx,
            final(canvas).wf(),
            held == Some(old(self).buffer) ==> final(canvas)@ == old(canvas)@
                && (r matches Err(e) && e.inner is ExceedRetryLimitForLockingDrawBuffer),
            held != Some(old(self).buffer) ==> match tuxel_moved(old(canvas)@, *old(self), *new_idx, held) {
                Ok(w) => r is Ok && final(canvas)@ == w,
                Err(e) => (r matches Err(err) && err.inner == e) && final(canvas)@ == old(canvas)@,
            },
    {
        self.canvas_idx = *new_idx;
        if held == Some(self.buffer) {
            return Err(
                TuiError::from(
                    InnerError::ExceedRetryLimitForLockingDrawBuffer(
                        String::from_str("setting canvas index for drawbuffer-owned tuxel"),
                    ),
                ),
            );
        }
        if self.buffer >= canvas.buffers.len() || canvas.buffers[self.buffer].is_none() {
            return Err(TuiError::from(InnerError::OutOfBoundsX(self.buf_idx.0)));
        }
        let ghost v = canvas@;
        let ghost a = canvas.buf(self.buffer as int);
        let mut inner = canvas.take_buffer(self.buffer);
        proof {
            assert(buffer_wf(a, v));
        }
        match inner.get_tuxel_mut(Position::Idx(self.buf_idx)) {
            Ok(t) => {
                t.set_idx(new_idx, &mut canvas.changed);
            },
            Err(e) => {
                proof {
                    lemma_same_places_wf(v, a, inner@);
                }
                canvas.put_buffer(self.buffer, inner, Ghost(v), Ghost(a), Ghost(Seq::empty()));
                proof {
                    assert(canvas@.buffers =~= v.buffers);
                    assert(canvas@.changed =~= v.changed);
                }
                return Err(e);
            },
        }
        let ghost extra = seq![*new_idx];
        proof {
            let b = inner@;
            assert(canvas@.changed =~= v.changed + extra);
            assert forall|y: int, x: int| 0 <= y < b.tuxels.len() && 0 <= x < b.tuxels[y].len() implies v.in_grid(#[trigger] b.tuxels[y][x].idx) by {
                if !(y == self.buf_idx.1 && x == self.buf_idx.0) {
                    assert(b.tuxels[y][x] == a.tuxels[y][x]);
                    assert(v.in_grid(a.tuxels[y][x].idx));
                }
            }
            assert(buffer_wf(b, v));
        }
        canvas.put_buffer(self.buffer, inner, Ghost(v), Ghost(a), Ghost(extra));
        proof {
            assert(canvas@.buffers =~= tuxel_moved(v, *old(self), *new_idx, held)->Ok_0.buffers);
        }
        Ok(())
    }
}

impl Cell {
    /// The character that the cell shows: a warning sign for an empty cell.
    pub fn get_content(&self, canvas: &Canvas) -> (r: Result<char, TuiError>)
        ensures
            match *self {
                Cell::Empty => r == Ok::<char, TuiError>('\u{2622}'),
                Cell::DBTuxel(d) => match tuxel_of(canvas@, d) {
                    Ok(t) => r == Ok::<char, TuiError>(t.content),
                    Err(e) => r matches Err(err) && err.inner == e,
                },
            },
    {
        match self {
            Cell::DBTuxel(b) => b.content(canvas),
            Cell::Empty => Ok('\u{2622}'),
        }
    }

    /// Whether the cell shows a tuxel.
    pub fn active(&self, canvas: &Canvas) -> (r: Result<bool, TuiError>)
        ensures
            match *self {
                Cell::Empty => r == Ok::<bool, TuiError>(false),
                Cell::DBTuxel(d) => match tuxel_of(canvas@, d) {
                    Ok(t) => r == Ok::<bool, TuiError>(t.active),
                    Err(e) => r matches Err(err) && err.inner == e,
                },
            },
    {
        match self {
            Cell::DBTuxel(b) => b.active(canvas),
            Cell::Empty => Ok(false),
        }
    }

    /// The colors of the cell's tuxel and the modifiers of its buffer; none for an empty cell.
    pub fn colors(&self, canvas: &Canvas) -> (r: (Option<Rgb>, Option<Rgb>, Vec<Modifier>))
        requires
            *self matches Cell::DBTuxel(d) ==> tuxel_of(canvas@, d) is Ok,
        ensures
            match *self {
                Cell::Empty => r.0 is None && r.1 is None && r.2@.len() == 0,
                Cell::DBTuxel(d) => r.0 == tuxel_of(canvas@, d)->Ok_0.fgcolor
                    && r.1 == tuxel_of(canvas@, d)->Ok_0.bgcolor
                    && r.2@ == canvas@.buffers[d.buffer as int].unwrap().modifiers,
            },
    {
        match self {
            Cell::DBTuxel(d) => d.colors(canvas),
            Cell::Empty => (None, None, Vec::new()),
        }
    }
}

impl Stack {
    /// The empty stack of the place at column `x` and row `y`.
    pub fn new(x: usize, y: usize) -> (s: Stack)
        ensures
            s.idx == Idx(x, y, 0),
            s.cells@ == Seq::new(CANVAS_DEPTH as nat, |z: int| Cell::Empty),
    {
        let mut cells: Vec<Cell> = Vec::new();
        let mut z: usize = 0;
        while z < CANVAS_DEPTH
            invariant
                z <= CANVAS_DEPTH,
                cells@ == Seq::new(z as nat, |k: int| Cell::Empty),
            decreases CANVAS_DEPTH - z,
        {
            cells.push(Cell::Empty);
            z = z + 1;
            proof {
                assert(cells@ =~= Seq::new(z as nat, |k: int| Cell::Empty));
            }
        }
        Stack { idx: Idx(x, y, 0), cells }
    }

    /// Whether layer `zdx` of the stack is filled.
    pub fn layer_occupied(&self, zdx: usize) -> (r: bool)
        ensures
            r == (zdx < self.cells@.len() && self.cells@[zdx as int] is DBTuxel),
    {
        if zdx < self.cells.len() {
            match self.cells[zdx] {
                Cell::Empty => false,
                Cell::DBTuxel(_) => true,
            }
        } else {
            false
        }
    }

    /// `"E"` for an empty layer, `"D"` for a filled one.
    pub fn display_cell_type(&self, zdx: usize) -> (r: &'static str)
        requires
            zdx < self.cells@.len(),
        ensures
            self.cells@[zdx as int] is Empty ==> r@ == "E"@,
            self.cells@[zdx as int] is DBTuxel ==> r@ == "D"@,
    {
        proof {
            reveal_strlit("E");
            reveal_strlit("D");
        }
        match self.cells[zdx] {
            Cell::Empty => "E",
            Cell::DBTuxel(_) => "D",
        }
    }

    /// The highest layer that shows a tuxel.
    pub fn top(&self, canvas: &Canvas) -> (r: Option<usize>)
        ensures
            r matches Some(z) ==> top_below(canvas@, self.cells@, self.cells@.len() as int) == Some(z as int),
            r is None ==> top_below(canvas@, self.cells@, self.cells@.len() as int) is None,
    {
        let mut n: usize = self.cells.len();
        while n > 0
            invariant
                n <= self.cells@.len(),
                top_below(canvas@, self.cells@, self.cells@.len() as int) == top_below(canvas@, self.cells@, n as int),
            decreases n,
        {
            match self.cells[n - 1].active(canvas) {
                Ok(b) => {
                    if b {
                        return Some(n - 1);
                    }
                },
                Err(_) => {},
            }
            n = n - 1;
        }
        None
    }

    /// The character that the stack shows: that of its highest shown tuxel, or a blank.
    pub fn content(&self, canvas: &Canvas) -> (r: Option<char>)
        ensures
            r == Some(stack_content(canvas@, self.cells@)),
    {
        proof {
            lemma_top_below(canvas@, self.cells@, self.cells@.len() as int);
        }
        match self.top(canvas) {
            Some(z) => match self.cells[z].get_content(canvas) {
                Ok(c) => Some(c),
                Err(_) => None,
            },
            None => Some(' '),
        }
    }

    /// The colors of the highest shown tuxel and the modifiers of its buffer; none when no
    /// tuxel shows.
    pub fn colors(&self, canvas: &Canvas) -> (r: (Option<Rgb>, Option<Rgb>, Vec<Modifier>))
        ensures
            match top_below(canvas@, self.cells@, self.cells@.len() as int) {
                Some(z) => match self.cells@[z] {
                    Cell::DBTuxel(d) => r.0 == tuxel_of(canvas@, d)->Ok_0.fgcolor
                        && r.1 == tuxel_of(canvas@, d)->Ok_0.bgcolor
                        && r.2@ == canvas@.buffers[d.buffer as int].unwrap().modifiers,
                    Cell::Empty => false,
                },
                None => r.0 is None && r.1 is None && r.2@.len() == 0,
            },
    {
        proof {
            lemma_top_below(canvas@, self.cells@, self.cells@.len() as int);
        }
        match self.top(canvas) {
            Some(z) => self.cells[z].colors(canvas),
            None => (None, None, Vec::new()),
        }
    }

    /// A copy of the stack.
    fn copy(&self) -> (s: Stack)
        ensures
            s.idx == self.idx,
            s.cells@ == self.cells@,
    {
        let mut cells: Vec<Cell> = Vec::new();
        let mut i: usize = 0;
        while i < self.cells.len()
            invariant
                i <= self.cells@.len(),
                cells@ == self.cells@.subrange(0, i as int),
            decreases self.cells@.len() - i,
        {
            cells.push(self.cells[i]);
            i = i + 1;
            proof {
                assert(cells@ =~= self.cells@.subrange(0, i as int));
            }
        }
        proof {
            assert(cells@ =~= self.cells@);
        }
        Stack { idx: self.idx, cells }
    }

    /// The column and row of the stack's place.
    pub fn coordinates(&self) -> (r: (usize, usize))
        ensures
            r == (self.idx.0, self.idx.1),
    {
        (self.idx.x(), self.idx.y())
    }
}

/// Steps the tuxel at row `y` and column `x` of `inner`, draw buffer `id` taken out of the
/// canvas, towards `dir`; see `translate_step`.
fn translate_tuxel(canvas: &mut Canvas, inner: &mut DrawBufferInner, id: usize, dir: Direction, y: usize, x: usize, cw: usize, ch: usize) -> (r: Result<(), TuiError>)
    requires
        old(canvas).wf(),
        id < old(canvas)@.buffers.len(),
        old(canvas)@.buffers[id as int] is None,
        cw == old(canvas)@.width(),
        ch == old(canvas)@.height(),
        y < old(inner).tuxels().len(),
        x < old(inner).tuxels()[y as int].len(),
        forall|yy: int, xx: int| 0 <= yy < old(inner).tuxels().len() && 0 <= xx < old(inner).tuxels()[yy].len() ==> old(canvas)@.in_grid(#[trigger] old(inner).tuxels()[yy][xx].idx),
    ensures
        final(canvas).wf(),
        final(canvas)@.rectangle == old(canvas)@.rectangle,
        final(canvas)@.buffers.len() == old(canvas)@.buffers.len(),
        final(canvas)@.buffers[id as int] is None,
        final(inner).rectangle == old(inner).rectangle,
        final(inner).border == old(inner).border,
        final(inner).modifiers == old(inner).modifiers,
        same_shape(old(inner).tuxels(), final(inner).tuxels()),
        forall|yy: int, xx: int| 0 <= yy < old(inner).tuxels().len() && 0 <= xx < old(inner).tuxels()[yy].len() ==> final(canvas)@.in_grid(#[trigger] final(inner).tuxels()[yy][xx].idx),
        final(canvas)@ == translate_step(old(canvas)@, old(inner).tuxels(), id as int, dir, y as int, x as int).0,
        final(inner).tuxels() == translate_step(old(canvas)@, old(inner).tuxels(), id as int, dir, y as int, x as int).1,
        translate_err_matches(r, translate_step(old(canvas)@, old(inner).tuxels(), id as int, dir, y as int, x as int).2),
{
    let ghost cv = canvas@;
    let ghost ct = inner.tuxels();
    proof {
        assert(inner.buf@[y as int]@ == ct[y as int]);
        assert(canvas@.in_grid(ct[y as int][x as int].idx));
    }
    let cur = inner.buf[y][x].idx;
    let mut new_idx = cur;
    match dir {
        Direction::Left => {
            if new_idx.0 > 0 {
                new_idx.0 = new_idx.0 - 1;
            }
        },
        Direction::Right => {
            if new_idx.0 < cw {
                new_idx.0 = new_idx.0 + 1;
            }
        },
        Direction::Up => {
            if new_idx.1 > 0 {
                new_idx.1 = new_idx.1 - 1;
            }
        },
        Direction::Down => {
            if new_idx.1 < ch {
                new_idx.1 = new_idx.1 + 1;
            } else {
                let r = Err(TuiError::from(InnerError::DrawBufferTranslationFailed(String::new())));
                return r;
            }
        },
    }
    proof {
        lemma_swap_frame(cv, cur, new_idx, Some(id));
    }
    match canvas.swap_tuxels(cur, new_idx, Some(id)) {
        Ok(()) => {},
        Err(e) => {
            return Err(e);
        },
    }
    proof {
        lemma_swap_in_grid(cv, cur, new_idx, Some(id));
        lemma_with_change_wf(canvas@, new_idx);
    }
    let ghost mid = inner.tuxels();
    let ghost cmid = canvas@;
    inner.buf[y][x].set_idx(&new_idx, &mut canvas.changed);
    proof {
        assert(inner.tuxels() =~= mid.update(y as int, mid[y as int].update(x as int, Tuxel { idx: new_idx, ..mid[y as int][x as int] })));
        assert(canvas@.changed =~= cmid.changed.push(new_idx));
        assert(canvas@.buffers =~= cmid.buffers);
        assert(canvas@.cells =~= cmid.cells);
        assert(canvas@ == cmid.with_change(new_idx));
    }
    Ok(())
}

impl DrawBuffer {
    /// Writes `s` in the colors given on line `y` from column `x0` on; see
    /// `DrawBufferInner::write_colored`.
    pub fn write_colored(
        &self,
        canvas: &mut Canvas,
        s: &str,
        x0: usize,
        y: usize,
        fg: Option<Rgb>,
        bg: Option<Rgb>,
    ) -> (r: Result<(), TuiError>)
        requires
            old(canvas).wf(),
            x0 + s@.len() <= usize::MAX + 1,
        ensures
            final(canvas).wf(),
            old(canvas).live(self.id as int) ==> (only_buffer_changed(old(canvas)@, final(canvas)@, self.id as int)),
            old(canvas).live(self.id as int) ==> (colored_run(old(canvas).buf(self.id as int), final(canvas).buf(self.id as int), old(canvas)@.changed, final(canvas)@.changed, s@, x0 as int, y as int, fg, bg, err_of(r))),
            !old(canvas).live(self.id as int) ==> final(canvas)@ == old(canvas)@ && r is Ok,
    {
        if !canvas.is_live(self.id) {
            return Ok(());
        }
        let ghost v = canvas@;
        let ghost a = canvas.buf(self.id as int);
        let mut inner = canvas.take_buffer(self.id);
        let r = inner.write_colored(s, x0, y, fg, bg, &mut canvas.changed);
        let ghost extra = canvas@.changed.subrange(v.changed.len() as int, canvas@.changed.len() as int);
        proof {
            assert(canvas@.changed =~= v.changed + extra);
            let m = run_length(a.tuxels, y as int, x0 as int, s@.len() as int);
            lemma_run_places_in_grid(v, a, y as int, x0 as int, m);
            assert(extra =~= run_places(a.tuxels, y as int, x0 as int, m));
        }
        proof {
            assert(buffer_wf(a, v));
            lemma_same_places_wf(v, a, inner@);
        }
        canvas.put_buffer(self.id, inner, Ghost(v), Ghost(a), Ghost(extra));
        r
    }

    /// Whether the buffer has a border; a released buffer has none.
    pub fn has_border(&self, canvas: &Canvas) -> (r: bool)
        ensures
            r == (canvas.live(self.id as int) && canvas.buf(self.id as int).border),
    {
        if self.id < canvas.buffers.len() {
            match &canvas.buffers[self.id] {
                Some(inner) => {
                    return inner.border;
                },
                None => {},
            }
        }
        false
    }
    /// Writes `s` from the left edge of the middle line of the buffer; see
    /// `DrawBufferInner::write_left`.
    pub fn write_left(&self, canvas: &mut Canvas, s: &str) -> (r: Result<(), TuiError>)
        requires
            old(canvas).wf(),
            old(canvas).live(self.id as int) ==> (old(canvas).buf(self.id as int).rectangle.1.0 + 2 <= usize::MAX),
        ensures
            final(canvas).wf(),
            old(canvas).live(self.id as int) ==> (only_buffer_changed(old(canvas)@, final(canvas)@, self.id as int)),
            old(canvas).live(self.id as int) ==> (write_left_post(old(canvas).buf(self.id as int), final(canvas).buf(self.id as int), old(canvas)@.changed, final(canvas)@.changed, s@, err_of(r))),
            !old(canvas).live(self.id as int) ==> final(canvas)@ == old(canvas)@ && r is Ok,
    {
        if !canvas.is_live(self.id) {
            return Ok(());
        }
        let ghost v = canvas@;
        let ghost a = canvas.buf(self.id as int);
        let mut inner = canvas.take_buffer(self.id);
        let r = inner.write_left(s, &mut canvas.changed);
        let ghost extra = canvas@.changed.subrange(v.changed.len() as int, canvas@.changed.len() as int);
        proof {
            assert(canvas@.changed =~= v.changed + extra);
            let m = run_length(a.tuxels, (a.rectangle.1.1 / 2) as int, inner_left(a), min(s@.len() as int, a.rectangle.1.0 + inner_left(a) + 1));
            lemma_run_places_in_grid(v, a, (a.rectangle.1.1 / 2) as int, inner_left(a), m);
            assert(extra =~= run_places(a.tuxels, (a.rectangle.1.1 / 2) as int, inner_left(a), m));
        }
        proof {
            assert(buffer_wf(a, v));
            lemma_same_places_wf(v, a, inner@);
        }
        canvas.put_buffer(self.id, inner, Ghost(v), Ghost(a), Ghost(extra));
        r
    }

    /// Writes `s` centered on the middle line of the buffer; see `DrawBufferInner::write_center`.
    pub fn write_center(&self, canvas: &mut Canvas, s: &str) -> (r: Result<(), TuiError>)
        requires
            old(canvas).wf(),
            old(canvas).live(self.id as int) ==> (old(canvas).buf(self.id as int).border ==> old(canvas).buf(self.id as int).rectangle.1.0 >= 2),
        ensures
            final(canvas).wf(),
            old(canvas).live(self.id as int) ==> (only_buffer_changed(old(canvas)@, final(canvas)@, self.id as int)),
            old(canvas).live(self.id as int) ==> (write_center_post(old(canvas).buf(self.id as int), final(canvas).buf(self.id as int), old(canvas)@.changed, final(canvas)@.changed, s@, s.spec_bytes().len() as int, err_of(r))),
            !old(canvas).live(self.id as int) ==> final(canvas)@ == old(canvas)@ && r is Ok,
    {
        if !canvas.is_live(self.id) {
            return Ok(());
        }
        let ghost v = canvas@;
        let ghost a = canvas.buf(self.id as int);
        let mut inner = canvas.take_buffer(self.id);
        let r = inner.write_center(s, &mut canvas.changed);
        let ghost extra = canvas@.changed.subrange(v.changed.len() as int, canvas@.changed.len() as int);
        proof {
            assert(canvas@.changed =~= v.changed + extra);
            let x0 = center_offset(a.rectangle, a.border, s.spec_bytes().len() as int);
            let m = run_length(a.tuxels, (a.rectangle.1.1 / 2) as int, x0, min(s@.len() as int, available_width(a.rectangle, a.border)));
            lemma_run_places_in_grid(v, a, (a.rectangle.1.1 / 2) as int, x0, m);
            assert(extra =~= run_places(a.tuxels, (a.rectangle.1.1 / 2) as int, x0, m));
        }
        proof {
            assert(buffer_wf(a, v));
            lemma_same_places_wf(v, a, inner@);
        }
        canvas.put_buffer(self.id, inner, Ghost(v), Ghost(a), Ghost(extra));
        r
    }

    /// Writes `s` so that it ends at the right edge of the middle line of the buffer; see
    /// `DrawBufferInner::write_right`.
    pub fn write_right(&self, canvas: &mut Canvas, s: &str) -> (r: Result<(), TuiError>)
        requires
            old(canvas).wf(),
            old(canvas).live(self.id as int) ==> (old(canvas).buf(self.id as int).rectangle.1.0 >= if old(canvas).buf(self.id as int).border { 2usize } else { 1usize }),
            old(canvas).live(self.id as int) ==> (old(canvas).buf(self.id as int).rectangle.1.1 == 0 || s@.len() <= right_edge(old(canvas).buf(self.id as int).rectangle, old(canvas).buf(self.id as int).border) + 1),
        ensures
            final(canvas).wf(),
            old(canvas).live(self.id as int) ==> (only_buffer_changed(old(canvas)@, final(canvas)@, self.id as int)),
            old(canvas).live(self.id as int) ==> (write_right_post(old(canvas).buf(self.id as int), final(canvas).buf(self.id as int), old(canvas)@.changed, final(canvas)@.changed, s@, err_of(r))),
            !old(canvas).live(self.id as int) ==> final(canvas)@ == old(canvas)@ && r is Ok,
    {
        if !canvas.is_live(self.id) {
            return Ok(());
        }
        let ghost v = canvas@;
        let ghost a = canvas.buf(self.id as int);
        let mut inner = canvas.take_buffer(self.id);
        proof {
            assert(buffer_wf(a, v));
            inner.lemma_view_wf();
        }
        let r = inner.write_right(s, &mut canvas.changed);
        let ghost extra = canvas@.changed.subrange(v.changed.len() as int, canvas@.changed.len() as int);
        proof {
            assert(canvas@.changed =~= v.changed + extra);
            assert(buffer_wf(a, v));
            let y = (a.rectangle.1.1 / 2) as int;
            let x = right_edge(a.rectangle, a.border);
            let n = s@.len() as int;
            if r is Ok && n > 0 {
                assert forall|i: int| 0 <= i < extra.len() implies v.in_grid(#[trigger] extra[i]) by {
                    assert(extra[i] == a.tuxels[y][x - i].idx);
                    assert(a.tuxels[y].len() == a.rectangle.1.0);
                    assert(v.in_grid(a.tuxels[y][x - i].idx));
                }
            } else {
                assert(extra.len() == 0);
            }
        }
        proof {
            assert(buffer_wf(a, v));
            lemma_same_places_wf(v, a, inner@);
        }
        canvas.put_buffer(self.id, inner, Ghost(v), Ghost(a), Ghost(extra));
        r
    }

    /// Shows `c` in every tuxel of the buffer inside its border; see `DrawBufferInner::fill`.
    pub fn fill(&self, canvas: &mut Canvas, c: char) -> (r: Result<(), TuiError>)
        requires
            old(canvas).wf(),
            old(canvas).live(self.id as int) ==> (old(canvas).buf(self.id as int).border ==> old(canvas).buf(self.id as int).rectangle.1.0 >= 2
                && old(canvas).buf(self.id as int).rectangle.1.1 >= 2),
        ensures
            r is Ok,
            final(canvas).wf(),
            old(canvas).live(self.id as int) ==> (only_buffer_changed(old(canvas)@, final(canvas)@, self.id as int)),
            old(canvas).live(self.id as int) ==> (fill_post(old(canvas).buf(self.id as int), final(canvas).buf(self.id as int), old(canvas)@.changed, final(canvas)@.changed, c)),
            !old(canvas).live(self.id as int) ==> final(canvas)@ == old(canvas)@ && r is Ok,
    {
        if !canvas.is_live(self.id) {
            return Ok(());
        }
        let ghost v = canvas@;
        let ghost a = canvas.buf(self.id as int);
        let mut inner = canvas.take_buffer(self.id);
        proof {
            assert(buffer_wf(a, v));
            inner.lemma_view_wf();
        }
        let r = inner.fill(c, &mut canvas.changed);
        let ghost extra = canvas@.changed.subrange(v.changed.len() as int, canvas@.changed.len() as int);
        proof {
            assert(canvas@.changed =~= v.changed + extra);
            let k = inner_left(a);
            lemma_block_places_in_grid(v, a, k, a.rectangle.1.0 - 2 * k, k, a.rectangle.1.1 - 2 * k);
            assert(extra =~= block_places(a.tuxels, k, a.rectangle.1.0 - 2 * k, k, a.rectangle.1.1 - 2 * k));
        }
        proof {
            assert(buffer_wf(a, v));
            lemma_same_places_wf(v, a, inner@);
        }
        canvas.put_buffer(self.id, inner, Ghost(v), Ghost(a), Ghost(extra));
        r
    }

    /// Draws a doubled border along the edges of the buffer; see `DrawBufferInner::draw_border`.
    pub fn draw_border(&self, canvas: &mut Canvas) -> (r: Result<(), TuiError>)
        requires
            old(canvas).wf(),
            old(canvas).live(self.id as int) ==> (old(canvas).buf(self.id as int).rectangle.1.1 >= 2 ==> old(canvas).buf(self.id as int).rectangle.1.0 != 1),
        ensures
            final(canvas).wf(),
            old(canvas).live(self.id as int) ==> (only_buffer_changed(old(canvas)@, final(canvas)@, self.id as int)),
            old(canvas).live(self.id as int) ==> (border_post(old(canvas).buf(self.id as int), final(canvas).buf(self.id as int), old(canvas)@.changed, final(canvas)@.changed, err_of(r))),
            !old(canvas).live(self.id as int) ==> final(canvas)@ == old(canvas)@ && r is Ok,
    {
        if !canvas.is_live(self.id) {
            return Ok(());
        }
        let ghost v = canvas@;
        let ghost a = canvas.buf(self.id as int);
        let mut inner = canvas.take_buffer(self.id);
        proof {
            assert(buffer_wf(a, v));
            inner.lemma_view_wf();
        }
        let r = inner.draw_border(&mut canvas.changed);
        let ghost extra = canvas@.changed.subrange(v.changed.len() as int, canvas@.changed.len() as int);
        proof {
            assert(canvas@.changed =~= v.changed + extra);
            let w = a.rectangle.1.0 as int;
            let h = a.rectangle.1.1 as int;
            assert(buffer_wf(a, v));
            if r is Ok && h >= 2 {
                assert(a.tuxels[0].len() == w);
                assert(a.tuxels[h - 1].len() == w);
                assert(v.in_grid(a.tuxels[0][0].idx));
                assert(v.in_grid(a.tuxels[0][w - 1].idx));
                assert(v.in_grid(a.tuxels[h - 1][w - 1].idx));
                assert(v.in_grid(a.tuxels[h - 1][0].idx));
                lemma_run_places_in_grid(v, a, 0, 1, w - 2);
                lemma_run_places_in_grid(v, a, h - 1, 1, w - 2);
                lemma_side_places_in_grid(v, a, h - 2);
                let corners = seq![a.tuxels[0][0].idx, a.tuxels[0][w - 1].idx, a.tuxels[h - 1][w - 1].idx, a.tuxels[h - 1][0].idx];
                let top = run_places(a.tuxels, 0, 1, w - 2);
                let bottom = run_places(a.tuxels, h - 1, 1, w - 2);
                let sides = side_places(a.tuxels, w, h - 2);
                assert(extra =~= corners + top + bottom + sides);
                assert forall|i: int| 0 <= i < extra.len() implies v.in_grid(#[trigger] extra[i]) by {
                    if i < 4 {
                        assert(extra[i] == corners[i]);
                    } else if i < 4 + top.len() {
                        assert(extra[i] == top[i - 4]);
                    } else if i < 4 + top.len() + bottom.len() {
                        assert(extra[i] == bottom[i - 4 - top.len()]);
                    } else {
                        assert(extra[i] == sides[i - 4 - top.len() - bottom.len()]);
                    }
                }
            } else {
                assert(extra.len() == 0);
            }
        }
        proof {
            assert(buffer_wf(a, v));
            lemma_same_places_wf(v, a, inner@);
        }
        canvas.put_buffer(self.id, inner, Ghost(v), Ghost(a), Ghost(extra));
        r
    }

    /// Moves the buffer to layer `zdx`; see `switch_layer_result`.
    pub fn switch_layer(&self, canvas: &mut Canvas, zdx: usize) -> (r: Result<(), TuiError>)
        requires
            old(canvas).wf(),
            old(canvas).live(self.id as int) ==> (zdx < CANVAS_DEPTH),
            old(canvas).live(self.id as int) ==> (old(canvas).buf(self.id as int).rectangle.0.2 < CANVAS_DEPTH),
            old(canvas).live(self.id as int) ==> (extents_fit(old(canvas).buf(self.id as int).rectangle)),
        ensures
            final(canvas).wf(),
            old(canvas).live(self.id as int) ==> ((final(canvas)@, err_of(r)) == switch_layer_result(old(canvas)@, self.id as int, old(canvas).buf(self.id as int), zdx)),
            !old(canvas).live(self.id as int) ==> final(canvas)@ == old(canvas)@ && r is Ok,
    {
        if !canvas.is_live(self.id) {
            return Ok(());
        }
        let ghost v = canvas@;
        let ghost b = canvas.buf(self.id as int);
        let rect = self.rectangle(canvas);
        if rect.0.2 == zdx {
            return Ok(());
        }
        let mut inner = canvas.take_buffer(self.id);
        let ghost v0 = canvas@;
        let old_rect = inner.rectangle;
        inner.rectangle.0.2 = zdx;
        let new_rect = inner.rectangle;
        proof {
            assert(buffer_wf(b, v));
            lemma_wf_without(v, self.id as int);
        }
        proof {
            lemma_swap_rectangles_frame(v0, new_rect, old_rect, Some(self.id));
        }
        match canvas.swap_rectangles(&new_rect, &old_rect, Some(self.id)) {
            Ok(()) => {},
            Err(e) => {
                let ghost w = canvas@;
                proof {
                    lemma_buffer_wf_rect(b, v, w);
                    assert(buffer_wf(inner@, w));
                    assert(w.buffers.len() == v.buffers.len());
                    assert(w.buffers[self.id as int] is None);
                    assert(canvas@.changed.subrange(0, w.changed.len() as int) =~= w.changed);
                    assert forall|i: int| 0 <= i < canvas@.changed.len() implies w.in_grid(#[trigger] canvas@.changed[i]) by {
                        assert(w.in_grid(w.changed[i]));
                    }
                }
                canvas.put_back_whole(self.id, inner, Ghost(w));
                return Err(e);
            },
        }
        let ghost w = canvas@;
        let ghost target = relayered(b.tuxels, zdx);
        let ghost changed_w = canvas@.changed;
        let h = inner.rectangle.height();
        let wd = inner.rectangle.width();
        proof {
            lemma_buffer_wf_rect(b, v, w);
        }
        let mut j: usize = 0;
        while j < h
            invariant
                canvas.wf(),
                canvas@ == (CanvasView { changed: canvas@.changed, ..w }),
                buffer_wf(b, w),
                inner.rectangle == new_rect,
                inner.border == b.border,
                inner.modifiers@ == b.modifiers,
                h == b.rectangle.1.1,
                wd == b.rectangle.1.0,
                zdx < CANVAS_DEPTH,
                target == relayered(b.tuxels, zdx),
                j <= h,
                rows_taken(b.tuxels, inner.tuxels(), target, j as int, 0),
                canvas@.changed == changed_w + block_places(target, 0, wd as int, 0, j as int),
            decreases h - j,
        {
            let mut i: usize = 0;
            let ghost changed_row = canvas@.changed;
            while i < wd
                invariant
                    canvas.wf(),
                    canvas@ == (CanvasView { changed: canvas@.changed, ..w }),
                    buffer_wf(b, w),
                    inner.rectangle == new_rect,
                    inner.border == b.border,
                    inner.modifiers@ == b.modifiers,
                    h == b.rectangle.1.1,
                    wd == b.rectangle.1.0,
                    zdx < CANVAS_DEPTH,
                    target == relayered(b.tuxels, zdx),
                    j < h,
                    i <= wd,
                    rows_taken(b.tuxels, inner.tuxels(), target, j as int, i as int),
                    canvas@.changed == changed_row + run_places(target, j as int, 0, i as int),
                decreases wd - i,
            {
                let ghost mid = inner.tuxels();
                let ghost cmid = canvas@;
                proof {
                    assert(b.tuxels[j as int].len() == wd);
                    assert(inner.buf@[j as int]@ == mid[j as int]);
                    assert(mid[j as int][i as int] == b.tuxels[j as int][i as int]);
                    assert(w.in_grid(b.tuxels[j as int][i as int].idx));
                }
                let mut idx = inner.buf[j][i].idx;
                idx.2 = zdx;
                proof {
                    lemma_with_change_wf(cmid, idx);
                }
                inner.buf[j][i].set_idx(&idx, &mut canvas.changed);
                proof {
                    assert(inner.tuxels() =~= mid.update(j as int, mid[j as int].update(i as int, Tuxel { idx, ..mid[j as int][i as int] })));
                    assert(canvas@.changed =~= changed_row + run_places(target, j as int, 0, i + 1));
                    assert(canvas@.buffers =~= w.buffers);
                    assert(canvas@.cells =~= w.cells);
                }
                i = i + 1;
            }
            proof {
                assert(block_places(target, 0, wd as int, 0, j + 1) == block_places(target, 0, wd as int, 0, j as int) + run_places(target, j as int, 0, wd as int));
                assert(canvas@.changed =~= changed_w + block_places(target, 0, wd as int, 0, j + 1));
            }
            j = j + 1;
        }
        let ghost nb = inner@;
        proof {
            assert(nb.tuxels =~~= target);
            assert forall|y: int, x: int| 0 <= y < nb.tuxels.len() && 0 <= x < nb.tuxels[y].len() implies w.in_grid(#[trigger] nb.tuxels[y][x].idx) by {
                assert(w.in_grid(b.tuxels[y][x].idx));
            }
            assert(canvas@.changed.subrange(0, w.changed.len() as int) =~= w.changed);
            assert(w.buffers[self.id as int] is None);
            assert forall|i: int| 0 <= i < canvas@.changed.len() implies w.in_grid(#[trigger] canvas@.changed[i]) by {
                assert(canvas@.in_grid(canvas@.changed[i]));
            }
        }
        canvas.put_back_whole(self.id, inner, Ghost(w));
        proof {
            assert(canvas@.changed =~= w.changed + block_places(target, 0, wd as int, 0, h as int));
        }
        Ok(())
    }

    /// Moves the buffer one step towards `dir`; see `translate_result`.
    pub fn translate(&self, canvas: &mut Canvas, dir: Direction) -> (r: Result<(), TuiError>)
        requires
            old(canvas).wf(),
            old(canvas).live(self.id as int) ==> (translation_fits(old(canvas).buf(self.id as int).rectangle, 1, dir)),
        ensures
            final(canvas).wf(),
            old(canvas).live(self.id as int) ==> (final(canvas)@ == translate_result(old(canvas)@, self.id as int, old(canvas).buf(self.id as int), dir).0),
            old(canvas).live(self.id as int) ==> (translate_err_matches(r, translate_result(old(canvas)@, self.id as int, old(canvas).buf(self.id as int), dir).1)),
            !old(canvas).live(self.id as int) ==> final(canvas)@ == old(canvas)@ && r is Ok,
    {
        if !canvas.is_live(self.id) {
            return Ok(());
        }
        let ghost v = canvas@;
        let ghost b = canvas.buf(self.id as int);
        let mut inner = canvas.take_buffer(self.id);
        let ghost v0 = canvas@;
        proof {
            assert(buffer_wf(b, v));
            lemma_wf_without(v, self.id as int);
        }
        let _ = inner.rectangle.translate(1, &dir);
        let (cw, ch) = canvas.dimensions();
        let h = inner.buf.len();
        let fwd = match dir {
            Direction::Left | Direction::Up => true,
            _ => false,
        };
        let mut jj: usize = 0;
        while jj < h
            invariant
                canvas.wf(),
                v0.wf(),
                buffer_wf(b, v),
                v0 == (CanvasView { buffers: v.buffers.update(self.id as int, None), ..v }),
                v == old(canvas)@,
                old(canvas).live(self.id as int),
                b == old(canvas).buf(self.id as int),
                canvas@.rectangle == v0.rectangle,
                canvas@.buffers.len() == v0.buffers.len(),
                canvas@.buffers[self.id as int] is None,
                self.id < v0.buffers.len(),
                cw == v0.width(),
                ch == v0.height(),
                fwd == forward(dir),
                h == b.tuxels.len(),
                inner.rectangle == spec_translated(b.rectangle, 1, dir),
                inner.border == b.border,
                inner.modifiers@ == b.modifiers,
                same_shape(b.tuxels, inner.tuxels()),
                forall|y: int, x: int| 0 <= y < h && 0 <= x < b.tuxels[y].len() ==> canvas@.in_grid(#[trigger] inner.tuxels()[y][x].idx),
                jj <= h,
                translate_rows(v0, b.tuxels, self.id as int, dir, jj as int) == (canvas@, inner.tuxels(), Ok::<(), Option<InnerError>>(())),
            decreases h - jj,
        {
            let y = if fwd { jj } else { h - 1 - jj };
            proof {
                assert(inner.buf@[y as int]@ == inner.tuxels()[y as int]);
                assert(inner.tuxels()[y as int].len() == b.tuxels[y as int].len());
            }
            let wd = inner.buf[y].len();
            let ghost row_start = (canvas@, inner.tuxels());
            let mut kk: usize = 0;
            while kk < wd
                invariant
                    canvas.wf(),
                    v0.wf(),
                    buffer_wf(b, v),
                    v0 == (CanvasView { buffers: v.buffers.update(self.id as int, None), ..v }),
                    v == old(canvas)@,
                    old(canvas).live(self.id as int),
                    b == old(canvas).buf(self.id as int),
                    canvas@.rectangle == v0.rectangle,
                    canvas@.buffers.len() == v0.buffers.len(),
                    canvas@.buffers[self.id as int] is None,
                    self.id < v0.buffers.len(),
                    cw == v0.width(),
                    ch == v0.height(),
                    fwd == forward(dir),
                    h == b.tuxels.len(),
                    jj < h,
                    y == step_index(dir, h as int, jj as int),
                    wd == b.tuxels[y as int].len(),
                    inner.rectangle == spec_translated(b.rectangle, 1, dir),
                    inner.border == b.border,
                    inner.modifiers@ == b.modifiers,
                    same_shape(b.tuxels, inner.tuxels()),
                    forall|yy: int, x: int| 0 <= yy < h && 0 <= x < b.tuxels[yy].len() ==> canvas@.in_grid(#[trigger] inner.tuxels()[yy][x].idx),
                    kk <= wd,
                    same_shape(b.tuxels, row_start.1),
                    translate_rows(v0, b.tuxels, self.id as int, dir, jj as int) == (row_start.0, row_start.1, Ok::<(), Option<InnerError>>(())),
                    translate_row(row_start.0, row_start.1, self.id as int, dir, y as int, kk as int) == (canvas@, inner.tuxels(), Ok::<(), Option<InnerError>>(())),
                decreases wd - kk,
            {
                let x = if fwd { kk } else { wd - 1 - kk };
                let ghost cv = canvas@;
                let ghost ct = inner.tuxels();
                proof {
                    assert(row_start.1[y as int].len() == wd);
                }
                proof {
                    assert(step_index(dir, row_start.1[y as int].len() as int, kk as int) == x);
                }
                match translate_tuxel(canvas, &mut inner, self.id, dir, y, x, cw, ch) {
                    Ok(()) => {},
                    Err(e) => {
                        proof {
                            lemma_translate_row_failed(row_start.0, row_start.1, self.id as int, dir, y as int, kk + 1, wd as int);
                            lemma_translate_rows_failed(v0, b.tuxels, self.id as int, dir, jj + 1, h as int);
                        }
                        let ghost w = canvas@;
                        proof {
                            assert(canvas@.changed.subrange(0, w.changed.len() as int) =~= w.changed);
                            lemma_inner_wf_view(b, inner@, v, w, w);
                            assert forall|i: int| 0 <= i < canvas@.changed.len() implies w.in_grid(#[trigger] canvas@.changed[i]) by {
                                assert(canvas@.in_grid(canvas@.changed[i]));
                            }
                        }
                        canvas.put_back_whole(self.id, inner, Ghost(w));
                        return Err(e);
                    },
                }
                kk = kk + 1;
            }
            jj = jj + 1;
        }
        let ghost w = canvas@;
        proof {
            assert(canvas@.changed.subrange(0, w.changed.len() as int) =~= w.changed);
            lemma_inner_wf_view(b, inner@, v, w, w);
            assert forall|i: int| 0 <= i < canvas@.changed.len() implies w.in_grid(#[trigger] canvas@.changed[i]) by {
                assert(canvas@.in_grid(canvas@.changed[i]));
            }
        }
        canvas.put_back_whole(self.id, inner, Ghost(w));
        Ok(())
    }

    /// A new draw buffer with the rectangle of this one, on layer `layer`; see
    /// `Canvas::get_draw_buffer`.
    pub fn clone_to(&self, canvas: &mut Canvas, layer: usize) -> (res: Result<DrawBuffer, TuiError>)
        requires
            old(canvas).wf(),
            old(canvas).live(self.id as int),
            layer < CANVAS_DEPTH,
            extents_fit(old(canvas).buf(self.id as int).rectangle),
        ensures
            final(canvas).wf(),
            ({
                let r = old(canvas).buf(self.id as int).rectangle;
                buffer_taken(old(canvas)@, Rectangle(Idx(r.0.0, r.0.1, layer), r.1), final(canvas)@, res)
            }),
    {
        let mut rectangle = self.rectangle(canvas);
        rectangle.0.2 = layer;
        canvas.get_draw_buffer(rectangle)
    }

    /// Adds a modifier to the colors of the buffer.
    pub fn modify(&self, canvas: &mut Canvas, modifier: Modifier)
        requires
            old(canvas).wf(),
        ensures
            final(canvas).wf(),
            old(canvas).live(self.id as int) ==> (only_buffer_changed(old(canvas)@, final(canvas)@, self.id as int)),
            old(canvas).live(self.id as int) ==> (final(canvas)@.changed == old(canvas)@.changed),
            old(canvas).live(self.id as int) ==> (final(canvas).buf(self.id as int) == (BufferView {
                modifiers: old(canvas).buf(self.id as int).modifiers.push(modifier),
                ..old(canvas).buf(self.id as int)
            })),
            !old(canvas).live(self.id as int) ==> final(canvas)@ == old(canvas)@,
    {
        if !canvas.is_live(self.id) {
            return;
        }
        let ghost v = canvas@;
        let ghost a = canvas.buf(self.id as int);
        let mut inner = canvas.take_buffer(self.id);
        inner.modifiers.push(modifier);
        proof {
            assert(inner@.tuxels == a.tuxels);
            assert(buffer_wf(a, v));
            lemma_same_places_wf(v, a, inner@);
        }
        canvas.put_buffer(self.id, inner, Ghost(v), Ghost(a), Ghost(Seq::empty()));
        proof {
            assert(canvas@.changed =~= v.changed);
        }
    }

    /// The rectangle of the buffer.
    pub fn rectangle(&self, canvas: &Canvas) -> (r: Rectangle)
        ensures
            canvas.live(self.id as int) ==> r == canvas.buf(self.id as int).rectangle,
            !canvas.live(self.id as int) ==> r == Rectangle(Idx(0, 0, 0), Bounds2D(0, 0)),
    {
        if self.id < canvas.buffers.len() {
            match &canvas.buffers[self.id] {
                Some(inner) => {
                    return inner.rectangle;
                },
                None => {},
            }
        }
        Rectangle(Idx(0, 0, 0), Bounds2D(0, 0))
    }

    /// Releases the buffer: its tuxels are cleared, which announces their places as changed,
    /// and handed back to the canvas, which reclaims their cells at once, emptying them.
    pub fn release(self, canvas: &mut Canvas)
        requires
            old(canvas).wf(),
        ensures
            final(canvas).wf(),
            final(canvas)@ == released_view(old(canvas)@, self.id as int),
    {
        if self.id < canvas.buffers.len() {
            let ghost v = canvas@;
            match canvas.buffers[self.id].take() {
                Some(inner) => {
                    let mut inner = inner;
                    let ghost a = inner@;
                    proof {
                        assert(v.buffers[self.id as int] == Some(a));
                        assert(buffer_wf(a, v));
                        lemma_drop_order_in_grid(v, a.tuxels);
                    }
                    inner.drain_into(&mut canvas.changed, &mut canvas.released);
                    proof {
                        let w = canvas@;
                        let lost = drop_order(a.tuxels);
                        assert(w.buffers =~= v.buffers.update(self.id as int, None));
                        assert(w == dropped_view(v, self.id as int));
                        assert forall|k: int| 0 <= k < w.buffers.len() && #[trigger] w.buffers[k] is Some implies buffer_wf(w.buffers[k].unwrap(), w) by {
                            lemma_buffer_wf_rect(v.buffers[k].unwrap(), v, w);
                        }
                        assert forall|k: int| 0 <= k < w.released.len() implies #[trigger] w.in_grid(w.released[k].idx) by {
                            if k < v.released.len() {
                                assert(v.in_grid(v.released[k].idx));
                            } else {
                                assert(w.released[k] == lost[k - v.released.len()]);
                            }
                        }
                        assert forall|k: int| 0 <= k < w.changed.len() implies #[trigger] w.in_grid(w.changed[k]) by {
                            if k < v.changed.len() {
                                assert(v.in_grid(v.changed[k]));
                            } else {
                                assert(w.changed[k] == lost[k - v.changed.len()].idx);
                            }
                        }
                    }
                    canvas.reclaim();
                },
                None => {
                    proof {
                        assert(canvas@.buffers =~= v.buffers);
                    }
                },
            }
        }
    }
}

impl Canvas {
    /// Whether draw buffer `id` is live.
    pub open spec fn live(&self, id: int) -> bool {
        0 <= id < self@.buffers.len() && self@.buffers[id] is Some
    }

    /// Whether draw buffer `id` is live: it was taken from this canvas and not released.
    pub fn is_live(&self, id: usize) -> (r: bool)
        ensures
            r == self.live(id as int),
    {
        id < self.buffers.len() && self.buffers[id].is_some()
    }

    /// Draw buffer `id`.
    pub open spec fn buf(&self, id: int) -> BufferView {
        self@.buffers[id].unwrap()
    }

    /// Whether each stack sits at its own place.
    pub open spec fn stacks_placed(&self) -> bool {
        forall|y: int, x: int|
            0 <= y < self@.height() && 0 <= x < self@.width() ==> (#[trigger] self.grid@[y]@[x]).idx == Idx(x as usize, y as usize, 0)
    }

    /// Takes draw buffer `id` out of the canvas to work on it.
    fn take_buffer(&mut self, id: usize) -> (b: DrawBufferInner)
        requires
            old(self).wf(),
            old(self).live(id as int),
        ensures
            b@ == old(self).buf(id as int),
            final(self)@ == (CanvasView { buffers: old(self)@.buffers.update(id as int, None), ..old(self)@ }),
            final(self).grid == old(self).grid,
    {
        let ghost v = self@;
        let b = self.buffers[id].take().unwrap();
        proof {
            assert(self@.buffers =~= v.buffers.update(id as int, None));
        }
        b
    }

    /// Puts draw buffer `id` back after working on it: only its characters changed, and the
    /// places `extra`, which lie on the canvas, were announced.
    fn put_buffer(&mut self, id: usize, b: DrawBufferInner, Ghost(v): Ghost<CanvasView>, Ghost(a): Ghost<BufferView>, Ghost(extra): Ghost<Seq<Idx>>)
        requires
            v.wf(),
            0 <= id < v.buffers.len(),
            v.buffers[id as int] == Some(a),
            old(self)@ == (CanvasView { buffers: v.buffers.update(id as int, None), changed: v.changed + extra, ..v }),
            old(self).stacks_placed(),
            buffer_wf(b@, v),
            forall|i: int| 0 <= i < extra.len() ==> v.in_grid(#[trigger] extra[i]),
        ensures
            final(self).wf(),
            final(self)@ == buffer_stepped(v, id as int, b@, extra),
    {
        let ghost mid = self@;
        proof {
            assert(mid.buffers.len() == self.buffers@.len());
        }
        self.buffers.set(id, Some(b));
        proof {
            assert forall|k: int| 0 <= k < v.buffers.len() implies #[trigger] self@.buffers[k] == v.buffers.update(id as int, Some(b@))[k] by {
                if k != id {
                    assert(mid.buffers[k] == v.buffers[k]);
                }
            }
            assert(self@.buffers =~= v.buffers.update(id as int, Some(b@)));
            assert(self@ == buffer_stepped(v, id as int, b@, extra));
            lemma_buffer_step_wf(v, id as int, b@, extra);
        }
    }

    /// Puts draw buffer `id` back after the canvas `w` was worked on without it, and places of
    /// the canvas were announced.
    fn put_back_whole(&mut self, id: usize, b: DrawBufferInner, Ghost(w): Ghost<CanvasView>)
        requires
            w.wf(),
            0 <= id < w.buffers.len(),
            w.buffers[id as int] is None,
            old(self)@ == (CanvasView { changed: old(self)@.changed, ..w }),
            w.changed.len() <= old(self)@.changed.len(),
            old(self)@.changed.subrange(0, w.changed.len() as int) == w.changed,
            old(self).stacks_placed(),
            buffer_wf(b@, w),
            forall|i: int| 0 <= i < old(self)@.changed.len() ==> w.in_grid(#[trigger] old(self)@.changed[i]),
        ensures
            final(self).wf(),
            final(self)@ == (CanvasView { buffers: w.buffers.update(id as int, Some(b@)), changed: old(self)@.changed, ..w }),
    {
        let ghost mid = self@;
        proof {
            assert(mid.buffers.len() == self.buffers@.len());
        }
        self.buffers.set(id, Some(b));
        proof {
            assert forall|k: int| 0 <= k < w.buffers.len() implies #[trigger] self@.buffers[k] == w.buffers.update(id as int, Some(b@))[k] by {
                if k != id {
                    assert(mid.buffers[k] == w.buffers[k]);
                }
            }
            assert(self@.buffers =~= w.buffers.update(id as int, Some(b@)));
            let extra = mid.changed.subrange(w.changed.len() as int, mid.changed.len() as int);
            assert(mid.changed =~= w.changed + extra);
            assert forall|i: int| 0 <= i < extra.len() implies w.in_grid(#[trigger] extra[i]) by {
                assert(extra[i] == mid.changed[i + w.changed.len()]);
            }
            lemma_buffer_step_wf(w, id as int, b@, extra);
            assert(self@ == buffer_stepped(w, id as int, b@, extra));
        }
    }

    /// An empty canvas `width` columns wide and `height` rows high.
    pub fn new(width: usize, height: usize) -> (c: Canvas)
        ensures
            c.wf(),
            c@.rectangle == Rectangle(Idx(0, 0, 0), Bounds2D(width, height)),
            forall|x: int, y: int, z: int|
                0 <= x < width && 0 <= y < height && 0 <= z < CANVAS_DEPTH ==> #[trigger] c@.cell(x, y, z) is Empty,
            c@.buffers.len() == 0,
            c@.changed.len() == 0,
            c@.released.len() == 0,
    {
        let rectangle = Rectangle(Idx(0, 0, 0), Bounds2D(width, height));
        let mut grid: Vec<Vec<Stack>> = Vec::new();
        let mut y: usize = 0;
        while y < height
            invariant
                y <= height,
                grid@.len() == y,
                forall|j: int| 0 <= j < y ==> #[trigger] grid@[j]@.len() == width,
                forall|j: int, i: int| 0 <= j < y && 0 <= i < width ==> (#[trigger] grid@[j]@[i]).idx == Idx(i as usize, j as usize, 0)
                    && grid@[j]@[i].cells@ == Seq::new(CANVAS_DEPTH as nat, |z: int| Cell::Empty),
            decreases height - y,
        {
            let mut row: Vec<Stack> = Vec::new();
            let mut x: usize = 0;
            while x < width
                invariant
                    x <= width,
                    y < height,
                    row@.len() == x,
                    forall|i: int| 0 <= i < x ==> (#[trigger] row@[i]).idx == Idx(i as usize, y, 0)
                        && row@[i].cells@ == Seq::new(CANVAS_DEPTH as nat, |z: int| Cell::Empty),
                decreases width - x,
            {
                row.push(Stack::new(x, y));
                x = x + 1;
            }
            grid.push(row);
            y = y + 1;
        }
        let c = Canvas { rectangle, grid, buffers: Vec::new(), changed: Vec::new(), released: Vec::new() };
        proof {
            assert forall|x: int, y: int, z: int|
                0 <= x < width && 0 <= y < height && 0 <= z < CANVAS_DEPTH implies #[trigger] c@.cell(x, y, z) is Empty by {
                assert(c.grid@[y]@[x].cells@ == Seq::new(CANVAS_DEPTH as nat, |z: int| Cell::Empty));
            }
        }
        c
    }

    /// Whether the canvas's view is well formed, and each stack sits at its own place.
    pub open spec fn wf(&self) -> bool {
        &&& self@.wf()
        &&& self.stacks_placed()
    }

    /// The grid has the canvas's size and every stack holds every layer.
    proof fn lemma_grid_shape(&self)
        requires
            self.wf(),
        ensures
            self.grid@.len() == self@.height(),
            forall|y: int| 0 <= y < self@.height() ==> #[trigger] self.grid@[y]@.len() == self@.width(),
            forall|y: int, x: int|
                0 <= y < self@.height() && 0 <= x < self@.width() ==> #[trigger] self.grid@[y]@[x].cells@.len() == CANVAS_DEPTH,
    {
        assert forall|y: int| 0 <= y < self@.height() implies #[trigger] self.grid@[y]@.len() == self@.width() by {
            assert(self@.cells[y].len() == self@.width());
        }
        assert forall|y: int, x: int|
            0 <= y < self@.height() && 0 <= x < self@.width() implies #[trigger] self.grid@[y]@[x].cells@.len() == CANVAS_DEPTH by {
            assert(self@.cells[y].len() == self@.width());
            assert(self@.cells[y][x].len() == CANVAS_DEPTH);
        }
    }

    /// Replaces the cell at `idx`.
    fn set_cell(&mut self, idx: &Idx, cell: Cell)
        requires
            old(self).wf(),
            old(self)@.in_grid(*idx),
        ensures
            final(self)@ == old(self)@.with_cell(*idx, cell),
            final(self).wf(),
    {
        let ghost before = self@;
        let ghost g = self.grid@;
        proof {
            assert(before.cells[idx.1 as int].len() == before.width());
            assert(before.cells[idx.1 as int][idx.0 as int].len() == CANVAS_DEPTH);
        }
        self.grid[idx.1][idx.0].cells.set(idx.2, cell);
        proof {
            assert(self@.cells =~~= before.with_cell(*idx, cell).cells);
            assert(self@.buffers =~= before.buffers);
            lemma_with_cell_wf(before, *idx, cell);
            assert forall|y: int, x: int|
                0 <= y < self@.height() && 0 <= x < self@.width() implies (#[trigger] self.grid@[y]@[x]).idx == Idx(x as usize, y as usize, 0) by {
                assert(g[y]@[x].idx == Idx(x as usize, y as usize, 0));
            }
        }
    }

    /// Takes the cell at `idx` out of the canvas, leaving it empty, or names the coordinate that
    /// lies outside the canvas.
    fn acquire_cell(&mut self, idx: &Idx) -> (r: Result<Cell, TuiError>)
        requires
            old(self).wf(),
            idx.2 < CANVAS_DEPTH,
        ensures
            final(self).wf(),
            idx.1 >= old(self)@.height() ==> (r matches Err(e) && e.inner == InnerError::OutOfBoundsY(idx.1)) && final(self)@ == old(self)@,
            idx.1 < old(self)@.height() && idx.0 >= old(self)@.width() ==> (r matches Err(e) && e.inner == InnerError::OutOfBoundsX(idx.0)) && final(self)@ == old(self)@,
            old(self)@.in_grid(*idx) ==> r == Ok::<Cell, TuiError>(old(self)@.cell(idx.0 as int, idx.1 as int, idx.2 as int))
                && final(self)@ == old(self)@.with_cell(*idx, Cell::Empty),
    {
        proof {
            self.lemma_grid_shape();
        }
        if idx.1 >= self.grid.len() {
            return Err(TuiError::from(InnerError::OutOfBoundsY(idx.1)));
        }
        if idx.0 >= self.grid[idx.1].len() {
            return Err(TuiError::from(InnerError::OutOfBoundsX(idx.0)));
        }
        let c = self.grid[idx.1][idx.0].cells[idx.2];
        self.set_cell(idx, Cell::Empty);
        Ok(c)
    }

    /// Puts `cell` at `idx`, or names the coordinate that lies outside the canvas.
    fn replace_cell(&mut self, idx: &Idx, cell: Cell) -> (r: Result<(), TuiError>)
        requires
            old(self).wf(),
            idx.2 < CANVAS_DEPTH,
        ensures
            final(self).wf(),
            idx.1 >= old(self)@.height() ==> (r matches Err(e) && e.inner == InnerError::OutOfBoundsY(idx.1)) && final(self)@ == old(self)@,
            idx.1 < old(self)@.height() && idx.0 >= old(self)@.width() ==> (r matches Err(e) && e.inner == InnerError::OutOfBoundsX(idx.0)) && final(self)@ == old(self)@,
            old(self)@.in_grid(*idx) ==> r is Ok && final(self)@ == old(self)@.with_cell(*idx, cell),
    {
        proof {
            self.lemma_grid_shape();
        }
        if idx.1 >= self.grid.len() {
            return Err(TuiError::from(InnerError::OutOfBoundsY(idx.1)));
        }
        if idx.0 >= self.grid[idx.1].len() {
            return Err(TuiError::from(InnerError::OutOfBoundsX(idx.0)));
        }
        self.set_cell(idx, cell);
        Ok(())
    }

    /// Moves a cell's tuxel to `to`; a retry error (its buffer is held by the caller) is ignored.
    fn move_cell(&mut self, cell: &mut Cell, to: &Idx, held: Option<usize>) -> (r: Result<(), TuiError>)
        requires
            old(self).wf(),
            old(self)@.in_grid(*to),
        ensures
            final(self).wf(),
            ({
                let (c, res) = cell_moved(old(self)@, *old(cell), *to, held);
                &&& *final(cell) == c
                &&& match res {
                    Ok(w) => r is Ok && final(self)@ == w,
                    Err(e) => (r matches Err(err) && err.inner == e) && final(self)@ == old(self)@,
                }
            }),
    {
        match cell {
            Cell::Empty => Ok(()),
            Cell::DBTuxel(dbt) => {
                let ghost d = *dbt;
                let ghost v = self@;
                match dbt.set_canvas_idx(self, to, held) {
                    Ok(_) => Ok(()),
                    Err(TuiError { inner: InnerError::ExceedRetryLimitForLockingDrawBuffer(_) }) => Ok(()),
                    Err(e) => Err(e),
                }
            },
        }
    }

    /// Swaps the cells at `from_idx` and `to_idx`, moving their tuxels with them, with draw
    /// buffer `held` locked by the caller; see `swap_result`.
    pub fn swap_tuxels(&mut self, from_idx: Idx, to_idx: Idx, held: Option<usize>) -> (r: Result<(), TuiError>)
        requires
            old(self).wf(),
            from_idx.2 < CANVAS_DEPTH,
            to_idx.2 < CANVAS_DEPTH,
        ensures
            final(self).wf(),
            (final(self)@, err_of(r)) == swap_result(old(self)@, from_idx, to_idx, held),
    {
        reveal(swap_result);
        let ghost v = self@;
        match self.rectangle.contains_or_err(Geometry::Idx(&from_idx)) {
            Ok(()) => {},
            Err(e) => {
                return Err(e);
            },
        }
        match self.rectangle.contains_or_err(Geometry::Idx(&to_idx)) {
            Ok(()) => {},
            Err(e) => {
                return Err(e);
            },
        }
        let mut from_cell = match self.acquire_cell(&from_idx) {
            Ok(c) => c,
            Err(e) => {
                return Err(e);
            },
        };
        let ghost v1 = self@;
        let mut to_cell = match self.acquire_cell(&to_idx) {
            Err(e) => {
                match self.replace_cell(&from_idx, from_cell) {
                    Ok(()) => {},
                    Err(e2) => {
                        return Err(e2);
                    },
                }
                return Err(e);
            },
            Ok(c) => c,
        };
        let ghost v2 = self@;
        match self.move_cell(&mut from_cell, &to_idx, held) {
            Ok(()) => {},
            Err(e) => {
                return Err(e);
            },
        }
        match self.move_cell(&mut to_cell, &from_idx, held) {
            Ok(()) => {},
            Err(e) => {
                return Err(e);
            },
        }
        match self.replace_cell(&from_idx, to_cell) {
            Ok(()) => {},
            Err(e) => {
                return Err(e);
            },
        }
        match self.replace_cell(&to_idx, from_cell) {
            Ok(()) => {},
            Err(e) => {
                return Err(e);
            },
        }
        let ghost v5 = self@;
        proof {
            lemma_with_change_wf(v5, from_idx);
            lemma_with_change_wf(v5.with_change(from_idx), to_idx);
        }
        self.changed.push(from_idx);
        self.changed.push(to_idx);
        proof {
            assert(self@.changed =~= v5.with_change(from_idx).with_change(to_idx).changed);
            assert(self@.buffers =~= v5.buffers);
            assert(self@.cells =~= v5.cells);
        }
        Ok(())
    }

    /// Swaps the cells of two rectangles of the same size, column by column, then reclaims
    /// released tuxels, with draw buffer `held` locked by the caller; see
    /// `swap_rectangles_result`.
    pub fn swap_rectangles(&mut self, rect1: &Rectangle, rect2: &Rectangle, held: Option<usize>) -> (r: Result<(), TuiError>)
        requires
            old(self).wf(),
            extents_fit(*rect1),
            extents_fit(*rect2),
            rect1.0.2 < CANVAS_DEPTH,
            rect2.0.2 < CANVAS_DEPTH,
        ensures
            final(self).wf(),
            (final(self)@, err_of(r)) == swap_rectangles_result(old(self)@, *rect1, *rect2, held),
    {
        if *rect1 == *rect2 {
            return Ok(());
        } else if rect1.width() != rect2.width() || rect1.height() != rect2.height() {
            return Err(TuiError::from(InnerError::RectangleDimensionsMustMatch));
        }
        let ghost v = self@;
        let rect1_indices = rect1.into_iter();
        let rect2_indices = rect2.into_iter();
        proof {
            lemma_rect_cols_len(*rect1, rect1.1.0 as int);
            lemma_rect_cols_len(*rect2, rect2.1.0 as int);
            lemma_rect_cols_inside(*rect1, rect1.1.0 as int);
            lemma_rect_cols_inside(*rect2, rect2.1.0 as int);
        }
        let mut k: usize = 0;
        while k < rect1_indices.len()
            invariant
                self.wf(),
                rect1_indices@ == rect_cells(*rect1),
                rect2_indices@ == rect_cells(*rect2),
                rect1_indices@.len() == rect2_indices@.len(),
                forall|i: int| 0 <= i < rect1_indices@.len() ==> covers(*rect1, #[trigger] rect1_indices@[i]),
                forall|i: int| 0 <= i < rect2_indices@.len() ==> covers(*rect2, #[trigger] rect2_indices@[i]),
                rect1.0.2 < CANVAS_DEPTH,
                rect2.0.2 < CANVAS_DEPTH,
                *rect1 != *rect2,
                rect1.1 == rect2.1,
                v == old(self)@,
                k <= rect1_indices@.len(),
                swaps_upto(v, rect1_indices@, rect2_indices@, held, k as int) == (self@, Ok::<(), InnerError>(())),
            decreases rect1_indices@.len() - k,
        {
            proof {
                assert(covers(*rect1, rect1_indices@[k as int]));
                assert(covers(*rect2, rect2_indices@[k as int]));
            }
            match self.swap_tuxels(rect1_indices[k], rect2_indices[k], held) {
                Ok(()) => {},
                Err(e) => {
                    proof {
                        lemma_swaps_stable(v, rect1_indices@, rect2_indices@, held, k + 1, rect1_indices@.len() as int);
                    }
                    return Err(e);
                },
            }
            k = k + 1;
        }
        self.reclaim();
        Ok(())
    }

    /// Whether any place of the canvas has layer `zdx` filled.
    pub fn layer_occupied(&self, zdx: usize) -> (r: bool)
        requires
            self.wf(),
        ensures
            r == exists|x: int, y: int|
                0 <= x < self@.width() && 0 <= y < self@.height() && zdx < CANVAS_DEPTH && #[trigger] self@.cell(x, y, zdx as int) is DBTuxel,
    {
        proof {
            self.lemma_grid_shape();
        }
        let mut y: usize = 0;
        while y < self.grid.len()
            invariant
                self.wf(),
                self.grid@.len() == self@.height(),
                y <= self@.height(),
                forall|xx: int, yy: int|
                    0 <= xx < self@.width() && 0 <= yy < y && zdx < CANVAS_DEPTH ==> !(#[trigger] self@.cell(xx, yy, zdx as int) is DBTuxel),
            decreases self@.height() - y,
        {
            proof {
                self.lemma_grid_shape();
            }
            let mut x: usize = 0;
            while x < self.grid[y].len()
                invariant
                    self.wf(),
                    self.grid@[y as int]@.len() == self@.width(),
                    y < self@.height(),
                    x <= self@.width(),
                    forall|xx: int, yy: int|
                        0 <= xx < self@.width() && 0 <= yy < y && zdx < CANVAS_DEPTH ==> !(#[trigger] self@.cell(xx, yy, zdx as int) is DBTuxel),
                    forall|xx: int| 0 <= xx < x && zdx < CANVAS_DEPTH ==> !(#[trigger] self@.cell(xx, y as int, zdx as int) is DBTuxel),
                decreases self@.width() - x,
            {
                proof {
                    self.lemma_grid_shape();
                }
                if self.grid[y][x].layer_occupied(zdx) {
                    assert(self@.cell(x as int, y as int, zdx as int) is DBTuxel);
                    return true;
                }
                x = x + 1;
            }
            y = y + 1;
        }
        false
    }

    /// Announces every place of the canvas as changed, row by row.
    pub fn draw_all(&mut self) -> (r: Result<(), TuiError>)
        requires
            old(self).wf(),
        ensures
            r is Ok,
            final(self).wf(),
            final(self)@ == old(self)@.with_changes(grid_places(old(self)@.width(), old(self)@.height())),
    {
        let ghost before = self@;
        proof {
            self.lemma_grid_shape();
        }
        let mut y: usize = 0;
        while y < self.grid.len()
            invariant
                self.wf(),
                self.grid@.len() == self@.height(),
                y <= self@.height(),
                self@ == before.with_changes(grid_places(before.width(), y as int)),
                before.wf(),
            decreases self@.height() - y,
        {
            let ghost row_start = self@;
            proof {
                self.lemma_grid_shape();
            }
            let mut x: usize = 0;
            while x < self.grid[y].len()
                invariant
                    self.wf(),
                    self.grid@.len() == self@.height(),
                    self.grid@[y as int]@.len() == self@.width(),
                    y < self@.height(),
                    x <= self@.width(),
                    row_start == before.with_changes(grid_places(before.width(), y as int)),
                    self@ == row_start.with_changes(Seq::new(x as nat, |i: int| Idx(i as usize, y, 0))),
                    before.wf(),
                    self@.rectangle == before.rectangle,
                decreases self@.width() - x,
            {
                proof {
                    self.lemma_grid_shape();
                }
                let idx = self.grid[y][x].idx;
                let ghost mid = self@;
                proof {
                    lemma_with_change_wf(mid, idx);
                }
                self.changed.push(idx);
                proof {
                    assert(self@.changed =~= mid.changed.push(idx));
                    assert(Seq::new((x + 1) as nat, |i: int| Idx(i as usize, y, 0)) =~= Seq::new(x as nat, |i: int| Idx(i as usize, y, 0)).push(idx));
                    assert(self@ == row_start.with_changes(Seq::new((x + 1) as nat, |i: int| Idx(i as usize, y, 0))));
                }
                x = x + 1;
            }
            proof {
                assert(grid_places(before.width(), y + 1) == grid_places(before.width(), y as int) + Seq::new(before.width() as nat, |i: int| Idx(i as usize, y, 0)));
                assert(self@.changed =~= before.changed + grid_places(before.width(), y + 1));
                assert(self@ == before.with_changes(grid_places(before.width(), y + 1)));
            }
            y = y + 1;
        }
        Ok(())
    }

    /// Takes back the tuxels of released draw buffers: the cell of each is emptied and its place
    /// announced as changed.
    pub fn reclaim(&mut self)
        requires
            old(self).wf(),
        ensures
            final(self).wf(),
            final(self)@ == reclaimed(old(self)@),
    {
        let ghost before = self@;
        let mut i: usize = 0;
        while i < self.released.len()
            invariant
                self.wf(),
                before.wf(),
                i <= before.released.len(),
                self@ == reclaim_upto(before, i as int),
            decreases before.released.len() - i,
        {
            proof {
                lemma_reclaim_upto(before, i as int);
                lemma_reclaim_upto(before, i + 1);
            }
            let idx = self.released[i].idx;
            self.set_cell(&idx, Cell::Empty);
            let ghost mid = self@;
            proof {
                lemma_with_change_wf(mid, idx);
            }
            self.changed.push(idx);
            proof {
                assert(self@.changed =~= mid.changed.push(idx));
                assert(self@.buffers =~= mid.buffers);
                assert(self@.cells =~= mid.cells);
            }
            i = i + 1;
        }
        proof {
            lemma_reclaim_upto(before, i as int);
        }
        let ghost last = self@;
        self.released = Vec::new();
        proof {
            lemma_reclaim_upto(before, before.released.len() as int);
            assert(self@.released =~= Seq::<Tuxel>::empty());
            assert(self@.cells =~= last.cells);
            assert(self@.buffers =~= last.buffers);
            assert(self@ == reclaimed(before));
            assert forall|k: int| 0 <= k < self@.buffers.len() && #[trigger] self@.buffers[k] is Some implies buffer_wf(self@.buffers[k].unwrap(), self@) by {
                assert(buffer_wf(last.buffers[k].unwrap(), last));
            }
            assert forall|k: int| 0 <= k < self@.changed.len() implies #[trigger] self@.in_grid(self@.changed[k]) by {
                assert(last.in_grid(last.changed[k]));
            }
        }
    }

    /// The stacks of the places announced as changed since the last call, in the order of the
    /// announcements; the announcements are then forgotten.
    pub fn get_changed(&mut self) -> (r: Vec<Stack>)
        requires
            old(self).wf(),
        ensures
            final(self).wf(),
            final(self)@ == (CanvasView { changed: Seq::empty(), ..old(self)@ }),
            r@.len() == old(self)@.changed.len(),
            forall|i: int| 0 <= i < r@.len() ==> (#[trigger] r@[i]).idx == Idx(old(self)@.changed[i].0, old(self)@.changed[i].1, 0)
                && r@[i].cells@ == old(self)@.cells[old(self)@.changed[i].1 as int][old(self)@.changed[i].0 as int],
    {
        let mut stacks: Vec<Stack> = Vec::new();
        let mut i: usize = 0;
        while i < self.changed.len()
            invariant
                self.wf(),
                i <= self.changed@.len(),
                stacks@.len() == i,
                forall|k: int| 0 <= k < i ==> (#[trigger] stacks@[k]).idx == Idx(self@.changed[k].0, self@.changed[k].1, 0)
                    && stacks@[k].cells@ == self@.cells[self@.changed[k].1 as int][self@.changed[k].0 as int],
            decreases self.changed@.len() - i,
        {
            let idx = self.changed[i];
            proof {
                self.lemma_grid_shape();
                assert(self@.in_grid(self@.changed[i as int]));
                assert(self.grid@[idx.1 as int]@[idx.0 as int].idx == Idx(idx.0, idx.1, 0));
            }
            let s = self.grid[idx.1][idx.0].copy();
            stacks.push(s);
            i = i + 1;
        }
        let ghost before = self@;
        self.changed = Vec::new();
        proof {
            assert(self@.cells =~= before.cells);
            assert(self@.buffers =~= before.buffers);
            assert(self@ == (CanvasView { changed: Seq::empty(), ..before }));
            assert forall|k: int| 0 <= k < self@.buffers.len() && #[trigger] self@.buffers[k] is Some implies buffer_wf(self@.buffers[k].unwrap(), self@) by {
                assert(buffer_wf(before.buffers[k].unwrap(), before));
            }
            assert forall|k: int| 0 <= k < self@.released.len() implies #[trigger] self@.in_grid(self@.released[k].idx) by {
                assert(before.in_grid(before.released[k].idx));
            }
        }
        stacks
    }

    /// A new draw buffer for `r`, whose tuxels fill the places of `r` on its layer. Released
    /// tuxels are reclaimed first. Fails when `r` does not fit the canvas, or when one of its
    /// places is filled on that layer: then that cell is emptied, the places before it (row by
    /// row) are left to the tuxels of the abandoned buffer, and those tuxels are released.
    pub fn get_draw_buffer(&mut self, r: Rectangle) -> (res: Result<DrawBuffer, TuiError>)
        requires
            old(self).wf(),
            extents_fit(r),
            r.0.2 < CANVAS_DEPTH,
        ensures
            final(self).wf(),
            buffer_taken(old(self)@, r, final(self)@, res),
    {
        self.reclaim();
        let ghost v = self@;
        let ghost id = v.buffers.len() as int;
        match self.rectangle.contains_or_err(Geometry::Rectangle(&r)) {
            Ok(()) => {},
            Err(e) => {
                proof {
                    assert(Some(e.inner) == spec_containment_error(v.rectangle, Geometry::Rectangle(&r)));
                }
                return Err(e);
            },
        }
        let mut inner = DrawBufferInner::new(r);
        let buffer = self.buffers.len();
        proof {
            self.lemma_grid_shape();
            assert(inner.tuxels() =~~= partial_rows(r, r.0.0 as int, r.0.1 as int));
            assert(placed_upto_ok(v, self@, r, id, r.0.0 as int, r.0.1 as int));
        }
        let mut j: usize = 0;
        while j < r.height()
            invariant
                self.wf(),
                v.wf(),
                extents_fit(r),
                r.0.2 < CANVAS_DEPTH,
                r.0.0 + r.1.0 <= v.width(),
                r.0.1 + r.1.1 <= v.height(),
                spec_containment_error(v.rectangle, Geometry::Rectangle(&r)) is None,
                v == reclaimed(old(self)@),
                buffer == id,
                id == v.buffers.len(),
                j <= r.1.1,
                inner.rectangle == r,
                !inner.border,
                inner.modifiers@.len() == 0,
                inner.tuxels() == partial_rows(r, r.0.0 as int, r.0.1 + j),
                placed_upto_ok(v, self@, r, id, r.0.0 as int, r.0.1 + j),
                conflict_upto(v, r, j as int) is None,
            decreases r.1.1 - j,
        {
            let y = r.y() + j;
            let mut i: usize = 0;
            while i < r.width()
                invariant
                    self.wf(),
                    v.wf(),
                    extents_fit(r),
                    r.0.2 < CANVAS_DEPTH,
                    r.0.0 + r.1.0 <= v.width(),
                    r.0.1 + r.1.1 <= v.height(),
                    spec_containment_error(v.rectangle, Geometry::Rectangle(&r)) is None,
                    v == reclaimed(old(self)@),
                    buffer == id,
                    id == v.buffers.len(),
                    j < r.1.1,
                    y == r.0.1 + j,
                    i <= r.1.0,
                    inner.rectangle == r,
                    !inner.border,
                    inner.modifiers@.len() == 0,
                    inner.tuxels() == partial_rows(r, r.0.0 + i, y as int),
                    placed_upto_ok(v, self@, r, id, r.0.0 + i, y as int),
                    conflict_upto(v, r, j as int) is None,
                    row_conflict(v, r, y as int, i as int) is None,
                decreases r.1.0 - i,
            {
                let x = r.x() + i;
                let canvas_idx = Idx(x, y, r.0.2);
                let ghost before_cell = self@;
                proof {
                    self.lemma_grid_shape();
                    assert(self@.cells[y as int][x as int][r.0.2 as int] == v.cells[y as int][x as int][r.0.2 as int]);
                }
                let cell = match self.acquire_cell(&canvas_idx) {
                    Ok(c) => c,
                    Err(e) => {
                        proof {
                            assert(false);
                        }
                        return Err(e);
                    },
                };
                match cell {
                    Cell::Empty => {
                        let tuxel = Tuxel::new(Idx(x, y, r.0.2));
                        let ghost rows_before = inner.tuxels();
                        proof {
                            assert(inner.buf@.len() == rows_before.len());
                            assert(rows_before.len() == r.1.1);
                        }
                        inner.push_tuxel(tuxel);
                        let db = DBTuxel { buffer, canvas_idx, buf_idx: Idx(x - r.0.0, y - r.0.1, 0) };
                        let ghost mid = self@;
                        match self.replace_cell(&canvas_idx, Cell::DBTuxel(db)) {
                            Ok(()) => {},
                            Err(e) => {
                                proof {
                                    assert(false);
                                }
                                return Err(e);
                            },
                        }
                        proof {
                            assert(inner.tuxels()[j as int] =~= partial_rows(r, r.0.0 + i + 1, y as int)[j as int]);
                            assert(inner.tuxels() =~~= partial_rows(r, r.0.0 + i + 1, y as int));
                            assert(placed_upto_ok(v, self@, r, id, r.0.0 + i + 1, y as int));
                        }
                    },
                    Cell::DBTuxel(_) => {
                        let ghost cx = x as int;
                        let ghost cy = y as int;
                        proof {
                            assert(row_conflict(v, r, y as int, i + 1) == Some(cx));
                            lemma_first_conflict(v, r, j as int, i as int);
                        }
                        let ghost grid_now = self@;
                        let ghost partial = inner.tuxels();
                        proof {
                            assert(partial == partial_rows(r, cx, cy));
                            lemma_partial_rows_in_grid(r, cx, cy, grid_now);
                            lemma_drop_order_in_grid(grid_now, partial);
                        }
                        inner.drain_into(&mut self.changed, &mut self.released);
                        let ghost drained = self@;
                        self.buffers.push(None);
                        proof {
                            let w = self@;
                            let lost = drop_order(partial);
                            assert(w.buffers =~= v.buffers.push(None));
                            assert(w.cells =~= grid_now.cells);
                            assert(w.changed == v.changed + places_of(lost));
                            assert(w.released == v.released + lost);
                            assert(placed_cells(v.with_cell(Idx(cx as usize, cy as usize, r.0.2), Cell::Empty), w, r, id, cx, cy));
                            assert forall|k: int| 0 <= k < w.buffers.len() && #[trigger] w.buffers[k] is Some implies buffer_wf(w.buffers[k].unwrap(), w) by {
                                lemma_buffer_wf_rect(grid_now.buffers[k].unwrap(), grid_now, w);
                            }
                            assert forall|k: int| 0 <= k < w.released.len() implies #[trigger] w.in_grid(w.released[k].idx) by {
                                if k < v.released.len() {
                                    assert(grid_now.in_grid(grid_now.released[k].idx));
                                } else {
                                    assert(w.released[k] == lost[k - v.released.len()]);
                                }
                            }
                            assert forall|k: int| 0 <= k < w.changed.len() implies #[trigger] w.in_grid(w.changed[k]) by {
                                if k < v.changed.len() {
                                    assert(grid_now.in_grid(grid_now.changed[k]));
                                } else {
                                    assert(w.changed[k] == lost[k - v.changed.len()].idx);
                                }
                            }
                            assert(Canvas::wf(self));
                        }
                        return Err(TuiError::from(InnerError::CellAlreadyOwned));
                    },
                }
                i = i + 1;
            }
            proof {
                assert(inner.tuxels() =~= partial_rows(r, r.0.0 as int, y + 1));
                assert(placed_upto_ok(v, self@, r, id, r.0.0 as int, y + 1));
                assert(conflict_upto(v, r, j + 1) is None);
            }
            j = j + 1;
        }
        let ghost before_push = self@;
        let ghost fresh = inner@;
        proof {
            assert(inner.modifiers@ =~= Seq::<Modifier>::empty());
            assert(fresh == fresh_buffer(r));
        }
        self.buffers.push(Some(inner));
        proof {
            let w = self@;
            assert(w.buffers =~= before_push.buffers.push(Some(fresh_buffer(r))));
            assert(w.cells =~= before_push.cells);
            assert forall|k: int| 0 <= k < w.buffers.len() && #[trigger] w.buffers[k] is Some implies buffer_wf(w.buffers[k].unwrap(), w) by {
                if k < id {
                    lemma_buffer_wf_rect(before_push.buffers[k].unwrap(), before_push, w);
                } else {
                    lemma_fresh_buffer_wf(r, w);
                }
            }
            assert forall|k: int| 0 <= k < w.released.len() implies #[trigger] w.in_grid(w.released[k].idx) by {
                assert(before_push.in_grid(before_push.released[k].idx));
            }
            assert forall|k: int| 0 <= k < w.changed.len() implies #[trigger] w.in_grid(w.changed[k]) by {
                assert(before_push.in_grid(before_push.changed[k]));
            }
        }
        Ok(DrawBuffer { id: buffer })
    }

    /// A draw buffer covering the whole canvas on layer `z`; see `get_draw_buffer`.
    pub fn get_layer(&mut self, z: usize) -> (res: Result<DrawBuffer, TuiError>)
        requires
            old(self).wf(),
            z < CANVAS_DEPTH,
        ensures
            final(self).wf(),
            buffer_taken(old(self)@, Rectangle(Idx(0, 0, z), old(self)@.rectangle.1), final(self)@, res),
    {
        let r = Rectangle(Idx(0, 0, z), self.rectangle.1);
        self.get_draw_buffer(r)
    }

    /// The width and the height of the canvas.
    pub fn dimensions(&self) -> (r: (usize, usize))
        ensures
            r == (self.rectangle.1.0, self.rectangle.1.1),
    {
        (self.rectangle.1.0, self.rectangle.1.1)
    }

    /// The bounds of the canvas.
    pub fn bounds(&self) -> (r: Bounds2D)
        ensures
            r == self.rectangle.1,
    {
        self.rectangle.1
    }
}


/// Dropping a live buffer keeps the canvas well formed.
pub proof fn lemma_dropped_wf(v: CanvasView, id: int)
    requires
        v.wf(),
        0 <= id < v.buffers.len(),
        v.buffers[id] is Some,
    ensures
        dropped_view(v, id).wf(),
{
    let b = vbuf(v, id);
    let lost = drop_order(b.tuxels);
    let w = dropped_view(v, id);
    assert(buffer_wf(b, v));
    lemma_drop_order_in_grid(v, b.tuxels);
    assert forall|i: int| 0 <= i < w.released.len() implies #[trigger] w.in_grid(w.released[i].idx) by {
        if i < v.released.len() {
            assert(v.in_grid(v.released[i].idx));
        } else {
            assert(w.released[i] == lost[i - v.released.len()]);
        }
    }
    assert forall|i: int| 0 <= i < w.changed.len() implies #[trigger] w.in_grid(w.changed[i]) by {
        if i < v.changed.len() {
            assert(v.in_grid(v.changed[i]));
        } else {
            assert(w.changed[i] == places_of(lost)[i - v.changed.len()]);
        }
    }
    assert forall|i: int| 0 <= i < w.buffers.len() && #[trigger] w.buffers[i] is Some implies buffer_wf(w.buffers[i].unwrap(), w) by {
        assert(buffer_wf(v.buffers[i].unwrap(), v));
    }
}

/// Every tuxel of the rows is handed back when a buffer is released.
pub proof fn lemma_drop_order_covers(rows: Seq<Seq<Tuxel>>, j: int, k: int)
    requires
        0 <= j < rows.len(),
        0 <= k < rows[j].len(),
    ensures
        exists|i: int| 0 <= i < drop_order(rows).len() && (#[trigger] drop_order(rows)[i]).idx == rows[j][k].idx,
    decreases rows.len(),
{
    let init = rows.drop_last();
    let last = rows.last().reverse().map_values(|t: Tuxel| cleared(t));
    assert(drop_order(rows) == drop_order(init) + last);
    if j < rows.len() - 1 {
        assert(init[j] == rows[j]);
        lemma_drop_order_covers(init, j, k);
        let i = choose|i: int| 0 <= i < drop_order(init).len() && (#[trigger] drop_order(init)[i]).idx == init[j][k].idx;
        assert(drop_order(rows)[i] == drop_order(init)[i]);
    } else {
        let i = drop_order(init).len() + (rows[j].len() - 1 - k);
        assert(drop_order(rows)[i] == last[rows[j].len() - 1 - k]);
    }
}

/// Reclaiming the first `n` released tuxels leaves their cells empty.
pub proof fn lemma_reclaim_empties(v: CanvasView, n: int)
    requires
        v.wf(),
        0 <= n <= v.released.len(),
    ensures
        forall|k: int| 0 <= k < n ==> {
            let idx = (#[trigger] v.released[k]).idx;
            reclaim_upto(v, n).cell(idx.0 as int, idx.1 as int, idx.2 as int) is Empty
        },
    decreases n,
{
    if n > 0 {
        lemma_reclaim_empties(v, n - 1);
        lemma_reclaim_upto(v, n - 1);
        let p = reclaim_upto(v, n - 1);
        let last = v.released[n - 1].idx;
        assert(v.in_grid(last));
        assert forall|k: int| 0 <= k < n implies {
            let idx = (#[trigger] v.released[k]).idx;
            reclaim_upto(v, n).cell(idx.0 as int, idx.1 as int, idx.2 as int) is Empty
        } by {
            let idx = v.released[k].idx;
            assert(v.in_grid(idx));
            assert(p.cells[idx.1 as int].len() == p.width());
            assert(p.cells[last.1 as int].len() == p.width());
            assert(p.cells[idx.1 as int][idx.0 as int].len() == CANVAS_DEPTH);
            assert(p.cells[last.1 as int][last.0 as int].len() == CANVAS_DEPTH);
        }
    }
}

/// Releasing a draw buffer leaves every cell on which the buffer stood empty at once, and a
/// later reclaim changes nothing more.
pub proof fn law_release_empties(v: CanvasView, id: int)
    requires
        v.wf(),
        0 <= id < v.buffers.len(),
        v.buffers[id] is Some,
    ensures
        forall|y: int, x: int| 0 <= y < vbuf(v, id).tuxels.len() && 0 <= x < vbuf(v, id).tuxels[y].len() ==> {
            let idx = (#[trigger] vbuf(v, id).tuxels[y][x]).idx;
            released_view(v, id).cell(idx.0 as int, idx.1 as int, idx.2 as int) is Empty
        },
        reclaimed(released_view(v, id)) == released_view(v, id),
{
    let w = dropped_view(v, id);
    let rows = vbuf(v, id).tuxels;
    lemma_dropped_wf(v, id);
    lemma_reclaim_empties(w, w.released.len() as int);
    assert forall|y: int, x: int| 0 <= y < rows.len() && 0 <= x < rows[y].len() implies {
        let idx = (#[trigger] vbuf(v, id).tuxels[y][x]).idx;
        released_view(v, id).cell(idx.0 as int, idx.1 as int, idx.2 as int) is Empty
    } by {
        lemma_drop_order_covers(rows, y, x);
        let i = choose|i: int| 0 <= i < drop_order(rows).len() && (#[trigger] drop_order(rows)[i]).idx == rows[y][x].idx;
        let k = v.released.len() + i;
        assert(w.released[k] == drop_order(rows)[i]);
    }
    let u = released_view(v, id);
    assert(u.released.len() == 0);
    assert(reclaim_upto(u, 0) == u);
    assert(u.released =~= Seq::<Tuxel>::empty());
}

/// A released draw buffer shows nothing: no cell that refers to it shows a tuxel.
pub proof fn law_released_buffer_shows_nothing(v: CanvasView, id: int, d: DBTuxel)
    requires
        0 <= id < v.buffers.len(),
        d.buffer == id,
    ensures
        !cell_shows(released_view(v, id), Cell::DBTuxel(d)),
{
    let w = dropped_view(v, id);
    lemma_reclaim_frame(w, w.released.len() as int);
}


/// The places of the first `n` rows of rectangle `r`, row by row, each from the left.
pub open spec fn rows_places(r: Rectangle, n: int) -> Seq<Idx>
    decreases n,
{
    if n <= 0 {
        Seq::empty()
    } else {
        rows_places(r, n - 1) + Seq::new(r.1.0 as nat, |i: int| Idx((r.0.0 + i) as usize, (r.0.1 + n - 1) as usize, r.0.2))
    }
}

/// The places of the tuxels of a new buffer, block by block, are those of its rectangle.
proof fn lemma_fresh_block_places(r: Rectangle, n: int)
    requires
        0 <= n <= r.1.1,
    ensures
        block_places(fresh_buffer(r).tuxels, 0, r.1.0 as int, 0, n) == rows_places(r, n),
    decreases n,
{
    if n > 0 {
        lemma_fresh_block_places(r, n - 1);
        let t = fresh_buffer(r).tuxels;
        assert(run_places(t, n - 1, 0, r.1.0 as int) =~= Seq::new(r.1.0 as nat, |i: int| Idx((r.0.0 + i) as usize, (r.0.1 + n - 1) as usize, r.0.2)));
    }
}

/// Each change is reported once: once the changes were taken (see `Canvas::get_changed`),
/// taking a buffer from a canvas with nothing to reclaim reports nothing, and filling that
/// buffer then reports exactly the places of its rectangle, row by row.
pub proof fn law_changes_reported_once(v: CanvasView, r: Rectangle, w: CanvasView, db: DrawBuffer, u: CanvasView, c: char)
    requires
        v.changed.len() == 0,
        v.released.len() == 0,
        buffer_taken(v, r, w, Ok::<DrawBuffer, TuiError>(db)),
        only_buffer_changed(w, u, db.id as int),
        fill_post(vbuf(w, db.id as int), vbuf(u, db.id as int), w.changed, u.changed, c),
    ensures
        w.changed.len() == 0,
        u.changed == rows_places(r, r.1.1 as int),
{
    assert(reclaim_upto(v, 0) == v);
    lemma_fresh_block_places(r, r.1.1 as int);
    assert(w.changed =~= Seq::<Idx>::empty());
    assert(u.changed =~= rows_places(r, r.1.1 as int));
}

/// Whether nothing stands on the canvas and nothing waits to be reclaimed.
pub open spec fn canvas_blank(v: CanvasView) -> bool {
    &&& v.released.len() == 0
    &&& forall|x: int, y: int, z: int|
        0 <= x < v.width() && 0 <= y < v.height() && 0 <= z < CANVAS_DEPTH ==> #[trigger] v.cell(x, y, z) is Empty
}

/// Whether the cells of rectangle `r`, on its layer, are empty.
pub open spec fn rect_empty(v: CanvasView, r: Rectangle) -> bool {
    forall|x: int, y: int| in_rect(r, x, y) ==> #[trigger] v.cell(x, y, r.0.2 as int) is Empty
}

/// Whether `w` holds the cells of `v` everywhere but in rectangle `r`, on its layer.
pub open spec fn cells_kept_outside(v: CanvasView, w: CanvasView, r: Rectangle) -> bool {
    forall|x: int, y: int, z: int|
        0 <= x < v.width() && 0 <= y < v.height() && 0 <= z < CANVAS_DEPTH && !(z == r.0.2 && in_rect(r, x, y))
            ==> #[trigger] w.cell(x, y, z) == v.cell(x, y, z)
}

/// A row whose cells in `r` are empty has no filled place among its first `n` columns.
pub proof fn lemma_row_free(v: CanvasView, r: Rectangle, y: int, n: int)
    requires
        rect_empty(v, r),
        r.0.1 <= y < r.0.1 + r.1.1,
        0 <= n <= r.1.0,
    ensures
        row_conflict(v, r, y, n) is None,
    decreases n,
{
    if n > 0 {
        lemma_row_free(v, r, y, n - 1);
        assert(in_rect(r, r.0.0 + n - 1, y));
    }
}

/// A rectangle whose cells are empty has no filled place among its first `m` rows.
pub proof fn lemma_rect_free(v: CanvasView, r: Rectangle, m: int)
    requires
        rect_empty(v, r),
        0 <= m <= r.1.1,
    ensures
        conflict_upto(v, r, m) is None,
    decreases m,
{
    if m > 0 {
        lemma_rect_free(v, r, m - 1);
        lemma_row_free(v, r, r.0.1 + m - 1, r.1.0 as int);
    }
}

/// Taking a buffer over empty cells of a canvas with nothing to reclaim succeeds when the
/// rectangle lies on the canvas, fills only the cells of the rectangle, and leaves nothing to
/// reclaim.
pub proof fn lemma_taken_over_empty(v: CanvasView, r: Rectangle, w: CanvasView, res: Result<DrawBuffer, TuiError>)
    requires
        v.wf(),
        v.released.len() == 0,
        rect_empty(v, r),
        spec_containment_error(v.rectangle, Geometry::Rectangle(&r)) is None,
        buffer_taken(v, r, w, res),
    ensures
        res is Ok,
        w.released.len() == 0,
        w.rectangle == v.rectangle,
        cells_kept_outside(v, w, r),
{
    assert(v.released =~= Seq::<Tuxel>::empty());
    assert(reclaimed(v) == v);
    lemma_rect_free(v, r, r.1.1 as int);
    assert forall|x: int, y: int, z: int|
        0 <= x < v.width() && 0 <= y < v.height() && 0 <= z < CANVAS_DEPTH && !(z == r.0.2 && in_rect(r, x, y))
            implies #[trigger] w.cell(x, y, z) == v.cell(x, y, z) by {
        assert(v.cells[y].len() == v.width());
        assert(v.cells[y][x].len() == CANVAS_DEPTH);
    }
}

/// The cells of a rectangle stay empty when only cells of another layer, or of a rectangle
/// apart from it, change.
pub proof fn lemma_rect_empty_kept(v: CanvasView, w: CanvasView, r: Rectangle, r2: Rectangle)
    requires
        cells_kept_outside(v, w, r),
        rect_empty(v, r2),
        r2.0.0 + r2.1.0 <= v.width(),
        r2.0.1 + r2.1.1 <= v.height(),
        r2.0.2 < CANVAS_DEPTH,
        r2.0.2 != r.0.2 || r2.0.0 + r2.1.0 <= r.0.0 || r.0.0 + r.1.0 <= r2.0.0 || r2.0.1 + r2.1.1 <= r.0.1 || r.0.1 + r.1.1 <= r2.0.1,
    ensures
        rect_empty(w, r2),
{
    assert forall|x: int, y: int| in_rect(r2, x, y) implies #[trigger] w.cell(x, y, r2.0.2 as int) is Empty by {
        assert(v.cell(x, y, r2.0.2 as int) is Empty);
    }
}

} // verus!
