use vstd::prelude::*;
use vstd::string::StringSliceAdditionalSpecFns;

use crate::engine::board::Board;
use crate::engine::round::{AnimationHint, Hint, Idx as BoardIdx};
use crate::error::Error;
use crate::tui::canvas::{
    canvas_blank, lemma_rect_empty_kept, lemma_taken_over_empty, only_buffer_changed, rect_empty, vbuf, Canvas,
    CanvasView, DrawBuffer, Modifier,
};
use crate::tui::drawbuffer::{
    border_post, err_of, fill_post, lemma_center_fits, write_center_post, write_right_post,
    BufferView,
};
use crate::tui::geometry::{Bounds2D, Direction, Idx, Rectangle};
use crate::tui::error::{InnerError, TuiError};

verus! {

pub const BOARD_FIXED_Y_OFFSET: usize = 5;

pub const BOARD_FIXED_X_OFFSET: usize = 5;

pub const BOARD_BORDER_WIDTH: usize = 1;

pub const BOARD_X_PADDING: usize = 2;

pub const BOARD_Y_PADDING: usize = 1;

pub const TILE_HEIGHT: usize = 5;

pub const TILE_WIDTH: usize = 6;

pub const BOARD_LAYER_IDX: usize = 2;

pub const LOWER_ANIMATION_LAYER_IDX: usize = 3;

pub const TILE_LAYER_IDX: usize = 4;

pub const UPPER_ANIMATION_LAYER_IDX: usize = 5;

/// The decimal digit `d`.
pub open spec fn digit_char(d: nat) -> char {
    (48 + d) as char
}

/// The decimal digits of `n`, the most significant first.
pub open spec fn decimal_chars(n: nat) -> Seq<char>
    decreases n,
{
    if n < 10 {
        seq![digit_char(n)]
    } else {
        decimal_chars(n / 10).push(digit_char(n % 10))
    }
}

/// The decimal digit `d` as a string.
fn digit_str(d: usize) -> (s: &'static str)
    requires
        d < 10,
    ensures
        s@ == seq![digit_char(d as nat)],
{
    match d {
        0 => {
            proof {
                reveal_strlit("0");
            }
            "0"
        },
        1 => {
            proof {
                reveal_strlit("1");
            }
            "1"
        },
        2 => {
            proof {
                reveal_strlit("2");
            }
            "2"
        },
        3 => {
            proof {
                reveal_strlit("3");
            }
            "3"
        },
        4 => {
            proof {
                reveal_strlit("4");
            }
            "4"
        },
        5 => {
            proof {
                reveal_strlit("5");
            }
            "5"
        },
        6 => {
            proof {
                reveal_strlit("6");
            }
            "6"
        },
        7 => {
            proof {
                reveal_strlit("7");
            }
            "7"
        },
        8 => {
            proof {
                reveal_strlit("8");
            }
            "8"
        },
        _ => {
            proof {
                reveal_strlit("9");
            }
            "9"
        },
    }
}

/// The decimal digits of `n`, the most significant first, as `format!("{}", n)` writes them.
pub(crate) fn decimal_usize(n: usize) -> (s: String)
    ensures
        s@ == decimal_chars(n as nat),
    decreases n,
{
    if n < 10 {
        String::from_str(digit_str(n))
    } else {
        let mut s = decimal_usize(n / 10);
        s.append(digit_str(n % 10));
        s
    }
}

/// The decimal digits of `value`, the most significant first.
fn decimal(value: u16) -> (s: String)
    ensures
        s@ == decimal_chars(value as nat),
{
    decimal_usize(value as usize)
}

/// The colors of a tile's buffer for each tile value: its background and its foreground.
pub struct Colors {
    pub card_colors: Vec<(u16, Modifier, Modifier)>,
}

/// The colors of a tile of `value`: those of the first entry for it, or a white background and
/// a dark red foreground.
pub open spec fn colors_for(entries: Seq<(u16, Modifier, Modifier)>, value: u16) -> (Modifier, Modifier)
    decreases entries.len(),
{
    if entries.len() == 0 {
        (Modifier::SetBackgroundColor(255, 255, 255), Modifier::SetForegroundColor(90, 0, 0))
    } else if entries[0].0 == value {
        (entries[0].1, entries[0].2)
    } else {
        colors_for(entries.drop_first(), value)
    }
}

/// The background and foreground colors of a tile of `value`.
pub fn colors_from_value(value: u16, colors: &Colors) -> (r: (Modifier, Modifier))
    ensures
        r == colors_for(colors.card_colors@, value),
{
    let mut i: usize = 0;
    proof {
        assert(colors.card_colors@.subrange(0, colors.card_colors@.len() as int) =~= colors.card_colors@);
    }
    while i < colors.card_colors.len()
        invariant
            i <= colors.card_colors@.len(),
            colors_for(colors.card_colors@, value) == colors_for(colors.card_colors@.subrange(i as int, colors.card_colors@.len() as int), value),
        decreases colors.card_colors@.len() - i,
    {
        let entry = colors.card_colors[i];
        if entry.0 == value {
            return (entry.1, entry.2);
        }
        proof {
            let rest = colors.card_colors@.subrange(i as int, colors.card_colors@.len() as int);
            assert(rest.drop_first() =~= colors.card_colors@.subrange(i + 1, colors.card_colors@.len() as int));
        }
        i = i + 1;
    }
    proof {
        assert(colors.card_colors@.subrange(i as int, colors.card_colors@.len() as int).len() == 0);
    }
    (Modifier::SetBackgroundColor(255, 255, 255), Modifier::SetForegroundColor(90, 0, 0))
}

/// The error of the interface for an error of the text user interface.
fn tui_error(e: TuiError) -> (r: Error)
    ensures
        r == (Error::TuiError { source: e }),
{
    Error::from(e)
}

/// Whether `w` is `v` with `m` added to the modifiers of draw buffer `id`.
pub open spec fn modifier_added(v: CanvasView, w: CanvasView, id: int, m: Modifier) -> bool {
    &&& only_buffer_changed(v, w, id)
    &&& w.changed == v.changed
    &&& vbuf(w, id) == (BufferView { modifiers: vbuf(v, id).modifiers.push(m), ..vbuf(v, id) })
}

/// The steps of drawing a tile of `value` on draw buffer `id`, through the canvases `v1` to `v5`:
/// its background and foreground colors, its border, blanks inside, and its value centered.
pub open spec fn tile_drawn_via(
    v: CanvasView,
    v1: CanvasView,
    v2: CanvasView,
    v3: CanvasView,
    v4: CanvasView,
    w: CanvasView,
    id: int,
    value: u16,
    colors: (Modifier, Modifier),
) -> bool {
    let text = decimal_chars(value as nat);
    &&& modifier_added(v, v1, id, colors.0)
    &&& modifier_added(v1, v2, id, colors.1)
    &&& only_buffer_changed(v2, v3, id) && border_post(vbuf(v2, id), vbuf(v3, id), v2.changed, v3.changed, Ok(()))
    &&& only_buffer_changed(v3, v4, id) && fill_post(vbuf(v3, id), vbuf(v4, id), v3.changed, v4.changed, ' ')
    &&& only_buffer_changed(v4, w, id) && write_center_post(vbuf(v4, id), vbuf(w, id), v4.changed, w.changed, text, vstd::utf8::encode_utf8(text).len() as int, Ok(()))
}

/// Whether `w` is `v` after drawing a tile of `value` on draw buffer `id`.
pub open spec fn tile_drawn(
    v: CanvasView,
    w: CanvasView,
    id: int,
    value: u16,
    colors: Seq<(u16, Modifier, Modifier)>,
) -> bool {
    exists|v1, v2, v3, v4| #[trigger] tile_drawn_via(v, v1, v2, v3, v4, w, id, value, colors_for(colors, value))
}

/// The steps of drawing a score of `value` on draw buffer `id`, through the canvases `v1` to
/// `v7`: its border, blanks inside, the value against the right edge, and its colors.
pub open spec fn score_drawn_via(
    v: CanvasView,
    v1: CanvasView,
    v2: CanvasView,
    v3: CanvasView,
    v4: CanvasView,
    v5: CanvasView,
    v6: CanvasView,
    w: CanvasView,
    id: int,
    value: u16,
) -> bool {
    &&& only_buffer_changed(v, v1, id) && border_post(vbuf(v, id), vbuf(v1, id), v.changed, v1.changed, Ok(()))
    &&& only_buffer_changed(v1, v2, id) && fill_post(vbuf(v1, id), vbuf(v2, id), v1.changed, v2.changed, ' ')
    &&& only_buffer_changed(v2, v3, id) && write_right_post(vbuf(v2, id), vbuf(v3, id), v2.changed, v3.changed, decimal_chars(value as nat), Ok(()))
    &&& modifier_added(v3, v4, id, Modifier::SetBackgroundColor(75, 50, 25))
    &&& modifier_added(v4, v5, id, Modifier::SetForegroundColor(0, 0, 0))
    &&& modifier_added(v5, v6, id, Modifier::SetFGLightness(200))
    &&& modifier_added(v6, w, id, Modifier::SetBGLightness(800))
}

/// Whether `w` is `v` after drawing a score of `value` on draw buffer `id`.
pub open spec fn score_drawn(v: CanvasView, w: CanvasView, id: int, value: u16) -> bool {
    exists|v1, v2, v3, v4, v5, v6| #[trigger] score_drawn_via(v, v1, v2, v3, v4, v5, v6, w, id, value)
}

/// A power of ten.
pub open spec fn pow10(k: nat) -> nat
    decreases k,
{
    if k == 0 {
        1
    } else {
        10 * pow10((k - 1) as nat)
    }
}

/// A number below `10^k` has at most `k` digits.
pub proof fn lemma_decimal_len(n: nat, k: nat)
    requires
        k >= 1,
        n < pow10(k),
    ensures
        decimal_chars(n).len() <= k,
    decreases k,
{
    if n >= 10 {
        assert(k >= 2) by {
            if k == 1 {
                assert(pow10(0) == 1);
                assert(pow10(1) == 10);
            }
        }
        assert(n / 10 < pow10((k - 1) as nat));
        lemma_decimal_len(n / 10, (k - 1) as nat);
    }
}

/// Draws a score of `value` on `dbuf`: its border, blanks inside, the value against the right
/// edge, and its colors (a light brown background and a dark foreground).
pub fn draw_score(dbuf: &DrawBuffer, canvas: &mut Canvas, value: u16) -> (r: Result<(), Error>)
    requires
        old(canvas).wf(),
        old(canvas).live(dbuf.id as int) ==> old(canvas).buf(dbuf.id as int).rectangle.1.0 >= 6
            && old(canvas).buf(dbuf.id as int).rectangle.1.1 >= 2,
    ensures
        r is Ok,
        final(canvas).wf(),
        old(canvas).live(dbuf.id as int) ==> final(canvas).live(dbuf.id as int)
            && score_drawn(old(canvas)@, final(canvas)@, dbuf.id as int, value),
        !old(canvas).live(dbuf.id as int) ==> final(canvas)@ == old(canvas)@,
{
    if !canvas.is_live(dbuf.id) {
        return Ok(());
    }
    let ghost v = canvas@;
    match dbuf.draw_border(canvas) {
        Ok(()) => {},
        Err(e) => {
            return Err(tui_error(e));
        },
    }
    let ghost v1 = canvas@;
    match dbuf.fill(canvas, ' ') {
        Ok(()) => {},
        Err(e) => {
            return Err(tui_error(e));
        },
    }
    let ghost v2 = canvas@;
    let text = decimal(value);
    proof {
        reveal_with_fuel(pow10, 6);
        assert(pow10(5) == 100000);
        lemma_decimal_len(value as nat, 5);
    }
    match dbuf.write_right(canvas, text.as_str()) {
        Ok(()) => {},
        Err(e) => {
            return Err(tui_error(e));
        },
    }
    let ghost v3 = canvas@;
    dbuf.modify(canvas, Modifier::SetBackgroundColor(75, 50, 25));
    let ghost v4 = canvas@;
    dbuf.modify(canvas, Modifier::SetForegroundColor(0, 0, 0));
    let ghost v5 = canvas@;
    dbuf.modify(canvas, Modifier::SetFGLightness(200));
    let ghost v6 = canvas@;
    dbuf.modify(canvas, Modifier::SetBGLightness(800));
    proof {
        assert(score_drawn_via(v, v1, v2, v3, v4, v5, v6, canvas@, dbuf.id as int, value));
    }
    Ok(())
}

/// A tile: its value, its place on the board and the draw buffer that shows it.
pub struct Tile {
    pub value: u16,
    pub idx: BoardIdx,
    pub buf: DrawBuffer,
}

/// A tile moving towards `to_rectangle`; once there it takes `new_value`, if any.
pub struct SlidingTile {
    pub inner: Tile,
    pub to_rectangle: Rectangle,
    pub is_animating: bool,
    pub new_value: Option<u16>,
}

/// What bringing the tile of slot `this` to rest (see `Slot::to_static`) does, from canvas `v`
/// to `w` with result `r`.
pub open spec fn to_static_post(
    this: Slot,
    v: CanvasView,
    colors: Seq<(u16, Modifier, Modifier)>,
    w: CanvasView,
    r: Result<Slot, Error>,
) -> bool {
    match this {
        Slot::Empty => (r matches Err(Error::CannotConvertToStatic)) && w == v,
        Slot::Static(t) => r == Ok::<Slot, Error>(this) && w == v,
        Slot::Sliding(st) => {
            let id = st.inner.buf.id as int;
            if !switchable(v, id) {
                r == Err::<Slot, Error>(unswitchable_error(v, id)) && w == v
            } else if !is_live(v, id) {
                w == v && r == Ok::<Slot, Error>(Slot::Static(st.inner))
            } else {
                let (u, res) = crate::tui::canvas::switch_layer_result(v, id, vbuf(v, id), TILE_LAYER_IDX);
                match res {
                    Err(e) => r == Err::<Slot, Error>(Error::TuiError { source: TuiError { inner: e } })
                        && w == crate::tui::canvas::released_view(u, id),
                    Ok(()) => if !drawable(u, id) {
                        r == Err::<Slot, Error>(undrawable_error(u, id)) && w == u
                    } else {
                        r == Ok::<Slot, Error>(Slot::Static(st.inner)) && tile_drawn(u, w, id, st.inner.value, colors)
                    },
                }
            }
        },
    }
}

/// A place of the board: empty, holding a tile, or holding a moving tile.
pub enum Slot {
    Empty,
    Static(Tile),
    Sliding(SlidingTile),
}

/// The rectangle of draw buffer `id`, or an empty one at the origin when it is not live.
pub open spec fn rect_of(v: CanvasView, id: int) -> Rectangle {
    if 0 <= id < v.buffers.len() && v.buffers[id] is Some {
        vbuf(v, id).rectangle
    } else {
        Rectangle(Idx(0, 0, 0), Bounds2D(0, 0))
    }
}

/// Whether draw buffer `id` of a canvas is live.
pub open spec fn is_live(v: CanvasView, id: int) -> bool {
    0 <= id < v.buffers.len() && v.buffers[id] is Some
}

/// The step that brings a tile at column `x` and row `y` closer to column `tx` and row `ty`: along
/// the larger distance, and vertically when both are equal; none when it is there.
pub open spec fn slide_direction(x: int, y: int, tx: int, ty: int) -> Option<Direction> {
    let dx = x - tx;
    let dy = y - ty;
    let adx = if dx < 0 { -dx } else { dx };
    let ady = if dy < 0 { -dy } else { dy };
    if dx == 0 && dy == 0 {
        None
    } else if dx != 0 && dy != 0 && adx > ady {
        if dx > 0 { Some(Direction::Left) } else { Some(Direction::Right) }
    } else if dx != 0 && dy == 0 {
        if dx > 0 { Some(Direction::Left) } else { Some(Direction::Right) }
    } else if dy > 0 {
        Some(Direction::Up)
    } else {
        Some(Direction::Down)
    }
}

impl Tile {
    pub fn new(value: u16, idx: BoardIdx, buf: DrawBuffer) -> (t: Tile)
        ensures
            t == (Tile { value, idx, buf }),
    {
        Tile { value, idx, buf }
    }

    /// Draws the tile with its value; see `draw_tile`.
    pub fn draw(&self, canvas: &mut Canvas, colors: &Colors) -> (r: Result<(), Error>)
        requires
            old(canvas).wf(),
            old(canvas).live(self.buf.id as int) ==> old(canvas).buf(self.buf.id as int).rectangle.1.0 >= 2
                && old(canvas).buf(self.buf.id as int).rectangle.1.1 >= 2,
        ensures
            r is Ok,
            final(canvas).wf(),
            old(canvas).live(self.buf.id as int) ==> final(canvas).live(self.buf.id as int)
                && tile_drawn(old(canvas)@, final(canvas)@, self.buf.id as int, self.value, colors.card_colors@),
            !old(canvas).live(self.buf.id as int) ==> final(canvas)@ == old(canvas)@,
    {
        draw_tile(&self.buf, canvas, self.value, colors)
    }

    pub fn value(&self) -> (r: u16)
        ensures
            r == self.value,
    {
        self.value
    }

    pub fn board_index(&self) -> (r: BoardIdx)
        ensures
            r == self.idx,
    {
        self.idx
    }

    /// The rectangle of the tile's draw buffer.
    pub fn rectangle(&self, canvas: &Canvas) -> (r: Rectangle)
        ensures
            r == rect_of(canvas@, self.buf.id as int),
    {
        self.buf.rectangle(canvas)
    }
}

/// One frame of a moving tile, from `st0` on canvas `v` to `st1` on canvas `w` with result `r`:
/// a tile that stopped moving stays; one at its target stops moving and takes its new value,
/// if any; any other moves its buffer one step towards the target (see `slide_direction`).
pub open spec fn sliding_animated(st0: SlidingTile, v: CanvasView, st1: SlidingTile, w: CanvasView, r: Result<bool, Error>) -> bool {
    let st = st0;
    let id = st.inner.buf.id as int;
    let rect = rect_of(v, id);
    let to = st.to_rectangle;
    if !st.is_animating {
        r == Ok::<bool, Error>(false) && st1 == st && w == v
    } else if rect.0.0 == to.0.0 && rect.0.1 == to.0.1 {
        &&& r == Ok::<bool, Error>(false)
        &&& w == v
        &&& st1 == (SlidingTile {
            is_animating: false,
            inner: Tile {
                value: match st.new_value {
                    Some(nv) => nv,
                    None => st.inner.value,
                },
                ..st.inner
            },
            ..st
        })
    } else {
        &&& st1 == st
        &&& match slide_direction(rect.0.0 as int, rect.0.1 as int, to.0.0 as int, to.0.1 as int) {
            None => r == Ok::<bool, Error>(true) && w == v,
            Some(d) => if is_live(v, id) {
                let (moved, res) = crate::tui::canvas::translate_result(v, id, vbuf(v, id), d);
                &&& w == moved
                &&& match res {
                    Ok(()) => r == Ok::<bool, Error>(true),
                    Err(_) => r matches Err(Error::TuiError { source }) && crate::tui::canvas::translate_err_matches(Err(source), res),
                }
            } else {
                r == Ok::<bool, Error>(true) && w == v
            },
        }
    }
}

/// A moving tile stops moving only where its buffer has reached its target, and the frame in
/// which it stops leaves the canvas as it was.
pub proof fn law_tile_stops_at_its_target(st0: SlidingTile, v: CanvasView, st1: SlidingTile, w: CanvasView, r: Result<bool, Error>)
    requires
        sliding_animated(st0, v, st1, w, r),
        st0.is_animating,
        !st1.is_animating,
    ensures
        rect_of(w, st1.inner.buf.id as int).0.0 == st1.to_rectangle.0.0,
        rect_of(w, st1.inner.buf.id as int).0.1 == st1.to_rectangle.0.1,
        w == v,
        r == Ok::<bool, Error>(false),
{
}

/// How many one-step moves separate the buffer of a moving tile, on canvas `v`, from its
/// target: the distance along the columns plus the distance along the rows.
pub open spec fn slide_distance(v: CanvasView, st: SlidingTile) -> int {
    let rect = rect_of(v, st.inner.buf.id as int);
    let dx = rect.0.0 - st.to_rectangle.0.0;
    let dy = rect.0.1 - st.to_rectangle.0.1;
    (if dx < 0 { -dx } else { dx }) + (if dy < 0 { -dy } else { dy })
}

/// A frame of a moving tile whose buffer is live and whose move succeeds: away from its target,
/// the tile keeps moving and its buffer comes one step closer; at its target, it stops.
pub proof fn law_frame_brings_tile_closer(st0: SlidingTile, v: CanvasView, st1: SlidingTile, w: CanvasView, r: Result<bool, Error>)
    requires
        sliding_animated(st0, v, st1, w, r),
        st0.is_animating,
        is_live(v, st0.inner.buf.id as int),
        r is Ok,
    ensures
        slide_distance(v, st0) > 0 ==> r == Ok::<bool, Error>(true) && st1 == st0 && is_live(w, st1.inner.buf.id as int)
            && slide_distance(w, st1) == slide_distance(v, st0) - 1,
        slide_distance(v, st0) == 0 ==> r == Ok::<bool, Error>(false) && !st1.is_animating && w == v
            && st1.inner.buf == st0.inner.buf && st1.to_rectangle == st0.to_rectangle,
{
    let id = st0.inner.buf.id as int;
    let rect = rect_of(v, id);
    let to = st0.to_rectangle;
    if slide_distance(v, st0) > 0 {
        let d = slide_direction(rect.0.0 as int, rect.0.1 as int, to.0.0 as int, to.0.1 as int)->0;
        crate::tui::canvas::lemma_translate_rect(v, id, d);
    }
}

/// A frame of a moving tile whose buffer is live succeeds when the buffer's layer holds no
/// tuxel of another buffer and each of its tuxels can take the frame's step on the grid (see
/// `crate::tui::canvas::law_translate_succeeds`).
pub proof fn law_frame_succeeds_on_the_canvas(st0: SlidingTile, v: CanvasView, st1: SlidingTile, w: CanvasView, r: Result<bool, Error>)
    requires
        sliding_animated(st0, v, st1, w, r),
        v.wf(),
        is_live(v, st0.inner.buf.id as int),
        crate::tui::canvas::layer_clean(v, st0.inner.buf.id as int, vbuf(v, st0.inner.buf.id as int).rectangle.0.2 as int),
        slide_direction(rect_of(v, st0.inner.buf.id as int).0.0 as int, rect_of(v, st0.inner.buf.id as int).0.1 as int,
            st0.to_rectangle.0.0 as int, st0.to_rectangle.0.1 as int) matches Some(d) ==> forall|y: int, x: int|
            0 <= y < vbuf(v, st0.inner.buf.id as int).tuxels.len() && 0 <= x < vbuf(v, st0.inner.buf.id as int).tuxels[y].len()
            ==> crate::tui::canvas::step_on_grid(v, (#[trigger] vbuf(v, st0.inner.buf.id as int).tuxels[y][x]).idx, d,
                vbuf(v, st0.inner.buf.id as int).rectangle.0.2 as int),
    ensures
        r is Ok,
{
    let id = st0.inner.buf.id as int;
    let rect = rect_of(v, id);
    let to = st0.to_rectangle;
    if st0.is_animating && !(rect.0.0 == to.0.0 && rect.0.1 == to.0.1) {
        match slide_direction(rect.0.0 as int, rect.0.1 as int, to.0.0 as int, to.0.1 as int) {
            Some(d) => {
                crate::tui::canvas::law_translate_succeeds(v, id, d);
            },
            None => {},
        }
    }
}

/// Whether frame `k` of a moving tile, between the frames of `sts` on the canvases `vs`, is as
/// the count of frames says: while `k` frames have not reached the distance `d`, the tile still
/// moves, `d - k` steps away; afterwards it has stopped.
pub open spec fn frame_counted(sts: Seq<SlidingTile>, vs: Seq<CanvasView>, k: int, d: int) -> bool {
    if k <= d {
        &&& sts[k].is_animating
        &&& sts[k].inner.buf == sts[0].inner.buf
        &&& sts[k].to_rectangle == sts[0].to_rectangle
        &&& is_live(vs[k], sts[0].inner.buf.id as int)
        &&& slide_distance(vs[k], sts[k]) == d - k
    } else {
        !sts[k].is_animating
    }
}

/// Frames of a moving tile, each succeeding, from a live buffer `d` steps from its target (see
/// `slide_distance`): the first `d` frames return `true`, every later one `false`, and from
/// frame `d` on the tile has stopped.
pub proof fn law_frames_until_arrival(sts: Seq<SlidingTile>, vs: Seq<CanvasView>, rs: Seq<Result<bool, Error>>, n: int)
    requires
        0 <= n,
        sts.len() == n + 1,
        vs.len() == n + 1,
        rs.len() == n,
        sts[0].is_animating,
        is_live(vs[0], sts[0].inner.buf.id as int),
        forall|k: int| 0 <= k < n ==> #[trigger] sliding_animated(sts[k], vs[k], sts[k + 1], vs[k + 1], rs[k]),
        forall|k: int| 0 <= k < n ==> (#[trigger] rs[k]) is Ok,
    ensures
        forall|k: int| 0 <= k < n ==> #[trigger] rs[k] == Ok::<bool, Error>(k < slide_distance(vs[0], sts[0])),
        forall|k: int| 0 <= k <= n ==> #[trigger] frame_counted(sts, vs, k, slide_distance(vs[0], sts[0])),
    decreases n,
{
    let d = slide_distance(vs[0], sts[0]);
    if n > 0 {
        let sts1 = sts.drop_last();
        let vs1 = vs.drop_last();
        let rs1 = rs.drop_last();
        assert forall|k: int| 0 <= k < n - 1 implies #[trigger] sliding_animated(sts1[k], vs1[k], sts1[k + 1], vs1[k + 1], rs1[k]) by {
            assert(sliding_animated(sts[k], vs[k], sts[k + 1], vs[k + 1], rs[k]));
        }
        assert forall|k: int| 0 <= k < n - 1 implies (#[trigger] rs1[k]) is Ok by {
            assert(rs[k] is Ok);
        }
        assert(vs1[0] == vs[0]);
        assert(sts1[0] == sts[0]);
        law_frames_until_arrival(sts1, vs1, rs1, n - 1);
        assert forall|k: int| 0 <= k <= n - 1 implies #[trigger] frame_counted(sts, vs, k, d) by {
            assert(frame_counted(sts1, vs1, k, d));
            assert(sts1[k] == sts[k]);
            assert(vs1[k] == vs[k]);
        }
        let k = n - 1;
        assert(frame_counted(sts, vs, k, d));
        assert(sliding_animated(sts[k], vs[k], sts[k + 1], vs[k + 1], rs[k]));
        assert(rs[k] is Ok);
        if k <= d {
            law_frame_brings_tile_closer(sts[k], vs[k], sts[k + 1], vs[k + 1], rs[k]);
        }
        assert(frame_counted(sts, vs, n, d));
        assert forall|j: int| 0 <= j < n implies #[trigger] rs[j] == Ok::<bool, Error>(j < d) by {
            if j < n - 1 {
                assert(rs1[j] == Ok::<bool, Error>(j < d));
            }
        }
    }
}

impl SlidingTile {
    /// A tile that starts moving towards `to_rectangle`.
    pub fn new(inner: Tile, to_rectangle: Rectangle, new_value: Option<u16>) -> (st: SlidingTile)
        ensures
            st == (SlidingTile { inner, to_rectangle, is_animating: true, new_value }),
    {
        SlidingTile { inner, to_rectangle, is_animating: true, new_value }
    }

    pub fn to_tile(self) -> (t: Tile)
        ensures
            t == self.inner,
    {
        self.inner
    }

    pub fn value(&self) -> (r: u16)
        ensures
            r == self.inner.value,
    {
        self.inner.value
    }

    pub fn new_value(&self) -> (r: Option<u16>)
        ensures
            r == self.new_value,
    {
        self.new_value
    }

    pub fn board_index(&self) -> (r: BoardIdx)
        ensures
            r == self.inner.idx,
    {
        self.inner.idx
    }

    pub fn to_rectangle(&self) -> (r: Rectangle)
        ensures
            r == self.to_rectangle,
    {
        self.to_rectangle
    }

    /// The rectangle of the tile's draw buffer.
    pub fn rectangle(&self, canvas: &Canvas) -> (r: Rectangle)
        ensures
            r == rect_of(canvas@, self.inner.buf.id as int),
    {
        self.inner.buf.rectangle(canvas)
    }

    /// One frame of the tile's move: when it has arrived it stops and takes its new value, if
    /// any; otherwise its draw buffer steps towards the target along `slide_direction`. Whether
    /// the tile is still moving comes back.
    pub fn animate(&mut self, canvas: &mut Canvas) -> (r: Result<bool, Error>)
        requires
            old(canvas).wf(),
        ensures
            final(canvas).wf(),
            sliding_animated(*old(self), old(canvas)@, *final(self), final(canvas)@, r),
    {
        if !self.is_animating {
            return Ok(false);
        }
        let rect = self.inner.buf.rectangle(canvas);
        if rect.0.x() == self.to_rectangle.0.x() && rect.0.y() == self.to_rectangle.0.y() {
            match self.new_value {
                Some(v) => {
                    self.inner.value = v;
                },
                None => {},
            }
            self.is_animating = false;
            return Ok(false);
        }
        let x = rect.0.x();
        let y = rect.0.y();
        let tx = self.to_rectangle.0.x();
        let ty = self.to_rectangle.0.y();
        let adx = if x > tx { x - tx } else { tx - x };
        let ady = if y > ty { y - ty } else { ty - y };
        let direction = if x == tx && y == ty {
            None
        } else if x != tx && y != ty && adx > ady {
            if x > tx { Some(Direction::Left) } else { Some(Direction::Right) }
        } else if x != tx && y == ty {
            if x > tx { Some(Direction::Left) } else { Some(Direction::Right) }
        } else if y > ty {
            Some(Direction::Up)
        } else {
            Some(Direction::Down)
        };
        match direction {
            None => Ok(true),
            Some(d) => match self.inner.buf.translate(canvas, d) {
                Ok(()) => Ok(true),
                Err(e) => Err(tui_error(e)),
            },
        }
    }
}

/// The draw buffer of a slot's tile, if any.
pub open spec fn slot_buffer(s: Slot) -> Option<usize> {
    match s {
        Slot::Empty => None,
        Slot::Static(t) => Some(t.buf.id),
        Slot::Sliding(st) => Some(st.inner.buf.id),
    }
}

/// The canvas after releasing the draw buffer of a slot's tile, if any.
pub open spec fn slot_released(v: CanvasView, s: Slot) -> CanvasView {
    match slot_buffer(s) {
        Some(id) => crate::tui::canvas::released_view(v, id as int),
        None => v,
    }
}

/// The place on the board of a slot's tile, if any.
pub open spec fn slot_index(s: Slot) -> Option<BoardIdx> {
    match s {
        Slot::Empty => None,
        Slot::Static(t) => Some(t.idx),
        Slot::Sliding(st) => Some(st.inner.idx),
    }
}

/// Whether a slot holds a tile that is still moving.
pub open spec fn animating(s: Slot) -> bool {
    s matches Slot::Sliding(st) && st.is_animating
}

/// Whether a buffer can move between layers: it is on a layer of the canvas and its far edges
/// are machine integers.
pub open spec fn switchable(v: CanvasView, id: int) -> bool {
    is_live(v, id) ==> rect_of(v, id).0.2 < crate::tui::canvas::CANVAS_DEPTH && crate::tui::geometry::extents_fit(rect_of(v, id))
}

/// Checks `switchable`.
fn can_switch(dbuf: &DrawBuffer, canvas: &Canvas) -> (r: bool)
    ensures
        r == switchable(canvas@, dbuf.id as int),
{
    if !canvas.is_live(dbuf.id) {
        return true;
    }
    let r = dbuf.rectangle(canvas);
    r.0.2 < crate::tui::canvas::CANVAS_DEPTH && r.0.0 <= usize::MAX - r.1.0 && r.0.1 <= usize::MAX - r.1.1
}

/// Whether a tile can be drawn on a buffer: it has at least two columns and two lines.
pub open spec fn drawable(v: CanvasView, id: int) -> bool {
    is_live(v, id) ==> rect_of(v, id).1.0 >= 2 && rect_of(v, id).1.1 >= 2
}

/// Checks `drawable`.
fn can_draw(dbuf: &DrawBuffer, canvas: &Canvas) -> (r: bool)
    ensures
        r == drawable(canvas@, dbuf.id as int),
{
    if !canvas.is_live(dbuf.id) {
        return true;
    }
    let r = dbuf.rectangle(canvas);
    r.1.0 >= 2 && r.1.1 >= 2
}

/// The error for a buffer that cannot move between layers: its layer when that is not one of the
/// canvas's, otherwise its far column.
pub open spec fn unswitchable_error(v: CanvasView, id: int) -> Error {
    let r = rect_of(v, id);
    if r.0.2 >= crate::tui::canvas::CANVAS_DEPTH {
        Error::TuiError { source: TuiError { inner: crate::tui::error::InnerError::OutOfBoundsZ(r.0.2) } }
    } else {
        Error::TuiError { source: TuiError { inner: crate::tui::error::InnerError::OutOfBoundsX(r.0.0) } }
    }
}

/// Builds `unswitchable_error`.
fn unswitchable(dbuf: &DrawBuffer, canvas: &Canvas) -> (e: Error)
    ensures
        e == unswitchable_error(canvas@, dbuf.id as int),
{
    let r = dbuf.rectangle(canvas);
    if r.0.2 >= crate::tui::canvas::CANVAS_DEPTH {
        tui_error(TuiError::from(crate::tui::error::InnerError::OutOfBoundsZ(r.0.2)))
    } else {
        tui_error(TuiError::from(crate::tui::error::InnerError::OutOfBoundsX(r.0.0)))
    }
}

/// The error for a buffer too small to draw a tile on: its width.
pub open spec fn undrawable_error(v: CanvasView, id: int) -> Error {
    Error::TuiError { source: TuiError { inner: crate::tui::error::InnerError::OutOfBoundsX(rect_of(v, id).1.0) } }
}

/// What turning slot `this` into a tile moving to `to_idx` (see `Slot::to_sliding`) does, from
/// canvas `v` to `w`, with result `r`.
pub open spec fn to_sliding_post(this: Slot, to_idx: BoardIdx, new_value: Option<u16>, v: CanvasView, w: CanvasView, r: Result<Slot, Error>) -> bool {
    match this {
        Slot::Empty => (r matches Err(Error::CannotConvertToSliding { idx: None })) && w == v,
        Slot::Sliding(st) => (r matches Err(Error::CannotConvertToSliding { idx: Some(i) }) && i == st.inner.idx)
            && w == slot_released(v, this),
        Slot::Static(t) => {
            let id = t.buf.id as int;
            if !switchable(v, id) {
                r == Err::<Slot, Error>(unswitchable_error(v, id)) && w == v
            } else if !is_live(v, id) {
                w == v && r == Ok::<Slot, Error>(Slot::Sliding(SlidingTile {
                    inner: Tile { value: match new_value { Some(nv) => nv, None => t.value }, idx: to_idx, buf: t.buf },
                    to_rectangle: spec_tile_rectangle(to_idx.0 as int, to_idx.1 as int, UPPER_ANIMATION_LAYER_IDX),
                    is_animating: true,
                    new_value,
                }))
            } else {
                let (moved, res) = crate::tui::canvas::switch_layer_result(v, id, vbuf(v, id), UPPER_ANIMATION_LAYER_IDX);
                match res {
                    Err(e) => r == Err::<Slot, Error>(Error::TuiError { source: TuiError { inner: e } })
                        && w == crate::tui::canvas::released_view(moved, id),
                    Ok(()) => w == moved && r == Ok::<Slot, Error>(Slot::Sliding(SlidingTile {
                        inner: Tile { value: match new_value { Some(nv) => nv, None => t.value }, idx: to_idx, buf: t.buf },
                        to_rectangle: spec_tile_rectangle(to_idx.0 as int, to_idx.1 as int, UPPER_ANIMATION_LAYER_IDX),
                        is_animating: true,
                        new_value,
                    })),
                }
            }
        },
    }
}

/// What making a new tile of `value` sliding in towards `to_idx` from `direction` (see
/// `Tui48Board::new_sliding_tile`) does, from canvas `v` to `w`, with result `r`.
pub open spec fn new_tile_post(
    v: CanvasView,
    to_idx: BoardIdx,
    value: u16,
    direction: Direction,
    colors: Seq<(u16, Modifier, Modifier)>,
    w: CanvasView,
    r: Result<SlidingTile, Error>,
) -> bool {
    match r {
        Ok(st) => {
            &&& st == (SlidingTile {
                inner: Tile { value, idx: to_idx, buf: st.inner.buf },
                to_rectangle: spec_tile_rectangle(to_idx.0 as int, to_idx.1 as int, LOWER_ANIMATION_LAYER_IDX),
                is_animating: true,
                new_value: None,
            })
            &&& exists|v1: CanvasView| #[trigger] crate::tui::canvas::buffer_taken(v, entry_rectangle(to_idx, direction, v.width(), v.height()), v1, Ok::<DrawBuffer, TuiError>(DrawBuffer { id: st.inner.buf.id }))
                && tile_drawn(v1, w, st.inner.buf.id as int, value, colors)
        },
        Err(e) => e matches Error::TuiError { source } && crate::tui::canvas::buffer_taken(v, entry_rectangle(to_idx, direction, v.width(), v.height()), w, Err::<DrawBuffer, TuiError>(source)),
    }
}

impl Slot {
    /// Takes the slot's content, leaving it empty.
    pub fn take(&mut self) -> (r: Slot)
        ensures
            r == *old(self),
            *final(self) == Slot::Empty,
    {
        let mut s = Slot::Empty;
        std::mem::swap(self, &mut s);
        s
    }

    /// Puts `other` in the slot and gives back what it held.
    pub fn replace(&mut self, other: Slot) -> (r: Slot)
        ensures
            r == *old(self),
            *final(self) == other,
    {
        let mut s = other;
        std::mem::swap(self, &mut s);
        s
    }

    /// Releases the draw buffer of the slot's tile, if any, as dropping the slot does.
    pub fn release(self, canvas: &mut Canvas)
        requires
            old(canvas).wf(),
        ensures
            final(canvas).wf(),
            final(canvas)@ == slot_released(old(canvas)@, self),
    {
        match self {
            Slot::Empty => {},
            Slot::Static(t) => t.buf.release(canvas),
            Slot::Sliding(st) => st.inner.buf.release(canvas),
        }
    }

    /// The place on the board of the slot's tile.
    pub fn idx(&self) -> (r: Result<BoardIdx, Error>)
        requires
            !(*self is Empty),
        ensures
            r matches Ok(i) && (match *self {
                Slot::Static(t) => i == t.idx,
                Slot::Sliding(st) => i == st.inner.idx,
                Slot::Empty => false,
            }),
    {
        match self {
            Slot::Empty => Ok(BoardIdx(0, 0)),
            Slot::Static(t) => Ok(t.idx),
            Slot::Sliding(st) => Ok(st.inner.idx),
        }
    }

    /// One frame of the slot's animation: only a moving tile moves; see `SlidingTile::animate`.
    pub fn animate(&mut self, canvas: &mut Canvas) -> (r: Result<bool, Error>)
        requires
            old(canvas).wf(),
        ensures
            final(canvas).wf(),
            !(*old(self) is Sliding) ==> r == Ok::<bool, Error>(false) && *final(self) == *old(self) && final(canvas)@ == old(canvas)@,
            *old(self) matches Slot::Sliding(st0) ==> (*final(self) matches Slot::Sliding(st1)
                && sliding_animated(st0, old(canvas)@, st1, final(canvas)@, r)),
            r == Ok::<bool, Error>(true) ==> animating(*final(self)),
            r == Ok::<bool, Error>(false) ==> !animating(*final(self)),
            slot_buffer(*final(self)) == slot_buffer(*old(self)),
    {
        match self {
            Slot::Empty => Ok(false),
            Slot::Static(_) => Ok(false),
            Slot::Sliding(st) => st.animate(canvas),
        }
    }

    pub fn value(&self) -> (r: Option<u16>)
        ensures
            r == match *self {
                Slot::Empty => None,
                Slot::Static(t) => Some(t.value),
                Slot::Sliding(st) => Some(st.inner.value),
            },
    {
        match self {
            Slot::Empty => None,
            Slot::Static(t) => Some(t.value()),
            Slot::Sliding(st) => Some(st.value()),
        }
    }

    pub fn new_value(&self) -> (r: Option<u16>)
        ensures
            r == match *self {
                Slot::Sliding(st) => st.new_value,
                _ => None,
            },
    {
        match self {
            Slot::Empty => None,
            Slot::Static(_) => None,
            Slot::Sliding(st) => st.new_value(),
        }
    }

    pub fn board_index(&self) -> (r: Option<BoardIdx>)
        ensures
            r == slot_index(*self),
    {
        match self {
            Slot::Empty => None,
            Slot::Static(t) => Some(t.board_index()),
            Slot::Sliding(st) => Some(st.board_index()),
        }
    }

    pub fn rectangle(&self, canvas: &Canvas) -> (r: Option<Rectangle>)
        ensures
            r == match slot_buffer(*self) {
                Some(id) => Some(rect_of(canvas@, id as int)),
                None => None,
            },
    {
        match self {
            Slot::Empty => None,
            Slot::Static(t) => Some(t.rectangle(canvas)),
            Slot::Sliding(st) => Some(st.rectangle(canvas)),
        }
    }

    pub fn to_rectangle(&self) -> (r: Option<Rectangle>)
        ensures
            r == match *self {
                Slot::Sliding(st) => Some(st.to_rectangle),
                _ => None,
            },
    {
        match self {
            Slot::Empty => None,
            Slot::Static(_) => None,
            Slot::Sliding(st) => Some(st.to_rectangle()),
        }
    }

    /// A tile starting to move to board place `to_idx` (on the upper animation layer), taking
    /// `new_value` there if any. Only a tile at rest can start moving: an empty slot fails, and a
    /// moving tile fails with its place, its buffer released. The tile's buffer moves to the
    /// upper animation layer first; when that fails the buffer is released.
    pub fn to_sliding(this: Slot, to_idx: BoardIdx, new_value: Option<u16>, canvas: &mut Canvas) -> (r: Result<Slot, Error>)
        requires
            old(canvas).wf(),
            to_idx.0 < 4 && to_idx.1 < 4,
        ensures
            final(canvas).wf(),
            to_sliding_post(this, to_idx, new_value, old(canvas)@, final(canvas)@, r),
    {
        let mut t = match this {
            Slot::Static(t) => t,
            Slot::Empty => {
                return Err(Error::CannotConvertToSliding { idx: None });
            },
            Slot::Sliding(st) => {
                let idx = st.inner.idx;
                st.inner.buf.release(canvas);
                return Err(Error::CannotConvertToSliding { idx: Some(idx) });
            },
        };
        if !can_switch(&t.buf, canvas) {
            return Err(unswitchable(&t.buf, canvas));
        }
        match t.buf.switch_layer(canvas, UPPER_ANIMATION_LAYER_IDX) {
            Ok(()) => {},
            Err(e) => {
                t.buf.release(canvas);
                return Err(tui_error(e));
            },
        }
        t.idx = to_idx;
        match new_value {
            Some(v) => {
                t.value = v;
            },
            None => {},
        }
        let to_rectangle = tile_rectangle(to_idx.0, to_idx.1, UPPER_ANIMATION_LAYER_IDX);
        let st = SlidingTile::new(t, to_rectangle, new_value);
        Ok(Slot::Sliding(st))
    }

    /// A moving tile coming to rest: its buffer moves back to the tile layer and the tile is drawn
    /// again; a tile at rest stays as it is, and an empty slot fails. When the move between layers
    /// fails the buffer is released.
    pub fn to_static(this: Slot, canvas: &mut Canvas, colors: &Colors) -> (r: Result<Slot, Error>)
        requires
            old(canvas).wf(),
        ensures
            final(canvas).wf(),
            to_static_post(this, old(canvas)@, colors.card_colors@, final(canvas)@, r),
    {
        if let Slot::Static(_) = this {
            return Ok(this);
        }
        if let Slot::Sliding(st) = this {
            let t = st.to_tile();
            if !can_switch(&t.buf, canvas) {
                return Err(unswitchable(&t.buf, canvas));
            }
            let ghost v = canvas@;
            proof {
                if is_live(v, t.buf.id as int) {
                    let b = vbuf(v, t.buf.id as int);
                    let nr = Rectangle(Idx(b.rectangle.0.0, b.rectangle.0.1, TILE_LAYER_IDX), b.rectangle.1);
                    let v0 = CanvasView { buffers: v.buffers.update(t.buf.id as int, None), ..v };
                    crate::tui::canvas::lemma_swap_rectangles_frame(v0, nr, b.rectangle, Some(t.buf.id));
                }
            }
            match t.buf.switch_layer(canvas, TILE_LAYER_IDX) {
                Ok(()) => {},
                Err(e) => {
                    t.buf.release(canvas);
                    return Err(tui_error(e));
                },
            }
            if !can_draw(&t.buf, canvas) {
                let r = t.buf.rectangle(canvas);
                return Err(tui_error(TuiError::from(crate::tui::error::InnerError::OutOfBoundsX(r.1.0))));
            }
            match t.draw(canvas, colors) {
                Ok(()) => {},
                Err(e) => {
                    return Err(e);
                },
            }
            return Ok(Slot::Static(t));
        }
        Err(Error::CannotConvertToStatic)
    }
}

/// The context of a missing row of slots: "getting row " and the row.
fn row_context(y: usize) -> (s: String)
    ensures
        s@ == "getting row "@ + decimal_chars(y as nat),
{
    let mut s = String::from_str("getting row ");
    s.append(decimal_usize(y).as_str());
    s
}

/// The context of a missing slot: "getting slot at " and its column and row, separated by a
/// comma.
fn slot_context(x: usize, y: usize) -> (s: String)
    ensures
        s@ == "getting slot at "@ + decimal_chars(x as nat) + ","@ + decimal_chars(y as nat),
{
    let mut s = String::from_str("getting slot at ");
    s.append(decimal_usize(x).as_str());
    s.append(",");
    s.append(decimal_usize(y).as_str());
    s
}

/// Whether the slots at rest show a round: an empty slot for each empty place, and a tile of
/// the place's value, at that place, for each other.
pub open spec fn shows_round(tb: Tui48Board, round: crate::engine::round::Round) -> bool {
    forall|x: int, y: int| 0 <= x < 4 && 0 <= y < 4 ==> {
        let value = crate::engine::round::slot_value(round.slots, BoardIdx(x as usize, y as usize));
        &&& value == 0 ==> #[trigger] tb.slot_grid()[y][x] == Slot::Empty
        &&& value > 0 ==> (tb.slot_grid()[y][x] matches Slot::Static(t) && t.value == value && t.idx == BoardIdx(x as usize, y as usize))
    }
}

/// Whether the buffers of the board, of the score and of the tiles at rest stand where the
/// board is drawn: the board's and the score's at their rectangles, each tile's at its place on
/// the tile layer.
pub open spec fn drawn_in_place(v: CanvasView, tb: Tui48Board) -> bool {
    &&& is_live(v, tb.board.id as int)
    &&& rect_of(v, tb.board.id as int) == Rectangle(Idx(5, 5, BOARD_LAYER_IDX), Bounds2D(36, 25))
    &&& is_live(v, tb.score.id as int)
    &&& rect_of(v, tb.score.id as int) == Rectangle(Idx(18, 1, BOARD_LAYER_IDX), Bounds2D(10, 3))
    &&& forall|x: int, y: int| 0 <= x < 4 && 0 <= y < 4 ==> (#[trigger] tb.slot_grid()[y][x] matches Slot::Static(t)
        ==> is_live(v, t.buf.id as int) && rect_of(v, t.buf.id as int) == spec_tile_rectangle(x, y, TILE_LAYER_IDX))
}

/// Whether the tile of place (`i`, `j`) of the round was drawn, from canvas `vt[4 * j + i]` to the
/// next: where the round holds a tile, its buffer, the one of slot `s`, was taken at the tile's
/// place on the tile layer and the tile drawn on it (see `tile_drawn`); elsewhere nothing
/// happened.
pub open spec fn tile_step(
    round: crate::engine::round::Round,
    colors: Seq<(u16, Modifier, Modifier)>,
    s: Slot,
    vt: Seq<CanvasView>,
    i: int,
    j: int,
) -> bool {
    let p = 4 * j + i;
    let value = crate::engine::round::slot_value(round.slots, BoardIdx(i as usize, j as usize));
    &&& value == 0 ==> vt[p + 1] == vt[p]
    &&& value > 0 ==> (s matches Slot::Static(t) && exists|m: CanvasView| {
        &&& #[trigger] crate::tui::canvas::buffer_taken(vt[p], spec_tile_rectangle(i, j, TILE_LAYER_IDX), m, Ok::<DrawBuffer, TuiError>(t.buf))
        &&& tile_drawn(m, vt[p + 1], t.buf.id as int, value, colors)
    })
}

/// A tile drawn stays drawn when more canvases follow.
proof fn lemma_tile_step_push(
    round: crate::engine::round::Round,
    colors: Seq<(u16, Modifier, Modifier)>,
    s: Slot,
    vt: Seq<CanvasView>,
    i: int,
    j: int,
    w: CanvasView,
)
    requires
        tile_step(round, colors, s, vt, i, j),
        0 <= 4 * j + i,
        4 * j + i + 1 < vt.len(),
    ensures
        tile_step(round, colors, s, vt.push(w), i, j),
{
    assert(vt.push(w)[4 * j + i] == vt[4 * j + i]);
    assert(vt.push(w)[4 * j + i + 1] == vt[4 * j + i + 1]);
}

/// Whether a tile of the round stands at column `x` and row `y` of the tile layer, among the
/// places before (`px`, `py`) in row order.
pub open spec fn tile_covers_before(round: crate::engine::round::Round, px: int, py: int, x: int, y: int) -> bool {
    exists|i: int, j: int| {
        &&& 0 <= i < 4 && 0 <= j < 4
        &&& j < py || (j == py && i < px)
        &&& crate::engine::round::slot_value(round.slots, BoardIdx(i as usize, j as usize)) > 0
        &&& #[trigger] crate::tui::canvas::in_rect(spec_tile_rectangle(i, j, TILE_LAYER_IDX), x, y)
    }
}

/// Whether drawing the board for the round covers cell (`x`, `y`, `z`), among the tiles before
/// (`px`, `py`): the board's and the score's rectangles on the board layer, and the tiles'
/// rectangles on the tile layer.
pub open spec fn board_covers_before(round: crate::engine::round::Round, px: int, py: int, x: int, y: int, z: int) -> bool {
    ||| z == BOARD_LAYER_IDX && (crate::tui::canvas::in_rect(Rectangle(Idx(5, 5, BOARD_LAYER_IDX), Bounds2D(36, 25)), x, y)
        || crate::tui::canvas::in_rect(Rectangle(Idx(18, 1, BOARD_LAYER_IDX), Bounds2D(10, 3)), x, y))
    ||| z == TILE_LAYER_IDX && tile_covers_before(round, px, py, x, y)
}

/// Whether drawing the board for the round covers cell (`x`, `y`, `z`) (see
/// `board_covers_before`, with every tile).
pub open spec fn board_covers(round: crate::engine::round::Round, x: int, y: int, z: int) -> bool {
    board_covers_before(round, 0, 4, x, y, z)
}

/// Whether every cell of canvas `v` that the drawing of the board does not cover, among the
/// tiles before (`px`, `py`), holds what it held in `base`.
pub open spec fn uncovered_kept(base: CanvasView, v: CanvasView, round: crate::engine::round::Round, px: int, py: int) -> bool {
    forall|x: int, y: int, z: int|
        0 <= x < base.width() && 0 <= y < base.height() && 0 <= z < crate::tui::canvas::CANVAS_DEPTH
            && !board_covers_before(round, px, py, x, y, z) ==> #[trigger] v.cell(x, y, z) == base.cell(x, y, z)
}

/// Covering more tiles keeps fewer cells to keep.
proof fn lemma_uncovered_kept_more(base: CanvasView, v: CanvasView, round: crate::engine::round::Round, px: int, py: int, qx: int, qy: int)
    requires
        uncovered_kept(base, v, round, px, py),
        py < qy || (py == qy && px <= qx),
    ensures
        uncovered_kept(base, v, round, qx, qy),
{
    assert forall|x: int, y: int, z: int|
        0 <= x < base.width() && 0 <= y < base.height() && 0 <= z < crate::tui::canvas::CANVAS_DEPTH
            && !board_covers_before(round, qx, qy, x, y, z) implies #[trigger] v.cell(x, y, z) == base.cell(x, y, z) by {
        if tile_covers_before(round, px, py, x, y) {
            let (i, j) = choose|i: int, j: int| {
                &&& 0 <= i < 4 && 0 <= j < 4
                &&& j < py || (j == py && i < px)
                &&& crate::engine::round::slot_value(round.slots, BoardIdx(i as usize, j as usize)) > 0
                &&& #[trigger] crate::tui::canvas::in_rect(spec_tile_rectangle(i, j, TILE_LAYER_IDX), x, y)
            };
            assert(tile_covers_before(round, qx, qy, x, y));
        }
    }
}

/// Drawing the tile of place (`px`, `py`), which changes at most the cells of its rectangle on
/// the tile layer, and only where the round holds a tile, keeps the cells it does not cover.
proof fn lemma_uncovered_kept_step(base: CanvasView, v: CanvasView, w: CanvasView, round: crate::engine::round::Round, px: int, py: int)
    requires
        uncovered_kept(base, v, round, px, py),
        0 <= px < 4,
        0 <= py < 4,
        forall|x: int, y: int, z: int|
            0 <= x < base.width() && 0 <= y < base.height() && 0 <= z < crate::tui::canvas::CANVAS_DEPTH
                && !(z == TILE_LAYER_IDX && crate::tui::canvas::in_rect(spec_tile_rectangle(px, py, TILE_LAYER_IDX), x, y)
                    && crate::engine::round::slot_value(round.slots, BoardIdx(px as usize, py as usize)) > 0)
                ==> #[trigger] w.cell(x, y, z) == v.cell(x, y, z),
    ensures
        uncovered_kept(base, w, round, px + 1, py),
{
    assert forall|x: int, y: int, z: int|
        0 <= x < base.width() && 0 <= y < base.height() && 0 <= z < crate::tui::canvas::CANVAS_DEPTH
            && !board_covers_before(round, px + 1, py, x, y, z) implies #[trigger] w.cell(x, y, z) == base.cell(x, y, z) by {
        if tile_covers_before(round, px, py, x, y) {
            let (i, j) = choose|i: int, j: int| {
                &&& 0 <= i < 4 && 0 <= j < 4
                &&& j < py || (j == py && i < px)
                &&& crate::engine::round::slot_value(round.slots, BoardIdx(i as usize, j as usize)) > 0
                &&& #[trigger] crate::tui::canvas::in_rect(spec_tile_rectangle(i, j, TILE_LAYER_IDX), x, y)
            };
            assert(tile_covers_before(round, px + 1, py, x, y));
        }
        if z == TILE_LAYER_IDX && crate::tui::canvas::in_rect(spec_tile_rectangle(px, py, TILE_LAYER_IDX), x, y)
            && crate::engine::round::slot_value(round.slots, BoardIdx(px as usize, py as usize)) > 0 {
            assert(tile_covers_before(round, px + 1, py, x, y));
        }
        assert(v.cell(x, y, z) == base.cell(x, y, z));
    }
}

/// Reclaiming a canvas where nothing waits to be reclaimed changes nothing.
proof fn lemma_reclaimed_nothing(v: CanvasView)
    requires
        v.released.len() == 0,
    ensures
        crate::tui::canvas::reclaimed(v) == v,
{
    assert(v.released =~= Seq::<crate::tui::tuxel::Tuxel>::empty());
}

/// Taking a buffer changes only the cells of its rectangle, on its layer, of the canvas once
/// reclaimed, and leaves nothing to reclaim.
proof fn lemma_taken_cells(v: CanvasView, r: Rectangle, w: CanvasView, db: DrawBuffer)
    requires
        v.wf(),
        crate::tui::canvas::buffer_taken(v, r, w, Ok::<DrawBuffer, TuiError>(db)),
    ensures
        w.released.len() == 0,
        w.rectangle == v.rectangle,
        forall|x: int, y: int, z: int|
            0 <= x < v.width() && 0 <= y < v.height() && 0 <= z < crate::tui::canvas::CANVAS_DEPTH
                && !(z == r.0.2 && crate::tui::canvas::in_rect(r, x, y)) ==> #[trigger] w.cell(x, y, z) == crate::tui::canvas::reclaimed(v).cell(x, y, z),
{
    crate::tui::canvas::lemma_reclaim_upto(v, v.released.len() as int);
    let u = crate::tui::canvas::reclaimed(v);
    let p = crate::tui::canvas::reclaim_upto(v, v.released.len() as int);
    assert(p.wf());
    assert(u.cells == p.cells);
    assert forall|x: int, y: int, z: int|
        0 <= x < v.width() && 0 <= y < v.height() && 0 <= z < crate::tui::canvas::CANVAS_DEPTH
            && !(z == r.0.2 && crate::tui::canvas::in_rect(r, x, y)) implies #[trigger] w.cell(x, y, z) == u.cell(x, y, z) by {
        assert(p.cells[y].len() == p.width());
        assert(p.cells[y][x].len() == crate::tui::canvas::CANVAS_DEPTH);
    }
}

/// The board's buffer `b` of canvas `v` with the board's colors added to its modifiers.
pub open spec fn board_colored(v: CanvasView, b: int) -> CanvasView {
    CanvasView {
        buffers: v.buffers.update(b, Some(BufferView {
            modifiers: vbuf(v, b).modifiers + seq![
                Modifier::SetBackgroundColor(40, 0, 0),
                Modifier::SetBGLightness(200),
                Modifier::SetForegroundColor(25, 50, 75),
                Modifier::SetFGLightness(600),
            ],
            ..vbuf(v, b)
        })),
        ..v
    }
}

/// The steps of drawing the board `tb` for `round` from canvas `v0` to `w`, through the canvases
/// `va` to `ve`: the board's buffer is taken and its border drawn; the score's buffer is taken
/// and the score drawn (see `score_drawn`); the tiles are drawn place by place, row by row (see
/// `tile_step`); the board's buffer is blanked inside and colored.
pub open spec fn board_steps(
    v0: CanvasView,
    va: CanvasView,
    vb: CanvasView,
    vc: CanvasView,
    vd: CanvasView,
    vt: Seq<CanvasView>,
    ve: CanvasView,
    w: CanvasView,
    round: crate::engine::round::Round,
    colors: Seq<(u16, Modifier, Modifier)>,
    tb: Tui48Board,
) -> bool {
    let b = tb.board.id as int;
    &&& crate::tui::canvas::buffer_taken(v0, Rectangle(Idx(5, 5, BOARD_LAYER_IDX), Bounds2D(36, 25)), va, Ok::<DrawBuffer, TuiError>(tb.board))
    &&& only_buffer_changed(va, vb, b)
    &&& crate::tui::drawbuffer::border_post(vbuf(va, b), vbuf(vb, b), va.changed, vb.changed, Ok::<(), InnerError>(()))
    &&& crate::tui::canvas::buffer_taken(vb, Rectangle(Idx(18, 1, BOARD_LAYER_IDX), Bounds2D(10, 3)), vc, Ok::<DrawBuffer, TuiError>(tb.score))
    &&& score_drawn(vc, vd, tb.score.id as int, round.score)
    &&& vt.len() == 17
    &&& vt[0] == vd
    &&& forall|i: int, j: int| 0 <= i < 4 && 0 <= j < 4 ==> #[trigger] tile_step(round, colors, tb.slot_grid()[j][i], vt, i, j)
    &&& only_buffer_changed(vt[16], ve, b)
    &&& crate::tui::drawbuffer::fill_post(vbuf(vt[16], b), vbuf(ve, b), vt[16].changed, ve.changed, ' ')
    &&& w == board_colored(ve, b)
}

/// Whether drawing the board `tb` for `round` took canvas `v0` to `w` (see `board_steps`).
pub open spec fn board_built(
    v0: CanvasView,
    round: crate::engine::round::Round,
    colors: Seq<(u16, Modifier, Modifier)>,
    tb: Tui48Board,
    w: CanvasView,
) -> bool {
    exists|va: CanvasView, vb: CanvasView, vc: CanvasView, vd: CanvasView, vt: Seq<CanvasView>, ve: CanvasView|
        #[trigger] board_steps(v0, va, vb, vc, vd, vt, ve, w, round, colors, tb)
}

/// The board as the interface shows it: the board's and the score's draw buffers, the tiles at
/// rest by row and column, and, during an animation, the moving tiles and those that arrived
/// (by the place they arrived at).
pub struct Tui48Board {
    pub board: DrawBuffer,
    pub score: DrawBuffer,
    pub slots: Vec<Vec<Slot>>,
    pub disappearing_slots: Vec<Slot>,
    pub moving_slots: Vec<Slot>,
    pub done_slots: Vec<(BoardIdx, Slot)>,
}

/// The column where a tile entering from the right starts on a canvas `cw` columns wide: one
/// tile's place past the last column of the board, or against the canvas's right edge when
/// the canvas ends before that.
pub open spec fn entry_column(cw: int) -> int {
    if cw >= 46 {
        40
    } else if cw >= 6 {
        cw - 6
    } else {
        0
    }
}

/// The row where a tile entering from the bottom starts on a canvas `ch` rows high: below the
/// last row of the board, overlapping its bottom border, or against the canvas's bottom edge
/// when the canvas ends before that.
pub open spec fn entry_row(ch: int) -> int {
    if ch >= 33 {
        28
    } else if ch >= 5 {
        ch - 5
    } else {
        0
    }
}

/// The rectangle where a new tile sliding in towards `to_idx` from `direction` starts, on the
/// lower animation layer, on a canvas `cw` columns wide and `ch` rows high: just outside the
/// board on the side it comes from; a tile entering from the right or from the bottom starts
/// inside the canvas (see `entry_column` and `entry_row`).
pub open spec fn entry_rectangle(to_idx: BoardIdx, direction: Direction, cw: int, ch: int) -> Rectangle {
    match direction {
        Direction::Left => {
            let r = spec_tile_rectangle(4, to_idx.1 as int, LOWER_ANIMATION_LAYER_IDX);
            Rectangle(Idx(entry_column(cw) as usize, r.0.1, r.0.2), r.1)
        },
        Direction::Right => {
            let r = spec_tile_rectangle(0, to_idx.1 as int, LOWER_ANIMATION_LAYER_IDX);
            Rectangle(Idx((r.0.0 - 6) as usize, r.0.1, r.0.2), r.1)
        },
        Direction::Up => {
            let r = spec_tile_rectangle(to_idx.0 as int, 4, LOWER_ANIMATION_LAYER_IDX);
            Rectangle(Idx(r.0.0, entry_row(ch) as usize, r.0.2), r.1)
        },
        Direction::Down => {
            let r = spec_tile_rectangle(to_idx.0 as int, 0, LOWER_ANIMATION_LAYER_IDX);
            Rectangle(Idx(r.0.0, (r.0.1 - 6) as usize, r.0.2), r.1)
        },
    }
}

/// On a canvas that holds the board (at least 41 columns and 30 rows, see
/// `get_validated_dimensions`), a new tile starts inside the canvas, whichever side it enters
/// from.
pub proof fn law_new_tile_starts_on_the_canvas(to_idx: BoardIdx, direction: Direction, cw: int, ch: int)
    requires
        to_idx.0 < 4,
        to_idx.1 < 4,
        cw >= 41,
        ch >= 30,
    ensures
        entry_rectangle(to_idx, direction, cw, ch).0.0 + entry_rectangle(to_idx, direction, cw, ch).1.0 <= cw,
        entry_rectangle(to_idx, direction, cw, ch).0.1 + entry_rectangle(to_idx, direction, cw, ch).1.1 <= ch,
{
}

/// Whether two slots' tiles claim the same place and the larger new value wins: the slot with a
/// new value wins over one without; of two new values the first wins ties.
pub open spec fn first_is_kept(a: Slot, b: Slot) -> bool {
    match (new_value_of(a), new_value_of(b)) {
        (Some(_), None) => true,
        (Some(v1), Some(v2)) => v1 >= v2,
        _ => false,
    }
}

/// The new value of a slot's moving tile, if any.
pub open spec fn new_value_of(s: Slot) -> Option<u16> {
    match s {
        Slot::Sliding(st) => st.new_value,
        _ => None,
    }
}

/// Taking a draw buffer keeps the canvas's other buffers.
pub proof fn lemma_buffer_taken_frame(v: CanvasView, r: Rectangle, w: CanvasView, res: Result<DrawBuffer, TuiError>)
    requires
        crate::tui::canvas::buffer_taken(v, r, w, res),
    ensures
        w.buffers.len() >= v.buffers.len(),
        forall|k: int| 0 <= k < v.buffers.len() ==> #[trigger] w.buffers[k] == v.buffers[k],
        w.rectangle == v.rectangle,
        res matches Ok(db) ==> db.id == v.buffers.len() && w.buffers.len() == v.buffers.len() + 1
            && w.buffers[db.id as int] == Some(crate::tui::canvas::fresh_buffer(r)),
{
    crate::tui::canvas::lemma_reclaim_frame(v, v.released.len() as int);
}

/// Drawing a tile keeps the canvas's other buffers.
pub proof fn lemma_tile_drawn_frame(v: CanvasView, w: CanvasView, id: int, value: u16, colors: Seq<(u16, Modifier, Modifier)>)
    requires
        tile_drawn(v, w, id, value, colors),
        0 <= id < v.buffers.len(),
    ensures
        w.buffers.len() == v.buffers.len(),
        forall|k: int| 0 <= k < v.buffers.len() && k != id ==> #[trigger] w.buffers[k] == v.buffers[k],
        w.rectangle == v.rectangle,
        is_live(w, id),
        vbuf(w, id).rectangle == vbuf(v, id).rectangle,
        w.cells == v.cells,
        w.released == v.released,
{
    let (v1, v2, v3, v4) = choose|v1, v2, v3, v4| #[trigger] tile_drawn_via(v, v1, v2, v3, v4, w, id, value, colors_for(colors, value));
    assert(tile_drawn_via(v, v1, v2, v3, v4, w, id, value, colors_for(colors, value)));
}

/// Drawing a score keeps the canvas's cells, its size and its other buffers.
pub proof fn lemma_score_drawn_frame(v: CanvasView, w: CanvasView, id: int, value: u16)
    requires
        score_drawn(v, w, id, value),
        0 <= id < v.buffers.len(),
    ensures
        w.cells == v.cells,
        w.released == v.released,
        w.rectangle == v.rectangle,
        w.buffers.len() == v.buffers.len(),
        forall|k: int| 0 <= k < v.buffers.len() && k != id ==> #[trigger] w.buffers[k] == v.buffers[k],
        is_live(w, id),
        vbuf(w, id).rectangle == vbuf(v, id).rectangle,
{
    let (v1, v2, v3, v4, v5, v6) = choose|v1, v2, v3, v4, v5, v6| #[trigger] score_drawn_via(v, v1, v2, v3, v4, v5, v6, w, id, value);
    assert(score_drawn_via(v, v1, v2, v3, v4, v5, v6, w, id, value));
}

/// Where the tile of a hint goes.
pub open spec fn hint_target(idx: BoardIdx, hint: Hint) -> BoardIdx {
    match hint {
        Hint::ToIdx(to) => to,
        Hint::NewValueToIdx(_, to) => to,
        Hint::NewTile(_, _) => idx,
    }
}

/// The value that the tile of a hint takes once there, if any.
pub open spec fn hint_new_value(hint: Hint) -> Option<u16> {
    match hint {
        Hint::NewValueToIdx(v, _) => Some(v),
        _ => None,
    }
}

/// The layer on which the tile of a hint moves.
pub open spec fn hint_layer(hint: Hint) -> usize {
    match hint {
        Hint::NewTile(_, _) => LOWER_ANIMATION_LAYER_IDX,
        _ => UPPER_ANIMATION_LAYER_IDX,
    }
}

/// Whether no two tiles that arrived are kept for the same place.
pub open spec fn done_keys_distinct(done: Seq<(BoardIdx, Slot)>) -> bool {
    forall|i: int, j: int| 0 <= i < j < done.len() ==> #[trigger] done[i].0 != #[trigger] done[j].0
}

/// Whether a tile that arrived at `idx` is kept.
pub open spec fn has_place(done: Seq<(BoardIdx, Slot)>, idx: BoardIdx) -> bool {
    exists|j: int| 0 <= j < done.len() && (#[trigger] done[j]).0 == idx
}

/// Where the tile that arrived at `idx` is kept, when one is.
pub open spec fn place_of(done: Seq<(BoardIdx, Slot)>, idx: BoardIdx) -> int {
    choose|j: int| 0 <= j < done.len() && (#[trigger] done[j]).0 == idx
}

/// A moving tile once it stopped: it takes its new value, if any, when it was still moving.
pub open spec fn arrived(st: SlidingTile) -> SlidingTile {
    if st.is_animating {
        SlidingTile {
            is_animating: false,
            inner: Tile {
                value: match st.new_value {
                    Some(nv) => nv,
                    None => st.inner.value,
                },
                ..st.inner
            },
            ..st
        }
    } else {
        st
    }
}

/// Keeping the slot `a` of a tile that arrived at `idx`, on canvas `v`, gives the kept tiles
/// `done1`, the slot `s1` and the canvas `v1`: with no tile kept there, `a` is added and its
/// slot emptied; otherwise the tile kept there and `a` compete (see `first_is_kept`; when
/// neither has a new value the tile kept there stays): the winner is kept there, and the loser
/// is released, unless both have new values and the tile kept there wins, in which case `a`
/// stays in its slot.
pub open spec fn merged_into_done(
    done0: Seq<(BoardIdx, Slot)>,
    idx: BoardIdx,
    a: Slot,
    v: CanvasView,
    done1: Seq<(BoardIdx, Slot)>,
    s1: Slot,
    v1: CanvasView,
) -> bool {
    if !has_place(done0, idx) {
        done1 == done0.push((idx, a)) && s1 == Slot::Empty && v1 == v
    } else {
        let j = place_of(done0, idx);
        let d = done0[j].1;
        let both_none = new_value_of(d) is None && new_value_of(a) is None;
        let both_some = new_value_of(d) is Some && new_value_of(a) is Some;
        let d_wins = both_none || first_is_kept(d, a);
        let kept = if d_wins { d } else { a };
        let loser = if d_wins { a } else { d };
        &&& done1 == done0.update(j, (idx, kept))
        &&& s1 == if both_some && d_wins { a } else { Slot::Empty }
        &&& v1 == if both_some && d_wins { v } else { slot_released(v, loser) }
    }
}

/// One frame of one slot (see `step_slot`): from the kept tiles `done0`, the slot `s0` and the
/// canvas `v0` to `done1`, `s1` and `v1`, with result `r`. An empty slot stays; a tile at rest
/// arrived where it is; a moving tile takes a step (see `sliding_animated`) and, when it does
/// not move any more, arrived at its place.
pub open spec fn slot_stepped(
    done0: Seq<(BoardIdx, Slot)>,
    s0: Slot,
    v0: CanvasView,
    done1: Seq<(BoardIdx, Slot)>,
    s1: Slot,
    v1: CanvasView,
    r: Result<bool, Error>,
) -> bool {
    match s0 {
        Slot::Empty => r == Ok::<bool, Error>(false) && s1 == s0 && done1 == done0 && v1 == v0,
        Slot::Static(t) => r == Ok::<bool, Error>(false) && merged_into_done(done0, t.idx, s0, v0, done1, s1, v1),
        Slot::Sliding(st0) => if r == Ok::<bool, Error>(false) {
            &&& sliding_animated(st0, v0, arrived(st0), v0, r)
            &&& merged_into_done(done0, st0.inner.idx, Slot::Sliding(arrived(st0)), v0, done1, s1, v1)
        } else {
            &&& s1 matches Slot::Sliding(st1) && sliding_animated(st0, v0, st1, v1, r)
            &&& done1 == done0
        },
    }
}

/// With no two tiles kept for one place, the place of a kept tile is the one of its entry.
pub proof fn lemma_place_unique(done: Seq<(BoardIdx, Slot)>, idx: BoardIdx, j: int)
    requires
        done_keys_distinct(done),
        0 <= j < done.len(),
        done[j].0 == idx,
    ensures
        has_place(done, idx),
        place_of(done, idx) == j,
{
    assert(done[j].0 == idx);
    let p = place_of(done, idx);
    if p != j {
        if p < j {
            assert(done[p].0 != done[j].0);
        } else {
            assert(done[j].0 != done[p].0);
        }
    }
}

/// Where the tile that arrived at `idx` is kept, if any.
fn find_done(done: &Vec<(BoardIdx, Slot)>, idx: &BoardIdx) -> (r: Option<usize>)
    ensures
        r matches Some(j) ==> j < done@.len() && done@[j as int].0 == *idx,
        r is None ==> forall|j: int| 0 <= j < done@.len() ==> #[trigger] done@[j].0 != *idx,
{
    let mut j: usize = 0;
    while j < done.len()
        invariant
            j <= done@.len(),
            forall|k: int| 0 <= k < j ==> #[trigger] done@[k].0 != *idx,
        decreases done@.len() - j,
    {
        if done[j].0 == *idx {
            return Some(j);
        }
        j = j + 1;
    }
    None
}

/// Keeps `slot` as the tile that arrived at `idx`, releasing the one kept there before, if any.
fn insert_done(done: &mut Vec<(BoardIdx, Slot)>, idx: BoardIdx, slot: Slot, canvas: &mut Canvas)
    requires
        old(canvas).wf(),
        done_keys_distinct(old(done)@),
    ensures
        final(canvas).wf(),
        done_keys_distinct(final(done)@),
        exists|j: int| 0 <= j < final(done)@.len() && #[trigger] final(done)@[j] == (idx, slot),
        final(done)@.len() >= old(done)@.len(),
        forall|k: int| 0 <= k < old(done)@.len() ==> #[trigger] final(done)@[k].0 == old(done)@[k].0,
        has_place(old(done)@, idx) ==> final(done)@ == old(done)@.update(place_of(old(done)@, idx), (idx, slot))
            && final(canvas)@ == slot_released(old(canvas)@, old(done)@[place_of(old(done)@, idx)].1),
        !has_place(old(done)@, idx) ==> final(done)@ == old(done)@.push((idx, slot)) && final(canvas)@ == old(canvas)@,
{
    match find_done(done, &idx) {
        Some(j) => {
            proof {
                lemma_place_unique(done@, idx, j as int);
            }
            let mut s = slot;
            std::mem::swap(&mut done[j].1, &mut s);
            s.release(canvas);
            assert(done@[j as int] == (idx, slot));
        },
        None => {
            done.push((idx, slot));
            assert(done@[done@.len() - 1] == (idx, slot));
        },
    }
}

/// One frame of one slot's animation: a moving tile takes a step; when it stops moving it is
/// kept as the tile that arrived at its place, unless a tile arrived there before with a larger
/// new value (see `Tui48Board::keep_largest_value_tile`); when neither has a new value the tile
/// that arrived first stays and the other is released. Whether the tile is still moving comes
/// back.
pub fn step_slot(done: &mut Vec<(BoardIdx, Slot)>, slot: &mut Slot, canvas: &mut Canvas) -> (r: Result<bool, Error>)
    requires
        old(canvas).wf(),
        done_keys_distinct(old(done)@),
    ensures
        final(canvas).wf(),
        done_keys_distinct(final(done)@),
        *old(slot) is Empty ==> r == Ok::<bool, Error>(false) && *final(slot) == *old(slot) && final(done)@ == old(done)@
            && final(canvas)@ == old(canvas)@,
        r == Ok::<bool, Error>(true) ==> animating(*final(slot)) && final(done)@ == old(done)@,
        r == Ok::<bool, Error>(false) ==> !animating(*final(slot)),
        final(done)@.len() >= old(done)@.len(),
        forall|k: int| 0 <= k < old(done)@.len() ==> #[trigger] final(done)@[k].0 == old(done)@[k].0,
        (r == Ok::<bool, Error>(false) && slot_index(*old(slot)) is Some) ==> exists|j: int|
            0 <= j < final(done)@.len() && (#[trigger] final(done)@[j]).0 == slot_index(*old(slot))->0,
        slot_stepped(old(done)@, *old(slot), old(canvas)@, final(done)@, *final(slot), final(canvas)@, r),
{
    if let Slot::Empty = slot {
        return Ok(false);
    }
    let idx = match slot.idx() {
        Ok(i) => i,
        Err(e) => {
            return Err(e);
        },
    };
    let c = match slot.animate(canvas) {
        Ok(c) => c,
        Err(e) => {
            return Err(e);
        },
    };
    let ghost a = *slot;
    let ghost va = canvas@;
    let ghost done0 = done@;
    if !c {
        let new_done_slot = match find_done(done, &idx) {
            Some(j) => {
                proof {
                    lemma_place_unique(done@, idx, j as int);
                }
                let mut done_slot = Slot::Empty;
                std::mem::swap(&mut done[j].1, &mut done_slot);
                let kept = if done_slot.new_value().is_none() && slot.new_value().is_none() {
                    let s = slot.take();
                    s.release(canvas);
                    let mut d = Slot::Empty;
                    std::mem::swap(&mut done_slot, &mut d);
                    d
                } else {
                    Tui48Board::keep_largest_value_tile(&mut done_slot, slot, canvas)
                };
                std::mem::swap(&mut done[j].1, &mut done_slot);
                proof {
                    assert forall|a: int, b: int| 0 <= a < b < done@.len() implies #[trigger] done@[a].0 != #[trigger] done@[b].0 by {
                        assert(done@[a].0 == old(done)@[a].0);
                        assert(done@[b].0 == old(done)@[b].0);
                    }
                    assert(done_slot == Slot::Empty);
                    lemma_place_unique(done@, idx, j as int);
                }
                done_slot.release(canvas);
                kept
            },
            None => slot.take(),
        };
        let ghost mid = done@;
        insert_done(done, idx, new_done_slot, canvas);
        proof {
            if has_place(done0, idx) {
                let j = place_of(done0, idx);
                assert(mid == done0.update(j, (idx, mid[j].1)));
                assert(done@ =~= done0.update(j, (idx, new_done_slot)));
            }
            assert(merged_into_done(done0, idx, a, va, done@, *slot, canvas@));
        }
    }
    Ok(c)
}

/// The canvas after releasing the buffers of the slots' tiles, the first slot's first.
pub open spec fn slots_released(v: CanvasView, slots: Seq<Slot>) -> CanvasView
    decreases slots.len(),
{
    if slots.len() == 0 {
        v
    } else {
        slots_released(slot_released(v, slots[0]), slots.drop_first())
    }
}

/// The canvas after releasing the buffers of the tiles of the rows, the first row's first.
pub open spec fn rows_released(v: CanvasView, rows: Seq<Seq<Slot>>) -> CanvasView
    decreases rows.len(),
{
    if rows.len() == 0 {
        v
    } else {
        rows_released(slots_released(v, rows[0]), rows.drop_first())
    }
}

/// The slots of kept tiles, without their places.
pub open spec fn done_slots_of(done: Seq<(BoardIdx, Slot)>) -> Seq<Slot> {
    done.map_values(|e: (BoardIdx, Slot)| e.1)
}

/// Releases the buffers of the slots' tiles, in order.
fn release_all(slots: Vec<Slot>, canvas: &mut Canvas)
    requires
        old(canvas).wf(),
    ensures
        final(canvas).wf(),
        final(canvas)@ == slots_released(old(canvas)@, slots@),
{
    let mut slots = slots;
    let ghost target = slots_released(canvas@, slots@);
    while slots.len() > 0
        invariant
            canvas.wf(),
            slots_released(canvas@, slots@) == target,
        decreases slots@.len(),
    {
        let ghost before = slots@;
        let s = slots.remove(0);
        proof {
            assert(slots@ =~= before.drop_first());
        }
        s.release(canvas);
    }
}

/// Releases the buffers of the tiles of the rows, row by row.
fn release_rows(rows: Vec<Vec<Slot>>, canvas: &mut Canvas)
    requires
        old(canvas).wf(),
    ensures
        final(canvas).wf(),
        final(canvas)@ == rows_released(old(canvas)@, rows@.map_values(|r: Vec<Slot>| r@)),
{
    let mut rows = rows;
    let ghost target = rows_released(canvas@, rows@.map_values(|r: Vec<Slot>| r@));
    while rows.len() > 0
        invariant
            canvas.wf(),
            rows_released(canvas@, rows@.map_values(|r: Vec<Slot>| r@)) == target,
        decreases rows@.len(),
    {
        let ghost before = rows@;
        let row = rows.remove(0);
        proof {
            assert(rows@ =~= before.drop_first());
            assert(rows@.map_values(|r: Vec<Slot>| r@) =~= before.map_values(|r: Vec<Slot>| r@).drop_first());
        }
        release_all(row, canvas);
    }
}

/// Releases the buffers of the kept tiles, in order.
fn release_done(done: Vec<(BoardIdx, Slot)>, canvas: &mut Canvas)
    requires
        old(canvas).wf(),
    ensures
        final(canvas).wf(),
        final(canvas)@ == slots_released(old(canvas)@, done_slots_of(done@)),
{
    let mut done = done;
    let ghost target = slots_released(canvas@, done_slots_of(done@));
    while done.len() > 0
        invariant
            canvas.wf(),
            slots_released(canvas@, done_slots_of(done@)) == target,
        decreases done@.len(),
    {
        let ghost before = done@;
        let (_, s) = done.remove(0);
        proof {
            assert(done@ =~= before.drop_first());
            assert(done_slots_of(done@) =~= done_slots_of(before).drop_first());
        }
        s.release(canvas);
    }
}

/// Whether the first `n` of the slots `s0` took their steps in order (see `slot_stepped`),
/// becoming those of `s1`, with the kept tiles going through `dones`, the canvas through `vs`,
/// and the steps ending with `rs`.
pub open spec fn slots_stepped(
    s0: Seq<Slot>,
    s1: Seq<Slot>,
    dones: Seq<Seq<(BoardIdx, Slot)>>,
    vs: Seq<CanvasView>,
    rs: Seq<Result<bool, Error>>,
    n: int,
) -> bool {
    &&& 0 <= n <= s0.len()
    &&& s1.len() == s0.len()
    &&& dones.len() == n + 1
    &&& vs.len() == n + 1
    &&& rs.len() == n
    &&& forall|j: int| 0 <= j < n ==> #[trigger] slot_stepped(dones[j], s0[j], vs[j], dones[j + 1], s1[j], vs[j + 1], rs[j])
    &&& forall|j: int| n <= j < s0.len() ==> #[trigger] s1[j] == s0[j]
}

/// Whether one frame of animation (see `Tui48Board::animate`) takes the board `tb0` on canvas
/// `v0` to `tb1` on `v1` with result `r`: the moving slots, then the disappearing ones, take
/// their steps in order from the kept tiles of `tb0`, until the first step that fails, whose
/// error is the result; when none fails every slot took its step.
pub open spec fn animated(tb0: Tui48Board, v0: CanvasView, tb1: Tui48Board, v1: CanvasView, r: Result<bool, Error>) -> bool {
    exists|dones: Seq<Seq<(BoardIdx, Slot)>>, vs: Seq<CanvasView>, rs: Seq<Result<bool, Error>>, n: int| {
        &&& #[trigger] slots_stepped(tb0.moving_slots@ + tb0.disappearing_slots@, tb1.moving_slots@ + tb1.disappearing_slots@, dones, vs, rs, n)
        &&& dones[0] == tb0.done_slots@
        &&& vs[0] == v0
        &&& dones[n] == tb1.done_slots@
        &&& vs[n] == v1
        &&& forall|j: int| 0 <= j < n - 1 ==> (#[trigger] rs[j]) is Ok
        &&& match r {
            Ok(_) => n == tb0.moving_slots@.len() + tb0.disappearing_slots@.len() && (n == 0 || rs[n - 1] is Ok),
            Err(_) => n >= 1 && rs[n - 1] == r,
        }
    }
}

/// Whether a place lies on the board.
pub open spec fn in_board(i: BoardIdx) -> bool {
    i.0 < 4 && i.1 < 4
}

/// The slots after the sources of the first `n` hints were taken out, leaving them empty.
pub open spec fn grid_after(g: Seq<Seq<Slot>>, hints: Seq<(BoardIdx, Hint)>, n: int) -> Seq<Seq<Slot>>
    decreases n,
{
    if n <= 0 {
        g
    } else {
        let p = grid_after(g, hints, n - 1);
        let idx = hints[n - 1].0;
        p.update(idx.1 as int, p[idx.1 as int].update(idx.0 as int, Slot::Empty))
    }
}

/// A moving tile as the slot that holds it, or the error.
pub open spec fn as_slot(r: Result<SlidingTile, Error>) -> Result<Slot, Error> {
    match r {
        Ok(st) => Ok(Slot::Sliding(st)),
        Err(e) => Err(e),
    }
}

/// Setting up the hint `hint` for the tile at `idx`, taken out of its slot as `s`, from canvas
/// `v` to `w` with result `res`: a move turns the tile into one moving to the target (see
/// `to_sliding_post`); a new tile releases what the slot held and slides in from outside the
/// board (see `new_tile_post`).
pub open spec fn hint_set_up(
    v: CanvasView,
    idx: BoardIdx,
    hint: Hint,
    s: Slot,
    colors: Seq<(u16, Modifier, Modifier)>,
    w: CanvasView,
    res: Result<Slot, Error>,
) -> bool {
    match hint {
        Hint::ToIdx(to) => to_sliding_post(s, to, None, v, w, res),
        Hint::NewValueToIdx(value, to) => to_sliding_post(s, to, Some(value), v, w, res),
        Hint::NewTile(value, d) => exists|rt: Result<SlidingTile, Error>|
            #[trigger] new_tile_post(slot_released(v, s), idx, value, d, colors, w, rt) && res == as_slot(rt),
    }
}

/// Whether the `j`-th hint, with its target and source on the board, was set up from canvas
/// `vs[j]` to `vs[j + 1]`, giving the moving slot `moved[j]`.
pub open spec fn setup_step(
    g0: Seq<Seq<Slot>>,
    hints: Seq<(BoardIdx, Hint)>,
    colors: Seq<(u16, Modifier, Modifier)>,
    moved: Seq<Slot>,
    vs: Seq<CanvasView>,
    j: int,
) -> bool {
    &&& in_board(hint_target(hints[j].0, hints[j].1))
    &&& in_board(hints[j].0)
    &&& hint_set_up(vs[j], hints[j].0, hints[j].1, grid_after(g0, hints, j)[hints[j].0.1 as int][hints[j].0.0 as int],
        colors, vs[j + 1], Ok::<Slot, Error>(moved[j]))
}

/// Whether the first `k` hints were set up in order (see `setup_step`), the canvas going
/// through `vs`, and made the moving slots `moved`.
pub open spec fn setup_steps(
    g0: Seq<Seq<Slot>>,
    hints: Seq<(BoardIdx, Hint)>,
    colors: Seq<(u16, Modifier, Modifier)>,
    moved: Seq<Slot>,
    vs: Seq<CanvasView>,
    k: int,
) -> bool {
    &&& 0 <= k <= hints.len()
    &&& vs.len() == k + 1
    &&& moved.len() == k
    &&& forall|j: int| 0 <= j < k ==> #[trigger] setup_step(g0, hints, colors, moved, vs, j)
}

/// One more hint set up extends the steps by its moving slot and the canvas after it.
proof fn lemma_setup_steps_push(
    g0: Seq<Seq<Slot>>,
    hints: Seq<(BoardIdx, Hint)>,
    colors: Seq<(u16, Modifier, Modifier)>,
    moved: Seq<Slot>,
    vs: Seq<CanvasView>,
    k: int,
    s: Slot,
    w: CanvasView,
)
    requires
        setup_steps(g0, hints, colors, moved, vs, k),
        k < hints.len(),
        in_board(hint_target(hints[k].0, hints[k].1)),
        in_board(hints[k].0),
        hint_set_up(vs[k], hints[k].0, hints[k].1, grid_after(g0, hints, k)[hints[k].0.1 as int][hints[k].0.0 as int],
            colors, w, Ok::<Slot, Error>(s)),
    ensures
        setup_steps(g0, hints, colors, moved.push(s), vs.push(w), k + 1),
{
    assert forall|j: int| 0 <= j < k + 1 implies #[trigger] setup_step(g0, hints, colors, moved.push(s), vs.push(w), j) by {
        if j < k {
            assert(setup_step(g0, hints, colors, moved, vs, j));
            assert(moved.push(s)[j] == moved[j]);
            assert(vs.push(w)[j] == vs[j]);
            assert(vs.push(w)[j + 1] == vs[j + 1]);
        } else {
            assert(moved.push(s)[j] == s);
            assert(vs.push(w)[j] == vs[k]);
            assert(vs.push(w)[j + 1] == w);
        }
    }
}

/// How setting up the `k`-th hint fails, on canvas `v`, leaving the slots `g1` and the canvas
/// `w`: with the place of a target, or of a source, that the board does not have; otherwise as
/// `hint_set_up` fails, once its source was taken out.
pub open spec fn setup_failed(
    g0: Seq<Seq<Slot>>,
    hints: Seq<(BoardIdx, Hint)>,
    colors: Seq<(u16, Modifier, Modifier)>,
    v: CanvasView,
    k: int,
    g1: Seq<Seq<Slot>>,
    w: CanvasView,
    e: Error,
) -> bool {
    let idx = hints[k].0;
    let hint = hints[k].1;
    let target = hint_target(idx, hint);
    if !in_board(target) {
        &&& (e matches Error::UnableToRetrieveSlot { context }
            && context@ == "getting slot at "@ + decimal_chars(target.0 as nat) + ","@ + decimal_chars(target.1 as nat))
        &&& w == v
        &&& g1 == grid_after(g0, hints, k)
    } else if idx.1 >= 4 {
        &&& (e matches Error::UnableToRetrieveSlot { context } && context@ == "getting row "@ + decimal_chars(idx.1 as nat))
        &&& w == v
        &&& g1 == grid_after(g0, hints, k)
    } else if idx.0 >= 4 {
        &&& (e matches Error::UnableToRetrieveSlot { context }
            && context@ == "getting slot at "@ + decimal_chars(idx.0 as nat) + ","@ + decimal_chars(idx.1 as nat))
        &&& w == v
        &&& g1 == grid_after(g0, hints, k)
    } else {
        &&& g1 == grid_after(g0, hints, k + 1)
        &&& hint_set_up(v, idx, hint, grid_after(g0, hints, k)[idx.1 as int][idx.0 as int], colors, w, Err::<Slot, Error>(e))
    }
}

/// Whether setting up the animation of `hints` (see `Tui48Board::setup_animation`) takes the
/// board `tb0` on canvas `v0` to `tb1` on `v1` with result `r`: the hints are set up in order,
/// each taking its tile out of its source and adding a moving slot, until the first that
/// fails.
pub open spec fn set_up(
    tb0: Tui48Board,
    v0: CanvasView,
    hints: Seq<(BoardIdx, Hint)>,
    colors: Seq<(u16, Modifier, Modifier)>,
    tb1: Tui48Board,
    v1: CanvasView,
    r: Result<(), Error>,
) -> bool {
    let m0 = tb0.moving_slots@.len();
    let k = tb1.moving_slots@.len() - m0;
    let g0 = tb0.slot_grid();
    exists|vs: Seq<CanvasView>| {
        &&& #[trigger] setup_steps(g0, hints, colors, tb1.moving_slots@.subrange(m0 as int, tb1.moving_slots@.len() as int), vs, k)
        &&& vs[0] == v0
        &&& match r {
            Ok(()) => k == hints.len() && v1 == vs[k] && tb1.slot_grid() == grid_after(g0, hints, k),
            Err(e) => k < hints.len() && setup_failed(g0, hints, colors, vs[k], k, tb1.slot_grid(), v1, e),
        }
    }
}

/// The kept tiles with the first `k` taken out, leaving their slots empty.
pub open spec fn done_taken(done: Seq<(BoardIdx, Slot)>, k: int) -> Seq<(BoardIdx, Slot)> {
    Seq::new(done.len(), |j: int| if j < k { (done[j].0, Slot::Empty) } else { done[j] })
}

/// The slots with the first `k` taken out, leaving them empty.
pub open spec fn slots_taken(s: Seq<Slot>, k: int) -> Seq<Slot> {
    Seq::new(s.len(), |j: int| if j < k { Slot::Empty } else { s[j] })
}

/// Whether the `j`-th kept tile came to rest (see `to_static_post`) as `conv[j]`, from canvas
/// `vs[j]` to `vs[j + 1]`.
pub open spec fn rest_step(
    done: Seq<(BoardIdx, Slot)>,
    colors: Seq<(u16, Modifier, Modifier)>,
    conv: Seq<Slot>,
    vs: Seq<CanvasView>,
    j: int,
) -> bool {
    to_static_post(done[j].1, vs[j], colors, vs[j + 1], Ok::<Slot, Error>(conv[j]))
}

/// Whether the first `k` kept tiles came to rest in order (see `rest_step`).
pub open spec fn rest_steps(
    done: Seq<(BoardIdx, Slot)>,
    colors: Seq<(u16, Modifier, Modifier)>,
    conv: Seq<Slot>,
    vs: Seq<CanvasView>,
    k: int,
) -> bool {
    &&& 0 <= k <= done.len()
    &&& vs.len() == k + 1
    &&& conv.len() == k
    &&& forall|j: int| 0 <= j < k ==> #[trigger] rest_step(done, colors, conv, vs, j)
}

/// The slots `g` after the tiles of the first `n` slots of `s` were put at their places, in
/// order.
pub open spec fn grid_put(g: Seq<Seq<Slot>>, s: Seq<Slot>, n: int) -> Seq<Seq<Slot>>
    decreases n,
{
    if n <= 0 {
        g
    } else {
        let p = grid_put(g, s, n - 1);
        let i = slot_index(s[n - 1])->0;
        p.update(i.1 as int, p[i.1 as int].update(i.0 as int, s[n - 1]))
    }
}

/// Whether the tile of `s[j]` was put at its place on the board, releasing what the place
/// held, from canvas `vs[j]` to `vs[j + 1]`.
pub open spec fn put_step(g: Seq<Seq<Slot>>, s: Seq<Slot>, vs: Seq<CanvasView>, j: int) -> bool {
    let i = slot_index(s[j])->0;
    &&& slot_index(s[j]) is Some
    &&& in_board(i)
    &&& vs[j + 1] == slot_released(vs[j], grid_put(g, s, j)[i.1 as int][i.0 as int])
}

/// Whether the tiles of the first `n` slots of `s` were put at their places in order (see
/// `put_step`).
pub open spec fn put_steps(g: Seq<Seq<Slot>>, s: Seq<Slot>, vs: Seq<CanvasView>, n: int) -> bool {
    &&& 0 <= n <= s.len()
    &&& vs.len() == n + 1
    &&& forall|j: int| 0 <= j < n ==> #[trigger] put_step(g, s, vs, j)
}

/// The error of putting a tile at place `i`, off the board.
pub open spec fn off_board_error(i: BoardIdx, e: Error) -> bool {
    if i.1 >= 4 {
        e matches Error::UnableToRetrieveSlot { context } && context@ == "getting row "@ + decimal_chars(i.1 as nat)
    } else {
        e matches Error::UnableToRetrieveSlot { context }
            && context@ == "getting slot at "@ + decimal_chars(i.0 as nat) + ","@ + decimal_chars(i.1 as nat)
    }
}

/// One more kept tile at rest extends the steps by it and the canvas after it.
proof fn lemma_rest_steps_push(
    done: Seq<(BoardIdx, Slot)>,
    colors: Seq<(u16, Modifier, Modifier)>,
    conv: Seq<Slot>,
    vs: Seq<CanvasView>,
    k: int,
    s: Slot,
    w: CanvasView,
)
    requires
        rest_steps(done, colors, conv, vs, k),
        k < done.len(),
        to_static_post(done[k].1, vs[k], colors, w, Ok::<Slot, Error>(s)),
    ensures
        rest_steps(done, colors, conv.push(s), vs.push(w), k + 1),
{
    assert forall|j: int| 0 <= j < k + 1 implies #[trigger] rest_step(done, colors, conv.push(s), vs.push(w), j) by {
        if j < k {
            assert(rest_step(done, colors, conv, vs, j));
            assert(conv.push(s)[j] == conv[j]);
            assert(vs.push(w)[j] == vs[j]);
            assert(vs.push(w)[j + 1] == vs[j + 1]);
        } else {
            assert(conv.push(s)[j] == s);
            assert(vs.push(w)[j] == vs[k]);
            assert(vs.push(w)[j + 1] == w);
        }
    }
}

/// One more tile put at its place extends the steps by the canvas after it.
proof fn lemma_put_steps_push(g: Seq<Seq<Slot>>, s: Seq<Slot>, vs: Seq<CanvasView>, n: int, w: CanvasView)
    requires
        put_steps(g, s, vs, n),
        n < s.len(),
        slot_index(s[n]) is Some,
        in_board(slot_index(s[n])->0),
        w == slot_released(vs[n], grid_put(g, s, n)[(slot_index(s[n])->0).1 as int][(slot_index(s[n])->0).0 as int]),
    ensures
        put_steps(g, s, vs.push(w), n + 1),
{
    assert forall|j: int| 0 <= j < n + 1 implies #[trigger] put_step(g, s, vs.push(w), j) by {
        if j < n {
            assert(put_step(g, s, vs, j));
            assert(vs.push(w)[j] == vs[j]);
            assert(vs.push(w)[j + 1] == vs[j + 1]);
        } else {
            assert(vs.push(w)[j] == vs[n]);
            assert(vs.push(w)[j + 1] == w);
        }
    }
}

/// Whether the kept tiles, once at rest as `conv`, were put at their places from canvas `v`
/// (see `put_steps`), taking the board `tb0` to `tb1` on canvas `v1` with result `r`: until the
/// first whose place is off the board, which fails, releasing the buffers of the tiles not yet
/// put; when all are put the moving tiles are dropped, their buffers released.
pub open spec fn tiles_put(tb0: Tui48Board, conv: Seq<Slot>, v: CanvasView, tb1: Tui48Board, v1: CanvasView, r: Result<(), Error>) -> bool {
    let n = conv.len();
    let g0 = tb0.slot_grid();
    exists|vs: Seq<CanvasView>, m: int| {
        &&& #[trigger] put_steps(g0, conv, vs, m)
        &&& vs[0] == v
        &&& tb1.slot_grid() == grid_put(g0, conv, m)
        &&& if m < n {
            &&& slot_index(conv[m]) is Some
            &&& !in_board(slot_index(conv[m])->0)
            &&& r matches Err(e) && off_board_error(slot_index(conv[m])->0, e)
            &&& v1 == slots_released(slot_released(vs[m], conv[m]), slots_taken(conv, m + 1))
            &&& tb1.moving_slots@ == tb0.moving_slots@
        } else {
            &&& r is Ok
            &&& tb1.moving_slots@.len() == 0
            &&& v1 == slots_released(vs[n as int], tb0.moving_slots@)
        }
    }
}

/// Whether ending the animation (see `Tui48Board::teardown_animation`) takes the board `tb0` on
/// canvas `v0` to `tb1` on `v1` with result `r`: the kept tiles come to rest in order (see
/// `rest_steps`); at the first that fails, the buffers of those at rest and of those left are
/// released and its error is the result; when all came to rest they are put at their places
/// (see `tiles_put`).
pub open spec fn torn_down(
    tb0: Tui48Board,
    v0: CanvasView,
    colors: Seq<(u16, Modifier, Modifier)>,
    tb1: Tui48Board,
    v1: CanvasView,
    r: Result<(), Error>,
) -> bool {
    let done = tb0.done_slots@;
    exists|conv: Seq<Slot>, vs: Seq<CanvasView>, k: int| {
        &&& #[trigger] rest_steps(done, colors, conv, vs, k)
        &&& vs[0] == v0
        &&& if k < done.len() {
            exists|w: CanvasView, e: Error| {
                &&& #[trigger] to_static_post(done[k].1, vs[k], colors, w, Err::<Slot, Error>(e))
                &&& r == Err::<(), Error>(e)
                &&& v1 == slots_released(slots_released(w, conv), done_slots_of(done_taken(done, k + 1)))
                &&& tb1.moving_slots@ == tb0.moving_slots@
                &&& tb1.slot_grid() == tb0.slot_grid()
            }
        } else {
            tiles_put(tb0, conv, vs[k], tb1, v1, r)
        }
    }
}

/// Whether `v` is a new canvas of `width` columns and `height` rows: every cell empty, no
/// buffer, nothing changed and nothing to reclaim.
pub open spec fn fresh_canvas(v: CanvasView, width: int, height: int) -> bool {
    &&& v.rectangle == Rectangle(Idx(0, 0, 0), Bounds2D(width as usize, height as usize))
    &&& forall|x: int, y: int, z: int|
        0 <= x < width && 0 <= y < height && 0 <= z < crate::tui::canvas::CANVAS_DEPTH ==> #[trigger] v.cell(x, y, z) is Empty
    &&& v.buffers.len() == 0
    &&& v.changed.len() == 0
    &&& v.released.len() == 0
}

/// Whether draw buffer `id` of the canvas is live and large enough for the score.
pub open spec fn score_fits(canvas: Canvas, id: int) -> bool {
    &&& canvas.live(id)
    &&& canvas.buf(id).rectangle.1.0 >= 6
    &&& canvas.buf(id).rectangle.1.1 >= 2
}

impl Tui48Board {
    /// Whether the board holds four rows of four slots.
    pub open spec fn wf(&self) -> bool {
        &&& self.slots@.len() == 4
        &&& forall|y: int| 0 <= y < 4 ==> #[trigger] self.slots@[y]@.len() == 4
    }

    /// The slots, row by row.
    pub open spec fn slot_grid(&self) -> Seq<Seq<Slot>> {
        Seq::new(self.slots@.len(), |y: int| self.slots@[y]@)
    }

    /// Takes the slot at `idx` out of the board, leaving it empty; fails with the row, or the
    /// place, that the board does not have.
    pub fn get_slot(&mut self, idx: &BoardIdx) -> (r: Result<Slot, Error>)
        ensures
            idx.1 >= old(self).slots@.len() ==> (r matches Err(Error::UnableToRetrieveSlot { context }) && context@ == "getting row "@ + decimal_chars(idx.1 as nat))
                && *final(self) == *old(self),
            idx.1 < old(self).slots@.len() && idx.0 >= old(self).slots@[idx.1 as int]@.len() ==> (r matches Err(Error::UnableToRetrieveSlot { context })
                && context@ == "getting slot at "@ + decimal_chars(idx.0 as nat) + ","@ + decimal_chars(idx.1 as nat)) && *final(self) == *old(self),
            idx.1 < old(self).slots@.len() && idx.0 < old(self).slots@[idx.1 as int]@.len() ==> r == Ok::<Slot, Error>(old(self).slot_grid()[idx.1 as int][idx.0 as int])
                && final(self).slot_grid() == old(self).slot_grid().update(idx.1 as int, old(self).slot_grid()[idx.1 as int].update(idx.0 as int, Slot::Empty))
                && final(self).board == old(self).board && final(self).score == old(self).score
                && final(self).moving_slots@ == old(self).moving_slots@ && final(self).done_slots@ == old(self).done_slots@
                && final(self).disappearing_slots@ == old(self).disappearing_slots@,
            old(self).wf() ==> final(self).wf(),
    {
        if idx.1 >= self.slots.len() {
            return Err(Error::UnableToRetrieveSlot { context: row_context(idx.1) });
        }
        if idx.0 >= self.slots[idx.1].len() {
            return Err(Error::UnableToRetrieveSlot { context: slot_context(idx.0, idx.1) });
        }
        let ghost g = self.slot_grid();
        let ghost old_slots = self.slots@;
        let mut s = Slot::Empty;
        std::mem::swap(&mut self.slots[idx.1][idx.0], &mut s);
        proof {
            assert(self.slot_grid() =~= g.update(idx.1 as int, g[idx.1 as int].update(idx.0 as int, Slot::Empty)));
            assert forall|y: int| 0 <= y < self.slots@.len() implies #[trigger] self.slots@[y]@.len() == old_slots[y]@.len() by {}
        }
        Ok(s)
    }

    /// Puts `slot` at `idx`, releasing the tile that was there, if any; fails as `get_slot` does.
    pub fn put_slot(&mut self, idx: &BoardIdx, slot: Slot, canvas: &mut Canvas) -> (r: Result<(), Error>)
        requires
            old(canvas).wf(),
        ensures
            final(canvas).wf(),
            idx.1 >= old(self).slots@.len() ==> (r matches Err(Error::UnableToRetrieveSlot { context }) && context@ == "getting row "@ + decimal_chars(idx.1 as nat))
                && *final(self) == *old(self) && final(canvas)@ == slot_released(old(canvas)@, slot),
            idx.1 < old(self).slots@.len() && idx.0 >= old(self).slots@[idx.1 as int]@.len() ==> (r matches Err(Error::UnableToRetrieveSlot { context })
                && context@ == "getting slot at "@ + decimal_chars(idx.0 as nat) + ","@ + decimal_chars(idx.1 as nat)) && *final(self) == *old(self)
                && final(canvas)@ == slot_released(old(canvas)@, slot),
            idx.1 < old(self).slots@.len() && idx.0 < old(self).slots@[idx.1 as int]@.len() ==> r is Ok
                && final(self).slot_grid() == old(self).slot_grid().update(idx.1 as int, old(self).slot_grid()[idx.1 as int].update(idx.0 as int, slot))
                && final(canvas)@ == slot_released(old(canvas)@, old(self).slot_grid()[idx.1 as int][idx.0 as int])
                && final(self).board == old(self).board && final(self).score == old(self).score
                && final(self).moving_slots@ == old(self).moving_slots@ && final(self).done_slots@ == old(self).done_slots@
                && final(self).disappearing_slots@ == old(self).disappearing_slots@,
            old(self).wf() ==> final(self).wf(),
    {
        if idx.1 >= self.slots.len() {
            slot.release(canvas);
            return Err(Error::UnableToRetrieveSlot { context: row_context(idx.1) });
        }
        if idx.0 >= self.slots[idx.1].len() {
            slot.release(canvas);
            return Err(Error::UnableToRetrieveSlot { context: slot_context(idx.0, idx.1) });
        }
        let ghost g = self.slot_grid();
        let ghost old_slots = self.slots@;
        let mut s = slot;
        std::mem::swap(&mut self.slots[idx.1][idx.0], &mut s);
        proof {
            assert(self.slot_grid() =~= g.update(idx.1 as int, g[idx.1 as int].update(idx.0 as int, slot)));
            assert forall|y: int| 0 <= y < self.slots@.len() implies #[trigger] self.slots@[y]@.len() == old_slots[y]@.len() by {}
        }
        s.release(canvas);
        Ok(())
    }

    /// The interface's board for the latest round of `game`: the board's buffer with its border,
    /// the score's buffer with the score, and a drawn tile for every slot of the round that holds
    /// one; the board's buffer is then blanked inside and colored. Fails with the canvas's size
    /// when the canvas is too small (see `get_validated_dimensions`), or when a buffer cannot be
    /// taken from the canvas. On a blank canvas large enough for the board, nothing fails. What
    /// the canvas then shows is given step by step by `board_built`; every cell that the board
    /// does not cover (see `board_covers`) holds what it held, once the canvas was reclaimed.
    pub fn new(game: &Board, canvas: &mut Canvas, colors: &Colors) -> (r: Result<Tui48Board, Error>)
        requires
            old(canvas).wf(),
            game.wf(),
        ensures
            final(canvas).wf(),
            ({
                let (cw, ch) = (old(canvas)@.width(), old(canvas)@.height());
                &&& cw < 41 || ch < 30 ==> (r matches Err(Error::TerminalTooSmall(w, h)) && w == cw && h == ch) && final(canvas)@ == old(canvas)@
                &&& r matches Err(Error::TerminalTooSmall(_, _)) ==> cw < 41 || ch < 30
                &&& (canvas_blank(old(canvas)@) && cw >= 41 && ch >= 30) ==> r is Ok
                &&& r matches Ok(tb) ==> {
                    &&& tb.wf()
                    &&& tb.moving_slots@.len() == 0
                    &&& tb.done_slots@.len() == 0
                    &&& tb.disappearing_slots@.len() == 0
                    &&& shows_round(tb, game.latest())
                    &&& drawn_in_place(final(canvas)@, tb)
                    &&& board_built(old(canvas)@, game.latest(), colors.card_colors@, tb, final(canvas)@)
                    &&& uncovered_kept(crate::tui::canvas::reclaimed(old(canvas)@), final(canvas)@, game.latest(), 0, 4)
                }
            }),
    {
        let (cwidth, cheight) = canvas.dimensions();
        let (board_rectangle, score_rectangle) = match get_validated_dimensions(cwidth, cheight) {
            Ok(p) => p,
            Err(e) => {
                return Err(e);
            },
        };
        let ghost before_board = canvas@;
        let ghost fresh = canvas_blank(before_board) && cwidth >= 41 && cheight >= 30;
        proof {
            if fresh {
                assert forall|i: int, j: int| 0 <= i < 4 && 0 <= j < 4 implies rect_empty(before_board, #[trigger] spec_tile_rectangle(i, j, TILE_LAYER_IDX)) by {
                    assert forall|x: int, y: int| crate::tui::canvas::in_rect(spec_tile_rectangle(i, j, TILE_LAYER_IDX), x, y)
                        implies #[trigger] before_board.cell(x, y, TILE_LAYER_IDX as int) is Empty by {}
                }
                assert forall|x: int, y: int| crate::tui::canvas::in_rect(board_rectangle, x, y)
                    implies #[trigger] before_board.cell(x, y, board_rectangle.0.2 as int) is Empty by {}
                assert forall|x: int, y: int| crate::tui::canvas::in_rect(score_rectangle, x, y)
                    implies #[trigger] before_board.cell(x, y, score_rectangle.0.2 as int) is Empty by {}
            }
        }
        let taken = canvas.get_draw_buffer(board_rectangle);
        proof {
            crate::tui::canvas::lemma_reclaim_frame(before_board, before_board.released.len() as int);
            if fresh {
                lemma_taken_over_empty(before_board, board_rectangle, canvas@, taken);
                lemma_rect_empty_kept(before_board, canvas@, board_rectangle, score_rectangle);
                assert forall|i: int, j: int| 0 <= i < 4 && 0 <= j < 4 implies rect_empty(canvas@, #[trigger] spec_tile_rectangle(i, j, TILE_LAYER_IDX)) by {
                    lemma_rect_empty_kept(before_board, canvas@, board_rectangle, spec_tile_rectangle(i, j, TILE_LAYER_IDX));
                }
            }
        }
        let board = match taken {
            Ok(b) => b,
            Err(e) => {
                return Err(tui_error(e));
            },
        };
        proof {
            lemma_buffer_taken_frame(before_board, board_rectangle, canvas@, Ok::<DrawBuffer, TuiError>(board));
            assert(crate::tui::canvas::buffer_taken(before_board, board_rectangle, canvas@, taken));
            assert(before_board.height() >= 30);
        }
        let ghost base = crate::tui::canvas::reclaimed(before_board);
        proof {
            lemma_taken_cells(before_board, board_rectangle, canvas@, board);
            crate::tui::canvas::lemma_reclaim_frame(before_board, before_board.released.len() as int);
            assert(uncovered_kept(base, canvas@, game.latest(), 0, 0));
        }
        let ghost after_board = canvas@;
        let bordered = board.draw_border(canvas);
        let ghost before_score = canvas@;
        proof {
            assert(border_post(vbuf(after_board, board.id as int), vbuf(before_score, board.id as int), after_board.changed,
                before_score.changed, err_of(bordered)));
        }
        match bordered {
            Ok(()) => {},
            Err(e) => {
                board.release(canvas);
                return Err(tui_error(e));
            },
        }
        proof {
            if fresh {
                assert(before_score.cells == after_board.cells);
                assert(before_score.released == after_board.released);
                assert forall|x: int, y: int| crate::tui::canvas::in_rect(score_rectangle, x, y)
                    implies #[trigger] before_score.cell(x, y, score_rectangle.0.2 as int) is Empty by {
                    assert(after_board.cell(x, y, score_rectangle.0.2 as int) is Empty);
                }
                assert forall|i: int, j: int| 0 <= i < 4 && 0 <= j < 4 implies rect_empty(before_score, #[trigger] spec_tile_rectangle(i, j, TILE_LAYER_IDX)) by {
                    assert(rect_empty(after_board, spec_tile_rectangle(i, j, TILE_LAYER_IDX)));
                    assert forall|x: int, y: int| crate::tui::canvas::in_rect(spec_tile_rectangle(i, j, TILE_LAYER_IDX), x, y)
                        implies #[trigger] before_score.cell(x, y, TILE_LAYER_IDX as int) is Empty by {
                        assert(after_board.cell(x, y, TILE_LAYER_IDX as int) is Empty);
                    }
                }
            }
        }
        let taken = canvas.get_draw_buffer(score_rectangle);
        proof {
            if fresh {
                lemma_taken_over_empty(before_score, score_rectangle, canvas@, taken);
                assert forall|i: int, j: int| 0 <= i < 4 && 0 <= j < 4 implies rect_empty(canvas@, #[trigger] spec_tile_rectangle(i, j, TILE_LAYER_IDX)) by {
                    assert(rect_empty(before_score, spec_tile_rectangle(i, j, TILE_LAYER_IDX)));
                    lemma_rect_empty_kept(before_score, canvas@, score_rectangle, spec_tile_rectangle(i, j, TILE_LAYER_IDX));
                }
            }
        }
        let score = match taken {
            Ok(b) => b,
            Err(e) => {
                board.release(canvas);
                return Err(tui_error(e));
            },
        };
        let ghost board_id = board.id as int;
        let ghost score_id = score.id as int;
        proof {
            lemma_buffer_taken_frame(before_score, score_rectangle, canvas@, Ok::<DrawBuffer, TuiError>(score));
        }
        let ghost before_draw = canvas@;
        let ghost cs = colors.card_colors@;
        proof {
            assert(crate::tui::canvas::buffer_taken(before_score, score_rectangle, before_draw, Ok::<DrawBuffer, TuiError>(score)));
        }
        match draw_score(&score, canvas, game.score()) {
            Ok(()) => {},
            Err(e) => {
                score.release(canvas);
                board.release(canvas);
                return Err(e);
            },
        }
        proof {
            lemma_score_drawn_frame(before_draw, canvas@, score.id as int, game.latest().score);
            if fresh {
                assert forall|i: int, j: int| 0 <= i < 4 && 0 <= j < 4 implies rect_empty(canvas@, #[trigger] spec_tile_rectangle(i, j, TILE_LAYER_IDX)) by {
                    assert(rect_empty(before_draw, spec_tile_rectangle(i, j, TILE_LAYER_IDX)));
                    assert forall|xx: int, yy: int| crate::tui::canvas::in_rect(spec_tile_rectangle(i, j, TILE_LAYER_IDX), xx, yy)
                        implies #[trigger] canvas@.cell(xx, yy, TILE_LAYER_IDX as int) is Empty by {
                        assert(before_draw.cell(xx, yy, TILE_LAYER_IDX as int) is Empty);
                    }
                }
            }
        }
        let ghost vd = canvas@;
        proof {
            assert(score_drawn(before_draw, vd, score.id as int, game.latest().score));
            assert(before_score.cells == after_board.cells);
            lemma_reclaimed_nothing(before_score);
            lemma_taken_cells(before_score, score_rectangle, before_draw, score);
            assert(uncovered_kept(base, vd, game.latest(), 0, 0));
        }
        let ghost mut vt: Seq<CanvasView> = seq![canvas@];
        let (width, height) = game.dimensions();
        let round = game.current();
        let mut slots: Vec<Vec<Slot>> = Vec::new();
        let mut y: usize = 0;
        while y < height
            invariant
                canvas.wf(),
                height == 4,
                width == 4,
                *round == game.latest(),
                y <= 4,
                slots@.len() == y,
                forall|j: int| 0 <= j < y ==> #[trigger] slots@[j]@.len() == 4,
                forall|x: int, j: int| 0 <= x < 4 && 0 <= j < y ==> {
                    let value = crate::engine::round::slot_value(round.slots, BoardIdx(x as usize, j as usize));
                    &&& value == 0 ==> #[trigger] slots@[j]@[x] == Slot::Empty
                    &&& value > 0 ==> (slots@[j]@[x] matches Slot::Static(t) && t.value == value && t.idx == BoardIdx(x as usize, j as usize))
                },
                canvas.live(board_id),
                canvas.buf(board_id).rectangle == board_rectangle,
                board_rectangle == Rectangle(Idx(5, 5, BOARD_LAYER_IDX), Bounds2D(36, 25)),
                is_live(canvas@, score_id),
                rect_of(canvas@, score_id) == Rectangle(Idx(18, 1, BOARD_LAYER_IDX), Bounds2D(10, 3)),
                forall|i: int, j: int| 0 <= i < 4 && 0 <= j < y ==> (#[trigger] slots@[j]@[i] matches Slot::Static(t)
                    ==> is_live(canvas@, t.buf.id as int) && rect_of(canvas@, t.buf.id as int) == spec_tile_rectangle(i, j, TILE_LAYER_IDX)),
                !(old(canvas)@.width() < 41 || old(canvas)@.height() < 30),
                old(canvas)@.height() >= 30,
                fresh == (canvas_blank(old(canvas)@) && old(canvas)@.width() >= 41 && old(canvas)@.height() >= 30),
                fresh ==> canvas@.released.len() == 0 && canvas@.rectangle == old(canvas)@.rectangle,
                fresh ==> forall|i: int, j: int| 0 <= i < 4 && y <= j < 4 ==> rect_empty(canvas@, #[trigger] spec_tile_rectangle(i, j, TILE_LAYER_IDX)),
                cs == colors.card_colors@,
                vt.len() == 4 * y + 1,
                vt[0] == vd,
                vt[4 * y as int] == canvas@,
                forall|i: int, j: int| 0 <= i < 4 && 0 <= j < y ==> #[trigger] tile_step(*round, cs, slots@[j]@[i], vt, i, j),
                base == crate::tui::canvas::reclaimed(old(canvas)@),
                base.rectangle == canvas@.rectangle,
                canvas@.released.len() == 0,
                uncovered_kept(base, canvas@, *round, 0, y as int),
            decreases 4 - y,
        {
            let mut row: Vec<Slot> = Vec::new();
            let mut x: usize = 0;
            while x < width
                invariant
                    canvas.wf(),
                    height == 4,
                    width == 4,
                    *round == game.latest(),
                    y < 4,
                    x <= 4,
                    row@.len() == x,
                    forall|i: int| 0 <= i < x ==> {
                        let value = crate::engine::round::slot_value(round.slots, BoardIdx(i as usize, y));
                        &&& value == 0 ==> #[trigger] row@[i] == Slot::Empty
                        &&& value > 0 ==> (row@[i] matches Slot::Static(t) && t.value == value && t.idx == BoardIdx(i as usize, y))
                    },
                    canvas.live(board_id),
                    canvas.buf(board_id).rectangle == board_rectangle,
                    board_rectangle == Rectangle(Idx(5, 5, BOARD_LAYER_IDX), Bounds2D(36, 25)),
                    is_live(canvas@, score_id),
                    rect_of(canvas@, score_id) == Rectangle(Idx(18, 1, BOARD_LAYER_IDX), Bounds2D(10, 3)),
                    forall|i: int, j: int| 0 <= i < 4 && 0 <= j < y ==> (#[trigger] slots@[j]@[i] matches Slot::Static(t)
                        ==> is_live(canvas@, t.buf.id as int) && rect_of(canvas@, t.buf.id as int) == spec_tile_rectangle(i, j, TILE_LAYER_IDX)),
                    forall|i: int| 0 <= i < x ==> (#[trigger] row@[i] matches Slot::Static(t)
                        ==> is_live(canvas@, t.buf.id as int) && rect_of(canvas@, t.buf.id as int) == spec_tile_rectangle(i, y as int, TILE_LAYER_IDX)),
                    !(old(canvas)@.width() < 41 || old(canvas)@.height() < 30),
                    old(canvas)@.height() >= 30,
                    fresh == (canvas_blank(old(canvas)@) && old(canvas)@.width() >= 41 && old(canvas)@.height() >= 30),
                    fresh ==> canvas@.released.len() == 0 && canvas@.rectangle == old(canvas)@.rectangle,
                    fresh ==> forall|i: int, j: int| 0 <= i < 4 && ((j == y && x <= i) || (y < j < 4)) ==> rect_empty(canvas@, #[trigger] spec_tile_rectangle(i, j, TILE_LAYER_IDX)),
                    cs == colors.card_colors@,
                    vt.len() == 4 * y + x + 1,
                    vt[0] == vd,
                    vt[4 * y + x] == canvas@,
                    forall|i: int, j: int| 0 <= i < 4 && 0 <= j < y ==> #[trigger] tile_step(*round, cs, slots@[j]@[i], vt, i, j),
                    forall|i: int| 0 <= i < x ==> #[trigger] tile_step(*round, cs, row@[i], vt, i, y as int),
                    base == crate::tui::canvas::reclaimed(old(canvas)@),
                    base.rectangle == canvas@.rectangle,
                    canvas@.released.len() == 0,
                    uncovered_kept(base, canvas@, *round, x as int, y as int),
                decreases 4 - x,
            {
                let mut opt = Slot::Empty;
                let ghost vstart = canvas@;
                let ghost mut mid: CanvasView = canvas@;
                let value = round.get(&BoardIdx(x, y));
                if value > 0 {
                    let r = tile_rectangle(x, y, TILE_LAYER_IDX);
                    let ghost v0 = canvas@;
                    let taken = canvas.get_draw_buffer(r);
                    proof {
                        if fresh {
                            assert(rect_empty(v0, spec_tile_rectangle(x as int, y as int, TILE_LAYER_IDX)));
                            lemma_taken_over_empty(v0, r, canvas@, taken);
                            assert forall|i: int, j: int| 0 <= i < 4 && ((j == y && x + 1 <= i) || (y < j < 4))
                                implies rect_empty(canvas@, #[trigger] spec_tile_rectangle(i, j, TILE_LAYER_IDX)) by {
                                assert(rect_empty(v0, spec_tile_rectangle(i, j, TILE_LAYER_IDX)));
                                lemma_rect_empty_kept(v0, canvas@, r, spec_tile_rectangle(i, j, TILE_LAYER_IDX));
                            }
                        }
                    }
                    let card_buffer = match taken {
                        Ok(b) => b,
                        Err(e) => {
                            release_all(row, canvas);
                            release_rows(slots, canvas);
                            score.release(canvas);
                            board.release(canvas);
                            return Err(tui_error(e));
                        },
                    };
                    proof {
                        lemma_taken_cells(v0, r, canvas@, card_buffer);
                        lemma_reclaimed_nothing(v0);
                        lemma_buffer_taken_frame(v0, r, canvas@, Ok::<DrawBuffer, TuiError>(card_buffer));
                        assert(canvas.buf(card_buffer.id as int).rectangle.1 == Bounds2D(6, 5));
                    }
                    let ghost v1 = canvas@;
                    match draw_tile(&card_buffer, canvas, value, colors) {
                        Ok(()) => {},
                        Err(e) => {
                            card_buffer.release(canvas);
                            release_all(row, canvas);
                            release_rows(slots, canvas);
                            score.release(canvas);
                            board.release(canvas);
                            return Err(e);
                        },
                    }
                    proof {
                        lemma_tile_drawn_frame(v1, canvas@, card_buffer.id as int, value, colors.card_colors@);
                        assert(v1.buffers[board_id] == canvas@.buffers[board_id]);
                        if fresh {
                            assert forall|i: int, j: int| 0 <= i < 4 && ((j == y && x + 1 <= i) || (y < j < 4))
                                implies rect_empty(canvas@, #[trigger] spec_tile_rectangle(i, j, TILE_LAYER_IDX)) by {
                                assert(rect_empty(v1, spec_tile_rectangle(i, j, TILE_LAYER_IDX)));
                                assert forall|xx: int, yy: int| crate::tui::canvas::in_rect(spec_tile_rectangle(i, j, TILE_LAYER_IDX), xx, yy)
                                    implies #[trigger] canvas@.cell(xx, yy, TILE_LAYER_IDX as int) is Empty by {
                                    assert(v1.cell(xx, yy, TILE_LAYER_IDX as int) is Empty);
                                }
                            }
                        }
                    }
                    opt = Slot::Static(Tile::new(value, BoardIdx(x, y), card_buffer));
                    proof {
                        assert(crate::tui::canvas::buffer_taken(vt[4 * y + x], spec_tile_rectangle(x as int, y as int, TILE_LAYER_IDX), v1,
                            Ok::<DrawBuffer, TuiError>(card_buffer)));
                        assert(tile_drawn(v1, canvas@, card_buffer.id as int, value, cs));
                        mid = v1;
                    }
                }
                let ghost vt0 = vt;
                let ghost row0 = row@;
                row.push(opt);
                proof {
                    lemma_uncovered_kept_step(base, vstart, canvas@, *round, x as int, y as int);
                    vt = vt.push(canvas@);
                    assert(vt[4 * y + x] == vt0[4 * y + x]);
                    assert(vt[4 * y + x + 1] == canvas@);
                    if value > 0 {
                        let t = opt->Static_0;
                        assert(crate::tui::canvas::buffer_taken(vt[4 * y + x], spec_tile_rectangle(x as int, y as int, TILE_LAYER_IDX), mid,
                            Ok::<DrawBuffer, TuiError>(t.buf)));
                        assert(tile_drawn(mid, vt[4 * y + x + 1], t.buf.id as int, value, cs));
                    }
                    assert(tile_step(*round, cs, opt, vt, x as int, y as int));
                    assert forall|i: int, j: int| 0 <= i < 4 && 0 <= j < y implies #[trigger] tile_step(*round, cs, slots@[j]@[i], vt, i, j) by {
                        lemma_tile_step_push(*round, cs, slots@[j]@[i], vt0, i, j, canvas@);
                    }
                    assert forall|i: int| 0 <= i < x + 1 implies #[trigger] tile_step(*round, cs, row@[i], vt, i, y as int) by {
                        if i < x {
                            assert(row@[i] == row0[i]);
                            lemma_tile_step_push(*round, cs, row0[i], vt0, i, y as int, canvas@);
                        }
                    }
                }
                x = x + 1;
            }
            let ghost slots0 = slots@;
            slots.push(row);
            proof {
                lemma_uncovered_kept_more(base, canvas@, *round, 4, y as int, 0, y + 1);
                assert forall|i: int, j: int| 0 <= i < 4 && 0 <= j < y + 1 implies #[trigger] tile_step(*round, cs, slots@[j]@[i], vt, i, j) by {
                    if j < y {
                        assert(slots@[j] == slots0[j]);
                    } else {
                        assert(slots@[j]@[i] == row@[i]);
                    }
                }
            }
            y = y + 1;
        }
        let ghost v16 = canvas@;
        match board.fill(canvas, ' ') {
            Ok(()) => {},
            Err(e) => {
                release_rows(slots, canvas);
                score.release(canvas);
                board.release(canvas);
                return Err(tui_error(e));
            },
        }
        let ghost ve = canvas@;
        board.modify(canvas, Modifier::SetBackgroundColor(40, 0, 0));
        let ghost m1 = canvas@;
        board.modify(canvas, Modifier::SetBGLightness(200));
        let ghost m2 = canvas@;
        board.modify(canvas, Modifier::SetForegroundColor(25, 50, 75));
        let ghost m3 = canvas@;
        board.modify(canvas, Modifier::SetFGLightness(600));
        let tb = Tui48Board {
            board,
            score,
            slots,
            moving_slots: Vec::new(),
            done_slots: Vec::new(),
            disappearing_slots: Vec::new(),
        };
        proof {
            let b = board.id as int;
            assert(vbuf(canvas@, b).modifiers =~= vbuf(ve, b).modifiers + seq![
                Modifier::SetBackgroundColor(40, 0, 0),
                Modifier::SetBGLightness(200),
                Modifier::SetForegroundColor(25, 50, 75),
                Modifier::SetFGLightness(600),
            ]);
            assert(vbuf(canvas@, b) == board_colored(ve, b).buffers[b].unwrap());
            assert(m1.buffers.len() == ve.buffers.len());
            assert(canvas@.buffers =~= board_colored(ve, b).buffers);
            assert(canvas@ == board_colored(ve, b));
            assert forall|i: int, j: int| 0 <= i < 4 && 0 <= j < 4 implies #[trigger] tile_step(game.latest(), cs, tb.slot_grid()[j][i], vt, i, j) by {
                assert(tb.slot_grid()[j][i] == slots@[j]@[i]);
            }
            assert(board_steps(before_board, after_board, before_score, before_draw, vd, vt, ve, canvas@, game.latest(), cs, tb));
            assert(canvas@.cells == v16.cells);
            assert(uncovered_kept(base, v16, game.latest(), 0, 4));
            assert forall|x: int, y: int, z: int|
                0 <= x < base.width() && 0 <= y < base.height() && 0 <= z < crate::tui::canvas::CANVAS_DEPTH
                    && !board_covers_before(game.latest(), 0, 4, x, y, z) implies #[trigger] canvas@.cell(x, y, z) == base.cell(x, y, z) by {
                assert(v16.cell(x, y, z) == base.cell(x, y, z));
            }
        }
        Ok(tb)
    }

    /// Sets up the animation of a shift from its hints, in order: each tile that moves leaves its
    /// slot and starts moving to its target on the upper animation layer (taking its new value
    /// there, if any), and the new tile starts sliding in from outside the board on the lower
    /// animation layer; each joins the moving tiles. Stops at the first hint that fails: a slot
    /// that the board does not have, an empty slot, a target off the board, or a failure of the
    /// canvas.
    pub fn setup_animation(&mut self, canvas: &mut Canvas, hints: AnimationHint, colors: &Colors) -> (r: Result<(), Error>)
        requires
            old(canvas).wf(),
            old(self).wf(),
        ensures
            final(canvas).wf(),
            final(self).wf(),
            final(self).board == old(self).board,
            final(self).score == old(self).score,
            final(self).done_slots@ == old(self).done_slots@,
            final(self).disappearing_slots@ == old(self).disappearing_slots@,
            final(self).moving_slots@.len() >= old(self).moving_slots@.len(),
            final(self).moving_slots@.subrange(0, old(self).moving_slots@.len() as int) == old(self).moving_slots@,
            r is Ok ==> final(self).moving_slots@.len() == old(self).moving_slots@.len() + hints@.len(),
            forall|k: int| 0 <= k < final(self).moving_slots@.len() - old(self).moving_slots@.len() ==> {
                let (idx, hint) = hints@[k];
                let target = hint_target(idx, hint);
                &&& #[trigger] final(self).moving_slots@[old(self).moving_slots@.len() + k] matches Slot::Sliding(st)
                &&& st.inner.idx == target
                &&& st.is_animating
                &&& st.new_value == hint_new_value(hint)
                &&& st.to_rectangle == spec_tile_rectangle(target.0 as int, target.1 as int, hint_layer(hint))
                &&& (hint matches Hint::NewValueToIdx(v, _) ==> st.inner.value == v)
                &&& (hint matches Hint::NewTile(v, _) ==> st.inner.value == v)
                &&& idx.0 < 4 && idx.1 < 4
                &&& final(self).slot_grid()[idx.1 as int][idx.0 as int] == Slot::Empty
            },
            set_up(*old(self), old(canvas)@, hints@, colors.card_colors@, *final(self), final(canvas)@, r),
    {
        let all = hints.hints();
        let ghost m0 = self.moving_slots@.len();
        let ghost g0 = self.slot_grid();
        let ghost cs = colors.card_colors@;
        let ghost mut vs: Seq<CanvasView> = seq![canvas@];
        let mut k: usize = 0;
        proof {
            assert(self.moving_slots@.subrange(m0 as int, m0 as int) =~= Seq::<Slot>::empty());
            assert(setup_steps(g0, hints@, cs, self.moving_slots@.subrange(m0 as int, m0 as int), vs, 0));
        }
        while k < all.len()
            invariant
                canvas.wf(),
                self.wf(),
                all@ == hints@,
                k <= all@.len(),
                self.board == old(self).board,
                self.score == old(self).score,
                self.done_slots@ == old(self).done_slots@,
                self.disappearing_slots@ == old(self).disappearing_slots@,
                m0 == old(self).moving_slots@.len(),
                g0 == old(self).slot_grid(),
                cs == colors.card_colors@,
                self.slot_grid() == grid_after(g0, hints@, k as int),
                setup_steps(g0, hints@, cs, self.moving_slots@.subrange(m0 as int, m0 + k), vs, k as int),
                vs[0] == old(canvas)@,
                vs[k as int] == canvas@,
                self.moving_slots@.len() == m0 + k,
                self.moving_slots@.subrange(0, m0 as int) == old(self).moving_slots@,
                forall|j: int| 0 <= j < k ==> {
                    let (idx, hint) = hints@[j];
                    let target = hint_target(idx, hint);
                    &&& #[trigger] self.moving_slots@[m0 + j] matches Slot::Sliding(st)
                    &&& st.inner.idx == target
                    &&& st.is_animating
                    &&& st.new_value == hint_new_value(hint)
                    &&& st.to_rectangle == spec_tile_rectangle(target.0 as int, target.1 as int, hint_layer(hint))
                    &&& (hint matches Hint::NewValueToIdx(v, _) ==> st.inner.value == v)
                    &&& (hint matches Hint::NewTile(v, _) ==> st.inner.value == v)
                    &&& idx.0 < 4 && idx.1 < 4
                    &&& self.slot_grid()[idx.1 as int][idx.0 as int] == Slot::Empty
                },
            decreases all@.len() - k,
        {
            let (idx, hint) = all[k];
            let target = match hint {
                Hint::ToIdx(to) => to,
                Hint::NewValueToIdx(_, to) => to,
                Hint::NewTile(_, _) => idx,
            };
            proof {
                assert(all@[k as int] == hints@[k as int]);
            }
            if target.0 >= 4 || target.1 >= 4 {
                let e = Error::UnableToRetrieveSlot { context: slot_context(target.0, target.1) };
                proof {
                    assert(setup_failed(g0, hints@, cs, vs[k as int], k as int, self.slot_grid(), canvas@, e));
                    assert(setup_steps(g0, hints@, cs, self.moving_slots@.subrange(m0 as int, self.moving_slots@.len() as int), vs, k as int));
                }
                return Err(e);
            }
            let ghost before = *self;
            let slot = match self.get_slot(&idx) {
                Ok(s) => s,
                Err(e) => {
                    proof {
                        assert(setup_failed(g0, hints@, cs, vs[k as int], k as int, self.slot_grid(), canvas@, e));
                        assert(setup_steps(g0, hints@, cs, self.moving_slots@.subrange(m0 as int, self.moving_slots@.len() as int), vs, k as int));
                    }
                    return Err(e);
                },
            };
            let ghost taken = slot;
            let ghost vk = canvas@;
            proof {
                assert(taken == grid_after(g0, hints@, k as int)[idx.1 as int][idx.0 as int]);
                assert(self.slot_grid() =~= grid_after(g0, hints@, k + 1));
            }
            proof {
                assert(idx.1 < 4 && idx.0 < 4);
                assert(self.slot_grid()[idx.1 as int][idx.0 as int] == Slot::Empty);
                assert forall|j: int| 0 <= j < k implies {
                    let (idx, hint) = hints@[j];
                    let target = hint_target(idx, hint);
                    &&& #[trigger] self.moving_slots@[m0 + j] matches Slot::Sliding(st)
                    &&& st.inner.idx == target
                    &&& st.is_animating
                    &&& st.new_value == hint_new_value(hint)
                    &&& st.to_rectangle == spec_tile_rectangle(target.0 as int, target.1 as int, hint_layer(hint))
                    &&& (hint matches Hint::NewValueToIdx(v, _) ==> st.inner.value == v)
                    &&& (hint matches Hint::NewTile(v, _) ==> st.inner.value == v)
                    &&& idx.0 < 4 && idx.1 < 4
                    &&& self.slot_grid()[idx.1 as int][idx.0 as int] == Slot::Empty
                } by {
                    let (ij, hj) = hints@[j];
                    assert(before.slot_grid()[ij.1 as int][ij.0 as int] == Slot::Empty);
                    assert(before.moving_slots@[m0 + j] == self.moving_slots@[m0 + j]);
                }
            }
            let res: Result<Slot, Error> = match hint {
                Hint::ToIdx(to_idx) => Slot::to_sliding(slot, to_idx, None, canvas),
                Hint::NewValueToIdx(value, to_idx) => Slot::to_sliding(slot, to_idx, Some(value), canvas),
                Hint::NewTile(value, slide_direction) => {
                    slot.release(canvas);
                    let rt = self.new_sliding_tile(canvas, &idx, value, &slide_direction, colors);
                    let out = match rt {
                        Ok(t) => Ok(Slot::Sliding(t)),
                        Err(e) => Err(e),
                    };
                    proof {
                        assert(out == as_slot(rt));
                        assert(new_tile_post(slot_released(vk, taken), idx, value, slide_direction, cs, canvas@, rt));
                    }
                    out
                },
            };
            proof {
                assert(hint_set_up(vk, idx, hint, taken, cs, canvas@, res));
            }
            let new_slot = match res {
                Ok(s) => s,
                Err(e) => {
                    proof {
                        assert(setup_failed(g0, hints@, cs, vs[k as int], k as int, self.slot_grid(), canvas@, e));
                        assert(setup_steps(g0, hints@, cs, self.moving_slots@.subrange(m0 as int, self.moving_slots@.len() as int), vs, k as int));
                    }
                    return Err(e);
                },
            };
            proof {
                assert(hint_set_up(vk, idx, hint, taken, cs, canvas@, Ok::<Slot, Error>(new_slot)));
            }
            let ghost prev = self.moving_slots@;
            let ghost grid_now = self.slot_grid();
            self.moving_slots.push(new_slot);
            proof {
                let moved_old = prev.subrange(m0 as int, m0 + k);
                let moved = self.moving_slots@.subrange(m0 as int, m0 + k + 1);
                assert(moved =~= moved_old.push(new_slot));
                assert(setup_steps(g0, hints@, cs, moved_old, vs, k as int));
                assert(hints@[k as int] == (idx, hint));
                assert(hint_target(idx, hint) == target);
                lemma_setup_steps_push(g0, hints@, cs, moved_old, vs, k as int, new_slot, canvas@);
                let vs2 = vs.push(canvas@);
                assert(setup_steps(g0, hints@, cs, moved, vs2, k + 1));
                vs = vs2;
                assert(self.slot_grid() == grid_now);
                assert(self.moving_slots@.subrange(0, m0 as int) =~= prev.subrange(0, m0 as int));
                assert forall|j: int| 0 <= j < k + 1 implies {
                    let (idx, hint) = hints@[j];
                    let target = hint_target(idx, hint);
                    &&& #[trigger] self.moving_slots@[m0 + j] matches Slot::Sliding(st)
                    &&& st.inner.idx == target
                    &&& st.is_animating
                    &&& st.new_value == hint_new_value(hint)
                    &&& st.to_rectangle == spec_tile_rectangle(target.0 as int, target.1 as int, hint_layer(hint))
                    &&& (hint matches Hint::NewValueToIdx(v, _) ==> st.inner.value == v)
                    &&& (hint matches Hint::NewTile(v, _) ==> st.inner.value == v)
                    &&& idx.0 < 4 && idx.1 < 4
                    &&& self.slot_grid()[idx.1 as int][idx.0 as int] == Slot::Empty
                } by {
                    if j < k {
                        assert(self.moving_slots@[m0 + j] == prev[m0 + j]);
                    }
                }
            }
            k = k + 1;
        }
        proof {
            assert(self.moving_slots@.subrange(m0 as int, self.moving_slots@.len() as int) == self.moving_slots@.subrange(m0 as int, m0 + k));
            assert(set_up(*old(self), old(canvas)@, hints@, cs, *self, canvas@, Ok::<(), Error>(())));
        }
        Ok(())
    }

    /// One frame of the animation: every moving tile, then every disappearing one, takes a step
    /// (see `step_slot`); stops at the first failure. Whether any tile is still moving comes back.
    pub fn animate(&mut self, canvas: &mut Canvas) -> (r: Result<bool, Error>)
        requires
            old(canvas).wf(),
            old(self).wf(),
            done_keys_distinct(old(self).done_slots@),
        ensures
            final(canvas).wf(),
            final(self).wf(),
            done_keys_distinct(final(self).done_slots@),
            final(self).board == old(self).board,
            final(self).score == old(self).score,
            final(self).slot_grid() == old(self).slot_grid(),
            final(self).moving_slots@.len() == old(self).moving_slots@.len(),
            final(self).disappearing_slots@.len() == old(self).disappearing_slots@.len(),
            r matches Ok(b) ==> b == ((exists|i: int| 0 <= i < final(self).moving_slots@.len() && #[trigger] animating(final(self).moving_slots@[i]))
                || (exists|i: int| 0 <= i < final(self).disappearing_slots@.len() && #[trigger] animating(final(self).disappearing_slots@[i]))),
            animated(*old(self), old(canvas)@, *final(self), final(canvas)@, r),
    {
        let ghost s0 = self.moving_slots@ + self.disappearing_slots@;
        let ghost m = self.moving_slots@.len();
        let ghost mut dones: Seq<Seq<(BoardIdx, Slot)>> = seq![self.done_slots@];
        let ghost mut vs: Seq<CanvasView> = seq![canvas@];
        let ghost mut rs: Seq<Result<bool, Error>> = Seq::empty();
        proof {
            assert(slots_stepped(s0, self.moving_slots@ + self.disappearing_slots@, dones, vs, rs, 0));
        }
        let mut any = false;
        let mut i: usize = 0;
        while i < self.moving_slots.len()
            invariant
                canvas.wf(),
                self.wf(),
                done_keys_distinct(self.done_slots@),
                self.board == old(self).board,
                self.score == old(self).score,
                self.slot_grid() == old(self).slot_grid(),
                self.moving_slots@.len() == old(self).moving_slots@.len(),
                self.disappearing_slots@ == old(self).disappearing_slots@,
                i <= self.moving_slots@.len(),
                any == exists|j: int| 0 <= j < i && #[trigger] animating(self.moving_slots@[j]),
                s0 == old(self).moving_slots@ + old(self).disappearing_slots@,
                m == old(self).moving_slots@.len(),
                slots_stepped(s0, self.moving_slots@ + self.disappearing_slots@, dones, vs, rs, i as int),
                dones[0] == old(self).done_slots@,
                vs[0] == old(canvas)@,
                dones[i as int] == self.done_slots@,
                vs[i as int] == canvas@,
                forall|j: int| 0 <= j < i ==> (#[trigger] rs[j]) is Ok,
            decreases self.moving_slots@.len() - i,
        {
            let ghost before_i = self.moving_slots@;
            let ghost all_before = self.moving_slots@ + self.disappearing_slots@;
            let mut slot = Slot::Empty;
            std::mem::swap(&mut self.moving_slots[i], &mut slot);
            let ghost slot_before = slot;
            let res = step_slot(&mut self.done_slots, &mut slot, canvas);
            let ghost slot_after = slot;
            std::mem::swap(&mut self.moving_slots[i], &mut slot);
            proof {
                assert(self.moving_slots@ =~= before_i.update(i as int, slot_after));
                assert(slot_before == all_before[i as int]);
                assert(all_before[i as int] == s0[i as int]);
                let all_now = self.moving_slots@ + self.disappearing_slots@;
                assert(all_now =~= all_before.update(i as int, slot_after));
                let dones2 = dones.push(self.done_slots@);
                let vs2 = vs.push(canvas@);
                let rs2 = rs.push(res);
                assert forall|j: int| 0 <= j < i + 1 implies #[trigger] slot_stepped(dones2[j], s0[j], vs2[j], dones2[j + 1], all_now[j], vs2[j + 1], rs2[j]) by {
                    if j < i {
                        assert(slot_stepped(dones[j], s0[j], vs[j], dones[j + 1], all_before[j], vs[j + 1], rs[j]));
                    }
                }
                assert forall|j: int| i + 1 <= j < s0.len() implies #[trigger] all_now[j] == s0[j] by {
                    assert(all_before[j] == s0[j]);
                }
                assert(slots_stepped(s0, all_now, dones2, vs2, rs2, i + 1));
                dones = dones2;
                vs = vs2;
                rs = rs2;
            }
            match res {
                Ok(c) => {
                    proof {
                        if any {
                            let j = choose|j: int| 0 <= j < i && #[trigger] animating(before_i[j]);
                            assert(self.moving_slots@[j] == before_i[j]);
                            assert(animating(self.moving_slots@[j]));
                        }
                        if c {
                            assert(animating(self.moving_slots@[i as int]));
                        }
                        assert forall|j: int| 0 <= j < i implies #[trigger] self.moving_slots@[j] == before_i[j] by {}
                    }
                    if c {
                        any = true;
                    }
                },
                Err(e) => {
                    proof {
                        assert(animated(*old(self), old(canvas)@, *self, canvas@, Err::<bool, Error>(e)));
                    }
                    return Err(e);
                },
            }
            proof {
                assert(rs[i as int] is Ok);
            }
            i = i + 1;
        }
        let ghost moving_final = self.moving_slots@;
        let mut any2 = false;
        let mut i: usize = 0;
        while i < self.disappearing_slots.len()
            invariant
                canvas.wf(),
                self.wf(),
                done_keys_distinct(self.done_slots@),
                self.board == old(self).board,
                self.score == old(self).score,
                self.slot_grid() == old(self).slot_grid(),
                self.moving_slots@ == moving_final,
                moving_final.len() == old(self).moving_slots@.len(),
                any == exists|j: int| 0 <= j < moving_final.len() && #[trigger] animating(moving_final[j]),
                self.disappearing_slots@.len() == old(self).disappearing_slots@.len(),
                i <= self.disappearing_slots@.len(),
                any2 == exists|j: int| 0 <= j < i && #[trigger] animating(self.disappearing_slots@[j]),
                s0 == old(self).moving_slots@ + old(self).disappearing_slots@,
                m == old(self).moving_slots@.len(),
                slots_stepped(s0, self.moving_slots@ + self.disappearing_slots@, dones, vs, rs, m + i),
                dones[0] == old(self).done_slots@,
                vs[0] == old(canvas)@,
                dones[m + i] == self.done_slots@,
                vs[m + i] == canvas@,
                forall|j: int| 0 <= j < m + i ==> (#[trigger] rs[j]) is Ok,
            decreases self.disappearing_slots@.len() - i,
        {
            let ghost before_i = self.disappearing_slots@;
            let ghost all_before = self.moving_slots@ + self.disappearing_slots@;
            let ghost k = m + i;
            let mut slot = Slot::Empty;
            std::mem::swap(&mut self.disappearing_slots[i], &mut slot);
            let ghost slot_before = slot;
            let res = step_slot(&mut self.done_slots, &mut slot, canvas);
            let ghost slot_after = slot;
            std::mem::swap(&mut self.disappearing_slots[i], &mut slot);
            proof {
                assert(self.disappearing_slots@ =~= before_i.update(i as int, slot_after));
                assert(slot_before == all_before[k]);
                assert(all_before[k] == s0[k]);
                let all_now = self.moving_slots@ + self.disappearing_slots@;
                assert(all_now =~= all_before.update(k, slot_after));
                let dones2 = dones.push(self.done_slots@);
                let vs2 = vs.push(canvas@);
                let rs2 = rs.push(res);
                assert forall|j: int| 0 <= j < k + 1 implies #[trigger] slot_stepped(dones2[j], s0[j], vs2[j], dones2[j + 1], all_now[j], vs2[j + 1], rs2[j]) by {
                    if j < k {
                        assert(slot_stepped(dones[j], s0[j], vs[j], dones[j + 1], all_before[j], vs[j + 1], rs[j]));
                    }
                }
                assert forall|j: int| k + 1 <= j < s0.len() implies #[trigger] all_now[j] == s0[j] by {
                    assert(all_before[j] == s0[j]);
                }
                assert(slots_stepped(s0, all_now, dones2, vs2, rs2, k + 1));
                dones = dones2;
                vs = vs2;
                rs = rs2;
            }
            match res {
                Ok(c) => {
                    proof {
                        if any2 {
                            let j = choose|j: int| 0 <= j < i && #[trigger] animating(before_i[j]);
                            assert(self.disappearing_slots@[j] == before_i[j]);
                            assert(animating(self.disappearing_slots@[j]));
                        }
                        if c {
                            assert(animating(self.disappearing_slots@[i as int]));
                        }
                        assert forall|j: int| 0 <= j < i implies #[trigger] self.disappearing_slots@[j] == before_i[j] by {}
                    }
                    if c {
                        any2 = true;
                    }
                },
                Err(e) => {
                    proof {
                        assert(animated(*old(self), old(canvas)@, *self, canvas@, Err::<bool, Error>(e)));
                    }
                    return Err(e);
                },
            }
            proof {
                assert(rs[m + i] is Ok);
            }
            i = i + 1;
        }
        proof {
            assert(animated(*old(self), old(canvas)@, *self, canvas@, Ok::<bool, Error>(any || any2)));
        }
        Ok(any || any2)
    }

    /// Ends the animation: every tile that arrived comes to rest (see `Slot::to_static`) and is
    /// put at its place on the board, in the order in which they arrived; then the moving tiles
    /// are dropped, their buffers released. Stops at the first failure, releasing the buffers of
    /// the tiles not yet put.
    pub fn teardown_animation(&mut self, canvas: &mut Canvas, colors: &Colors) -> (r: Result<(), Error>)
        requires
            old(canvas).wf(),
            old(self).wf(),
        ensures
            final(canvas).wf(),
            final(self).wf(),
            final(self).board == old(self).board,
            final(self).score == old(self).score,
            final(self).disappearing_slots@ == old(self).disappearing_slots@,
            final(self).done_slots@.len() == 0,
            r is Ok ==> final(self).moving_slots@.len() == 0,
            r is Ok ==> forall|k: int| 0 <= k < old(self).done_slots@.len() ==> (#[trigger] slot_index(old(self).done_slots@[k].1) matches Some(i)
                ==> i.0 < 4 && i.1 < 4 && final(self).slot_grid()[i.1 as int][i.0 as int] is Static),
            torn_down(*old(self), old(canvas)@, colors.card_colors@, *final(self), final(canvas)@, r),
    {
        let ghost cs = colors.card_colors@;
        let mut done: Vec<(BoardIdx, Slot)> = Vec::new();
        std::mem::swap(&mut done, &mut self.done_slots);
        let ghost done0 = done@;
        let mut converted: Vec<Slot> = Vec::new();
        let ghost mut vs: Seq<CanvasView> = seq![canvas@];
        let mut k: usize = 0;
        proof {
            assert(done@ =~= done_taken(done0, 0));
        }
        while k < done.len()
            invariant
                canvas.wf(),
                self.wf(),
                self.board == old(self).board,
                self.score == old(self).score,
                self.disappearing_slots@ == old(self).disappearing_slots@,
                self.moving_slots@ == old(self).moving_slots@,
                self.slot_grid() == old(self).slot_grid(),
                self.done_slots@.len() == 0,
                done0 == old(self).done_slots@,
                done@ == done_taken(done0, k as int),
                cs == colors.card_colors@,
                k <= done@.len(),
                rest_steps(done0, cs, converted@, vs, k as int),
                vs[0] == old(canvas)@,
                vs[k as int] == canvas@,
                forall|j: int| 0 <= j < k ==> (#[trigger] converted@[j] matches Slot::Static(t)
                    && Some(t.idx) == slot_index(done0[j].1)),
            decreases done@.len() - k,
        {
            let mut slot = Slot::Empty;
            std::mem::swap(&mut done[k].1, &mut slot);
            proof {
                assert(slot == done0[k as int].1);
                assert(done@ =~= done_taken(done0, k + 1));
            }
            match Slot::to_static(slot, canvas, colors) {
                Ok(s) => {
                    let ghost c0 = converted@;
                    converted.push(s);
                    proof {
                        lemma_rest_steps_push(done0, cs, c0, vs, k as int, s, canvas@);
                        vs = vs.push(canvas@);
                        assert forall|j: int| 0 <= j < k + 1 implies (#[trigger] converted@[j] matches Slot::Static(t)
                            && Some(t.idx) == slot_index(done0[j].1)) by {
                            if j < k {
                                assert(converted@[j] == c0[j]);
                            }
                        }
                    }
                },
                Err(e) => {
                    let ghost w = canvas@;
                    let ghost conv = converted@;
                    release_all(converted, canvas);
                    release_done(done, canvas);
                    proof {
                        assert(to_static_post(done0[k as int].1, vs[k as int], cs, w, Err::<Slot, Error>(e)));
                        assert(rest_steps(done0, cs, conv, vs, k as int));
                        assert(torn_down(*old(self), old(canvas)@, cs, *self, canvas@, Err::<(), Error>(e)));
                    }
                    return Err(e);
                },
            }
            k = k + 1;
        }
        let ghost conv = converted@;
        let ghost vn = canvas@;
        let ghost g0 = self.slot_grid();
        let ghost mut vs2: Seq<CanvasView> = seq![canvas@];
        let mut rest = converted;
        let mut j: usize = 0;
        let n = rest.len();
        proof {
            assert(rest@ =~= slots_taken(conv, 0));
        }
        while j < n
            invariant
                canvas.wf(),
                self.wf(),
                self.board == old(self).board,
                self.score == old(self).score,
                self.disappearing_slots@ == old(self).disappearing_slots@,
                self.moving_slots@ == old(self).moving_slots@,
                self.done_slots@.len() == 0,
                n == conv.len(),
                rest@ == slots_taken(conv, j as int),
                j <= n,
                conv.len() == done0.len(),
                done0 == old(self).done_slots@,
                cs == colors.card_colors@,
                rest_steps(done0, cs, conv, vs, n as int),
                vs[0] == old(canvas)@,
                vs[n as int] == vn,
                g0 == old(self).slot_grid(),
                self.slot_grid() == grid_put(g0, conv, j as int),
                put_steps(g0, conv, vs2, j as int),
                vs2[0] == vn,
                vs2[j as int] == canvas@,
                forall|q: int| 0 <= q < n ==> (#[trigger] conv[q] matches Slot::Static(t)
                    && Some(t.idx) == slot_index(done0[q].1)),
                forall|q: int| 0 <= q < j ==> (slot_index(#[trigger] conv[q]) matches Some(i)
                    ==> i.0 < 4 && i.1 < 4 && self.slot_grid()[i.1 as int][i.0 as int] is Static),
            decreases n - j,
        {
            let mut slot = Slot::Empty;
            std::mem::swap(&mut rest[j], &mut slot);
            proof {
                assert(slot == conv[j as int]);
                assert(rest@ =~= slots_taken(conv, j + 1));
            }
            let idx = match slot.idx() {
                Ok(i) => i,
                Err(e) => {
                    return Err(e);
                },
            };
            let ghost g = self.slot_grid();
            let ghost vj = canvas@;
            match self.put_slot(&idx, slot, canvas) {
                Ok(()) => {},
                Err(e) => {
                    let ghost w = canvas@;
                    release_all(rest, canvas);
                    proof {
                        assert(!in_board(idx));
                        assert(off_board_error(idx, e));
                        assert(put_steps(g0, conv, vs2, j as int));
                        assert(tiles_put(*old(self), conv, vn, *self, canvas@, Err::<(), Error>(e)));
                        assert(rest_steps(done0, cs, conv, vs, n as int));
                        assert(torn_down(*old(self), old(canvas)@, cs, *self, canvas@, Err::<(), Error>(e)));
                    }
                    return Err(e);
                },
            }
            proof {
                assert(in_board(idx));
                lemma_put_steps_push(g0, conv, vs2, j as int, canvas@);
                vs2 = vs2.push(canvas@);
                assert(self.slot_grid() == grid_put(g0, conv, j + 1));
                assert forall|q: int| 0 <= q < j + 1 implies (slot_index(#[trigger] conv[q]) matches Some(i)
                    ==> i.0 < 4 && i.1 < 4 && self.slot_grid()[i.1 as int][i.0 as int] is Static) by {
                    if q < j {
                        let i = slot_index(conv[q])->0;
                        assert(g[i.1 as int][i.0 as int] is Static);
                    }
                }
            }
            j = j + 1;
        }
        proof {
            assert forall|k: int| 0 <= k < done0.len() implies (#[trigger] slot_index(done0[k].1) matches Some(i)
                ==> i.0 < 4 && i.1 < 4 && self.slot_grid()[i.1 as int][i.0 as int] is Static) by {
                assert(conv[k] matches Slot::Static(t) && Some(t.idx) == slot_index(done0[k].1));
            }
        }
        let mut moving: Vec<Slot> = Vec::new();
        std::mem::swap(&mut moving, &mut self.moving_slots);
        release_all(moving, canvas);
        proof {
            assert(put_steps(g0, conv, vs2, n as int));
            assert(tiles_put(*old(self), conv, vn, *self, canvas@, Ok::<(), Error>(())));
            assert(rest_steps(done0, cs, conv, vs, n as int));
            assert(torn_down(*old(self), old(canvas)@, cs, *self, canvas@, Ok::<(), Error>(())));
        }
        Ok(())
    }

    /// Of two slots whose tiles arrived at the same place, takes the content of the one to keep
    /// (see `first_is_kept`) and gives it back. When only one has a new value, both slots are
    /// emptied and the other tile's buffer is released; when both have one, only the kept slot is
    /// emptied.
    pub fn keep_largest_value_tile(slot1: &mut Slot, slot2: &mut Slot, canvas: &mut Canvas) -> (r: Slot)
        requires
            old(canvas).wf(),
            new_value_of(*old(slot1)) is Some || new_value_of(*old(slot2)) is Some,
        ensures
            final(canvas).wf(),
            first_is_kept(*old(slot1), *old(slot2)) ==> r == *old(slot1) && *final(slot1) == Slot::Empty,
            !first_is_kept(*old(slot1), *old(slot2)) ==> r == *old(slot2) && *final(slot2) == Slot::Empty,
            (new_value_of(*old(slot1)) is None || new_value_of(*old(slot2)) is None) ==> *final(slot1) == Slot::Empty
                && *final(slot2) == Slot::Empty && final(canvas)@ == slot_released(old(canvas)@, if first_is_kept(*old(slot1), *old(slot2)) { *old(slot2) } else { *old(slot1) }),
            (new_value_of(*old(slot1)) is Some && new_value_of(*old(slot2)) is Some) ==> final(canvas)@ == old(canvas)@
                && (first_is_kept(*old(slot1), *old(slot2)) ==> *final(slot2) == *old(slot2))
                && (!first_is_kept(*old(slot1), *old(slot2)) ==> *final(slot1) == *old(slot1)),
    {
        match (slot1.new_value(), slot2.new_value()) {
            (Some(_), None) => {
                let s1 = slot1.take();
                let s2 = slot2.take();
                s2.release(canvas);
                s1
            },
            (None, Some(_)) => {
                let s2 = slot2.take();
                let s1 = slot1.take();
                s1.release(canvas);
                s2
            },
            (Some(v1), Some(v2)) => {
                if v1 >= v2 {
                    return slot1.take();
                }
                slot2.take()
            },
            (None, None) => Slot::Empty,
        }
    }

    /// A new tile of `value` sliding in towards `to_idx` from `direction`: a draw buffer just
    /// outside the board (see `entry_rectangle`) on which the tile is drawn, moving to the tile's
    /// place on the lower animation layer. A tile entering from the right or from the bottom
    /// starts against the canvas's edge when the canvas ends before its usual place, so that on
    /// a canvas large enough for the board every new tile starts on the canvas.
    pub fn new_sliding_tile(&mut self, canvas: &mut Canvas, to_idx: &BoardIdx, value: u16, direction: &Direction, colors: &Colors) -> (r: Result<SlidingTile, Error>)
        requires
            old(canvas).wf(),
            to_idx.0 < 4 && to_idx.1 < 4,
        ensures
            final(canvas).wf(),
            *final(self) == *old(self),
            new_tile_post(old(canvas)@, *to_idx, value, *direction, colors.card_colors@, final(canvas)@, r),
    {
        let (cw, ch) = canvas.dimensions();
        let db_rectangle = match direction {
            Direction::Left => {
                let mut r = tile_rectangle(4, to_idx.y(), LOWER_ANIMATION_LAYER_IDX);
                r.0.0 = if cw >= 46 {
                    40
                } else if cw >= 6 {
                    cw - 6
                } else {
                    0
                };
                r
            },
            Direction::Right => {
                let mut r = tile_rectangle(0, to_idx.y(), LOWER_ANIMATION_LAYER_IDX);
                r.0.0 = r.0.0 - 6;
                r
            },
            Direction::Up => {
                let mut r = tile_rectangle(to_idx.x(), 4, LOWER_ANIMATION_LAYER_IDX);
                r.0.1 = if ch >= 33 {
                    28
                } else if ch >= 5 {
                    ch - 5
                } else {
                    0
                };
                r
            },
            Direction::Down => {
                let mut r = tile_rectangle(to_idx.x(), 0, LOWER_ANIMATION_LAYER_IDX);
                r.0.1 = r.0.1 - 6;
                r
            },
        };
        let buf = match canvas.get_draw_buffer(db_rectangle) {
            Ok(b) => b,
            Err(e) => {
                return Err(tui_error(e));
            },
        };
        let ghost v1 = canvas@;
        proof {
            assert(canvas.live(buf.id as int));
            assert(canvas.buf(buf.id as int).rectangle.1 == Bounds2D(6, 5));
        }
        let t = Tile::new(value, *to_idx, buf);
        match t.draw(canvas, colors) {
            Ok(()) => {},
            Err(e) => {
                return Err(e);
            },
        }
        let rectangle = tile_rectangle(to_idx.x(), to_idx.y(), LOWER_ANIMATION_LAYER_IDX);
        let st = SlidingTile::new(t, rectangle, None);
        proof {
            assert(crate::tui::canvas::buffer_taken(old(canvas)@, entry_rectangle(*to_idx, *direction, old(canvas)@.width(), old(canvas)@.height()), v1, Ok::<DrawBuffer, TuiError>(DrawBuffer { id: st.inner.buf.id })));
        }
        Ok(st)
    }
}

/// The rectangle of the board, with its border, on the board's layer.
pub fn board_rectangle() -> (r: Rectangle)
    ensures
        r == Rectangle(Idx(5, 5, BOARD_LAYER_IDX), Bounds2D(36, 25)),
{
    let x_bound: usize = 36;
    let y_bound: usize = 25;
    Rectangle(Idx(BOARD_FIXED_X_OFFSET, BOARD_FIXED_Y_OFFSET, BOARD_LAYER_IDX), Bounds2D(x_bound, y_bound))
}

/// The rectangle of the tile of column `x` and row `y` of the board, on layer `z`.
pub open spec fn spec_tile_rectangle(x: int, y: int, z: usize) -> Rectangle {
    Rectangle(Idx((8 + 8 * x) as usize, (6 + 6 * y) as usize, z), Bounds2D(TILE_WIDTH, TILE_HEIGHT))
}

/// The rectangle of the tile of column `x` and row `y` of the board, on layer `z`.
pub fn tile_rectangle(x: usize, y: usize, z: usize) -> (r: Rectangle)
    requires
        8 * x + 8 <= usize::MAX,
        6 * y + 6 <= usize::MAX,
    ensures
        r == spec_tile_rectangle(x as int, y as int, z),
{
    let x_offset = BOARD_FIXED_X_OFFSET + BOARD_BORDER_WIDTH + BOARD_X_PADDING;
    let y_offset = BOARD_FIXED_Y_OFFSET + BOARD_BORDER_WIDTH;
    let idx = Idx(x_offset + (BOARD_X_PADDING + TILE_WIDTH) * x, y_offset + (BOARD_Y_PADDING + TILE_HEIGHT) * y, z);
    let bounds = Bounds2D(TILE_WIDTH, TILE_HEIGHT);
    Rectangle(idx, bounds)
}

/// The rectangles of the board and of the score, or the canvas's size when it cannot hold both
/// (their bounding box reaches to column 41 and row 30).
pub fn get_validated_dimensions(canvas_width: usize, canvas_height: usize) -> (r: Result<(Rectangle, Rectangle), Error>)
    ensures
        canvas_width < 41 || canvas_height < 30 ==> (r matches Err(Error::TerminalTooSmall(w, h)) && w == canvas_width && h == canvas_height),
        !(canvas_width < 41 || canvas_height < 30) ==> r == Ok::<(Rectangle, Rectangle), Error>((
            Rectangle(Idx(5, 5, BOARD_LAYER_IDX), Bounds2D(36, 25)),
            Rectangle(Idx(18, 1, BOARD_LAYER_IDX), Bounds2D(10, 3)),
        )),
{
    let board_rectangle = board_rectangle();
    let score_rectangle = Rectangle(Idx(18, 1, BOARD_LAYER_IDX), Bounds2D(10, 3));
    let combined_rectangle = board_rectangle.bounding_box(&score_rectangle);
    let (x_extent, y_extent) = combined_rectangle.extents();
    if canvas_width < x_extent || canvas_height < y_extent {
        return Err(Error::TerminalTooSmall(canvas_width, canvas_height));
    }
    Ok((board_rectangle, score_rectangle))
}

/// Draws a tile of `value` on `dbuf`: its colors, its border, blanks inside, and its value
/// centered.
pub fn draw_tile(dbuf: &DrawBuffer, canvas: &mut Canvas, value: u16, colors: &Colors) -> (r: Result<(), Error>)
    requires
        old(canvas).wf(),
        old(canvas).live(dbuf.id as int) ==> old(canvas).buf(dbuf.id as int).rectangle.1.0 >= 2
            && old(canvas).buf(dbuf.id as int).rectangle.1.1 >= 2,
    ensures
        r is Ok,
        final(canvas).wf(),
        old(canvas).live(dbuf.id as int) ==> final(canvas).live(dbuf.id as int)
            && tile_drawn(old(canvas)@, final(canvas)@, dbuf.id as int, value, colors.card_colors@),
        !old(canvas).live(dbuf.id as int) ==> final(canvas)@ == old(canvas)@,
{
    if !canvas.is_live(dbuf.id) {
        return Ok(());
    }
    let ghost v = canvas@;
    let (background, foreground) = colors_from_value(value, colors);
    dbuf.modify(canvas, background);
    let ghost v1 = canvas@;
    dbuf.modify(canvas, foreground);
    let ghost v2 = canvas@;
    match dbuf.draw_border(canvas) {
        Ok(()) => {},
        Err(e) => {
            return Err(tui_error(e));
        },
    }
    let ghost v3 = canvas@;
    match dbuf.fill(canvas, ' ') {
        Ok(()) => {},
        Err(e) => {
            return Err(tui_error(e));
        },
    }
    let ghost v4 = canvas@;
    let text = decimal(value);
    let s = text.as_str();
    proof {
        crate::tui::drawbuffer::lemma_bytes_at_least_chars(s@);
        lemma_center_fits(vbuf(v4, dbuf.id as int), s@, s.spec_bytes().len() as int);
    }
    match dbuf.write_center(canvas, s) {
        Ok(()) => {},
        Err(e) => {
            return Err(tui_error(e));
        },
    }
    proof {
        assert(tile_drawn_via(v, v1, v2, v3, v4, canvas@, dbuf.id as int, value, colors_for(colors.card_colors@, value)));
    }
    Ok(())
}


/// The layer of the canvas on which a message shows while the board cannot.
pub const MESSAGE_LAYER_IDX: usize = 7;

/// Whether `db` was taken as the message layer of canvas `v`, giving `v1`, and, where the
/// layer's width leaves room, the message was then written on it, giving `w`.
pub open spec fn message_shown(v: CanvasView, v1: CanvasView, w: CanvasView, db: DrawBuffer) -> bool {
    &&& crate::tui::canvas::buffer_taken(v, Rectangle(Idx(0, 0, MESSAGE_LAYER_IDX), v.rectangle.1), v1, Ok::<DrawBuffer, TuiError>(db))
    &&& v.rectangle.1.0 + 2 <= usize::MAX ==> {
        &&& only_buffer_changed(v1, w, db.id as int)
        &&& crate::tui::drawbuffer::write_left_post(vbuf(v1, db.id as int), vbuf(w, db.id as int), v1.changed, w.changed,
            "hey there! something is wrong! try resizing your terminal!"@, Ok(()))
    }
}

/// Whether `db` was taken as the message layer of canvas `v` and the message written on it,
/// giving `w` (see `message_shown`).
pub open spec fn message_shown_on(v: CanvasView, w: CanvasView, db: DrawBuffer) -> bool {
    exists|v1: CanvasView| #[trigger] message_shown(v, v1, w, db)
}

/// What trying to show the message does to canvas `v`, giving `w`, the message's layer `msg`
/// and the result `r`: the message layer is taken as any buffer (see `buffer_taken`); when it
/// cannot be, its error is the result. Otherwise the message is written from the left of its
/// middle row (see `write_left_post`, left out on a canvas too wide for that); when the writing
/// fails, its error is the result and the layer is given back.
pub open spec fn message_attempted(v: CanvasView, w: CanvasView, msg: Option<DrawBuffer>, r: Result<(), Error>) -> bool {
    let rect = Rectangle(Idx(0, 0, MESSAGE_LAYER_IDX), v.rectangle.1);
    exists|v1: CanvasView, taken: Result<DrawBuffer, TuiError>| {
        &&& #[trigger] crate::tui::canvas::buffer_taken(v, rect, v1, taken)
        &&& match taken {
            Err(e) => r == Err::<(), Error>(Error::TuiError { source: e }) && w == v1 && msg is None,
            Ok(db) => if v.rectangle.1.0 + 2 > usize::MAX {
                r is Ok && w == v1 && msg == Some(db)
            } else {
                exists|u: CanvasView, e: Result<(), InnerError>| {
                    &&& #[trigger] crate::tui::drawbuffer::write_left_post(vbuf(v1, db.id as int), vbuf(u, db.id as int), v1.changed, u.changed,
                        "hey there! something is wrong! try resizing your terminal!"@, e)
                    &&& only_buffer_changed(v1, u, db.id as int)
                    &&& match e {
                        Ok(()) => r is Ok && w == u && msg == Some(db),
                        Err(ie) => r == Err::<(), Error>(Error::TuiError { source: TuiError { inner: ie } })
                            && w == crate::tui::canvas::released_view(u, db.id as int) && msg is None,
                    }
                }
            },
        }
    }
}

/// The game in a terminal: the board of the game, the canvas it is drawn on, the board as drawn
/// when the canvas is large enough for it, and the message drawn when it is not.
///
/// Its owner runs the terminal: it hands over the terminal's size and the events, and renders
/// the canvas between the steps.
pub struct Tui48 {
    pub board: Board,
    pub canvas: Canvas,
    pub tui_board: Option<Tui48Board>,
    pub message: Option<DrawBuffer>,
}

impl Tui48 {
    /// The board and the canvas are well formed, and so is the drawn board, if any, with no two
    /// arrived tiles at one place.
    pub open spec fn wf(&self) -> bool {
        &&& self.board.wf()
        &&& self.canvas.wf()
        &&& self.tui_board matches Some(tb) ==> tb.wf() && done_keys_distinct(tb.done_slots@)
    }

    /// The game of `board` on an empty canvas of `width` columns and `height` rows, with nothing
    /// drawn yet.
    pub fn new(board: Board, width: u16, height: u16) -> (t: Tui48)
        requires
            board.wf(),
        ensures
            t.wf(),
            t.board == board,
            t.canvas@.rectangle == Rectangle(Idx(0, 0, 0), Bounds2D(width as usize, height as usize)),
            t.canvas@.buffers.len() == 0,
            t.tui_board is None,
            t.message is None,
    {
        Tui48 { board, canvas: Canvas::new(width as usize, height as usize), tui_board: None, message: None }
    }

    /// Whether the board is drawn, the canvas being large enough for it.
    pub fn has_board(&self) -> (r: bool)
        ensures
            r == self.tui_board is Some,
    {
        self.tui_board.is_some()
    }

    /// Whether shifting the board towards `direction` keeps its values and its score within
    /// `u16` (see `Round::shift_stays_in_range`).
    pub fn can_shift(&self, direction: &Direction) -> (r: bool)
        requires
            self.wf(),
        ensures
            r == crate::engine::round::shift_fits(self.board.latest(), *direction),
    {
        self.board.current().shift_stays_in_range(direction)
    }

    /// Starts over on an empty canvas of `width` columns and `height` rows and draws the board
    /// on it; a canvas too small for the board (see `get_validated_dimensions`) leaves it
    /// undrawn. The message, if any, went with the old canvas.
    pub fn resize(&mut self, width: u16, height: u16, colors: &Colors) -> (r: Result<(), Error>)
        requires
            old(self).wf(),
        ensures
            final(self).wf(),
            final(self).board == old(self).board,
            final(self).message is None,
            (width < 41 || height < 30) ==> r is Ok && final(self).tui_board is None
                && final(self).canvas@.rectangle == Rectangle(Idx(0, 0, 0), Bounds2D(width as usize, height as usize))
                && final(self).canvas@.buffers.len() == 0,
            (width >= 41 && height >= 30) ==> r is Ok && (final(self).tui_board matches Some(tb)
                && tb.moving_slots@.len() == 0 && tb.done_slots@.len() == 0 && tb.disappearing_slots@.len() == 0
                && shows_round(tb, old(self).board.latest()) && drawn_in_place(final(self).canvas@, tb)
                && (exists|v: CanvasView| #[trigger] fresh_canvas(v, width as int, height as int)
                    && board_built(v, old(self).board.latest(), colors.card_colors@, tb, final(self).canvas@))
                && forall|x: int, y: int, z: int|
                    0 <= x < width && 0 <= y < height && 0 <= z < crate::tui::canvas::CANVAS_DEPTH
                        && !board_covers(old(self).board.latest(), x, y, z) ==> #[trigger] final(self).canvas@.cell(x, y, z) is Empty),
    {
        self.canvas = Canvas::new(width as usize, height as usize);
        self.message = None;
        self.tui_board = None;
        let ghost v0 = self.canvas@;
        proof {
            assert(canvas_blank(self.canvas@));
            assert(fresh_canvas(v0, width as int, height as int));
            lemma_reclaimed_nothing(v0);
        }
        match Tui48Board::new(&self.board, &mut self.canvas, colors) {
            Ok(tb) => {
                proof {
                    assert forall|x: int, y: int, z: int|
                        0 <= x < width && 0 <= y < height && 0 <= z < crate::tui::canvas::CANVAS_DEPTH
                            && !board_covers(self.board.latest(), x, y, z) implies #[trigger] self.canvas@.cell(x, y, z) is Empty by {
                        assert(v0.cell(x, y, z) is Empty);
                    }
                }
                self.tui_board = Some(tb);
                Ok(())
            },
            Err(Error::TerminalTooSmall(w, h)) => Ok(()),
            Err(e) => Err(e),
        }
    }

    /// While the board is not drawn and no message shows, takes the message layer of the canvas
    /// and writes the message on it, from the left of its middle row. Fails when the layer cannot
    /// be taken or written; the layer is then given back.
    pub fn show_message(&mut self) -> (r: Result<(), Error>)
        requires
            old(self).wf(),
        ensures
            final(self).wf(),
            final(self).board == old(self).board,
            final(self).tui_board == old(self).tui_board,
            (old(self).tui_board is Some || old(self).message is Some) ==> r is Ok && *final(self) == *old(self),
            (old(self).tui_board is None && old(self).message is None && r is Ok) ==> (final(self).message matches Some(db)
                && message_shown_on(old(self).canvas@, final(self).canvas@, db)),
            r matches Err(e) ==> final(self).message is None && e is TuiError,
            (old(self).tui_board is None && old(self).message is None) ==> message_attempted(old(self).canvas@, final(self).canvas@,
                final(self).message, r),
    {
        if self.tui_board.is_some() || self.message.is_some() {
            return Ok(());
        }
        let ghost v0 = self.canvas@;
        let ghost rect = Rectangle(Idx(0, 0, MESSAGE_LAYER_IDX), v0.rectangle.1);
        let taken = self.canvas.get_layer(MESSAGE_LAYER_IDX);
        let ghost v1 = self.canvas@;
        proof {
            assert(crate::tui::canvas::buffer_taken(v0, rect, v1, taken));
        }
        let buf = match taken {
            Ok(b) => b,
            Err(e) => {
                proof {
                    assert(message_attempted(v0, self.canvas@, self.message, Err::<(), Error>(Error::TuiError { source: e })));
                }
                return Err(tui_error(e));
            },
        };
        proof {
            lemma_buffer_taken_frame(v0, Rectangle(Idx(0, 0, MESSAGE_LAYER_IDX), v0.rectangle.1), v1, Ok::<DrawBuffer, TuiError>(buf));
        }
        proof {
            assert(crate::tui::canvas::buffer_taken(v0, rect, v1, Ok::<DrawBuffer, TuiError>(buf)));
            assert(self.canvas.live(buf.id as int));
            assert(self.canvas.buf(buf.id as int).rectangle == rect);
        }
        let (width, _) = self.canvas.dimensions();
        if width > usize::MAX - 2 {
            self.message = Some(buf);
            proof {
                assert(message_shown(v0, v1, self.canvas@, buf));
                assert(message_attempted(v0, self.canvas@, self.message, Ok::<(), Error>(())));
            }
            return Ok(());
        }
        let written = buf.write_left(&mut self.canvas, "hey there! something is wrong! try resizing your terminal!");
        let ghost u = self.canvas@;
        proof {
            assert(crate::tui::drawbuffer::write_left_post(vbuf(v1, buf.id as int), vbuf(u, buf.id as int), v1.changed, u.changed,
                "hey there! something is wrong! try resizing your terminal!"@, crate::tui::drawbuffer::err_of(written)));
        }
        match written {
            Ok(()) => {
                self.message = Some(buf);
                proof {
                    assert(message_shown(v0, v1, self.canvas@, buf));
                    assert(exists|v: CanvasView| #[trigger] message_shown(v0, v, self.canvas@, buf));
                    assert(message_attempted(v0, self.canvas@, self.message, Ok::<(), Error>(())));
                }
                Ok(())
            },
            Err(e) => {
                buf.release(&mut self.canvas);
                proof {
                    assert(message_attempted(v0, self.canvas@, self.message, Err::<(), Error>(Error::TuiError { source: e })));
                }
                Err(tui_error(e))
            },
        }
    }

    /// Gives the message's layer, if any, back to the canvas.
    pub fn hide_message(&mut self)
        requires
            old(self).wf(),
        ensures
            final(self).wf(),
            final(self).board == old(self).board,
            final(self).tui_board == old(self).tui_board,
            final(self).message is None,
            final(self).canvas@ == match old(self).message {
                Some(db) => crate::tui::canvas::released_view(old(self).canvas@, db.id as int),
                None => old(self).canvas@,
            },
    {
        match self.message.take() {
            Some(db) => db.release(&mut self.canvas),
            None => {},
        }
    }

    /// Shifts the board towards `direction` (see `Board::shift`); what was drawn stays as it
    /// was. The hints of the shift come back, if anything moved.
    pub fn shift_board(&mut self, direction: Direction) -> (r: Option<AnimationHint>)
        requires
            old(self).wf(),
            crate::engine::round::shift_fits(old(self).board.latest(), direction),
        ensures
            final(self).wf(),
            final(self).canvas == old(self).canvas,
            final(self).tui_board == old(self).tui_board,
            final(self).message == old(self).message,
            r is None <==> crate::engine::round::slide_hints(old(self).board.latest().slots, direction).len() == 0,
            r is None ==> final(self).board.history() == old(self).board.history(),
            r matches Some(h) ==> {
                &&& final(self).board.history() == old(self).board.history().push(final(self).board.latest())
                &&& crate::engine::round::shifted_by(old(self).board.latest(), final(self).board.latest(), h@, direction)
            },
    {
        self.board.shift(direction)
    }

    /// Starts animating a shift of the drawn board: draws the board's score (when the score's
    /// buffer can hold it), then sets up the moving tiles from `hints` (see
    /// `Tui48Board::setup_animation`).
    #[verifier::spinoff_prover]
    pub fn begin_animation(&mut self, hints: AnimationHint, colors: &Colors) -> (r: Result<(), Error>)
        requires
            old(self).wf(),
            old(self).tui_board is Some,
        ensures
            final(self).wf(),
            final(self).board == old(self).board,
            final(self).message == old(self).message,
            final(self).tui_board matches Some(tb) && {
                let tb0 = old(self).tui_board->0;
                &&& tb.board == tb0.board
                &&& tb.score == tb0.score
                &&& tb.done_slots@ == tb0.done_slots@
                &&& tb.disappearing_slots@ == tb0.disappearing_slots@
                &&& tb.moving_slots@.subrange(0, tb0.moving_slots@.len() as int) == tb0.moving_slots@
                &&& r is Ok ==> tb.moving_slots@.len() == tb0.moving_slots@.len() + hints@.len()
                &&& exists|v: CanvasView| {
                    &&& #[trigger] set_up(tb0, v, hints@, colors.card_colors@, tb, final(self).canvas@, r)
                    &&& if score_fits(old(self).canvas, tb0.score.id as int) {
                        score_drawn(old(self).canvas@, v, tb0.score.id as int, old(self).board.latest().score)
                    } else {
                        v == old(self).canvas@
                    }
                }
            },
    {
        let ghost tb0 = self.tui_board->0;
        let mut tb = self.tui_board.take().unwrap();
        let score_rect = tb.score.rectangle(&self.canvas);
        if score_rect.1.0 >= 6 && score_rect.1.1 >= 2 {
            let _ = draw_score(&tb.score, &mut self.canvas, self.board.score());
        }
        let ghost v = self.canvas@;
        proof {
            if score_fits(old(self).canvas, tb0.score.id as int) {
                assert(score_drawn(old(self).canvas@, v, tb0.score.id as int, old(self).board.latest().score));
            } else {
                assert(v == old(self).canvas@);
            }
        }
        let r = tb.setup_animation(&mut self.canvas, hints, colors);
        proof {
            assert(set_up(tb0, v, hints@, colors.card_colors@, tb, self.canvas@, r));
        }
        self.tui_board = Some(tb);
        r
    }

    /// One frame of the animation of the drawn board (see `Tui48Board::animate`); whether any
    /// tile is still moving comes back.
    pub fn animate_frame(&mut self) -> (r: Result<bool, Error>)
        requires
            old(self).wf(),
            old(self).tui_board is Some,
        ensures
            final(self).wf(),
            final(self).board == old(self).board,
            final(self).message == old(self).message,
            final(self).tui_board matches Some(tb) && {
                let tb0 = old(self).tui_board->0;
                &&& tb.board == tb0.board
                &&& tb.score == tb0.score
                &&& tb.slot_grid() == tb0.slot_grid()
                &&& tb.moving_slots@.len() == tb0.moving_slots@.len()
                &&& tb.disappearing_slots@.len() == tb0.disappearing_slots@.len()
                &&& r matches Ok(b) ==> b == ((exists|i: int| 0 <= i < tb.moving_slots@.len() && #[trigger] animating(tb.moving_slots@[i]))
                    || (exists|i: int| 0 <= i < tb.disappearing_slots@.len() && #[trigger] animating(tb.disappearing_slots@[i])))
                &&& animated(tb0, old(self).canvas@, tb, final(self).canvas@, r)
            },
    {
        let mut tb = self.tui_board.take().unwrap();
        let r = tb.animate(&mut self.canvas);
        self.tui_board = Some(tb);
        r
    }

    /// Ends the animation of the drawn board (see `Tui48Board::teardown_animation`).
    pub fn end_animation(&mut self, colors: &Colors) -> (r: Result<(), Error>)
        requires
            old(self).wf(),
            old(self).tui_board is Some,
        ensures
            final(self).wf(),
            final(self).board == old(self).board,
            final(self).message == old(self).message,
            final(self).tui_board matches Some(tb) && {
                let tb0 = old(self).tui_board->0;
                &&& tb.board == tb0.board
                &&& tb.score == tb0.score
                &&& tb.disappearing_slots@ == tb0.disappearing_slots@
                &&& r is Ok ==> tb.done_slots@.len() == 0 && tb.moving_slots@.len() == 0
                &&& r is Ok ==> forall|k: int| 0 <= k < tb0.done_slots@.len() ==> (#[trigger] slot_index(tb0.done_slots@[k].1) matches Some(i)
                    ==> i.0 < 4 && i.1 < 4 && tb.slot_grid()[i.1 as int][i.0 as int] is Static)
                &&& tb.done_slots@.len() == 0
                &&& torn_down(tb0, old(self).canvas@, colors.card_colors@, tb, final(self).canvas@, r)
            },
    {
        let mut tb = self.tui_board.take().unwrap();
        let r = tb.teardown_animation(&mut self.canvas, colors);
        self.tui_board = Some(tb);
        r
    }

    /// The stacks of the canvas whose places changed since the last call, for rendering.
    pub fn changed_stacks(&mut self) -> (r: Vec<crate::tui::canvas::Stack>)
        requires
            old(self).wf(),
        ensures
            final(self).wf(),
            final(self).board == old(self).board,
            final(self).tui_board == old(self).tui_board,
            final(self).message == old(self).message,
            final(self).canvas@ == (CanvasView { changed: Seq::empty(), ..old(self).canvas@ }),
            r@.len() == old(self).canvas@.changed.len(),
            forall|i: int| 0 <= i < r@.len() ==> (#[trigger] r@[i]).idx == Idx(old(self).canvas@.changed[i].0, old(self).canvas@.changed[i].1, 0)
                && r@[i].cells@ == old(self).canvas@.cells[old(self).canvas@.changed[i].1 as int][old(self).canvas@.changed[i].0 as int],
    {
        self.canvas.get_changed()
    }

    /// The width and the height of the canvas.
    pub fn dimensions(&self) -> (r: (usize, usize))
        ensures
            r == (self.canvas@.rectangle.1.0, self.canvas@.rectangle.1.1),
    {
        self.canvas.dimensions()
    }
}

} // verus!
