use vstd::prelude::*;
use vstd::string::StringSliceAdditionalSpecFns;

use crate::tui::canvas::Modifier;
use crate::tui::colors::Rgb;
use crate::tui::error::{InnerError, TuiError};
use crate::tui::geometry::{position_resolvable, spec_relative_idx, Idx, Position, Rectangle};
use crate::tui::tuxel::{with_content, Tuxel};

verus! {

/// The tuxels of a rectangle of the canvas, row by row, with the modifiers of their colors.
pub struct DrawBufferInner {
    pub rectangle: Rectangle,
    pub border: bool,
    pub buf: Vec<Vec<Tuxel>>,
    pub modifiers: Vec<Modifier>,
}

/// What a draw buffer holds, as plain values.
pub struct BufferView {
    pub rectangle: Rectangle,
    pub border: bool,
    pub tuxels: Seq<Seq<Tuxel>>,
    pub modifiers: Seq<Modifier>,
}

impl View for DrawBufferInner {
    type V = BufferView;

    open spec fn view(&self) -> BufferView {
        BufferView {
            rectangle: self.rectangle,
            border: self.border,
            tuxels: self.tuxels(),
            modifiers: self.modifiers@,
        }
    }
}

/// The rows of tuxels of a buffer.
pub open spec fn rows(buf: Seq<Vec<Tuxel>>) -> Seq<Seq<Tuxel>> {
    Seq::new(buf.len(), |y: int| buf[y]@)
}

/// Where a position lands in a buffer: its coordinates, or the error that locating it gives.
pub open spec fn locate(r: Rectangle, buf: Seq<Seq<Tuxel>>, pos: Position) -> Result<(int, int), InnerError> {
    let (x, y) = spec_relative_idx(r.1.0 as int, r.1.1 as int, pos);
    if y >= buf.len() {
        Err(InnerError::OutOfBoundsY(y as usize))
    } else if x >= buf[y].len() {
        Err(InnerError::OutOfBoundsX(x as usize))
    } else {
        Ok((x, y))
    }
}

/// Calls `boxy::Char::upper_left(boxy::Weight::Doubled)` and converts it into a `char`,
/// which the crate's lookup table makes the doubled upper left corner.
#[verifier::external_body]
fn doubled_upper_left() -> (c: char)
    ensures
        c == '\u{2554}',
{
    boxy::Char::upper_left(boxy::Weight::Doubled).into()
}

/// Calls `boxy::Char::rotate_cw` on the doubled upper left corner and converts the result into
/// a `char`. The crate's documentation and lookup table give the doubled upper right corner
/// after one turn and the doubled lower right corner after two.
#[verifier::external_body]
fn doubled_corner_rotated_cw(turns: u32) -> (c: char)
    ensures
        turns % 4 == 0 ==> c == '\u{2554}',
        turns % 4 == 1 ==> c == '\u{2557}',
        turns % 4 == 2 ==> c == '\u{255D}',
        turns % 4 == 3 ==> c == '\u{255A}',
{
    boxy::Char::upper_left(boxy::Weight::Doubled).rotate_cw(turns).into()
}

/// Calls `boxy::Char::rotate_ccw` on the doubled upper left corner and converts the result into
/// a `char`: after one counter-clockwise turn it is the doubled lower left corner.
#[verifier::external_body]
fn doubled_corner_rotated_ccw(turns: u32) -> (c: char)
    ensures
        turns % 4 == 0 ==> c == '\u{2554}',
        turns % 4 == 1 ==> c == '\u{255A}',
        turns % 4 == 2 ==> c == '\u{255D}',
        turns % 4 == 3 ==> c == '\u{2557}',
{
    boxy::Char::upper_left(boxy::Weight::Doubled).rotate_ccw(turns).into()
}

/// Calls `boxy::Char::horizontal(boxy::Weight::Doubled)` and converts it into a `char`: the
/// doubled horizontal line.
#[verifier::external_body]
fn doubled_horizontal() -> (c: char)
    ensures
        c == '\u{2550}',
{
    boxy::Char::horizontal(boxy::Weight::Doubled).into()
}

/// Calls `boxy::Char::vertical(boxy::Weight::Doubled)` and converts it into a `char`: the
/// doubled vertical line.
#[verifier::external_body]
fn doubled_vertical() -> (c: char)
    ensures
        c == '\u{2551}',
{
    boxy::Char::vertical(boxy::Weight::Doubled).into()
}

/// Whether `after` is `before` with the tuxels of row `y` at columns `lo..hi` showing
/// `chars(x)` for column `x`.
pub open spec fn run_written(
    before: Seq<Seq<Tuxel>>,
    after: Seq<Seq<Tuxel>>,
    y: int,
    lo: int,
    hi: int,
    chars: spec_fn(int) -> char,
) -> bool {
    &&& after.len() == before.len()
    &&& forall|yy: int| 0 <= yy < before.len() ==> #[trigger] after[yy].len() == before[yy].len()
    &&& forall|yy: int, x: int|
        0 <= yy < before.len() && 0 <= x < before[yy].len() ==> #[trigger] after[yy][x] == if yy
            == y && lo <= x < hi {
            with_content(before[yy][x], chars(x))
        } else {
            before[yy][x]
        }
}

/// How many of `n` consecutive columns from `start` exist in row `y`.
pub open spec fn run_length(buf: Seq<Seq<Tuxel>>, y: int, start: int, n: int) -> int {
    if y < 0 || y >= buf.len() {
        0
    } else if buf[y].len() - start < 0 {
        0
    } else if buf[y].len() - start < n {
        buf[y].len() - start
    } else {
        n
    }
}

/// The error of a run of `n` writes from column `start` of row `y` of which only `m` land.
pub open spec fn run_error(buf: Seq<Seq<Tuxel>>, y: int, start: int, m: int) -> InnerError {
    if y >= buf.len() {
        InnerError::OutOfBoundsY(y as usize)
    } else {
        InnerError::OutOfBoundsX((start + m) as usize)
    }
}

/// The places on the canvas of `n` consecutive tuxels of row `y` from column `start`.
pub open spec fn run_places(buf: Seq<Seq<Tuxel>>, y: int, start: int, n: int) -> Seq<Idx> {
    Seq::new(n as nat, |k: int| buf[y][start + k].idx)
}

/// The places on the canvas of `n` consecutive tuxels of row `y`, from column `start` leftwards.
pub open spec fn run_places_rev(buf: Seq<Seq<Tuxel>>, y: int, start: int, n: int) -> Seq<Idx> {
    Seq::new(n as nat, |k: int| buf[y][start - k].idx)
}

/// Whether `after` is `before` with the tuxels of rows `y0..y1` at columns `x0..x1` showing `c`.
pub open spec fn block_written(
    before: Seq<Seq<Tuxel>>,
    after: Seq<Seq<Tuxel>>,
    x0: int,
    x1: int,
    y0: int,
    y1: int,
    c: char,
) -> bool {
    &&& after.len() == before.len()
    &&& forall|yy: int| 0 <= yy < before.len() ==> #[trigger] after[yy].len() == before[yy].len()
    &&& forall|yy: int, x: int|
        0 <= yy < before.len() && 0 <= x < before[yy].len() ==> #[trigger] after[yy][x] == if y0
            <= yy < y1 && x0 <= x < x1 {
            with_content(before[yy][x], c)
        } else {
            before[yy][x]
        }
}

/// The places of the tuxels of the first `n` rows from `y0`, columns `x0..x0 + w`, row by row.
pub open spec fn block_places(buf: Seq<Seq<Tuxel>>, x0: int, w: int, y0: int, n: int) -> Seq<Idx>
    decreases n,
{
    if n <= 0 {
        Seq::empty()
    } else {
        block_places(buf, x0, w, y0, n - 1) + run_places(buf, y0 + n - 1, x0, w)
    }
}

/// Whether `after` is `before` with each tuxel for which `f` gives a character showing it.
pub open spec fn painted(
    before: Seq<Seq<Tuxel>>,
    after: Seq<Seq<Tuxel>>,
    f: spec_fn(int, int) -> Option<char>,
) -> bool {
    &&& after.len() == before.len()
    &&& forall|yy: int| 0 <= yy < before.len() ==> #[trigger] after[yy].len() == before[yy].len()
    &&& forall|yy: int, x: int|
        0 <= yy < before.len() && 0 <= x < before[yy].len() ==> #[trigger] after[yy][x] == match f(
            yy,
            x,
        ) {
            Some(c) => with_content(before[yy][x], c),
            None => before[yy][x],
        }
}

/// `f`, with the tuxel at column `px` of row `py` showing `c`.
pub open spec fn paint_one(
    f: spec_fn(int, int) -> Option<char>,
    px: int,
    py: int,
    c: char,
) -> spec_fn(int, int) -> Option<char> {
    |yy: int, x: int|
        if yy == py && x == px {
            Some(c)
        } else {
            f(yy, x)
        }
}

/// The doubled border of a buffer `w` wide and `h` high, partly drawn: the corners, `top` and
/// `bottom` cells of the top and bottom lines after the corner, the sides of the first `sides`
/// lines below the top, and the left side of the next one if `left` holds.
pub open spec fn border_stage(
    w: int,
    h: int,
    top: int,
    bottom: int,
    sides: int,
    left: bool,
) -> spec_fn(int, int) -> Option<char> {
    |y: int, x: int|
        if x == 0 && y == 0 {
            Some('\u{2554}')
        } else if x == w - 1 && y == 0 {
            Some('\u{2557}')
        } else if x == w - 1 && y == h - 1 {
            Some('\u{255D}')
        } else if x == 0 && y == h - 1 {
            Some('\u{255A}')
        } else if y == 0 && 1 <= x < 1 + top {
            Some('\u{2550}')
        } else if y == h - 1 && 1 <= x < 1 + bottom {
            Some('\u{2550}')
        } else if 1 <= y < 1 + sides && (x == 0 || x == w - 1) {
            Some('\u{2551}')
        } else if left && y == 1 + sides && x == 0 {
            Some('\u{2551}')
        } else {
            None
        }
}

/// The doubled border of a buffer `w` wide and `h` high.
pub open spec fn border_char(w: int, h: int) -> spec_fn(int, int) -> Option<char> {
    border_stage(w, h, w - 2, w - 2, h - 2, false)
}

/// The places of the side tuxels of the first `n` lines below the top, left before right.
pub open spec fn side_places(buf: Seq<Seq<Tuxel>>, w: int, n: int) -> Seq<Idx>
    decreases n,
{
    if n <= 0 {
        Seq::empty()
    } else {
        side_places(buf, w, n - 1) + seq![buf[n][0].idx, buf[n][w - 1].idx]
    }
}

/// The places that drawing a border announces, in order.
pub open spec fn border_places(buf: Seq<Seq<Tuxel>>, w: int, h: int) -> Seq<Idx> {
    seq![buf[0][0].idx, buf[0][w - 1].idx, buf[h - 1][w - 1].idx, buf[h - 1][0].idx]
        + run_places(buf, 0, 1, w - 2) + run_places(buf, h - 1, 1, w - 2) + side_places(buf, w, h - 2)
}

/// Painting one more tuxel.
pub proof fn lemma_paint_step(
    before: Seq<Seq<Tuxel>>,
    mid: Seq<Seq<Tuxel>>,
    f: spec_fn(int, int) -> Option<char>,
    px: int,
    py: int,
    c: char,
)
    requires
        painted(before, mid, f),
        0 <= py < before.len(),
        0 <= px < before[py].len(),
    ensures
        painted(before, mid.update(py, mid[py].update(px, with_content(mid[py][px], c))), paint_one(f, px, py, c)),
{
    let after = mid.update(py, mid[py].update(px, with_content(mid[py][px], c)));
    assert forall|yy: int, x: int| 0 <= yy < before.len() && 0 <= x < before[yy].len() implies #[trigger] after[yy][x] == match paint_one(f, px, py, c)(yy, x) {
        Some(c) => with_content(before[yy][x], c),
        None => before[yy][x],
    } by {
        if yy == py && x == px {
            assert(mid[yy][x] == match f(yy, x) {
                Some(c) => with_content(before[yy][x], c),
                None => before[yy][x],
            });
        }
    }
}

/// A text has at least as many bytes as characters.
pub proof fn lemma_bytes_at_least_chars(chars: Seq<char>)
    ensures
        vstd::utf8::encode_utf8(chars).len() >= chars.len(),
    decreases chars.len(),
{
    if chars.len() > 0 {
        lemma_bytes_at_least_chars(chars.drop_first());
        assert(vstd::utf8::encode_scalar(chars[0] as u32).len() >= 1);
    }
}

/// A tuxel hidden and blanked, as releasing its buffer leaves it.
pub open spec fn cleared(t: Tuxel) -> Tuxel {
    Tuxel { active: false, content: ' ', ..t }
}

/// The tuxels of the rows in the order in which releasing a buffer hands them back: row by row,
/// each row from its end, each one cleared.
pub open spec fn drop_order(rows: Seq<Seq<Tuxel>>) -> Seq<Tuxel>
    decreases rows.len(),
{
    if rows.len() == 0 {
        Seq::empty()
    } else {
        drop_order(rows.drop_last()) + rows.last().reverse().map_values(|t: Tuxel| cleared(t))
    }
}

/// The places of a sequence of tuxels.
pub open spec fn places_of(ts: Seq<Tuxel>) -> Seq<Idx> {
    ts.map_values(|t: Tuxel| t.idx)
}

/// The error of a result, if any.
pub open spec fn err_of(r: Result<(), TuiError>) -> Result<(), InnerError> {
    match r {
        Ok(()) => Ok(()),
        Err(e) => Err(e.inner),
    }
}

/// A tuxel showing `c`, in the colors given, keeping its own where none is given.
pub open spec fn colored_tuxel(t: Tuxel, c: char, fg: Option<Rgb>, bg: Option<Rgb>) -> Tuxel {
    Tuxel {
        active: true,
        content: c,
        fgcolor: if fg is Some { fg } else { t.fgcolor },
        bgcolor: if bg is Some { bg } else { t.bgcolor },
        ..t
    }
}

/// Whether `after` is `before` with the tuxels of row `y` at columns `lo..hi` showing
/// `chars(x)` for column `x`, in the colors given.
pub open spec fn run_colored(
    before: Seq<Seq<Tuxel>>,
    after: Seq<Seq<Tuxel>>,
    y: int,
    lo: int,
    hi: int,
    chars: spec_fn(int) -> char,
    fg: Option<Rgb>,
    bg: Option<Rgb>,
) -> bool {
    &&& after.len() == before.len()
    &&& forall|yy: int| 0 <= yy < before.len() ==> #[trigger] after[yy].len() == before[yy].len()
    &&& forall|yy: int, x: int|
        0 <= yy < before.len() && 0 <= x < before[yy].len() ==> #[trigger] after[yy][x] == if yy
            == y && lo <= x < hi {
            colored_tuxel(before[yy][x], chars(x), fg, bg)
        } else {
            before[yy][x]
        }
}

/// Whether `b` is `a` after writing `text` in the colors given on line `y` from column `x0`
/// on, stopping at the first coordinate outside the buffer, with the result `r`, and the
/// changed places `ch1` are `ch0` followed by those of the tuxels written.
pub open spec fn colored_run(
    a: BufferView,
    b: BufferView,
    ch0: Seq<Idx>,
    ch1: Seq<Idx>,
    text: Seq<char>,
    x0: int,
    y: int,
    fg: Option<Rgb>,
    bg: Option<Rgb>,
    r: Result<(), InnerError>,
) -> bool {
    let m = run_length(a.tuxels, y, x0, text.len() as int);
    &&& r is Ok <==> m == text.len()
    &&& r matches Err(e) ==> e == run_error(a.tuxels, y, x0, m)
    &&& run_colored(a.tuxels, b.tuxels, y, x0, x0 + m, text_from(text, x0), fg, bg)
    &&& ch1 == ch0 + run_places(a.tuxels, y, x0, m)
    &&& frame_kept(a, b)
}

/// Whether a buffer kept its rectangle, its border and its modifiers.
pub open spec fn frame_kept(a: BufferView, b: BufferView) -> bool {
    b.rectangle == a.rectangle && b.border == a.border && b.modifiers == a.modifiers
}

/// Whether `b` is `a` after writing the first `n` characters of `text` on line `y` from column
/// `x0` on, stopping at the first coordinate outside the buffer, with the result `r`, and the
/// changed places `ch1` are `ch0` followed by those of the tuxels written.
pub open spec fn wrote_run(
    a: BufferView,
    b: BufferView,
    ch0: Seq<Idx>,
    ch1: Seq<Idx>,
    text: Seq<char>,
    x0: int,
    y: int,
    n: int,
    r: Result<(), InnerError>,
) -> bool {
    let m = run_length(a.tuxels, y, x0, n);
    &&& r is Ok <==> m == n
    &&& r matches Err(e) ==> e == run_error(a.tuxels, y, x0, m)
    &&& run_written(a.tuxels, b.tuxels, y, x0, x0 + m, text_from(text, x0))
    &&& ch1 == ch0 + run_places(a.tuxels, y, x0, m)
    &&& frame_kept(a, b)
}

/// The first column inside the border, if any.
pub open spec fn inner_left(a: BufferView) -> int {
    if a.border {
        1
    } else {
        0
    }
}

/// What `write_left` does: the text from the left edge of the middle line, inside the border,
/// at most `width + 1` characters.
pub open spec fn write_left_post(
    a: BufferView,
    b: BufferView,
    ch0: Seq<Idx>,
    ch1: Seq<Idx>,
    text: Seq<char>,
    r: Result<(), InnerError>,
) -> bool {
    let x0 = inner_left(a);
    wrote_run(a, b, ch0, ch1, text, x0, (a.rectangle.1.1 / 2) as int, min(text.len() as int, a.rectangle.1.0 + x0 + 1), r)
}

/// What `write_center` does, for a text of `bytes` bytes.
pub open spec fn write_center_post(
    a: BufferView,
    b: BufferView,
    ch0: Seq<Idx>,
    ch1: Seq<Idx>,
    text: Seq<char>,
    bytes: int,
    r: Result<(), InnerError>,
) -> bool {
    wrote_run(
        a,
        b,
        ch0,
        ch1,
        text,
        center_offset(a.rectangle, a.border, bytes),
        (a.rectangle.1.1 / 2) as int,
        min(text.len() as int, available_width(a.rectangle, a.border)),
        r,
    )
}

/// What `write_right` does: the text ending at the right edge of the middle line, inside the
/// border; a buffer of no line fails on the first character.
pub open spec fn write_right_post(
    a: BufferView,
    b: BufferView,
    ch0: Seq<Idx>,
    ch1: Seq<Idx>,
    text: Seq<char>,
    r: Result<(), InnerError>,
) -> bool {
    let y = a.rectangle.1.1 / 2;
    let x = right_edge(a.rectangle, a.border);
    let n = text.len() as int;
    &&& r is Err <==> n > 0 && a.rectangle.1.1 == 0
    &&& r matches Err(e) ==> e == InnerError::OutOfBoundsY(0)
    &&& r is Err ==> b == a && ch1 == ch0
    &&& r is Ok ==> run_written(a.tuxels, b.tuxels, y as int, x + 1 - n, x + 1, text_from(text, x + 1 - n))
    &&& r is Ok ==> ch1 == ch0 + run_places_rev(a.tuxels, y as int, x, n)
    &&& frame_kept(a, b)
}

/// What `fill` does: `c` in every tuxel inside the border, row by row.
pub open spec fn fill_post(a: BufferView, b: BufferView, ch0: Seq<Idx>, ch1: Seq<Idx>, c: char) -> bool {
    let k = inner_left(a);
    let w = a.rectangle.1.0 - 2 * k;
    let h = a.rectangle.1.1 - 2 * k;
    &&& block_written(a.tuxels, b.tuxels, k, k + w, k, k + h, c)
    &&& ch1 == ch0 + block_places(a.tuxels, k, w, k, h)
    &&& frame_kept(a, b)
}

/// What `draw_border` does: on a buffer of at least two lines, a doubled border along its edges,
/// after which the buffer counts as bordered; a buffer of no column fails on its first corner.
pub open spec fn border_post(a: BufferView, b: BufferView, ch0: Seq<Idx>, ch1: Seq<Idx>, r: Result<(), InnerError>) -> bool {
    let w = a.rectangle.1.0 as int;
    let h = a.rectangle.1.1 as int;
    &&& r is Err <==> h >= 2 && w == 0
    &&& r matches Err(e) ==> e == InnerError::OutOfBoundsX(0)
    &&& r is Err || h < 2 ==> b == a && ch1 == ch0
    &&& r is Ok && h >= 2 ==> {
        &&& painted(a.tuxels, b.tuxels, border_char(w, h))
        &&& ch1 == ch0 + border_places(a.tuxels, w, h)
        &&& b.border
        &&& b.rectangle == a.rectangle
        &&& b.modifiers == a.modifiers
    }
}

/// A centered text fits in the middle line of a buffer with at least one line.
pub proof fn lemma_center_fits(a: BufferView, text: Seq<char>, bytes: int)
    requires
        a.tuxels.len() == a.rectangle.1.1,
        forall|y: int| 0 <= y < a.tuxels.len() ==> #[trigger] a.tuxels[y].len() == a.rectangle.1.0,
        a.rectangle.1.1 >= 1,
        a.border ==> a.rectangle.1.0 >= 2,
        bytes >= text.len(),
    ensures
        ({
            let n = min(text.len() as int, available_width(a.rectangle, a.border));
            run_length(a.tuxels, (a.rectangle.1.1 / 2) as int, center_offset(a.rectangle, a.border, bytes), n) == n
        }),
{
    let y = (a.rectangle.1.1 / 2) as int;
    assert(a.tuxels[y].len() == a.rectangle.1.0);
}

/// The characters of `text` laid out from column `start` on.
pub open spec fn text_from(text: Seq<char>, start: int) -> spec_fn(int) -> char {
    |x: int| text[x - start]
}

/// The column of the middle line where `write_right` puts the last character.
pub open spec fn right_edge(r: Rectangle, border: bool) -> int {
    if border {
        r.1.0 - 2
    } else {
        r.1.0 - 1
    }
}

/// The columns inside the border, or all of them when there is none.
pub open spec fn available_width(r: Rectangle, border: bool) -> int {
    if border {
        r.1.0 - 2
    } else {
        r.1.0 as int
    }
}

/// The column where `write_center` puts the first character of a text of `bytes` bytes: the
/// larger half of the free columns goes to the left.
pub open spec fn center_offset(r: Rectangle, border: bool, bytes: int) -> int {
    let b: int = if border { 1 } else { 0 };
    let avail = available_width(r, border);
    if bytes >= avail {
        b
    } else {
        b + (avail - bytes) / 2 + (avail - bytes) % 2
    }
}

pub open spec fn min(a: int, b: int) -> int {
    if a < b {
        a
    } else {
        b
    }
}

impl DrawBufferInner {
    pub open spec fn tuxels(&self) -> Seq<Seq<Tuxel>> {
        rows(self.buf@)
    }

    /// Whether the buffer holds one row per line of its rectangle, each as wide as it.
    pub open spec fn wf(&self) -> bool {
        &&& self.buf@.len() == self.rectangle.1.1
        &&& forall|y: int| 0 <= y < self.buf@.len() ==> #[trigger] self.buf@[y]@.len() == self.rectangle.1.0
    }

    /// A buffer whose rows match its rectangle is well formed.
    pub proof fn lemma_view_wf(&self)
        requires
            self.tuxels().len() == self.rectangle.1.1,
            forall|y: int| 0 <= y < self.tuxels().len() ==> #[trigger] self.tuxels()[y].len() == self.rectangle.1.0,
        ensures
            self.wf(),
    {
        assert forall|y: int| 0 <= y < self.buf@.len() implies #[trigger] self.buf@[y]@.len() == self.rectangle.1.0 by {
            assert(self.tuxels()[y].len() == self.rectangle.1.0);
        }
    }

    /// An empty buffer for `rectangle`: one empty row per line, to be filled by `push`.
    pub fn new(rectangle: Rectangle) -> (r: DrawBufferInner)
        ensures
            r.rectangle == rectangle,
            !r.border,
            r.tuxels() == Seq::new(rectangle.1.1 as nat, |y: int| Seq::<Tuxel>::empty()),
            r.modifiers@.len() == 0,
    {
        let mut buf: Vec<Vec<Tuxel>> = Vec::new();
        let mut y: usize = 0;
        while y < rectangle.height()
            invariant
                y <= rectangle.1.1,
                buf@.len() == y,
                forall|j: int| 0 <= j < y ==> (#[trigger] buf@[j])@.len() == 0,
            decreases rectangle.1.1 - y,
        {
            let row: Vec<Tuxel> = Vec::new();
            buf.push(row);
            y = y + 1;
        }
        proof {
            assert forall|j: int| 0 <= j < y implies #[trigger] rows(buf@)[j] == Seq::<Tuxel>::empty() by {
                assert(buf@[j]@ =~= Seq::<Tuxel>::empty());
            }
            assert(rows(buf@) =~= Seq::new(y as nat, |j: int| Seq::<Tuxel>::empty()));
        }
        DrawBufferInner { rectangle, border: false, buf, modifiers: Vec::new() }
    }

    /// Appends `t` to the row of its line, as tuxels are added row by row and left to right.
    /// `t` must lie in the buffer's rectangle.
    pub fn push_tuxel(&mut self, t: Tuxel)
        requires
            old(self).rectangle.0.0 <= t.idx.0,
            old(self).rectangle.0.1 <= t.idx.1,
            t.idx.1 - old(self).rectangle.0.1 < old(self).buf@.len(),
        ensures
            ({
                let y = t.idx.1 - old(self).rectangle.0.1;
                final(self).tuxels() == old(self).tuxels().update(y, old(self).tuxels()[y].push(t))
            }),
            final(self).rectangle == old(self).rectangle,
            final(self).border == old(self).border,
            final(self).modifiers == old(self).modifiers,
    {
        let y = t.idx.1 - self.rectangle.0.1;
        let ghost before = self.tuxels();
        self.buf[y].push(t);
        proof {
            assert(self.tuxels() =~= before.update(y as int, before[y as int].push(t)));
        }
    }

    /// Empties the buffer, row by row and each row from its end, clearing each tuxel (which
    /// announces its place as changed) and handing it back to the canvas.
    pub fn drain_into(&mut self, changed: &mut Vec<Idx>, released: &mut Vec<Tuxel>)
        ensures
            final(released)@ == old(released)@ + drop_order(old(self).tuxels()),
            final(changed)@ == old(changed)@ + places_of(drop_order(old(self).tuxels())),
            final(self).rectangle == old(self).rectangle,
            final(self).border == old(self).border,
            final(self).modifiers == old(self).modifiers,
    {
        let ghost before = self.tuxels();
        let ghost released0 = released@;
        let ghost changed0 = changed@;
        let mut y: usize = 0;
        while y < self.buf.len()
            invariant
                y <= self.buf@.len(),
                self.buf@.len() == before.len(),
                before == old(self).tuxels(),
                released0 == old(released)@,
                changed0 == old(changed)@,
                self.rectangle == old(self).rectangle,
                self.border == old(self).border,
                self.modifiers == old(self).modifiers,
                forall|k: int| y <= k < before.len() ==> #[trigger] self.buf@[k]@ == before[k],
                released@ == released0 + drop_order(before.subrange(0, y as int)),
                changed@ == changed0 + places_of(drop_order(before.subrange(0, y as int))),
            decreases before.len() - y,
        {
            let ghost row = before[y as int];
            let ghost released_row = released@;
            let ghost changed_row = changed@;
            while self.buf[y].len() > 0
                invariant
                    y < self.buf@.len(),
                    self.buf@.len() == before.len(),
                    row == before[y as int],
                    self.buf@[y as int]@.len() <= row.len(),
                    self.buf@[y as int]@ == row.subrange(0, self.buf@[y as int]@.len() as int),
                    forall|k: int| y < k < before.len() ==> #[trigger] self.buf@[k]@ == before[k],
                    self.rectangle == old(self).rectangle,
                    self.border == old(self).border,
                    self.modifiers == old(self).modifiers,
                    released@ == released_row + row.subrange(self.buf@[y as int]@.len() as int, row.len() as int).reverse().map_values(|t: Tuxel| cleared(t)),
                    changed@ == changed_row + places_of(row.subrange(self.buf@[y as int]@.len() as int, row.len() as int).reverse().map_values(|t: Tuxel| cleared(t))),
                decreases self.buf@[y as int]@.len(),
            {
                let ghost n = self.buf@[y as int]@.len();
                let ghost released_mid = released@;
                let ghost changed_mid = changed@;
                let ghost cur = self.buf@[y as int]@;
                proof {
                    assert(cur[n - 1] == row[n - 1]);
                }
                let popped = self.buf[y].pop();
                proof {
                    assert(popped == Some(cur[n - 1]));
                }
                let mut t = popped.unwrap();
                proof {
                    assert(t == row[n - 1]);
                }
                t.clear(changed);
                released.push(t);
                proof {
                    let m = (n - 1) as int;
                    assert(t == cleared(row[m]));
                    let tail = row.subrange(n as int, row.len() as int).reverse().map_values(|t: Tuxel| cleared(t));
                    assert(row.subrange(m, row.len() as int).reverse().map_values(|t: Tuxel| cleared(t)) =~= tail.push(cleared(row[m])));
                    assert(places_of(tail.push(cleared(row[m]))) =~= places_of(tail).push(row[m].idx));
                    assert(row.subrange(m, row.len() as int).reverse() =~= row.subrange(n as int, row.len() as int).reverse().push(row[m]));
                    assert(released@ =~= released_row + row.subrange(m, row.len() as int).reverse().map_values(|t: Tuxel| cleared(t)));
                    assert(changed@ =~= changed_row + places_of(row.subrange(m, row.len() as int).reverse().map_values(|t: Tuxel| cleared(t))));
                    assert(self.buf@[y as int]@ =~= row.subrange(0, m));
                }
            }
            proof {
                assert(row.subrange(0, row.len() as int) =~= row);
                assert(before.subrange(0, y + 1).drop_last() =~= before.subrange(0, y as int));
                assert(before.subrange(0, y + 1).last() == row);
                assert(released@ =~= released0 + drop_order(before.subrange(0, y + 1)));
                assert(changed@ =~= changed0 + places_of(drop_order(before.subrange(0, y + 1))));
            }
            y = y + 1;
        }
        proof {
            assert(before.subrange(0, before.len() as int) =~= before);
        }
    }

    /// Writes the first `n` characters of `s` on line `y` from column `x0` on, one per column,
    /// stopping at the first coordinate that lies outside the buffer.
    fn write_run(&mut self, s: &str, x0: usize, y: usize, n: usize, changed: &mut Vec<Idx>) -> (r: Result<(), TuiError>)
        requires
            n <= s@.len(),
            x0 + n <= usize::MAX + 1,
        ensures
            wrote_run(old(self)@, final(self)@, old(changed)@, final(changed)@, s@, x0 as int, y as int, n as int, err_of(r)),
    {
        let ghost before = self.tuxels();
        let ghost changed0 = changed@;
        let ghost chars = text_from(s@, x0 as int);
        let mut offset: usize = 0;
        while offset < n
            invariant
                n <= s@.len(),
                x0 + n <= usize::MAX + 1,
                offset <= n,
                offset <= run_length(before, y as int, x0 as int, n as int),
                self.rectangle == old(self).rectangle,
                self.border == old(self).border,
                self.modifiers == old(self).modifiers,
                before == old(self).tuxels(),
                changed0 == old(changed)@,
                chars == text_from(s@, x0 as int),
                run_written(before, self.tuxels(), y as int, x0 as int, x0 + offset, chars),
                changed@ == changed0 + run_places(before, y as int, x0 as int, offset as int),
            decreases n - offset,
        {
            let c = s.get_char(offset);
            let ghost mid = self.tuxels();
            match self.get_tuxel_mut(Position::Coordinates(x0 + offset, y)) {
                Ok(t) => {
                    proof {
                        assert(mid[y as int].len() == before[y as int].len());
                        assert(y < mid.len() && x0 + offset < mid[y as int].len());
                    }
                    t.set_content(c, changed);
                },
                Err(e) => {
                    proof {
                        assert(offset == run_length(before, y as int, x0 as int, n as int));
                        assert(mid.len() == before.len());
                    }
                    return Err(e);
                },
            }
            proof {
                assert(changed@ =~= changed0 + run_places(before, y as int, x0 as int, offset + 1));
            }
            offset = offset + 1;
        }
        Ok(())
    }

    /// Writes `s` in the colors given on line `y` from column `x0` on, one character per
    /// column, each tuxel taking the colors given and keeping its own where none is given;
    /// stops with the first coordinate that lies outside the buffer.
    pub fn write_colored(
        &mut self,
        s: &str,
        x0: usize,
        y: usize,
        fg: Option<Rgb>,
        bg: Option<Rgb>,
        changed: &mut Vec<Idx>,
    ) -> (r: Result<(), TuiError>)
        requires
            x0 + s@.len() <= usize::MAX + 1,
        ensures
            colored_run(old(self)@, final(self)@, old(changed)@, final(changed)@, s@, x0 as int, y as int, fg, bg, err_of(r)),
    {
        let ghost before = self.tuxels();
        let ghost changed0 = changed@;
        let ghost chars = text_from(s@, x0 as int);
        let n = s.unicode_len();
        let mut offset: usize = 0;
        while offset < n
            invariant
                n == s@.len(),
                x0 + n <= usize::MAX + 1,
                offset <= n,
                offset <= run_length(before, y as int, x0 as int, n as int),
                self.rectangle == old(self).rectangle,
                self.border == old(self).border,
                self.modifiers == old(self).modifiers,
                before == old(self).tuxels(),
                changed0 == old(changed)@,
                chars == text_from(s@, x0 as int),
                run_colored(before, self.tuxels(), y as int, x0 as int, x0 + offset, chars, fg, bg),
                changed@ == changed0 + run_places(before, y as int, x0 as int, offset as int),
            decreases n - offset,
        {
            let c = s.get_char(offset);
            let ghost mid = self.tuxels();
            match self.get_tuxel_mut(Position::Coordinates(x0 + offset, y)) {
                Ok(t) => {
                    proof {
                        assert(mid[y as int].len() == before[y as int].len());
                        assert(y < mid.len() && x0 + offset < mid[y as int].len());
                    }
                    t.set_content(c, changed);
                    match bg {
                        Some(color) => {
                            t.bgcolor = Some(color);
                        },
                        None => {},
                    }
                    match fg {
                        Some(color) => {
                            t.fgcolor = Some(color);
                        },
                        None => {},
                    }
                },
                Err(e) => {
                    proof {
                        assert(offset == run_length(before, y as int, x0 as int, n as int));
                        assert(mid.len() == before.len());
                    }
                    return Err(e);
                },
            }
            proof {
                assert(changed@ =~= changed0 + run_places(before, y as int, x0 as int, offset + 1));
            }
            offset = offset + 1;
        }
        Ok(())
    }

    /// Writes `s` from the left edge of the middle line (just inside the border, if any), one
    /// character per column. Writing stops after `width + 1` characters (counted from the
    /// border column), or with the coordinate that lies outside the buffer.
    pub fn write_left(&mut self, s: &str, changed: &mut Vec<Idx>) -> (r: Result<(), TuiError>)
        requires
            old(self).rectangle.1.0 + 2 <= usize::MAX,
        ensures
            write_left_post(old(self)@, final(self)@, old(changed)@, final(changed)@, s@, err_of(r)),
    {
        let y = self.rectangle.height() / 2;
        let x: usize = if self.border { 1 } else { 0 };
        let len = s.unicode_len();
        let bound = self.rectangle.width() + x + 1;
        let n = if len < bound { len } else { bound };
        self.write_run(s, x, y, n, changed)
    }

    /// Writes `s` centered on the middle line, inside the border if any: the free columns are
    /// counted with the byte length of `s` and the larger half goes to the left. Only as many
    /// characters as there are columns inside the border are written.
    pub fn write_center(&mut self, s: &str, changed: &mut Vec<Idx>) -> (r: Result<(), TuiError>)
        requires
            old(self).border ==> old(self).rectangle.1.0 >= 2,
        ensures
            write_center_post(old(self)@, final(self)@, old(changed)@, final(changed)@, s@, s.spec_bytes().len() as int, err_of(r)),
    {
        let y = self.rectangle.height() / 2;
        let width = self.rectangle.width();
        let available = if self.border { width - 2 } else { width };
        let border_offset: usize = if self.border { 1 } else { 0 };
        let bytes = s.as_bytes().len();
        let x_offset = if bytes >= available {
            border_offset
        } else {
            border_offset + (available - bytes) / 2 + (available - bytes) % 2
        };
        let len = s.unicode_len();
        let n = if len < available { len } else { available };
        proof {
            lemma_bytes_at_least_chars(s@);
        }
        self.write_run(s, x_offset, y, n, changed)
    }

    /// Writes `s` so that its last character lands at the right edge of the middle line (just
    /// inside the border, if any), one character per column leftwards.
    pub fn write_right(&mut self, s: &str, changed: &mut Vec<Idx>) -> (r: Result<(), TuiError>)
        requires
            old(self).wf(),
            old(self).rectangle.1.0 >= if old(self).border { 2usize } else { 1usize },
            old(self).rectangle.1.1 == 0 || s@.len() <= right_edge(old(self).rectangle, old(self).border) + 1,
        ensures
            write_right_post(old(self)@, final(self)@, old(changed)@, final(changed)@, s@, err_of(r)),
    {
        let y = self.rectangle.height() / 2;
        let x: usize = if self.border { self.rectangle.width() - 2 } else { self.rectangle.width() - 1 };
        let len = s.unicode_len();
        let ghost before = self.tuxels();
        let ghost changed0 = changed@;
        let ghost chars = text_from(s@, x + 1 - len);
        let mut offset: usize = 0;
        while offset < len
            invariant
                len == s@.len(),
                old(self).wf(),
                self.rectangle == old(self).rectangle,
                self.border == old(self).border,
                self.modifiers == old(self).modifiers,
                x == right_edge(old(self).rectangle, old(self).border),
                y == self.rectangle.1.1 / 2,
                old(self).rectangle.1.1 == 0 || len <= x + 1,
                before == old(self).tuxels(),
                changed0 == old(changed)@,
                chars == text_from(s@, x + 1 - len),
                offset <= len,
                offset == 0 || old(self).rectangle.1.1 > 0,
                offset == 0 ==> *self == *old(self) && changed@ == changed0,
                run_written(before, self.tuxels(), y as int, x + 1 - offset, x + 1, chars),
                changed@ == changed0 + run_places_rev(before, y as int, x as int, offset as int),
            decreases len - offset,
        {
            let c = s.get_char(len - 1 - offset);
            match self.get_tuxel_mut(Position::Coordinates(x - offset, y)) {
                Ok(t) => {
                    t.set_content(c, changed);
                },
                Err(e) => {
                    return Err(e);
                },
            }
            proof {
                assert(changed@ =~= changed0 + run_places_rev(before, y as int, x as int, offset + 1));
            }
            offset = offset + 1;
        }
        Ok(())
    }

    /// Shows `c` in every tuxel inside the border, or in every tuxel when there is none.
    pub fn fill(&mut self, c: char, changed: &mut Vec<Idx>) -> (r: Result<(), TuiError>)
        requires
            old(self).wf(),
            old(self).border ==> old(self).rectangle.1.0 >= 2 && old(self).rectangle.1.1 >= 2,
        ensures
            r is Ok,
            fill_post(old(self)@, final(self)@, old(changed)@, final(changed)@, c),
    {
        let (skipx, takex, skipy, takey) = if self.border {
            (1usize, self.rectangle.width() - 2, 1usize, self.rectangle.height() - 2)
        } else {
            (0usize, self.rectangle.width(), 0usize, self.rectangle.height())
        };
        let ghost before = self.tuxels();
        let ghost changed0 = changed@;
        let mut j: usize = 0;
        while j < takey
            invariant
                old(self).wf(),
                self.rectangle == old(self).rectangle,
                self.border == old(self).border,
                self.modifiers == old(self).modifiers,
                2 * skipx + takex == self.rectangle.1.0,
                2 * skipy + takey == self.rectangle.1.1,
                skipx == (if old(self).border { 1usize } else { 0usize }),
                skipy == skipx,
                before == old(self).tuxels(),
                changed0 == old(changed)@,
                j <= takey,
                block_written(before, self.tuxels(), skipx as int, skipx + takex, skipy as int, skipy + j, c),
                changed@ == changed0 + block_places(before, skipx as int, takex as int, skipy as int, j as int),
            decreases takey - j,
        {
            let yy = skipy + j;
            let ghost row_start = self.tuxels();
            let ghost changed_row = changed@;
            let mut i: usize = 0;
            while i < takex
                invariant
                    old(self).wf(),
                    self.rectangle == old(self).rectangle,
                    self.border == old(self).border,
                    self.modifiers == old(self).modifiers,
                    2 * skipx + takex == self.rectangle.1.0,
                    2 * skipy + takey == self.rectangle.1.1,
                    j < takey,
                    yy == skipy + j,
                    before == old(self).tuxels(),
                    row_start.len() == before.len(),
                    forall|k: int| 0 <= k < before.len() ==> #[trigger] row_start[k].len() == before[k].len(),
                    forall|k: int, x: int| 0 <= k < before.len() && 0 <= x < before[k].len() && k >= yy ==> #[trigger] row_start[k][x] == before[k][x],
                    block_written(row_start, self.tuxels(), skipx as int, skipx + i, yy as int, yy + 1, c),
                    changed@ == changed_row + run_places(before, yy as int, skipx as int, i as int),
                    i <= takex,
                decreases takex - i,
            {
                proof {
                    let x = skipx + i;
                    assert(self.buf@[yy as int]@ == self.tuxels()[yy as int]);
                    assert(self.tuxels()[yy as int][x] == row_start[yy as int][x]);
                    assert(self.tuxels()[yy as int][x] == before[yy as int][x]);
                }
                let ghost mid = self.tuxels();
                self.buf[yy][skipx + i].set_content(c, changed);
                proof {
                    let x = skipx + i;
                    assert(self.tuxels() =~= mid.update(yy as int, mid[yy as int].update(x as int, with_content(mid[yy as int][x as int], c))));
                    assert(changed@ =~= changed_row + run_places(before, yy as int, skipx as int, i + 1));
                }
                i = i + 1;
            }
            proof {
                assert(block_places(before, skipx as int, takex as int, skipy as int, j + 1)
                    == block_places(before, skipx as int, takex as int, skipy as int, j as int)
                        + run_places(before, yy as int, skipx as int, takex as int));
            }
            j = j + 1;
        }
        Ok(())
    }

    /// Draws a doubled border along the edges of a buffer of at least two lines, and marks the
    /// buffer as bordered. A buffer of fewer lines is left as it is.
    pub fn draw_border(&mut self, changed: &mut Vec<Idx>) -> (r: Result<(), TuiError>)
        requires
            old(self).wf(),
            old(self).rectangle.1.1 >= 2 ==> old(self).rectangle.1.0 != 1,
        ensures
            border_post(old(self)@, final(self)@, old(changed)@, final(changed)@, err_of(r)),
    {
        if self.buf.len() < 2 {
            return Ok(());
        }
        let w = self.rectangle.width();
        let h = self.rectangle.height();
        if self.buf[0].len() == 0 {
            return Err(TuiError::from(InnerError::OutOfBoundsX(0)));
        }
        let corner = doubled_upper_left();
        let horizontal = doubled_horizontal();
        let vertical = doubled_vertical();
        let ghost before = self.tuxels();
        let ghost changed0 = changed@;
        let ghost wi = w as int;
        let ghost hi = h as int;
        proof {
            assert(painted(before, self.tuxels(), |y: int, x: int| None::<char>));
        }
        let ghost f0 = |y: int, x: int| None::<char>;
        let ghost m = self.tuxels();
        self.buf[0][0].set_content(corner, changed);
        proof {
            lemma_paint_step(before, m, f0, 0, 0, corner);
            assert(self.tuxels() =~= m.update(0, m[0].update(0, with_content(m[0][0], corner))));
        }
        let ghost f1 = paint_one(f0, 0, 0, corner);
        let ghost m = self.tuxels();
        let c = doubled_corner_rotated_cw(1);
        self.buf[0][w - 1].set_content(c, changed);
        proof {
            lemma_paint_step(before, m, f1, wi - 1, 0, c);
            assert(self.tuxels() =~= m.update(0, m[0].update(wi - 1, with_content(m[0][wi - 1], c))));
        }
        let ghost f2 = paint_one(f1, wi - 1, 0, c);
        let ghost m = self.tuxels();
        let c = doubled_corner_rotated_cw(2);
        self.buf[h - 1][w - 1].set_content(c, changed);
        proof {
            lemma_paint_step(before, m, f2, wi - 1, hi - 1, c);
            assert(self.tuxels() =~= m.update(hi - 1, m[hi - 1].update(wi - 1, with_content(m[hi - 1][wi - 1], c))));
        }
        let ghost f3 = paint_one(f2, wi - 1, hi - 1, c);
        let ghost m = self.tuxels();
        let c = doubled_corner_rotated_ccw(1);
        self.buf[h - 1][0].set_content(c, changed);
        proof {
            lemma_paint_step(before, m, f3, 0, hi - 1, c);
            assert(self.tuxels() =~= m.update(hi - 1, m[hi - 1].update(0, with_content(m[hi - 1][0], c))));
            assert(paint_one(f3, 0, hi - 1, c) =~= border_stage(wi, hi, 0, 0, 0, false));
            assert(changed@ =~= changed0 + seq![before[0][0].idx, before[0][wi - 1].idx, before[hi - 1][wi - 1].idx, before[hi - 1][0].idx]);
        }
        let ghost changed_corners = changed@;
        let mut i: usize = 0;
        while i < w - 2
            invariant
                old(self).wf(),
                self.rectangle == old(self).rectangle,
                self.border == old(self).border,
                self.modifiers == old(self).modifiers,
                before == old(self).tuxels(),
                w == self.rectangle.1.0,
                h == self.rectangle.1.1,
                wi == w,
                hi == h,
                w >= 2,
                h >= 2,
                horizontal == '\u{2550}',
                i <= w - 2,
                painted(before, self.tuxels(), border_stage(wi, hi, i as int, 0, 0, false)),
                changed@ == changed_corners + run_places(before, 0, 1, i as int),
            decreases w - 2 - i,
        {
            let ghost m = self.tuxels();
            proof {
                assert(m[0][1 + i] == before[0][1 + i]);
            }
            self.buf[0][1 + i].set_content(horizontal, changed);
            proof {
                lemma_paint_step(before, m, border_stage(wi, hi, i as int, 0, 0, false), 1 + i, 0, horizontal);
                assert(self.tuxels() =~= m.update(0, m[0].update(1 + i, with_content(m[0][1 + i], horizontal))));
                assert(paint_one(border_stage(wi, hi, i as int, 0, 0, false), 1 + i, 0, horizontal) =~= border_stage(wi, hi, i + 1, 0, 0, false));
                assert(changed@ =~= changed_corners + run_places(before, 0, 1, i + 1));
            }
            i = i + 1;
        }
        let ghost changed_top = changed@;
        let mut i: usize = 0;
        while i < w - 2
            invariant
                old(self).wf(),
                self.rectangle == old(self).rectangle,
                self.border == old(self).border,
                self.modifiers == old(self).modifiers,
                before == old(self).tuxels(),
                w == self.rectangle.1.0,
                h == self.rectangle.1.1,
                wi == w,
                hi == h,
                w >= 2,
                h >= 2,
                horizontal == '\u{2550}',
                i <= w - 2,
                painted(before, self.tuxels(), border_stage(wi, hi, wi - 2, i as int, 0, false)),
                changed@ == changed_top + run_places(before, hi - 1, 1, i as int),
            decreases w - 2 - i,
        {
            let ghost m = self.tuxels();
            proof {
                assert(m[hi - 1][1 + i] == before[hi - 1][1 + i]);
            }
            self.buf[h - 1][1 + i].set_content(horizontal, changed);
            proof {
                lemma_paint_step(before, m, border_stage(wi, hi, wi - 2, i as int, 0, false), 1 + i, hi - 1, horizontal);
                assert(self.tuxels() =~= m.update(hi - 1, m[hi - 1].update(1 + i, with_content(m[hi - 1][1 + i], horizontal))));
                assert(paint_one(border_stage(wi, hi, wi - 2, i as int, 0, false), 1 + i, hi - 1, horizontal) =~= border_stage(wi, hi, wi - 2, i + 1, 0, false));
                assert(changed@ =~= changed_top + run_places(before, hi - 1, 1, i + 1));
            }
            i = i + 1;
        }
        let ghost changed_bottom = changed@;
        let mut j: usize = 0;
        while j < h - 2
            invariant
                old(self).wf(),
                self.rectangle == old(self).rectangle,
                self.border == old(self).border,
                self.modifiers == old(self).modifiers,
                before == old(self).tuxels(),
                w == self.rectangle.1.0,
                h == self.rectangle.1.1,
                wi == w,
                hi == h,
                w >= 2,
                h >= 2,
                vertical == '\u{2551}',
                j <= h - 2,
                painted(before, self.tuxels(), border_stage(wi, hi, wi - 2, wi - 2, j as int, false)),
                changed@ == changed_bottom + side_places(before, wi, j as int),
            decreases h - 2 - j,
        {
            let ghost m = self.tuxels();
            let ghost y = 1 + j;
            proof {
                assert(m[y][0] == before[y][0]);
            }
            self.buf[1 + j][0].set_content(vertical, changed);
            proof {
                lemma_paint_step(before, m, border_stage(wi, hi, wi - 2, wi - 2, j as int, false), 0, y, vertical);
                assert(self.tuxels() =~= m.update(y, m[y].update(0, with_content(m[y][0], vertical))));
                assert(paint_one(border_stage(wi, hi, wi - 2, wi - 2, j as int, false), 0, y, vertical) =~= border_stage(wi, hi, wi - 2, wi - 2, j as int, true));
            }
            let ghost m = self.tuxels();
            proof {
                assert(m[y][wi - 1] == before[y][wi - 1]);
            }
            self.buf[1 + j][w - 1].set_content(vertical, changed);
            proof {
                lemma_paint_step(before, m, border_stage(wi, hi, wi - 2, wi - 2, j as int, true), wi - 1, y, vertical);
                assert(self.tuxels() =~= m.update(y, m[y].update(wi - 1, with_content(m[y][wi - 1], vertical))));
                assert(paint_one(border_stage(wi, hi, wi - 2, wi - 2, j as int, true), wi - 1, y, vertical) =~= border_stage(wi, hi, wi - 2, wi - 2, j + 1, false));
                assert(changed@ =~= changed_bottom + side_places(before, wi, j + 1));
            }
            j = j + 1;
        }
        self.border = true;
        proof {
            assert(changed@ =~= changed0 + border_places(before, wi, hi));
        }
        Ok(())
    }

    /// The tuxel at a position, or the coordinate that lies outside the buffer.
    pub fn get_tuxel(&self, pos: Position) -> (r: Result<Tuxel, TuiError>)
        requires
            position_resolvable(self.rectangle.1.0 as int, self.rectangle.1.1 as int, pos),
        ensures
            match locate(self.rectangle, self.tuxels(), pos) {
                Ok((x, y)) => r == Ok::<Tuxel, TuiError>(self.tuxels()[y][x]),
                Err(e) => r matches Err(err) && err.inner == e,
            },
    {
        let (x, y) = self.rectangle.relative_idx(&pos);
        if y >= self.buf.len() {
            return Err(TuiError::from(InnerError::OutOfBoundsY(y)));
        }
        if x >= self.buf[y].len() {
            return Err(TuiError::from(InnerError::OutOfBoundsX(x)));
        }
        Ok(self.buf[y][x])
    }

    /// Whether the tuxel at column `x` of row `y` shows.
    pub fn tuxel_is_active(&self, x: usize, y: usize) -> (r: Result<bool, TuiError>)
        ensures
            match locate(self.rectangle, self.tuxels(), Position::Coordinates(x, y)) {
                Ok((xx, yy)) => r == Ok::<bool, TuiError>(self.tuxels()[yy][xx].active),
                Err(e) => r matches Err(err) && err.inner == e,
            },
    {
        match self.get_tuxel(Position::Coordinates(x, y)) {
            Ok(t) => Ok(t.active()),
            Err(e) => Err(e),
        }
    }

    /// The character of the tuxel at column `x` of row `y`.
    pub fn tuxel_content(&self, x: usize, y: usize) -> (r: Result<char, TuiError>)
        ensures
            match locate(self.rectangle, self.tuxels(), Position::Coordinates(x, y)) {
                Ok((xx, yy)) => r == Ok::<char, TuiError>(self.tuxels()[yy][xx].content),
                Err(e) => r matches Err(err) && err.inner == e,
            },
    {
        match self.get_tuxel(Position::Coordinates(x, y)) {
            Ok(t) => Ok(t.content()),
            Err(e) => Err(e),
        }
    }

    /// The colors of the tuxel at column `x` of row `y`.
    pub fn tuxel_colors(&self, x: usize, y: usize) -> (r: (Option<Rgb>, Option<Rgb>))
        requires
            y < self.buf@.len(),
            x < self.buf@[y as int]@.len(),
        ensures
            r == (self.tuxels()[y as int][x as int].fgcolor, self.tuxels()[y as int][x as int].bgcolor),
    {
        self.buf[y][x].colors()
    }

    /// The tuxel at a position, or the coordinate that lies outside the buffer.
    pub fn get_tuxel_mut(&mut self, pos: Position) -> (r: Result<&mut Tuxel, TuiError>)
        requires
            position_resolvable(old(self).rectangle.1.0 as int, old(self).rectangle.1.1 as int, pos),
        ensures
            match locate(old(self).rectangle, old(self).tuxels(), pos) {
                Ok((x, y)) => r matches Ok(t) && *t == old(self).tuxels()[y][x]
                    && final(self).tuxels() == old(self).tuxels().update(y, old(self).tuxels()[y].update(x, *final(t)))
                    && final(self).rectangle == old(self).rectangle && final(self).border == old(self).border
                    && final(self).modifiers == old(self).modifiers,
                Err(e) => r matches Err(err) && err.inner == e && *final(self) == *old(self),
            },
    {
        let (x, y) = self.rectangle.relative_idx(&pos);
        if y >= self.buf.len() {
            return Err(TuiError::from(InnerError::OutOfBoundsY(y)));
        }
        if x >= self.buf[y].len() {
            return Err(TuiError::from(InnerError::OutOfBoundsX(x)));
        }
        Ok(&mut self.buf[y][x])
    }
}

} // verus!
