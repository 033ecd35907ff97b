use vstd::prelude::*;
use vstd::string::StringExecFns;

use crate::tui::canvas::{only_buffer_changed, vbuf, Canvas, DrawBuffer, CANVAS_DEPTH};
use crate::tui::colors::Rgb;
use crate::tui::drawbuffer::{
    colored_run, colored_tuxel, err_of, frame_kept, lemma_bytes_at_least_chars, run_error,
    run_length, run_places, text_from, BufferView,
};
use crate::tui::error::{InnerError, TuiError};
use crate::tui::geometry::{extents_fit, Idx, Rectangle};
use crate::tui::tuxel::Tuxel;

verus! {

/// Where lines go across the text area.
#[derive(Clone, Copy, Debug, PartialEq, Eq, Structural)]
pub enum HAlignment {
    Left,
    Center,
    Right,
}

impl Default for HAlignment {
    fn default() -> (r: HAlignment)
        ensures
            r == HAlignment::Center,
    {
        HAlignment::Center
    }
}

/// Where the block of lines goes down the text area.
#[derive(Clone, Copy, Debug, PartialEq, Eq, Structural)]
pub enum VAlignment {
    Top,
    Middle,
    Bottom,
}

impl Default for VAlignment {
    fn default() -> (r: VAlignment)
        ensures
            r == VAlignment::Middle,
    {
        VAlignment::Middle
    }
}

/// How a text buffer lays its lines out.
#[derive(Clone, Copy, Debug, PartialEq, Eq, Structural)]
pub struct FormatOptions {
    pub halign: HAlignment,
    pub valign: VAlignment,
}

impl Default for FormatOptions {
    fn default() -> (r: FormatOptions)
        ensures
            r == (FormatOptions { halign: HAlignment::Center, valign: VAlignment::Middle }),
    {
        FormatOptions { halign: HAlignment::Center, valign: VAlignment::Middle }
    }
}

/// A piece of text with its colors.
pub struct CharBuf {
    pub text: String,
    pub fgcolor: Option<Rgb>,
    pub bgcolor: Option<Rgb>,
}

/// A line as the layout sees it: its characters and its colors.
pub type LineView = (Seq<char>, Option<Rgb>, Option<Rgb>);

/// The characters and the colors of a piece of text.
pub open spec fn line_view(c: CharBuf) -> LineView {
    (c.text@, c.fgcolor, c.bgcolor)
}

/// The characters and the colors of pieces of text.
pub open spec fn line_views(s: Seq<CharBuf>) -> Seq<LineView> {
    s.map_values(|c: CharBuf| line_view(c))
}

/// The lines into which `textwrap::wrap` breaks `text` at `width` columns.
pub uninterp spec fn wrapped_lines(text: Seq<char>, width: usize) -> Seq<Seq<char>>;

/// Calls `textwrap::wrap(text, width)` and hands its lines out as `String`s. What comes back is
/// named `wrapped_lines(text, width)`: it depends on the text and the width alone. How the
/// lines are broken (at spaces, breaking words longer than the width, without trailing
/// spaces) is left unsaid.
#[verifier::external_body]
fn wrap_text(text: &str, width: usize) -> (lines: Vec<String>)
    ensures
        lines@.len() == wrapped_lines(text@, width).len(),
        forall|i: int| 0 <= i < lines@.len() ==> #[trigger] lines@[i]@ == wrapped_lines(text@, width)[i],
{
    textwrap::wrap(text, width).into_iter().map(|line| line.into_owned()).collect()
}

/// The wrapped lines of a piece of text, each with the piece's colors.
pub open spec fn wrapped_piece(c: CharBuf, width: usize) -> Seq<LineView> {
    wrapped_lines(c.text@, width).map_values(|l: Seq<char>| (l, c.fgcolor, c.bgcolor))
}

/// The wrapped lines of the pieces, the first piece's first.
pub open spec fn wrapped_pieces(bufs: Seq<CharBuf>, width: usize) -> Seq<LineView>
    decreases bufs.len(),
{
    if bufs.len() == 0 {
        Seq::empty()
    } else {
        wrapped_pieces(bufs.drop_last(), width) + wrapped_piece(bufs.last(), width)
    }
}

impl CharBuf {
    /// The piece broken into lines of `width` columns (see `wrapped_lines`), each with the
    /// piece's colors.
    pub fn wrap(&self, width: usize) -> (r: Vec<CharBuf>)
        ensures
            line_views(r@) == wrapped_piece(*self, width),
    {
        let lines = wrap_text(self.text.as_str(), width);
        let mut out: Vec<CharBuf> = Vec::new();
        let mut i: usize = 0;
        while i < lines.len()
            invariant
                i <= lines@.len(),
                lines@.len() == wrapped_lines(self.text@, width).len(),
                forall|k: int| 0 <= k < lines@.len() ==> #[trigger] lines@[k]@ == wrapped_lines(self.text@, width)[k],
                line_views(out@) == wrapped_piece(*self, width).subrange(0, i as int),
            decreases lines@.len() - i,
        {
            let text = lines[i].clone();
            let ghost prev = out@;
            proof {
                assert(text@ == lines@[i as int]@);
                assert(wrapped_piece(*self, width).len() == lines@.len());
                assert(line_views(prev).len() == prev.len());
                assert(prev.len() == i);
            }
            out.push(CharBuf { text, fgcolor: self.fgcolor, bgcolor: self.bgcolor });
            proof {
                assert(out@ == prev.push(CharBuf { text, fgcolor: self.fgcolor, bgcolor: self.bgcolor }));
                assert(line_view(out@[i as int]) == wrapped_piece(*self, width)[i as int]);
                assert forall|k: int| 0 <= k < i implies #[trigger] line_views(out@)[k] == line_views(prev)[k] by {}
                assert(line_views(out@) =~= wrapped_piece(*self, width).subrange(0, i + 1));
            }
            i = i + 1;
        }
        proof {
            assert(wrapped_piece(*self, width).subrange(0, i as int) =~= wrapped_piece(*self, width));
        }
        out
    }

    /// The length of the text in bytes.
    pub fn len(&self) -> (r: usize)
        ensures
            r == byte_len(self.text@),
    {
        self.text.as_str().as_bytes().len()
    }
}

/// The length in bytes of a text.
pub open spec fn byte_len(text: Seq<char>) -> int {
    vstd::utf8::encode_utf8(text).len() as int
}

/// Where the lines of a buffer go: `width` columns and `height` rows, starting `x_offset`
/// columns and `y_offset` rows into the buffer (inside its border, if any).
#[derive(Clone, Copy, Debug, PartialEq, Eq, Structural)]
pub struct TextArea {
    pub width: usize,
    pub height: usize,
    pub x_offset: usize,
    pub y_offset: usize,
}

/// The text area of a buffer of rectangle `r`: inside the border, if any, the whole of it
/// otherwise.
pub open spec fn spec_text_area(r: Rectangle, border: bool) -> TextArea {
    if border {
        TextArea {
            width: if r.1.0 >= 2 { (r.1.0 - 2) as usize } else { 0 },
            height: if r.1.1 >= 2 { (r.1.1 - 2) as usize } else { 0 },
            x_offset: 1,
            y_offset: 1,
        }
    } else {
        TextArea { width: r.1.0, height: r.1.1, x_offset: 0, y_offset: 0 }
    }
}

/// The text area of a buffer of rectangle `r`; see `spec_text_area`.
pub fn text_area(r: Rectangle, border: bool) -> (a: TextArea)
    ensures
        a == spec_text_area(r, border),
{
    if border {
        TextArea {
            width: if r.1.0 >= 2 { r.1.0 - 2 } else { 0 },
            height: if r.1.1 >= 2 { r.1.1 - 2 } else { 0 },
            x_offset: 1,
            y_offset: 1,
        }
    } else {
        TextArea { width: r.1.0, height: r.1.1, x_offset: 0, y_offset: 0 }
    }
}

/// For `n` lines on `h` rows: the row of the first line written, counted from the top of the
/// text area, and how many lines are left out before it. Lines fill the area from the top when
/// they are as many as its rows or aligned to the top; fewer lines are centered (the extra row
/// above) or put at the bottom; more lines lose as many at the top as needed to center them
/// (rounding down) or to show the last ones.
pub open spec fn vertical_layout(valign: VAlignment, n: int, h: int) -> (int, int) {
    if valign == VAlignment::Top || n == h {
        (0, 0)
    } else if n < h {
        if valign == VAlignment::Middle {
            ((h - n) / 2 + (h - n) % 2, 0)
        } else {
            (h - n, 0)
        }
    } else {
        if valign == VAlignment::Middle {
            (0, (n - h) / 2)
        } else {
            (0, n - h)
        }
    }
}

/// The first column of a line of `bytes` bytes in `w` columns, counted from the left of the
/// text area: the left edge, the middle (the extra column to the left), or the right edge.
pub open spec fn horizontal_offset(halign: HAlignment, w: int, bytes: int) -> int {
    let d = w - bytes;
    match halign {
        HAlignment::Left => 0,
        HAlignment::Center => d / 2 + d % 2,
        HAlignment::Right => d,
    }
}

/// The number of lines after those left out at the top.
pub open spec fn lines_shown(lines: Seq<LineView>, fmt: FormatOptions, area: TextArea) -> int {
    lines.len() - vertical_layout(fmt.valign, lines.len() as int, area.height as int).1
}

/// The `j`-th line after those left out at the top.
pub open spec fn line_at(lines: Seq<LineView>, fmt: FormatOptions, area: TextArea, j: int) -> LineView {
    lines[vertical_layout(fmt.valign, lines.len() as int, area.height as int).1 + j]
}

/// The row of the buffer on which the `j`-th line shown goes.
pub open spec fn line_row(lines: Seq<LineView>, fmt: FormatOptions, area: TextArea, j: int) -> int {
    vertical_layout(fmt.valign, lines.len() as int, area.height as int).0 + area.y_offset + j
}

/// The column of the buffer at which the `j`-th line shown starts.
pub open spec fn line_column(lines: Seq<LineView>, fmt: FormatOptions, area: TextArea, j: int) -> int {
    horizontal_offset(fmt.halign, area.width as int, byte_len(line_at(lines, fmt, area, j).0)) + area.x_offset
}

/// Whether the `j`-th line shown is written at all: its row is not below the text area and it
/// fits in the area's width.
pub open spec fn line_tried(lines: Seq<LineView>, fmt: FormatOptions, area: TextArea, j: int) -> bool {
    &&& line_row(lines, fmt, area, j) <= area.height
    &&& byte_len(line_at(lines, fmt, area, j).0) <= area.width
}

/// How many characters of the `j`-th line shown land in the buffer `tux`.
pub open spec fn line_landed(tux: Seq<Seq<Tuxel>>, lines: Seq<LineView>, fmt: FormatOptions, area: TextArea, j: int) -> int {
    run_length(tux, line_row(lines, fmt, area, j), line_column(lines, fmt, area, j), line_at(lines, fmt, area, j).0.len() as int)
}

/// Whether the `j`-th line shown is written whole.
pub open spec fn line_complete(tux: Seq<Seq<Tuxel>>, lines: Seq<LineView>, fmt: FormatOptions, area: TextArea, j: int) -> bool {
    &&& line_tried(lines, fmt, area, j)
    &&& line_landed(tux, lines, fmt, area, j) == line_at(lines, fmt, area, j).0.len()
}

/// The first line shown, from the `j`-th on, that is not written whole, or the number of lines
/// shown when there is none.
pub open spec fn first_incomplete(tux: Seq<Seq<Tuxel>>, lines: Seq<LineView>, fmt: FormatOptions, area: TextArea, j: int) -> int
    decreases lines.len() - j,
{
    if j < 0 || j >= lines_shown(lines, fmt, area) || !line_complete(tux, lines, fmt, area, j) {
        j
    } else {
        first_incomplete(tux, lines, fmt, area, j + 1)
    }
}

/// Whether `b` is `a` with the lines shown up to the `k`-th written: each one that is tried
/// shows its characters that land, in its colors, on its row from its column on.
pub open spec fn lines_colored(a: Seq<Seq<Tuxel>>, b: Seq<Seq<Tuxel>>, lines: Seq<LineView>, fmt: FormatOptions, area: TextArea, k: int) -> bool {
    &&& b.len() == a.len()
    &&& forall|yy: int| 0 <= yy < a.len() ==> #[trigger] b[yy].len() == a[yy].len()
    &&& forall|yy: int, x: int| 0 <= yy < a.len() && 0 <= x < a[yy].len() ==> #[trigger] b[yy][x] == {
        let j = yy - line_row(lines, fmt, area, 0);
        let line = line_at(lines, fmt, area, j);
        let x0 = line_column(lines, fmt, area, j);
        if 0 <= j <= k && j < lines_shown(lines, fmt, area) && line_tried(lines, fmt, area, j)
            && x0 <= x < x0 + line_landed(a, lines, fmt, area, j) {
            colored_tuxel(a[yy][x], text_from(line.0, x0)(x), line.1, line.2)
        } else {
            a[yy][x]
        }
    }
}

/// The places of the tuxels written for the first `n` lines shown, in order.
pub open spec fn lines_places(a: Seq<Seq<Tuxel>>, lines: Seq<LineView>, fmt: FormatOptions, area: TextArea, n: int) -> Seq<Idx>
    decreases n,
{
    if n <= 0 {
        Seq::empty()
    } else {
        let j = n - 1;
        lines_places(a, lines, fmt, area, j) + if line_tried(lines, fmt, area, j) {
            run_places(a, line_row(lines, fmt, area, j), line_column(lines, fmt, area, j), line_landed(a, lines, fmt, area, j))
        } else {
            Seq::empty()
        }
    }
}

/// What writing the lines ends with: success when every line shown is written whole or the
/// first that is not falls below the text area; the line's length in bytes when it is wider
/// than the area; otherwise the coordinate of its first character that lies outside the
/// buffer.
pub open spec fn lines_result(a: Seq<Seq<Tuxel>>, lines: Seq<LineView>, fmt: FormatOptions, area: TextArea) -> Result<(), InnerError> {
    let k = first_incomplete(a, lines, fmt, area, 0);
    if k >= lines_shown(lines, fmt, area) || line_row(lines, fmt, area, k) > area.height {
        Ok(())
    } else if byte_len(line_at(lines, fmt, area, k).0) > area.width {
        Err(InnerError::OutOfBoundsX(byte_len(line_at(lines, fmt, area, k).0) as usize))
    } else {
        Err(run_error(a, line_row(lines, fmt, area, k), line_column(lines, fmt, area, k), line_landed(a, lines, fmt, area, k)))
    }
}

/// Whether `b` is `a` after writing the lines, one per row from the row of the first line
/// shown down, until the first line that is not written whole, which is written as far as it
/// lands; `ch1` is `ch0` followed by the places written, and `r` is what writing ended with.
pub open spec fn lines_written(
    a: BufferView,
    b: BufferView,
    ch0: Seq<Idx>,
    ch1: Seq<Idx>,
    lines: Seq<LineView>,
    fmt: FormatOptions,
    area: TextArea,
    r: Result<(), InnerError>,
) -> bool {
    let k = first_incomplete(a.tuxels, lines, fmt, area, 0);
    let n = if k < lines_shown(lines, fmt, area) { k + 1 } else { lines_shown(lines, fmt, area) };
    &&& lines_colored(a.tuxels, b.tuxels, lines, fmt, area, k)
    &&& ch1 == ch0 + lines_places(a.tuxels, lines, fmt, area, n)
    &&& r == lines_result(a.tuxels, lines, fmt, area)
    &&& frame_kept(a, b)
}


/// With bottom alignment, the lines shown are the last ones, as many as the rows of the text
/// area hold (all of them when they are fewer), in order, and the last line sits on the bottom
/// row of the area.
pub proof fn law_bottom_alignment_shows_the_last_lines(lines: Seq<LineView>, fmt: FormatOptions, area: TextArea)
    requires
        fmt.valign == VAlignment::Bottom,
        lines.len() > 0,
        area.height > 0,
    ensures
        lines_shown(lines, fmt, area) == if lines.len() < area.height { lines.len() as int } else { area.height as int },
        forall|j: int| 0 <= j < lines_shown(lines, fmt, area) ==> #[trigger] line_at(lines, fmt, area, j)
            == lines[lines.len() - lines_shown(lines, fmt, area) + j],
        line_at(lines, fmt, area, lines_shown(lines, fmt, area) - 1) == lines.last(),
        line_row(lines, fmt, area, lines_shown(lines, fmt, area) - 1) == area.y_offset + area.height - 1,
        forall|j: int| 0 <= j < lines_shown(lines, fmt, area) ==> #[trigger] line_row(lines, fmt, area, j)
            == area.y_offset + area.height - lines_shown(lines, fmt, area) + j,
{
}

/// With top alignment, every line is shown, in order, the first on the top row of the text
/// area and each on the row below the one before.
pub proof fn law_top_alignment_shows_the_first_lines(lines: Seq<LineView>, fmt: FormatOptions, area: TextArea)
    requires
        fmt.valign == VAlignment::Top,
    ensures
        lines_shown(lines, fmt, area) == lines.len(),
        forall|j: int| 0 <= j < lines.len() ==> #[trigger] line_at(lines, fmt, area, j) == lines[j],
        forall|j: int| 0 <= j < lines.len() ==> #[trigger] line_row(lines, fmt, area, j) == area.y_offset + j,
{
}

/// With middle alignment, the lines stay in order and are centered: when they are fewer than
/// the rows of the text area, the empty rows above them are as many as those below, or one
/// more; when they are more, the lines left out above the area are as many as those that fall
/// below its last row, or one fewer.
pub proof fn law_middle_alignment_centers_the_lines(lines: Seq<LineView>, fmt: FormatOptions, area: TextArea)
    requires
        fmt.valign == VAlignment::Middle,
        lines.len() > 0,
    ensures
        forall|j: int| 0 <= j < lines_shown(lines, fmt, area) ==> #[trigger] line_at(lines, fmt, area, j)
            == lines[lines.len() - lines_shown(lines, fmt, area) + j],
        forall|j: int| 0 <= j < lines_shown(lines, fmt, area) ==> #[trigger] line_row(lines, fmt, area, j)
            == line_row(lines, fmt, area, 0) + j,
        lines.len() <= area.height ==> {
            let above = line_row(lines, fmt, area, 0) - area.y_offset;
            let below = area.height - (above + lines.len());
            &&& lines_shown(lines, fmt, area) == lines.len()
            &&& above == below || above == below + 1
        },
        lines.len() > area.height ==> {
            let left_out = lines.len() - lines_shown(lines, fmt, area);
            let below = lines_shown(lines, fmt, area) - area.height;
            &&& line_row(lines, fmt, area, 0) == area.y_offset
            &&& left_out == below || below == left_out + 1
        },
{
}

/// Whether two tuxels look the same: shown or not, with the same character and colors.
pub open spec fn same_look(t: Tuxel, u: Tuxel) -> bool {
    t.active == u.active && t.content == u.content && t.fgcolor == u.fgcolor && t.bgcolor == u.bgcolor
}

/// Whether `a1` and `a2` are the text areas of `w` columns and `h` rows of a buffer without a
/// border and of one with a border around them, lined up one inside the other.
pub open spec fn areas_lined_up(a1: TextArea, a2: TextArea, w: int, h: int) -> bool {
    &&& a1 == TextArea { width: w as usize, height: h as usize, x_offset: 0, y_offset: 0 }
    &&& a2 == TextArea { width: w as usize, height: h as usize, x_offset: 1, y_offset: 1 }
}

/// The number of lines shown that fall on the rows of the text area.
pub open spec fn lines_on_rows(lines: Seq<LineView>, fmt: FormatOptions, area: TextArea) -> int {
    let room = area.height - vertical_layout(fmt.valign, lines.len() as int, area.height as int).0;
    if room < lines_shown(lines, fmt, area) {
        room
    } else {
        lines_shown(lines, fmt, area)
    }
}

/// The `j`-th line shown, in a buffer without a border and in the same buffer inside a border:
/// it goes one row down and one column right; on the rows of the text area it is written whole
/// in both or in neither, and below them it is never written whole inside the border.
proof fn lemma_line_complete_lined_up(
    t1: Seq<Seq<Tuxel>>,
    t2: Seq<Seq<Tuxel>>,
    lines: Seq<LineView>,
    fmt: FormatOptions,
    a1: TextArea,
    a2: TextArea,
    w: int,
    h: int,
    j: int,
)
    requires
        areas_lined_up(a1, a2, w, h),
        w > 0 && h > 0,
        w + 2 <= usize::MAX,
        h + 2 <= usize::MAX,
        t1.len() == h,
        forall|y: int| 0 <= y < h ==> #[trigger] t1[y].len() == w,
        t2.len() == h + 2,
        forall|y: int| 0 <= y < h + 2 ==> #[trigger] t2[y].len() == w + 2,
        0 <= j < lines_shown(lines, fmt, a1),
    ensures
        lines_shown(lines, fmt, a2) == lines_shown(lines, fmt, a1),
        lines_on_rows(lines, fmt, a2) == lines_on_rows(lines, fmt, a1),
        line_at(lines, fmt, a2, j) == line_at(lines, fmt, a1, j),
        line_row(lines, fmt, a2, j) == line_row(lines, fmt, a1, j) + 1,
        line_column(lines, fmt, a2, j) == line_column(lines, fmt, a1, j) + 1,
        0 <= line_row(lines, fmt, a1, j),
        line_row(lines, fmt, a1, j) < h <==> j < lines_on_rows(lines, fmt, a1),
        j < lines_on_rows(lines, fmt, a1) ==> {
            &&& line_tried(lines, fmt, a1, j) <==> byte_len(line_at(lines, fmt, a1, j).0) <= w
            &&& line_tried(lines, fmt, a2, j) <==> byte_len(line_at(lines, fmt, a1, j).0) <= w
            &&& line_tried(lines, fmt, a1, j) ==> 0 <= line_column(lines, fmt, a1, j)
                && line_column(lines, fmt, a1, j) + line_at(lines, fmt, a1, j).0.len() <= w
            &&& line_tried(lines, fmt, a1, j) ==> line_landed(t1, lines, fmt, a1, j) == line_at(lines, fmt, a1, j).0.len()
                && line_landed(t2, lines, fmt, a2, j) == line_at(lines, fmt, a1, j).0.len()
            &&& line_complete(t1, lines, fmt, a1, j) <==> line_complete(t2, lines, fmt, a2, j)
            &&& line_complete(t1, lines, fmt, a1, j) <==> byte_len(line_at(lines, fmt, a1, j).0) <= w
        },
        j >= lines_on_rows(lines, fmt, a1) ==> !line_tried(lines, fmt, a2, j) && !line_complete(t2, lines, fmt, a2, j),
{
    let line = line_at(lines, fmt, a1, j);
    crate::tui::drawbuffer::lemma_bytes_at_least_chars(line.0);
    let row = line_row(lines, fmt, a1, j);
    if row < h {
        assert(t1[row].len() == w);
        assert(t2[row + 1].len() == w + 2);
    }
}

/// Among the lines that fall on the rows of the text area, the first not written whole is the
/// same without a border and inside one; beyond them, no line is written whole inside the
/// border.
proof fn lemma_first_incomplete_lined_up(
    t1: Seq<Seq<Tuxel>>,
    t2: Seq<Seq<Tuxel>>,
    lines: Seq<LineView>,
    fmt: FormatOptions,
    a1: TextArea,
    a2: TextArea,
    w: int,
    h: int,
    j: int,
)
    requires
        areas_lined_up(a1, a2, w, h),
        w > 0 && h > 0,
        w + 2 <= usize::MAX,
        h + 2 <= usize::MAX,
        t1.len() == h,
        forall|y: int| 0 <= y < h ==> #[trigger] t1[y].len() == w,
        t2.len() == h + 2,
        forall|y: int| 0 <= y < h + 2 ==> #[trigger] t2[y].len() == w + 2,
        0 <= j,
    ensures
        ({
            let m = lines_on_rows(lines, fmt, a1);
            let k1 = first_incomplete(t1, lines, fmt, a1, j);
            let k2 = first_incomplete(t2, lines, fmt, a2, j);
            &&& k1 >= j && k2 >= j
            &&& k1 < m || k2 < m ==> k1 == k2
            &&& k1 < lines_shown(lines, fmt, a1) ==> !line_complete(t1, lines, fmt, a1, k1)
            &&& k2 < lines_shown(lines, fmt, a2) ==> !line_complete(t2, lines, fmt, a2, k2)
            &&& j <= m ==> k2 <= m
        }),
    decreases lines.len() - j,
{
    let m = lines_on_rows(lines, fmt, a1);
    if j < lines_shown(lines, fmt, a1) {
        lemma_line_complete_lined_up(t1, t2, lines, fmt, a1, a2, w, h, j);
        if line_complete(t1, lines, fmt, a1, j) || line_complete(t2, lines, fmt, a2, j) {
            lemma_first_incomplete_lined_up(t1, t2, lines, fmt, a1, a2, w, h, j + 1);
        }
    } else {
        if lines_shown(lines, fmt, a1) > 0 {
            lemma_line_complete_lined_up(t1, t2, lines, fmt, a1, a2, w, h, 0);
        } else {
            assert(lines_shown(lines, fmt, a2) == lines_shown(lines, fmt, a1));
        }
    }
}

/// Lines written in a buffer without a border, and the same lines in a buffer two columns
/// wider and two rows higher inside its border: on the rows of the text area the lines are laid
/// out the same way, one row down and one column right inside the border, and the border is
/// never written over, however many lines there are. Writing inside the border fails only where
/// writing without one fails the same way; when the lines fit the rows, both end alike. A tuxel
/// inside the border that looked like its counterpart before the writing looks like it after.
pub proof fn law_border_keeps_text_layout(
    a1: BufferView,
    b1: BufferView,
    ch0: Seq<Idx>,
    ch1: Seq<Idx>,
    a2: BufferView,
    b2: BufferView,
    ch2: Seq<Idx>,
    ch3: Seq<Idx>,
    lines: Seq<LineView>,
    fmt: FormatOptions,
    r1: Result<(), InnerError>,
    r2: Result<(), InnerError>,
)
    requires
        !a1.border,
        a2.border,
        a1.rectangle.1.0 > 0,
        a1.rectangle.1.1 > 0,
        a2.rectangle.1.0 == a1.rectangle.1.0 + 2,
        a2.rectangle.1.1 == a1.rectangle.1.1 + 2,
        a1.tuxels.len() == a1.rectangle.1.1,
        forall|y: int| 0 <= y < a1.tuxels.len() ==> #[trigger] a1.tuxels[y].len() == a1.rectangle.1.0,
        a2.tuxels.len() == a2.rectangle.1.1,
        forall|y: int| 0 <= y < a2.tuxels.len() ==> #[trigger] a2.tuxels[y].len() == a2.rectangle.1.0,
        lines_written(a1, b1, ch0, ch1, lines, fmt, spec_text_area(a1.rectangle, a1.border), r1),
        lines_written(a2, b2, ch2, ch3, lines, fmt, spec_text_area(a2.rectangle, a2.border), r2),
    ensures
        r2 is Err ==> r1 == r2,
        lines.len() <= a1.rectangle.1.1 ==> r1 == r2,
        forall|y: int, x: int| 0 <= y < a1.rectangle.1.1 && 0 <= x < a1.rectangle.1.0
            && same_look(a2.tuxels[y + 1][x + 1], a1.tuxels[y][x]) ==> #[trigger] same_look(b2.tuxels[y + 1][x + 1], b1.tuxels[y][x]),
        forall|y: int, x: int| 0 <= y < a2.rectangle.1.1 && 0 <= x < a2.rectangle.1.0
            && (y == 0 || y == a2.rectangle.1.1 - 1 || x == 0 || x == a2.rectangle.1.0 - 1) ==> #[trigger] b2.tuxels[y][x] == a2.tuxels[y][x],
{
    let w = a1.rectangle.1.0 as int;
    let h = a1.rectangle.1.1 as int;
    let ar1 = spec_text_area(a1.rectangle, a1.border);
    let ar2 = spec_text_area(a2.rectangle, a2.border);
    assert(areas_lined_up(ar1, ar2, w, h));
    let t1 = a1.tuxels;
    let t2 = a2.tuxels;
    assert forall|y: int| 0 <= y < h implies #[trigger] t1[y].len() == w by {}
    assert forall|y: int| 0 <= y < h + 2 implies #[trigger] t2[y].len() == w + 2 by {}
    lemma_first_incomplete_lined_up(t1, t2, lines, fmt, ar1, ar2, w, h, 0);
    let k1 = first_incomplete(t1, lines, fmt, ar1, 0);
    let k2 = first_incomplete(t2, lines, fmt, ar2, 0);
    let shown = lines_shown(lines, fmt, ar1);
    let m = lines_on_rows(lines, fmt, ar1);
    if shown > 0 {
        lemma_line_complete_lined_up(t1, t2, lines, fmt, ar1, ar2, w, h, 0);
    } else {
        assert(lines_shown(lines, fmt, ar2) == shown);
        assert(lines_on_rows(lines, fmt, ar2) == m);
    }
    if k1 < m {
        lemma_line_complete_lined_up(t1, t2, lines, fmt, ar1, ar2, w, h, k1);
        assert(byte_len(line_at(lines, fmt, ar1, k1).0) > w);
    } else if k2 < shown {
        lemma_line_complete_lined_up(t1, t2, lines, fmt, ar1, ar2, w, h, k2);
    }
    if lines.len() <= h && k1 >= m {
        assert(m == shown);
    }
    assert(r1 == lines_result(t1, lines, fmt, ar1));
    assert(r2 == lines_result(t2, lines, fmt, ar2));
    assert forall|y: int, x: int| 0 <= y < h && 0 <= x < w
        && same_look(a2.tuxels[y + 1][x + 1], a1.tuxels[y][x]) implies #[trigger] same_look(b2.tuxels[y + 1][x + 1], b1.tuxels[y][x]) by {
        let j = y - line_row(lines, fmt, ar1, 0);
        if 0 <= j < shown {
            lemma_line_complete_lined_up(t1, t2, lines, fmt, ar1, ar2, w, h, j);
        }
        assert(t1[y].len() == w);
        assert(t2[y + 1].len() == w + 2);
    }
    assert forall|y: int, x: int| 0 <= y < h + 2 && 0 <= x < w + 2
        && (y == 0 || y == h + 1 || x == 0 || x == w + 1) implies #[trigger] b2.tuxels[y][x] == a2.tuxels[y][x] by {
        let j = y - line_row(lines, fmt, ar2, 0);
        if 0 <= j < shown {
            lemma_line_complete_lined_up(t1, t2, lines, fmt, ar1, ar2, w, h, j);
        }
        assert(t2[y].len() == w + 2);
    }
}

/// Every line that is written lies inside the text area: from its column, its characters end
/// by the area's right edge.
pub proof fn law_written_lines_stay_in_the_area(lines: Seq<LineView>, fmt: FormatOptions, area: TextArea, j: int)
    requires
        line_tried(lines, fmt, area, j),
    ensures
        area.x_offset <= line_column(lines, fmt, area, j),
        line_column(lines, fmt, area, j) + line_at(lines, fmt, area, j).0.len() <= area.x_offset + area.width,
{
    lemma_bytes_at_least_chars(line_at(lines, fmt, area, j).0);
}

/// The first line not written whole, from the `i`-th on, is the `j`-th when those between are
/// written whole and the `j`-th is not (or there is none).
pub proof fn lemma_first_incomplete(tux: Seq<Seq<Tuxel>>, lines: Seq<LineView>, fmt: FormatOptions, area: TextArea, i: int, j: int)
    requires
        0 <= i <= j <= lines_shown(lines, fmt, area),
        forall|jj: int| i <= jj < j ==> #[trigger] line_complete(tux, lines, fmt, area, jj),
        j == lines_shown(lines, fmt, area) || !line_complete(tux, lines, fmt, area, j),
    ensures
        first_incomplete(tux, lines, fmt, area, i) == j,
    decreases j - i,
{
    if i < j {
        assert(line_complete(tux, lines, fmt, area, i));
        lemma_first_incomplete(tux, lines, fmt, area, i + 1, j);
    }
}

/// Writing the `j`-th line shown on a buffer whose earlier lines are written: the line's row is
/// still as it was, so its characters land as they would have, on the same places, and the
/// result has the lines up to the `j`-th written.
pub proof fn lemma_line_step(
    a: Seq<Seq<Tuxel>>,
    cur: Seq<Seq<Tuxel>>,
    next: Seq<Seq<Tuxel>>,
    lines: Seq<LineView>,
    fmt: FormatOptions,
    area: TextArea,
    j: int,
)
    requires
        lines_colored(a, cur, lines, fmt, area, j - 1),
        0 <= j < lines_shown(lines, fmt, area),
        line_tried(lines, fmt, area, j),
        crate::tui::drawbuffer::run_colored(
            cur,
            next,
            line_row(lines, fmt, area, j),
            line_column(lines, fmt, area, j),
            line_column(lines, fmt, area, j) + run_length(cur, line_row(lines, fmt, area, j), line_column(lines, fmt, area, j), line_at(lines, fmt, area, j).0.len() as int),
            text_from(line_at(lines, fmt, area, j).0, line_column(lines, fmt, area, j)),
            line_at(lines, fmt, area, j).1,
            line_at(lines, fmt, area, j).2,
        ),
    ensures
        run_length(cur, line_row(lines, fmt, area, j), line_column(lines, fmt, area, j), line_at(lines, fmt, area, j).0.len() as int)
            == line_landed(a, lines, fmt, area, j),
        forall|m: int| 0 <= m <= line_landed(a, lines, fmt, area, j) ==> #[trigger] run_places(cur, line_row(lines, fmt, area, j), line_column(lines, fmt, area, j), m)
            == run_places(a, line_row(lines, fmt, area, j), line_column(lines, fmt, area, j), m),
        forall|m: int| #[trigger] run_error(cur, line_row(lines, fmt, area, j), line_column(lines, fmt, area, j), m)
            == run_error(a, line_row(lines, fmt, area, j), line_column(lines, fmt, area, j), m),
        lines_colored(a, next, lines, fmt, area, j),
{
    let y = line_row(lines, fmt, area, j);
    let x0 = line_column(lines, fmt, area, j);
    let row0 = line_row(lines, fmt, area, 0);
    assert(y - row0 == j);
    if 0 <= y < a.len() {
        assert(cur[y].len() == a[y].len());
        assert forall|x: int| 0 <= x < a[y].len() implies #[trigger] cur[y][x] == a[y][x] by {
            assert(cur[y][x] == a[y][x]);
        }
    }
    assert forall|m: int| 0 <= m <= line_landed(a, lines, fmt, area, j) implies #[trigger] run_places(cur, y, x0, m) == run_places(a, y, x0, m) by {
        assert forall|k: int| 0 <= k < m implies #[trigger] run_places(cur, y, x0, m)[k] == run_places(a, y, x0, m)[k] by {
            assert(cur[y][x0 + k] == a[y][x0 + k]);
        }
        assert(run_places(cur, y, x0, m) =~= run_places(a, y, x0, m));
    }
    assert forall|yy: int, x: int| 0 <= yy < a.len() && 0 <= x < a[yy].len() implies #[trigger] next[yy][x] == {
        let jj = yy - line_row(lines, fmt, area, 0);
        let line = line_at(lines, fmt, area, jj);
        let xx = line_column(lines, fmt, area, jj);
        if 0 <= jj <= j && jj < lines_shown(lines, fmt, area) && line_tried(lines, fmt, area, jj)
            && xx <= x < xx + line_landed(a, lines, fmt, area, jj) {
            colored_tuxel(a[yy][x], text_from(line.0, xx)(x), line.1, line.2)
        } else {
            a[yy][x]
        }
    } by {
        assert(next[yy][x] == if yy == y && x0 <= x < x0 + line_landed(a, lines, fmt, area, j) {
            colored_tuxel(cur[yy][x], text_from(line_at(lines, fmt, area, j).0, x0)(x), line_at(lines, fmt, area, j).1, line_at(lines, fmt, area, j).2)
        } else {
            cur[yy][x]
        });
        assert(cur[yy][x] == a[yy][x] || yy - row0 < j);
    }
}

/// A text area on a draw buffer, with the pieces of text written to it and how to lay them
/// out.
pub struct TextBuffer {
    pub bufs: Vec<CharBuf>,
    pub buffer: DrawBuffer,
    pub format: FormatOptions,
}

impl TextBuffer {
    /// A text buffer on a new draw buffer of rectangle `r` (see `Canvas::get_draw_buffer`),
    /// with no text and the default layout: centered, in the middle.
    pub fn new(canvas: &mut Canvas, r: Rectangle) -> (res: Result<TextBuffer, TuiError>)
        requires
            old(canvas).wf(),
            extents_fit(r),
            r.0.2 < CANVAS_DEPTH,
        ensures
            final(canvas).wf(),
            crate::tui::canvas::buffer_taken(old(canvas)@, r, final(canvas)@, match res {
                Ok(tb) => Ok::<DrawBuffer, TuiError>(tb.buffer),
                Err(e) => Err::<DrawBuffer, TuiError>(e),
            }),
            res matches Ok(tb) ==> tb.bufs@.len() == 0 && tb.format == (FormatOptions { halign: HAlignment::Center, valign: VAlignment::Middle }),
    {
        match canvas.get_draw_buffer(r) {
            Ok(buffer) => Ok(TextBuffer { bufs: Vec::new(), buffer, format: FormatOptions::default() }),
            Err(e) => Err(e),
        }
    }

    /// Sets how the lines are laid out.
    pub fn format(&mut self, format: FormatOptions)
        ensures
            final(self).format == format,
            final(self).bufs@ == old(self).bufs@,
            final(self).buffer == old(self).buffer,
    {
        if self.format == format {
            return;
        }
        self.format = format
    }

    /// Adds a piece of text, in the colors given, after those written so far.
    pub fn write(&mut self, s: &str, fgcolor: Option<Rgb>, bgcolor: Option<Rgb>)
        ensures
            final(self).bufs@.len() == old(self).bufs@.len() + 1,
            forall|i: int| 0 <= i < old(self).bufs@.len() ==> #[trigger] line_view(final(self).bufs@[i]) == line_view(old(self).bufs@[i]),
            line_view(final(self).bufs@.last()) == (s@, fgcolor, bgcolor),
            final(self).format == old(self).format,
            final(self).buffer == old(self).buffer,
    {
        self.bufs.push(CharBuf { text: String::from_str(s), fgcolor, bgcolor })
    }

    /// Writes `lines` on the draw buffer as the layout says, one per row, each from its column:
    /// see `lines_written`.
    pub fn write_lines(&self, canvas: &mut Canvas, lines: &Vec<CharBuf>, area: TextArea) -> (r: Result<(), TuiError>)
        requires
            old(canvas).wf(),
            old(canvas).live(self.buffer.id as int),
            area.width + area.x_offset <= usize::MAX,
            area.height + area.y_offset <= usize::MAX,
        ensures
            final(canvas).wf(),
            only_buffer_changed(old(canvas)@, final(canvas)@, self.buffer.id as int),
            lines_written(old(canvas).buf(self.buffer.id as int), final(canvas).buf(self.buffer.id as int), old(canvas)@.changed,
                final(canvas)@.changed, line_views(lines@), self.format, area, err_of(r)),
    {
        let ghost v0 = canvas@;
        let ghost a0 = canvas.buf(self.buffer.id as int);
        let ghost ls = line_views(lines@);
        let ghost fmt = self.format;
        let n = lines.len();
        let (start, skip) = vertical_layout_of(self.format.valign, n, area.height);
        let mut y = start + area.y_offset;
        let mut i = skip;
        proof {
            assert(ls.len() == n);
            assert(lines_colored(a0.tuxels, a0.tuxels, ls, fmt, area, -1));
            assert(v0.changed =~= v0.changed + lines_places(a0.tuxels, ls, fmt, area, 0));
        }
        while i < n
            invariant
                canvas.wf(),
                canvas.live(self.buffer.id as int),
                only_buffer_changed(v0, canvas@, self.buffer.id as int),
                frame_kept(a0, canvas.buf(self.buffer.id as int)),
                v0.wf(),
                v0 == old(canvas)@,
                a0 == vbuf(v0, self.buffer.id as int),
                ls == line_views(lines@),
                fmt == self.format,
                n == lines@.len(),
                area.width + area.x_offset <= usize::MAX,
                area.height + area.y_offset <= usize::MAX,
                skip == vertical_layout(fmt.valign, n as int, area.height as int).1,
                skip <= i <= n,
                y == line_row(ls, fmt, area, i - skip),
                lines_colored(a0.tuxels, canvas.buf(self.buffer.id as int).tuxels, ls, fmt, area, i - skip - 1),
                canvas@.changed == v0.changed + lines_places(a0.tuxels, ls, fmt, area, i - skip),
                forall|jj: int| 0 <= jj < i - skip ==> #[trigger] line_complete(a0.tuxels, ls, fmt, area, jj),
            decreases n - i,
        {
            let ghost j = i - skip;
            let ghost cur = canvas@;
            if y > area.height {
                proof {
                    lemma_first_incomplete(a0.tuxels, ls, fmt, area, 0, j);
                    assert(lines_colored(a0.tuxels, canvas.buf(self.buffer.id as int).tuxels, ls, fmt, area, j));
                    assert(lines_places(a0.tuxels, ls, fmt, area, j + 1) =~= lines_places(a0.tuxels, ls, fmt, area, j));
                }
                return Ok(());
            }
            let line = &lines[i];
            let bytes = line.len();
            proof {
                assert(ls[i as int] == line_view(*line));
                assert(line_at(ls, fmt, area, j) == line_view(*line));
            }
            if bytes > area.width {
                proof {
                    lemma_first_incomplete(a0.tuxels, ls, fmt, area, 0, j);
                    assert(lines_colored(a0.tuxels, canvas.buf(self.buffer.id as int).tuxels, ls, fmt, area, j));
                    assert(lines_places(a0.tuxels, ls, fmt, area, j + 1) =~= lines_places(a0.tuxels, ls, fmt, area, j));
                }
                return Err(TuiError { inner: InnerError::OutOfBoundsX(bytes) });
            }
            let x = horizontal_offset_of(self.format.halign, area.width, bytes) + area.x_offset;
            proof {
                lemma_bytes_at_least_chars(line.text@);
            }
            let r = self.buffer.write_colored(canvas, line.text.as_str(), x, y, line.fgcolor, line.bgcolor);
            proof {
                lemma_line_step(a0.tuxels, vbuf(cur, self.buffer.id as int).tuxels, canvas.buf(self.buffer.id as int).tuxels, ls, fmt, area, j);
                assert(canvas@.changed =~= v0.changed + lines_places(a0.tuxels, ls, fmt, area, j + 1));
            }
            match r {
                Ok(()) => {},
                Err(e) => {
                    proof {
                        lemma_first_incomplete(a0.tuxels, ls, fmt, area, 0, j);
                    }
                    return Err(e);
                },
            }
            proof {
                assert(line_complete(a0.tuxels, ls, fmt, area, j));
            }
            if y == usize::MAX {
                proof {
                    if j + 1 < lines_shown(ls, fmt, area) {
                        assert(!line_tried(ls, fmt, area, j + 1));
                        lemma_first_incomplete(a0.tuxels, ls, fmt, area, 0, j + 1);
                        assert(lines_places(a0.tuxels, ls, fmt, area, j + 2) =~= lines_places(a0.tuxels, ls, fmt, area, j + 1));
                    } else {
                        lemma_first_incomplete(a0.tuxels, ls, fmt, area, 0, j + 1);
                    }
                }
                return Ok(());
            }
            y = y + 1;
            i = i + 1;
        }
        proof {
            lemma_first_incomplete(a0.tuxels, ls, fmt, area, 0, i - skip);
        }
        Ok(())
    }

    /// Writes the pieces of text on the draw buffer: inside its border, if any, each piece is
    /// broken into lines as wide as the text area (see `CharBuf::wrap`), and the lines are laid
    /// out as the format says (see `write_lines`). Nothing is written on a released buffer or
    /// on a text area without columns or without rows.
    pub fn flush(&mut self, canvas: &mut Canvas) -> (r: Result<(), TuiError>)
        requires
            old(canvas).wf(),
        ensures
            final(canvas).wf(),
            *final(self) == *old(self),
            !old(canvas).live(old(self).buffer.id as int) ==> r is Ok && final(canvas)@ == old(canvas)@,
            old(canvas).live(old(self).buffer.id as int) ==> {
                let b = old(canvas).buf(old(self).buffer.id as int);
                let area = spec_text_area(b.rectangle, b.border);
                if area.width == 0 || area.height == 0 {
                    r is Ok && final(canvas)@ == old(canvas)@
                } else {
                    &&& only_buffer_changed(old(canvas)@, final(canvas)@, old(self).buffer.id as int)
                    &&& lines_written(b, final(canvas).buf(old(self).buffer.id as int), old(canvas)@.changed, final(canvas)@.changed,
                        wrapped_pieces(old(self).bufs@, area.width), old(self).format, area, err_of(r))
                }
            },
    {
        if !canvas.is_live(self.buffer.id) {
            return Ok(());
        }
        let rect = self.buffer.rectangle(canvas);
        let border = self.buffer.has_border(canvas);
        let area = text_area(rect, border);
        if area.width == 0 || area.height == 0 {
            return Ok(());
        }
        let mut lines: Vec<CharBuf> = Vec::new();
        let mut i: usize = 0;
        while i < self.bufs.len()
            invariant
                area.width > 0,
                i <= self.bufs@.len(),
                line_views(lines@) == wrapped_pieces(self.bufs@.subrange(0, i as int), area.width),
            decreases self.bufs@.len() - i,
        {
            let mut more = self.bufs[i].wrap(area.width);
            let ghost before = lines@;
            let ghost extra = more@;
            lines.append(&mut more);
            proof {
                let pieces = self.bufs@.subrange(0, i + 1);
                assert(pieces.drop_last() =~= self.bufs@.subrange(0, i as int));
                assert(lines@ =~= before + extra);
                assert(line_views(lines@) =~= line_views(before) + line_views(extra));
            }
            i = i + 1;
        }
        proof {
            assert(self.bufs@.subrange(0, i as int) =~= self.bufs@);
        }
        self.write_lines(canvas, &lines, area)
    }

    /// Gives the draw buffer back to the canvas, which empties its cells at once, as dropping
    /// the text buffer does.
    pub fn release(self, canvas: &mut Canvas)
        requires
            old(canvas).wf(),
        ensures
            final(canvas).wf(),
            final(canvas)@ == crate::tui::canvas::released_view(old(canvas)@, self.buffer.id as int),
    {
        self.buffer.release(canvas);
    }
}

/// The row of the first line written and the number of lines left out; see `vertical_layout`.
pub fn vertical_layout_of(valign: VAlignment, n: usize, h: usize) -> (r: (usize, usize))
    ensures
        r.0 == vertical_layout(valign, n as int, h as int).0,
        r.1 == vertical_layout(valign, n as int, h as int).1,
        r.0 <= h,
        r.1 <= n,
{
    if valign == VAlignment::Top || n == h {
        (0, 0)
    } else if n < h {
        let difference = h - n;
        if valign == VAlignment::Middle {
            (difference / 2 + difference % 2, 0)
        } else {
            (difference, 0)
        }
    } else {
        let difference = n - h;
        if valign == VAlignment::Middle {
            (0, difference / 2)
        } else {
            (0, difference)
        }
    }
}

/// The first column of a line of `bytes` bytes in `w` columns; see `horizontal_offset`.
pub fn horizontal_offset_of(halign: HAlignment, w: usize, bytes: usize) -> (r: usize)
    requires
        bytes <= w,
    ensures
        r == horizontal_offset(halign, w as int, bytes as int),
        r + bytes <= w,
{
    let width_diff = w - bytes;
    match halign {
        HAlignment::Left => 0,
        HAlignment::Center => width_diff / 2 + width_diff % 2,
        HAlignment::Right => width_diff,
    }
}

} // verus!
