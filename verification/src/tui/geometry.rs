use vstd::prelude::*;

use crate::tui::error::{InnerError, TuiError};

verus! {

/// The x, y and z coordinates of a cell of the canvas.
#[derive(Clone, Copy, Debug, Default, PartialEq, Eq, PartialOrd, Ord, Hash, Structural)]
pub struct Idx(pub usize, pub usize, pub usize);

impl Idx {
    pub fn x(&self) -> (r: usize)
        ensures
            r == self.0,
    {
        self.0
    }

    pub fn y(&self) -> (r: usize)
        ensures
            r == self.1,
    {
        self.1
    }

    pub fn z(&self) -> (r: usize)
        ensures
            r == self.2,
    {
        self.2
    }
}

/// A width and a height.
#[derive(Clone, Copy, Debug, Default, PartialEq, Eq, Structural)]
pub struct Bounds2D(pub usize, pub usize);

impl Bounds2D {
    pub fn width(&self) -> (r: usize)
        ensures
            r == self.0,
    {
        self.0
    }

    pub fn height(&self) -> (r: usize)
        ensures
            r == self.1,
    {
        self.1
    }
}

/// A rectangle: its top left corner (with its layer) and its bounds.
#[derive(Clone, Copy, Debug, Default, PartialEq, Eq, Structural)]
pub struct Rectangle(pub Idx, pub Bounds2D);

/// A position inside a rectangle, relative to its top left corner.
pub enum Position {
    TopLeft,
    TopRight,
    BottomLeft,
    BottomRight,
    Coordinates(usize, usize),
    Idx(Idx),
}

/// A shape that a rectangle may contain.
pub enum Geometry<'a> {
    Idx(&'a Idx),
    Rectangle(&'a Rectangle),
}

/// The direction indicated by the player, or in which a shape moves.
#[derive(Clone, Copy, Debug, Default, PartialEq, Eq, Structural)]
pub enum Direction {
    #[default]
    Left,
    Right,
    Up,
    Down,
}

impl Direction {
    /// The lower case name of the direction.
    pub fn name(&self) -> (s: &'static str)
        ensures
            *self == Direction::Left ==> s@ == "left"@,
            *self == Direction::Right ==> s@ == "right"@,
            *self == Direction::Up ==> s@ == "up"@,
            *self == Direction::Down ==> s@ == "down"@,
    {
        proof {
            reveal_strlit("left");
            reveal_strlit("right");
            reveal_strlit("up");
            reveal_strlit("down");
        }
        match self {
            Direction::Left => "left",
            Direction::Right => "right",
            Direction::Up => "up",
            Direction::Down => "down",
        }
    }
}

/// The relative coordinates that a position names inside a rectangle of the given bounds.
pub open spec fn spec_relative_idx(width: int, height: int, pos: Position) -> (int, int) {
    match pos {
        Position::TopLeft => (0, 0),
        Position::TopRight => (width - 1, 0),
        Position::BottomLeft => (0, height - 1),
        Position::BottomRight => (width - 1, height - 1),
        Position::Coordinates(x, y) => (x as int, y as int),
        Position::Idx(idx) => (idx.0 as int, idx.1 as int),
    }
}

/// Whether a position can be resolved in a rectangle of the given bounds without underflow.
pub open spec fn position_resolvable(width: int, height: int, pos: Position) -> bool {
    match pos {
        Position::TopRight => width > 0,
        Position::BottomLeft => height > 0,
        Position::BottomRight => width > 0 && height > 0,
        _ => true,
    }
}

/// The rectangle moved `mag` cells towards `dir`, stopping at the zero row or column.
pub open spec fn spec_translated(r: Rectangle, mag: int, dir: Direction) -> Rectangle {
    match dir {
        Direction::Left => Rectangle(
            Idx(if r.0.0 > mag { (r.0.0 - mag) as usize } else { 0 }, r.0.1, r.0.2),
            r.1,
        ),
        Direction::Right => Rectangle(Idx((r.0.0 + mag) as usize, r.0.1, r.0.2), r.1),
        Direction::Up => Rectangle(
            Idx(r.0.0, if r.0.1 > mag { (r.0.1 - mag) as usize } else { 0 }, r.0.2),
            r.1,
        ),
        Direction::Down => Rectangle(Idx(r.0.0, (r.0.1 + mag) as usize, r.0.2), r.1),
    }
}

/// Whether translating by `mag` towards `dir` stays within the machine's integers.
pub open spec fn translation_fits(r: Rectangle, mag: int, dir: Direction) -> bool {
    match dir {
        Direction::Right => r.0.0 + mag <= usize::MAX,
        Direction::Down => r.0.1 + mag <= usize::MAX,
        _ => true,
    }
}

/// The error that `contains_or_err` reports, if any.
pub open spec fn spec_containment_error(outer: Rectangle, geo: Geometry) -> Option<InnerError> {
    match geo {
        Geometry::Idx(idx) => {
            if idx.0 < outer.0.0 || idx.0 > outer.0.0 + outer.1.0 {
                Some(InnerError::OutOfBoundsX(idx.0))
            } else if idx.1 < outer.0.1 || idx.1 > outer.0.1 + outer.1.1 {
                Some(InnerError::OutOfBoundsY(idx.1))
            } else {
                None
            }
        },
        Geometry::Rectangle(rect) => {
            let x_extent = rect.0.0 + rect.1.0;
            let y_extent = rect.0.1 + rect.1.1;
            if x_extent > outer.1.0 {
                Some(InnerError::OutOfBoundsX(x_extent as usize))
            } else if y_extent > outer.1.1 {
                Some(InnerError::OutOfBoundsY(y_extent as usize))
            } else {
                None
            }
        },
    }
}

/// Whether the extents of a rectangle fit the machine's integers.
pub open spec fn extents_fit(r: Rectangle) -> bool {
    r.0.0 + r.1.0 <= usize::MAX && r.0.1 + r.1.1 <= usize::MAX
}

/// Where the cell of column `i` and row `j` stands when the cells of a grid `h` rows high
/// are listed column by column.
pub open spec fn grid_offset(h: int, i: int, j: int) -> int {
    i * h + j
}

/// Whether `idx` is one of the cells that a rectangle covers.
pub open spec fn covers(r: Rectangle, idx: Idx) -> bool {
    &&& r.0.0 <= idx.0 < r.0.0 + r.1.0
    &&& r.0.1 <= idx.1 < r.0.1 + r.1.1
    &&& idx.2 == r.0.2
}

/// The cells of the first `n` columns of a rectangle, column by column, each from the top.
pub open spec fn rect_cols(r: Rectangle, n: int) -> Seq<Idx>
    decreases n,
{
    if n <= 0 {
        Seq::empty()
    } else {
        rect_cols(r, n - 1) + Seq::new(r.1.1 as nat, |j: int| Idx((r.0.0 + n - 1) as usize, (r.0.1 + j) as usize, r.0.2))
    }
}

/// The cells of a rectangle, column by column, each from the top.
pub open spec fn rect_cells(r: Rectangle) -> Seq<Idx> {
    rect_cols(r, r.1.0 as int)
}

/// The first `n` columns hold `n` times the height cells.
pub proof fn lemma_rect_cols_len(r: Rectangle, n: int)
    requires
        0 <= n,
    ensures
        rect_cols(r, n).len() == n * r.1.1,
    decreases n,
{
    if n > 0 {
        lemma_rect_cols_len(r, n - 1);
        assert((n - 1) * r.1.1 + r.1.1 == n * r.1.1) by (nonlinear_arith);
    } else {
        assert(n * r.1.1 == 0) by (nonlinear_arith) requires n == 0;
    }
}

/// Every cell of a rectangle lies on its layer, within its bounds.
pub proof fn lemma_rect_cols_inside(r: Rectangle, n: int)
    requires
        0 <= n <= r.1.0,
        extents_fit(r),
    ensures
        forall|k: int| 0 <= k < rect_cols(r, n).len() ==> covers(r, #[trigger] rect_cols(r, n)[k]),
    decreases n,
{
    if n > 0 {
        lemma_rect_cols_inside(r, n - 1);
        let prev = rect_cols(r, n - 1);
        assert forall|k: int| 0 <= k < rect_cols(r, n).len() implies covers(r, #[trigger] rect_cols(r, n)[k]) by {
            if k < prev.len() {
                assert(rect_cols(r, n)[k] == prev[k]);
            }
        }
    }
}

impl Rectangle {
    pub fn width(&self) -> (r: usize)
        ensures
            r == self.1.0,
    {
        self.1.0
    }

    pub fn height(&self) -> (r: usize)
        ensures
            r == self.1.1,
    {
        self.1.1
    }

    pub fn dimensions(&self) -> (r: (usize, usize))
        ensures
            r == (self.1.0, self.1.1),
    {
        (self.width(), self.height())
    }

    pub fn x(&self) -> (r: usize)
        ensures
            r == self.0.0,
    {
        self.0.0
    }

    pub fn z(&self) -> (r: usize)
        ensures
            r == self.0.2,
    {
        self.0.2
    }

    pub fn y(&self) -> (r: usize)
        ensures
            r == self.0.1,
    {
        self.0.1
    }

    /// The coordinates, relative to the top left corner, that a position names.
    pub fn relative_idx(&self, pos: &Position) -> (r: (usize, usize))
        requires
            position_resolvable(self.1.0 as int, self.1.1 as int, *pos),
        ensures
            (r.0 as int, r.1 as int) == spec_relative_idx(self.1.0 as int, self.1.1 as int, *pos),
    {
        match pos {
            Position::TopLeft => (0, 0),
            Position::TopRight => (self.width() - 1, 0),
            Position::BottomLeft => (0, self.height() - 1),
            Position::BottomRight => (self.width() - 1, self.height() - 1),
            Position::Coordinates(x, y) => (*x, *y),
            Position::Idx(Idx(x, y, _z)) => (*x, *y),
        }
    }

    /// Moves the rectangle `mag` cells towards `dir`; a move left or up stops at zero.
    pub fn translate(&mut self, mag: usize, dir: &Direction) -> (r: Result<(), TuiError>)
        requires
            translation_fits(*old(self), mag as int, *dir),
        ensures
            r is Ok,
            *final(self) == spec_translated(*old(self), mag as int, *dir),
    {
        match dir {
            Direction::Left => {
                if self.x() > mag {
                    self.0.0 = self.0.0 - mag;
                } else {
                    self.0.0 = 0;
                }
            },
            Direction::Right => {
                self.0.0 = self.0.0 + mag;
            },
            Direction::Up => {
                if self.y() > mag {
                    self.0.1 = self.0.1 - mag;
                } else {
                    self.0.1 = 0;
                }
            },
            Direction::Down => {
                self.0.1 = self.0.1 + mag;
            },
        }
        Ok(())
    }

    /// The coordinates just past the right and bottom edges.
    pub fn extents(&self) -> (r: (usize, usize))
        requires
            extents_fit(*self),
        ensures
            r.0 == self.0.0 + self.1.0,
            r.1 == self.0.1 + self.1.1,
    {
        (self.0.0 + self.1.0, self.0.1 + self.1.1)
    }

    /// Succeeds when the shape lies within the rectangle, and otherwise names the coordinate
    /// that lies outside.
    pub fn contains_or_err(&self, geo: Geometry) -> (r: Result<(), TuiError>)
        requires
            extents_fit(*self),
            geo matches Geometry::Rectangle(rect) ==> extents_fit(*rect),
        ensures
            r is Ok <==> spec_containment_error(*self, geo) is None,
            r matches Err(e) ==> Some(e.inner) == spec_containment_error(*self, geo),
    {
        match geo {
            Geometry::Idx(idx) => {
                if idx.x() < self.x() || idx.x() > self.x() + self.width() {
                    return Err(TuiError::from(InnerError::OutOfBoundsX(idx.x())));
                }
                if idx.y() < self.y() || idx.y() > self.y() + self.height() {
                    return Err(TuiError::from(InnerError::OutOfBoundsY(idx.y())));
                }
                Ok(())
            },
            Geometry::Rectangle(rect) => {
                let (x_extent, y_extent) = rect.extents();
                if x_extent > self.width() {
                    return Err(TuiError::from(InnerError::OutOfBoundsX(x_extent)));
                }
                if y_extent > self.height() {
                    return Err(TuiError::from(InnerError::OutOfBoundsY(y_extent)));
                }
                Ok(())
            },
        }
    }

    /// The cells that the rectangle covers, listed column by column, each on the
    /// rectangle's layer.
    pub fn into_iter(self) -> (r: Vec<Idx>)
        requires
            extents_fit(self),
        ensures
            r@.len() == self.1.0 * self.1.1,
            forall|i: int, j: int|
                0 <= i < self.1.0 && 0 <= j < self.1.1 ==> #[trigger] r@[grid_offset(
                    self.1.1 as int,
                    i,
                    j,
                )] == Idx((self.0.0 + i) as usize, (self.0.1 + j) as usize, self.0.2),
            r@ == rect_cells(self),
    {
        let mut indices: Vec<Idx> = Vec::new();
        if self.width() == 0 || self.height() == 0 {
            proof {
                lemma_rect_cols_len(self, self.1.0 as int);
                assert(indices@ =~= rect_cells(self));
            }
            assert(self.1.0 * self.1.1 == 0) by (nonlinear_arith)
                requires
                    self.1.0 == 0 || self.1.1 == 0,
            ;
            return indices;
        }
        let w = self.width();
        let h = self.height();
        let mut x: usize = self.x();
        while x < self.x() + w
            invariant
                w == self.1.0,
                h == self.1.1,
                h > 0,
                extents_fit(self),
                self.0.0 <= x <= self.0.0 + w,
                indices@.len() == (x - self.0.0) * h,
                indices@ == rect_cols(self, x - self.0.0),
                forall|i: int, j: int|
                    0 <= i < x - self.0.0 && 0 <= j < h ==> #[trigger] indices@[grid_offset(
                        h as int,
                        i,
                        j,
                    )] == Idx((self.0.0 + i) as usize, (self.0.1 + j) as usize, self.0.2),
            decreases self.0.0 + w - x,
        {
            let ghost col = x - self.0.0;
            let mut y: usize = self.y();
            while y < self.y() + h
                invariant
                    w == self.1.0,
                    h == self.1.1,
                    h > 0,
                    extents_fit(self),
                    self.0.0 <= x < self.0.0 + w,
                    col == x - self.0.0,
                    self.0.1 <= y <= self.0.1 + h,
                    indices@.len() == col * h + (y - self.0.1),
                    indices@ == rect_cols(self, col) + Seq::new((y - self.0.1) as nat, |j: int| Idx(x, (self.0.1 + j) as usize, self.0.2)),
                    forall|i: int, j: int|
                        0 <= i < col && 0 <= j < h ==> #[trigger] indices@[grid_offset(
                            h as int,
                            i,
                            j,
                        )] == Idx((self.0.0 + i) as usize, (self.0.1 + j) as usize, self.0.2),
                    forall|j: int|
                        0 <= j < y - self.0.1 ==> #[trigger] indices@[grid_offset(
                            h as int,
                            col,
                            j,
                        )] == Idx(x, (self.0.1 + j) as usize, self.0.2),
                decreases self.0.1 + h - y,
            {
                proof {
                    assert forall|i: int, j: int| 0 <= i < col && 0 <= j < h implies grid_offset(
                        h as int,
                        i,
                        j,
                    ) < col * h by {
                        assert(i * h + j < col * h) by (nonlinear_arith)
                            requires
                                0 <= i < col,
                                0 <= j < h,
                        ;
                    }
                }
                let ghost prev = indices@;
                indices.push(Idx(x, y, self.z()));
                y = y + 1;
                proof {
                    assert(indices@ =~= rect_cols(self, col) + Seq::new((y - self.0.1) as nat, |j: int| Idx(x, (self.0.1 + j) as usize, self.0.2)));
                }
            }
            proof {
                assert(col * h + h == (col + 1) * h) by (nonlinear_arith);
                assert(indices@ =~= rect_cols(self, col + 1));
            }
            x = x + 1;
        }
        indices
    }

    /// The smallest rectangle that holds both rectangles, on the layer of `self`.
    pub fn bounding_box(&self, other: &Rectangle) -> (r: Rectangle)
        requires
            extents_fit(*self),
            extents_fit(*other),
        ensures
            r.0.0 == if self.0.0 <= other.0.0 { self.0.0 } else { other.0.0 },
            r.0.1 == if self.0.1 <= other.0.1 { self.0.1 } else { other.0.1 },
            r.0.2 == self.0.2,
            r.0.0 + r.1.0 == if self.0.0 + self.1.0 >= other.0.0 + other.1.0 { self.0.0 + self.1.0 } else { other.0.0 + other.1.0 },
            r.0.1 + r.1.1 == if self.0.1 + self.1.1 >= other.0.1 + other.1.1 { self.0.1 + self.1.1 } else { other.0.1 + other.1.1 },
    {
        let x0 = if self.0.0 <= other.0.0 { self.0.0 } else { other.0.0 };
        let y0 = if self.0.1 <= other.0.1 { self.0.1 } else { other.0.1 };
        let x1 = if self.0.0 + self.1.0 >= other.0.0 + other.1.0 { self.0.0 + self.1.0 } else { other.0.0 + other.1.0 };
        let y1 = if self.0.1 + self.1.1 >= other.0.1 + other.1.1 { self.0.1 + self.1.1 } else { other.0.1 + other.1.1 };
        Rectangle(Idx(x0, y0, self.0.2), Bounds2D(x1 - x0, y1 - y0))
    }

    /// A rectangle at the position of `other` whose bounds are the sums of both bounds.
    pub fn add(&self, other: &Rectangle) -> (r: Rectangle)
        requires
            self.1.0 + other.1.0 <= usize::MAX,
            self.1.1 + other.1.1 <= usize::MAX,
        ensures
            r.0 == other.0,
            r.1.0 == self.1.0 + other.1.0,
            r.1.1 == self.1.1 + other.1.1,
    {
        Rectangle(
            Idx(other.0.0, other.0.1, other.0.2),
            Bounds2D(self.1.0 + other.1.0, self.1.1 + other.1.1),
        )
    }
}


/// The direction opposite to `d`.
pub open spec fn opposite(d: Direction) -> Direction {
    match d {
        Direction::Left => Direction::Right,
        Direction::Right => Direction::Left,
        Direction::Up => Direction::Down,
        Direction::Down => Direction::Up,
    }
}

/// A translation keeps the rectangle's size and layer.
pub proof fn law_translation_keeps_size(r: Rectangle, mag: int, dir: Direction)
    ensures
        spec_translated(r, mag, dir).1 == r.1,
        spec_translated(r, mag, dir).0.2 == r.0.2,
{
}

/// Translating a rectangle and then translating it back by the same magnitude gives it back,
/// unless the first move, left or up, stopped at zero.
pub proof fn law_translation_undone(r: Rectangle, mag: int, dir: Direction)
    requires
        mag >= 0,
        translation_fits(r, mag, dir),
        dir == Direction::Left ==> r.0.0 >= mag,
        dir == Direction::Up ==> r.0.1 >= mag,
    ensures
        spec_translated(spec_translated(r, mag, dir), mag, opposite(dir)) == r,
{
}

} // verus!
