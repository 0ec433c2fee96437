//! The shared grid of palette indices that the tree draws into.

use vstd::prelude::*;

verus! {

/// The value of a cell that nothing was drawn on.
pub const BACKGROUND: usize = 0;

/// The value of a cell that lies on a dividing line.
pub const BOUNDARY: usize = 1;

/// The coordinates of a point as integers.
pub open spec fn cell(p: (u32, u32)) -> (int, int) {
    (p.0 as int, p.1 as int)
}

/// The sum of an origin and an offset.
pub open spec fn shifted(shift: (int, int), by: (int, int)) -> (int, int) {
    (shift.0 + by.0, shift.1 + by.1)
}

/// The cells on the dividing lines of a region of `width` by `height` cells
/// whose origin lies at `shift`: the column at local `x == width / 2` and the
/// row at local `y == height / 2`, as far as they lie inside the region.
pub open spec fn cross(width: int, height: int, shift: (int, int)) -> Set<(int, int)> {
    Set::new(
        |c: (int, int)|
            {
                &&& shift.0 <= c.0 < shift.0 + width
                &&& shift.1 <= c.1 < shift.1 + height
                &&& (c.0 - shift.0 == width / 2 || c.1 - shift.1 == height / 2)
            },
    )
}

/// The part of a cross that is drawn once the first `rows` cells of its
/// column and the first `columns` cells of its row are marked.
spec fn cross_part(
    width: int,
    height: int,
    shift: (int, int),
    rows: int,
    columns: int,
) -> Set<(int, int)> {
    Set::new(
        |c: (int, int)|
            {
                &&& shift.0 <= c.0 < shift.0 + width
                &&& shift.1 <= c.1 < shift.1 + height
                &&& (c.0 - shift.0 == width / 2 && c.1 - shift.1 < rows || c.1 - shift.1 == height
                    / 2 && c.0 - shift.0 < columns)
            },
    )
}

/// The cells of a rectangle of `width` by `height` cells with origin `shift`.
pub open spec fn rectangle(width: int, height: int, shift: (int, int)) -> Set<(int, int)> {
    Set::new(
        |c: (int, int)|
            shift.0 <= c.0 < shift.0 + width && shift.1 <= c.1 < shift.1 + height,
    )
}

/// A grid with every cell of `marks` set to `value` and every other cell as
/// it was.
pub open spec fn painted(
    grid: Map<(int, int), usize>,
    marks: Set<(int, int)>,
    value: usize,
) -> Map<(int, int), usize> {
    Map::new(
        |c: (int, int)| grid.dom().contains(c),
        |c: (int, int)| if marks.contains(c) { value } else { grid[c] },
    )
}

/// The grid of `width` by `height` cells with every cell at the background
/// value.
pub open spec fn blank(width: u32, height: u32) -> Map<(int, int), usize> {
    Map::new(|c: (int, int)| 0 <= c.0 < width && 0 <= c.1 < height, |c: (int, int)| BACKGROUND)
}

/// A grid of `width` by `height` cells, stored row by row.
#[derive(Clone, Debug, PartialEq, Eq)]
pub struct Canvas {
    pub width: u32,
    pub height: u32,
    pub cells: Vec<usize>,
}

impl View for Canvas {
    type V = Map<(int, int), usize>;

    /// The grid as a map from the coordinates `(x, y)` of a cell to its value.
    open spec fn view(&self) -> Map<(int, int), usize> {
        Map::new(
            |c: (int, int)| 0 <= c.0 < self.width && 0 <= c.1 < self.height,
            |c: (int, int)| self.cells@[cell_index(self.width as int, c.0, c.1)],
        )
    }
}

/// The place of the cell `(x, y)` in a row-major buffer whose rows hold
/// `width` cells.
pub open spec fn cell_index(width: int, x: int, y: int) -> int {
    y * width + x
}

/// The index of a cell of the grid lies inside a row-major buffer of `width`
/// by `height` cells.
pub proof fn lemma_cell_index_in_buffer(width: int, height: int, x: int, y: int)
    requires
        0 <= x < width,
        0 <= y < height,
    ensures
        0 <= y * width <= cell_index(width, x, y) < width * height,
{
    assert(0 <= y * width && y * width + width <= width * height) by (nonlinear_arith)
        requires
            0 <= y < height,
            0 < width,
    ;
}

/// Two different cells of one grid have different indices.
pub proof fn lemma_cell_index_injective(width: int, x: int, y: int, x2: int, y2: int)
    requires
        0 <= x < width,
        0 <= x2 < width,
        0 <= y,
        0 <= y2,
        x != x2 || y != y2,
    ensures
        cell_index(width, x, y) != cell_index(width, x2, y2),
{
    if y2 < y {
        assert(y2 * width + width <= y * width) by (nonlinear_arith)
            requires
                y2 < y,
                0 < width,
        ;
    } else if y2 > y {
        assert(y * width + width <= y2 * width) by (nonlinear_arith)
            requires
                y < y2,
                0 < width,
        ;
    }
}

impl Canvas {
    /// The buffer holds exactly one cell for each coordinate of the grid.
    pub open spec fn wf(&self) -> bool {
        self.cells.len() == self.width * self.height
    }

    /// A grid of the given size with every cell at the background value.
    pub fn new(width: u32, height: u32) -> (canvas: Canvas)
        requires
            width * height <= usize::MAX,
        ensures
            canvas.wf(),
            canvas.width == width,
            canvas.height == height,
            canvas@ == blank(width, height),
    {
        let count = width as usize * height as usize;
        let mut cells: Vec<usize> = Vec::with_capacity(count);
        let mut i: usize = 0;
        while i < count
            invariant
                i <= count,
                cells@.len() == i,
                forall|k: int| 0 <= k < i ==> cells@[k] == BACKGROUND,
            decreases count - i,
        {
            cells.push(BACKGROUND);
            i += 1;
        }
        let canvas = Canvas { width, height, cells };
        proof {
            assert forall|c: (int, int)| canvas@.dom().contains(c) implies canvas@[c]
                == BACKGROUND by {
                lemma_cell_index_in_buffer(width as int, height as int, c.0, c.1);
            }
            assert(canvas@ =~= blank(width, height));
        }
        canvas
    }

    /// Sets every cell back to the background value.
    pub fn clear(&mut self)
        requires
            old(self).wf(),
        ensures
            final(self).wf(),
            final(self).width == old(self).width,
            final(self).height == old(self).height,
            final(self)@ == blank(old(self).width, old(self).height),
    {
        let count = self.cells.len();
        let mut i: usize = 0;
        while i < count
            invariant
                i <= count,
                self.cells@.len() == count,
                self.width == old(self).width,
                self.height == old(self).height,
                forall|k: int| 0 <= k < i ==> self.cells@[k] == BACKGROUND,
            decreases count - i,
        {
            self.cells[i] = BACKGROUND;
            i += 1;
        }
        proof {
            assert forall|c: (int, int)| self@.dom().contains(c) implies self@[c]
                == BACKGROUND by {
                lemma_cell_index_in_buffer(self.width as int, self.height as int, c.0, c.1);
            }
            assert(self@ =~= blank(old(self).width, old(self).height));
        }
    }

    /// The value of the cell `(x, y)`.
    pub fn get(&self, x: u32, y: u32) -> (value: usize)
        requires
            self.wf(),
            x < self.width,
            y < self.height,
        ensures
            value == self@[(x as int, y as int)],
    {
        proof {
            lemma_cell_index_in_buffer(self.width as int, self.height as int, x as int, y as int);
        }
        self.cells[y as usize * self.width as usize + x as usize]
    }

    /// Sets the cell `(x, y)` to `value` and leaves every other cell as it is.
    pub fn set(&mut self, x: u32, y: u32, value: usize)
        requires
            old(self).wf(),
            x < old(self).width,
            y < old(self).height,
        ensures
            final(self).wf(),
            final(self).width == old(self).width,
            final(self).height == old(self).height,
            final(self)@ == old(self)@.insert((x as int, y as int), value),
            final(self).cells@ == old(self).cells@.update(
                cell_index(old(self).width as int, x as int, y as int),
                value,
            ),
    {
        proof {
            lemma_cell_index_in_buffer(self.width as int, self.height as int, x as int, y as int);
        }
        let index = y as usize * self.width as usize + x as usize;
        self.cells[index] = value;
        proof {
            let cell = (x as int, y as int);
            assert(index == cell_index(self.width as int, x as int, y as int));
            assert forall|c: (int, int)| self@.dom().contains(c) implies #[trigger] self@[c]
                == old(self)@.insert(cell, value)[c] by {
                if c.0 != x || c.1 != y {
                    lemma_cell_index_injective(self.width as int, x as int, y as int, c.0, c.1);
                    lemma_cell_index_in_buffer(
                        self.width as int,
                        self.height as int,
                        c.0,
                        c.1,
                    );
                } else {
                    assert(c == cell);
                }
            }
            assert(self@ =~= old(self)@.insert(cell, value));
        }
    }

    /// Marks the dividing lines of a region of `width` by `height` cells whose
    /// origin lies at `shift` as boundary cells.
    pub fn mark_cross(&mut self, width: u32, height: u32, shift: (u32, u32))
        requires
            old(self).wf(),
            shift.0 + width <= old(self).width,
            shift.1 + height <= old(self).height,
        ensures
            final(self).wf(),
            final(self).width == old(self).width,
            final(self).height == old(self).height,
            final(self)@ == painted(
                old(self)@,
                cross(width as int, height as int, cell(shift)),
                BOUNDARY,
            ),
    {
        let split_width = width / 2;
        let split_height = height / 2;
        let ghost origin = cell(shift);
        let ghost (w, h) = (width as int, height as int);
        assert(self@ =~= painted(old(self)@, cross_part(w, h, origin, 0, 0), BOUNDARY));
        if width > 0 && height > 0 {
            let mut y: u32 = 0;
            while y < height
                invariant
                    y <= height,
                    0 < width,
                    split_width == width / 2,
                    origin == cell(shift),
                    (w, h) == (width as int, height as int),
                    shift.0 + width <= self.width,
                    shift.1 + height <= self.height,
                    self.wf(),
                    self.width == old(self).width,
                    self.height == old(self).height,
                    self@ == painted(old(self)@, cross_part(w, h, origin, y as int, 0), BOUNDARY),
                decreases height - y,
            {
                self.set(shift.0 + split_width, shift.1 + y, BOUNDARY);
                y += 1;
                assert(self@ =~= painted(
                    old(self)@,
                    cross_part(w, h, origin, y as int, 0),
                    BOUNDARY,
                ));
            }
            let mut x: u32 = 0;
            while x < width
                invariant
                    x <= width,
                    0 < height,
                    split_height == height / 2,
                    origin == cell(shift),
                    (w, h) == (width as int, height as int),
                    shift.0 + width <= self.width,
                    shift.1 + height <= self.height,
                    self.wf(),
                    self.width == old(self).width,
                    self.height == old(self).height,
                    self@ == painted(old(self)@, cross_part(w, h, origin, h, x as int), BOUNDARY),
                decreases width - x,
            {
                self.set(shift.0 + x, shift.1 + split_height, BOUNDARY);
                x += 1;
                assert(self@ =~= painted(
                    old(self)@,
                    cross_part(w, h, origin, h, x as int),
                    BOUNDARY,
                ));
            }
            assert(cross_part(w, h, origin, h, w) =~= cross(w, h, origin));
        } else {
            assert(cross_part(w, h, origin, 0, 0) =~= cross(w, h, origin));
        }
    }
}

} // verus!
