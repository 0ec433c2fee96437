//! A fire along the bottom of the screen: a grid of heat values in which
//! every step lets each row take the heat of the row below it, one degree
//! cooler.

use vstd::prelude::*;
use crate::canvas::Canvas;
use crate::screen::{
    lemma_buffer_within_palette,
    show,
    shown,
    within_palette,
    SCREEN_HEIGHT,
    SCREEN_WIDTH,
};

verus! {

/// The colours of the fire, from the coldest to the hottest.
pub const COLOR_PALETTE: [[u8; 4]; 11] = [
    [3, 7, 30, 0],
    [55, 6, 23, 0],
    [106, 4, 15, 0],
    [157, 2, 8, 0],
    [208, 0, 0, 0],
    [220, 47, 2, 0],
    [232, 93, 4, 0],
    [244, 140, 6, 0],
    [250, 163, 7, 0],
    [255, 186, 8, 0],
    [255, 255, 255, 0],
];

/// A heat value one degree cooler, or zero where nothing is left to cool.
pub open spec fn cooled(value: usize) -> usize {
    if value == 0 {
        0
    } else {
        (value - 1) as usize
    }
}

/// The grid in which every cell above the row `row - 1`, and the first
/// `column` cells of that row, hold the cooled heat of the cell below them,
/// and every other cell is as it was.
spec fn risen_part(grid: Map<(int, int), usize>, row: int, column: int) -> Map<
    (int, int),
    usize,
> {
    Map::new(
        |c: (int, int)| grid.dom().contains(c),
        |c: (int, int)|
            if c.1 + 1 < row || (c.1 + 1 == row && c.0 < column) {
                cooled(grid[(c.0, c.1 + 1)])
            } else {
                grid[c]
            },
    )
}

/// The grid of `height` rows after the heat has risen by one row: every
/// cell but those of the last row holds the cooled heat of the cell below
/// it, and the last row is as it was.
pub open spec fn risen(grid: Map<(int, int), usize>, height: int) -> Map<(int, int), usize> {
    Map::new(
        |c: (int, int)| grid.dom().contains(c),
        |c: (int, int)| if c.1 + 1 < height { cooled(grid[(c.0, c.1 + 1)]) } else { grid[c] },
    )
}

/// The screen with the hottest value all along its last row and zero
/// everywhere else.
pub open spec fn ignited() -> Map<(int, int), usize> {
    Map::new(
        |c: (int, int)| 0 <= c.0 < SCREEN_WIDTH && 0 <= c.1 < SCREEN_HEIGHT,
        |c: (int, int)| if c.1 == SCREEN_HEIGHT - 1 { 10usize } else { 0usize },
    )
}

/// The fire: a screen of heat values.
#[derive(Debug)]
pub struct QuadTree {
    pub buffer: Canvas,
}

impl QuadTree {
    /// The buffer has the extents of the screen, and every heat value has a
    /// colour.
    pub open spec fn wf(&self) -> bool {
        &&& self.buffer.wf()
        &&& self.buffer.width == SCREEN_WIDTH
        &&& self.buffer.height == SCREEN_HEIGHT
        &&& within_palette(self.buffer@, 11)
    }

    /// A cold screen with the fire lit along its last row.
    pub fn new() -> (fire: QuadTree)
        ensures
            fire.wf(),
            fire.buffer@ == ignited(),
    {
        let mut initial_state = Canvas::new(SCREEN_WIDTH, SCREEN_HEIGHT);
        for i in 0..SCREEN_WIDTH
            invariant
                initial_state.wf(),
                initial_state.width == SCREEN_WIDTH,
                initial_state.height == SCREEN_HEIGHT,
                forall|c: (int, int)|
                    initial_state@.dom().contains(c) ==> #[trigger] initial_state@[c] == (if c.1
                        == SCREEN_HEIGHT - 1 && c.0 < i {
                        10usize
                    } else {
                        0usize
                    }),
        {
            initial_state.set(i, SCREEN_HEIGHT - 1, COLOR_PALETTE.len() - 1);
        }
        assert(initial_state@ =~= ignited());
        QuadTree { buffer: initial_state }
    }

    /// Writes the colour of each heat value into the pixel of the same
    /// index of the frame, then lets the heat rise by one row.
    pub fn draw(&mut self, screen: &mut [u8])
        requires
            old(self).wf(),
            old(screen)@.len() / 4 <= SCREEN_WIDTH * SCREEN_HEIGHT,
        ensures
            final(self).wf(),
            final(self).buffer@ == risen(old(self).buffer@, SCREEN_HEIGHT as int),
            final(screen)@ == shown(old(screen)@, old(self).buffer.cells@, COLOR_PALETTE@),
    {
        proof {
            lemma_buffer_within_palette(self.buffer, 11);
        }
        show(&self.buffer.cells, &COLOR_PALETTE, screen);
        self.propagate();
    }

    /// Lets the heat rise by one row: every cell but those of the last row
    /// takes the heat of the cell below it, cooled by one degree.
    pub fn propagate(&mut self)
        requires
            old(self).wf(),
        ensures
            final(self).wf(),
            final(self).buffer@ == risen(old(self).buffer@, SCREEN_HEIGHT as int),
    {
        let ghost before = self.buffer@;
        assert(self.buffer@ =~= risen_part(before, 1, 0));
        for y in 1..SCREEN_HEIGHT
            invariant
                before == old(self).buffer@,
                within_palette(before, 11),
                self.buffer.wf(),
                self.buffer.width == SCREEN_WIDTH,
                self.buffer.height == SCREEN_HEIGHT,
                self.buffer@ == risen_part(before, y as int, 0),
        {
            for x in 0..SCREEN_WIDTH
                invariant
                    1 <= y < SCREEN_HEIGHT,
                    before == old(self).buffer@,
                    within_palette(before, 11),
                    self.buffer.wf(),
                    self.buffer.width == SCREEN_WIDTH,
                    self.buffer.height == SCREEN_HEIGHT,
                    self.buffer@ == risen_part(before, y as int, x as int),
            {
                let pixel = self.buffer.get(x, y);
                if pixel == 0 {
                    self.buffer.set(x, y - 1, 0);
                } else {
                    self.buffer.set(x, y - 1, pixel - 1);
                }
                assert(self.buffer@ =~= risen_part(before, y as int, x + 1));
            }
            assert(self.buffer@ =~= risen_part(before, y + 1, 0));
        }
        assert(self.buffer@ =~= risen(before, SCREEN_HEIGHT as int));
        assert(within_palette(self.buffer@, 11)) by {
            assert forall|c: (int, int)|
                self.buffer@.dom().contains(c) implies #[trigger] self.buffer@[c] < 11 by {
                assert(before.dom().contains(c));
                if c.1 + 1 < SCREEN_HEIGHT {
                    assert(before.dom().contains((c.0, c.1 + 1)));
                }
            }
        }
    }
}

} // verus!
