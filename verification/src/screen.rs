//! The screen: its extents, and how a buffer of palette indices becomes the
//! bytes of a frame, four to a pixel.

use vstd::prelude::*;
use crate::canvas::{cell_index, Canvas};

verus! {

/// The number of cells in a row of the screen.
pub const SCREEN_WIDTH: u32 = 128;

/// The number of rows of the screen.
pub const SCREEN_HEIGHT: u32 = 128;

/// A frame with each of its whole pixels set to the palette's colour for the
/// cell of the same index. Bytes after the last whole pixel stay as they are.
pub open spec fn shown(frame: Seq<u8>, cells: Seq<usize>, palette: Seq<[u8; 4]>) -> Seq<u8> {
    Seq::new(
        frame.len(),
        |i: int|
            if i < 4 * (frame.len() / 4) {
                palette[cells[i / 4] as int]@[i % 4]
            } else {
                frame[i]
            },
    )
}

/// A frame with every pixel black and opaque: the fourth byte of each group
/// of four is 255 and the others are zero.
pub open spec fn cleared(frame: Seq<u8>) -> Seq<u8> {
    Seq::new(frame.len(), |i: int| if i % 4 == 3 { 255u8 } else { 0u8 })
}

/// Whether every cell of the grid is an index into a palette of `colours`
/// entries.
pub open spec fn within_palette(grid: Map<(int, int), usize>, colours: int) -> bool {
    forall|c: (int, int)| grid.dom().contains(c) ==> #[trigger] grid[c] < colours
}

/// Every place in the buffer of a canvas is the index of one of its cells.
pub proof fn lemma_index_is_a_cell(width: int, height: int, i: int)
    requires
        0 <= i < width * height,
        0 <= width,
        0 <= height,
    ensures
        0 <= i % width < width,
        0 <= i / width < height,
        cell_index(width, i % width, i / width) == i,
{
    assert(width > 0) by (nonlinear_arith)
        requires
            0 <= i < width * height,
            0 <= width,
            0 <= height,
    ;
    vstd::arithmetic::div_mod::lemma_fundamental_div_mod(i, width);
    vstd::arithmetic::div_mod::lemma_mod_bound(i, width);
    let (x, y) = (i % width, i / width);
    assert(width * y == y * width) by (nonlinear_arith);
    assert(0 <= y < height) by (nonlinear_arith)
        requires
            0 <= i < width * height,
            0 <= x < width,
            i == y * width + x,
            0 < width,
    ;
}

/// Where every cell of a canvas is an index into a palette, so is every
/// entry of its buffer.
pub proof fn lemma_buffer_within_palette(canvas: Canvas, colours: int)
    requires
        canvas.wf(),
        within_palette(canvas@, colours),
    ensures
        forall|i: int| 0 <= i < canvas.cells@.len() ==> #[trigger] canvas.cells@[i] < colours,
{
    let (w, h) = (canvas.width as int, canvas.height as int);
    assert forall|i: int| 0 <= i < canvas.cells@.len() implies #[trigger] canvas.cells@[i]
        < colours by {
        lemma_index_is_a_cell(w, h, i);
        let c = (i % w, i / w);
        assert(canvas@.dom().contains(c));
        assert(canvas@[c] == canvas.cells@[i]);
    }
}

/// Writes the colour of each cell into the pixel of the same index: the
/// four bytes of pixel `i` become `palette[cells[i]]`.
pub fn show<const N: usize>(cells: &Vec<usize>, palette: &[[u8; 4]; N], frame: &mut [u8])
    requires
        old(frame)@.len() / 4 <= cells@.len(),
        forall|i: int| 0 <= i < old(frame)@.len() / 4 ==> cells@[i] < N,
    ensures
        final(frame)@ == shown(old(frame)@, cells@, palette@),
{
    let length = frame.len();
    let pixels = length / 4;
    let mut i: usize = 0;
    while i < pixels
        invariant
            i <= pixels,
            pixels == length / 4,
            pixels <= cells@.len(),
            frame@.len() == length,
            old(frame)@.len() == length,
            forall|k: int| 0 <= k < pixels ==> cells@[k] < N,
            forall|k: int| 0 <= k < 4 * i ==> frame@[k] == palette@[cells@[k / 4] as int]@[k % 4],
            forall|k: int| 4 * i <= k < frame@.len() ==> frame@[k] == old(frame)@[k],
        decreases pixels - i,
    {
        let color = palette[cells[i]];
        frame[4 * i] = color[0];
        frame[4 * i + 1] = color[1];
        frame[4 * i + 2] = color[2];
        frame[4 * i + 3] = color[3];
        i += 1;
    }
    assert(frame@ =~= shown(old(frame)@, cells@, palette@));
}

/// Makes every pixel of a frame black and opaque.
pub fn _clear(screen: &mut [u8])
    ensures
        final(screen)@ == cleared(old(screen)@),
{
    let count = screen.len();
    let mut i: usize = 0;
    while i < count
        invariant
            i <= count,
            count == old(screen)@.len(),
            screen@.len() == count,
            forall|k: int| 0 <= k < i ==> screen@[k] == (if k % 4 == 3 { 255u8 } else { 0u8 }),
        decreases count - i,
    {
        screen[i] = if i % 4 == 3 { 255 } else { 0 };
        i += 1;
    }
    assert(screen@ =~= cleared(old(screen)@));
}

} // verus!
