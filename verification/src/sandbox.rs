//! The sandbox: a screen-sized canvas and the circles that move across it.
//! Each step moves the circles, plots them, and builds the tree of their
//! positions anew, which draws its dividing lines over them.

use vstd::prelude::*;
use crate::canvas::{blank, cell, lemma_cell_index_in_buffer, painted, Canvas, BOUNDARY};
use crate::laws::{
    halves_evenly,
    lemma_distinct_points_split_apart,
    lemma_insert_keeps_acceptance,
    lemma_insert_marks_are_rendered,
};
use crate::screen::{
    lemma_buffer_within_palette,
    lemma_index_is_a_cell,
    show,
    shown,
    within_palette,
    SCREEN_HEIGHT,
    SCREEN_WIDTH,
};
use crate::tree::{grown, splits_apart, Branch, Leaf};

verus! {

/// The colours of the sandbox: white for the background, black for a circle
/// or a dividing line.
pub const PALETTE: [[u8; 4]; 2] = [[255, 255, 255, 0], [0, 0, 0, 0]];

/// A position on the screen.
#[derive(Clone, Copy, Debug, PartialEq, Eq)]
pub struct Point {
    pub x: u32,
    pub y: u32,
}

impl Point {
    /// The point `(x, y)`.
    pub fn new(x: u32, y: u32) -> (point: Point)
        ensures
            point == (Point { x, y }),
    {
        Point { x, y }
    }
}

/// One pixel that moves to and fro along its row.
#[derive(Clone, Copy, Debug, PartialEq, Eq)]
pub struct Circle {
    pub color: usize,
    pub coordinates: Point,
    pub direction: i32,
    pub speed: u32,
}

impl Circle {
    /// The circle as it is first placed: black, at `(x, y)`, with speed one.
    pub open spec fn placed(x: u32, y: u32, direction: i32) -> Circle {
        Circle { color: 1, coordinates: Point { x, y }, direction, speed: 1 }
    }

    /// The position of the circle as a point of the tree.
    pub open spec fn position(self) -> (u32, u32) {
        (self.coordinates.x, self.coordinates.y)
    }

    /// The column that the circle moves to when the oscillation is applied:
    /// a circle with a positive direction moves with it, any other against
    /// it.
    pub open spec fn next_x(self, oscillation: i32) -> int {
        if self.direction > 0 {
            self.coordinates.x + oscillation
        } else {
            self.coordinates.x - oscillation
        }
    }

    /// The circle after the oscillation is applied.
    pub open spec fn moved(self, oscillation: i32) -> Circle {
        Circle {
            coordinates: Point { x: self.next_x(oscillation) as u32, y: self.coordinates.y },
            ..self
        }
    }

    /// A black circle at `(x, y)` that moves with the oscillation where
    /// `direction` is positive and against it otherwise.
    pub fn new(x: u32, y: u32, direction: i32) -> (circle: Circle)
        ensures
            circle == Circle::placed(x, y, direction),
    {
        Circle { color: 1, coordinates: Point::new(x, y), direction, speed: 1 }
    }
}

/// The positions of the circles, in their order.
pub open spec fn positions(circles: Seq<Circle>) -> Seq<(u32, u32)> {
    Seq::new(circles.len(), |i: int| circles[i].position())
}

/// The circles after the oscillation is applied to each.
pub open spec fn stepped(circles: Seq<Circle>, oscillation: i32) -> Seq<Circle> {
    Seq::new(circles.len(), |i: int| circles[i].moved(oscillation))
}

/// The grid with each circle plotted at its position, in its colour, one
/// after the other.
pub open spec fn plotted(grid: Map<(int, int), usize>, circles: Seq<Circle>) -> Map<
    (int, int),
    usize,
>
    decreases circles.len(),
{
    if circles.len() == 0 {
        grid
    } else {
        plotted(grid, circles.drop_last()).insert(
            cell(circles.last().position()),
            circles.last().color,
        )
    }
}

/// The state of the sandbox: the canvas, the circles and the number of
/// steps made.
#[derive(Debug)]
pub struct SandBox {
    pub buffer: Canvas,
    pub circles: Vec<Circle>,
    pub frame_count: u32,
}

impl SandBox {
    /// The circles that a new sandbox starts with.
    pub open spec fn first_circles() -> Seq<Circle> {
        seq![
            Circle::placed(20, 50, 1),
            Circle::placed(50, 30, 1),
            Circle::placed(25, 20, 1),
            Circle::placed(90, 40, -1i32),
            Circle::placed(85, 40, -1i32),
        ]
    }

    /// The canvas has the extents of the screen, and every cell and every
    /// circle has a colour of the palette.
    pub open spec fn wf(&self) -> bool {
        &&& self.buffer.wf()
        &&& self.buffer.width == SCREEN_WIDTH
        &&& self.buffer.height == SCREEN_HEIGHT
        &&& within_palette(self.buffer@, 2)
        &&& forall|i: int| 0 <= i < self.circles@.len() ==> (#[trigger] self.circles@[i]).color < 2
    }

    /// Whether a step with the given oscillation can be made: the count of
    /// steps can still grow, every circle stays on the screen, and no two
    /// circles come to lie on the same cell, where the tree could not keep
    /// them apart.
    pub open spec fn can_step(&self, oscillation: i32) -> bool {
        &&& self.frame_count < u32::MAX
        &&& forall|i: int|
            0 <= i < self.circles@.len() ==> {
                &&& 0 <= (#[trigger] self.circles@[i]).next_x(oscillation) < SCREEN_WIDTH
                &&& self.circles@[i].coordinates.y < SCREEN_HEIGHT
            }
        &&& forall|i: int, j: int|
            0 <= i < j < self.circles@.len() ==> (#[trigger] self.circles@[i]).moved(
                oscillation,
            ).position() != (#[trigger] self.circles@[j]).moved(oscillation).position()
    }

    /// A sandbox with a blank canvas and five circles.
    pub fn new() -> (sand_box: SandBox)
        ensures
            sand_box.wf(),
            sand_box.buffer@ == blank(SCREEN_WIDTH, SCREEN_HEIGHT),
            sand_box.circles@ == SandBox::first_circles(),
            sand_box.frame_count == 0,
    {
        let initial_state = Canvas::new(SCREEN_WIDTH, SCREEN_HEIGHT);
        let circle = Circle::new(20, 50, 1);
        let circle_2 = Circle::new(50, 30, 1);
        let circle_3 = Circle::new(25, 20, 1);
        let circle_4 = Circle::new(90, 40, -1);
        let circle_5 = Circle::new(85, 40, -1);
        let frame_count: u32 = 0;
        let circles = vec![circle, circle_2, circle_3, circle_4, circle_5];
        assert(circles@ =~= SandBox::first_circles());
        SandBox { buffer: initial_state, circles, frame_count }
    }

    /// Tells whether the sandbox is well formed, as every function that
    /// changes or shows it expects.
    pub fn is_well_formed(&self) -> (valid: bool)
        ensures
            valid == self.wf(),
    {
        let cells = SCREEN_WIDTH as usize * SCREEN_HEIGHT as usize;
        if self.buffer.width != SCREEN_WIDTH || self.buffer.height != SCREEN_HEIGHT
            || self.buffer.cells.len() != cells {
            return false;
        }
        let count = self.buffer.cells.len();
        let mut i: usize = 0;
        while i < count
            invariant
                i <= count,
                count == self.buffer.cells@.len(),
                self.buffer.wf(),
                self.buffer.width == SCREEN_WIDTH,
                self.buffer.height == SCREEN_HEIGHT,
                forall|k: int| 0 <= k < i ==> self.buffer.cells@[k] < 2,
            decreases count - i,
        {
            if self.buffer.cells[i] >= 2 {
                proof {
                    lemma_index_is_a_cell(SCREEN_WIDTH as int, SCREEN_HEIGHT as int, i as int);
                    let c = (i as int % SCREEN_WIDTH as int, i as int / SCREEN_WIDTH as int);
                    assert(self.buffer@.dom().contains(c));
                    assert(self.buffer@[c] == self.buffer.cells@[i as int]);
                }
                return false;
            }
            i += 1;
        }
        proof {
            assert forall|c: (int, int)|
                self.buffer@.dom().contains(c) implies #[trigger] self.buffer@[c] < 2 by {
                lemma_cell_index_in_buffer(SCREEN_WIDTH as int, SCREEN_HEIGHT as int, c.0, c.1);
            }
        }
        let circles = self.circles.len();
        let mut i: usize = 0;
        while i < circles
            invariant
                i <= circles,
                circles == self.circles@.len(),
                forall|k: int| 0 <= k < i ==> (#[trigger] self.circles@[k]).color < 2,
            decreases circles - i,
        {
            if self.circles[i].color >= 2 {
                return false;
            }
            i += 1;
        }
        true
    }

    /// Sets every cell of the canvas back to the background.
    pub fn clear(&mut self)
        requires
            old(self).wf(),
        ensures
            final(self).wf(),
            final(self).buffer@ == blank(SCREEN_WIDTH, SCREEN_HEIGHT),
            final(self).circles == old(self).circles,
            final(self).frame_count == old(self).frame_count,
    {
        self.buffer.clear();
    }

    /// Tells whether a step with the given oscillation can be made.
    pub fn can_update(&self, oscillation: i32) -> (possible: bool)
        ensures
            possible == self.can_step(oscillation),
    {
        if self.frame_count == u32::MAX {
            return false;
        }
        let count = self.circles.len();
        let mut i: usize = 0;
        while i < count
            invariant
                i <= count,
                count == self.circles@.len(),
                forall|k: int|
                    0 <= k < i ==> {
                        &&& 0 <= (#[trigger] self.circles@[k]).next_x(oscillation) < SCREEN_WIDTH
                        &&& self.circles@[k].coordinates.y < SCREEN_HEIGHT
                    },
                forall|k: int, j: int|
                    0 <= k < j < i ==> (#[trigger] self.circles@[k]).moved(oscillation).position()
                        != (#[trigger] self.circles@[j]).moved(oscillation).position(),
            decreases count - i,
        {
            let circle = self.circles[i];
            let x = Self::next_column(&circle, oscillation);
            if x < 0 || x >= SCREEN_WIDTH as i64 || circle.coordinates.y >= SCREEN_HEIGHT {
                return false;
            }
            let mut k: usize = 0;
            while k < i
                invariant
                    k <= i,
                    i < count,
                    count == self.circles@.len(),
                    circle == self.circles@[i as int],
                    x == circle.next_x(oscillation),
                    0 <= x < SCREEN_WIDTH,
                    forall|j: int|
                        0 <= j < i ==> 0 <= (#[trigger] self.circles@[j]).next_x(oscillation)
                            < SCREEN_WIDTH,
                    forall|j: int|
                        0 <= j < k ==> (#[trigger] self.circles@[j]).moved(oscillation).position()
                            != circle.moved(oscillation).position(),
                decreases i - k,
            {
                let other = self.circles[k];
                if Self::next_column(&other, oscillation) == x && other.coordinates.y
                    == circle.coordinates.y {
                    return false;
                }
                k += 1;
            }
            i += 1;
        }
        true
    }

    /// The column that a circle moves to when the oscillation is applied.
    fn next_column(circle: &Circle, oscillation: i32) -> (x: i64)
        ensures
            x == circle.next_x(oscillation),
    {
        if circle.direction > 0 {
            circle.coordinates.x as i64 + oscillation as i64
        } else {
            circle.coordinates.x as i64 - oscillation as i64
        }
    }

    /// Makes one step: clears the canvas, moves every circle by the
    /// oscillation and plots it, inserts the positions of the circles one
    /// after the other into a tree that starts as an empty leaf for the
    /// whole screen, and renders that tree.
    pub fn update(&mut self, oscillation: i32)
        requires
            old(self).wf(),
            old(self).can_step(oscillation),
        ensures
            final(self).wf(),
            final(self).frame_count == old(self).frame_count + 1,
            final(self).circles@ == stepped(old(self).circles@, oscillation),
            final(self).buffer@ == painted(
                plotted(blank(SCREEN_WIDTH, SCREEN_HEIGHT), final(self).circles@),
                grown(positions(final(self).circles@), SCREEN_WIDTH, SCREEN_HEIGHT).marks(
                    SCREEN_WIDTH,
                    SCREEN_HEIGHT,
                    (0, 0),
                ),
                BOUNDARY,
            ),
    {
        self.clear();
        self.frame_count += 1;
        let count = self.circles.len();
        let ghost next = stepped(old(self).circles@, oscillation);
        let mut i: usize = 0;
        while i < count
            invariant
                i <= count,
                count == self.circles@.len(),
                count == next.len(),
                next == stepped(old(self).circles@, oscillation),
                old(self).wf(),
                old(self).can_step(oscillation),
                self.frame_count == old(self).frame_count + 1,
                self.buffer.wf(),
                self.buffer.width == SCREEN_WIDTH,
                self.buffer.height == SCREEN_HEIGHT,
                within_palette(self.buffer@, 2),
                forall|k: int| 0 <= k < i ==> self.circles@[k] == next[k],
                forall|k: int| i <= k < count ==> self.circles@[k] == old(self).circles@[k],
                self.buffer@ == plotted(
                    blank(SCREEN_WIDTH, SCREEN_HEIGHT),
                    next.take(i as int),
                ),
            decreases count - i,
        {
            let circle = self.circles[i];
            let current_x = Self::next_column(&circle, oscillation);
            let moved = Circle {
                color: circle.color,
                coordinates: Point { x: current_x as u32, y: circle.coordinates.y },
                direction: circle.direction,
                speed: circle.speed,
            };
            assert(moved == next[i as int]);
            self.circles[i] = moved;
            self.buffer.set(moved.coordinates.x, moved.coordinates.y, moved.color);
            i += 1;
            proof {
                assert(next.take(i as int).drop_last() =~= next.take(i - 1));
            }
        }
        proof {
            assert(next.take(count as int) =~= next);
            assert(self.circles@ =~= next);
        }
        let ghost points = positions(next);
        let ghost base = self.buffer@;
        let mut root = Branch::Leaf(Leaf::new(SCREEN_WIDTH, SCREEN_HEIGHT));
        proof {
            assert(points.take(0).len() == 0);
            assert(self.buffer@ =~= painted(
                base,
                root.marks(SCREEN_WIDTH, SCREEN_HEIGHT, (0, 0)),
                BOUNDARY,
            ));
        }
        let mut i: usize = 0;
        while i < count
            invariant
                i <= count,
                count == self.circles@.len(),
                self.circles@ == next,
                next == stepped(old(self).circles@, oscillation),
                old(self).wf(),
                old(self).can_step(oscillation),
                points == positions(next),
                self.frame_count == old(self).frame_count + 1,
                self.buffer.wf(),
                self.buffer.width == SCREEN_WIDTH,
                self.buffer.height == SCREEN_HEIGHT,
                within_palette(base, 2),
                root == grown(points.take(i as int), SCREEN_WIDTH, SCREEN_HEIGHT),
                root.well_formed(),
                root.fits(SCREEN_WIDTH, SCREEN_HEIGHT),
                forall|k: int| i <= k < count ==> root.accepts(#[trigger] points[k]),
                self.buffer@ == painted(
                    base,
                    root.marks(SCREEN_WIDTH, SCREEN_HEIGHT, (0, 0)),
                    BOUNDARY,
                ),
            decreases count - i,
        {
            let circle = self.circles[i];
            let current_coords = (circle.coordinates.x, circle.coordinates.y);
            let ghost before = root;
            proof {
                assert(current_coords == points[i as int]);
                lemma_insert_marks_are_rendered(
                    root,
                    current_coords,
                    SCREEN_WIDTH,
                    SCREEN_HEIGHT,
                    (0, 0),
                );
                assert forall|k: int| i < k < count implies before.spec_insert(
                    current_coords,
                ).accepts(#[trigger] points[k]) by {
                    Self::lemma_screen_points_split_apart(
                        old(self).circles@,
                        oscillation,
                        i as int,
                        k,
                    );
                    lemma_insert_keeps_acceptance(
                        before,
                        current_coords,
                        points[k],
                        SCREEN_WIDTH,
                        SCREEN_HEIGHT,
                    );
                }
            }
            root = root.insert(current_coords, (0, 0), &mut self.buffer);
            i += 1;
            proof {
                assert(points.take(i as int).drop_last() =~= points.take(i - 1));
                assert(self.buffer@ =~= painted(
                    base,
                    root.marks(SCREEN_WIDTH, SCREEN_HEIGHT, (0, 0)),
                    BOUNDARY,
                ));
            }
        }
        root.render(SCREEN_WIDTH, SCREEN_HEIGHT, (0, 0), &mut self.buffer);
        proof {
            assert(points.take(count as int) =~= points);
            assert(self.buffer@ =~= painted(
                base,
                root.marks(SCREEN_WIDTH, SCREEN_HEIGHT, (0, 0)),
                BOUNDARY,
            ));
        }
    }

    /// Two circles of a sandbox that can make a step lie, after the step,
    /// on different cells of the screen, which dividing the screen parts.
    proof fn lemma_screen_points_split_apart(
        circles: Seq<Circle>,
        oscillation: i32,
        i: int,
        j: int,
    )
        requires
            0 <= i < j < circles.len(),
            forall|k: int|
                0 <= k < circles.len() ==> {
                    &&& 0 <= (#[trigger] circles[k]).next_x(oscillation) < SCREEN_WIDTH
                    &&& circles[k].coordinates.y < SCREEN_HEIGHT
                },
            forall|k: int, l: int|
                0 <= k < l < circles.len() ==> (#[trigger] circles[k]).moved(
                    oscillation,
                ).position() != (#[trigger] circles[l]).moved(oscillation).position(),
        ensures
            splits_apart(
                circles[i].moved(oscillation).position(),
                circles[j].moved(oscillation).position(),
                SCREEN_WIDTH,
                SCREEN_HEIGHT,
            ),
    {
        reveal_with_fuel(halves_evenly, 9);
        lemma_distinct_points_split_apart(
            circles[i].moved(oscillation).position(),
            circles[j].moved(oscillation).position(),
            SCREEN_WIDTH,
            SCREEN_HEIGHT,
        );
    }

    /// Writes the colour of each cell of the canvas into the pixel of the
    /// same index of the frame.
    pub fn draw(&mut self, frame: &mut [u8])
        requires
            old(self).wf(),
            old(frame)@.len() / 4 <= SCREEN_WIDTH * SCREEN_HEIGHT,
        ensures
            *final(self) == *old(self),
            final(frame)@ == shown(old(frame)@, old(self).buffer.cells@, PALETTE@),
    {
        proof {
            lemma_buffer_within_palette(self.buffer, 2);
        }
        show(&self.buffer.cells, &PALETTE, frame);
    }
}

} // verus!
