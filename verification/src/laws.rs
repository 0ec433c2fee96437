//! What holds of the tree and of its drawing, proved over the functions
//! that the contracts of insertion and rendering are stated with.

use vstd::prelude::*;
use crate::canvas::{cell, cross, painted, rectangle, shifted, BOUNDARY};
use crate::quadrant::Quadrant;
use crate::tree::{grown, split, split_marks, splits_apart, Branch, Leaf, QuadTree};

verus! {

/// The first point inserted into an empty leaf stays in that leaf, as it was
/// given: the leaf is not divided and nothing is drawn.
pub proof fn lemma_first_point_stays_in_leaf(width: u32, height: u32, p: (u32, u32))
    ensures
        Branch::Leaf(Leaf::empty(width, height)).accepts(p),
        Branch::Leaf(Leaf::empty(width, height)).spec_insert(p) == Branch::Leaf(
            Leaf::holding(width, height, p),
        ),
        Branch::Leaf(Leaf::empty(width, height)).insert_marks(p, (0, 0)) == Set::<
            (int, int),
        >::empty(),
{
}

/// Two points that are sorted into different quadrants of an empty region
/// give a node of four leaves: each point lies in the leaf of its quadrant,
/// expressed in that quadrant's frame, and the other two leaves are empty.
pub proof fn lemma_points_in_different_quadrants(
    width: u32,
    height: u32,
    a: (u32, u32),
    b: (u32, u32),
)
    requires
        Quadrant::of(a, (width / 2) as u32, (height / 2) as u32) != Quadrant::of(
            b,
            (width / 2) as u32,
            (height / 2) as u32,
        ),
    ensures
        ({
            let (w, h) = ((width / 2) as u32, (height / 2) as u32);
            let (qa, qb) = (Quadrant::of(a, w, h), Quadrant::of(b, w, h));
            let first = Branch::Leaf(Leaf::empty(width, height)).spec_insert(a);
            let second = first.spec_insert(b);
            &&& first.accepts(b)
            &&& second matches Branch::Node(node)
            &&& node.width == w && node.height == h
            &&& node.child(qa) == Branch::Leaf(Leaf::holding(w, h, Quadrant::route(a, w, h)))
            &&& node.child(qb) == Branch::Leaf(Leaf::holding(w, h, Quadrant::route(b, w, h)))
            &&& forall|q: Quadrant|
                q != qa && q != qb ==> #[trigger] node.child(q) == Branch::Leaf(Leaf::empty(w, h))
        }),
{
}

/// Two points that are sorted into the same quadrant of an empty region,
/// and that dividing can part, do not share a leaf: the child of their
/// quadrant is itself a node, the one that dividing a leaf of that quadrant
/// gives for the two points in its frame. The other three leaves are empty.
pub proof fn lemma_points_in_same_quadrant(width: u32, height: u32, a: (u32, u32), b: (u32, u32))
    requires
        Quadrant::of(a, (width / 2) as u32, (height / 2) as u32) == Quadrant::of(
            b,
            (width / 2) as u32,
            (height / 2) as u32,
        ),
        splits_apart(a, b, width, height),
    ensures
        ({
            let (w, h) = ((width / 2) as u32, (height / 2) as u32);
            let quadrant = Quadrant::of(a, w, h);
            let first = Branch::Leaf(Leaf::empty(width, height)).spec_insert(a);
            let second = first.spec_insert(b);
            &&& first.accepts(b)
            &&& second matches Branch::Node(node)
            &&& node.width == w && node.height == h
            &&& node.child(quadrant) == Branch::Node(
                split(quadrant.localize(a, w, h), quadrant.localize(b, w, h), w, h),
            )
            &&& forall|q: Quadrant|
                q != quadrant ==> #[trigger] node.child(q) == Branch::Leaf(Leaf::empty(w, h))
        }),
{
}

/// Painting the same cells again changes nothing: a grid that was painted
/// once is the grid that was painted twice.
pub proof fn lemma_painting_twice(
    grid: Map<(int, int), usize>,
    marks: Set<(int, int)>,
    value: usize,
)
    ensures
        painted(painted(grid, marks, value), marks, value) == painted(grid, marks, value),
{
    assert(painted(painted(grid, marks, value), marks, value) =~= painted(grid, marks, value));
}

/// Rendering a tree a second time changes nothing on the canvas: the tree
/// is only read, and its lines are already drawn.
pub proof fn lemma_rendering_twice(
    tree: Branch,
    width: u32,
    height: u32,
    shift: (int, int),
    grid: Map<(int, int), usize>,
)
    ensures
        ({
            let once = painted(grid, tree.marks(width, height, shift), BOUNDARY);
            painted(once, tree.marks(width, height, shift), BOUNDARY) == once
        }),
{
    lemma_painting_twice(grid, tree.marks(width, height, shift), BOUNDARY);
}

/// Painting leaves every cell outside the marks, and the extent of the grid,
/// as they were.
pub proof fn lemma_painting_spares_the_rest(
    grid: Map<(int, int), usize>,
    marks: Set<(int, int)>,
    value: usize,
)
    ensures
        painted(grid, marks, value).dom() == grid.dom(),
        forall|c: (int, int)|
            grid.dom().contains(c) && !marks.contains(c) ==> #[trigger] painted(
                grid,
                marks,
                value,
            )[c] == grid[c],
{
    assert(painted(grid, marks, value).dom() =~= grid.dom());
}

/// Dividing a leaf marks nothing outside the region of that leaf.
pub proof fn lemma_split_marks_within_region(
    a: (u32, u32),
    b: (u32, u32),
    width: u32,
    height: u32,
    shift: (int, int),
)
    ensures
        split_marks(a, b, width, height, shift).subset_of(
            rectangle(width as int, height as int, shift),
        ),
    decreases width + height,
{
    let (w, h) = ((width / 2) as u32, (height / 2) as u32);
    let quadrant = Quadrant::of(a, w, h);
    if quadrant != Quadrant::of(b, w, h) || (width == 0 && height == 0) {
    } else {
        lemma_split_marks_within_region(
            quadrant.localize(a, w, h),
            quadrant.localize(b, w, h),
            w,
            h,
            shifted(shift, quadrant.origin(w, h)),
        );
    }
}

/// Rendering a tree marks nothing outside the region that the tree stands
/// for, whatever points it holds.
pub proof fn lemma_marks_within_region(tree: Branch, width: u32, height: u32, shift: (int, int))
    requires
        tree.well_formed(),
        tree.fits(width, height),
    ensures
        tree.marks(width, height, shift).subset_of(rectangle(width as int, height as int, shift)),
    decreases tree,
{
    match tree {
        Branch::Leaf(_) => {},
        Branch::Node(node) => {
            let (w, h) = (node.width, node.height);
            lemma_marks_within_region(*node.nw, w, h, shifted(shift, Quadrant::Nw.origin(w, h)));
            lemma_marks_within_region(*node.ne, w, h, shifted(shift, Quadrant::Ne.origin(w, h)));
            lemma_marks_within_region(*node.sw, w, h, shifted(shift, Quadrant::Sw.origin(w, h)));
            lemma_marks_within_region(*node.se, w, h, shifted(shift, Quadrant::Se.origin(w, h)));
        },
    }
}

/// An insertion marks nothing outside the part of the canvas that the tree
/// reaches from its origin.
pub proof fn lemma_insert_marks_within_reach(tree: Branch, p: (u32, u32), shift: (int, int))
    requires
        tree.well_formed(),
    ensures
        tree.insert_marks(p, shift).subset_of(rectangle(tree.reach().0, tree.reach().1, shift)),
    decreases tree,
{
    match tree {
        Branch::Leaf(leaf) => {
            if let Some(held) = leaf.data_point {
                lemma_split_marks_within_region(held, p, leaf.width, leaf.height, shift);
            }
        },
        Branch::Node(node) => {
            let quadrant = Quadrant::of(p, node.width, node.height);
            lemma_insert_marks_within_reach(
                node.child(quadrant),
                quadrant.localize(p, node.width, node.height),
                shifted(shift, quadrant.origin(node.width, node.height)),
            );
        },
    }
}

/// The node that dividing a leaf gives is well formed and fits the region
/// of the leaf.
pub proof fn lemma_split_well_formed(a: (u32, u32), b: (u32, u32), width: u32, height: u32)
    ensures
        Branch::Node(split(a, b, width, height)).well_formed(),
        Branch::Node(split(a, b, width, height)).fits(width, height),
    decreases width + height,
{
    let (w, h) = ((width / 2) as u32, (height / 2) as u32);
    reveal_with_fuel(Branch::well_formed, 2);
    if Quadrant::of(a, w, h) == Quadrant::of(b, w, h) && !(width == 0 && height == 0) {
        let quadrant = Quadrant::of(a, w, h);
        lemma_split_well_formed(quadrant.localize(a, w, h), quadrant.localize(b, w, h), w, h);
    }
}

/// Insertion keeps a tree well formed and fit for the region it stood for.
pub proof fn lemma_insert_well_formed(tree: Branch, p: (u32, u32), width: u32, height: u32)
    requires
        tree.well_formed(),
        tree.fits(width, height),
    ensures
        tree.spec_insert(p).well_formed(),
        tree.spec_insert(p).fits(width, height),
    decreases tree,
{
    match tree {
        Branch::Leaf(leaf) => {
            if let Some(held) = leaf.data_point {
                lemma_split_well_formed(held, p, leaf.width, leaf.height);
            }
        },
        Branch::Node(node) => {
            let quadrant = Quadrant::of(p, node.width, node.height);
            lemma_insert_well_formed(
                node.child(quadrant),
                quadrant.localize(p, node.width, node.height),
                node.width,
                node.height,
            );
        },
    }
}

/// The tree that grows from any sequence of points is well formed and fits
/// the region it was begun for.
pub proof fn lemma_grown_well_formed(points: Seq<(u32, u32)>, width: u32, height: u32)
    ensures
        grown(points, width, height).well_formed(),
        grown(points, width, height).fits(width, height),
    decreases points.len(),
{
    if points.len() > 0 {
        lemma_grown_well_formed(points.drop_last(), width, height);
        lemma_insert_well_formed(
            grown(points.drop_last(), width, height),
            points.last(),
            width,
            height,
        );
    }
}

/// Whatever points are inserted into a tree for a region, and wherever they
/// lie, rendering the tree marks nothing outside that region: on a canvas
/// of the extents of the region, every mark is a cell of the canvas.
pub proof fn lemma_grown_marks_within_region(
    points: Seq<(u32, u32)>,
    width: u32,
    height: u32,
    shift: (int, int),
)
    ensures
        grown(points, width, height).marks(width, height, shift).subset_of(
            rectangle(width as int, height as int, shift),
        ),
{
    lemma_grown_well_formed(points, width, height);
    lemma_marks_within_region(grown(points, width, height), width, height, shift);
}

/// Rendering the node that dividing a leaf gives marks the cells that the
/// division itself marked, and no others.
pub proof fn lemma_split_marks_are_rendered(
    a: (u32, u32),
    b: (u32, u32),
    width: u32,
    height: u32,
    shift: (int, int),
)
    ensures
        Branch::Node(split(a, b, width, height)).marks(width, height, shift) == split_marks(
            a,
            b,
            width,
            height,
            shift,
        ),
    decreases width + height,
{
    let (w, h) = ((width / 2) as u32, (height / 2) as u32);
    let quadrant = Quadrant::of(a, w, h);
    reveal_with_fuel(Branch::marks, 2);
    if quadrant == Quadrant::of(b, w, h) && !(width == 0 && height == 0) {
        lemma_split_marks_are_rendered(
            quadrant.localize(a, w, h),
            quadrant.localize(b, w, h),
            w,
            h,
            shifted(shift, quadrant.origin(w, h)),
        );
    }
    assert(Branch::Node(split(a, b, width, height)).marks(width, height, shift) =~= split_marks(
        a,
        b,
        width,
        height,
        shift,
    ));
}

/// Rendering a tree after an insertion marks what rendering it before the
/// insertion marked, together with what the insertion itself marked: the
/// lines drawn while the tree grows are those of the tree that results.
pub proof fn lemma_insert_marks_are_rendered(
    tree: Branch,
    p: (u32, u32),
    width: u32,
    height: u32,
    shift: (int, int),
)
    requires
        tree.well_formed(),
        tree.fits(width, height),
    ensures
        tree.spec_insert(p).marks(width, height, shift) == tree.marks(width, height, shift).union(
            tree.insert_marks(p, shift),
        ),
    decreases tree,
{
    match tree {
        Branch::Leaf(leaf) => {
            if let Some(held) = leaf.data_point {
                lemma_split_marks_are_rendered(held, p, leaf.width, leaf.height, shift);
            }
        },
        Branch::Node(node) => {
            let quadrant = Quadrant::of(p, node.width, node.height);
            lemma_insert_marks_are_rendered(
                node.child(quadrant),
                quadrant.localize(p, node.width, node.height),
                node.width,
                node.height,
                shifted(shift, quadrant.origin(node.width, node.height)),
            );
        },
    }
    assert(tree.spec_insert(p).marks(width, height, shift) =~= tree.marks(
        width,
        height,
        shift,
    ).union(tree.insert_marks(p, shift)));
}

/// Whether halving `n` again and again never leaves a remainder before it
/// reaches one: `n` is zero, one or a power of two.
pub open spec fn halves_evenly(n: u32) -> bool
    decreases n,
{
    n <= 1 || (n % 2 == 0 && halves_evenly((n / 2) as u32))
}

/// Two different points are parted by dividing, as long as in each
/// direction either both lie within the extent of the region or both have
/// the same coordinate, and each extent halves evenly.
proof fn lemma_confined_points_split_apart(a: (u32, u32), b: (u32, u32), width: u32, height: u32)
    requires
        a != b,
        halves_evenly(width),
        halves_evenly(height),
        (a.0 <= width && b.0 <= width) || a.0 == b.0,
        (a.1 <= height && b.1 <= height) || a.1 == b.1,
    ensures
        splits_apart(a, b, width, height),
    decreases width + height,
{
    let (w, h) = ((width / 2) as u32, (height / 2) as u32);
    let quadrant = Quadrant::of(a, w, h);
    if quadrant == Quadrant::of(b, w, h) && !(width == 0 && height == 0) {
        lemma_confined_points_split_apart(
            quadrant.localize(a, w, h),
            quadrant.localize(b, w, h),
            w,
            h,
        );
    }
}

/// Two different points of a region whose extents halve evenly are parted
/// by dividing the region: one of them can be inserted into a leaf that
/// holds the other.
pub proof fn lemma_distinct_points_split_apart(
    a: (u32, u32),
    b: (u32, u32),
    width: u32,
    height: u32,
)
    requires
        a != b,
        halves_evenly(width),
        halves_evenly(height),
        a.0 <= width && a.1 <= height,
        b.0 <= width && b.1 <= height,
    ensures
        splits_apart(a, b, width, height),
        Branch::Leaf(Leaf::holding(width, height, a)).accepts(b),
{
    lemma_confined_points_split_apart(a, b, width, height);
}

/// A point is never parted from itself: a leaf cannot take the point that
/// it already holds.
pub proof fn lemma_point_not_parted_from_itself(a: (u32, u32), width: u32, height: u32)
    ensures
        !splits_apart(a, a, width, height),
    decreases width + height,
{
    let (w, h) = ((width / 2) as u32, (height / 2) as u32);
    let quadrant = Quadrant::of(a, w, h);
    if !(width == 0 && height == 0) {
        lemma_point_not_parted_from_itself(quadrant.localize(a, w, h), w, h);
    }
}

/// The node that dividing a leaf gives for `held` and `a` takes a third
/// point that dividing parts from both.
proof fn lemma_split_accepts(
    held: (u32, u32),
    a: (u32, u32),
    p: (u32, u32),
    width: u32,
    height: u32,
)
    requires
        splits_apart(held, a, width, height),
        splits_apart(held, p, width, height),
        splits_apart(a, p, width, height),
    ensures
        Branch::Node(split(held, a, width, height)).accepts(p),
    decreases width + height,
{
    let (w, h) = ((width / 2) as u32, (height / 2) as u32);
    let quadrant = Quadrant::of(held, w, h);
    reveal_with_fuel(Branch::accepts, 2);
    if quadrant == Quadrant::of(a, w, h) && quadrant == Quadrant::of(p, w, h) {
        lemma_split_accepts(
            quadrant.localize(held, w, h),
            quadrant.localize(a, w, h),
            quadrant.localize(p, w, h),
            w,
            h,
        );
    }
}

/// A tree that takes `a` and `p` still takes `p` after the insertion of
/// `a`, provided that dividing the region of the tree parts the two.
pub proof fn lemma_insert_keeps_acceptance(
    tree: Branch,
    a: (u32, u32),
    p: (u32, u32),
    width: u32,
    height: u32,
)
    requires
        tree.well_formed(),
        tree.fits(width, height),
        tree.accepts(a),
        tree.accepts(p),
        splits_apart(a, p, width, height),
    ensures
        tree.spec_insert(a).accepts(p),
    decreases tree,
{
    match tree {
        Branch::Leaf(leaf) => {
            if let Some(held) = leaf.data_point {
                lemma_split_accepts(held, a, p, width, height);
            }
        },
        Branch::Node(node) => {
            let quadrant = Quadrant::of(a, node.width, node.height);
            if quadrant == Quadrant::of(p, node.width, node.height) {
                lemma_insert_keeps_acceptance(
                    node.child(quadrant),
                    quadrant.localize(a, node.width, node.height),
                    quadrant.localize(p, node.width, node.height),
                    node.width,
                    node.height,
                );
            }
        },
    }
}

/// Whether the points can be inserted one after the other into an empty
/// leaf of `width` by `height`: each is taken by the tree grown from those
/// before it.
pub open spec fn grows(points: Seq<(u32, u32)>, width: u32, height: u32) -> bool {
    forall|i: int|
        0 <= i < points.len() ==> #[trigger] grown(points.take(i), width, height).accepts(
            points[i],
        )
}

/// The tree grown from different points of a region whose extents halve
/// evenly takes any further point of the region that is none of them.
proof fn lemma_grown_accepts(points: Seq<(u32, u32)>, p: (u32, u32), width: u32, height: u32)
    requires
        halves_evenly(width),
        halves_evenly(height),
        p.0 <= width && p.1 <= height,
        forall|i: int|
            0 <= i < points.len() ==> (#[trigger] points[i]).0 <= width && points[i].1 <= height,
        forall|i: int| 0 <= i < points.len() ==> #[trigger] points[i] != p,
        forall|i: int, j: int| 0 <= i < j < points.len() ==> points[i] != points[j],
    ensures
        grown(points, width, height).accepts(p),
    decreases points.len(),
{
    if points.len() > 0 {
        let before = points.drop_last();
        lemma_grown_accepts(before, points.last(), width, height);
        lemma_grown_accepts(before, p, width, height);
        assert(points[points.len() - 1] != p);
        lemma_distinct_points_split_apart(points.last(), p, width, height);
        lemma_grown_well_formed(before, width, height);
        lemma_insert_keeps_acceptance(
            grown(before, width, height),
            points.last(),
            p,
            width,
            height,
        );
    }
}

/// Any sequence of different points of a region whose extents halve evenly
/// can be inserted, one point after the other, into an empty leaf for that
/// region.
pub proof fn lemma_distinct_points_grow(points: Seq<(u32, u32)>, width: u32, height: u32)
    requires
        halves_evenly(width),
        halves_evenly(height),
        forall|i: int|
            0 <= i < points.len() ==> (#[trigger] points[i]).0 <= width && points[i].1 <= height,
        forall|i: int, j: int| 0 <= i < j < points.len() ==> points[i] != points[j],
    ensures
        grows(points, width, height),
{
    assert forall|i: int| 0 <= i < points.len() implies #[trigger] grown(
        points.take(i),
        width,
        height,
    ).accepts(points[i]) by {
        lemma_grown_accepts(points.take(i), points[i], width, height);
    }
}

/// The node that dividing a leaf gives holds the two points, each at the
/// position it has in the frame of the leaf.
pub proof fn lemma_split_holds_both(a: (u32, u32), b: (u32, u32), width: u32, height: u32)
    requires
        splits_apart(a, b, width, height),
    ensures
        Branch::Node(split(a, b, width, height)).points() == set![cell(a), cell(b)],
    decreases width + height,
{
    let (w, h) = ((width / 2) as u32, (height / 2) as u32);
    let quadrant = Quadrant::of(a, w, h);
    reveal_with_fuel(Branch::points, 2);
    if quadrant == Quadrant::of(b, w, h) {
        lemma_split_holds_both(quadrant.localize(a, w, h), quadrant.localize(b, w, h), w, h);
    }
    assert(Branch::Node(split(a, b, width, height)).points() =~= set![cell(a), cell(b)]);
}

/// Insertion adds the point to those that the tree holds and moves none of
/// them: however deep a point is handed down, and through whatever frames,
/// its position in the frame of the tree stays what it was.
pub proof fn lemma_insert_adds_point(tree: Branch, p: (u32, u32))
    requires
        tree.accepts(p),
    ensures
        tree.spec_insert(p).points() == tree.points().insert(cell(p)),
    decreases tree,
{
    match tree {
        Branch::Leaf(leaf) => {
            if let Some(held) = leaf.data_point {
                lemma_split_holds_both(held, p, leaf.width, leaf.height);
            }
        },
        Branch::Node(node) => {
            let quadrant = Quadrant::of(p, node.width, node.height);
            lemma_insert_adds_point(
                node.child(quadrant),
                quadrant.localize(p, node.width, node.height),
            );
        },
    }
    assert(tree.spec_insert(p).points() =~= tree.points().insert(cell(p)));
}

/// Insertion only moves a region forward: an empty leaf becomes a leaf
/// with the point, a leaf with a point becomes a node, and a node stays a
/// node.
pub proof fn lemma_insert_only_advances(
    width: u32,
    height: u32,
    held: (u32, u32),
    node: QuadTree,
    p: (u32, u32),
)
    ensures
        Branch::Leaf(Leaf::empty(width, height)).spec_insert(p) == Branch::Leaf(
            Leaf::holding(width, height, p),
        ),
        Branch::Leaf(Leaf::holding(width, height, held)).spec_insert(p) is Node,
        Branch::Node(node).spec_insert(p) is Node,
{
}

/// A node that takes a point keeps its extents and three of its children:
/// only the child of the point's quadrant is replaced.
pub proof fn lemma_insert_keeps_the_other_children(node: QuadTree, p: (u32, u32))
    ensures
        node.spec_insert(p).width == node.width,
        node.spec_insert(p).height == node.height,
        forall|q: Quadrant|
            q != Quadrant::of(p, node.width, node.height) ==> #[trigger] node.spec_insert(p).child(
                q,
            ) == node.child(q),
{
}

/// The lines drawn for a region are the lines that its points are sorted
/// by, also where an extent is odd: the column and the row that are marked
/// run through the whole region, and a point of the region lies in the east
/// exactly if it lies right of that column, in the south exactly if it lies
/// below that row.
pub proof fn lemma_lines_bound_the_quadrants(
    p: (u32, u32),
    width: u32,
    height: u32,
    shift: (int, int),
)
    ensures
        ({
            let (w, h) = ((width / 2) as u32, (height / 2) as u32);
            let (column, row) = (shift.0 + w, shift.1 + h);
            let lines = cross(width as int, height as int, shift);
            &&& forall|y: int|
                width > 0 && shift.1 <= y < shift.1 + height ==> lines.contains((column, y))
            &&& forall|x: int|
                height > 0 && shift.0 <= x < shift.0 + width ==> lines.contains((x, row))
            &&& Quadrant::of(p, w, h).is_east() <==> shift.0 + p.0 > column
            &&& Quadrant::of(p, w, h).is_south() <==> shift.1 + p.1 > row
        }),
{
}

/// Whether dividing parts two points does not depend on which is named
/// first.
pub proof fn lemma_splits_apart_symmetric(a: (u32, u32), b: (u32, u32), width: u32, height: u32)
    ensures
        splits_apart(a, b, width, height) == splits_apart(b, a, width, height),
    decreases width + height,
{
    let (w, h) = ((width / 2) as u32, (height / 2) as u32);
    let quadrant = Quadrant::of(a, w, h);
    if quadrant == Quadrant::of(b, w, h) && !(width == 0 && height == 0) {
        lemma_splits_apart_symmetric(
            quadrant.localize(a, w, h),
            quadrant.localize(b, w, h),
            w,
            h,
        );
    }
}

/// The node that dividing a leaf gives does not depend on which of the two
/// points the leaf held and which arrived.
pub proof fn lemma_split_symmetric(a: (u32, u32), b: (u32, u32), width: u32, height: u32)
    requires
        splits_apart(a, b, width, height),
    ensures
        split(a, b, width, height) == split(b, a, width, height),
    decreases width + height,
{
    let (w, h) = ((width / 2) as u32, (height / 2) as u32);
    let quadrant = Quadrant::of(a, w, h);
    if quadrant == Quadrant::of(b, w, h) {
        lemma_split_symmetric(quadrant.localize(a, w, h), quadrant.localize(b, w, h), w, h);
    }
}

/// A leaf that holds `held` gives the same tree whether `a` arrives before
/// `b` or after it.
proof fn lemma_split_insertions_commute(
    held: (u32, u32),
    a: (u32, u32),
    b: (u32, u32),
    width: u32,
    height: u32,
)
    requires
        splits_apart(held, a, width, height),
        splits_apart(held, b, width, height),
        splits_apart(a, b, width, height),
    ensures
        split(held, a, width, height).spec_insert(b) == split(held, b, width, height).spec_insert(
            a,
        ),
    decreases width + height,
{
    let (w, h) = ((width / 2) as u32, (height / 2) as u32);
    let quadrant = Quadrant::of(held, w, h);
    let (qa, qb) = (Quadrant::of(a, w, h), Quadrant::of(b, w, h));
    reveal_with_fuel(Branch::spec_insert, 2);
    if qa == qb {
        lemma_split_symmetric(qa.localize(a, w, h), qa.localize(b, w, h), w, h);
        if quadrant == qa {
            lemma_split_insertions_commute(
                quadrant.localize(held, w, h),
                quadrant.localize(a, w, h),
                quadrant.localize(b, w, h),
                w,
                h,
            );
        }
    }
}

/// Two points that dividing parts can be inserted in either order: the
/// tree that results is the same.
pub proof fn lemma_insertions_commute(
    tree: Branch,
    a: (u32, u32),
    b: (u32, u32),
    width: u32,
    height: u32,
)
    requires
        tree.well_formed(),
        tree.fits(width, height),
        tree.accepts(a),
        tree.accepts(b),
        splits_apart(a, b, width, height),
    ensures
        tree.spec_insert(a).spec_insert(b) == tree.spec_insert(b).spec_insert(a),
    decreases tree,
{
    match tree {
        Branch::Leaf(leaf) => {
            match leaf.data_point {
                None => {
                    lemma_split_symmetric(a, b, width, height);
                },
                Some(held) => {
                    lemma_split_insertions_commute(held, a, b, width, height);
                },
            }
        },
        Branch::Node(node) => {
            let quadrant = Quadrant::of(a, node.width, node.height);
            if quadrant == Quadrant::of(b, node.width, node.height) {
                lemma_insertions_commute(
                    node.child(quadrant),
                    quadrant.localize(a, node.width, node.height),
                    quadrant.localize(b, node.width, node.height),
                    node.width,
                    node.height,
                );
            }
        },
    }
}

} // verus!
