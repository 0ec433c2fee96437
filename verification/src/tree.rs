//! The tree: leaves that hold at most one point, and nodes with four
//! children that take the place of a leaf when a second point arrives.

use vstd::prelude::*;
use crate::canvas::{cell, cross, painted, shifted, Canvas, BOUNDARY};
use crate::quadrant::Quadrant;

verus! {

/// A region that holds at most one point, given in the region's own frame.
#[derive(Clone, Copy, Debug, PartialEq, Eq)]
pub struct Leaf {
    pub width: u32,
    pub height: u32,
    pub data_point: Option<(u32, u32)>,
}

/// A region divided into four quadrants. `width` and `height` are the
/// extents of one quadrant, half those of the region itself.
#[derive(Debug, PartialEq, Eq)]
pub struct QuadTree {
    pub width: u32,
    pub height: u32,
    pub nw: Box<Branch>,
    pub ne: Box<Branch>,
    pub sw: Box<Branch>,
    pub se: Box<Branch>,
}

/// A tree or a part of one: a divided region or an undivided one.
#[derive(Debug, PartialEq, Eq)]
pub enum Branch {
    Node(QuadTree),
    Leaf(Leaf),
}

/// A set of cells moved by an offset.
pub open spec fn moved(cells: Set<(int, int)>, by: (int, int)) -> Set<(int, int)> {
    Set::new(|c: (int, int)| cells.contains((c.0 - by.0, c.1 - by.1)))
}

/// Whether dividing a region of `width` by `height` again and again ends
/// with `a` and `b` in different quadrants. Two points that fall into the
/// same quadrant at every step, down to a region without extent, cannot be
/// kept in different leaves.
pub open spec fn splits_apart(a: (u32, u32), b: (u32, u32), width: u32, height: u32) -> bool
    decreases width + height,
{
    let (w, h) = ((width / 2) as u32, (height / 2) as u32);
    let quadrant = Quadrant::of(a, w, h);
    if quadrant != Quadrant::of(b, w, h) {
        true
    } else if width == 0 && height == 0 {
        false
    } else {
        splits_apart(quadrant.localize(a, w, h), quadrant.localize(b, w, h), w, h)
    }
}

/// The node that takes the place of a leaf of `width` by `height` which
/// holds `a` when `b` arrives: each point lies in a leaf of the quadrant it
/// is sorted into, and where both are sorted into the same quadrant, that
/// quadrant is divided in the same way.
pub open spec fn split(a: (u32, u32), b: (u32, u32), width: u32, height: u32) -> QuadTree
    decreases width + height,
{
    let (w, h) = ((width / 2) as u32, (height / 2) as u32);
    let (qa, qb) = (Quadrant::of(a, w, h), Quadrant::of(b, w, h));
    let first = QuadTree::empty(w, h).with_child(
        qa,
        Branch::Leaf(Leaf::holding(w, h, qa.localize(a, w, h))),
    );
    if qa != qb {
        first.with_child(qb, Branch::Leaf(Leaf::holding(w, h, qb.localize(b, w, h))))
    } else if width == 0 && height == 0 {
        first
    } else {
        first.with_child(
            qa,
            Branch::Node(split(qa.localize(a, w, h), qa.localize(b, w, h), w, h)),
        )
    }
}

/// The cells marked while a leaf of `width` by `height` at `shift`, holding
/// `a`, is divided on the arrival of `b`: the cross of the leaf and, where
/// both points are sorted into the same quadrant, what dividing that
/// quadrant marks.
pub open spec fn split_marks(
    a: (u32, u32),
    b: (u32, u32),
    width: u32,
    height: u32,
    shift: (int, int),
) -> Set<(int, int)>
    decreases width + height,
{
    let (w, h) = ((width / 2) as u32, (height / 2) as u32);
    let quadrant = Quadrant::of(a, w, h);
    let own = cross(width as int, height as int, shift);
    if quadrant != Quadrant::of(b, w, h) || (width == 0 && height == 0) {
        own
    } else {
        own.union(
            split_marks(
                quadrant.localize(a, w, h),
                quadrant.localize(b, w, h),
                w,
                h,
                shifted(shift, quadrant.origin(w, h)),
            ),
        )
    }
}

/// The tree that grows from an empty leaf of `width` by `height` when the
/// points are inserted one after the other.
pub open spec fn grown(points: Seq<(u32, u32)>, width: u32, height: u32) -> Branch
    decreases points.len(),
{
    if points.len() == 0 {
        Branch::Leaf(Leaf::empty(width, height))
    } else {
        grown(points.drop_last(), width, height).spec_insert(points.last())
    }
}

/// Tells whether dividing a region of `width` by `height` parts `a` from
/// `b`, by dividing until it does or until nothing is left to divide.
pub fn points_split_apart(a: (u32, u32), b: (u32, u32), width: u32, height: u32) -> (parted: bool)
    ensures
        parted == splits_apart(a, b, width, height),
{
    let (mut first, mut second) = (a, b);
    let (mut w, mut h) = (width, height);
    loop
        invariant
            splits_apart(a, b, width, height) == splits_apart(first, second, w, h),
        decreases w + h,
    {
        let (split_width, split_height) = (w / 2, h / 2);
        let quadrant = Quadrant::check_quadrant(first, split_width, split_height);
        if quadrant != Quadrant::check_quadrant(second, split_width, split_height) {
            return true;
        }
        if w == 0 && h == 0 {
            return false;
        }
        first = quadrant.adjust(first, split_width, split_height);
        second = quadrant.adjust(second, split_width, split_height);
        w = split_width;
        h = split_height;
    }
}

impl Clone for QuadTree {
    /// A copy of the node and of everything below it.
    fn clone(&self) -> (copy: Self)
        ensures
            copy == *self,
        decreases self, 0nat,
    {
        QuadTree {
            width: self.width,
            height: self.height,
            nw: Box::new((&*self.nw).clone()),
            ne: Box::new((&*self.ne).clone()),
            sw: Box::new((&*self.sw).clone()),
            se: Box::new((&*self.se).clone()),
        }
    }
}

impl Clone for Branch {
    /// A copy of the tree.
    fn clone(&self) -> (copy: Self)
        ensures
            copy == *self,
        decreases self, 1nat,
    {
        match self {
            Branch::Leaf(leaf) => Branch::Leaf(*leaf),
            Branch::Node(node) => Branch::Node(node.clone()),
        }
    }
}

impl Leaf {
    /// The empty leaf of the given extents.
    pub open spec fn empty(width: u32, height: u32) -> Leaf {
        Leaf { width, height, data_point: None }
    }

    /// The leaf of the given extents that holds `p`.
    pub open spec fn holding(width: u32, height: u32, p: (u32, u32)) -> Leaf {
        Leaf { width, height, data_point: Some(p) }
    }

    /// An empty leaf for a region of `width` by `height`.
    pub fn new(width: u32, height: u32) -> (leaf: Leaf)
        ensures
            leaf == Leaf::empty(width, height),
    {
        Leaf { width, height, data_point: None }
    }

    /// Inserts a point given in the frame of the leaf, whose origin lies at
    /// `shift` on the canvas. An empty leaf takes the point. A leaf that
    /// holds one is replaced by a node with both points handed down, and the
    /// dividing lines of every region divided on the way are marked.
    pub fn insert(self, new_coord: (u32, u32), shift: (u32, u32), canvas: &mut Canvas) -> (branch:
        Branch)
        requires
            Branch::Leaf(self).accepts(new_coord),
            old(canvas).wf(),
            shift.0 + self.width <= old(canvas).width,
            shift.1 + self.height <= old(canvas).height,
        ensures
            branch == Branch::Leaf(self).spec_insert(new_coord),
            branch.well_formed(),
            branch.fits(self.width, self.height),
            final(canvas).wf(),
            final(canvas).width == old(canvas).width,
            final(canvas).height == old(canvas).height,
            final(canvas)@ == painted(
                old(canvas)@,
                Branch::Leaf(self).insert_marks(new_coord, cell(shift)),
                BOUNDARY,
            ),
        decreases Branch::Leaf(self).effort(new_coord), 0nat,
    {
        match self.data_point {
            None => {
                assert(canvas@ =~= painted(old(canvas)@, Set::empty(), BOUNDARY));
                Branch::Leaf(
                    Leaf { width: self.width, height: self.height, data_point: Some(new_coord) },
                )
            },
            Some(held) => {
                let split_width = self.width / 2;
                let split_height = self.height / 2;
                let node = QuadTree::new(split_width, split_height);
                canvas.mark_cross(self.width, self.height, shift);
                let ghost crossed = canvas@;
                proof {
                    reveal_with_fuel(Branch::accepts, 2);
                    reveal_with_fuel(Branch::effort, 2);
                    reveal_with_fuel(Branch::insert_marks, 2);
                    reveal_with_fuel(Branch::spec_insert, 2);
                }
                let first = node.insert(held, shift, canvas);
                assert(canvas@ =~= crossed);
                let second = first.insert(new_coord, shift, canvas);
                assert(canvas@ =~= painted(
                    old(canvas)@,
                    split_marks(held, new_coord, self.width, self.height, cell(shift)),
                    BOUNDARY,
                ));
                second
            },
        }
    }
}

impl QuadTree {
    /// The node whose four quadrants are empty leaves of the given extents.
    pub open spec fn empty(width: u32, height: u32) -> QuadTree {
        QuadTree {
            width,
            height,
            nw: Box::new(Branch::Leaf(Leaf::empty(width, height))),
            ne: Box::new(Branch::Leaf(Leaf::empty(width, height))),
            sw: Box::new(Branch::Leaf(Leaf::empty(width, height))),
            se: Box::new(Branch::Leaf(Leaf::empty(width, height))),
        }
    }

    /// The child that covers the given quadrant.
    pub open spec fn child(self, quadrant: Quadrant) -> Branch {
        match quadrant {
            Quadrant::Nw => *self.nw,
            Quadrant::Ne => *self.ne,
            Quadrant::Sw => *self.sw,
            Quadrant::Se => *self.se,
        }
    }

    /// The node with the child of the given quadrant replaced.
    pub open spec fn with_child(self, quadrant: Quadrant, child: Branch) -> QuadTree {
        match quadrant {
            Quadrant::Nw => QuadTree { nw: Box::new(child), ..self },
            Quadrant::Ne => QuadTree { ne: Box::new(child), ..self },
            Quadrant::Sw => QuadTree { sw: Box::new(child), ..self },
            Quadrant::Se => QuadTree { se: Box::new(child), ..self },
        }
    }

    /// The node after `p`, given in the node's frame, is handed down to the
    /// child of its quadrant.
    pub open spec fn spec_insert(self, p: (u32, u32)) -> QuadTree
        decreases self, 0nat,
    {
        let quadrant = Quadrant::of(p, self.width, self.height);
        self.with_child(
            quadrant,
            self.child(quadrant).spec_insert(quadrant.localize(p, self.width, self.height)),
        )
    }

    /// A node whose four quadrants are empty leaves of `width` by `height`.
    pub fn new(width: u32, height: u32) -> (node: QuadTree)
        ensures
            node == QuadTree::empty(width, height),
            Branch::Node(node).well_formed(),
    {
        proof {
            reveal_with_fuel(Branch::well_formed, 2);
        }
        QuadTree {
            width,
            height,
            nw: Box::new(Branch::Leaf(Leaf::new(width, height))),
            ne: Box::new(Branch::Leaf(Leaf::new(width, height))),
            sw: Box::new(Branch::Leaf(Leaf::new(width, height))),
            se: Box::new(Branch::Leaf(Leaf::new(width, height))),
        }
    }

    /// Inserts a point given in the frame of the node, whose origin lies at
    /// `shift` on the canvas: the point is sorted into a quadrant, expressed
    /// in that quadrant's frame and handed to its child, which is replaced by
    /// what the child returns. The other three children stay as they are.
    pub fn insert(self, data: (u32, u32), shift: (u32, u32), canvas: &mut Canvas) -> (branch:
        Branch)
        requires
            Branch::Node(self).well_formed(),
            Branch::Node(self).accepts(data),
            old(canvas).wf(),
            shift.0 + 2 * self.width <= old(canvas).width,
            shift.1 + 2 * self.height <= old(canvas).height,
        ensures
            branch == Branch::Node(self.spec_insert(data)),
            branch.well_formed(),
            forall|width: u32, height: u32|
                Branch::Node(self).fits(width, height) ==> branch.fits(width, height),
            final(canvas).wf(),
            final(canvas).width == old(canvas).width,
            final(canvas).height == old(canvas).height,
            final(canvas)@ == painted(
                old(canvas)@,
                Branch::Node(self).insert_marks(data, cell(shift)),
                BOUNDARY,
            ),
        decreases Branch::Node(self).effort(data), 0nat,
    {
        let quadrant = Quadrant::check_quadrant(data, self.width, self.height);
        let mut node = self;
        match quadrant {
            Quadrant::Nw => {
                let child = *node.nw;
                node.nw = Box::new(child.insert(data, shift, canvas));
            },
            Quadrant::Ne => {
                let adjusted_coord = (data.0 - node.width, data.1);
                let child = *node.ne;
                node.ne = Box::new(
                    child.insert(adjusted_coord, (shift.0 + node.width, shift.1), canvas),
                );
            },
            Quadrant::Sw => {
                let adjusted_coord = (data.0, data.1 - node.height);
                let child = *node.sw;
                node.sw = Box::new(
                    child.insert(adjusted_coord, (shift.0, shift.1 + node.height), canvas),
                );
            },
            Quadrant::Se => {
                let adjusted_coord = (data.0 - node.width, data.1 - node.height);
                let child = *node.se;
                node.se = Box::new(
                    child.insert(
                        adjusted_coord,
                        (shift.0 + node.width, shift.1 + node.height),
                        canvas,
                    ),
                );
            },
        }
        Branch::Node(node)
    }

    /// Marks the dividing lines of the node, which stands for a region of
    /// `width` by `height` with its origin at `shift`, and of every node
    /// below it.
    pub fn render(&self, width: u32, height: u32, shift: (u32, u32), canvas: &mut Canvas)
        requires
            Branch::Node(*self).well_formed(),
            Branch::Node(*self).fits(width, height),
            old(canvas).wf(),
            shift.0 + width <= old(canvas).width,
            shift.1 + height <= old(canvas).height,
        ensures
            final(canvas).wf(),
            final(canvas).width == old(canvas).width,
            final(canvas).height == old(canvas).height,
            final(canvas)@ == painted(
                old(canvas)@,
                Branch::Node(*self).marks(width, height, cell(shift)),
                BOUNDARY,
            ),
        decreases self, 0nat,
    {
        canvas.mark_cross(width, height, shift);
        self.nw.render(self.width, self.height, shift, canvas);
        self.ne.render(self.width, self.height, (shift.0 + self.width, shift.1), canvas);
        self.sw.render(self.width, self.height, (shift.0, shift.1 + self.height), canvas);
        self.se.render(
            self.width,
            self.height,
            (shift.0 + self.width, shift.1 + self.height),
            canvas,
        );
        assert(canvas@ =~= painted(
            old(canvas)@,
            Branch::Node(*self).marks(width, height, cell(shift)),
            BOUNDARY,
        ));
    }
}

impl Branch {
    /// Whether the tree can stand for a region of `width` by `height`: a
    /// leaf has these extents, and the quadrants of a node have half of them.
    pub open spec fn fits(self, width: u32, height: u32) -> bool {
        match self {
            Branch::Leaf(leaf) => leaf.width == width && leaf.height == height,
            Branch::Node(node) => node.width == width / 2 && node.height == height / 2,
        }
    }

    /// Whether every child in the tree fits the quadrant it stands for.
    pub open spec fn well_formed(self) -> bool
        decreases self,
    {
        match self {
            Branch::Leaf(_) => true,
            Branch::Node(node) => {
                &&& node.nw.fits(node.width, node.height) && node.nw.well_formed()
                &&& node.ne.fits(node.width, node.height) && node.ne.well_formed()
                &&& node.sw.fits(node.width, node.height) && node.sw.well_formed()
                &&& node.se.fits(node.width, node.height) && node.se.well_formed()
            },
        }
    }

    /// The tree after the insertion of `p`, given in the frame of the tree.
    pub open spec fn spec_insert(self, p: (u32, u32)) -> Branch
        decreases self, 1nat,
    {
        match self {
            Branch::Leaf(leaf) => match leaf.data_point {
                None => Branch::Leaf(Leaf::holding(leaf.width, leaf.height, p)),
                Some(held) => Branch::Node(split(held, p, leaf.width, leaf.height)),
            },
            Branch::Node(node) => Branch::Node(node.spec_insert(p)),
        }
    }

    /// The extent, from its origin, of the part of the canvas that the tree
    /// and whatever grows below it can draw on.
    pub open spec fn reach(self) -> (int, int) {
        match self {
            Branch::Leaf(leaf) => (leaf.width as int, leaf.height as int),
            Branch::Node(node) => (2 * node.width, 2 * node.height),
        }
    }

    /// Whether `p`, given in the frame of the tree, can be inserted: the
    /// leaf that it is handed down to is empty, or holds a point that
    /// dividing the leaf parts from `p`.
    pub open spec fn accepts(self, p: (u32, u32)) -> bool
        decreases self,
    {
        match self {
            Branch::Leaf(leaf) => match leaf.data_point {
                None => true,
                Some(held) => splits_apart(held, p, leaf.width, leaf.height),
            },
            Branch::Node(node) => {
                let quadrant = Quadrant::of(p, node.width, node.height);
                node.child(quadrant).accepts(quadrant.localize(p, node.width, node.height))
            },
        }
    }

    /// A bound on the work of inserting `p`, by which insertion ends.
    pub open spec fn effort(self, p: (u32, u32)) -> nat
        decreases self,
    {
        match self {
            Branch::Leaf(leaf) => match leaf.data_point {
                None => 0,
                Some(_) => (2 * (leaf.width + leaf.height) + 2) as nat,
            },
            Branch::Node(node) => {
                let quadrant = Quadrant::of(p, node.width, node.height);
                1 + node.child(quadrant).effort(quadrant.localize(p, node.width, node.height))
            },
        }
    }

    /// The cells that the insertion of `p` marks on the canvas, for a tree
    /// whose origin lies at `shift`.
    pub open spec fn insert_marks(self, p: (u32, u32), shift: (int, int)) -> Set<(int, int)>
        decreases self,
    {
        match self {
            Branch::Leaf(leaf) => match leaf.data_point {
                None => Set::empty(),
                Some(held) => split_marks(held, p, leaf.width, leaf.height, shift),
            },
            Branch::Node(node) => {
                let quadrant = Quadrant::of(p, node.width, node.height);
                node.child(quadrant).insert_marks(
                    quadrant.localize(p, node.width, node.height),
                    shifted(shift, quadrant.origin(node.width, node.height)),
                )
            },
        }
    }

    /// Tells whether `p`, given in the frame of the tree, can be inserted.
    pub fn can_insert(&self, p: (u32, u32)) -> (accepted: bool)
        ensures
            accepted == self.accepts(p),
        decreases self,
    {
        match self {
            Branch::Leaf(leaf) => match leaf.data_point {
                None => true,
                Some(held) => points_split_apart(held, p, leaf.width, leaf.height),
            },
            Branch::Node(node) => {
                let quadrant = Quadrant::check_quadrant(p, node.width, node.height);
                let local = quadrant.adjust(p, node.width, node.height);
                match quadrant {
                    Quadrant::Nw => node.nw.can_insert(local),
                    Quadrant::Ne => node.ne.can_insert(local),
                    Quadrant::Sw => node.sw.can_insert(local),
                    Quadrant::Se => node.se.can_insert(local),
                }
            },
        }
    }

    /// Inserts a point given in the frame of the tree, whose origin lies at
    /// `shift` on the canvas, and returns the tree that takes its place.
    pub fn insert(self, data: (u32, u32), shift: (u32, u32), canvas: &mut Canvas) -> (branch:
        Branch)
        requires
            self.well_formed(),
            self.accepts(data),
            old(canvas).wf(),
            shift.0 + self.reach().0 <= old(canvas).width,
            shift.1 + self.reach().1 <= old(canvas).height,
        ensures
            branch == self.spec_insert(data),
            branch.well_formed(),
            forall|width: u32, height: u32| self.fits(width, height) ==> branch.fits(width, height),
            final(canvas).wf(),
            final(canvas).width == old(canvas).width,
            final(canvas).height == old(canvas).height,
            final(canvas)@ == painted(
                old(canvas)@,
                self.insert_marks(data, cell(shift)),
                BOUNDARY,
            ),
        decreases self.effort(data), 1nat,
    {
        match self {
            Branch::Leaf(leaf) => leaf.insert(data, shift, canvas),
            Branch::Node(node) => node.insert(data, shift, canvas),
        }
    }

    /// The points that the tree holds, each at its position in the frame of
    /// the tree: a point of a child lies at its own position moved by the
    /// origin of the child's quadrant.
    pub open spec fn points(self) -> Set<(int, int)>
        decreases self,
    {
        match self {
            Branch::Leaf(leaf) => match leaf.data_point {
                None => Set::empty(),
                Some(held) => set![cell(held)],
            },
            Branch::Node(node) => {
                let (w, h) = (node.width, node.height);
                moved(node.nw.points(), Quadrant::Nw.origin(w, h)).union(
                    moved(node.ne.points(), Quadrant::Ne.origin(w, h)),
                ).union(moved(node.sw.points(), Quadrant::Sw.origin(w, h))).union(
                    moved(node.se.points(), Quadrant::Se.origin(w, h)),
                )
            },
        }
    }

    /// The cells on the dividing lines of every node in the tree, which
    /// stands for a region of `width` by `height` with its origin at `shift`.
    pub open spec fn marks(self, width: u32, height: u32, shift: (int, int)) -> Set<(int, int)>
        decreases self,
    {
        match self {
            Branch::Leaf(_) => Set::empty(),
            Branch::Node(node) => {
                let (w, h) = (node.width, node.height);
                cross(width as int, height as int, shift).union(
                    node.nw.marks(w, h, shifted(shift, Quadrant::Nw.origin(w, h))),
                ).union(node.ne.marks(w, h, shifted(shift, Quadrant::Ne.origin(w, h)))).union(
                    node.sw.marks(w, h, shifted(shift, Quadrant::Sw.origin(w, h))),
                ).union(node.se.marks(w, h, shifted(shift, Quadrant::Se.origin(w, h))))
            },
        }
    }

    /// Marks the dividing lines of every node in the tree, which stands for
    /// a region of `width` by `height` with its origin at `shift`. A leaf has
    /// no dividing lines, so nothing is drawn for it.
    pub fn render(&self, width: u32, height: u32, shift: (u32, u32), canvas: &mut Canvas)
        requires
            self.well_formed(),
            self.fits(width, height),
            old(canvas).wf(),
            shift.0 + width <= old(canvas).width,
            shift.1 + height <= old(canvas).height,
        ensures
            final(canvas).wf(),
            final(canvas).width == old(canvas).width,
            final(canvas).height == old(canvas).height,
            final(canvas)@ == painted(
                old(canvas)@,
                self.marks(width, height, cell(shift)),
                BOUNDARY,
            ),
        decreases self, 1nat,
    {
        match self {
            Branch::Leaf(_) => {
                assert(canvas@ =~= painted(old(canvas)@, Set::empty(), BOUNDARY));
            },
            Branch::Node(node) => node.render(width, height, shift, canvas),
        }
    }
}

} // verus!
