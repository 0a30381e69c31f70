//! The layout tree: window nodes, handles, the scale resolver, the three
//! anchor-insertion operations, the two corner-resolution algorithms, and
//! the removal protocol.

use vstd::prelude::*;

use vstd::arithmetic::div_mod::lemma_div_is_ordered;
use vstd::arithmetic::div_mod::lemma_div_multiples_vanish;
use vstd::arithmetic::mul::lemma_mul_inequality;

use vstd::rwlock::RwLock;
use vstd::rwlock::RwLockPredicate;
use vstd::rwlock::ReadHandle;
use vstd::rwlock::WriteHandle;

use crate::utils::Coord;

verus! {

/// A 2D `(x, y)` value, used both as a size and as a position.
#[derive(Clone, Copy, PartialEq, Eq, Structural, Debug)]
pub struct Extent {
    pub x: u32,
    pub y: u32,
}

/// The error taxonomy of the layout engine.
///
/// Only `InvalidArgument` and `OutOfBounds` are returned by the verified
/// operations: `NotFound` is surfaced as an empty `Option` by the lookup,
/// and the conditions behind `InvariantViolation` (a tree whose structure
/// has decayed) are proved unreachable, so neither value is ever
/// constructed here.
#[derive(Clone, Copy, PartialEq, Eq, Structural, Debug)]
pub enum WindowError {
    /// A percentage outside `[0, 100]` was supplied.
    InvalidArgument,
    /// A requested child placement violates the strict-containment policy.
    OutOfBounds,
    /// A lookup named a child that does not exist.
    NotFound,
    /// The tree was found in an inconsistent state.
    InvariantViolation,
}

/// A scalar in `[0, 100]`, used for relative sizing.
#[derive(Clone, Copy, Debug)]
pub struct Percentage {
    value: u32,
}

impl View for Percentage {
    type V = u32;

    closed spec fn view(&self) -> u32 {
        self.value
    }
}

impl Percentage {
    #[verifier::type_invariant]
    spec fn inv(self) -> bool {
        self.value <= 100
    }
}

/// Builds a validated [`Percentage`].  Values above 100 are rejected with
/// [`WindowError::InvalidArgument`].
pub fn perc(value: u32) -> (r: Result<Percentage, WindowError>)
    ensures
        match r {
            Ok(p) => value <= 100 && p@ == value,
            Err(e) => value > 100 && e == WindowError::InvalidArgument,
        },
{
    if value <= 100 {
        Ok(Percentage { value })
    } else {
        Err(WindowError::InvalidArgument)
    }
}

/// One axis of a percentage resolution: `v * p / 100`, in exact integer
/// arithmetic.
pub open spec fn scale_axis(v: u32, p: u32) -> int {
    (v as int) * (p as int) / 100
}

/// A scale specification: something that resolves to an absolute extent
/// given a reference extent.
pub trait ScaleInto<T> {
    /// The resolved value, as a specification-level function.
    spec fn scale_spec(self, reference: T) -> T;

    /// Resolves `self` against `reference`.
    fn scale_into(self, reference: T) -> (r: T)
        ensures
            r == self.scale_spec(reference),
    ;
}

/// Resolves one axis as `v * p / 100`, with the proof that the result
/// fits back into the axis type because `p <= 100`.
fn scale_axis_exec(v: u32, p: u32) -> (r: u32)
    requires
        p <= 100,
    ensures
        r == scale_axis(v, p),
        r <= v,
{
    proof {
        lemma_scale_axis_le(v, p);
    }
    ((v as u64 * p as u64) / 100) as u32
}

/// A resolved axis never exceeds the reference axis.
proof fn lemma_scale_axis_le(v: u32, p: u32)
    requires
        p <= 100,
    ensures
        0 <= scale_axis(v, p) <= v,
{
    lemma_mul_inequality(p as int, 100, v as int);
    lemma_div_is_ordered((v as int) * (p as int), (v as int) * 100, 100);
    lemma_div_multiples_vanish(v as int, 100);
    assert((v as int) * (p as int) >= 0) by (nonlinear_arith)
        requires
            v >= 0,
            p >= 0,
    ;
}

impl ScaleInto<Extent> for Percentage {
    /// A single percentage scales both axes uniformly.
    open spec fn scale_spec(self, reference: Extent) -> Extent {
        Extent {
            x: scale_axis(reference.x, self@) as u32,
            y: scale_axis(reference.y, self@) as u32,
        }
    }

    fn scale_into(self, reference: Extent) -> (r: Extent)
        ensures
            r == self.scale_spec(reference),
    {
        proof {
            use_type_invariant(self);
        }
        Extent { x: scale_axis_exec(reference.x, self.value), y: scale_axis_exec(
            reference.y,
            self.value,
        ) }
    }
}

impl ScaleInto<Extent> for (Percentage, Percentage) {
    /// A pair of percentages scales each axis independently.
    open spec fn scale_spec(self, reference: Extent) -> Extent {
        Extent {
            x: scale_axis(reference.x, self.0@) as u32,
            y: scale_axis(reference.y, self.1@) as u32,
        }
    }

    fn scale_into(self, reference: Extent) -> (r: Extent)
        ensures
            r == self.scale_spec(reference),
    {
        proof {
            use_type_invariant(self.0);
            use_type_invariant(self.1);
        }
        Extent { x: scale_axis_exec(reference.x, self.0.value), y: scale_axis_exec(
            reference.y,
            self.1.value,
        ) }
    }
}

impl ScaleInto<Extent> for Extent {
    /// An already-absolute extent resolves to itself.
    open spec fn scale_spec(self, reference: Extent) -> Extent {
        self
    }

    fn scale_into(self, reference: Extent) -> (r: Extent)
        ensures
            r == self.scale_spec(reference),
    {
        self
    }
}

/// One region of the layout tree.
///
/// `tl` and `br` are the local bounds: offsets within the parent whose
/// difference is the node's own size.  `depth` caches the distance to the
/// root and orders every walk up the ancestor chain.  A removed node keeps
/// its slot with `live` cleared, so handles stay stable indices.
struct Node {
    name: String,
    tl: Extent,
    br: Extent,
    parent: Option<usize>,
    depth: usize,
    live: bool,
}

/// A handle to one window node: a stable index into the tree's node
/// arena.  Handles are freely copyable aliases; the tree's contracts say
/// which handles a given operation accepts.
#[derive(Clone, Copy, PartialEq, Eq, Structural, Debug)]
pub struct WindowId {
    i: usize,
}

/// The layout tree.
///
/// Nodes live in an arena and refer to each other by index, so a parent
/// never owns its children through pointers and back-references cannot
/// form cycles.  The root sits at the first slot, has no parent, and its
/// top-left offset is pinned to `(0, 0)`.
pub struct Window {
    nodes: Vec<Node>,
}

impl Window {
    spec fn node_at(self, i: int) -> Node {
        self.nodes@[i]
    }

    spec fn len_n(self) -> int {
        self.nodes@.len() as int
    }

    /// Structural soundness of one slot: the root is the unique
    /// parentless node and starts at the origin; every other node names
    /// an existing parent one level up and fits inside that parent's
    /// extent (top-left offsets never past the bottom-right ones, and the
    /// bottom-right offset never past the parent's own size).
    spec fn wf_node(self, i: int) -> bool {
        &&& match self.node_at(i).parent {
            None => {
                &&& i == 0
                &&& self.node_at(i).tl == (Extent { x: 0, y: 0 })
                &&& self.node_at(i).depth == 0
            },
            Some(p) => {
                &&& 0 <= (p as int) && (p as int) < self.len_n()
                &&& self.node_at(i).depth == self.node_at(p as int).depth + 1
                &&& self.node_at(i).tl.x <= self.node_at(i).br.x
                &&& self.node_at(i).tl.y <= self.node_at(i).br.y
                &&& self.node_at(i).br.x <= self.node_at(p as int).br.x - self.node_at(
                    p as int,
                ).tl.x
                &&& self.node_at(i).br.y <= self.node_at(p as int).br.y - self.node_at(
                    p as int,
                ).tl.y
            },
        }
        &&& self.node_at(i).depth < self.len_n()
    }

    /// Two distinct live siblings never share a name; this predicate
    /// names the forbidden situation.
    spec fn sib_match(self, i: int, j: int) -> bool {
        &&& self.node_at(i).live
        &&& self.node_at(j).live
        &&& self.node_at(i).parent is Some
        &&& self.node_at(i).parent == self.node_at(j).parent
        &&& self.node_at(i).name@ == self.node_at(j).name@
    }

    /// Well-formedness of the whole tree.
    pub closed spec fn wf(self) -> bool {
        &&& self.len_n() >= 1
        &&& forall|i: int| 0 <= i < self.len_n() ==> #[trigger] self.wf_node(i)
        &&& forall|i: int, j: int|
            0 <= i < self.len_n() && 0 <= j < self.len_n() && #[trigger] self.sib_match(i, j)
                ==> i == j
    }

    /// The handle names a slot of the arena.
    pub closed spec fn in_range(self, id: WindowId) -> bool {
        id.i < self.len_n()
    }

    /// The slot the handle names has not been removed.
    pub closed spec fn is_live(self, id: WindowId) -> bool {
        self.node_at(id.i as int).live
    }

    /// The handle names a slot that has not been removed.
    pub open spec fn valid(self, id: WindowId) -> bool {
        self.in_range(id) && self.is_live(id)
    }

    spec fn rooted_at(self, i: int) -> bool
        decreases self.node_at(i).depth,
        when self.wf() && 0 <= i < self.len_n()
    {
        &&& self.node_at(i).live
        &&& match self.node_at(i).parent {
            None => true,
            Some(p) => {
                proof {
                    assert(self.wf_node(i));
                }
                self.rooted_at(p as int)
            },
        }
    }

    /// The handle's whole ancestor chain is still linked: neither the
    /// node nor any ancestor has been removed.  Absolute geometry is
    /// meaningful exactly for such handles.
    pub closed spec fn rooted(self, id: WindowId) -> bool {
        self.in_range(id) && self.rooted_at(id.i as int)
    }

    /// The node's parent handle, if it has one.
    pub closed spec fn parent_of(self, id: WindowId) -> Option<WindowId> {
        match self.node_at(id.i as int).parent {
            None => None,
            Some(p) => Some(WindowId { i: p }),
        }
    }

    /// The node's name.  The root's name is empty.
    pub closed spec fn name_of(self, id: WindowId) -> Seq<char> {
        self.node_at(id.i as int).name@
    }

    /// The node's distance from the root.
    pub closed spec fn depth_of(self, id: WindowId) -> int {
        self.node_at(id.i as int).depth as int
    }

    /// The node's local top-left offset within its parent.
    pub closed spec fn local_tl(self, id: WindowId) -> Extent {
        self.node_at(id.i as int).tl
    }

    /// The node's local bottom-right offset within its parent.
    pub closed spec fn local_br(self, id: WindowId) -> Extent {
        self.node_at(id.i as int).br
    }

    /// The node's own size: the difference of its local bounds.
    pub open spec fn local_size(self, id: WindowId) -> Extent {
        Extent {
            x: (self.local_br(id).x - self.local_tl(id).x) as u32,
            y: (self.local_br(id).y - self.local_tl(id).y) as u32,
        }
    }

    /// The handle of the root region.
    pub closed spec fn root_id_spec(self) -> WindowId {
        WindowId { i: 0 }
    }

    /// The fixed extent the whole tree was built with.
    pub closed spec fn root_extent(self) -> Extent {
        self.node_at(0).br
    }

    /// Absolute top-left corner, in the root's coordinate frame: the sum
    /// of the local top-left offsets down the ancestor chain.
    spec fn abs_tl_at(self, i: int) -> (int, int)
        decreases self.node_at(i).depth,
        when self.wf() && 0 <= i < self.len_n()
    {
        match self.node_at(i).parent {
            None => (self.node_at(i).tl.x as int, self.node_at(i).tl.y as int),
            Some(p) => {
                proof {
                    assert(self.wf_node(i));
                }
                let (px, py) = self.abs_tl_at(p as int);
                (px + self.node_at(i).tl.x, py + self.node_at(i).tl.y)
            },
        }
    }

    /// Absolute bottom-right corner, in the root's coordinate frame.
    spec fn abs_br_at(self, i: int) -> (int, int) {
        match self.node_at(i).parent {
            None => (self.node_at(i).br.x as int, self.node_at(i).br.y as int),
            Some(p) => {
                let (px, py) = self.abs_tl_at(p as int);
                (px + self.node_at(i).br.x, py + self.node_at(i).br.y)
            },
        }
    }

    /// Absolute top-left corner of the node, as `corners` reports it.
    pub closed spec fn abs_tl(self, id: WindowId) -> (int, int) {
        self.abs_tl_at(id.i as int)
    }

    /// Absolute bottom-right corner of the node, as `corners` reports it.
    pub closed spec fn abs_br(self, id: WindowId) -> (int, int) {
        self.abs_br_at(id.i as int)
    }

    /// Every absolute corner lies inside the root's extent, and the
    /// difference of a node's absolute corners is its local size.
    proof fn lemma_abs_in_root(self, i: int)
        requires
            self.wf(),
            0 <= i < self.len_n(),
        ensures
            ({
                let (tx, ty) = self.abs_tl_at(i);
                let (bx, by) = self.abs_br_at(i);
                &&& 0 <= tx
                &&& 0 <= ty
                &&& bx - tx == self.node_at(i).br.x - self.node_at(i).tl.x
                &&& by - ty == self.node_at(i).br.y - self.node_at(i).tl.y
                &&& tx <= bx
                &&& ty <= by
                &&& bx <= self.node_at(0).br.x
                &&& by <= self.node_at(0).br.y
            }),
        decreases self.node_at(i).depth,
    {
        assert(self.wf_node(i));
        match self.node_at(i).parent {
            None => {},
            Some(p) => {
                self.lemma_abs_in_root(p as int);
            },
        }
    }

    /// Builds the root region with a fixed extent.  The root is its own
    /// whole coordinate frame: its top-left corner is the origin.
    pub fn root(size: Extent) -> (w: Window)
        ensures
            w.wf(),
            w.valid(w.root_id_spec()),
            w.rooted(w.root_id_spec()),
            w.parent_of(w.root_id_spec()) is None,
            w.local_tl(w.root_id_spec()) == (Extent { x: 0, y: 0 }),
            w.local_br(w.root_id_spec()) == size,
            w.root_extent() == size,
            w.depth_of(w.root_id_spec()) == 0,
            w.name_of(w.root_id_spec()) == Seq::<char>::empty(),
            forall|o: WindowId| w.in_range(o) ==> o == w.root_id_spec(),
    {
        let mut nodes: Vec<Node> = Vec::new();
        nodes.push(
            Node {
                name: String::new(),
                tl: Extent { x: 0, y: 0 },
                br: size,
                parent: None,
                depth: 0,
                live: true,
            },
        );
        let w = Window { nodes };
        proof {
            assert forall|i: int| 0 <= i < w.len_n() implies #[trigger] w.wf_node(i) by {}
        }
        w
    }

    /// The handle of the root region.
    pub fn root_id(&self) -> (id: WindowId)
        ensures
            id == self.root_id_spec(),
    {
        WindowId { i: 0 }
    }

    /// The node's own size.
    pub fn size(&self, id: WindowId) -> (s: Extent)
        requires
            self.wf(),
            self.valid(id),
        ensures
            s == self.local_size(id),
    {
        proof {
            assert(self.wf_node(id.i as int));
        }
        let node = &self.nodes[id.i];
        Extent { x: node.br.x - node.tl.x, y: node.br.y - node.tl.y }
    }

    /// Absolute corners of the node, in the root's coordinate frame.
    ///
    /// The root reports its stored bounds verbatim; a child adds its
    /// local bounds to the parent's absolute top-left corner.
    pub fn corners(&self, id: WindowId) -> (r: (Extent, Extent))
        requires
            self.wf(),
            self.rooted(id),
        ensures
            r.0.x == self.abs_tl(id).0,
            r.0.y == self.abs_tl(id).1,
            r.1.x == self.abs_br(id).0,
            r.1.y == self.abs_br(id).1,
        decreases self.depth_of(id),
    {
        proof {
            assert(self.wf_node(id.i as int));
            self.lemma_abs_in_root(id.i as int);
        }
        let node = &self.nodes[id.i];
        match node.parent {
            None => (node.tl, node.br),
            Some(p) => {
                let pid = WindowId { i: p };
                proof {
                    self.lemma_abs_in_root(p as int);
                }
                let (ptl, _pbr) = self.corners(pid);
                (
                    Extent { x: ptl.x + node.tl.x, y: ptl.y + node.tl.y },
                    Extent { x: ptl.x + node.br.x, y: ptl.y + node.br.y },
                )
            },
        }
    }
    /// Accumulated distance from each ancestor's far edge, the second
    /// component of `corners_offset`: the root contributes nothing, and
    /// each link adds the gap between the child's local bottom-right
    /// offset and its parent's extent.
    spec fn off_br_at(self, i: int) -> (int, int)
        decreases self.node_at(i).depth,
        when self.wf() && 0 <= i < self.len_n()
    {
        match self.node_at(i).parent {
            None => (0, 0),
            Some(p) => {
                proof {
                    assert(self.wf_node(i));
                }
                let (px, py) = self.off_br_at(p as int);
                (
                    px + (self.node_at(p as int).br.x - self.node_at(p as int).tl.x
                        - self.node_at(i).br.x),
                    py + (self.node_at(p as int).br.y - self.node_at(p as int).tl.y
                        - self.node_at(i).br.y),
                )
            },
        }
    }

    /// The far-edge distance pair of the node, as `corners_offset`
    /// reports it in its second component.
    pub closed spec fn off_br(self, id: WindowId) -> (int, int) {
        self.off_br_at(id.i as int)
    }

    /// The far-edge distance of a node is exactly the root's extent
    /// minus the node's absolute bottom-right corner.
    proof fn lemma_off_complement(self, i: int)
        requires
            self.wf(),
            0 <= i < self.len_n(),
        ensures
            self.off_br_at(i).0 == self.node_at(0).br.x - self.abs_br_at(i).0,
            self.off_br_at(i).1 == self.node_at(0).br.y - self.abs_br_at(i).1,
        decreases self.node_at(i).depth,
    {
        assert(self.wf_node(i));
        match self.node_at(i).parent {
            None => {},
            Some(p) => {
                self.lemma_off_complement(p as int);
                self.lemma_abs_in_root(p as int);
            },
        }
    }

    /// Corner-offset resolution: the absolute top-left corner paired
    /// with the accumulated distance from each ancestor's far edge.
    ///
    /// The root reports `(own_top_left, (0, 0))`; a child adds its local
    /// top-left offset to the parent's first component, and the gap to
    /// its parent's far edge to the second.
    pub fn corners_offset(&self, id: WindowId) -> (r: (Extent, Extent))
        requires
            self.wf(),
            self.rooted(id),
        ensures
            r.0.x == self.abs_tl(id).0,
            r.0.y == self.abs_tl(id).1,
            r.1.x == self.off_br(id).0,
            r.1.y == self.off_br(id).1,
        decreases self.depth_of(id),
    {
        proof {
            assert(self.wf_node(id.i as int));
            self.lemma_abs_in_root(id.i as int);
            self.lemma_off_complement(id.i as int);
        }
        let node = &self.nodes[id.i];
        match node.parent {
            None => (node.tl, Extent { x: 0, y: 0 }),
            Some(p) => {
                let pid = WindowId { i: p };
                proof {
                    self.lemma_abs_in_root(p as int);
                    self.lemma_off_complement(p as int);
                }
                let (ptl, pbr) = self.corners_offset(pid);
                let pnode = &self.nodes[p];
                (
                    Extent { x: ptl.x + node.tl.x, y: ptl.y + node.tl.y },
                    Extent {
                        x: pbr.x + ((pnode.br.x - pnode.tl.x) - node.br.x),
                        y: pbr.y + ((pnode.br.y - pnode.tl.y) - node.br.y),
                    },
                )
            },
        }
    }

    /// Whether the point lies within the node's absolute bounds,
    /// inclusive on both axes.
    pub fn contains(&self, id: WindowId, coord: impl Coord<u32>) -> (r: bool)
        requires
            self.wf(),
            self.rooted(id),
        ensures
            r == {
                let (tx, ty) = self.abs_tl(id);
                let (bx, by) = self.abs_br(id);
                &&& tx <= coord.spec_x()
                &&& coord.spec_x() <= bx
                &&& ty <= coord.spec_y()
                &&& coord.spec_y() <= by
            },
    {
        let x = coord.x();
        let y = coord.y();
        let (tl, br) = self.corners(id);
        x >= tl.x && x <= br.x && y >= tl.y && y <= br.y
    }

    /// The absolute corners flattened to
    /// `(top_left.x, top_left.y, bottom_right.x, bottom_right.y)`.
    pub fn coords(&self, id: WindowId) -> (r: (u32, u32, u32, u32))
        requires
            self.wf(),
            self.rooted(id),
        ensures
            r.0 == self.abs_tl(id).0,
            r.1 == self.abs_tl(id).1,
            r.2 == self.abs_br(id).0,
            r.3 == self.abs_br(id).1,
    {
        let (tl, br) = self.corners(id);
        (tl.x, tl.y, br.x, br.y)
    }

    /// The absolute position and own size of the node, flattened to
    /// `(x, y, width, height)`.
    pub fn xywh(&self, id: WindowId) -> (r: (u32, u32, u32, u32))
        requires
            self.wf(),
            self.rooted(id),
        ensures
            r.0 == self.abs_tl(id).0,
            r.1 == self.abs_tl(id).1,
            r.2 == self.local_size(id).x,
            r.3 == self.local_size(id).y,
    {
        proof {
            self.lemma_abs_in_root(id.i as int);
        }
        let (tl, br) = self.corners(id);
        (tl.x, tl.y, br.x - tl.x, br.y - tl.y)
    }

    /// The absolute corners of `corners`, as `Extent` values.
    pub open spec fn abs_tl_ext(self, id: WindowId) -> Extent {
        Extent { x: self.abs_tl(id).0 as u32, y: self.abs_tl(id).1 as u32 }
    }

    /// The absolute bottom-right corner of `corners`, as an `Extent`.
    pub open spec fn abs_br_ext(self, id: WindowId) -> Extent {
        Extent { x: self.abs_br(id).0 as u32, y: self.abs_br(id).1 as u32 }
    }

    /// The far-edge distance pair of `corners_offset`, as an `Extent`.
    pub open spec fn off_br_ext(self, id: WindowId) -> Extent {
        Extent { x: self.off_br(id).0 as u32, y: self.off_br(id).1 as u32 }
    }

    /// Calls `f` once with the node's absolute corners.
    pub fn for_corners<R, F: Fn(Extent, Extent) -> R>(&self, id: WindowId, f: F) -> (r: R)
        requires
            self.wf(),
            self.rooted(id),
            call_requires(f, (self.abs_tl_ext(id), self.abs_br_ext(id))),
        ensures
            call_ensures(f, (self.abs_tl_ext(id), self.abs_br_ext(id)), r),
    {
        proof {
            self.lemma_abs_in_root(id.i as int);
        }
        let (tl, br) = self.corners(id);
        f(tl, br)
    }

    /// Calls `f` once with the two components of `corners_offset`.
    pub fn for_corners_offset<R, F: Fn(Extent, Extent) -> R>(&self, id: WindowId, f: F) -> (r: R)
        requires
            self.wf(),
            self.rooted(id),
            call_requires(f, (self.abs_tl_ext(id), self.off_br_ext(id))),
        ensures
            call_ensures(f, (self.abs_tl_ext(id), self.off_br_ext(id)), r),
    {
        proof {
            self.lemma_abs_in_root(id.i as int);
            self.lemma_off_complement(id.i as int);
        }
        let (tl, br) = self.corners_offset(id);
        f(tl, br)
    }

    /// Calls `f` once with the node's flattened absolute coordinates.
    pub fn for_coords<R, F: Fn(u32, u32, u32, u32) -> R>(&self, id: WindowId, f: F) -> (r: R)
        requires
            self.wf(),
            self.rooted(id),
            call_requires(
                f,
                (
                    self.abs_tl_ext(id).x,
                    self.abs_tl_ext(id).y,
                    self.abs_br_ext(id).x,
                    self.abs_br_ext(id).y,
                ),
            ),
        ensures
            call_ensures(
                f,
                (
                    self.abs_tl_ext(id).x,
                    self.abs_tl_ext(id).y,
                    self.abs_br_ext(id).x,
                    self.abs_br_ext(id).y,
                ),
                r,
            ),
    {
        proof {
            self.lemma_abs_in_root(id.i as int);
        }
        let (tl, br) = self.corners(id);
        f(tl.x, tl.y, br.x, br.y)
    }

    /// Calls `f` once with the node's absolute position and own size.
    pub fn for_xywh<R, F: Fn(u32, u32, u32, u32) -> R>(&self, id: WindowId, f: F) -> (r: R)
        requires
            self.wf(),
            self.rooted(id),
            call_requires(
                f,
                (
                    self.abs_tl_ext(id).x,
                    self.abs_tl_ext(id).y,
                    self.local_size(id).x,
                    self.local_size(id).y,
                ),
            ),
        ensures
            call_ensures(
                f,
                (
                    self.abs_tl_ext(id).x,
                    self.abs_tl_ext(id).y,
                    self.local_size(id).x,
                    self.local_size(id).y,
                ),
                r,
            ),
    {
        proof {
            self.lemma_abs_in_root(id.i as int);
        }
        let (tl, br) = self.corners(id);
        f(tl.x, tl.y, br.x - tl.x, br.y - tl.y)
    }

    /// Slot `j` holds a live child of `id` named `name`.
    pub closed spec fn is_child_named(self, id: WindowId, j: int, name: Seq<char>) -> bool {
        &&& 0 <= j < self.len_n()
        &&& self.node_at(j).live
        &&& self.node_at(j).parent == Some(id.i)
        &&& self.node_at(j).name@ == name
    }

    /// The node has a live child under `name`.
    pub closed spec fn has_child(self, id: WindowId, name: Seq<char>) -> bool {
        exists|j: int| self.is_child_named(id, j, name)
    }

    /// Looks up a child of `id` by name; empty when no such child
    /// exists.
    pub fn get_opt(&self, id: WindowId, name: &str) -> (r: Option<WindowId>)
        requires
            self.wf(),
            self.valid(id),
        ensures
            match r {
                Some(c) => {
                    &&& self.has_child(id, name@)
                    &&& self.valid(c)
                    &&& self.parent_of(c) == Some(id)
                    &&& self.name_of(c) == name@
                    &&& self.rooted(id) ==> self.rooted(c)
                },
                None => !self.has_child(id, name@),
            },
    {
        let target: String = name.to_owned();
        let n = self.nodes.len();
        let mut j: usize = 0;
        while j < n
            invariant
                self.wf(),
                self.valid(id),
                n == self.len_n(),
                j <= n,
                target@ == name@,
                forall|k: int| 0 <= k < j ==> !self.is_child_named(id, k, name@),
            decreases n - j,
        {
            let node = &self.nodes[j];
            let mut found = false;
            if node.live {
                match node.parent {
                    Some(p) => {
                        if p == id.i {
                            if node.name == target {
                                found = true;
                            }
                        }
                    },
                    None => {},
                }
            }
            if found {
                proof {
                    assert(self.is_child_named(id, j as int, name@));
                    if self.rooted(id) {
                        assert(self.rooted_at(j as int));
                    }
                }
                return Some(WindowId { i: j });
            }
            j += 1;
        }
        None
    }

    /// Looks up a child that is known to exist.
    pub fn get(&self, id: WindowId, name: &str) -> (r: WindowId)
        requires
            self.wf(),
            self.valid(id),
            self.has_child(id, name@),
        ensures
            self.valid(r),
            self.parent_of(r) == Some(id),
            self.name_of(r) == name@,
            self.rooted(id) ==> self.rooted(r),
    {
        let r = self.get_opt(id, name);
        match r {
            Some(c) => c,
            None => {
                proof {
                    assert(false);
                }
                id
            },
        }
    }
    /// What an anchor insertion leaves behind: one fresh live child `c`
    /// of `id` with the given name and local bounds, every existing
    /// node's fields untouched, and exactly the displaced same-named
    /// sibling (if there was one) no longer live.
    pub open spec fn spec_inserted(
        self,
        new: Window,
        id: WindowId,
        c: WindowId,
        name: Seq<char>,
        tl: Extent,
        br: Extent,
    ) -> bool {
        &&& new.wf()
        &&& new.valid(c)
        &&& !self.in_range(c)
        &&& new.parent_of(c) == Some(id)
        &&& new.name_of(c) == name
        &&& new.local_tl(c) == tl
        &&& new.local_br(c) == br
        &&& new.depth_of(c) == self.depth_of(id) + 1
        &&& new.has_child(id, name)
        &&& (self.rooted(id) ==> new.rooted(c))
        &&& forall|o: WindowId| #[trigger] self.in_range(o) ==> {
            &&& new.in_range(o)
            &&& new.parent_of(o) == self.parent_of(o)
            &&& new.name_of(o) == self.name_of(o)
            &&& new.local_tl(o) == self.local_tl(o)
            &&& new.local_br(o) == self.local_br(o)
            &&& new.depth_of(o) == self.depth_of(o)
        }
        &&& forall|o: WindowId| #[trigger] self.in_range(o) ==> (new.valid(o) <==> (self.valid(o)
            && !(self.parent_of(o) == Some(id) && self.name_of(o) == name)))
        &&& forall|o: WindowId| #[trigger] new.in_range(o) ==> (self.in_range(o) || o == c)
    }

    /// A node whose ancestor chain survives in a tree that keeps every
    /// link and every liveness at or above its depth stays rooted.
    proof fn lemma_rooted_preserved(self, new: Window, i: int)
        requires
            self.wf(),
            new.wf(),
            0 <= i < self.len_n(),
            self.len_n() <= new.len_n(),
            forall|k: int|
                0 <= k < self.len_n() ==> (#[trigger] new.node_at(k)).parent == self.node_at(
                    k,
                ).parent && new.node_at(k).depth == self.node_at(k).depth,
            forall|k: int|
                0 <= k < self.len_n() && self.node_at(k).live && self.node_at(k).depth
                    <= self.node_at(i).depth ==> (#[trigger] new.node_at(k)).live,
            self.rooted_at(i),
        ensures
            new.rooted_at(i),
        decreases self.node_at(i).depth,
    {
        assert(self.wf_node(i));
        match self.node_at(i).parent {
            None => {},
            Some(p) => {
                self.lemma_rooted_preserved(new, p as int);
            },
        }
    }

    /// Links a new child into the tree: tears down any live same-named
    /// sibling, then appends the node to the arena.
    fn add_sub_window(&mut self, id: WindowId, name: String, tl: Extent, br: Extent) -> (c:
    WindowId)
        requires
            old(self).wf(),
            old(self).valid(id),
            tl.x <= br.x,
            tl.y <= br.y,
            br.x <= old(self).local_size(id).x,
            br.y <= old(self).local_size(id).y,
        ensures
            final(self).wf(),
            old(self).spec_inserted(*final(self), id, c, name@, tl, br),
    {
        let ghost prev = *self;
        let displaced = self.get_opt(id, name.as_str());
        if let Some(oc) = displaced {
            self.nodes[oc.i].live = false;
            proof {
                assert forall|k: int| 0 <= k < self.len_n() implies #[trigger] self.wf_node(
                    k,
                ) by {
                    assert(prev.wf_node(k));
                }
                assert forall|k: int, l: int|
                    0 <= k < self.len_n() && 0 <= l < self.len_n() && #[trigger] self.sib_match(
                        k,
                        l,
                    ) implies k == l by {
                    assert(prev.sib_match(k, l));
                }
                assert(self.wf());
            }
        }
        let ghost mid = *self;
        proof {
            assert(mid.wf());
            assert(mid.wf_node(id.i as int));
            // no live child of `id` named `name` is left: any such child
            // would have matched the displaced one in the old tree
            assert forall|j: int| !mid.is_child_named(id, j, name@) by {
                if mid.is_child_named(id, j, name@) {
                    match displaced {
                        Some(oc) => {
                            assert(prev.is_child_named(id, j, name@));
                            assert(prev.sib_match(j, oc.i as int));
                        },
                        None => {
                            assert(prev.is_child_named(id, j, name@));
                            assert(prev.has_child(id, name@));
                        },
                    }
                }
            }
        }
        let n = self.nodes.len();
        let d = self.nodes[id.i].depth;
        let ghost nm = name@;
        self.nodes.push(
            Node { name, tl, br, parent: Some(id.i), depth: d + 1, live: true },
        );
        let c = WindowId { i: n };
        proof {
            assert forall|k: int| 0 <= k < self.len_n() implies #[trigger] self.wf_node(k) by {
                if k < n {
                    assert(mid.wf_node(k));
                } else {
                    assert(mid.wf_node(id.i as int));
                }
            }
            assert forall|k: int, l: int|
                0 <= k < self.len_n() && 0 <= l < self.len_n() && #[trigger] self.sib_match(k, l)
                implies k == l by {
                if k < n && l < n {
                    assert(mid.sib_match(k, l));
                } else if k == n as int && l < n {
                    assert(mid.is_child_named(id, l, nm));
                } else if l == n as int && k < n {
                    assert(mid.is_child_named(id, k, nm));
                }
            }
            assert(self.wf());
            assert(self.is_child_named(id, n as int, nm));
            match displaced {
                Some(oc) => {
                    assert(prev.wf_node(oc.i as int));
                },
                None => {},
            }
            if prev.rooted(id) {
                prev.lemma_rooted_preserved(*self, id.i as int);
                assert(self.rooted_at(c.i as int));
            }
            assert forall|o: WindowId| #[trigger] prev.in_range(o) implies (self.valid(o) <==> (
            prev.valid(o) && !(prev.parent_of(o) == Some(id) && prev.name_of(o)
                == nm))) by {
                if prev.valid(o) && prev.parent_of(o) == Some(id) && prev.name_of(o) == nm {
                    assert(prev.is_child_named(id, o.i as int, nm));
                    assert(prev.has_child(id, nm));
                    match displaced {
                        Some(oc) => {
                            assert(prev.sib_match(o.i as int, oc.i as int));
                            assert(o.i == oc.i);
                            assert(!self.node_at(o.i as int).live);
                        },
                        None => {},
                    }
                }
            }
        }
        c
    }
    /// Inserts a child anchored to this node's top-left corner.
    ///
    /// `size` and `offset_top_left` are resolved against this node's own
    /// extent.  The placement is rejected with `OutOfBounds` unless the
    /// offset lies strictly inside the extent and the child ends
    /// strictly before the far edge on both axes.  A live child already
    /// holding `name` is torn down and replaced.
    pub fn top_left<S: ScaleInto<Extent>, O: ScaleInto<Extent>>(
        &mut self,
        id: WindowId,
        name: &str,
        size: S,
        offset_top_left: O,
    ) -> (r: Result<WindowId, WindowError>)
        requires
            old(self).wf(),
            old(self).valid(id),
        ensures
            ({
                let s = old(self).local_size(id);
                let sz = size.scale_spec(s);
                let off = offset_top_left.scale_spec(s);
                match r {
                    Ok(c) => {
                        &&& off.x < s.x
                        &&& off.y < s.y
                        &&& off.x + sz.x < s.x
                        &&& off.y + sz.y < s.y
                        &&& old(self).spec_inserted(
                            *final(self),
                            id,
                            c,
                            name@,
                            off,
                            Extent { x: (off.x + sz.x) as u32, y: (off.y + sz.y) as u32 },
                        )
                    },
                    Err(e) => {
                        &&& e == WindowError::OutOfBounds
                        &&& *final(self) == *old(self)
                        &&& !(off.x < s.x && off.y < s.y && off.x + sz.x < s.x && off.y + sz.y
                            < s.y)
                    },
                }
            }),
    {
        let s = self.size(id);
        let off = offset_top_left.scale_into(s);
        let sz = size.scale_into(s);
        if off.x < s.x && off.y < s.y && (off.x as u64 + sz.x as u64) < s.x as u64 && (off.y
            as u64 + sz.y as u64) < s.y as u64 {
            let br = Extent { x: off.x + sz.x, y: off.y + sz.y };
            Ok(self.add_sub_window(id, name.to_owned(), off, br))
        } else {
            Err(WindowError::OutOfBounds)
        }
    }

    /// Inserts a child anchored to this node's bottom-right corner.
    ///
    /// The offset is a margin measured from the bottom-right corner, and
    /// the same strict validation applies, mirrored: the child must end
    /// strictly before the top-left corner.
    pub fn bottom_right<S: ScaleInto<Extent>, O: ScaleInto<Extent>>(
        &mut self,
        id: WindowId,
        name: &str,
        size: S,
        offset_bottom_right: O,
    ) -> (r: Result<WindowId, WindowError>)
        requires
            old(self).wf(),
            old(self).valid(id),
        ensures
            ({
                let s = old(self).local_size(id);
                let sz = size.scale_spec(s);
                let off = offset_bottom_right.scale_spec(s);
                match r {
                    Ok(c) => {
                        &&& off.x < s.x
                        &&& off.y < s.y
                        &&& off.x + sz.x < s.x
                        &&& off.y + sz.y < s.y
                        &&& old(self).spec_inserted(
                            *final(self),
                            id,
                            c,
                            name@,
                            Extent {
                                x: (s.x - (sz.x + off.x)) as u32,
                                y: (s.y - (sz.y + off.y)) as u32,
                            },
                            Extent { x: (s.x - off.x) as u32, y: (s.y - off.y) as u32 },
                        )
                    },
                    Err(e) => {
                        &&& e == WindowError::OutOfBounds
                        &&& *final(self) == *old(self)
                        &&& !(off.x < s.x && off.y < s.y && off.x + sz.x < s.x && off.y + sz.y
                            < s.y)
                    },
                }
            }),
    {
        let s = self.size(id);
        let off = offset_bottom_right.scale_into(s);
        let sz = size.scale_into(s);
        if off.x < s.x && off.y < s.y && (off.x as u64 + sz.x as u64) < s.x as u64 && (off.y
            as u64 + sz.y as u64) < s.y as u64 {
            let tl = Extent { x: s.x - (sz.x + off.x), y: s.y - (sz.y + off.y) };
            let br = Extent { x: s.x - off.x, y: s.y - off.y };
            Ok(self.add_sub_window(id, name.to_owned(), tl, br))
        } else {
            Err(WindowError::OutOfBounds)
        }
    }

    /// Inserts a centered child.
    ///
    /// Only a size is taken; it must be strictly smaller than this
    /// node's extent on both axes, and the child is placed so the
    /// leftover space is split evenly.
    pub fn center<S: ScaleInto<Extent>>(
        &mut self,
        id: WindowId,
        name: &str,
        size: S,
    ) -> (r: Result<WindowId, WindowError>)
        requires
            old(self).wf(),
            old(self).valid(id),
        ensures
            ({
                let s = old(self).local_size(id);
                let sz = size.scale_spec(s);
                let tlx = (s.x - sz.x) / 2;
                let tly = (s.y - sz.y) / 2;
                match r {
                    Ok(c) => {
                        &&& sz.x < s.x
                        &&& sz.y < s.y
                        &&& old(self).spec_inserted(
                            *final(self),
                            id,
                            c,
                            name@,
                            Extent { x: tlx as u32, y: tly as u32 },
                            Extent { x: (tlx + sz.x) as u32, y: (tly + sz.y) as u32 },
                        )
                    },
                    Err(e) => {
                        &&& e == WindowError::OutOfBounds
                        &&& *final(self) == *old(self)
                        &&& !(sz.x < s.x && sz.y < s.y)
                    },
                }
            }),
    {
        let s = self.size(id);
        let sz = size.scale_into(s);
        if sz.x < s.x && sz.y < s.y {
            let tl = Extent { x: (s.x - sz.x) / 2, y: (s.y - sz.y) / 2 };
            proof {
                assert((s.x - sz.x) / 2 <= s.x - sz.x);
                assert((s.y - sz.y) / 2 <= s.y - sz.y);
            }
            let br = Extent { x: tl.x + sz.x, y: tl.y + sz.y };
            Ok(self.add_sub_window(id, name.to_owned(), tl, br))
        } else {
            Err(WindowError::OutOfBounds)
        }
    }

    /// Detaches the node from its parent and gives its slot up.
    ///
    /// The handle (and every handle below it) is dead afterwards: a
    /// later lookup of the name under the former parent comes back
    /// empty, while every other node is untouched.  The former children
    /// keep their geometry among themselves but are no longer reachable
    /// from the root.
    ///
    /// Handles are bare indices, so exclusivity of the passed-in alias
    /// is not counted at run time; instead the contract of every
    /// operation refuses a handle whose node or ancestor has been
    /// removed, so a stale alias can never be used again.
    pub fn remove(&mut self, id: WindowId)
        requires
            old(self).wf(),
            old(self).valid(id),
        ensures
            final(self).wf(),
            !final(self).valid(id),
            final(self).in_range(id),
            final(self).parent_of(id) == old(self).parent_of(id),
            final(self).name_of(id) == old(self).name_of(id),
            forall|o: WindowId| #[trigger] old(self).in_range(o) && o != id ==> {
                &&& final(self).in_range(o)
                &&& final(self).parent_of(o) == old(self).parent_of(o)
                &&& final(self).name_of(o) == old(self).name_of(o)
                &&& final(self).local_tl(o) == old(self).local_tl(o)
                &&& final(self).local_br(o) == old(self).local_br(o)
                &&& final(self).depth_of(o) == old(self).depth_of(o)
                &&& (final(self).valid(o) <==> old(self).valid(o))
            },
            forall|o: WindowId| #[trigger] final(self).in_range(o) ==> old(self).in_range(o),
            forall|q: WindowId, n: Seq<char>| #[trigger]
                final(self).has_child(q, n) <==> (old(self).has_child(q, n) && !(old(
                    self,
                ).parent_of(id) == Some(q) && old(self).name_of(id) == n)),
    {
        let ghost prev = *self;
        self.nodes[id.i].live = false;
        proof {
            assert forall|k: int| 0 <= k < self.len_n() implies #[trigger] self.wf_node(k) by {
                assert(prev.wf_node(k));
            }
            assert forall|k: int, l: int|
                0 <= k < self.len_n() && 0 <= l < self.len_n() && #[trigger] self.sib_match(k, l)
                implies k == l by {
                assert(prev.sib_match(k, l));
            }
            assert(self.wf());
            assert forall|q: WindowId, n: Seq<char>| #[trigger]
                self.has_child(q, n) <==> (prev.has_child(q, n) && !(prev.parent_of(id) == Some(
                q,
            ) && prev.name_of(id) == n)) by {
                if self.has_child(q, n) {
                    let j = choose|j: int| self.is_child_named(q, j, n);
                    assert(prev.is_child_named(q, j, n));
                    if prev.parent_of(id) == Some(q) && prev.name_of(id) == n {
                        assert(prev.sib_match(j, id.i as int));
                        assert(j == id.i as int);
                        assert(!self.node_at(j).live);
                    }
                }
                if prev.has_child(q, n) && !(prev.parent_of(id) == Some(q) && prev.name_of(id)
                    == n) {
                    let j = choose|j: int| prev.is_child_named(q, j, n);
                    assert(j != id.i as int);
                    assert(self.is_child_named(q, j, n));
                }
            }
        }
    }
}

/// Law: a live child makes its name present under its parent.
pub proof fn lemma_child_witness(t: Window, id: WindowId, c: WindowId)
    requires
        t.valid(c),
        t.parent_of(c) == Some(id),
    ensures
        t.has_child(id, t.name_of(c)),
{
    assert(t.is_child_named(id, c.i as int, t.name_of(c)));
}

/// Law: names are unique among live siblings: two handles that both
/// denote live children of the same parent under the same name denote
/// the same node.
pub proof fn lemma_sibling_names_unique(t: Window, a: WindowId, b: WindowId)
    requires
        t.wf(),
        t.valid(a),
        t.valid(b),
        t.parent_of(a) is Some,
        t.parent_of(a) == t.parent_of(b),
        t.name_of(a) == t.name_of(b),
    ensures
        a == b,
{
    assert(t.sib_match(a.i as int, b.i as int));
}

/// Law: a parentless node is its own coordinate frame: its absolute
/// corners are its stored local bounds (with the top-left pinned to the
/// origin), and it accumulates no far-edge distance.
pub proof fn lemma_corners_root(t: Window, id: WindowId)
    requires
        t.wf(),
        t.in_range(id),
        t.parent_of(id) is None,
    ensures
        t.abs_tl(id) == (0int, 0int),
        t.local_tl(id) == (Extent { x: 0, y: 0 }),
        t.abs_br(id) == (t.local_br(id).x as int, t.local_br(id).y as int),
        t.off_br(id) == (0int, 0int),
{
    assert(t.wf_node(id.i as int));
}

/// Law: a child's absolute corners are its local bounds shifted by its
/// parent's absolute top-left corner, and its far-edge distance adds the
/// gap between its local bottom-right offset and the parent's extent.
pub proof fn lemma_corners_child(t: Window, id: WindowId, p: WindowId)
    requires
        t.wf(),
        t.in_range(id),
        t.parent_of(id) == Some(p),
    ensures
        t.in_range(p),
        t.abs_tl(id).0 == t.abs_tl(p).0 + t.local_tl(id).x,
        t.abs_tl(id).1 == t.abs_tl(p).1 + t.local_tl(id).y,
        t.abs_br(id).0 == t.abs_tl(p).0 + t.local_br(id).x,
        t.abs_br(id).1 == t.abs_tl(p).1 + t.local_br(id).y,
        t.off_br(id).0 == t.off_br(p).0 + (t.local_size(p).x - t.local_br(id).x),
        t.off_br(id).1 == t.off_br(p).1 + (t.local_size(p).y - t.local_br(id).y),
{
    assert(t.wf_node(id.i as int));
}

/// Law: the two corner-resolution algorithms fit together: the first
/// component of `corners_offset` is the absolute top-left corner of
/// `corners`, and its far-edge distances are the root's extent minus the
/// absolute bottom-right corner of `corners`, on both axes.
pub proof fn lemma_corner_offset_complement(t: Window, id: WindowId)
    requires
        t.wf(),
        t.in_range(id),
    ensures
        t.off_br(id).0 == t.root_extent().x - t.abs_br(id).0,
        t.off_br(id).1 == t.root_extent().y - t.abs_br(id).1,
{
    t.lemma_off_complement(id.i as int);
}

/// Law: resolving a percentage `p` against an extent `e` yields
/// `e * p / 100` componentwise.
pub proof fn lemma_resolve_percentage(p: Percentage, e: Extent)
    requires
        p@ <= 100,
    ensures
        p.scale_spec(e).x == (e.x as int) * (p@ as int) / 100,
        p.scale_spec(e).y == (e.y as int) * (p@ as int) / 100,
{
    lemma_scale_axis_le(e.x, p@);
    lemma_scale_axis_le(e.y, p@);
}

/// Law: resolving the full percentage (100) yields the reference extent
/// unchanged.
pub proof fn lemma_resolve_full(p: Percentage, e: Extent)
    requires
        p@ == 100,
    ensures
        p.scale_spec(e) == e,
{
    lemma_div_multiples_vanish(e.x as int, 100);
    lemma_div_multiples_vanish(e.y as int, 100);
    assert((e.x as int) * 100 == 100 * (e.x as int));
    assert((e.y as int) * 100 == 100 * (e.y as int));
}

/// Law: resolving the zero percentage yields the zero extent.
pub proof fn lemma_resolve_zero(p: Percentage, e: Extent)
    requires
        p@ == 0,
    ensures
        p.scale_spec(e) == (Extent { x: 0, y: 0 }),
{
    assert((e.x as int) * 0 == 0) by (nonlinear_arith);
    assert((e.y as int) * 0 == 0) by (nonlinear_arith);
}

/// The invariant a shared layout tree is guarded by: well-formedness.
/// Any tree value a reader observes through the lock satisfies it.
pub struct TreeLockPred {}

impl RwLockPredicate<Window> for TreeLockPred {
    open spec fn inv(self, t: Window) -> bool {
        t.wf()
    }
}

/// Wraps a tree in a reader-writer lock so that many threads can read
/// geometry concurrently while mutation takes the lock exclusively.
pub fn share(tree: Window) -> (lock: RwLock<Window, TreeLockPred>)
    requires
        tree.wf(),
    ensures
        forall|t: Window| #[trigger] lock.inv(t) <==> t.wf(),
{
    RwLock::new(tree, Ghost(TreeLockPred {}))
}

/// Takes a shared read lock.  Any number of readers may hold one at a
/// time; each observes one consistent, well-formed tree value.  Release
/// it with `ReadHandle::release_read`.
pub fn read_lock<'a, T, P: RwLockPredicate<T>>(lock: &'a RwLock<T, P>) -> (h: ReadHandle<
    'a,
    T,
    P,
>)
    ensures
        h.rwlock() == *lock,
        lock.inv(h.view()),
{
    lock.acquire_read()
}

/// Takes the exclusive write lock, handing back the guarded value and
/// the handle that restores it.  Release it with
/// `WriteHandle::release_write`, whose contract demands the lock's
/// invariant of the value put back.
pub fn write_lock<'a, T, P: RwLockPredicate<T>>(lock: &'a RwLock<T, P>) -> (r: (
    T,
    WriteHandle<'a, T, P>,
))
    ensures
        r.1.rwlock() == *lock,
        lock.inv(r.0),
{
    lock.acquire_write()
}

} // verus!
