use vstd::prelude::*;

use crate::cell::{FrozenCellKind, FrozenNumberLinkCell, NumberlinkCell};
use crate::graph::{BoardGraph, GraphState, Node};
use crate::location::{coord_offset, Location};

verus! {

/// The nodes of `nodes` that sit at `loc`, in order.
pub open spec fn select_at(nodes: Seq<Node>, loc: Location) -> Seq<Node>
    decreases nodes.len(),
{
    if nodes.len() == 0 {
        Seq::empty()
    } else {
        select_at(nodes.drop_last(), loc) + (if nodes.last().location == loc {
            seq![nodes.last()]
        } else {
            Seq::empty()
        })
    }
}

/// Every element of `select_at(nodes, loc)` is an element of `nodes`.
pub proof fn lemma_select_at_contains(nodes: Seq<Node>, loc: Location, q: int)
    requires
        0 <= q < select_at(nodes, loc).len(),
    ensures
        nodes.contains(select_at(nodes, loc)[q]),
    decreases nodes.len(),
{
    if nodes.len() > 0 {
        let prev = select_at(nodes.drop_last(), loc);
        if q < prev.len() {
            lemma_select_at_contains(nodes.drop_last(), loc, q);
            let e = prev[q];
            let i = choose|i: int| 0 <= i < nodes.drop_last().len() && nodes.drop_last()[i] == e;
            assert(nodes[i] == e);
        } else {
            assert(select_at(nodes, loc)[q] == nodes.last());
        }
    }
}

/// Whether a frozen kind correctly freezes location `loc` of graph `g`: a
/// location without nodes is empty, a location with several nodes is a
/// bridge, and a location with one node freezes that node's cell.
pub open spec fn frozen_kind_matches(g: GraphState, loc: Location, k: FrozenCellKind) -> bool {
    let ns = select_at(g.nodes, loc);
    if ns.len() == 0 {
        k is Empty
    } else if ns.len() == 1 {
        match ns[0].cell {
            NumberlinkCell::Terminus { affiliation } => k == (FrozenCellKind::Terminus {
                affiliation,
            }),
            NumberlinkCell::Path { affiliation } => k == (FrozenCellKind::Path { affiliation }),
            NumberlinkCell::Empty => k is Empty,
            NumberlinkCell::Bridge { .. } => k is Bridge,
        }
    } else {
        k is Bridge
    }
}

/// The least node index at `loc`, scanning upward from `k`; the node count
/// when no node sits there.
pub open spec fn first_at_from(g: GraphState, loc: Location, k: int) -> int
    decreases g.nodes.len() - k,
{
    if k < 0 || k >= g.nodes.len() {
        g.nodes.len() as int
    } else if g.nodes[k].location == loc {
        k
    } else {
        first_at_from(g, loc, k + 1)
    }
}

/// The direction in which edge `j` leaves the node at index `ni` and
/// location `loc`: the step toward the neighbor when the endpoints are
/// adjacent, else the stored (warp-aware) edge direction, read from the `a`
/// endpoint and inverted when `ni` is the `b` endpoint. Nothing for an edge
/// that does not touch `ni` or whose other endpoint is out of range.
pub open spec fn exit_of(g: GraphState, loc: Location, ni: int, j: int) -> Option<SquareStep> {
    let e = g.edges[j];
    if e.a == ni || e.b == ni {
        let other = if e.a == ni {
            e.b as int
        } else {
            e.a as int
        };
        if other < g.nodes.len() {
            match SquareStep::direction_to_spec(loc, g.nodes[other].location) {
                Some(d) => Some(d),
                None => Some(
                    if e.a == ni {
                        e.direction
                    } else {
                        e.direction.invert_spec()
                    },
                ),
            }
        } else {
            None
        }
    } else {
        None
    }
}

/// The exit directions the first `j` edges give the node at index `ni`,
/// first occurrences kept.
pub open spec fn single_exits_upto(g: GraphState, loc: Location, ni: int, j: int) -> Seq<SquareStep>
    decreases j,
{
    if j <= 0 {
        Seq::empty()
    } else {
        let prev = single_exits_upto(g, loc, ni, j - 1);
        match exit_of(g, loc, ni, j - 1) {
            Some(d) => if prev.contains(d) {
                prev
            } else {
                prev.push(d)
            },
            None => prev,
        }
    }
}

/// The exits of the sole node at `loc`: one direction per incident edge,
/// deduplicated in edge order.
pub open spec fn single_exits_spec(g: GraphState, loc: Location) -> Seq<SquareStep> {
    let ni = first_at_from(g, loc, 0);
    if ni >= g.nodes.len() {
        Seq::empty()
    } else {
        single_exits_upto(g, loc, ni, g.edges.len() as int)
    }
}

/// The exits of a bridge: both directions of each lane's axis, first
/// occurrences kept, over the first `i` nodes at the location.
pub open spec fn bridge_exits_upto(ns: Seq<Node>, i: int) -> Seq<SquareStep>
    decreases i,
{
    if i <= 0 {
        Seq::empty()
    } else {
        let prev = bridge_exits_upto(ns, i - 1);
        match ns[i - 1].cell {
            NumberlinkCell::Bridge { direction, .. } => {
                let with_d = if prev.contains(direction) {
                    prev
                } else {
                    prev.push(direction)
                };
                if with_d.contains(direction.invert_spec()) {
                    with_d
                } else {
                    with_d.push(direction.invert_spec())
                }
            },
            _ => prev,
        }
    }
}

/// The per-axis affiliations of a bridge: each lane's forward axis mapped to
/// the lane's affiliation, 0 for an uncolored lane, over the first `i` nodes.
pub open spec fn bridge_affs_upto(ns: Seq<Node>, i: int) -> Seq<(SquareStep, usize)>
    decreases i,
{
    if i <= 0 {
        Seq::empty()
    } else {
        let prev = bridge_affs_upto(ns, i - 1);
        match ns[i - 1].cell {
            NumberlinkCell::Bridge { affiliation, direction } => prev.push(
                (
                    direction.ensure_forward_spec(),
                    match affiliation {
                        Some(a) => a,
                        None => 0,
                    },
                ),
            ),
            _ => prev,
        }
    }
}

/// Whether a frozen cell correctly freezes location `loc` of graph `g`: its
/// kind as in [`frozen_kind_matches`], its exits (the directions of the
/// incident edges for a single node, both directions of each lane's axis for
/// a bridge), and for a bridge kind the per-axis affiliations.
pub open spec fn frozen_cell_matches(g: GraphState, loc: Location, cell: FrozenNumberLinkCell) -> bool {
    let ns = select_at(g.nodes, loc);
    &&& frozen_kind_matches(g, loc, cell.cell_type)
    &&& (ns.len() == 0 ==> cell.exits@ == Seq::<SquareStep>::empty())
    &&& (ns.len() == 1 ==> cell.exits@ == single_exits_spec(g, loc))
    &&& (ns.len() >= 2 ==> cell.exits@ == bridge_exits_upto(ns, ns.len() as int))
    &&& (cell.cell_type matches FrozenCellKind::Bridge { affiliations } ==> affiliations@
        == bridge_affs_upto(ns, ns.len() as int))
}

/// The characters of row `y` of a row-major character grid, columns `0..x`.
pub open spec fn print_row(cs: Seq<char>, w: int, y: int, x: int) -> Seq<char>
    decreases x,
{
    if x <= 0 {
        Seq::empty()
    } else {
        print_row(cs, w, y, x - 1).push(cs[y * w + (x - 1)])
    }
}

/// The first `y` rows of a row-major character grid, each closed by a
/// newline.
pub open spec fn print_rows(cs: Seq<char>, w: int, y: int) -> Seq<char>
    decreases y,
{
    if y <= 0 {
        Seq::empty()
    } else {
        print_rows(cs, w, y - 1) + print_row(cs, w, y - 1, w).push('\n')
    }
}

pub proof fn lemma_print_row_len(cs: Seq<char>, w: int, y: int, x: int)
    requires
        0 <= x,
    ensures
        print_row(cs, w, y, x).len() == x,
    decreases x,
{
    if x > 0 {
        lemma_print_row_len(cs, w, y, x - 1);
    }
}

pub proof fn lemma_print_row_index(cs: Seq<char>, w: int, y: int, x: int, i: int)
    requires
        0 <= i < x,
    ensures
        print_row(cs, w, y, x)[i] == cs[y * w + i],
    decreases x,
{
    lemma_print_row_len(cs, w, y, x - 1);
    if i < x - 1 {
        lemma_print_row_index(cs, w, y, x - 1, i);
    }
}

pub proof fn lemma_print_rows_len(cs: Seq<char>, w: int, y: int)
    requires
        0 <= y,
        0 <= w,
    ensures
        print_rows(cs, w, y).len() == y * (w + 1),
    decreases y,
{
    if y > 0 {
        lemma_print_rows_len(cs, w, y - 1);
        lemma_print_row_len(cs, w, y - 1, w);
        assert(y * (w + 1) == (y - 1) * (w + 1) + (w + 1)) by (nonlinear_arith);
    } else {
        assert(y * (w + 1) == 0) by (nonlinear_arith)
            requires
                y == 0,
        ;
    }
}

/// The character grid laid out by `print_rows`, indexed: position
/// `yy*(w+1) + xx` holds column `xx` of row `yy`, or a newline at `xx == w`.
pub proof fn lemma_print_rows_index(cs: Seq<char>, w: int, y: int, yy: int, xx: int)
    requires
        0 <= w,
        0 <= yy < y,
        0 <= xx <= w,
    ensures
        print_rows(cs, w, y).len() == y * (w + 1),
        print_rows(cs, w, y)[yy * (w + 1) + xx] == (if xx < w {
            cs[yy * w + xx]
        } else {
            '\n'
        }),
    decreases y,
{
    lemma_print_rows_len(cs, w, y);
    lemma_print_rows_len(cs, w, y - 1);
    lemma_print_row_len(cs, w, y - 1, w);
    if yy == y - 1 {
        assert(yy * (w + 1) + xx - (y - 1) * (w + 1) == xx) by (nonlinear_arith)
            requires
                yy == y - 1,
        ;
        if xx < w {
            lemma_print_row_index(cs, w, y - 1, w, xx);
        }
    } else {
        lemma_print_rows_index(cs, w, y - 1, yy, xx);
        assert(yy * (w + 1) + xx < (y - 1) * (w + 1)) by (nonlinear_arith)
            requires
                0 <= xx <= w,
                0 <= yy < y - 1,
        ;
    }
}

/// Relies on String::push: appends the given character to the end of the
/// string.
#[verifier::external_body]
pub(crate) fn push_char(s: &mut String, c: char)
    ensures
        final(s)@ == old(s)@.push(c),
{
    s.push(c)
}

/// Whether a direction list already contains `d`.
fn contains_dir(v: &Vec<SquareStep>, d: SquareStep) -> (r: bool)
    ensures
        r == v@.contains(d),
{
    let mut i: usize = 0;
    while i < v.len()
        invariant
            i <= v.len(),
            forall|k: int| 0 <= k < i ==> v@[k] != d,
        decreases v.len() - i,
    {
        if v[i] == d {
            return true;
        }
        i = i + 1;
    }
    false
}

/// The nodes of `graph` that sit at `loc`, in graph order.
fn collect_nodes_at(graph: &BoardGraph, loc: Location) -> (r: Vec<Node>)
    ensures
        r@ == select_at(graph@.nodes, loc),
{
    let mut r: Vec<Node> = Vec::new();
    let mut k: usize = 0;
    while k < graph.nodes.len()
        invariant
            k <= graph@.nodes.len(),
            r@ == select_at(graph@.nodes.take(k as int), loc),
        decreases graph.nodes.len() - k,
    {
        let nd = graph.nodes[k];
        proof {
            assert(graph@.nodes.take(k as int + 1).drop_last() =~= graph@.nodes.take(k as int));
        }
        if nd.location == loc {
            r.push(nd);
        }
        proof {
            assert(r@ =~= select_at(graph@.nodes.take(k as int + 1), loc));
        }
        k = k + 1;
    }
    proof {
        assert(graph@.nodes.take(graph@.nodes.len() as int) =~= graph@.nodes);
    }
    r
}

/// The directions in which edges leave the sole node at `loc`: the step
/// toward the neighbor when the endpoints are adjacent, else the stored
/// (warp-aware) edge direction, read from the lower-ordered endpoint.
fn single_exits(graph: &BoardGraph, loc: Location) -> (r: Vec<SquareStep>)
    ensures
        r@ == single_exits_spec(graph@, loc),
{
    let ghost g = graph@;
    let mut exits: Vec<SquareStep> = Vec::new();
    let mut ni: usize = 0;
    let mut found = false;
    let mut k: usize = 0;
    while k < graph.nodes.len()
        invariant
            g == graph@,
            k <= g.nodes.len(),
            !found ==> first_at_from(g, loc, 0) == first_at_from(g, loc, k as int),
            found ==> ni < g.nodes.len() && first_at_from(g, loc, 0) == ni,
        decreases graph.nodes.len() - k,
    {
        if !found {
            if graph.nodes[k].location == loc {
                ni = k;
                found = true;
            }
        }
        k = k + 1;
    }
    if !found {
        proof {
            assert(first_at_from(g, loc, 0) == g.nodes.len());
        }
        return exits;
    }
    let mut j: usize = 0;
    while j < graph.edges.len()
        invariant
            g == graph@,
            ni < g.nodes.len(),
            first_at_from(g, loc, 0) == ni,
            j <= g.edges.len(),
            exits@ == single_exits_upto(g, loc, ni as int, j as int),
        decreases graph.edges.len() - j,
    {
        let e = graph.edges[j];
        if e.a == ni || e.b == ni {
            let other = if e.a == ni {
                e.b
            } else {
                e.a
            };
            if other < graph.nodes.len() {
                let oloc = graph.nodes[other].location;
                let dir = match SquareStep::direction_to(loc, oloc) {
                    Some(d) => d,
                    None => {
                        if e.a == ni {
                            e.direction
                        } else {
                            e.direction.invert()
                        }
                    },
                };
                if !contains_dir(&exits, dir) {
                    exits.push(dir);
                }
                proof {
                    assert(exit_of(g, loc, ni as int, j as int) == Some(dir));
                }
            }
        }
        j = j + 1;
    }
    exits
}

/// The exits of a bridge: both directions of each lane's axis./// The exits of a bridge: both directions of each lane's axis.
fn bridge_exits(ns: &Vec<Node>) -> (r: Vec<SquareStep>)
    ensures
        r@ == bridge_exits_upto(ns@, ns@.len() as int),
{
    let mut exits: Vec<SquareStep> = Vec::new();
    let mut i: usize = 0;
    while i < ns.len()
        invariant
            i <= ns.len(),
            exits@ == bridge_exits_upto(ns@, i as int),
        decreases ns.len() - i,
    {
        match ns[i].cell {
            NumberlinkCell::Bridge { direction, .. } => {
                if !contains_dir(&exits, direction) {
                    exits.push(direction);
                }
                let inv = direction.invert();
                if !contains_dir(&exits, inv) {
                    exits.push(inv);
                }
            },
            _ => {},
        }
        i = i + 1;
    }
    exits
}

/// The frozen kind of a bridge: each lane's forward axis mapped to the
/// lane's affiliation, 0 for an uncolored lane.
fn bridge_kind(ns: &Vec<Node>) -> (r: FrozenCellKind)
    ensures
        r matches FrozenCellKind::Bridge { affiliations } && affiliations@ == bridge_affs_upto(
            ns@,
            ns@.len() as int,
        ),
{
    let mut affiliations: Vec<(SquareStep, usize)> = Vec::new();
    let mut i: usize = 0;
    while i < ns.len()
        invariant
            i <= ns.len(),
            affiliations@ == bridge_affs_upto(ns@, i as int),
        decreases ns.len() - i,
    {
        match ns[i].cell {
            NumberlinkCell::Bridge { affiliation, direction } => {
                let aff: usize = match affiliation {
                    Some(a) => a,
                    None => 0,
                };
                affiliations.push((direction.ensure_forward(), aff));
            },
            _ => {},
        }
        i = i + 1;
    }
    FrozenCellKind::Bridge { affiliations }
}

/// The four step directions on a square grid, as found in Numberlink puzzles.
#[derive(Clone, Copy, PartialEq, Eq, Structural, Hash, Debug)]
pub enum SquareStep {
    Up,
    Down,
    Left,
    Right,
}

impl SquareStep {
    /// The inverse of this direction.
    pub open spec fn invert_spec(self) -> Self {
        match self {
            Self::Up => Self::Down,
            Self::Down => Self::Up,
            Self::Left => Self::Right,
            Self::Right => Self::Left,
        }
    }

    /// Forward directions step from a location to one indexed later in the
    /// row-major traversal of the grid.
    pub open spec fn is_forward(self) -> bool {
        self == Self::Right || self == Self::Down
    }

    /// This direction if it is forward, else its inverse.
    pub open spec fn ensure_forward_spec(self) -> Self {
        if self.is_forward() {
            self
        } else {
            self.invert_spec()
        }
    }

    /// The coordinate delta of one step in this direction.
    pub open spec fn delta_spec(self) -> (isize, isize) {
        match self {
            Self::Up => (0isize, -1isize),
            Self::Down => (0isize, 1isize),
            Self::Left => (-1isize, 0isize),
            Self::Right => (1isize, 0isize),
        }
    }

    /// The location one step in this direction from `location`, with
    /// wrapping coordinates.
    pub open spec fn step_spec(self, location: Location) -> Location {
        Location(
            coord_offset(location.0, self.delta_spec().0),
            coord_offset(location.1, self.delta_spec().1),
        )
    }

    /// Invert the direction specified by `self`.
    pub fn invert(&self) -> (r: Self)
        ensures
            r == self.invert_spec(),
    {
        match self {
            Self::Up => Self::Down,
            Self::Down => Self::Up,
            Self::Left => Self::Right,
            Self::Right => Self::Left,
        }
    }

    /// Convert this direction to a forward direction, if it is not already one.
    pub fn ensure_forward(&self) -> (r: Self)
        ensures
            r == self.ensure_forward_spec(),
    {
        match self {
            Self::Right => Self::Right,
            Self::Down => Self::Down,
            Self::Up => Self::Down,
            Self::Left => Self::Right,
        }
    }

    /// Attempt the step from `location` in the direction specified by `self`
    /// and return the resultant location. Results that leave the board wrap
    /// to huge coordinates which callers reject with bounds checks.
    pub fn attempt_from(&self, location: Location) -> (r: Location)
        ensures
            r == self.step_spec(location),
    {
        match self {
            Self::Up => location.offset_by((0, -1)),
            Self::Down => location.offset_by((0, 1)),
            Self::Left => location.offset_by((-1, 0)),
            Self::Right => location.offset_by((1, 0)),
        }
    }

    /// Every direction variant, in a fixed order.
    pub fn all_variants() -> (r: Vec<Self>)
        ensures
            r@ =~= seq![Self::Up, Self::Down, Self::Left, Self::Right],
    {
        let mut v: Vec<Self> = Vec::new();
        v.push(Self::Up);
        v.push(Self::Down);
        v.push(Self::Left);
        v.push(Self::Right);
        v
    }

    /// The forward directions, in a fixed order.
    pub fn forward_variants() -> (r: Vec<Self>)
        ensures
            r@ =~= seq![Self::Right, Self::Down],
            forall|i: int| 0 <= i < r@.len() ==> (#[trigger] r@[i]).is_forward(),
    {
        let mut v: Vec<Self> = Vec::new();
        v.push(Self::Right);
        v.push(Self::Down);
        v
    }

    /// The unique direction that steps from `a` to `b`, if the two locations
    /// are adjacent on the grid.
    pub open spec fn direction_to_spec(a: Location, b: Location) -> Option<Self> {
        if Self::Up.step_spec(a) == b {
            Some(Self::Up)
        } else if Self::Down.step_spec(a) == b {
            Some(Self::Down)
        } else if Self::Left.step_spec(a) == b {
            Some(Self::Left)
        } else if Self::Right.step_spec(a) == b {
            Some(Self::Right)
        } else {
            None
        }
    }

    /// Determine the direction from `a` to `b` by attempting every step
    /// direction. Works only on locations adjacent in the array
    /// representation of their board and returns `None` otherwise.
    pub fn direction_to(a: Location, b: Location) -> (r: Option<Self>)
        ensures
            r == Self::direction_to_spec(a, b),
            r matches Some(d) ==> d.step_spec(a) == b,
    {
        if Self::Up.attempt_from(a) == b {
            Some(Self::Up)
        } else if Self::Down.attempt_from(a) == b {
            Some(Self::Down)
        } else if Self::Left.attempt_from(a) == b {
            Some(Self::Left)
        } else if Self::Right.attempt_from(a) == b {
            Some(Self::Right)
        } else {
            None
        }
    }

    /// Get all neighbors of a location in "theory", by attempting every step
    /// direction (the results are not bounds-checked).
    pub fn neighbors_of(&self, location: Location) -> (r: Vec<(Self, Location)>)
        ensures
            r@.len() == 4,
            forall|i: int|
                0 <= i < 4 ==> #[trigger] r@[i] == (
                seq![Self::Up, Self::Down, Self::Left, Self::Right][i],
                seq![Self::Up, Self::Down, Self::Left, Self::Right][i].step_spec(location),
                ),
    {
        let mut v: Vec<(Self, Location)> = Vec::new();
        v.push((Self::Up, Self::Up.attempt_from(location)));
        v.push((Self::Down, Self::Down.attempt_from(location)));
        v.push((Self::Left, Self::Left.attempt_from(location)));
        v.push((Self::Right, Self::Right.attempt_from(location)));
        v
    }
}

/// Law: inverting a square-grid direction twice gives the direction back.
pub proof fn lemma_square_invert_involution(d: SquareStep)
    ensures
        d.invert_spec().invert_spec() == d,
{
}

/// Law: `ensure_forward` always yields a forward direction.
pub proof fn lemma_square_ensure_forward_is_forward(d: SquareStep)
    ensures
        d.ensure_forward_spec().is_forward(),
{
}

/// The six step directions on a hexagonal grid. Rows are organized in a
/// zig-zag: odd rows sit half a cell to the right of even rows, and a
/// vertical step crosses two rows.
#[derive(Clone, Copy, PartialEq, Eq, Structural, Hash, Debug)]
pub enum HexStep {
    Up,
    UpRight,
    RightDown,
    Down,
    DownLeft,
    LeftUp,
}

impl HexStep {
    /// The inverse of this direction.
    pub open spec fn invert_spec(self) -> Self {
        match self {
            Self::Up => Self::Down,
            Self::UpRight => Self::DownLeft,
            Self::RightDown => Self::LeftUp,
            Self::Down => Self::Up,
            Self::DownLeft => Self::UpRight,
            Self::LeftUp => Self::RightDown,
        }
    }

    /// Forward directions step from a location to one indexed later in the
    /// row-major traversal of the grid.
    pub open spec fn is_forward(self) -> bool {
        self == Self::Down || self == Self::RightDown || self == Self::DownLeft
    }

    /// This direction if it is forward, else its inverse.
    pub open spec fn ensure_forward_spec(self) -> Self {
        if self.is_forward() {
            self
        } else {
            self.invert_spec()
        }
    }

    /// The coordinate delta of one step in this direction from a location
    /// whose row has the parity of `odd_row`.
    pub open spec fn delta_spec(self, odd_row: bool) -> (isize, isize) {
        match self {
            Self::Up => (0isize, -2isize),
            Self::UpRight => (if odd_row { 1isize } else { 0isize }, -1isize),
            Self::RightDown => (if odd_row { 1isize } else { 0isize }, 1isize),
            Self::Down => (0isize, 2isize),
            Self::DownLeft => (if odd_row { 0isize } else { -1isize }, 1isize),
            Self::LeftUp => (if odd_row { 0isize } else { -1isize }, -1isize),
        }
    }

    /// Invert the direction specified by `self`.
    pub fn invert(&self) -> (r: Self)
        ensures
            r == self.invert_spec(),
    {
        match self {
            Self::Up => Self::Down,
            Self::UpRight => Self::DownLeft,
            Self::RightDown => Self::LeftUp,
            Self::Down => Self::Up,
            Self::DownLeft => Self::UpRight,
            Self::LeftUp => Self::RightDown,
        }
    }

    /// Convert this direction to a forward direction, if it is not already one.
    pub fn ensure_forward(&self) -> (r: Self)
        ensures
            r == self.ensure_forward_spec(),
    {
        match self {
            Self::Up => Self::Down,
            Self::UpRight => Self::DownLeft,
            Self::LeftUp => Self::RightDown,
            _ => *self,
        }
    }

    /// Attempt the step from `location` in the direction specified by `self`.
    /// The horizontal component depends on the parity of the row.
    pub fn attempt_from(&self, location: Location) -> (r: Location)
        ensures
            r == Location(
                coord_offset(location.0, self.delta_spec(location.1 % 2 == 1).0),
                coord_offset(location.1, self.delta_spec(location.1 % 2 == 1).1),
            ),
    {
        let odd_row: bool = location.1 % 2 == 1;
        match self {
            Self::Up => location.offset_by((0, -2)),
            Self::UpRight => location.offset_by((if odd_row { 1 } else { 0 }, -1)),
            Self::RightDown => location.offset_by((if odd_row { 1 } else { 0 }, 1)),
            Self::Down => location.offset_by((0, 2)),
            Self::DownLeft => location.offset_by((if odd_row { 0 } else { -1 }, 1)),
            Self::LeftUp => location.offset_by((if odd_row { 0 } else { -1 }, -1)),
        }
    }
}

impl SquareStep {
    /// Convert the graph in `board` to an array representation: a row-major
    /// grid of frozen cells, each carrying its kind and the directions in
    /// which edges leave its location.
    pub fn gph_to_array(dims: (usize, usize), board: &BoardGraph) -> (r: Vec<
        FrozenNumberLinkCell,
    >)
        requires
            1 <= dims.0,
            1 <= dims.1,
            dims.0 * dims.1 <= usize::MAX,
        ensures
            r@.len() == dims.0 * dims.1,
            forall|p: int|
                0 <= p < r@.len() ==> frozen_cell_matches(
                    board@,
                    Location((p % dims.0 as int) as usize, (p / dims.0 as int) as usize),
                    #[trigger] r@[p],
                ),
    {
        let w = dims.0;
        let h = dims.1;
        let total: usize = w * h;
        let mut r: Vec<FrozenNumberLinkCell> = Vec::new();
        let mut p: usize = 0;
        while p < total
            invariant
                1 <= w,
                total == w * h,
                p <= total,
                r@.len() == p,
                forall|q: int|
                    0 <= q < r@.len() ==> frozen_cell_matches(
                        board@,
                        Location((q % w as int) as usize, (q / w as int) as usize),
                        #[trigger] r@[q],
                    ),
            decreases total - p,
        {
            let x: usize = p % w;
            let y: usize = p / w;
            let loc = Location(x, y);
            let ns = collect_nodes_at(board, loc);
            let cell: FrozenNumberLinkCell = if ns.len() == 0 {
                FrozenNumberLinkCell { exits: Vec::new(), cell_type: FrozenCellKind::Empty }
            } else if ns.len() == 1 {
                let ct: FrozenCellKind = match ns[0].cell {
                    NumberlinkCell::Terminus { affiliation } => FrozenCellKind::Terminus {
                        affiliation,
                    },
                    NumberlinkCell::Path { affiliation } => FrozenCellKind::Path { affiliation },
                    NumberlinkCell::Empty => FrozenCellKind::Empty,
                    NumberlinkCell::Bridge { .. } => bridge_kind(&ns),
                };
                FrozenNumberLinkCell { exits: single_exits(board, loc), cell_type: ct }
            } else {
                FrozenNumberLinkCell { exits: bridge_exits(&ns), cell_type: bridge_kind(&ns) }
            };
            r.push(cell);
            p = p + 1;
        }
        r
    }

    /// Dump a row-major character grid, laying one row per line.
    pub fn print(dims: (usize, usize), board: &Vec<char>) -> (r: String)
        requires
            1 <= dims.0,
            1 <= dims.1,
            board@.len() == dims.0 * dims.1,
        ensures
            r@ == print_rows(board@, dims.0 as int, dims.1 as int),
    {
        let w = dims.0;
        let h = dims.1;
        let n_chars = board.len();
        let mut out = String::new();
        let mut y: usize = 0;
        while y < h
            invariant
                1 <= w,
                board@.len() == w * h,
                w * h <= usize::MAX,
                y <= h,
                out@ == print_rows(board@, w as int, y as int),
            decreases h - y,
        {
            let mut x: usize = 0;
            while x < w
                invariant
                    1 <= w,
                    board@.len() == w * h,
                    w * h <= usize::MAX,
                    y < h,
                    x <= w,
                    out@ == print_rows(board@, w as int, y as int) + print_row(
                        board@,
                        w as int,
                        y as int,
                        x as int,
                    ),
                decreases w - x,
            {
                proof {
                    crate::builder::lemma_pos_in_range(w as int, h as int, x as int, y as int);
                }
                push_char(&mut out, board[y * w + x]);
                proof {
                    assert(out@ =~= print_rows(board@, w as int, y as int) + print_row(
                        board@,
                        w as int,
                        y as int,
                        x as int + 1,
                    ));
                }
                x = x + 1;
            }
            push_char(&mut out, '\n');
            proof {
                assert(out@ =~= print_rows(board@, w as int, y as int + 1));
            }
            y = y + 1;
        }
        out
    }
}

/// Law: inverting a hexagonal-grid direction twice gives the direction back.
pub proof fn lemma_hex_invert_involution(d: HexStep)
    ensures
        d.invert_spec().invert_spec() == d,
{
}

/// Law: `ensure_forward` always yields a forward direction, on hexagonal
/// grids as well.
pub proof fn lemma_hex_ensure_forward_is_forward(d: HexStep)
    ensures
        d.ensure_forward_spec().is_forward(),
{
}

} // verus!
