use vstd::prelude::*;

use crate::board::{Board, BoardState};
use crate::cell::NumberlinkCell;
use crate::graph::{node_key, BoardGraph, GraphEdge, GraphState, Node};
use crate::location::Location;
use crate::shape::SquareStep;

verus! {

/// Reasons a builder may become invalid while building.
#[derive(Clone, Copy, PartialEq, Eq, Structural, Hash, Debug)]
pub enum BuilderInvalidReason {
    /// A feature like a bridge or terminus was placed outside the region the
    /// board's dimensions admit for it.
    FeatureOutOfBounds,
    /// A warp was placed somewhere no warp direction makes sense, e.g. away
    /// from every edge, or at a corner without a direction.
    WarpBadDirection,
}

/// The mathematical model of a builder: its dimensions, its row-major cell
/// grid, the display characters of the affiliations added so far, the
/// invalidity breadcrumbs, and the recorded walls, holes, bridges and warps.
#[verifier::ext_equal]
pub ghost struct BuilderState {
    pub dims: (usize, usize),
    pub cells: Seq<NumberlinkCell>,
    pub displays: Seq<char>,
    pub invalid: Seq<BuilderInvalidReason>,
    pub walls: Seq<(Location, Location)>,
    pub holes: Seq<Location>,
    pub bridges: Seq<Location>,
    pub warps: Seq<((Location, Location), SquareStep)>,
}

/// A cell a builder may hold: a terminus with a recorded display character,
/// or an empty cell.
pub open spec fn cell_wf(c: NumberlinkCell, num_displays: int) -> bool {
    match c {
        NumberlinkCell::Terminus { affiliation } => 1 <= affiliation <= num_displays,
        NumberlinkCell::Empty => true,
        _ => false,
    }
}

impl BuilderState {
    pub open spec fn width(self) -> int {
        self.dims.0 as int
    }

    pub open spec fn height(self) -> int {
        self.dims.1 as int
    }

    pub open spec fn in_bounds(self, loc: Location) -> bool {
        loc.0 < self.dims.0 && loc.1 < self.dims.1
    }

    /// The row-major position of a location.
    pub open spec fn pos(self, loc: Location) -> int {
        loc.1 * self.width() + loc.0
    }

    /// Strictly interior: at distance 1 or more from every board edge.
    pub open spec fn interior(self, loc: Location) -> bool {
        1 <= loc.0 && loc.0 + 1 < self.dims.0 && 1 <= loc.1 && loc.1 + 1 < self.dims.1
    }

    pub open spec fn holed(self, loc: Location) -> bool {
        self.holes.contains(loc)
    }

    pub open spec fn bridged(self, loc: Location) -> bool {
        self.bridges.contains(loc)
    }

    pub open spec fn walled(self, a: Location, b: Location) -> bool {
        self.walls.contains((a, b)) || self.walls.contains((b, a))
    }

    pub open spec fn is_valid(self) -> bool {
        self.invalid.len() == 0
    }

    /// A recorded warp: an unordered pair of opposite-edge locations along a
    /// single axis, kept in row-major order with the axis' forward direction.
    pub open spec fn warp_wf(self, w: ((Location, Location), SquareStep)) -> bool {
        let p1 = w.0.0;
        let p2 = w.0.1;
        let d = w.1;
        ||| {
            &&& d == SquareStep::Right
            &&& p1.1 == p2.1
            &&& p1.1 < self.dims.1
            &&& p1.0 == 0
            &&& p2.0 == self.dims.0 - 1
            &&& self.dims.0 >= 2
        }
        ||| {
            &&& d == SquareStep::Down
            &&& p1.0 == p2.0
            &&& p1.0 < self.dims.0
            &&& p1.1 == 0
            &&& p2.1 == self.dims.1 - 1
            &&& self.dims.1 >= 2
        }
    }

    /// Builder well-formedness, established by `with_dims` and preserved by
    /// every mutation.
    pub open spec fn wf(self) -> bool {
        &&& 1 <= self.dims.0
        &&& 1 <= self.dims.1
        &&& self.width() * self.height() <= usize::MAX
        &&& self.cells.len() == self.width() * self.height()
        &&& forall|k: int|
            0 <= k < self.cells.len() ==> cell_wf(
                #[trigger] self.cells[k],
                self.displays.len() as int,
            )
        &&& forall|i: int| 0 <= i < self.bridges.len() ==> self.interior(#[trigger] self.bridges[i])
        &&& forall|i: int| 0 <= i < self.warps.len() ==> self.warp_wf(#[trigger] self.warps[i])
        &&& forall|i: int, j: int|
            0 <= i < j < self.warps.len() ==> #[trigger] self.warps[i] != #[trigger] self.warps[j]
    }

    /// The state of a freshly constructed builder.
    pub open spec fn initial(dims: (usize, usize)) -> BuilderState {
        BuilderState {
            dims,
            cells: Seq::new((dims.0 * dims.1) as nat, |k: int| NumberlinkCell::Empty),
            displays: Seq::empty(),
            invalid: Seq::empty(),
            walls: Seq::empty(),
            holes: Seq::empty(),
            bridges: Seq::empty(),
            warps: Seq::empty(),
        }
    }

    /// The state after `add_termini(display, locations)`.
    pub open spec fn after_add_termini(
        self,
        display: char,
        locations: (Location, Location),
    ) -> BuilderState {
        if !self.is_valid() {
            self
        } else if !self.in_bounds(locations.0) || !self.in_bounds(locations.1) {
            BuilderState { invalid: self.invalid.push(BuilderInvalidReason::FeatureOutOfBounds), ..self }
        } else if self.displays.len() == usize::MAX {
            self
        } else {
            let aff = (self.displays.len() + 1) as usize;
            let cell = NumberlinkCell::Terminus { affiliation: aff };
            BuilderState {
                displays: self.displays.push(display),
                cells: self.cells.update(self.pos(locations.0), cell).update(
                    self.pos(locations.1),
                    cell,
                ),
                ..self
            }
        }
    }

    /// The state after `pop_termini()`.
    pub open spec fn after_pop_termini(self) -> BuilderState {
        if !self.is_valid() || self.displays.len() == 0 {
            self
        } else {
            let aff = self.displays.len() as usize;
            BuilderState {
                displays: self.displays.drop_last(),
                cells: Seq::new(
                    self.cells.len(),
                    |k: int|
                        if self.cells[k] == (NumberlinkCell::Terminus { affiliation: aff }) {
                            NumberlinkCell::Empty
                        } else {
                            self.cells[k]
                        },
                ),
                ..self
            }
        }
    }

    /// The state after `add_bridge(loc)`.
    pub open spec fn after_add_bridge(self, loc: Location) -> BuilderState {
        if !self.is_valid() {
            self
        } else if !self.interior(loc) {
            BuilderState { invalid: self.invalid.push(BuilderInvalidReason::FeatureOutOfBounds), ..self }
        } else if self.bridges.contains(loc) {
            self
        } else {
            BuilderState { bridges: self.bridges.push(loc), ..self }
        }
    }

    /// The state after `drop_location(loc)`.
    pub open spec fn after_drop_location(self, loc: Location) -> BuilderState {
        if !self.is_valid() {
            self
        } else if !self.in_bounds(loc) {
            BuilderState { invalid: self.invalid.push(BuilderInvalidReason::FeatureOutOfBounds), ..self }
        } else if self.holes.contains(loc) {
            self
        } else {
            BuilderState { holes: self.holes.push(loc), ..self }
        }
    }

    /// The state after `disconnect(locations)`.
    pub open spec fn after_disconnect(self, locations: (Location, Location)) -> BuilderState {
        if !self.is_valid() {
            self
        } else if !self.in_bounds(locations.0) || !self.in_bounds(locations.1) {
            BuilderState { invalid: self.invalid.push(BuilderInvalidReason::FeatureOutOfBounds), ..self }
        } else if SquareStep::direction_to_spec(locations.0, locations.1) is None {
            self
        } else if self.walled(locations.0, locations.1) {
            self
        } else {
            BuilderState { walls: self.walls.push(locations), ..self }
        }
    }

    /// The state after `disconnect_around(loc, dirs)`: one `disconnect` per
    /// direction, applied in order.
    pub open spec fn after_disconnect_around(
        self,
        loc: Location,
        dirs: Seq<SquareStep>,
    ) -> BuilderState
        decreases dirs.len(),
    {
        if dirs.len() == 0 {
            self
        } else {
            self.after_disconnect_around(loc, dirs.drop_last()).after_disconnect(
                (loc, dirs.last().step_spec(loc)),
            )
        }
    }

    /// Whether a location lies on some edge of the board.
    pub open spec fn on_edge(self, loc: Location) -> bool {
        loc.0 == 0 || loc.1 == 0 || loc.0 == self.dims.0 - 1 || loc.1 == self.dims.1 - 1
    }

    /// Whether a location is a corner of the board.
    pub open spec fn is_corner(self, loc: Location) -> bool {
        (loc.0 == 0 || loc.0 == self.dims.0 - 1) && (loc.1 == 0 || loc.1 == self.dims.1 - 1)
    }

    /// The board edge a warp at `loc` leaves through, unless `loc` is a
    /// corner and no direction was supplied.
    pub open spec fn warp_edge_of(self, loc: Location, direction: Option<SquareStep>) -> Option<
        SquareStep,
    > {
        if self.is_corner(loc) {
            direction
        } else if loc.0 == 0 {
            Some(SquareStep::Left)
        } else if loc.1 == 0 {
            Some(SquareStep::Up)
        } else if loc.0 == self.dims.0 - 1 {
            Some(SquareStep::Right)
        } else {
            Some(SquareStep::Down)
        }
    }

    /// The opposite-edge partner of a warp at `loc` leaving through `edge`.
    pub open spec fn warp_partner(self, loc: Location, edge: SquareStep) -> Location {
        match edge {
            SquareStep::Up => Location(loc.0, (self.dims.1 - 1) as usize),
            SquareStep::Down => Location(loc.0, 0),
            SquareStep::Left => Location((self.dims.0 - 1) as usize, loc.1),
            SquareStep::Right => Location(0, loc.1),
        }
    }

    /// The recorded warp entry for `loc` and `edge`: the pair in row-major
    /// order, with the forward direction of the warp's axis.
    pub open spec fn warp_entry(self, loc: Location, edge: SquareStep) -> (
        (Location, Location),
        SquareStep,
    ) {
        let partner = self.warp_partner(loc, edge);
        match edge {
            SquareStep::Up => ((loc, partner), SquareStep::Down),
            SquareStep::Down => ((partner, loc), SquareStep::Down),
            SquareStep::Left => ((loc, partner), SquareStep::Right),
            SquareStep::Right => ((partner, loc), SquareStep::Right),
        }
    }

    /// The state after `add_warp(loc, direction)`.
    pub open spec fn after_add_warp(self, loc: Location, direction: Option<SquareStep>) -> BuilderState {
        if !self.is_valid() {
            self
        } else if !self.in_bounds(loc) {
            BuilderState { invalid: self.invalid.push(BuilderInvalidReason::FeatureOutOfBounds), ..self }
        } else if !self.on_edge(loc) {
            BuilderState { invalid: self.invalid.push(BuilderInvalidReason::WarpBadDirection), ..self }
        } else {
            match self.warp_edge_of(loc, direction) {
                None => BuilderState {
                    invalid: self.invalid.push(BuilderInvalidReason::WarpBadDirection),
                    ..self
                },
                Some(edge) => {
                    if self.warp_partner(loc, edge) == loc {
                        BuilderState {
                            invalid: self.invalid.push(BuilderInvalidReason::WarpBadDirection),
                            ..self
                        }
                    } else if self.warps.contains(self.warp_entry(loc, edge)) {
                        self
                    } else {
                        BuilderState { warps: self.warps.push(self.warp_entry(loc, edge)), ..self }
                    }
                },
            }
        }
    }
}

impl BuilderState {
    /// The nodes that lowering gives one location: none for a hole, one lane
    /// per forward axis for a bridge, else a single node with the location's
    /// cell.
    pub open spec fn loc_nodes(self, loc: Location) -> Seq<Node> {
        if self.holed(loc) {
            Seq::empty()
        } else if self.bridged(loc) {
            seq![
                Node {
                    location: loc,
                    cell: NumberlinkCell::Bridge {
                        affiliation: None,
                        direction: SquareStep::Right,
                    },
                },
                Node {
                    location: loc,
                    cell: NumberlinkCell::Bridge { affiliation: None, direction: SquareStep::Down },
                },
            ]
        } else {
            seq![Node { location: loc, cell: self.cells[self.pos(loc)] }]
        }
    }

    /// The nodes of the first `x` locations of row `y`.
    pub open spec fn row_nodes(self, y: int, x: int) -> Seq<Node>
        decreases x,
    {
        if x <= 0 {
            Seq::empty()
        } else {
            self.row_nodes(y, x - 1) + self.loc_nodes(Location((x - 1) as usize, y as usize))
        }
    }

    /// The nodes of the first `y` full rows.
    pub open spec fn rows_nodes(self, y: int) -> Seq<Node>
        decreases y,
    {
        if y <= 0 {
            Seq::empty()
        } else {
            self.rows_nodes(y - 1) + self.row_nodes(y - 1, self.width())
        }
    }

    /// All nodes of the built graph, in row-major location order.
    pub open spec fn built_nodes(self) -> Seq<Node> {
        self.rows_nodes(self.height())
    }

    /// The index of the first node at location `(x, y)` in `built_nodes`.
    pub open spec fn start_idx(self, x: int, y: int) -> int {
        self.rows_nodes(y).len() + self.row_nodes(y, x).len() as int
    }

    /// The index of the first node of the location with row-major position `p`.
    pub open spec fn start_at(self, p: int) -> int {
        self.start_idx(p % self.width(), p / self.width())
    }

    /// Bridge lanes sit at the start index (`Right` lane) and just after it
    /// (`Down` lane); every other node sits at the start index itself.
    pub open spec fn lane_off(self, loc: Location, d: SquareStep) -> int {
        if self.bridged(loc) && d == SquareStep::Down {
            1
        } else {
            0
        }
    }

    /// Whether lowering produces the grid edge leaving `loc` in forward
    /// direction `d`: both endpoints in bounds and alive, and no wall.
    pub open spec fn grid_edge_present(self, loc: Location, d: SquareStep) -> bool {
        let t = d.step_spec(loc);
        &&& self.in_bounds(loc)
        &&& self.in_bounds(t)
        &&& !self.holed(loc)
        &&& !self.holed(t)
        &&& !self.walled(loc, t)
    }

    /// The grid edge leaving `loc` in forward direction `d`, attached to the
    /// lane of axis `d` on both endpoints, with null affiliation.
    pub open spec fn grid_edge(self, loc: Location, d: SquareStep) -> GraphEdge {
        let t = d.step_spec(loc);
        GraphEdge {
            a: (self.start_idx(loc.0 as int, loc.1 as int) + self.lane_off(loc, d)) as usize,
            b: (self.start_idx(t.0 as int, t.1 as int) + self.lane_off(t, d)) as usize,
            affiliation: 0,
            direction: d,
        }
    }

    /// The grid edges contributed by one location: rightward then downward.
    pub open spec fn loc_edges(self, loc: Location) -> Seq<GraphEdge> {
        (if self.grid_edge_present(loc, SquareStep::Right) {
            seq![self.grid_edge(loc, SquareStep::Right)]
        } else {
            Seq::empty()
        }) + (if self.grid_edge_present(loc, SquareStep::Down) {
            seq![self.grid_edge(loc, SquareStep::Down)]
        } else {
            Seq::empty()
        })
    }

    /// The grid edges of the first `x` locations of row `y`.
    pub open spec fn row_edges(self, y: int, x: int) -> Seq<GraphEdge>
        decreases x,
    {
        if x <= 0 {
            Seq::empty()
        } else {
            self.row_edges(y, x - 1) + self.loc_edges(Location((x - 1) as usize, y as usize))
        }
    }

    /// The grid edges of the first `y` full rows.
    pub open spec fn rows_edges(self, y: int) -> Seq<GraphEdge>
        decreases y,
    {
        if y <= 0 {
            Seq::empty()
        } else {
            self.rows_edges(y - 1) + self.row_edges(y - 1, self.width())
        }
    }

    /// All grid edges of the built graph.
    pub open spec fn grid_edges(self) -> Seq<GraphEdge> {
        self.rows_edges(self.height())
    }

    /// Whether a recorded warp survives lowering: both endpoints alive, the
    /// pair not walled, and the pair not adjacent (an adjacent pair already
    /// carries the identical grid edge).
    pub open spec fn warp_ok(self, wrp: ((Location, Location), SquareStep)) -> bool {
        &&& !self.holed(wrp.0.0)
        &&& !self.holed(wrp.0.1)
        &&& !self.walled(wrp.0.0, wrp.0.1)
        &&& SquareStep::direction_to_spec(wrp.0.0, wrp.0.1) is None
    }

    /// The edge a recorded warp lowers to, with null affiliation and the
    /// forward direction of the warp's axis.
    pub open spec fn warp_edge(self, wrp: ((Location, Location), SquareStep)) -> GraphEdge {
        GraphEdge {
            a: self.start_idx(wrp.0.0.0 as int, wrp.0.0.1 as int) as usize,
            b: self.start_idx(wrp.0.1.0 as int, wrp.0.1.1 as int) as usize,
            affiliation: 0,
            direction: wrp.1,
        }
    }

    /// The edges of the first `k` recorded warps that survive lowering.
    pub open spec fn warps_upto(self, k: int) -> Seq<GraphEdge>
        decreases k,
    {
        if k <= 0 {
            Seq::empty()
        } else {
            self.warps_upto(k - 1) + (if self.warp_ok(self.warps[k - 1]) {
                seq![self.warp_edge(self.warps[k - 1])]
            } else {
                Seq::empty()
            })
        }
    }

    /// All edges of the built graph: grid edges, then warp edges.
    pub open spec fn built_edges(self) -> Seq<GraphEdge> {
        self.grid_edges() + self.warps_upto(self.warps.len() as int)
    }

    /// The graph `build()` produces from a valid builder.
    pub open spec fn built_graph(self) -> GraphState {
        GraphState { nodes: self.built_nodes(), edges: self.built_edges() }
    }

    /// The board `build()` produces from a valid builder: the lowered graph
    /// and the display table, with `'.'` installed for the null color.
    pub open spec fn built_board(self) -> BoardState {
        BoardState {
            graph: self.built_graph(),
            dims: self.dims,
            displays: seq!['.'] + self.displays,
        }
    }
}

/// Law: adding a bridge twice at one location leaves the builder exactly as
/// adding it once does.
pub proof fn lemma_add_bridge_idempotent(s: BuilderState, loc: Location)
    ensures
        s.after_add_bridge(loc).after_add_bridge(loc) == s.after_add_bridge(loc),
{
    let s1 = s.after_add_bridge(loc);
    if s.is_valid() {
        if !s.interior(loc) {
            assert(!s1.is_valid());
        } else if !s.bridges.contains(loc) {
            assert(s1.bridges[s.bridges.len() as int] == loc);
            assert(s1.bridges.contains(loc));
        }
    }
}

/// Disconnecting the same pair twice in a row changes nothing more than
/// disconnecting it once.
proof fn lemma_disconnect_idempotent(s: BuilderState, locs: (Location, Location))
    ensures
        s.after_disconnect(locs).after_disconnect(locs) == s.after_disconnect(locs),
{
    let s1 = s.after_disconnect(locs);
    if s.is_valid() {
        if !s.in_bounds(locs.0) || !s.in_bounds(locs.1) {
            assert(!s1.is_valid());
        } else if SquareStep::direction_to_spec(locs.0, locs.1) is Some {
            if !s.walled(locs.0, locs.1) {
                assert(s1.walls[s.walls.len() as int] == locs);
                assert(s1.walls.contains(locs));
            }
        }
    }
}

/// A pair whose disconnect is already a no-op stays a no-op after any other
/// disconnect.
proof fn lemma_disconnect_noop_stable(
    s: BuilderState,
    locs: (Location, Location),
    other: (Location, Location),
)
    requires
        s.after_disconnect(locs) == s,
    ensures
        s.after_disconnect(other).after_disconnect(locs) == s.after_disconnect(other),
{
    let s2 = s.after_disconnect(other);
    if s.is_valid() && s2.is_valid() {
        if !s.in_bounds(locs.0) || !s.in_bounds(locs.1) {
            assert(s.after_disconnect(locs).invalid.len() == s.invalid.len() + 1);
        } else if SquareStep::direction_to_spec(locs.0, locs.1) is Some {
            if s.walled(locs.0, locs.1) {
                if s.walls.contains((locs.0, locs.1)) {
                    let i = choose|i: int|
                        0 <= i < s.walls.len() && s.walls[i] == (locs.0, locs.1);
                    assert(s2.walls[i] == (locs.0, locs.1));
                    assert(s2.walls.contains((locs.0, locs.1)));
                } else {
                    let i = choose|i: int|
                        0 <= i < s.walls.len() && s.walls[i] == (locs.1, locs.0);
                    assert(s2.walls[i] == (locs.1, locs.0));
                    assert(s2.walls.contains((locs.1, locs.0)));
                }
            } else {
                assert(s.after_disconnect(locs).walls.len() == s.walls.len() + 1);
            }
        }
    }
}

/// After a direction of `dirs` has been applied once, applying its
/// disconnect again does not change the folded state.
proof fn lemma_disconnect_around_applied(
    s: BuilderState,
    loc: Location,
    dirs: Seq<SquareStep>,
    d: SquareStep,
)
    requires
        dirs.contains(d),
    ensures
        s.after_disconnect_around(loc, dirs).after_disconnect((loc, d.step_spec(loc)))
            == s.after_disconnect_around(loc, dirs),
    decreases dirs.len(),
{
    let prev = s.after_disconnect_around(loc, dirs.drop_last());
    if dirs.last() == d {
        lemma_disconnect_idempotent(prev, (loc, d.step_spec(loc)));
    } else {
        let i = choose|i: int| 0 <= i < dirs.len() && dirs[i] == d;
        assert(dirs.drop_last()[i] == d);
        assert(dirs.drop_last().contains(d));
        lemma_disconnect_around_applied(s, loc, dirs.drop_last(), d);
        lemma_disconnect_noop_stable(
            prev,
            (loc, d.step_spec(loc)),
            (loc, dirs.last().step_spec(loc)),
        );
    }
}

/// `dirs` with every appearance of a direction after its first removed.
pub open spec fn dedup_dirs(dirs: Seq<SquareStep>) -> Seq<SquareStep>
    decreases dirs.len(),
{
    if dirs.len() == 0 {
        dirs
    } else if dirs.drop_last().contains(dirs.last()) {
        dedup_dirs(dirs.drop_last())
    } else {
        dedup_dirs(dirs.drop_last()).push(dirs.last())
    }
}

/// Law: `disconnect_around` with duplicate directions is equivalent to the
/// deduplicated form: the folded builder states are equal.
pub proof fn lemma_disconnect_around_dedup(s: BuilderState, loc: Location, dirs: Seq<SquareStep>)
    ensures
        s.after_disconnect_around(loc, dirs) == s.after_disconnect_around(loc, dedup_dirs(dirs)),
    decreases dirs.len(),
{
    if dirs.len() > 0 {
        lemma_disconnect_around_dedup(s, loc, dirs.drop_last());
        if dirs.drop_last().contains(dirs.last()) {
            lemma_disconnect_around_applied(s, loc, dirs.drop_last(), dirs.last());
        } else {
            let dd = dedup_dirs(dirs);
            assert(dd == dedup_dirs(dirs.drop_last()).push(dirs.last()));
            assert(dd.drop_last() =~= dedup_dirs(dirs.drop_last()));
            assert(dd.last() == dirs.last());
            assert(dd.len() > 0);
        }
    }
}

/// For an in-bounds column `x`, row-major positions decompose uniquely:
/// `(y*w + x) / w == y` and `(y*w + x) % w == x`.
pub proof fn lemma_pos_div_mod(w: int, x: int, y: int)
    requires
        0 <= x < w,
        0 <= y,
    ensures
        (y * w + x) % w == x,
        (y * w + x) / w == y,
{
    vstd::arithmetic::div_mod::lemma_fundamental_div_mod_converse(y * w + x, w, y, x);
}

/// How many nodes of `nodes` carry a terminus cell of affiliation `a`.
pub open spec fn count_term(nodes: Seq<Node>, a: usize) -> int
    decreases nodes.len(),
{
    if nodes.len() == 0 {
        0
    } else {
        count_term(nodes.drop_last(), a) + (
        if nodes.last().cell == (NumberlinkCell::Terminus { affiliation: a }) {
            1int
        } else {
            0int
        })
    }
}

/// `select_at` distributes over concatenation.
proof fn lemma_select_at_add(a: Seq<Node>, b: Seq<Node>, loc: Location)
    ensures
        crate::shape::select_at(a + b, loc) == crate::shape::select_at(a, loc)
            + crate::shape::select_at(b, loc),
    decreases b.len(),
{
    if b.len() == 0 {
        assert(a + b =~= a);
        assert(crate::shape::select_at(a, loc) + crate::shape::select_at(b, loc)
            =~= crate::shape::select_at(a, loc));
    } else {
        assert((a + b).drop_last() =~= a + b.drop_last());
        lemma_select_at_add(a, b.drop_last(), loc);
        assert((a + b).last() == b.last());
        assert(crate::shape::select_at(a, loc) + crate::shape::select_at(b, loc)
            =~= crate::shape::select_at(a + b, loc));
    }
}

/// `count_term` distributes over concatenation.
proof fn lemma_count_term_add(a: Seq<Node>, b: Seq<Node>, aff: usize)
    ensures
        count_term(a + b, aff) == count_term(a, aff) + count_term(b, aff),
    decreases b.len(),
{
    if b.len() == 0 {
        assert(a + b =~= a);
    } else {
        assert((a + b).drop_last() =~= a + b.drop_last());
        lemma_count_term_add(a, b.drop_last(), aff);
    }
}

impl BuilderState {
    /// The nodes one location contributes, selected by any location: its own
    /// nodes for itself, nothing for any other location.
    proof fn lemma_select_loc_nodes(self, at: Location, loc: Location)
        ensures
            crate::shape::select_at(self.loc_nodes(at), loc) == (if at == loc {
                self.loc_nodes(loc)
            } else {
                Seq::<Node>::empty()
            }),
    {
        let ns = self.loc_nodes(at);
        reveal_with_fuel(crate::shape::select_at, 4);
        if self.holed(at) {
        } else if self.bridged(at) {
            assert(ns.drop_last() =~= seq![ns[0]]);
            assert(seq![ns[0]].drop_last() =~= Seq::<Node>::empty());
            if at == loc {
                assert(crate::shape::select_at(ns, loc) =~= ns);
            } else {
                assert(crate::shape::select_at(ns, loc) =~= Seq::<Node>::empty());
            }
        } else {
            assert(ns.drop_last() =~= Seq::<Node>::empty());
            if at == loc {
                assert(crate::shape::select_at(ns, loc) =~= ns);
            } else {
                assert(crate::shape::select_at(ns, loc) =~= Seq::<Node>::empty());
            }
        }
    }

    /// Selecting a location out of a row prefix yields that location's nodes
    /// exactly when the location lies in the prefix.
    proof fn lemma_select_row_nodes(self, y: int, x: int, loc: Location)
        requires
            0 <= y <= usize::MAX,
            0 <= x <= usize::MAX,
        ensures
            crate::shape::select_at(self.row_nodes(y, x), loc) == (
            if loc.1 == y && loc.0 < x {
                self.loc_nodes(loc)
            } else {
                Seq::<Node>::empty()
            }),
        decreases x,
    {
        if x == 0 {
        } else {
            self.lemma_select_row_nodes(y, x - 1, loc);
            let at = Location((x - 1) as usize, y as usize);
            lemma_select_at_add(self.row_nodes(y, x - 1), self.loc_nodes(at), loc);
            self.lemma_select_loc_nodes(at, loc);
            if loc.1 == y && loc.0 < x {
                if loc.0 == x - 1 {
                    assert(at == loc);
                    assert(Seq::<Node>::empty() + self.loc_nodes(loc) =~= self.loc_nodes(loc));
                } else {
                    assert(at != loc);
                    assert(self.loc_nodes(loc) + Seq::<Node>::empty() =~= self.loc_nodes(loc));
                }
            } else {
                assert(at != loc);
                assert(Seq::<Node>::empty() + Seq::<Node>::empty() =~= Seq::<Node>::empty());
            }
        }
    }

    /// Selecting a location out of the first `y` rows yields that location's
    /// nodes exactly when the location lies in them.
    proof fn lemma_select_rows_nodes(self, y: int, loc: Location)
        requires
            0 <= y <= usize::MAX,
            self.width() <= usize::MAX,
        ensures
            crate::shape::select_at(self.rows_nodes(y), loc) == (
            if loc.1 < y && loc.0 < self.width() {
                self.loc_nodes(loc)
            } else {
                Seq::<Node>::empty()
            }),
        decreases y,
    {
        if y > 0 {
            self.lemma_select_rows_nodes(y - 1, loc);
            lemma_select_at_add(self.rows_nodes(y - 1), self.row_nodes(y - 1, self.width()), loc);
            self.lemma_select_row_nodes(y - 1, self.width(), loc);
            if loc.1 < y && loc.0 < self.width() {
                if loc.1 == y - 1 {
                    assert(Seq::<Node>::empty() + self.loc_nodes(loc) =~= self.loc_nodes(loc));
                } else {
                    assert(self.loc_nodes(loc) + Seq::<Node>::empty() =~= self.loc_nodes(loc));
                }
            } else {
                assert(Seq::<Node>::empty() + Seq::<Node>::empty() =~= Seq::<Node>::empty());
            }
        }
    }

    /// The nodes of the built graph at an in-bounds location are exactly the
    /// nodes lowering gives that location.
    pub proof fn lemma_nodes_at_location(self, loc: Location)
        requires
            self.in_bounds(loc),
        ensures
            crate::shape::select_at(self.built_nodes(), loc) == self.loc_nodes(loc),
    {
        self.lemma_select_rows_nodes(self.height(), loc);
    }

    /// Law: a bridge location that lowering keeps carries exactly one node
    /// per forward axis of the square grid.
    pub proof fn lemma_bridge_lanes(self, loc: Location)
        requires
            self.wf(),
            self.bridged(loc),
            !self.holed(loc),
        ensures
            crate::shape::select_at(self.built_nodes(), loc).len() == 2,
    {
        let i = choose|i: int| 0 <= i < self.bridges.len() && self.bridges[i] == loc;
        assert(self.interior(self.bridges[i]));
        self.lemma_nodes_at_location(loc);
    }

    /// Law: the built graph holds exactly two terminus nodes of affiliation
    /// `a` whenever exactly two cell sites carrying `Terminus { a }` survive
    /// lowering (are neither holed nor bridged).
    pub proof fn lemma_two_termini(self, a: usize)
        requires
            self.term_sites_rows(a, self.height()) == 2,
        ensures
            count_term(self.built_nodes(), a) == 2,
    {
        self.lemma_count_term_rows(a, self.height());
    }

    /// How many of the first `x` cells of row `y` are surviving terminus
    /// sites of affiliation `a`.
    pub open spec fn term_sites_row(self, a: usize, y: int, x: int) -> int
        decreases x,
    {
        if x <= 0 {
            0
        } else {
            let loc = Location((x - 1) as usize, y as usize);
            self.term_sites_row(a, y, x - 1) + (
            if !self.holed(loc) && !self.bridged(loc) && self.cells[self.pos(loc)] == (
            NumberlinkCell::Terminus { affiliation: a }) {
                1int
            } else {
                0int
            })
        }
    }

    /// How many surviving terminus sites of affiliation `a` the first `y`
    /// rows hold.
    pub open spec fn term_sites_rows(self, a: usize, y: int) -> int
        decreases y,
    {
        if y <= 0 {
            0
        } else {
            self.term_sites_rows(a, y - 1) + self.term_sites_row(a, y - 1, self.width())
        }
    }

    /// One location's lowered nodes hold a terminus of `a` exactly when the
    /// location is a surviving terminus site of `a`.
    proof fn lemma_count_term_loc(self, a: usize, at: Location)
        ensures
            count_term(self.loc_nodes(at), a) == (
            if !self.holed(at) && !self.bridged(at) && self.cells[self.pos(at)] == (
            NumberlinkCell::Terminus { affiliation: a }) {
                1int
            } else {
                0int
            }),
    {
        let ns = self.loc_nodes(at);
        reveal_with_fuel(count_term, 4);
        if self.holed(at) {
        } else if self.bridged(at) {
            assert(ns.drop_last() =~= seq![ns[0]]);
            assert(seq![ns[0]].drop_last() =~= Seq::<Node>::empty());
        } else {
            assert(ns.drop_last() =~= Seq::<Node>::empty());
        }
    }

    proof fn lemma_count_term_row(self, a: usize, y: int, x: int)
        requires
            0 <= y,
            0 <= x,
        ensures
            count_term(self.row_nodes(y, x), a) == self.term_sites_row(a, y, x),
        decreases x,
    {
        if x > 0 {
            self.lemma_count_term_row(a, y, x - 1);
            let at = Location((x - 1) as usize, y as usize);
            lemma_count_term_add(self.row_nodes(y, x - 1), self.loc_nodes(at), a);
            self.lemma_count_term_loc(a, at);
        }
    }

    proof fn lemma_count_term_rows(self, a: usize, y: int)
        requires
            0 <= y,
        ensures
            count_term(self.rows_nodes(y), a) == self.term_sites_rows(a, y),
        decreases y,
    {
        if y > 0 {
            self.lemma_count_term_rows(a, y - 1);
            lemma_count_term_add(self.rows_nodes(y - 1), self.row_nodes(y - 1, self.width()), a);
            self.lemma_count_term_row(a, y - 1, self.width());
        }
    }
}

impl BuilderState {
    /// A featureless builder: no bridges, holes, walls or warps.
    pub open spec fn featureless(self) -> bool {
        &&& self.bridges.len() == 0
        &&& self.holes.len() == 0
        &&& self.walls.len() == 0
        &&& self.warps.len() == 0
    }

    proof fn lemma_row_nodes_len_plain(self, y: int, x: int)
        requires
            self.featureless(),
            0 <= x <= self.width(),
            0 <= y < self.height(),
        ensures
            self.row_nodes(y, x).len() == x,
        decreases x,
    {
        if x > 0 {
            self.lemma_row_nodes_len_plain(y, x - 1);
        }
    }

    proof fn lemma_rows_nodes_len_plain(self, y: int)
        requires
            self.featureless(),
            0 <= y <= self.height(),
        ensures
            self.rows_nodes(y).len() == y * self.width(),
        decreases y,
    {
        if y > 0 {
            self.lemma_rows_nodes_len_plain(y - 1);
            self.lemma_row_nodes_len_plain(y - 1, self.width());
            assert(y * self.width() == (y - 1) * self.width() + self.width()) by (nonlinear_arith);
        } else {
            assert(y * self.width() == 0) by (nonlinear_arith)
                requires
                    y == 0,
            ;
        }
    }

    proof fn lemma_row_edges_len_plain(self, y: int, x: int)
        requires
            self.wf(),
            self.featureless(),
            0 <= x <= self.width(),
            0 <= y < self.height(),
        ensures
            self.row_edges(y, x).len() == (if x == self.width() {
                self.width() - 1
            } else {
                x
            }) + (if y + 1 < self.height() {
                x
            } else {
                0int
            }),
        decreases x,
    {
        if x > 0 {
            self.lemma_row_edges_len_plain(y, x - 1);
            let loc = Location((x - 1) as usize, y as usize);
            crate::location::lemma_coord_offset_in_range(loc.0, 1);
            crate::location::lemma_coord_offset_in_range(loc.0, 0);
            crate::location::lemma_coord_offset_in_range(loc.1, 1);
            crate::location::lemma_coord_offset_in_range(loc.1, 0);
        }
    }

    proof fn lemma_rows_edges_len_plain(self, y: int)
        requires
            self.wf(),
            self.featureless(),
            0 <= y <= self.height(),
        ensures
            self.rows_edges(y).len() == y * (self.width() - 1) + (if y == self.height() {
                self.height() - 1
            } else {
                y
            }) * self.width(),
        decreases y,
    {
        if y == 0 {
            assert(y * (self.width() - 1) == 0) by (nonlinear_arith)
                requires
                    y == 0,
            ;
            assert(y * self.width() == 0) by (nonlinear_arith)
                requires
                    y == 0,
            ;
        }
        if y > 0 {
            self.lemma_rows_edges_len_plain(y - 1);
            self.lemma_row_edges_len_plain(y - 1, self.width());
            assert(y * (self.width() - 1) == (y - 1) * (self.width() - 1) + (self.width() - 1))
                by (nonlinear_arith);
            if y == self.height() {
                assert((self.height() - 1) * self.width() == (y - 1) * self.width())
                    by (nonlinear_arith)
                    requires
                        y == self.height(),
                ;
            } else {
                assert(y * self.width() == (y - 1) * self.width() + self.width())
                    by (nonlinear_arith);
            }
        }
    }

    /// Law: building a valid `w` by `h` board with no bridges, warps, holes
    /// or walls yields exactly `w*h` nodes and `w*(h-1) + h*(w-1)` edges.
    pub proof fn lemma_build_counts(self)
        requires
            self.wf(),
            self.featureless(),
        ensures
            self.built_nodes().len() == self.width() * self.height(),
            self.built_edges().len() == self.width() * (self.height() - 1) + self.height() * (
            self.width() - 1),
    {
        self.lemma_rows_nodes_len_plain(self.height());
        self.lemma_rows_edges_len_plain(self.height());
        assert(self.height() * self.width() == self.width() * self.height()) by (nonlinear_arith);
        assert(self.height() * (self.width() - 1) == self.height() * self.width() - self.height())
            by (nonlinear_arith);
        assert(self.width() * (self.height() - 1) == self.width() * self.height() - self.width())
            by (nonlinear_arith);
    }

    proof fn lemma_row_edges_forward(self, y: int, x: int)
        requires
            0 <= x,
            0 <= y,
        ensures
            forall|j: int|
                0 <= j < self.row_edges(y, x).len() ==> (#[trigger] self.row_edges(y, x)[j]).direction
                    == self.row_edges(y, x)[j].direction.ensure_forward_spec(),
        decreases x,
    {
        if x > 0 {
            self.lemma_row_edges_forward(y, x - 1);
        }
    }

    proof fn lemma_rows_edges_forward(self, y: int)
        requires
            0 <= y,
        ensures
            forall|j: int|
                0 <= j < self.rows_edges(y).len() ==> (#[trigger] self.rows_edges(y)[j]).direction
                    == self.rows_edges(y)[j].direction.ensure_forward_spec(),
        decreases y,
    {
        if y > 0 {
            self.lemma_rows_edges_forward(y - 1);
            self.lemma_row_edges_forward(y - 1, self.width());
        }
    }

    proof fn lemma_warps_forward(self, k: int)
        requires
            self.wf(),
            0 <= k <= self.warps.len(),
        ensures
            forall|j: int|
                0 <= j < self.warps_upto(k).len() ==> (#[trigger] self.warps_upto(k)[j]).direction
                    == self.warps_upto(k)[j].direction.ensure_forward_spec(),
        decreases k,
    {
        if k > 0 {
            self.lemma_warps_forward(k - 1);
            assert(self.warp_wf(self.warps[k - 1]));
        }
    }

    /// Law: every edge of the built graph stores its direction canonically,
    /// equal to its own `ensure_forward` image.
    pub proof fn lemma_edge_directions_forward(self)
        requires
            self.wf(),
        ensures
            forall|j: int|
                0 <= j < self.built_edges().len() ==> (#[trigger] self.built_edges()[j]).direction
                    == self.built_edges()[j].direction.ensure_forward_spec(),
    {
        self.lemma_rows_edges_forward(self.height());
        self.lemma_warps_forward(self.warps.len() as int);
        assert forall|j: int| 0 <= j < self.built_edges().len() implies (
        #[trigger] self.built_edges()[j]).direction
            == self.built_edges()[j].direction.ensure_forward_spec() by {
            let ge = self.grid_edges();
            if j < ge.len() {
                assert(self.built_edges()[j] == ge[j]);
            } else {
                assert(self.built_edges()[j] == self.warps_upto(self.warps.len() as int)[j
                    - ge.len()]);
            }
        }
    }
}

/// How many occurrences of exactly the node value `v` a node list holds.
pub open spec fn count_node(nodes: Seq<Node>, v: Node) -> int
    decreases nodes.len(),
{
    if nodes.len() == 0 {
        0
    } else {
        count_node(nodes.drop_last(), v) + (if nodes.last() == v {
            1int
        } else {
            0int
        })
    }
}

/// Occurrence counts are not negative.
proof fn lemma_count_node_nonneg(nodes: Seq<Node>, v: Node)
    ensures
        count_node(nodes, v) >= 0,
    decreases nodes.len(),
{
    if nodes.len() > 0 {
        lemma_count_node_nonneg(nodes.drop_last(), v);
    }
}

/// A node list member has a positive occurrence count.
proof fn lemma_count_node_member(nodes: Seq<Node>, i: int)
    requires
        0 <= i < nodes.len(),
    ensures
        count_node(nodes, nodes[i]) >= 1,
    decreases nodes.len(),
{
    if i < nodes.len() - 1 {
        lemma_count_node_member(nodes.drop_last(), i);
        assert(nodes.drop_last()[i] == nodes[i]);
        lemma_count_node_nonneg(nodes.drop_last(), nodes[i]);
    } else {
        lemma_count_node_nonneg(nodes.drop_last(), nodes[i]);
    }
}

/// Two distinct occurrences of one node value give a count of at least two.
proof fn lemma_count_node_two(nodes: Seq<Node>, i: int, j: int)
    requires
        0 <= i < j < nodes.len(),
        nodes[i] == nodes[j],
    ensures
        count_node(nodes, nodes[i]) >= 2,
    decreases nodes.len(),
{
    if j == nodes.len() - 1 {
        lemma_count_node_member(nodes.drop_last(), i);
    } else {
        lemma_count_node_two(nodes.drop_last(), i, j);
    }
}

/// Selecting a node's own location keeps its occurrence count.
proof fn lemma_count_node_select(nodes: Seq<Node>, v: Node)
    ensures
        count_node(crate::shape::select_at(nodes, v.location), v) == count_node(nodes, v),
    decreases nodes.len(),
{
    if nodes.len() > 0 {
        lemma_count_node_select(nodes.drop_last(), v);
        let prev = crate::shape::select_at(nodes.drop_last(), v.location);
        if nodes.last().location == v.location {
            assert((prev + seq![nodes.last()]).drop_last() =~= prev);
        }
    }
}

impl BuilderState {
    /// Every node of a row prefix sits in that row, at a column inside the
    /// prefix.
    proof fn lemma_row_nodes_locs(self, y: int, x: int)
        requires
            0 <= y <= usize::MAX,
            0 <= x <= usize::MAX,
        ensures
            forall|q: int|
                0 <= q < self.row_nodes(y, x).len() ==> (#[trigger] self.row_nodes(y, x)[q]).location.1
                    == y && self.row_nodes(y, x)[q].location.0 < x,
        decreases x,
    {
        if x > 0 {
            self.lemma_row_nodes_locs(y, x - 1);
            let at = Location((x - 1) as usize, y as usize);
            let prev = self.row_nodes(y, x - 1);
            assert forall|q: int| 0 <= q < self.row_nodes(y, x).len() implies (
            #[trigger] self.row_nodes(y, x)[q]).location.1 == y && self.row_nodes(y, x)[q].location.0
                < x by {
                if q < prev.len() {
                    assert(self.row_nodes(y, x)[q] == prev[q]);
                } else {
                    assert(self.row_nodes(y, x)[q] == self.loc_nodes(at)[q - prev.len()]);
                }
            }
        }
    }

    /// Every node of the first `y` rows sits in one of those rows, at an
    /// in-range column.
    proof fn lemma_rows_nodes_locs(self, y: int)
        requires
            0 <= y <= usize::MAX,
            self.width() <= usize::MAX,
        ensures
            forall|q: int|
                0 <= q < self.rows_nodes(y).len() ==> (#[trigger] self.rows_nodes(y)[q]).location.1
                    < y && self.rows_nodes(y)[q].location.0 < self.width(),
        decreases y,
    {
        if y > 0 {
            self.lemma_rows_nodes_locs(y - 1);
            self.lemma_row_nodes_locs(y - 1, self.width());
            let prev = self.rows_nodes(y - 1);
            let row = self.row_nodes(y - 1, self.width());
            assert forall|q: int| 0 <= q < self.rows_nodes(y).len() implies (
            #[trigger] self.rows_nodes(y)[q]).location.1 < y && self.rows_nodes(y)[q].location.0
                < self.width() by {
                if q < prev.len() {
                    assert(self.rows_nodes(y)[q] == prev[q]);
                } else {
                    assert(self.rows_nodes(y)[q] == row[q - prev.len()]);
                }
            }
        }
    }

    /// Law: node identities are unique in a built graph. Two distinct nodes
    /// never share both a location and a lane: a location holds either one
    /// ordinary node or one bridge lane per forward axis.
    pub proof fn lemma_node_keys_unique(self, i: int, j: int)
        requires
            self.wf(),
            0 <= i < j < self.built_nodes().len(),
        ensures
            node_key(self.built_nodes()[i]) != node_key(self.built_nodes()[j]),
    {
        let nodes = self.built_nodes();
        let v1 = nodes[i];
        let v2 = nodes[j];
        self.lemma_rows_nodes_locs(self.height());
        if node_key(v1) == node_key(v2) {
            let loc = v1.location;
            self.lemma_nodes_at_location(loc);
            let ns = self.loc_nodes(loc);
            lemma_count_node_member(nodes, i);
            lemma_count_node_member(nodes, j);
            lemma_count_node_select(nodes, v1);
            lemma_count_node_select(nodes, v2);
            if v1 == v2 {
                lemma_count_node_two(nodes, i, j);
                // but a location's lowered nodes hold each value at most once
                reveal_with_fuel(count_node, 4);
                if self.bridged(loc) && !self.holed(loc) {
                    assert(ns.drop_last() =~= seq![ns[0]]);
                    assert(seq![ns[0]].drop_last() =~= Seq::<Node>::empty());
                }
            } else {
                // distinct values sharing a key must be the two lanes of a
                // bridge, whose keys differ by axis
                reveal_with_fuel(count_node, 4);
                if self.bridged(loc) && !self.holed(loc) {
                    assert(ns.drop_last() =~= seq![ns[0]]);
                    assert(seq![ns[0]].drop_last() =~= Seq::<Node>::empty());
                    assert(v1 == ns[0] || v1 == ns[1]);
                    assert(v2 == ns[0] || v2 == ns[1]);
                    assert(node_key(ns[0]).1 == Some(SquareStep::Right));
                    assert(node_key(ns[1]).1 == Some(SquareStep::Down));
                } else if !self.holed(loc) {
                    assert(ns.drop_last() =~= Seq::<Node>::empty());
                    assert(v1 == ns[0] && v2 == ns[0]);
                }
            }
        }
    }
}

impl BuilderState {
    proof fn lemma_row_nodes_len_mono(self, y: int, x1: int, x2: int)
        requires
            0 <= x1 <= x2,
        ensures
            self.row_nodes(y, x1).len() <= self.row_nodes(y, x2).len(),
        decreases x2,
    {
        if x1 < x2 {
            self.lemma_row_nodes_len_mono(y, x1, x2 - 1);
        }
    }

    proof fn lemma_rows_nodes_len_mono(self, y1: int, y2: int)
        requires
            0 <= y1 <= y2,
        ensures
            self.rows_nodes(y1).len() <= self.rows_nodes(y2).len(),
        decreases y2,
    {
        if y1 < y2 {
            self.lemma_rows_nodes_len_mono(y1, y2 - 1);
        }
    }

    /// A location's node block ends inside the built node list.
    proof fn lemma_block_in_range(self, loc: Location)
        requires
            self.wf(),
            self.in_bounds(loc),
        ensures
            0 <= self.start_idx(loc.0 as int, loc.1 as int),
            self.start_idx(loc.0 as int, loc.1 as int) + self.loc_nodes(loc).len()
                <= self.built_nodes().len(),
    {
        let x = loc.0 as int;
        let y = loc.1 as int;
        assert(self.rows_nodes(y + 1) == self.rows_nodes(y) + self.row_nodes(y, self.width()));
        self.lemma_row_nodes_len_mono(y, x + 1, self.width());
        self.lemma_rows_nodes_len_mono(y + 1, self.height());
    }

    /// Node blocks of distinct locations come in row-major order and do not
    /// overlap.
    proof fn lemma_block_order(self, l1: Location, l2: Location)
        requires
            self.wf(),
            self.in_bounds(l1),
            self.in_bounds(l2),
            self.pos(l1) < self.pos(l2),
        ensures
            self.start_idx(l1.0 as int, l1.1 as int) + self.loc_nodes(l1).len() <= self.start_idx(
                l2.0 as int,
                l2.1 as int,
            ),
    {
        let x1 = l1.0 as int;
        let y1 = l1.1 as int;
        let x2 = l2.0 as int;
        let y2 = l2.1 as int;
        let w = self.width();
        if y1 > y2 {
            assert(false) by (nonlinear_arith)
                requires
                    0 <= x2 < w,
                    0 <= x1,
                    y2 < y1,
                    y1 * w + x1 < y2 * w + x2,
            ;
        } else if y1 == y2 {
            assert(x1 < x2);
            self.lemma_row_nodes_len_mono(y1, x1 + 1, x2);
        } else {
            self.lemma_row_nodes_len_mono(y1, x1 + 1, w);
            assert(self.rows_nodes(y1 + 1) == self.rows_nodes(y1) + self.row_nodes(y1, w));
            self.lemma_rows_nodes_len_mono(y1 + 1, y2);
        }
    }

    /// A built grid edge joins two distinct, in-range node indices.
    proof fn lemma_grid_edge_wf(self, loc: Location, d: SquareStep)
        requires
            self.wf(),
            self.built_nodes().len() <= usize::MAX,
            self.grid_edge_present(loc, d),
            d == SquareStep::Right || d == SquareStep::Down,
        ensures
            self.built_graph().edge_wf(self.grid_edge(loc, d)),
    {
        let t = d.step_spec(loc);
        crate::location::lemma_coord_offset_in_range(loc.0, 1);
        crate::location::lemma_coord_offset_in_range(loc.0, 0);
        crate::location::lemma_coord_offset_in_range(loc.1, 1);
        crate::location::lemma_coord_offset_in_range(loc.1, 0);
        if d == SquareStep::Down {
            assert((loc.1 + 1) * self.width() + loc.0 == loc.1 * self.width() + loc.0
                + self.width()) by (nonlinear_arith);
        }
        self.lemma_block_in_range(loc);
        self.lemma_block_in_range(t);
        self.lemma_block_order(loc, t);
    }

    /// A surviving warp edge joins two distinct, in-range node indices.
    proof fn lemma_warp_edge_wf(self, k: int)
        requires
            self.wf(),
            self.built_nodes().len() <= usize::MAX,
            0 <= k < self.warps.len(),
            self.warp_ok(self.warps[k]),
        ensures
            self.built_graph().edge_wf(self.warp_edge(self.warps[k])),
    {
        let wrp = self.warps[k];
        assert(self.warp_wf(wrp));
        let p1 = wrp.0.0;
        let p2 = wrp.0.1;
        if p1.1 == p2.1 {
            assert(self.pos(p1) < self.pos(p2));
        } else {
            assert((p1.1 as int) * self.width() == 0) by (nonlinear_arith)
                requires
                    p1.1 == 0,
            ;
            assert((p2.1 as int) * self.width() >= self.width()) by (nonlinear_arith)
                requires
                    1 <= p2.1,
                    0 < self.width(),
            ;
        }
        self.lemma_block_in_range(p1);
        self.lemma_block_in_range(p2);
        self.lemma_block_order(p1, p2);
    }

    proof fn lemma_row_edges_wf(self, y: int, x: int)
        requires
            self.wf(),
            self.built_nodes().len() <= usize::MAX,
            0 <= y <= usize::MAX,
            0 <= x <= usize::MAX,
        ensures
            forall|j: int|
                0 <= j < self.row_edges(y, x).len() ==> self.built_graph().edge_wf(
                    #[trigger] self.row_edges(y, x)[j],
                ),
        decreases x,
    {
        if x > 0 {
            self.lemma_row_edges_wf(y, x - 1);
            let at = Location((x - 1) as usize, y as usize);
            if self.grid_edge_present(at, SquareStep::Right) {
                self.lemma_grid_edge_wf(at, SquareStep::Right);
            }
            if self.grid_edge_present(at, SquareStep::Down) {
                self.lemma_grid_edge_wf(at, SquareStep::Down);
            }
            let prev = self.row_edges(y, x - 1);
            assert forall|j: int| 0 <= j < self.row_edges(y, x).len() implies self.built_graph().edge_wf(
                #[trigger] self.row_edges(y, x)[j],
            ) by {
                if j < prev.len() {
                    assert(self.row_edges(y, x)[j] == prev[j]);
                } else {
                    assert(self.row_edges(y, x)[j] == self.loc_edges(at)[j - prev.len()]);
                }
            }
        }
    }

    proof fn lemma_rows_edges_wf(self, y: int)
        requires
            self.wf(),
            self.built_nodes().len() <= usize::MAX,
            0 <= y <= usize::MAX,
        ensures
            forall|j: int|
                0 <= j < self.rows_edges(y).len() ==> self.built_graph().edge_wf(
                    #[trigger] self.rows_edges(y)[j],
                ),
        decreases y,
    {
        if y > 0 {
            self.lemma_rows_edges_wf(y - 1);
            self.lemma_row_edges_wf(y - 1, self.width());
            let prev = self.rows_edges(y - 1);
            let row = self.row_edges(y - 1, self.width());
            assert forall|j: int| 0 <= j < self.rows_edges(y).len() implies self.built_graph().edge_wf(
                #[trigger] self.rows_edges(y)[j],
            ) by {
                if j < prev.len() {
                    assert(self.rows_edges(y)[j] == prev[j]);
                } else {
                    assert(self.rows_edges(y)[j] == row[j - prev.len()]);
                }
            }
        }
    }

    proof fn lemma_warps_edges_wf(self, k: int)
        requires
            self.wf(),
            self.built_nodes().len() <= usize::MAX,
            0 <= k <= self.warps.len(),
        ensures
            forall|j: int|
                0 <= j < self.warps_upto(k).len() ==> self.built_graph().edge_wf(
                    #[trigger] self.warps_upto(k)[j],
                ),
        decreases k,
    {
        if k > 0 {
            self.lemma_warps_edges_wf(k - 1);
            if self.warp_ok(self.warps[k - 1]) {
                self.lemma_warp_edge_wf(k - 1);
            }
            let prev = self.warps_upto(k - 1);
            assert forall|j: int| 0 <= j < self.warps_upto(k).len() implies self.built_graph().edge_wf(
                #[trigger] self.warps_upto(k)[j],
            ) by {
                if j < prev.len() {
                    assert(self.warps_upto(k)[j] == prev[j]);
                } else {
                    assert(self.warp_ok(self.warps[k - 1]));
                    assert(self.warps_upto(k)[j] == self.warp_edge(self.warps[k - 1]));
                }
            }
        }
    }

    /// Row-major positions identify in-bounds locations uniquely.
    proof fn lemma_pos_injective(self, l1: Location, l2: Location)
        requires
            self.wf(),
            self.in_bounds(l1),
            self.in_bounds(l2),
            self.pos(l1) == self.pos(l2),
        ensures
            l1 == l2,
    {
        lemma_pos_div_mod(self.width(), l1.0 as int, l1.1 as int);
        lemma_pos_div_mod(self.width(), l2.0 as int, l2.1 as int);
    }

    /// A node index lies in the block of at most one location.
    proof fn lemma_block_injective(self, l1: Location, l2: Location, idx: int)
        requires
            self.wf(),
            self.in_bounds(l1),
            self.in_bounds(l2),
            self.start_idx(l1.0 as int, l1.1 as int) <= idx < self.start_idx(l1.0 as int, l1.1 as int)
                + self.loc_nodes(l1).len(),
            self.start_idx(l2.0 as int, l2.1 as int) <= idx < self.start_idx(l2.0 as int, l2.1 as int)
                + self.loc_nodes(l2).len(),
        ensures
            l1 == l2,
    {
        if l1 != l2 {
            if self.pos(l1) == self.pos(l2) {
                self.lemma_pos_injective(l1, l2);
            } else if self.pos(l1) < self.pos(l2) {
                self.lemma_block_order(l1, l2);
            } else {
                self.lemma_block_order(l2, l1);
            }
        }
    }

    /// The endpoint indices of a built grid edge sit in their locations'
    /// blocks, lower endpoint first.
    proof fn lemma_grid_edge_blocks(self, loc: Location, d: SquareStep)
        requires
            self.wf(),
            self.built_nodes().len() <= usize::MAX,
            self.grid_edge_present(loc, d),
            d == SquareStep::Right || d == SquareStep::Down,
        ensures
            ({
                let e = self.grid_edge(loc, d);
                let t = d.step_spec(loc);
                &&& self.start_idx(loc.0 as int, loc.1 as int) <= e.a < self.start_idx(
                    loc.0 as int,
                    loc.1 as int,
                ) + self.loc_nodes(loc).len()
                &&& self.start_idx(t.0 as int, t.1 as int) <= e.b < self.start_idx(
                    t.0 as int,
                    t.1 as int,
                ) + self.loc_nodes(t).len()
                &&& e.a < e.b
            }),
    {
        self.lemma_grid_edge_wf(loc, d);
        let t = d.step_spec(loc);
        crate::location::lemma_coord_offset_in_range(loc.0, 1);
        crate::location::lemma_coord_offset_in_range(loc.0, 0);
        crate::location::lemma_coord_offset_in_range(loc.1, 1);
        crate::location::lemma_coord_offset_in_range(loc.1, 0);
        if d == SquareStep::Down {
            assert((loc.1 + 1) * self.width() + loc.0 == loc.1 * self.width() + loc.0
                + self.width()) by (nonlinear_arith);
        }
        self.lemma_block_in_range(loc);
        self.lemma_block_in_range(t);
        self.lemma_block_order(loc, t);
    }

    /// The endpoint indices of a surviving warp edge sit in their locations'
    /// blocks, lower endpoint first.
    proof fn lemma_warp_edge_blocks(self, k: int)
        requires
            self.wf(),
            self.built_nodes().len() <= usize::MAX,
            0 <= k < self.warps.len(),
            self.warp_ok(self.warps[k]),
        ensures
            ({
                let e = self.warp_edge(self.warps[k]);
                let p1 = self.warps[k].0.0;
                let p2 = self.warps[k].0.1;
                &&& self.start_idx(p1.0 as int, p1.1 as int) <= e.a < self.start_idx(
                    p1.0 as int,
                    p1.1 as int,
                ) + self.loc_nodes(p1).len()
                &&& self.start_idx(p2.0 as int, p2.1 as int) <= e.b < self.start_idx(
                    p2.0 as int,
                    p2.1 as int,
                ) + self.loc_nodes(p2).len()
                &&& e.a < e.b
            }),
    {
        self.lemma_warp_edge_wf(k);
        let wrp = self.warps[k];
        let p1 = wrp.0.0;
        let p2 = wrp.0.1;
        if p1.1 != p2.1 {
            assert((p1.1 as int) * self.width() == 0) by (nonlinear_arith)
                requires
                    p1.1 == 0,
            ;
            assert((p2.1 as int) * self.width() >= self.width()) by (nonlinear_arith)
                requires
                    1 <= p2.1,
                    0 < self.width(),
            ;
        }
        self.lemma_block_in_range(p1);
        self.lemma_block_in_range(p2);
        self.lemma_block_order(p1, p2);
    }

    /// No built grid edge joins the endpoints of a surviving warp: warp
    /// endpoints are never adjacent.
    proof fn lemma_row_edges_vs_warp(self, y: int, x: int, k: int)
        requires
            self.wf(),
            self.built_nodes().len() <= usize::MAX,
            0 <= y < self.height(),
            0 <= x <= self.width(),
            0 <= k < self.warps.len(),
            self.warp_ok(self.warps[k]),
        ensures
            forall|j: int|
                0 <= j < self.row_edges(y, x).len() ==> !crate::graph::same_endpoints(
                    #[trigger] self.row_edges(y, x)[j],
                    self.warp_edge(self.warps[k]),
                ),
        decreases x,
    {
        if x > 0 {
            self.lemma_row_edges_vs_warp(y, x - 1, k);
            self.lemma_warp_edge_blocks(k);
            let at = Location((x - 1) as usize, y as usize);
            let we = self.warp_edge(self.warps[k]);
            let p1 = self.warps[k].0.0;
            let p2 = self.warps[k].0.1;
            let prev = self.row_edges(y, x - 1);
            assert forall|j: int| 0 <= j < self.row_edges(y, x).len() implies !crate::graph::same_endpoints(
                #[trigger] self.row_edges(y, x)[j],
                we,
            ) by {
                if j < prev.len() {
                    assert(self.row_edges(y, x)[j] == prev[j]);
                } else {
                    let e = self.loc_edges(at)[j - prev.len()];
                    assert(self.row_edges(y, x)[j] == e);
                    let d = e.direction;
                    assert(self.grid_edge_present(at, d) && e == self.grid_edge(at, d) && (d
                        == SquareStep::Right || d == SquareStep::Down));
                    self.lemma_grid_edge_blocks(at, d);
                    let t = d.step_spec(at);
                    if crate::graph::same_endpoints(e, we) {
                        assert(e.a == we.a && e.b == we.b);
                        self.lemma_block_injective(at, p1, e.a as int);
                        self.lemma_block_injective(t, p2, e.b as int);
                        assert(SquareStep::direction_to_spec(p1, p2) is Some);
                    }
                }
            }
        }
    }

    proof fn lemma_rows_edges_vs_warp(self, y: int, k: int)
        requires
            self.wf(),
            self.built_nodes().len() <= usize::MAX,
            0 <= y <= self.height(),
            0 <= k < self.warps.len(),
            self.warp_ok(self.warps[k]),
        ensures
            forall|j: int|
                0 <= j < self.rows_edges(y).len() ==> !crate::graph::same_endpoints(
                    #[trigger] self.rows_edges(y)[j],
                    self.warp_edge(self.warps[k]),
                ),
        decreases y,
    {
        if y > 0 {
            self.lemma_rows_edges_vs_warp(y - 1, k);
            self.lemma_row_edges_vs_warp(y - 1, self.width(), k);
            let prev = self.rows_edges(y - 1);
            let row = self.row_edges(y - 1, self.width());
            assert forall|j: int| 0 <= j < self.rows_edges(y).len() implies !crate::graph::same_endpoints(
                #[trigger] self.rows_edges(y)[j],
                self.warp_edge(self.warps[k]),
            ) by {
                if j < prev.len() {
                    assert(self.rows_edges(y)[j] == prev[j]);
                } else {
                    assert(self.rows_edges(y)[j] == row[j - prev.len()]);
                }
            }
        }
    }

    /// No earlier surviving warp shares endpoints with warp `k`: recorded
    /// warps are distinct, and a pair determines its warp entry.
    proof fn lemma_warps_vs_warp(self, upto: int, k: int)
        requires
            self.wf(),
            self.built_nodes().len() <= usize::MAX,
            0 <= upto <= k < self.warps.len(),
            self.warp_ok(self.warps[k]),
        ensures
            forall|j: int|
                0 <= j < self.warps_upto(upto).len() ==> !crate::graph::same_endpoints(
                    #[trigger] self.warps_upto(upto)[j],
                    self.warp_edge(self.warps[k]),
                ),
        decreases upto,
    {
        if upto > 0 {
            self.lemma_warps_vs_warp(upto - 1, k);
            self.lemma_warp_edge_blocks(k);
            let prev = self.warps_upto(upto - 1);
            assert forall|j: int| 0 <= j < self.warps_upto(upto).len() implies !crate::graph::same_endpoints(
                #[trigger] self.warps_upto(upto)[j],
                self.warp_edge(self.warps[k]),
            ) by {
                if j < prev.len() {
                    assert(self.warps_upto(upto)[j] == prev[j]);
                } else {
                    assert(self.warp_ok(self.warps[upto - 1]));
                    let e = self.warp_edge(self.warps[upto - 1]);
                    assert(self.warps_upto(upto)[j] == e);
                    self.lemma_warp_edge_blocks(upto - 1);
                    let q1 = self.warps[upto - 1].0.0;
                    let q2 = self.warps[upto - 1].0.1;
                    let p1 = self.warps[k].0.0;
                    let p2 = self.warps[k].0.1;
                    if crate::graph::same_endpoints(e, self.warp_edge(self.warps[k])) {
                        assert(e.a == self.warp_edge(self.warps[k]).a && e.b == self.warp_edge(
                            self.warps[k],
                        ).b);
                        self.lemma_block_injective(q1, p1, e.a as int);
                        self.lemma_block_injective(q2, p2, e.b as int);
                        assert(self.warp_wf(self.warps[upto - 1]));
                        assert(self.warp_wf(self.warps[k]));
                        assert(self.warps[upto - 1] == self.warps[k]);
                    }
                }
            }
        }
    }

    /// No two edges of a row prefix share an unordered endpoint pair; every
    /// edge is ordered and sits between the row start and the prefix end.
    proof fn lemma_row_edges_pairwise(self, y: int, x: int)
        requires
            self.wf(),
            self.built_nodes().len() <= usize::MAX,
            0 <= y < self.height(),
            0 <= x <= self.width(),
        ensures
            forall|j: int|
                0 <= j < self.row_edges(y, x).len() ==> (#[trigger] self.row_edges(y, x)[j]).a
                    < self.row_edges(y, x)[j].b && self.rows_nodes(y).len() <= self.row_edges(
                    y,
                    x,
                )[j].a < self.start_idx(x, y),
            forall|j1: int, j2: int|
                0 <= j1 < j2 < self.row_edges(y, x).len() ==> !crate::graph::same_endpoints(
                    #[trigger] self.row_edges(y, x)[j1],
                    #[trigger] self.row_edges(y, x)[j2],
                ),
        decreases x,
    {
        if x > 0 {
            self.lemma_row_edges_pairwise(y, x - 1);
            let at = Location((x - 1) as usize, y as usize);
            let prev = self.row_edges(y, x - 1);
            let cur = self.row_edges(y, x);
            if self.grid_edge_present(at, SquareStep::Right) {
                self.lemma_grid_edge_blocks(at, SquareStep::Right);
            }
            if self.grid_edge_present(at, SquareStep::Down) {
                self.lemma_grid_edge_blocks(at, SquareStep::Down);
            }
            self.lemma_row_nodes_len_mono(y, 0, x - 1);
            assert forall|j: int| 0 <= j < cur.len() implies (#[trigger] cur[j]).a < cur[j].b
                && self.rows_nodes(y).len() <= cur[j].a < self.start_idx(x, y) by {
                self.lemma_row_nodes_len_mono(y, x - 1, x);
                if j < prev.len() {
                    assert(cur[j] == prev[j]);
                } else {
                    let e = self.loc_edges(at)[j - prev.len()];
                    assert(cur[j] == e);
                    let d = e.direction;
                    assert(self.grid_edge_present(at, d) && e == self.grid_edge(at, d) && (d
                        == SquareStep::Right || d == SquareStep::Down));
                }
            }
            assert forall|j1: int, j2: int|
                0 <= j1 < j2 < cur.len() implies !crate::graph::same_endpoints(
                #[trigger] cur[j1],
                #[trigger] cur[j2],
            ) by {
                if j2 < prev.len() {
                    assert(cur[j1] == prev[j1] && cur[j2] == prev[j2]);
                } else if j1 < prev.len() {
                    // an earlier edge starts before this location's block
                    assert(cur[j1] == prev[j1]);
                    let e2 = self.loc_edges(at)[j2 - prev.len()];
                    assert(cur[j2] == e2);
                    let d2 = e2.direction;
                    assert(self.grid_edge_present(at, d2) && e2 == self.grid_edge(at, d2) && (d2
                        == SquareStep::Right || d2 == SquareStep::Down));
                    assert(prev[j1].a < self.start_idx(x - 1, y));
                    assert(e2.a >= self.start_idx(x - 1, y));
                } else {
                    // the rightward and downward edges of one location end in
                    // the blocks of different neighbors
                    let e1 = self.loc_edges(at)[j1 - prev.len()];
                    let e2 = self.loc_edges(at)[j2 - prev.len()];
                    assert(cur[j1] == e1 && cur[j2] == e2);
                    assert(self.grid_edge_present(at, SquareStep::Right) && self.grid_edge_present(
                        at,
                        SquareStep::Down,
                    ));
                    assert(e1 == self.grid_edge(at, SquareStep::Right) && e2 == self.grid_edge(
                        at,
                        SquareStep::Down,
                    ));
                    let tr = SquareStep::Right.step_spec(at);
                    let td = SquareStep::Down.step_spec(at);
                    crate::location::lemma_coord_offset_in_range(at.0, 1);
                    crate::location::lemma_coord_offset_in_range(at.0, 0);
                    crate::location::lemma_coord_offset_in_range(at.1, 1);
                    crate::location::lemma_coord_offset_in_range(at.1, 0);
                    assert((at.1 + 1) * self.width() + at.0 == at.1 * self.width() + at.0
                        + self.width()) by (nonlinear_arith);
                    assert(self.pos(tr) < self.pos(td));
                    self.lemma_block_order(tr, td);
                }
            }
        }
    }

    /// No two grid edges of the first `y` rows share an unordered endpoint
    /// pair.
    proof fn lemma_rows_edges_pairwise(self, y: int)
        requires
            self.wf(),
            self.built_nodes().len() <= usize::MAX,
            0 <= y <= self.height(),
        ensures
            forall|j: int|
                0 <= j < self.rows_edges(y).len() ==> (#[trigger] self.rows_edges(y)[j]).a
                    < self.rows_edges(y)[j].b && self.rows_edges(y)[j].a < self.rows_nodes(
                    y,
                ).len(),
            forall|j1: int, j2: int|
                0 <= j1 < j2 < self.rows_edges(y).len() ==> !crate::graph::same_endpoints(
                    #[trigger] self.rows_edges(y)[j1],
                    #[trigger] self.rows_edges(y)[j2],
                ),
        decreases y,
    {
        if y > 0 {
            self.lemma_rows_edges_pairwise(y - 1);
            self.lemma_row_edges_pairwise(y - 1, self.width());
            let prev = self.rows_edges(y - 1);
            let row = self.row_edges(y - 1, self.width());
            let cur = self.rows_edges(y);
            assert forall|j: int| 0 <= j < cur.len() implies (#[trigger] cur[j]).a < cur[j].b
                && cur[j].a < self.rows_nodes(y).len() by {
                self.lemma_rows_nodes_len_mono(y - 1, y);
                if j < prev.len() {
                    assert(cur[j] == prev[j]);
                } else {
                    assert(cur[j] == row[j - prev.len()]);
                    assert(row[j - prev.len()].a < self.start_idx(self.width(), y - 1));
                    assert(self.rows_nodes(y) == self.rows_nodes(y - 1) + self.row_nodes(
                        y - 1,
                        self.width(),
                    ));
                }
            }
            assert forall|j1: int, j2: int|
                0 <= j1 < j2 < cur.len() implies !crate::graph::same_endpoints(
                #[trigger] cur[j1],
                #[trigger] cur[j2],
            ) by {
                if j2 < prev.len() {
                    assert(cur[j1] == prev[j1] && cur[j2] == prev[j2]);
                } else if j1 < prev.len() {
                    assert(cur[j1] == prev[j1]);
                    assert(cur[j2] == row[j2 - prev.len()]);
                    assert(prev[j1].a < self.rows_nodes(y - 1).len());
                    assert(row[j2 - prev.len()].a >= self.rows_nodes(y - 1).len());
                } else {
                    assert(cur[j1] == row[j1 - prev.len()] && cur[j2] == row[j2 - prev.len()]);
                }
            }
        }
    }

    /// Law: no two edges of a built graph join the same unordered pair of
    /// nodes.
    pub proof fn lemma_built_edges_pair_unique(self, j1: int, j2: int)
        requires
            self.wf(),
            self.built_nodes().len() <= usize::MAX,
            0 <= j1 < j2 < self.built_edges().len(),
        ensures
            !crate::graph::same_endpoints(self.built_edges()[j1], self.built_edges()[j2]),
    {
        let ge = self.grid_edges();
        let h = self.height();
        self.lemma_rows_edges_pairwise(h);
        if j2 < ge.len() {
            assert(self.built_edges()[j1] == ge[j1] && self.built_edges()[j2] == ge[j2]);
        } else {
            let wu = self.warps_upto(self.warps.len() as int);
            assert(self.built_edges()[j2] == wu[j2 - ge.len()]);
            self.lemma_warp_provenance(self.warps.len() as int, j2 - ge.len());
            let k = self.warp_index_of(self.warps.len() as int, j2 - ge.len());
            if j1 < ge.len() {
                assert(self.built_edges()[j1] == ge[j1]);
                self.lemma_rows_edges_vs_warp(h, k);
            } else {
                assert(self.built_edges()[j1] == wu[j1 - ge.len()]);
                self.lemma_warps_prefix(self.warps.len() as int, k);
                self.lemma_warps_vs_warp(k, k);
            }
        }
    }

    /// The index of the warp whose edge stands at position `j` of the first
    /// `upto` surviving warp edges.
    pub open spec fn warp_index_of(self, upto: int, j: int) -> int
        decreases upto,
    {
        if upto <= 0 {
            0
        } else if j < self.warps_upto(upto - 1).len() {
            self.warp_index_of(upto - 1, j)
        } else {
            upto - 1
        }
    }

    /// Each surviving warp edge comes from a surviving recorded warp.
    proof fn lemma_warp_provenance(self, upto: int, j: int)
        requires
            0 <= upto <= self.warps.len(),
            0 <= j < self.warps_upto(upto).len(),
        ensures
            0 <= self.warp_index_of(upto, j) < upto,
            self.warp_ok(self.warps[self.warp_index_of(upto, j)]),
            self.warps_upto(upto)[j] == self.warp_edge(self.warps[self.warp_index_of(upto, j)]),
            j == self.warps_upto(self.warp_index_of(upto, j)).len(),
        decreases upto,
    {
        if upto > 0 {
            if j < self.warps_upto(upto - 1).len() {
                self.lemma_warp_provenance(upto - 1, j);
            }
        }
    }

    /// Warp edges before warp `k`'s own edge come from warps before `k`.
    proof fn lemma_warps_prefix(self, upto: int, k: int)
        requires
            0 <= k < upto <= self.warps.len(),
        ensures
            forall|j: int|
                0 <= j < self.warps_upto(k).len() ==> #[trigger] self.warps_upto(upto)[j]
                    == self.warps_upto(k)[j],
            self.warps_upto(k).len() <= self.warps_upto(upto).len(),
        decreases upto,
    {
        if k < upto - 1 {
            self.lemma_warps_prefix(upto - 1, k);
        }
    }

    /// Law: a built graph is well-formed: edges join distinct in-range
    /// nodes, no two edges join the same unordered pair, and node identities
    /// (location plus bridge lane) are unique.
    pub proof fn lemma_built_graph_wf(self)
        requires
            self.wf(),
            self.built_nodes().len() <= usize::MAX,
        ensures
            self.built_graph().wf(),
    {
        self.lemma_built_edges_wf();
        let g = self.built_graph();
        assert forall|i: int, j: int| 0 <= i < j < g.nodes.len() implies node_key(g.nodes[i])
            != node_key(g.nodes[j]) by {
            self.lemma_node_keys_unique(i, j);
        }
        assert forall|i: int, j: int| 0 <= i < j < g.edges.len() implies !crate::graph::same_endpoints(
            g.edges[i],
            g.edges[j],
        ) by {
            self.lemma_built_edges_pair_unique(i, j);
        }
    }

    /// Law: every edge of a built graph joins two distinct, in-range nodes.
    pub proof fn lemma_built_edges_wf(self)
        requires
            self.wf(),
            self.built_nodes().len() <= usize::MAX,
        ensures
            forall|j: int|
                0 <= j < self.built_edges().len() ==> self.built_graph().edge_wf(
                    #[trigger] self.built_edges()[j],
                ),
    {
        self.lemma_rows_edges_wf(self.height());
        self.lemma_warps_edges_wf(self.warps.len() as int);
        assert forall|j: int| 0 <= j < self.built_edges().len() implies self.built_graph().edge_wf(
            #[trigger] self.built_edges()[j],
        ) by {
            let ge = self.rows_edges(self.height());
            if j < ge.len() {
                assert(self.built_edges()[j] == ge[j]);
            } else {
                assert(self.built_edges()[j] == self.warps_upto(self.warps.len() as int)[j
                    - ge.len()]);
            }
        }
    }
}

/// Whether a node can be displayed against a table of `num_displays`
/// characters: any colored cell's affiliation must have a character.
pub open spec fn node_display_ok(n: Node, num_displays: int) -> bool {
    match n.cell {
        NumberlinkCell::Terminus { affiliation } => affiliation < num_displays,
        NumberlinkCell::Path { affiliation } => affiliation < num_displays,
        _ => true,
    }
}

impl BuilderState {
    proof fn lemma_row_nodes_display(self, y: int, x: int)
        requires
            self.wf(),
            0 <= y < self.height(),
            0 <= x <= self.width(),
        ensures
            forall|q: int|
                0 <= q < self.row_nodes(y, x).len() ==> node_display_ok(
                    #[trigger] self.row_nodes(y, x)[q],
                    self.displays.len() as int + 1,
                ),
        decreases x,
    {
        if x > 0 {
            self.lemma_row_nodes_display(y, x - 1);
            lemma_pos_in_range(self.width(), self.height(), x - 1, y);
            let at = Location((x - 1) as usize, y as usize);
            let prev = self.row_nodes(y, x - 1);
            assert forall|q: int| 0 <= q < self.row_nodes(y, x).len() implies node_display_ok(
                #[trigger] self.row_nodes(y, x)[q],
                self.displays.len() as int + 1,
            ) by {
                if q < prev.len() {
                    assert(self.row_nodes(y, x)[q] == prev[q]);
                } else {
                    assert(self.row_nodes(y, x)[q] == self.loc_nodes(at)[q - prev.len()]);
                    assert(cell_wf(self.cells[self.pos(at)], self.displays.len() as int));
                }
            }
        }
    }

    proof fn lemma_rows_nodes_display(self, y: int)
        requires
            self.wf(),
            0 <= y <= self.height(),
        ensures
            forall|q: int|
                0 <= q < self.rows_nodes(y).len() ==> node_display_ok(
                    #[trigger] self.rows_nodes(y)[q],
                    self.displays.len() as int + 1,
                ),
        decreases y,
    {
        if y > 0 {
            self.lemma_rows_nodes_display(y - 1);
            self.lemma_row_nodes_display(y - 1, self.width());
            let prev = self.rows_nodes(y - 1);
            let row = self.row_nodes(y - 1, self.width());
            assert forall|q: int| 0 <= q < self.rows_nodes(y).len() implies node_display_ok(
                #[trigger] self.rows_nodes(y)[q],
                self.displays.len() as int + 1,
            ) by {
                if q < prev.len() {
                    assert(self.rows_nodes(y)[q] == prev[q]);
                } else {
                    assert(self.rows_nodes(y)[q] == row[q - prev.len()]);
                }
            }
        }
    }

    /// The board built from a well-formed builder is fit for rendering.
    pub proof fn lemma_built_render_wf(self)
        requires
            self.wf(),
        ensures
            self.built_board().render_wf(),
    {
        self.lemma_rows_nodes_display(self.height());
    }
}

/// A builder for boards with square cells: the rectangular boards of
/// Numberlink puzzles, with optional bridges, warps, walls and holes.
/// Mutations take effect in call order; a mutation that fails records a
/// [`BuilderInvalidReason`] and every later mutation is a no-op.
#[derive(Debug)]
pub struct SquareBoardBuilder {
    /// Board extent as `(width, height)`; both are at least 1.
    pub dims: (usize, usize),
    /// Row-major cell grid of length `width * height`.
    pub cells: Vec<NumberlinkCell>,
    /// Display characters, indexed by affiliation minus 1.
    pub affiliation_displays: Vec<char>,
    /// Breadcrumbs of every failed mutation; empty means valid.
    pub invalid_reasons: Vec<BuilderInvalidReason>,
    /// Walls: unordered pairs of adjacent locations that get no edge.
    pub edge_blacklist: Vec<(Location, Location)>,
    /// Holes: locations that get no node.
    pub location_blacklist: Vec<Location>,
    /// Bridge sites, each strictly interior.
    pub bridges: Vec<Location>,
    /// Warps: opposite-edge pairs in row-major order with their forward axis.
    pub edge_whitelist: Vec<((Location, Location), SquareStep)>,
}

impl View for SquareBoardBuilder {
    type V = BuilderState;

    open spec fn view(&self) -> BuilderState {
        BuilderState {
            dims: self.dims,
            cells: self.cells@,
            displays: self.affiliation_displays@,
            invalid: self.invalid_reasons@,
            walls: self.edge_blacklist@,
            holes: self.location_blacklist@,
            bridges: self.bridges@,
            warps: self.edge_whitelist@,
        }
    }
}

/// An element-for-element copy of a vector of copyable values.
pub(crate) fn copy_vec<T: Copy>(v: &Vec<T>) -> (r: Vec<T>)
    ensures
        r@ == v@,
{
    let mut r: Vec<T> = Vec::new();
    let mut i: usize = 0;
    while i < v.len()
        invariant
            i <= v.len(),
            r@ =~= v@.take(i as int),
        decreases v.len() - i,
    {
        r.push(v[i]);
        i = i + 1;
    }
    proof {
        assert(v@.take(v@.len() as int) =~= v@);
    }
    r
}

impl Clone for SquareBoardBuilder {
    /// Snapshot the builder's construction state.
    fn clone(&self) -> (r: Self)
        ensures
            r@ == self@,
    {
        let r = SquareBoardBuilder {
            dims: (self.dims.0, self.dims.1),
            cells: copy_vec(&self.cells),
            affiliation_displays: copy_vec(&self.affiliation_displays),
            invalid_reasons: copy_vec(&self.invalid_reasons),
            edge_blacklist: copy_vec(&self.edge_blacklist),
            location_blacklist: copy_vec(&self.location_blacklist),
            bridges: copy_vec(&self.bridges),
            edge_whitelist: copy_vec(&self.edge_whitelist),
        };
        proof {
            assert(r@ =~= self@);
        }
        r
    }
}

/// Whether a location list contains `loc`.
fn contains_loc(v: &Vec<Location>, loc: Location) -> (r: bool)
    ensures
        r == v@.contains(loc),
{
    let mut i: usize = 0;
    while i < v.len()
        invariant
            i <= v.len(),
            forall|k: int| 0 <= k < i ==> v@[k] != loc,
        decreases v.len() - i,
    {
        if v[i] == loc {
            return true;
        }
        i = i + 1;
    }
    false
}

/// Whether a wall list contains the unordered pair `{a, b}`.
fn contains_wall(v: &Vec<(Location, Location)>, a: Location, b: Location) -> (r: bool)
    ensures
        r == (v@.contains((a, b)) || v@.contains((b, a))),
{
    let mut i: usize = 0;
    while i < v.len()
        invariant
            i <= v.len(),
            forall|k: int| 0 <= k < i ==> v@[k] != (a, b) && v@[k] != (b, a),
        decreases v.len() - i,
    {
        let p = v[i];
        if (p.0 == a && p.1 == b) || (p.0 == b && p.1 == a) {
            return true;
        }
        i = i + 1;
    }
    false
}

/// Whether a warp list contains the entry `(pair, d)`.
fn contains_warp(
    v: &Vec<((Location, Location), SquareStep)>,
    pair: (Location, Location),
    d: SquareStep,
) -> (r: bool)
    ensures
        r == v@.contains((pair, d)),
{
    let mut i: usize = 0;
    while i < v.len()
        invariant
            i <= v.len(),
            forall|k: int| 0 <= k < i ==> v@[k] != (pair, d),
        decreases v.len() - i,
    {
        let e = v[i];
        if e.0.0 == pair.0 && e.0.1 == pair.1 && e.1 == d {
            return true;
        }
        i = i + 1;
    }
    false
}

/// The row-major position of an in-bounds location fits in `usize` and lies
/// below `w * h`.
pub proof fn lemma_pos_in_range(w: int, h: int, x: int, y: int)
    requires
        0 <= x < w,
        0 <= y < h,
    ensures
        0 <= y * w + x < w * h,
{
    assert(y * w + x < w * h) by (nonlinear_arith)
        requires
            0 <= x < w,
            0 <= y < h,
    ;
    assert(0 <= y * w + x) by (nonlinear_arith)
        requires
            0 <= x,
            0 <= y,
            0 < w,
    ;
}

impl SquareBoardBuilder {
    /// Builder well-formedness; see [`BuilderState::wf`].
    pub open spec fn wf(self) -> bool {
        self@.wf()
    }

    /// Construct a builder for an empty board with the given `(width, height)`.
    pub fn with_dims(dims: (usize, usize)) -> (r: Self)
        requires
            1 <= dims.0,
            1 <= dims.1,
            dims.0 * dims.1 <= usize::MAX,
        ensures
            r@ == BuilderState::initial(dims),
            r.wf(),
    {
        let n: usize = dims.0 * dims.1;
        let mut cells: Vec<NumberlinkCell> = Vec::new();
        let mut i: usize = 0;
        while i < n
            invariant
                i <= n,
                cells@ =~= Seq::new(i as nat, |k: int| NumberlinkCell::Empty),
            decreases n - i,
        {
            cells.push(NumberlinkCell::Empty);
            i = i + 1;
        }
        let r = SquareBoardBuilder {
            dims,
            cells,
            affiliation_displays: Vec::new(),
            invalid_reasons: Vec::new(),
            edge_blacklist: Vec::new(),
            location_blacklist: Vec::new(),
            bridges: Vec::new(),
            edge_whitelist: Vec::new(),
        };
        proof {
            assert(r@ =~= BuilderState::initial(dims));
        }
        r
    }

    /// Check the validity of this builder: `None` when no failure has been
    /// recorded, otherwise the recorded reasons.
    pub fn is_valid(&self) -> (r: Option<&Vec<BuilderInvalidReason>>)
        ensures
            match r {
                None => self@.is_valid(),
                Some(v) => !self@.is_valid() && v@ == self@.invalid,
            },
    {
        if self.invalid_reasons.len() == 0 {
            None
        } else {
            Some(&self.invalid_reasons)
        }
    }

    /// Add a pair of termini ("flow endpoints") with the next affiliation
    /// identifier and the given display character. Records
    /// `FeatureOutOfBounds` if either location is out of bounds.
    pub fn add_termini(&mut self, display: char, locations: (Location, Location))
        requires
            old(self).wf(),
        ensures
            final(self)@ == old(self)@.after_add_termini(display, locations),
            final(self).wf(),
    {
        if self.invalid_reasons.len() > 0 {
            return ;
        }
        let (l1, l2) = locations;
        if !(l1.0 < self.dims.0 && l1.1 < self.dims.1) || !(l2.0 < self.dims.0 && l2.1
            < self.dims.1) {
            self.invalid_reasons.push(BuilderInvalidReason::FeatureOutOfBounds);
            return ;
        }
        if self.affiliation_displays.len() == usize::MAX {
            return ;
        }
        let aff: usize = self.affiliation_displays.len() + 1;
        self.affiliation_displays.push(display);
        let n_cells = self.cells.len();
        proof {
            lemma_pos_in_range(self.dims.0 as int, self.dims.1 as int, l1.0 as int, l1.1 as int);
            lemma_pos_in_range(self.dims.0 as int, self.dims.1 as int, l2.0 as int, l2.1 as int);
        }
        let idx1: usize = l1.1 * self.dims.0 + l1.0;
        self.cells[idx1] = NumberlinkCell::Terminus { affiliation: aff };
        let idx2: usize = l2.1 * self.dims.0 + l2.0;
        self.cells[idx2] = NumberlinkCell::Terminus { affiliation: aff };
    }

    /// Remove the most recently added pair of termini and its display
    /// character. Does nothing if the builder is invalid or has no termini.
    pub fn pop_termini(&mut self)
        requires
            old(self).wf(),
        ensures
            final(self)@ == old(self)@.after_pop_termini(),
            final(self).wf(),
    {
        if self.invalid_reasons.len() > 0 {
            return ;
        }
        if self.affiliation_displays.len() == 0 {
            return ;
        }
        let aff: usize = self.affiliation_displays.len();
        self.affiliation_displays.pop();
        let ghost orig = self.cells@;
        let mut k: usize = 0;
        while k < self.cells.len()
            invariant
                k <= self.cells.len(),
                self.cells@.len() == orig.len(),
                self.dims == old(self).dims,
                self.affiliation_displays@ == old(self)@.displays.drop_last(),
                self.invalid_reasons@ == old(self)@.invalid,
                self.edge_blacklist@ == old(self)@.walls,
                self.location_blacklist@ == old(self)@.holes,
                self.bridges@ == old(self)@.bridges,
                self.edge_whitelist@ == old(self)@.warps,
                forall|j: int|
                    0 <= j < k ==> self.cells@[j] == (
                    if orig[j] == (NumberlinkCell::Terminus { affiliation: aff }) {
                        NumberlinkCell::Empty
                    } else {
                        orig[j]
                    }),
                forall|j: int| k <= j < orig.len() ==> self.cells@[j] == orig[j],
            decreases self.cells.len() - k,
        {
            match self.cells[k] {
                NumberlinkCell::Terminus { affiliation } => {
                    if affiliation == aff {
                        self.cells[k] = NumberlinkCell::Empty;
                    }
                },
                _ => {},
            }
            k = k + 1;
        }
        proof {
            assert(self.cells@ =~= Seq::new(
                orig.len(),
                |j: int|
                    if orig[j] == (NumberlinkCell::Terminus { affiliation: aff }) {
                        NumberlinkCell::Empty
                    } else {
                        orig[j]
                    },
            ));
            assert(self@ =~= old(self)@.after_pop_termini());
        }
    }

    /// Register a bridge at `location`. Records `FeatureOutOfBounds` unless
    /// the location is strictly interior.
    pub fn add_bridge(&mut self, location: Location)
        requires
            old(self).wf(),
        ensures
            final(self)@ == old(self)@.after_add_bridge(location),
            final(self).wf(),
    {
        if self.invalid_reasons.len() > 0 {
            return ;
        }
        if !(1 <= location.0 && location.0 < self.dims.0 - 1 && 1 <= location.1 && location.1
            < self.dims.1 - 1) {
            self.invalid_reasons.push(BuilderInvalidReason::FeatureOutOfBounds);
            return ;
        }
        if !contains_loc(&self.bridges, location) {
            self.bridges.push(location);
        }
    }

    /// Register `location` as a hole: the built graph gets no node there.
    /// Records `FeatureOutOfBounds` if the location is out of bounds.
    pub fn drop_location(&mut self, location: Location)
        requires
            old(self).wf(),
        ensures
            final(self)@ == old(self)@.after_drop_location(location),
            final(self).wf(),
    {
        if self.invalid_reasons.len() > 0 {
            return ;
        }
        if !(location.0 < self.dims.0 && location.1 < self.dims.1) {
            self.invalid_reasons.push(BuilderInvalidReason::FeatureOutOfBounds);
            return ;
        }
        if !contains_loc(&self.location_blacklist, location) {
            self.location_blacklist.push(location);
        }
    }

    /// Record a wall between two locations. Records `FeatureOutOfBounds` if
    /// either is out of bounds; does nothing if they are not adjacent.
    pub fn disconnect(&mut self, locations: (Location, Location))
        requires
            old(self).wf(),
        ensures
            final(self)@ == old(self)@.after_disconnect(locations),
            final(self).wf(),
    {
        if self.invalid_reasons.len() > 0 {
            return ;
        }
        let (l1, l2) = locations;
        if !(l1.0 < self.dims.0 && l1.1 < self.dims.1) || !(l2.0 < self.dims.0 && l2.1
            < self.dims.1) {
            self.invalid_reasons.push(BuilderInvalidReason::FeatureOutOfBounds);
            return ;
        }
        if SquareStep::direction_to(l1, l2).is_none() {
            return ;
        }
        if !contains_wall(&self.edge_blacklist, l1, l2) {
            self.edge_blacklist.push((l1, l2));
        }
    }

    /// Apply [`Self::disconnect`] once per direction in `directions`, walling
    /// `location` off from the neighbor in that direction. A direction's
    /// appearances after the first are ignored.
    pub fn disconnect_around(&mut self, location: Location, directions: Vec<SquareStep>)
        requires
            old(self).wf(),
        ensures
            final(self)@ == old(self)@.after_disconnect_around(location, directions@),
            final(self).wf(),
    {
        let mut i: usize = 0;
        while i < directions.len()
            invariant
                i <= directions.len(),
                self@ == old(self)@.after_disconnect_around(location, directions@.take(i as int)),
                self.wf(),
            decreases directions.len() - i,
        {
            let ghost prefix = directions@.take(i as int);
            let d = directions[i];
            let target = d.attempt_from(location);
            self.disconnect((location, target));
            proof {
                assert(directions@.take(i + 1 as int).drop_last() =~= prefix);
                assert(directions@.take(i + 1 as int).last() == d);
            }
            i = i + 1;
        }
        proof {
            assert(directions@.take(directions@.len() as int) =~= directions@);
        }
    }

    /// Add a warp at `location`: a long edge joining it to its partner on the
    /// opposite board edge along one cardinal axis. A direction is needed
    /// exactly when `location` is a corner; elsewhere it is ignored. Records
    /// `FeatureOutOfBounds` for an out-of-bounds location and
    /// `WarpBadDirection` for a location on no edge, a corner without a
    /// direction, or a resolved partner equal to `location`.
    pub fn add_warp(&mut self, location: Location, direction: Option<SquareStep>)
        requires
            old(self).wf(),
        ensures
            final(self)@ == old(self)@.after_add_warp(location, direction),
            final(self).wf(),
    {
        if self.invalid_reasons.len() > 0 {
            return ;
        }
        let w = self.dims.0;
        let h = self.dims.1;
        if !(location.0 < w && location.1 < h) {
            self.invalid_reasons.push(BuilderInvalidReason::FeatureOutOfBounds);
            return ;
        }
        if !(location.0 == 0 || location.1 == 0 || location.0 == w - 1 || location.1 == h - 1) {
            self.invalid_reasons.push(BuilderInvalidReason::WarpBadDirection);
            return ;
        }
        let corner = (location.0 == 0 || location.0 == w - 1) && (location.1 == 0 || location.1 == h
            - 1);
        let edge_opt: Option<SquareStep> = if corner {
            direction
        } else if location.0 == 0 {
            Some(SquareStep::Left)
        } else if location.1 == 0 {
            Some(SquareStep::Up)
        } else if location.0 == w - 1 {
            Some(SquareStep::Right)
        } else {
            Some(SquareStep::Down)
        };
        let edge = match edge_opt {
            None => {
                self.invalid_reasons.push(BuilderInvalidReason::WarpBadDirection);
                return ;
            },
            Some(e) => e,
        };
        let partner = match edge {
            SquareStep::Up => Location(location.0, h - 1),
            SquareStep::Down => Location(location.0, 0),
            SquareStep::Left => Location(w - 1, location.1),
            SquareStep::Right => Location(0, location.1),
        };
        if partner == location {
            self.invalid_reasons.push(BuilderInvalidReason::WarpBadDirection);
            return ;
        }
        let entry: ((Location, Location), SquareStep) = match edge {
            SquareStep::Up => ((location, partner), SquareStep::Down),
            SquareStep::Down => ((partner, location), SquareStep::Down),
            SquareStep::Left => ((location, partner), SquareStep::Right),
            SquareStep::Right => ((partner, location), SquareStep::Right),
        };
        if !contains_warp(&self.edge_whitelist, entry.0, entry.1) {
            self.edge_whitelist.push(entry);
        }
    }

    /// Convert the state of this builder into a [`Board`], lowering termini,
    /// bridges, warps, holes and walls into the board graph. If the builder
    /// is invalid for any reason, the recorded reasons are returned instead.
    #[verifier::rlimit(60)]
    pub fn build(&self) -> (r: Result<Board, Vec<BuilderInvalidReason>>)
        requires
            self.wf(),
        ensures
            match r {
                Result::Ok(b) => self@.is_valid() && b@ == self@.built_board()
                    && b@.graph.wf() && b@.render_wf(),
                Result::Err(e) => !self@.is_valid() && e@ == self@.invalid,
            },
    {
        if self.invalid_reasons.len() > 0 {
            return Result::Err(copy_vec(&self.invalid_reasons));
        }
        let w = self.dims.0;
        let h = self.dims.1;
        let n_cells = self.cells.len();
        let ghost s = self@;
        proof {
            assert(w * h <= usize::MAX);
        }

        // One node per live location, two lanes per live bridge location,
        // recording where each location's nodes start.
        let mut nodes: Vec<Node> = Vec::new();
        let mut index_at: Vec<usize> = Vec::new();
        let mut y: usize = 0;
        while y < h
            invariant
                self.wf(),
                s == self@,
                w * h <= usize::MAX,
                w == self.dims.0,
                h == self.dims.1,
                y <= h,
                nodes@ == s.rows_nodes(y as int),
                index_at@.len() == y * w,
                forall|p: int|
                    0 <= p < index_at@.len() ==> #[trigger] index_at@[p] == s.start_at(p)
                        && index_at@[p] + s.loc_nodes(
                        Location((p % (w as int)) as usize, (p / (w as int)) as usize),
                    ).len() <= nodes@.len(),
            decreases h - y,
        {
            let mut x: usize = 0;
            while x < w
                invariant
                    self.wf(),
                    s == self@,
                    w * h <= usize::MAX,
                    w == self.dims.0,
                    h == self.dims.1,
                    y < h,
                    x <= w,
                    nodes@ == s.rows_nodes(y as int) + s.row_nodes(y as int, x as int),
                    index_at@.len() == y * w + x,
                    forall|p: int|
                        0 <= p < index_at@.len() ==> #[trigger] index_at@[p] == s.start_at(p)
                            && index_at@[p] + s.loc_nodes(
                            Location((p % (w as int)) as usize, (p / (w as int)) as usize),
                        ).len() <= nodes@.len(),
                decreases w - x,
            {
                let loc = Location(x, y);
                proof {
                    lemma_pos_in_range(w as int, h as int, x as int, y as int);
                    lemma_pos_div_mod(w as int, x as int, y as int);
                }
                index_at.push(nodes.len());
                if !contains_loc(&self.location_blacklist, loc) {
                    if contains_loc(&self.bridges, loc) {
                        nodes.push(
                            Node {
                                location: loc,
                                cell: NumberlinkCell::Bridge {
                                    affiliation: None,
                                    direction: SquareStep::Right,
                                },
                            },
                        );
                        nodes.push(
                            Node {
                                location: loc,
                                cell: NumberlinkCell::Bridge {
                                    affiliation: None,
                                    direction: SquareStep::Down,
                                },
                            },
                        );
                    } else {
                        let idx: usize = y * w + x;
                        nodes.push(Node { location: loc, cell: self.cells[idx] });
                    }
                }
                proof {
                    assert(s.row_nodes(y as int, x as int + 1) =~= s.row_nodes(y as int, x as int)
                        + s.loc_nodes(loc));
                    assert(nodes@ =~= s.rows_nodes(y as int) + s.row_nodes(y as int, x as int + 1));
                }
                x = x + 1;
            }
            proof {
                assert(s.rows_nodes(y as int + 1) =~= s.rows_nodes(y as int) + s.row_nodes(
                    y as int,
                    s.width(),
                ));
                assert((y as int + 1) * (w as int) == y as int * (w as int) + (w as int))
                    by (nonlinear_arith);
            }
            y = y + 1;
        }
        proof {
            assert(nodes@ == s.built_nodes());
        }
        let total_nodes = nodes.len();

        // Grid edges: rightward and downward from every live location,
        // attached to the matching bridge lanes, unless walled off.
        let mut edges: Vec<GraphEdge> = Vec::new();
        let mut y: usize = 0;
        while y < h
            invariant
                self.wf(),
                s == self@,
                w * h <= usize::MAX,
                w == self.dims.0,
                h == self.dims.1,
                y <= h,
                edges@ == s.rows_edges(y as int),
                index_at@.len() == h * w,
                total_nodes == nodes@.len(),
                forall|p: int|
                    0 <= p < index_at@.len() ==> #[trigger] index_at@[p] == s.start_at(p)
                        && index_at@[p] + s.loc_nodes(
                        Location((p % (w as int)) as usize, (p / (w as int)) as usize),
                    ).len() <= nodes@.len(),
            decreases h - y,
        {
            let mut x: usize = 0;
            while x < w
                invariant
                    self.wf(),
                    s == self@,
                    w * h <= usize::MAX,
                    w == self.dims.0,
                    h == self.dims.1,
                    y < h,
                    x <= w,
                    edges@ == s.rows_edges(y as int) + s.row_edges(y as int, x as int),
                    index_at@.len() == h * w,
                    total_nodes == nodes@.len(),
                    forall|p: int|
                        0 <= p < index_at@.len() ==> #[trigger] index_at@[p] == s.start_at(p)
                            && index_at@[p] + s.loc_nodes(
                            Location((p % (w as int)) as usize, (p / (w as int)) as usize),
                        ).len() <= nodes@.len(),
                decreases w - x,
            {
                let loc = Location(x, y);
                proof {
                    lemma_pos_in_range(w as int, h as int, x as int, y as int);
                    lemma_pos_div_mod(w as int, x as int, y as int);
                    crate::location::lemma_coord_offset_in_range(x, 1);
                    crate::location::lemma_coord_offset_in_range(y, 1);
                    crate::location::lemma_coord_offset_in_range(x, 0);
                    crate::location::lemma_coord_offset_in_range(y, 0);
                }
                let p: usize = y * w + x;
                let base = index_at[p];
                let ghost at_loc_start = edges@;
                let loc_alive = !contains_loc(&self.location_blacklist, loc);
                if x + 1 < w {
                    let t = Location(x + 1, y);
                    proof {
                        lemma_pos_in_range(w as int, h as int, x as int + 1, y as int);
                        lemma_pos_div_mod(w as int, x as int + 1, y as int);
                    }
                    if loc_alive && !contains_loc(&self.location_blacklist, t) && !contains_wall(
                        &self.edge_blacklist,
                        loc,
                        t,
                    ) {
                        let pt: usize = y * w + (x + 1);
                        let tb = index_at[pt];
                        edges.push(
                            GraphEdge { a: base, b: tb, affiliation: 0, direction: SquareStep::Right },
                        );
                        proof {
                            assert(edges@.last() == s.grid_edge(loc, SquareStep::Right));
                        }
                    }
                }
                let ghost after_right = edges@;
                proof {
                    assert(after_right =~= at_loc_start + (
                    if s.grid_edge_present(loc, SquareStep::Right) {
                        seq![s.grid_edge(loc, SquareStep::Right)]
                    } else {
                        Seq::empty()
                    }));
                }
                if y + 1 < h {
                    let t = Location(x, y + 1);
                    proof {
                        lemma_pos_in_range(w as int, h as int, x as int, y as int + 1);
                        lemma_pos_div_mod(w as int, x as int, y as int + 1);
                    }
                    if loc_alive && !contains_loc(&self.location_blacklist, t) && !contains_wall(
                        &self.edge_blacklist,
                        loc,
                        t,
                    ) {
                        let pt: usize = (y + 1) * w + x;
                        let tb = index_at[pt];
                        let off_a: usize = if contains_loc(&self.bridges, loc) {
                            1
                        } else {
                            0
                        };
                        let off_b: usize = if contains_loc(&self.bridges, t) {
                            1
                        } else {
                            0
                        };
                        edges.push(
                            GraphEdge {
                                a: base + off_a,
                                b: tb + off_b,
                                affiliation: 0,
                                direction: SquareStep::Down,
                            },
                        );
                        proof {
                            assert(edges@.last() == s.grid_edge(loc, SquareStep::Down));
                        }
                    }
                }
                proof {
                    assert(edges@ =~= after_right + (
                    if s.grid_edge_present(loc, SquareStep::Down) {
                        seq![s.grid_edge(loc, SquareStep::Down)]
                    } else {
                        Seq::empty()
                    }));
                    assert(s.row_edges(y as int, x as int + 1) =~= s.row_edges(y as int, x as int)
                        + s.loc_edges(loc));
                    assert(edges@ =~= s.rows_edges(y as int) + s.row_edges(y as int, x as int + 1));
                }
                x = x + 1;
            }
            proof {
                assert(s.rows_edges(y as int + 1) =~= s.rows_edges(y as int) + s.row_edges(
                    y as int,
                    s.width(),
                ));
            }
            y = y + 1;
        }
        proof {
            assert(edges@ == s.grid_edges());
        }

        // Warp edges, skipping endpoints that lowering dropped, walled pairs,
        // and adjacent pairs whose grid edge already stands.
        let mut i: usize = 0;
        while i < self.edge_whitelist.len()
            invariant
                self.wf(),
                s == self@,
                w * h <= usize::MAX,
                w == self.dims.0,
                h == self.dims.1,
                i <= self.edge_whitelist.len(),
                edges@ == s.grid_edges() + s.warps_upto(i as int),
                index_at@.len() == h * w,
                total_nodes == nodes@.len(),
                forall|p: int|
                    0 <= p < index_at@.len() ==> #[trigger] index_at@[p] == s.start_at(p)
                        && index_at@[p] + s.loc_nodes(
                        Location((p % (w as int)) as usize, (p / (w as int)) as usize),
                    ).len() <= nodes@.len(),
            decreases self.edge_whitelist.len() - i,
        {
            let entry = self.edge_whitelist[i];
            let p1 = entry.0.0;
            let p2 = entry.0.1;
            let d = entry.1;
            proof {
                assert(s.warp_wf(s.warps[i as int]));
            }
            if !contains_loc(&self.location_blacklist, p1) && !contains_loc(
                &self.location_blacklist,
                p2,
            ) && !contains_wall(&self.edge_blacklist, p1, p2) && SquareStep::direction_to(
                p1,
                p2,
            ).is_none() {
                proof {
                    lemma_pos_in_range(w as int, h as int, p1.0 as int, p1.1 as int);
                    lemma_pos_div_mod(w as int, p1.0 as int, p1.1 as int);
                    lemma_pos_in_range(w as int, h as int, p2.0 as int, p2.1 as int);
                    lemma_pos_div_mod(w as int, p2.0 as int, p2.1 as int);
                }
                let q1: usize = p1.1 * w + p1.0;
                let q2: usize = p2.1 * w + p2.0;
                let ia = index_at[q1];
                let ib = index_at[q2];
                edges.push(GraphEdge { a: ia, b: ib, affiliation: 0, direction: d });
                proof {
                    assert(edges@.last() == s.warp_edge(s.warps[i as int]));
                }
            }
            proof {
                assert(edges@ =~= s.grid_edges() + s.warps_upto(i as int + 1));
            }
            i = i + 1;
        }

        // The display table: '.' for the null color, then each affiliation's
        // character.
        let mut displays: Vec<char> = Vec::new();
        displays.push('.');
        let mut i: usize = 0;
        while i < self.affiliation_displays.len()
            invariant
                s == self@,
                w * h <= usize::MAX,
                i <= self.affiliation_displays.len(),
                displays@ =~= seq!['.'] + s.displays.take(i as int),
            decreases self.affiliation_displays.len() - i,
        {
            displays.push(self.affiliation_displays[i]);
            i = i + 1;
        }
        proof {
            assert(s.displays.take(s.displays.len() as int) =~= s.displays);
        }

        let board = Board {
            graph: BoardGraph { nodes, edges },
            dims: (w, h),
            affiliation_displays: displays,
        };
        proof {
            assert(board@ =~= s.built_board());
            s.lemma_built_render_wf();
            s.lemma_built_graph_wf();
        }
        Result::Ok(board)
    }
}

} // verus!
