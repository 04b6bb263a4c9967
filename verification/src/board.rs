use vstd::prelude::*;

use crate::builder::{cell_wf, BuilderState};
use crate::cell::{AffiliationID, FrozenCellKind, NumberlinkCell};
use crate::graph::{BoardGraph, GraphEdge, GraphState, Node};
use crate::location::Location;
use crate::shape::{frozen_kind_matches, print_rows, select_at, SquareStep};
use crate::solver::{clauses_of, engine_sat, valid_assignment, within_limits, GraphSolver, SolverFailure};

verus! {

/// The ASCII uppercase image of a character: letters `'a'..'z'` map to
/// `'A'..'Z'`, everything else is unchanged.
pub open spec fn upper_char(c: char) -> char {
    if 97 <= c as u32 && c as u32 <= 122 {
        ((c as u32 - 32) as u32) as char
    } else {
        c
    }
}

/// The ASCII lowercase image of a character: letters `'A'..'Z'` map to
/// `'a'..'z'`, everything else is unchanged.
pub open spec fn lower_char(c: char) -> char {
    if 65 <= c as u32 && c as u32 <= 90 {
        ((c as u32 + 32) as u32) as char
    } else {
        c
    }
}

/// Relies on char::to_ascii_uppercase: ASCII letters 'a' to 'z' are mapped
/// to 'A' to 'Z', every other character is returned unchanged.
#[verifier::external_body]
fn char_upper(c: char) -> (r: char)
    ensures
        r == upper_char(c),
{
    c.to_ascii_uppercase()
}

/// Relies on char::to_ascii_lowercase: ASCII letters 'A' to 'Z' are mapped
/// to 'a' to 'z', every other character is returned unchanged.
#[verifier::external_body]
fn char_lower(c: char) -> (r: char)
    ensures
        r == lower_char(c),
{
    c.to_ascii_lowercase()
}

/// A board: the graph lowered from a builder, the board dimensions, and the
/// display-character table indexed by affiliation (slot 0 is the null color's
/// `'.'`).
#[derive(Debug)]
pub struct Board {
    pub graph: BoardGraph,
    pub dims: (usize, usize),
    pub affiliation_displays: Vec<char>,
}

/// The mathematical model of a board.
#[verifier::ext_equal]
pub ghost struct BoardState {
    pub graph: GraphState,
    pub dims: (usize, usize),
    pub displays: Seq<char>,
}

impl View for Board {
    type V = BoardState;

    open spec fn view(&self) -> BoardState {
        BoardState { graph: self.graph@, dims: self.dims, displays: self.affiliation_displays@ }
    }
}

impl BoardState {
    /// The board recolored by an assignment: every empty cell becomes a path
    /// cell with its decoded affiliation, every edge takes its decoded
    /// affiliation, and the topology, dimensions and display table stay.
    pub open spec fn recolored(self, asg: Seq<AffiliationID>) -> BoardState {
        let n = self.graph.nodes.len() as int;
        BoardState {
            graph: GraphState {
                nodes: Seq::new(
                    self.graph.nodes.len(),
                    |i: int|
                        Node {
                            location: self.graph.nodes[i].location,
                            cell: match self.graph.nodes[i].cell {
                                NumberlinkCell::Empty => NumberlinkCell::Path {
                                    affiliation: asg[i],
                                },
                                c => c,
                            },
                        },
                ),
                edges: Seq::new(
                    self.graph.edges.len(),
                    |j: int|
                        GraphEdge {
                            a: self.graph.edges[j].a,
                            b: self.graph.edges[j].b,
                            affiliation: asg[n + j],
                            direction: self.graph.edges[j].direction,
                        },
                ),
            },
            ..self
        }
    }
}

impl BoardState {
    /// The character a location shows: a terminus in uppercase, a path cell
    /// in lowercase, a bridge as `'+'`, an empty cell or a hole as `'.'`.
    pub open spec fn char_at(self, loc: Location) -> char {
        let ns = select_at(self.graph.nodes, loc);
        if ns.len() == 0 {
            '.'
        } else if ns.len() == 1 {
            match ns[0].cell {
                NumberlinkCell::Terminus { affiliation } => upper_char(
                    self.displays[affiliation as int],
                ),
                NumberlinkCell::Path { affiliation } => lower_char(
                    self.displays[affiliation as int],
                ),
                NumberlinkCell::Empty => '.',
                NumberlinkCell::Bridge { .. } => '+',
            }
        } else {
            '+'
        }
    }

    /// The rendered characters of the whole grid, row-major, without line
    /// breaks.
    pub open spec fn char_grid(self) -> Seq<char> {
        Seq::new(
            (self.dims.0 * self.dims.1) as nat,
            |p: int|
                self.char_at(
                    Location((p % self.dims.0 as int) as usize, (p / self.dims.0 as int) as usize),
                ),
        )
    }

    /// What rendering returns: the grid rows, each closed by a newline.
    pub open spec fn rendered(self) -> Seq<char> {
        print_rows(self.char_grid(), self.dims.0 as int, self.dims.1 as int)
    }

    /// A board fit for rendering: positive in-range dimensions, and every
    /// colored node's affiliation has a display character.
    pub open spec fn render_wf(self) -> bool {
        &&& 1 <= self.dims.0
        &&& 1 <= self.dims.1
        &&& self.dims.0 * self.dims.1 <= usize::MAX
        &&& forall|i: int|
            0 <= i < self.graph.nodes.len() ==> match (#[trigger] self.graph.nodes[i]).cell {
                NumberlinkCell::Terminus { affiliation } => affiliation < self.displays.len(),
                NumberlinkCell::Path { affiliation } => affiliation < self.displays.len(),
                _ => true,
            }
    }
}

/// The largest terminus affiliation of a displayable graph is null or has a
/// display character.
proof fn lemma_max_affiliation_display(g: GraphState, num_displays: int, k: int)
    requires
        0 <= k <= g.nodes.len(),
        forall|i: int|
            0 <= i < g.nodes.len() ==> match (#[trigger] g.nodes[i]).cell {
                NumberlinkCell::Terminus { affiliation } => affiliation < num_displays,
                NumberlinkCell::Path { affiliation } => affiliation < num_displays,
                _ => true,
            },
    ensures
        g.max_affiliation_upto(k) == 0 || g.max_affiliation_upto(k) < num_displays,
    decreases k,
{
    if k > 0 {
        lemma_max_affiliation_display(g, num_displays, k - 1);
    }
}

/// Recoloring keeps the graph well-formed: node locations and lanes are
/// untouched and edges keep their endpoints.
pub proof fn lemma_recolored_wf(bs: BoardState, asg: Seq<AffiliationID>)
    requires
        bs.graph.wf(),
    ensures
        bs.recolored(asg).graph.wf(),
{
    let g = bs.graph;
    let rec = bs.recolored(asg).graph;
    assert forall|i: int| 0 <= i < rec.nodes.len() implies crate::graph::node_key(
        #[trigger] rec.nodes[i],
    ) == crate::graph::node_key(g.nodes[i]) by {
        assert(rec.nodes[i].location == g.nodes[i].location);
    }
    assert forall|j: int| 0 <= j < rec.edges.len() implies rec.edge_wf(#[trigger] rec.edges[j]) by {
        assert(rec.edges[j].a == g.edges[j].a && rec.edges[j].b == g.edges[j].b);
        assert(g.edge_wf(g.edges[j]));
    }
    assert forall|i: int, j: int|
        0 <= i < j < rec.edges.len() implies !crate::graph::same_endpoints(
        rec.edges[i],
        rec.edges[j],
    ) by {
        assert(rec.edges[i].a == g.edges[i].a && rec.edges[i].b == g.edges[i].b);
        assert(rec.edges[j].a == g.edges[j].a && rec.edges[j].b == g.edges[j].b);
        assert(!crate::graph::same_endpoints(g.edges[i], g.edges[j]));
    }
}

/// A board fit for rendering stays fit for rendering when recolored by an
/// assignment that obeys the Numberlink rules.
pub proof fn lemma_recolored_render_wf(bs: BoardState, asg: Seq<AffiliationID>)
    requires
        bs.render_wf(),
        valid_assignment(bs.graph, asg),
    ensures
        bs.recolored(asg).render_wf(),
{
    lemma_max_affiliation_display(bs.graph, bs.displays.len() as int, bs.graph.nodes.len() as int);
    let rec = bs.recolored(asg);
    assert forall|i: int| 0 <= i < rec.graph.nodes.len() implies match (
    #[trigger] rec.graph.nodes[i]).cell {
        NumberlinkCell::Terminus { affiliation } => affiliation < rec.displays.len(),
        NumberlinkCell::Path { affiliation } => affiliation < rec.displays.len(),
        _ => true,
    } by {
        assert(rec.graph.nodes[i].cell == (match bs.graph.nodes[i].cell {
            NumberlinkCell::Empty => NumberlinkCell::Path { affiliation: asg[i] },
            c => c,
        }));
    }
}

/// The character an unsolved built board should show at a location: the
/// uppercase display character of a surviving terminus cell, '+' at a
/// surviving bridge site, '.' anywhere else.
pub open spec fn unsolved_char(s: BuilderState, loc: Location) -> char {
    if s.holed(loc) {
        '.'
    } else if s.bridged(loc) {
        '+'
    } else {
        match s.cells[s.pos(loc)] {
            NumberlinkCell::Terminus { affiliation } => upper_char(
                s.displays[affiliation as int - 1],
            ),
            _ => '.',
        }
    }
}

/// Law: a valid builder that is built and rendered without solving yields a
/// grid showing each surviving terminus cell as its uppercase display
/// character, each surviving bridge site as '+', and every other cell, holes
/// included, as '.'.
pub proof fn lemma_render_unsolved(s: BuilderState, x: int, y: int)
    requires
        s.wf(),
        s.is_valid(),
        0 <= x < s.width(),
        0 <= y < s.height(),
    ensures
        s.built_board().rendered().len() == s.height() * (s.width() + 1),
        s.built_board().rendered()[y * (s.width() + 1) + x] == unsolved_char(
            s,
            Location(x as usize, y as usize),
        ),
{
    let bs = s.built_board();
    let loc = Location(x as usize, y as usize);
    let cs = bs.char_grid();
    crate::shape::lemma_print_rows_index(cs, s.width(), s.height(), y, x);
    crate::builder::lemma_pos_in_range(s.width(), s.height(), x, y);
    crate::builder::lemma_pos_div_mod(s.width(), x, y);
    assert(cs[y * s.width() + x] == bs.char_at(loc));
    s.lemma_nodes_at_location(loc);
    if !s.holed(loc) && !s.bridged(loc) {
        assert(cell_wf(s.cells[s.pos(loc)], s.displays.len() as int));
        let ns = select_at(bs.graph.nodes, loc);
        assert(ns == s.loc_nodes(loc));
        assert(ns.len() == 1 && ns[0] == (Node { location: loc, cell: s.cells[s.pos(loc)] }));
        match s.cells[s.pos(loc)] {
            NumberlinkCell::Terminus { affiliation } => {
                assert(bs.displays[affiliation as int] == s.displays[affiliation as int - 1]);
            },
            _ => {},
        }
    }
}

/// The sole node at a rendered location carries an affiliation with a
/// display character, whenever the board is fit for rendering.
proof fn lemma_char_index_in_range(bs: BoardState, loc: Location)
    requires
        bs.render_wf(),
        select_at(bs.graph.nodes, loc).len() == 1,
    ensures
        match select_at(bs.graph.nodes, loc)[0].cell {
            NumberlinkCell::Terminus { affiliation } => affiliation < bs.displays.len(),
            NumberlinkCell::Path { affiliation } => affiliation < bs.displays.len(),
            _ => true,
        },
{
    let ns = select_at(bs.graph.nodes, loc);
    crate::shape::lemma_select_at_contains(bs.graph.nodes, loc, 0);
    let i = choose|i: int| 0 <= i < bs.graph.nodes.len() && bs.graph.nodes[i] == ns[0];
    assert(bs.graph.nodes[i] == ns[0]);
}

impl Board {
    /// Produce the textual board: one row per line, each terminus shown as
    /// its uppercase display character, each path cell lowercase, each
    /// bridge as `'+'` and every other cell as `'.'`.
    pub fn render(&self) -> (r: String)
        requires
            self@.render_wf(),
        ensures
            r@ == self@.rendered(),
    {
        let w = self.dims.0;
        let h = self.dims.1;
        let cells = SquareStep::gph_to_array((w, h), &self.graph);
        let total: usize = w * h;
        let mut chars: Vec<char> = Vec::new();
        let mut p: usize = 0;
        while p < total
            invariant
                self@.render_wf(),
                w == self.dims.0,
                h == self.dims.1,
                total == w * h,
                cells@.len() == total,
                forall|q: int|
                    0 <= q < cells@.len() ==> frozen_kind_matches(
                        self.graph@,
                        Location((q % w as int) as usize, (q / w as int) as usize),
                        (#[trigger] cells@[q]).cell_type,
                    ),
                p <= total,
                chars@.len() == p,
                forall|q: int|
                    0 <= q < p ==> #[trigger] chars@[q] == self@.char_at(
                        Location((q % w as int) as usize, (q / w as int) as usize),
                    ),
            decreases total - p,
        {
            let x: usize = p % w;
            let y: usize = p / w;
            let loc = Location(x, y);
            proof {
                if select_at(self@.graph.nodes, loc).len() == 1 {
                    lemma_char_index_in_range(self@, loc);
                }
            }
            let ch: char = match &cells[p].cell_type {
                FrozenCellKind::Terminus { affiliation } => char_upper(
                    self.affiliation_displays[*affiliation],
                ),
                FrozenCellKind::Path { affiliation } => char_lower(
                    self.affiliation_displays[*affiliation],
                ),
                FrozenCellKind::Bridge { .. } => '+',
                FrozenCellKind::Empty => '.',
            };
            chars.push(ch);
            p = p + 1;
        }
        proof {
            assert(chars@ =~= self@.char_grid());
        }
        SquareStep::print((w, h), &chars)
    }

    /// Solve this board: reduce it to a SAT instance through a
    /// [`GraphSolver`], run the CDCL engine, and recolor the graph with the
    /// decoded affiliations. On success the result is this board recolored by
    /// some assignment that obeys the Numberlink rules (see
    /// [`valid_assignment`]). The graph solver's verdict is surfaced
    /// verbatim: `Inconsistent` is returned exactly when the instance fits
    /// the engine and the engine finds the encoding of this graph
    /// unsatisfiable, and an instance beyond the engine's limits yields
    /// `NoAffFound`.
    pub fn solve(self) -> (r: Result<Board, SolverFailure>)
        ensures
            r matches Ok(b) ==> exists|asg: Seq<AffiliationID>|
                #![auto]
                valid_assignment(self@.graph, asg) && b@ == self@.recolored(asg),
            r matches Ok(b) ==> (self@.render_wf() ==> b@.render_wf()),
            r matches Ok(b) ==> (self@.graph.wf() ==> b@.graph.wf()),
            r matches Ok(b) ==> within_limits(self@.graph) && engine_sat(clauses_of(self@.graph)),
            r == Err::<Board, SolverFailure>(SolverFailure::Inconsistent) <==> (within_limits(
                self@.graph,
            ) && !engine_sat(clauses_of(self@.graph))),
            !within_limits(self@.graph) ==> r == Err::<Board, SolverFailure>(
                SolverFailure::NoAffFound,
            ),
    {
        let ghost input = self@;
        let asg = {
            let solver = GraphSolver::from(&self.graph);
            match solver.solve() {
                Result::Ok(a) => a,
                Result::Err(e) => {
                    return Result::Err(e);
                },
            }
        };
        let n = self.graph.nodes.len();
        let m = self.graph.edges.len();
        let total = asg.len();
        proof {
            assert(n + m <= usize::MAX);
        }
        let mut nodes: Vec<Node> = Vec::new();
        let mut i: usize = 0;
        while i < n
            invariant
                input == self@,
                n == self.graph@.nodes.len(),
                valid_assignment(self@.graph, asg@),
                i <= n,
                nodes@.len() == i,
                forall|q: int|
                    0 <= q < i ==> #[trigger] nodes@[q] == input.recolored(asg@).graph.nodes[q],
            decreases n - i,
        {
            let nd = self.graph.nodes[i];
            match nd.cell {
                NumberlinkCell::Empty => {
                    nodes.push(
                        Node {
                            location: nd.location,
                            cell: NumberlinkCell::Path { affiliation: asg[i] },
                        },
                    );
                },
                _ => {
                    nodes.push(nd);
                },
            }
            i = i + 1;
        }
        let mut edges: Vec<GraphEdge> = Vec::new();
        let mut j: usize = 0;
        while j < m
            invariant
                input == self@,
                n == self.graph@.nodes.len(),
                m == self.graph@.edges.len(),
                n + m <= usize::MAX,
                valid_assignment(self@.graph, asg@),
                j <= m,
                edges@.len() == j,
                forall|q: int|
                    0 <= q < j ==> #[trigger] edges@[q] == input.recolored(asg@).graph.edges[q],
            decreases m - j,
        {
            let e = self.graph.edges[j];
            edges.push(
                GraphEdge { a: e.a, b: e.b, affiliation: asg[n + j], direction: e.direction },
            );
            j = j + 1;
        }
        let board = Board {
            graph: BoardGraph { nodes, edges },
            dims: self.dims,
            affiliation_displays: self.affiliation_displays,
        };
        proof {
            assert(board@.graph.nodes =~= input.recolored(asg@).graph.nodes);
            assert(board@.graph.edges =~= input.recolored(asg@).graph.edges);
            assert(board@ =~= input.recolored(asg@));
            if input.render_wf() {
                lemma_recolored_render_wf(input, asg@);
            }
            if input.graph.wf() {
                lemma_recolored_wf(input, asg@);
            }
        }
        Result::Ok(board)
    }
}

} // verus!
