use vstd::prelude::*;

use varisat::ExtendFormula;

use crate::cell::{AffiliationID, NumberlinkCell};
use crate::graph::{BoardGraph, GraphState};

verus! {

/// Reasons a [`GraphSolver`] may fail.
#[derive(Clone, Copy, PartialEq, Eq, Structural, Hash, Debug)]
pub enum SolverFailure {
    /// The SAT engine found the instance unsatisfiable: the board as stated
    /// has no valid coloring.
    Inconsistent,
    /// No affiliation could be recovered for some node or edge, or the
    /// instance exceeded the engine's size limits. This indicates an internal
    /// invariant breach rather than a user error.
    NoAffFound,
}

/// The negation of a SAT literal (a variable index paired with `true` for
/// positive polarity).
pub open spec fn negate_lit(l: (usize, bool)) -> (usize, bool) {
    (l.0, !l.1)
}

/// The pairwise at-most-one clause of literals `i < j` of `lits`.
pub open spec fn amo_clause(lits: Seq<(usize, bool)>, i: int, j: int) -> Seq<(usize, bool)> {
    seq![negate_lit(lits[i]), negate_lit(lits[j])]
}

/// The at-most-one clauses of the pairs `(i, i+1) .. (i, j-1)`, in order.
pub open spec fn amo_row(lits: Seq<(usize, bool)>, i: int, j: int) -> Seq<Seq<(usize, bool)>>
    decreases j - i,
{
    if j <= i + 1 {
        Seq::empty()
    } else {
        amo_row(lits, i, j - 1).push(amo_clause(lits, i, j - 1))
    }
}

/// The at-most-one clauses of every pair whose first literal index is below
/// `i`, in generation order.
pub open spec fn amo_rows(lits: Seq<(usize, bool)>, i: int) -> Seq<Seq<(usize, bool)>>
    decreases i,
{
    if i <= 0 {
        Seq::empty()
    } else {
        amo_rows(lits, i - 1) + amo_row(lits, i - 1, lits.len() as int)
    }
}

/// The clause set encoding "exactly one of `lits` is true": the at-most-one
/// clause `(!a, !b)` of every unordered pair of literals, then the single
/// at-least-one clause listing every literal.
pub open spec fn exactly_one_clauses(lits: Seq<(usize, bool)>) -> Seq<Seq<(usize, bool)>> {
    amo_rows(lits, lits.len() as int).push(lits)
}

/// Whether each executable clause of `v` reads as the corresponding
/// specification clause of `s`.
pub open spec fn clause_seq_matches(v: Seq<Vec<(usize, bool)>>, s: Seq<Seq<(usize, bool)>>) -> bool {
    &&& v.len() == s.len()
    &&& forall|c: int| 0 <= c < v.len() ==> (#[trigger] v[c])@ == s[c]
}

proof fn lemma_matches_push(
    v: Seq<Vec<(usize, bool)>>,
    s: Seq<Seq<(usize, bool)>>,
    x: Vec<(usize, bool)>,
    cl: Seq<(usize, bool)>,
)
    requires
        clause_seq_matches(v, s),
        x@ == cl,
    ensures
        clause_seq_matches(v.push(x), s.push(cl)),
{
    assert forall|c: int| 0 <= c < v.push(x).len() implies (#[trigger] v.push(x)[c])@ == s.push(
        cl,
    )[c] by {
        if c < v.len() {
            assert(v.push(x)[c] == v[c]);
        } else {
            assert(v.push(x)[c] == x);
        }
    }
}

proof fn lemma_matches_append(
    v1: Seq<Vec<(usize, bool)>>,
    s1: Seq<Seq<(usize, bool)>>,
    v2: Seq<Vec<(usize, bool)>>,
    s2: Seq<Seq<(usize, bool)>>,
)
    requires
        clause_seq_matches(v1, s1),
        clause_seq_matches(v2, s2),
    ensures
        clause_seq_matches(v1 + v2, s1 + s2),
{
    assert forall|c: int| 0 <= c < (v1 + v2).len() implies (#[trigger] (v1 + v2)[c])@ == (s1
        + s2)[c] by {
        if c < v1.len() {
            assert((v1 + v2)[c] == v1[c]);
        } else {
            assert((v1 + v2)[c] == v2[c - v1.len()]);
        }
    }
}

/// The clause set encoding "exactly one of `lits` is true": exactly
/// [`exactly_one_clauses`], clause for clause.
pub(crate) fn exactly_one(lits: Vec<(usize, bool)>) -> (r: Vec<Vec<(usize, bool)>>)
    ensures
        clause_seq_matches(r@, exactly_one_clauses(lits@)),
{
    let n = lits.len();
    let mut r: Vec<Vec<(usize, bool)>> = Vec::new();
    let mut i: usize = 0;
    while i < n
        invariant
            n == lits@.len(),
            i <= n,
            clause_seq_matches(r@, amo_rows(lits@, i as int)),
        decreases n - i,
    {
        let mut j: usize = i + 1;
        while j < n
            invariant
                n == lits@.len(),
                i < n,
                i < j,
                j <= n,
                clause_seq_matches(
                    r@,
                    amo_rows(lits@, i as int) + amo_row(lits@, i as int, j as int),
                ),
            decreases n - j,
        {
            let li = lits[i];
            let lj = lits[j];
            let mut clause: Vec<(usize, bool)> = Vec::new();
            clause.push((li.0, !li.1));
            clause.push((lj.0, !lj.1));
            proof {
                assert(clause@ =~= amo_clause(lits@, i as int, j as int));
                lemma_matches_push(
                    r@,
                    amo_rows(lits@, i as int) + amo_row(lits@, i as int, j as int),
                    clause,
                    amo_clause(lits@, i as int, j as int),
                );
                assert((amo_rows(lits@, i as int) + amo_row(lits@, i as int, j as int)).push(
                    amo_clause(lits@, i as int, j as int),
                ) =~= amo_rows(lits@, i as int) + amo_row(lits@, i as int, j as int + 1));
            }
            r.push(clause);
            j = j + 1;
        }
        proof {
            assert(amo_rows(lits@, i as int) + amo_row(lits@, i as int, n as int) =~= amo_rows(
                lits@,
                i as int + 1,
            ));
        }
        i = i + 1;
    }
    let alo = crate::builder::copy_vec(&lits);
    proof {
        lemma_matches_push(r@, amo_rows(lits@, n as int), alo, lits@);
    }
    r.push(alo);
    r
}

/// An assignment of one affiliation to every node and edge (nodes first, in
/// graph order) that obeys the Numberlink rules:
/// - every node has a non-null affiliation, no larger than the graph's
///   largest terminus affiliation, and a terminus keeps its declared one;
/// - a terminus has exactly one incident edge of its own affiliation, every
///   other node exactly two;
/// - an edge's affiliation is null exactly when its endpoints' affiliations
///   differ, and otherwise equals both endpoints' affiliation.
pub open spec fn valid_assignment(g: GraphState, asg: Seq<AffiliationID>) -> bool {
    let n = g.nodes.len() as int;
    let m = g.edges.len() as int;
    &&& asg.len() == n + m
    &&& forall|j: int| 0 <= j < m ==> (#[trigger] g.edges[j]).a < n && g.edges[j].b < n
    &&& forall|i: int| 0 <= i < n ==> 1 <= #[trigger] asg[i] <= g.max_affiliation()
    &&& forall|i: int|
        0 <= i < n ==> match (#[trigger] g.nodes[i]).cell {
            NumberlinkCell::Terminus { affiliation } => asg[i] == affiliation,
            _ => true,
        }
    &&& forall|i: int|
        0 <= i < n ==> #[trigger] g.incident_count(asg, i, asg[i], m) == (
        if g.nodes[i].cell is Terminus {
            1int
        } else {
            2int
        })
    &&& forall|j: int| 0 <= j < m ==> #[trigger] asg[n + j] <= g.max_affiliation()
    &&& forall|j: int|
        0 <= j < m ==> ((#[trigger] asg[n + j]) != 0 ==> asg[g.edges[j].a as int] == asg[n + j]
            && asg[g.edges[j].b as int] == asg[n + j])
    &&& forall|j: int|
        0 <= j < m ==> ((#[trigger] asg[n + j]) == 0 ==> asg[g.edges[j].a as int]
            != asg[g.edges[j].b as int])
}

impl GraphState {
    /// How many of the first `k` edges touch node `i` and carry affiliation
    /// `a` under the assignment `asg`.
    pub open spec fn incident_count(
        self,
        asg: Seq<AffiliationID>,
        i: int,
        a: AffiliationID,
        k: int,
    ) -> int
        decreases k,
    {
        if k <= 0 {
            0
        } else {
            self.incident_count(asg, i, a, k - 1) + (
            if (self.edges[k - 1].a == i || self.edges[k - 1].b == i) && asg[self.nodes.len() + k
                - 1] == a {
                1int
            } else {
                0int
            })
        }
    }
}

/// Decide whether `asg` is a valid Numberlink coloring of `graph`.
pub fn check_assignment(graph: &BoardGraph, asg: &Vec<AffiliationID>) -> (r: bool)
    ensures
        r == valid_assignment(graph@, asg@),
{
    let ghost gs = graph@;
    let n = graph.nodes.len();
    let m = graph.edges.len();
    let len = asg.len();
    if m > usize::MAX - n {
        return false;
    }
    if len != n + m {
        return false;
    }
    let max_aff = graph.max_affiliation();

    // edge endpoints in range
    let mut j: usize = 0;
    while j < m
        invariant
            gs == graph@,
            n == gs.nodes.len(),
            m == gs.edges.len(),
            j <= m,
            forall|j2: int| 0 <= j2 < j ==> (#[trigger] gs.edges[j2]).a < n && gs.edges[j2].b < n,
        decreases m - j,
    {
        let e = graph.edges[j];
        if e.a >= n || e.b >= n {
            return false;
        }
        j = j + 1;
    }

    // node conditions
    let mut i: usize = 0;
    while i < n
        invariant
            gs == graph@,
            n == gs.nodes.len(),
            m == gs.edges.len(),
            asg@.len() == n + m,
            n + m <= usize::MAX,
            max_aff == gs.max_affiliation(),
            i <= n,
            forall|i2: int| 0 <= i2 < i ==> 1 <= #[trigger] asg@[i2] <= gs.max_affiliation(),
            forall|i2: int|
                0 <= i2 < i ==> match (#[trigger] gs.nodes[i2]).cell {
                    NumberlinkCell::Terminus { affiliation } => asg@[i2] == affiliation,
                    _ => true,
                },
            forall|i2: int|
                0 <= i2 < i ==> #[trigger] gs.incident_count(asg@, i2, asg@[i2], m as int) == (
                if gs.nodes[i2].cell is Terminus {
                    1int
                } else {
                    2int
                }),
        decreases n - i,
    {
        let ai = asg[i];
        if ai < 1 || ai > max_aff {
            return false;
        }
        let expected: usize = match graph.nodes[i].cell {
            NumberlinkCell::Terminus { affiliation } => {
                if ai != affiliation {
                    return false;
                }
                1
            },
            _ => 2,
        };
        let mut count: usize = 0;
        let mut k: usize = 0;
        while k < m
            invariant
                gs == graph@,
                n == gs.nodes.len(),
                m == gs.edges.len(),
                asg@.len() == n + m,
                n + m <= usize::MAX,
                i < n,
                ai == asg@[i as int],
                k <= m,
                count <= k,
                count == gs.incident_count(asg@, i as int, ai, k as int),
            decreases m - k,
        {
            let e = graph.edges[k];
            if (e.a == i || e.b == i) && asg[n + k] == ai {
                count = count + 1;
            }
            k = k + 1;
        }
        if count != expected {
            return false;
        }
        i = i + 1;
    }

    // edge conditions
    let mut j: usize = 0;
    while j < m
        invariant
            gs == graph@,
            n == gs.nodes.len(),
            m == gs.edges.len(),
            asg@.len() == n + m,
            n + m <= usize::MAX,
            max_aff == gs.max_affiliation(),
            j <= m,
            forall|j2: int| 0 <= j2 < m ==> (#[trigger] gs.edges[j2]).a < n && gs.edges[j2].b < n,
            forall|j2: int| 0 <= j2 < j ==> #[trigger] asg@[n + j2] <= gs.max_affiliation(),
            forall|j2: int|
                0 <= j2 < j ==> ((#[trigger] asg@[n + j2]) != 0 ==> asg@[gs.edges[j2].a as int]
                    == asg@[n + j2] && asg@[gs.edges[j2].b as int] == asg@[n + j2]),
            forall|j2: int|
                0 <= j2 < j ==> ((#[trigger] asg@[n + j2]) == 0 ==> asg@[gs.edges[j2].a as int]
                    != asg@[gs.edges[j2].b as int]),
        decreases m - j,
    {
        let e = graph.edges[j];
        let aff = asg[n + j];
        if aff > max_aff {
            return false;
        }
        if aff != 0 {
            if asg[e.a] != aff || asg[e.b] != aff {
                return false;
            }
        } else {
            if asg[e.a] == asg[e.b] {
                return false;
            }
        }
        j = j + 1;
    }
    true
}

/// The largest variable count the SAT engine supports (`varisat::Var` indices
/// stop at `u32::MAX >> 4`).
pub const MAX_SAT_VARS: usize = 0x10000000;

/// The CDCL solver of the varisat crate, used opaquely: verified code hands
/// it clauses as plain index/polarity pairs, tracks them through the named
/// contents below, and validates whatever model comes back.
#[verifier::external_type_specification]
#[verifier::external_body]
pub struct ExSolver<'a>(varisat::Solver<'a>);

/// The clauses a CDCL engine has been handed, in order: the contents of the
/// opaque engine value, named so the trusted wrappers below can keep it.
pub uninterp spec fn engine_clauses(s: varisat::Solver<'static>) -> Seq<Seq<(usize, bool)>>;

/// The verdict the CDCL engine reaches on a clause list. The engine decides
/// satisfiability of the clauses, a mathematical function of the clause list
/// alone, and varisat itself is deterministic (no randomness, fixed-seed
/// hashers), so the verdict depends on nothing else.
pub uninterp spec fn engine_sat(clauses: Seq<Seq<(usize, bool)>>) -> bool;

/// Whether a model lists the literal `l` (a variable index with its value).
pub open spec fn model_lists(m: Seq<(usize, bool)>, l: (usize, bool)) -> bool {
    exists|t: int| 0 <= t < m.len() && m[t] == l
}

/// Whether a model satisfies one clause: some literal of the clause is
/// listed.
pub open spec fn clause_satisfied(m: Seq<(usize, bool)>, c: Seq<(usize, bool)>) -> bool {
    exists|q: int| 0 <= q < c.len() && model_lists(m, c[q])
}

/// Whether a model satisfies every clause of a list.
pub open spec fn model_satisfies(m: Seq<(usize, bool)>, clauses: Seq<Seq<(usize, bool)>>) -> bool {
    forall|k: int| 0 <= k < clauses.len() ==> clause_satisfied(m, #[trigger] clauses[k])
}

/// Relies on varisat::Solver::new: a fresh CDCL engine holding no clauses.
#[verifier::external_body]
fn sat_new() -> (r: varisat::Solver<'static>)
    ensures
        engine_clauses(r) == Seq::<Seq<(usize, bool)>>::empty(),
{
    varisat::Solver::new()
}

/// Relies on varisat::ExtendFormula::add_clause for Solver, with
/// varisat::Lit::from_index converting each index/polarity pair: appends one
/// clause to the engine's formula. Indices at or above `MAX_SAT_VARS`
/// (varisat's `Var::max_count()`) are unsupported by the engine and excluded
/// here.
#[verifier::external_body]
fn sat_add_clause(solver: &mut varisat::Solver<'static>, clause: &Vec<(usize, bool)>)
    requires
        forall|q: int| 0 <= q < clause@.len() ==> (#[trigger] clause@[q]).0 < MAX_SAT_VARS,
    ensures
        engine_clauses(*final(solver)) == engine_clauses(*old(solver)).push(clause@),
{
    let lits: Vec<varisat::Lit> = clause.iter().map(
        |&(v, p)| varisat::Lit::from_index(v, p),
    ).collect();
    solver.add_clause(&lits);
}

/// Relies on varisat::Solver::solve and varisat::Solver::model, with
/// varisat::Lit::index and varisat::Lit::is_positive converting each model
/// literal to an index/value pair. solve reports whether the engine's formula
/// is satisfiable (this crate attaches no interrupt handle and no proof
/// processor, the two ways solve can fail), and after a satisfiable verdict
/// model returns the satisfying assignment: one value per variable, under
/// which every clause holds.
#[verifier::external_body]
fn sat_solve_model(solver: &mut varisat::Solver<'static>) -> (r: Option<Vec<(usize, bool)>>)
    ensures
        engine_clauses(*final(solver)) == engine_clauses(*old(solver)),
        r is Some <==> engine_sat(engine_clauses(*old(solver))),
        r matches Some(m) ==> model_satisfies(m@, engine_clauses(*old(solver))),
        r matches Some(m) ==> forall|t1: int, t2: int|
            0 <= t1 < t2 < m@.len() ==> (#[trigger] m@[t1]).0 != (#[trigger] m@[t2]).0,
{
    match solver.solve() {
        Ok(true) => solver.model().map(
            |m| m.iter().map(|l| (l.index(), l.is_positive())).collect(),
        ),
        _ => None,
    }
}

/// The SAT variable owned by the pair of subject position `pos` and
/// affiliation `aff`.
fn var_of(pos: usize, aff: usize, num_affs: usize, nsub: usize) -> (r: usize)
    requires
        pos < nsub,
        aff < num_affs,
        nsub * num_affs <= usize::MAX,
    ensures
        r == pos * num_affs + aff,
        r < nsub * num_affs,
{
    proof {
        assert(pos * num_affs + aff < nsub * num_affs) by (nonlinear_arith)
            requires
                0 <= pos < nsub,
                0 <= aff < num_affs,
        ;
    }
    pos * num_affs + aff
}

/// A quotient bound turned into a product bound:
/// `nsub <= cap / num` implies `nsub * num <= cap`.
proof fn lemma_quotient_cap(nsub: int, num: int, cap: int)
    requires
        0 <= nsub,
        1 <= num,
        0 <= cap,
        nsub <= cap / num,
    ensures
        nsub * num <= cap,
{
    vstd::arithmetic::div_mod::lemma_fundamental_div_mod(cap, num);
    vstd::arithmetic::div_mod::lemma_mod_bound(cap, num);
    vstd::arithmetic::mul::lemma_mul_inequality(nsub, cap / num, num);
}

/// The converse: `nsub > cap / num` implies `nsub * num > cap`.
proof fn lemma_quotient_cap_conv(nsub: int, num: int, cap: int)
    requires
        0 <= nsub,
        1 <= num,
        0 <= cap,
        nsub > cap / num,
    ensures
        nsub * num > cap,
{
    vstd::arithmetic::div_mod::lemma_fundamental_div_mod(cap, num);
    vstd::arithmetic::div_mod::lemma_mod_bound(cap, num);
    vstd::arithmetic::mul::lemma_mul_inequality(cap / num + 1, nsub, num);
    assert((cap / num + 1) * num == (cap / num) * num + num) by (nonlinear_arith);
}

/// Every terminus affiliation among the first `k` nodes is bounded by
/// `max_affiliation_upto(k)`.
proof fn lemma_terminus_le_max(g: GraphState, i: int, k: int)
    requires
        0 <= i < k <= g.nodes.len(),
    ensures
        match g.nodes[i].cell {
            NumberlinkCell::Terminus { affiliation } => affiliation <= g.max_affiliation_upto(k),
            _ => true,
        },
    decreases k,
{
    if i < k - 1 {
        lemma_terminus_le_max(g, i, k - 1);
    }
}

/// The number of affiliation slots in a graph's SAT variable layout: its
/// largest terminus affiliation plus the null color.
pub open spec fn num_affs_of(g: GraphState) -> int {
    g.max_affiliation() + 1
}

/// The literal of subject position `pos` and affiliation `aff`, with the
/// given polarity.
pub open spec fn sat_lit(g: GraphState, pos: int, aff: int, pol: bool) -> (usize, bool) {
    ((pos * num_affs_of(g) + aff) as usize, pol)
}

/// The positions of the edges among the first `k` that touch node `i`.
pub open spec fn incident_upto(g: GraphState, i: int, k: int) -> Seq<usize>
    decreases k,
{
    if k <= 0 {
        Seq::empty()
    } else {
        incident_upto(g, i, k - 1) + (if g.edges[k - 1].a == i || g.edges[k - 1].b == i {
            seq![(k - 1) as usize]
        } else {
            Seq::empty()
        })
    }
}

/// The positions of the edges incident to node `i`, in edge order.
pub open spec fn incident(g: GraphState, i: int) -> Seq<usize> {
    incident_upto(g, i, g.edges.len() as int)
}

/// The literals of affiliation `a` and polarity `pol` on the edges listed in
/// `lst`.
pub open spec fn edge_lits(g: GraphState, lst: Seq<usize>, a: int, pol: bool) -> Seq<(usize, bool)> {
    lst.map_values(|k: usize| sat_lit(g, g.nodes.len() + k, a, pol))
}

/// The unit clauses fixing a terminus of affiliation `a` at node `i`: one
/// clause per affiliation below `aff`, positive exactly at `a`.
pub open spec fn term_units(g: GraphState, i: int, a: AffiliationID, aff: int) -> Seq<
    Seq<(usize, bool)>,
>
    decreases aff,
{
    if aff <= 0 {
        Seq::empty()
    } else {
        term_units(g, i, a, aff - 1).push(seq![sat_lit(g, i, aff - 1, aff - 1 == a)])
    }
}

/// Node `i`'s own positive literals for the non-null affiliations below `aff`.
pub open spec fn own_lits(g: GraphState, i: int, aff: int) -> Seq<(usize, bool)>
    decreases aff,
{
    if aff <= 1 {
        Seq::empty()
    } else {
        own_lits(g, i, aff - 1).push(sat_lit(g, i, aff - 1, true))
    }
}

/// "Node `i` has `a`" implies some incident edge has `a`.
pub open spec fn c1_clause(g: GraphState, i: int, a: int) -> Seq<(usize, bool)> {
    seq![sat_lit(g, i, a, false)] + edge_lits(g, incident(g, i), a, true)
}

/// An incident edge with `a` implies another incident edge with `a`: the
/// clause negative exactly at incident position `t0`.
pub open spec fn c2_clause(g: GraphState, i: int, a: int, t0: int) -> Seq<(usize, bool)> {
    Seq::new(
        incident(g, i).len(),
        |t: int| sat_lit(g, g.nodes.len() + incident(g, i)[t], a, t != t0),
    )
}

/// The clauses [`c2_clause`] for every `t0` below the given bound.
pub open spec fn c2_upto(g: GraphState, i: int, a: int, t0: int) -> Seq<Seq<(usize, bool)>>
    decreases t0,
{
    if t0 <= 0 {
        Seq::empty()
    } else {
        c2_upto(g, i, a, t0 - 1).push(c2_clause(g, i, a, t0 - 1))
    }
}

/// No three incident edges share `a`: the clause of the triple `t1 < t2 < t3`.
pub open spec fn c3_clause(g: GraphState, i: int, a: int, t1: int, t2: int, t3: int) -> Seq<
    (usize, bool),
> {
    seq![
        sat_lit(g, g.nodes.len() + incident(g, i)[t1], a, false),
        sat_lit(g, g.nodes.len() + incident(g, i)[t2], a, false),
        sat_lit(g, g.nodes.len() + incident(g, i)[t3], a, false),
    ]
}

pub open spec fn c3_in(g: GraphState, i: int, a: int, t1: int, t2: int, t3: int) -> Seq<
    Seq<(usize, bool)>,
>
    decreases t3 - t2,
{
    if t3 <= t2 + 1 {
        Seq::empty()
    } else {
        c3_in(g, i, a, t1, t2, t3 - 1).push(c3_clause(g, i, a, t1, t2, t3 - 1))
    }
}

pub open spec fn c3_mid(g: GraphState, i: int, a: int, t1: int, t2: int) -> Seq<
    Seq<(usize, bool)>,
>
    decreases t2 - t1,
{
    if t2 <= t1 + 1 {
        Seq::empty()
    } else {
        c3_mid(g, i, a, t1, t2 - 1) + c3_in(g, i, a, t1, t2 - 1, incident(g, i).len() as int)
    }
}

pub open spec fn c3_out(g: GraphState, i: int, a: int, t1: int) -> Seq<Seq<(usize, bool)>>
    decreases t1,
{
    if t1 <= 0 {
        Seq::empty()
    } else {
        c3_out(g, i, a, t1 - 1) + c3_mid(g, i, a, t1 - 1, incident(g, i).len() as int)
    }
}

/// All clauses of one non-null affiliation `a` at a non-terminus node.
pub open spec fn aff_part(g: GraphState, i: int, a: int) -> Seq<Seq<(usize, bool)>> {
    seq![c1_clause(g, i, a)] + c2_upto(g, i, a, incident(g, i).len() as int) + c3_out(
        g,
        i,
        a,
        incident(g, i).len() as int,
    )
}

/// The parts [`aff_part`] of the non-null affiliations below `aff`.
pub open spec fn aff_parts(g: GraphState, i: int, aff: int) -> Seq<Seq<(usize, bool)>>
    decreases aff,
{
    if aff <= 1 {
        Seq::empty()
    } else {
        aff_parts(g, i, aff - 1) + aff_part(g, i, aff - 1)
    }
}

/// The clauses of node `i`: a terminus is fixed to its affiliation with
/// exactly one same-affiliation and exactly one non-null incident edge; any
/// other node takes exactly one non-null affiliation, supported by exactly
/// two incident edges of that affiliation.
pub open spec fn node_clauses(g: GraphState, i: int) -> Seq<Seq<(usize, bool)>> {
    match g.nodes[i].cell {
        NumberlinkCell::Terminus { affiliation } => term_units(g, i, affiliation, num_affs_of(g))
            + exactly_one_clauses(edge_lits(g, incident(g, i), affiliation as int, true))
            + exactly_one_clauses(edge_lits(g, incident(g, i), 0, false)),
        _ => seq![seq![sat_lit(g, i, 0, false)]] + exactly_one_clauses(
            own_lits(g, i, num_affs_of(g)),
        ) + aff_parts(g, i, num_affs_of(g)),
    }
}

pub open spec fn nodes_clauses(g: GraphState, i: int) -> Seq<Seq<(usize, bool)>>
    decreases i,
{
    if i <= 0 {
        Seq::empty()
    } else {
        nodes_clauses(g, i - 1) + node_clauses(g, i - 1)
    }
}

/// The positive literals of edge `k` for every affiliation below `aff`.
pub open spec fn all_lits(g: GraphState, k: int, aff: int) -> Seq<(usize, bool)>
    decreases aff,
{
    if aff <= 0 {
        Seq::empty()
    } else {
        all_lits(g, k, aff - 1).push(sat_lit(g, g.nodes.len() + k, aff - 1, true))
    }
}

/// Edge `k` has affiliation `a` exactly when both its endpoints do.
pub open spec fn edge_aff_part(g: GraphState, k: int, a: int) -> Seq<Seq<(usize, bool)>> {
    seq![
        seq![
            sat_lit(g, g.nodes.len() + k, a, false),
            sat_lit(g, g.edges[k].a as int, a, true),
        ],
        seq![
            sat_lit(g, g.nodes.len() + k, a, false),
            sat_lit(g, g.edges[k].b as int, a, true),
        ],
        seq![
            sat_lit(g, g.nodes.len() + k, a, true),
            sat_lit(g, g.edges[k].a as int, a, false),
            sat_lit(g, g.edges[k].b as int, a, false),
        ],
    ]
}

pub open spec fn edge_aff_parts(g: GraphState, k: int, aff: int) -> Seq<Seq<(usize, bool)>>
    decreases aff,
{
    if aff <= 1 {
        Seq::empty()
    } else {
        edge_aff_parts(g, k, aff - 1) + edge_aff_part(g, k, aff - 1)
    }
}

/// The clauses of edge `k`: exactly one affiliation, the null one included,
/// and agreement with both endpoints on every non-null affiliation.
pub open spec fn edge_clauses(g: GraphState, k: int) -> Seq<Seq<(usize, bool)>> {
    exactly_one_clauses(all_lits(g, k, num_affs_of(g))) + edge_aff_parts(g, k, num_affs_of(g))
}

pub open spec fn edges_clauses(g: GraphState, k: int) -> Seq<Seq<(usize, bool)>>
    decreases k,
{
    if k <= 0 {
        Seq::empty()
    } else {
        edges_clauses(g, k - 1) + edge_clauses(g, k - 1)
    }
}

/// The complete clause list the solver hands the CDCL engine for a graph:
/// every node's clauses in node order, then every edge's clauses in edge
/// order. This fixes the SAT encoding of the Numberlink rules.
pub open spec fn clauses_of(g: GraphState) -> Seq<Seq<(usize, bool)>> {
    nodes_clauses(g, g.nodes.len() as int) + edges_clauses(g, g.edges.len() as int)
}

/// Instances the engine can hold: the variable space fits the engine's index
/// range, and every edge names in-range endpoints.
pub open spec fn within_limits(g: GraphState) -> bool {
    &&& (g.nodes.len() + g.edges.len()) * num_affs_of(g) <= MAX_SAT_VARS
    &&& forall|j: int|
        0 <= j < g.edges.len() ==> (#[trigger] g.edges[j]).a < g.nodes.len() && g.edges[j].b
            < g.nodes.len()
}

/// Every literal of a clause names a variable below `bound`.
pub open spec fn lits_bounded(c: Seq<(usize, bool)>, bound: int) -> bool {
    forall|q: int| 0 <= q < c.len() ==> (#[trigger] c[q]).0 < bound
}

/// Every clause of a list is bounded by `bound`.
pub open spec fn sclauses_bounded(s: Seq<Seq<(usize, bool)>>, bound: int) -> bool {
    forall|k: int| 0 <= k < s.len() ==> lits_bounded(#[trigger] s[k], bound)
}

/// The variable bound of a graph's layout.
pub open spec fn var_bound(g: GraphState) -> int {
    (g.nodes.len() + g.edges.len()) * num_affs_of(g)
}

proof fn lemma_sat_lit_bounded(g: GraphState, pos: int, aff: int, pol: bool)
    requires
        within_limits(g),
        0 <= pos < g.nodes.len() + g.edges.len(),
        0 <= aff < num_affs_of(g),
    ensures
        sat_lit(g, pos, aff, pol).0 < var_bound(g),
{
    assert(pos * num_affs_of(g) + aff < (g.nodes.len() + g.edges.len()) * num_affs_of(g))
        by (nonlinear_arith)
        requires
            0 <= pos < g.nodes.len() + g.edges.len(),
            0 <= aff < num_affs_of(g),
    ;
}

proof fn lemma_incident_upto_bounded(g: GraphState, i: int, k: int)
    requires
        0 <= k <= g.edges.len(),
    ensures
        forall|t: int|
            0 <= t < incident_upto(g, i, k).len() ==> #[trigger] incident_upto(g, i, k)[t]
                < g.edges.len(),
    decreases k,
{
    if k > 0 {
        lemma_incident_upto_bounded(g, i, k - 1);
        assert forall|t: int| 0 <= t < incident_upto(g, i, k).len() implies #[trigger] incident_upto(
            g,
            i,
            k,
        )[t] < g.edges.len() by {
            let prev = incident_upto(g, i, k - 1);
            if t < prev.len() {
                assert(incident_upto(g, i, k)[t] == prev[t]);
            } else {
                assert(incident_upto(g, i, k)[t] == (k - 1) as usize);
            }
        }
    }
}

proof fn lemma_edge_lits_bounded(g: GraphState, lst: Seq<usize>, a: int, pol: bool)
    requires
        within_limits(g),
        0 <= a < num_affs_of(g),
        forall|t: int| 0 <= t < lst.len() ==> #[trigger] lst[t] < g.edges.len(),
    ensures
        lits_bounded(edge_lits(g, lst, a, pol), var_bound(g)),
{
    assert forall|q: int| 0 <= q < edge_lits(g, lst, a, pol).len() implies (#[trigger] edge_lits(
        g,
        lst,
        a,
        pol,
    )[q]).0 < var_bound(g) by {
        lemma_sat_lit_bounded(g, g.nodes.len() + lst[q], a, pol);
    }
}

proof fn lemma_amo_row_bounded(lits: Seq<(usize, bool)>, i: int, j: int, bound: int)
    requires
        lits_bounded(lits, bound),
        0 <= i,
        j <= lits.len(),
    ensures
        sclauses_bounded(amo_row(lits, i, j), bound),
    decreases j - i,
{
    if j > i + 1 {
        lemma_amo_row_bounded(lits, i, j - 1, bound);
        assert forall|k: int| 0 <= k < amo_row(lits, i, j).len() implies lits_bounded(
            #[trigger] amo_row(lits, i, j)[k],
            bound,
        ) by {
            if k < amo_row(lits, i, j - 1).len() {
                assert(amo_row(lits, i, j)[k] == amo_row(lits, i, j - 1)[k]);
            } else {
                assert(amo_row(lits, i, j)[k] == amo_clause(lits, i, j - 1));
            }
        }
    }
}

proof fn lemma_amo_rows_bounded(lits: Seq<(usize, bool)>, i: int, bound: int)
    requires
        lits_bounded(lits, bound),
        i <= lits.len(),
    ensures
        sclauses_bounded(amo_rows(lits, i), bound),
    decreases i,
{
    if i > 0 {
        lemma_amo_rows_bounded(lits, i - 1, bound);
        lemma_amo_row_bounded(lits, i - 1, lits.len() as int, bound);
        assert forall|k: int| 0 <= k < amo_rows(lits, i).len() implies lits_bounded(
            #[trigger] amo_rows(lits, i)[k],
            bound,
        ) by {
            let prev = amo_rows(lits, i - 1);
            if k < prev.len() {
                assert(amo_rows(lits, i)[k] == prev[k]);
            } else {
                assert(amo_rows(lits, i)[k] == amo_row(lits, i - 1, lits.len() as int)[k
                    - prev.len()]);
            }
        }
    }
}

/// Exactly-one clause sets stay within the bound of their literals.
proof fn lemma_exactly_one_bounded(lits: Seq<(usize, bool)>, bound: int)
    requires
        lits_bounded(lits, bound),
    ensures
        sclauses_bounded(exactly_one_clauses(lits), bound),
{
    lemma_amo_rows_bounded(lits, lits.len() as int, bound);
    assert forall|k: int| 0 <= k < exactly_one_clauses(lits).len() implies lits_bounded(
        #[trigger] exactly_one_clauses(lits)[k],
        bound,
    ) by {
        let rows = amo_rows(lits, lits.len() as int);
        if k < rows.len() {
            assert(exactly_one_clauses(lits)[k] == rows[k]);
        } else {
            assert(exactly_one_clauses(lits)[k] == lits);
        }
    }
}

proof fn lemma_sclauses_bounded_add(
    s1: Seq<Seq<(usize, bool)>>,
    s2: Seq<Seq<(usize, bool)>>,
    bound: int,
)
    requires
        sclauses_bounded(s1, bound),
        sclauses_bounded(s2, bound),
    ensures
        sclauses_bounded(s1 + s2, bound),
{
    assert forall|k: int| 0 <= k < (s1 + s2).len() implies lits_bounded(
        #[trigger] (s1 + s2)[k],
        bound,
    ) by {
        if k < s1.len() {
            assert((s1 + s2)[k] == s1[k]);
        } else {
            assert((s1 + s2)[k] == s2[k - s1.len()]);
        }
    }
}

proof fn lemma_term_units_bounded(g: GraphState, i: int, a: AffiliationID, aff: int)
    requires
        within_limits(g),
        0 <= i < g.nodes.len(),
        aff <= num_affs_of(g),
    ensures
        sclauses_bounded(term_units(g, i, a, aff), var_bound(g)),
    decreases aff,
{
    if aff > 0 {
        lemma_term_units_bounded(g, i, a, aff - 1);
        lemma_sat_lit_bounded(g, i, aff - 1, aff - 1 == a);
        assert forall|k: int| 0 <= k < term_units(g, i, a, aff).len() implies lits_bounded(
            #[trigger] term_units(g, i, a, aff)[k],
            var_bound(g),
        ) by {
            let prev = term_units(g, i, a, aff - 1);
            if k < prev.len() {
                assert(term_units(g, i, a, aff)[k] == prev[k]);
            } else {
                assert(term_units(g, i, a, aff)[k] == seq![sat_lit(g, i, aff - 1, aff - 1 == a)]);
            }
        }
    }
}

proof fn lemma_own_lits_bounded(g: GraphState, i: int, aff: int)
    requires
        within_limits(g),
        0 <= i < g.nodes.len(),
        aff <= num_affs_of(g),
    ensures
        lits_bounded(own_lits(g, i, aff), var_bound(g)),
    decreases aff,
{
    if aff > 1 {
        lemma_own_lits_bounded(g, i, aff - 1);
        lemma_sat_lit_bounded(g, i, aff - 1, true);
        assert forall|q: int| 0 <= q < own_lits(g, i, aff).len() implies (#[trigger] own_lits(
            g,
            i,
            aff,
        )[q]).0 < var_bound(g) by {
            let prev = own_lits(g, i, aff - 1);
            if q < prev.len() {
                assert(own_lits(g, i, aff)[q] == prev[q]);
            }
        }
    }
}

proof fn lemma_c2_upto_bounded(g: GraphState, i: int, a: int, t0: int)
    requires
        within_limits(g),
        0 <= a < num_affs_of(g),
    ensures
        sclauses_bounded(c2_upto(g, i, a, t0), var_bound(g)),
    decreases t0,
{
    if t0 > 0 {
        lemma_c2_upto_bounded(g, i, a, t0 - 1);
        lemma_incident_upto_bounded(g, i, g.edges.len() as int);
        assert forall|k: int| 0 <= k < c2_upto(g, i, a, t0).len() implies lits_bounded(
            #[trigger] c2_upto(g, i, a, t0)[k],
            var_bound(g),
        ) by {
            let prev = c2_upto(g, i, a, t0 - 1);
            if k < prev.len() {
                assert(c2_upto(g, i, a, t0)[k] == prev[k]);
            } else {
                assert(c2_upto(g, i, a, t0)[k] == c2_clause(g, i, a, t0 - 1));
                assert forall|q: int| 0 <= q < c2_clause(g, i, a, t0 - 1).len() implies (
                #[trigger] c2_clause(g, i, a, t0 - 1)[q]).0 < var_bound(g) by {
                    lemma_sat_lit_bounded(
                        g,
                        g.nodes.len() + incident(g, i)[q],
                        a,
                        q != t0 - 1,
                    );
                }
            }
        }
    }
}

proof fn lemma_c3_clause_bounded(g: GraphState, i: int, a: int, t1: int, t2: int, t3: int)
    requires
        within_limits(g),
        0 <= a < num_affs_of(g),
        0 <= t1 < incident(g, i).len(),
        0 <= t2 < incident(g, i).len(),
        0 <= t3 < incident(g, i).len(),
    ensures
        lits_bounded(c3_clause(g, i, a, t1, t2, t3), var_bound(g)),
{
    lemma_incident_upto_bounded(g, i, g.edges.len() as int);
    lemma_sat_lit_bounded(g, g.nodes.len() + incident(g, i)[t1], a, false);
    lemma_sat_lit_bounded(g, g.nodes.len() + incident(g, i)[t2], a, false);
    lemma_sat_lit_bounded(g, g.nodes.len() + incident(g, i)[t3], a, false);
}

proof fn lemma_c3_in_bounded(g: GraphState, i: int, a: int, t1: int, t2: int, t3: int)
    requires
        within_limits(g),
        0 <= a < num_affs_of(g),
        0 <= t1 < incident(g, i).len(),
        0 <= t2 < incident(g, i).len(),
        t3 <= incident(g, i).len(),
    ensures
        sclauses_bounded(c3_in(g, i, a, t1, t2, t3), var_bound(g)),
    decreases t3 - t2,
{
    if t3 > t2 + 1 {
        lemma_c3_in_bounded(g, i, a, t1, t2, t3 - 1);
        lemma_c3_clause_bounded(g, i, a, t1, t2, t3 - 1);
        assert forall|k: int| 0 <= k < c3_in(g, i, a, t1, t2, t3).len() implies lits_bounded(
            #[trigger] c3_in(g, i, a, t1, t2, t3)[k],
            var_bound(g),
        ) by {
            let prev = c3_in(g, i, a, t1, t2, t3 - 1);
            if k < prev.len() {
                assert(c3_in(g, i, a, t1, t2, t3)[k] == prev[k]);
            } else {
                assert(c3_in(g, i, a, t1, t2, t3)[k] == c3_clause(g, i, a, t1, t2, t3 - 1));
            }
        }
    }
}

proof fn lemma_c3_mid_bounded(g: GraphState, i: int, a: int, t1: int, t2: int)
    requires
        within_limits(g),
        0 <= a < num_affs_of(g),
        0 <= t1 < incident(g, i).len(),
        t2 <= incident(g, i).len(),
    ensures
        sclauses_bounded(c3_mid(g, i, a, t1, t2), var_bound(g)),
    decreases t2 - t1,
{
    if t2 > t1 + 1 {
        lemma_c3_mid_bounded(g, i, a, t1, t2 - 1);
        lemma_c3_in_bounded(g, i, a, t1, t2 - 1, incident(g, i).len() as int);
        lemma_sclauses_bounded_add(
            c3_mid(g, i, a, t1, t2 - 1),
            c3_in(g, i, a, t1, t2 - 1, incident(g, i).len() as int),
            var_bound(g),
        );
    }
}

proof fn lemma_c3_out_bounded(g: GraphState, i: int, a: int, t1: int)
    requires
        within_limits(g),
        0 <= a < num_affs_of(g),
        t1 <= incident(g, i).len(),
    ensures
        sclauses_bounded(c3_out(g, i, a, t1), var_bound(g)),
    decreases t1,
{
    if t1 > 0 {
        lemma_c3_out_bounded(g, i, a, t1 - 1);
        lemma_c3_mid_bounded(g, i, a, t1 - 1, incident(g, i).len() as int);
        lemma_sclauses_bounded_add(
            c3_out(g, i, a, t1 - 1),
            c3_mid(g, i, a, t1 - 1, incident(g, i).len() as int),
            var_bound(g),
        );
    }
}

proof fn lemma_aff_parts_bounded(g: GraphState, i: int, aff: int)
    requires
        within_limits(g),
        0 <= i < g.nodes.len(),
        aff <= num_affs_of(g),
    ensures
        sclauses_bounded(aff_parts(g, i, aff), var_bound(g)),
    decreases aff,
{
    if aff > 1 {
        lemma_aff_parts_bounded(g, i, aff - 1);
        let a = aff - 1;
        let deg = incident(g, i).len() as int;
        lemma_incident_upto_bounded(g, i, g.edges.len() as int);
        lemma_sat_lit_bounded(g, i, a, false);
        lemma_edge_lits_bounded(g, incident(g, i), a, true);
        assert(lits_bounded(c1_clause(g, i, a), var_bound(g)));
        lemma_c2_upto_bounded(g, i, a, deg);
        lemma_c3_out_bounded(g, i, a, deg);
        lemma_sclauses_bounded_add(
            seq![c1_clause(g, i, a)],
            c2_upto(g, i, a, deg),
            var_bound(g),
        );
        lemma_sclauses_bounded_add(
            seq![c1_clause(g, i, a)] + c2_upto(g, i, a, deg),
            c3_out(g, i, a, deg),
            var_bound(g),
        );
        lemma_sclauses_bounded_add(aff_parts(g, i, aff - 1), aff_part(g, i, a), var_bound(g));
    }
}

proof fn lemma_node_clauses_bounded(g: GraphState, i: int)
    requires
        within_limits(g),
        0 <= i < g.nodes.len(),
    ensures
        sclauses_bounded(node_clauses(g, i), var_bound(g)),
{
    lemma_incident_upto_bounded(g, i, g.edges.len() as int);
    match g.nodes[i].cell {
        NumberlinkCell::Terminus { affiliation } => {
            lemma_terminus_le_max(g, i, g.nodes.len() as int);
            lemma_term_units_bounded(g, i, affiliation, num_affs_of(g));
            lemma_edge_lits_bounded(g, incident(g, i), affiliation as int, true);
            lemma_edge_lits_bounded(g, incident(g, i), 0, false);
            lemma_exactly_one_bounded(
                edge_lits(g, incident(g, i), affiliation as int, true),
                var_bound(g),
            );
            lemma_exactly_one_bounded(edge_lits(g, incident(g, i), 0, false), var_bound(g));
            lemma_sclauses_bounded_add(
                term_units(g, i, affiliation, num_affs_of(g)),
                exactly_one_clauses(edge_lits(g, incident(g, i), affiliation as int, true)),
                var_bound(g),
            );
            lemma_sclauses_bounded_add(
                term_units(g, i, affiliation, num_affs_of(g)) + exactly_one_clauses(
                    edge_lits(g, incident(g, i), affiliation as int, true),
                ),
                exactly_one_clauses(edge_lits(g, incident(g, i), 0, false)),
                var_bound(g),
            );
        },
        _ => {
            lemma_max_aff_nonneg(g, g.nodes.len() as int);
            lemma_sat_lit_bounded(g, i, 0, false);
            lemma_own_lits_bounded(g, i, num_affs_of(g));
            lemma_exactly_one_bounded(own_lits(g, i, num_affs_of(g)), var_bound(g));
            lemma_aff_parts_bounded(g, i, num_affs_of(g));
            lemma_sclauses_bounded_add(
                seq![seq![sat_lit(g, i, 0, false)]],
                exactly_one_clauses(own_lits(g, i, num_affs_of(g))),
                var_bound(g),
            );
            lemma_sclauses_bounded_add(
                seq![seq![sat_lit(g, i, 0, false)]] + exactly_one_clauses(
                    own_lits(g, i, num_affs_of(g)),
                ),
                aff_parts(g, i, num_affs_of(g)),
                var_bound(g),
            );
        },
    }
}

proof fn lemma_nodes_clauses_bounded(g: GraphState, i: int)
    requires
        within_limits(g),
        i <= g.nodes.len(),
    ensures
        sclauses_bounded(nodes_clauses(g, i), var_bound(g)),
    decreases i,
{
    if i > 0 {
        lemma_nodes_clauses_bounded(g, i - 1);
        lemma_node_clauses_bounded(g, i - 1);
        lemma_sclauses_bounded_add(nodes_clauses(g, i - 1), node_clauses(g, i - 1), var_bound(g));
    }
}

proof fn lemma_all_lits_bounded(g: GraphState, k: int, aff: int)
    requires
        within_limits(g),
        0 <= k < g.edges.len(),
        aff <= num_affs_of(g),
    ensures
        lits_bounded(all_lits(g, k, aff), var_bound(g)),
    decreases aff,
{
    if aff > 0 {
        lemma_all_lits_bounded(g, k, aff - 1);
        lemma_sat_lit_bounded(g, g.nodes.len() + k, aff - 1, true);
        assert forall|q: int| 0 <= q < all_lits(g, k, aff).len() implies (#[trigger] all_lits(
            g,
            k,
            aff,
        )[q]).0 < var_bound(g) by {
            let prev = all_lits(g, k, aff - 1);
            if q < prev.len() {
                assert(all_lits(g, k, aff)[q] == prev[q]);
            }
        }
    }
}

proof fn lemma_edge_aff_parts_bounded(g: GraphState, k: int, aff: int)
    requires
        within_limits(g),
        0 <= k < g.edges.len(),
        aff <= num_affs_of(g),
    ensures
        sclauses_bounded(edge_aff_parts(g, k, aff), var_bound(g)),
    decreases aff,
{
    if aff > 1 {
        lemma_edge_aff_parts_bounded(g, k, aff - 1);
        let a = aff - 1;
        lemma_sat_lit_bounded(g, g.nodes.len() + k, a, false);
        lemma_sat_lit_bounded(g, g.nodes.len() + k, a, true);
        lemma_sat_lit_bounded(g, g.edges[k].a as int, a, true);
        lemma_sat_lit_bounded(g, g.edges[k].b as int, a, true);
        lemma_sat_lit_bounded(g, g.edges[k].a as int, a, false);
        lemma_sat_lit_bounded(g, g.edges[k].b as int, a, false);
        lemma_sclauses_bounded_add(edge_aff_parts(g, k, aff - 1), edge_aff_part(g, k, a), var_bound(g));
    }
}

proof fn lemma_edges_clauses_bounded(g: GraphState, k: int)
    requires
        within_limits(g),
        k <= g.edges.len(),
    ensures
        sclauses_bounded(edges_clauses(g, k), var_bound(g)),
    decreases k,
{
    if k > 0 {
        lemma_edges_clauses_bounded(g, k - 1);
        lemma_all_lits_bounded(g, k - 1, num_affs_of(g));
        lemma_exactly_one_bounded(all_lits(g, k - 1, num_affs_of(g)), var_bound(g));
        lemma_edge_aff_parts_bounded(g, k - 1, num_affs_of(g));
        lemma_sclauses_bounded_add(
            exactly_one_clauses(all_lits(g, k - 1, num_affs_of(g))),
            edge_aff_parts(g, k - 1, num_affs_of(g)),
            var_bound(g),
        );
        lemma_sclauses_bounded_add(edges_clauses(g, k - 1), edge_clauses(g, k - 1), var_bound(g));
    }
}

/// Within the engine's limits, every literal of the encoding names a
/// variable the engine supports.
proof fn lemma_clauses_of_bounded(g: GraphState)
    requires
        within_limits(g),
    ensures
        sclauses_bounded(clauses_of(g), var_bound(g)),
{
    lemma_nodes_clauses_bounded(g, g.nodes.len() as int);
    lemma_edges_clauses_bounded(g, g.edges.len() as int);
    lemma_sclauses_bounded_add(
        nodes_clauses(g, g.nodes.len() as int),
        edges_clauses(g, g.edges.len() as int),
        var_bound(g),
    );
}

/// The running maximum of terminus affiliations never drops below zero.
proof fn lemma_max_aff_nonneg(g: GraphState, k: int)
    ensures
        g.max_affiliation_upto(k) >= 0,
    decreases k,
{
    if k > 0 {
        lemma_max_aff_nonneg(g, k - 1);
    }
}

/// A positive largest affiliation needs at least one node.
proof fn lemma_max_aff_needs_nodes(g: GraphState)
    requires
        g.nodes.len() == 0,
    ensures
        g.max_affiliation() == 0,
{
}

/// The general implementation of the logic necessary to solve a graph in
/// accordance with the rules of Numberlink: it owns the SAT variable layout
/// over the graph's subjects (every node, then every edge) and drives the
/// CDCL engine.
pub struct GraphSolver<'a> {
    /// The graph being solved.
    pub graph: &'a BoardGraph,
    /// The largest terminus affiliation of that graph; 0 if it has none.
    pub max_affiliation: AffiliationID,
}

impl<'a> GraphSolver<'a> {
    /// The recorded largest affiliation matches the graph.
    pub open spec fn wf(self) -> bool {
        self.max_affiliation == self.graph@.max_affiliation()
    }

    /// Inventory a graph: subjects are its nodes, then its edges, in graph
    /// order, and the largest terminus affiliation fixes the variable layout.
    pub fn from(graph: &'a BoardGraph) -> (r: Self)
        ensures
            r.graph == graph,
            r.wf(),
    {
        let max_affiliation = graph.max_affiliation();
        GraphSolver { graph, max_affiliation }
    }

    /// Solve the graph, returning one affiliation per subject (nodes first,
    /// in graph order), or the reason no coloring was produced.
    ///
    /// The Numberlink rules are encoded as exactly [`clauses_of`] the graph
    /// and handed to the CDCL engine. `Inconsistent` is returned exactly when
    /// the instance fits the engine ([`within_limits`]) and the engine finds
    /// the encoding unsatisfiable; an instance beyond the limits yields
    /// `NoAffFound`. A returned coloring always comes from a satisfiable
    /// encoding and is checked against [`valid_assignment`], so it obeys the
    /// rules whatever the engine did.
    pub fn solve(&self) -> (r: Result<Vec<AffiliationID>, SolverFailure>)
        requires
            self.wf(),
        ensures
            r matches Ok(asg) ==> valid_assignment(self.graph@, asg@),
            r matches Ok(asg) ==> within_limits(self.graph@) && engine_sat(
                clauses_of(self.graph@),
            ),
            r == Err::<Vec<AffiliationID>, SolverFailure>(SolverFailure::Inconsistent) <==> (
            within_limits(self.graph@) && !engine_sat(clauses_of(self.graph@))),
            !within_limits(self.graph@) ==> r == Err::<Vec<AffiliationID>, SolverFailure>(
                SolverFailure::NoAffFound,
            ),
    {
        let ghost gs = self.graph@;
        let n = self.graph.nodes.len();
        let m = self.graph.edges.len();
        if m > usize::MAX - n {
            proof {
                assert((gs.nodes.len() + gs.edges.len()) * num_affs_of(gs) >= (gs.nodes.len()
                    + gs.edges.len()) * 1) by (nonlinear_arith)
                    requires
                        num_affs_of(gs) >= 1,
                ;
            }
            return Result::Err(SolverFailure::NoAffFound);
        }
        let nsub = n + m;
        if self.max_affiliation >= usize::MAX {
            proof {
                if gs.nodes.len() == 0 {
                    lemma_max_aff_needs_nodes(gs);
                }
                assert((gs.nodes.len() + gs.edges.len()) * num_affs_of(gs) >= 1 * num_affs_of(gs))
                    by (nonlinear_arith)
                    requires
                        gs.nodes.len() + gs.edges.len() >= 1,
                        num_affs_of(gs) >= 0,
                ;
            }
            return Result::Err(SolverFailure::NoAffFound);
        }
        let num_affs = self.max_affiliation + 1;
        if nsub > MAX_SAT_VARS / num_affs {
            proof {
                lemma_quotient_cap_conv(nsub as int, num_affs as int, MAX_SAT_VARS as int);
            }
            return Result::Err(SolverFailure::NoAffFound);
        }
        proof {
            lemma_quotient_cap(nsub as int, num_affs as int, MAX_SAT_VARS as int);
        }

        // every edge must name in-range endpoints
        let mut k: usize = 0;
        while k < m
            invariant
                gs == self.graph@,
                n == gs.nodes.len(),
                m == gs.edges.len(),
                k <= m,
                forall|j: int|
                    0 <= j < k ==> (#[trigger] gs.edges[j]).a < n && gs.edges[j].b < n,
            decreases m - k,
        {
            let e = self.graph.edges[k];
            if e.a >= n || e.b >= n {
                return Result::Err(SolverFailure::NoAffFound);
            }
            k = k + 1;
        }
        proof {
            assert(within_limits(gs));
        }

        let mut clauses: Vec<Vec<(usize, bool)>> = Vec::new();

        // vertex clauses
        let mut i: usize = 0;
        while i < n
            invariant
                gs == self.graph@,
                n == gs.nodes.len(),
                m == gs.edges.len(),
                nsub == n + m,
                nsub * num_affs <= MAX_SAT_VARS,
                num_affs == num_affs_of(gs),
                1 <= num_affs,
                self.max_affiliation < num_affs,
                self.wf(),
                within_limits(gs),
                i <= n,
                clause_seq_matches(clauses@, nodes_clauses(gs, i as int)),
            decreases n - i,
        {
            let ghost base = nodes_clauses(gs, i as int);
            match self.graph.nodes[i].cell {
                NumberlinkCell::Terminus { affiliation } => {
                    proof {
                        lemma_terminus_le_max(gs, i as int, gs.nodes.len() as int);
                    }
                    // the affiliation of this vertex is the declared one and
                    // no other
                    let mut aff: usize = 0;
                    while aff < num_affs
                        invariant
                            gs == self.graph@,
                            n == gs.nodes.len(),
                            i < n,
                            nsub == n + m,
                            nsub * num_affs <= MAX_SAT_VARS,
                            num_affs == num_affs_of(gs),
                            aff <= num_affs,
                            gs.nodes[i as int].cell == (NumberlinkCell::Terminus { affiliation }),
                            clause_seq_matches(
                                clauses@,
                                base + term_units(gs, i as int, affiliation, aff as int),
                            ),
                        decreases num_affs - aff,
                    {
                        let mut unit: Vec<(usize, bool)> = Vec::new();
                        unit.push((var_of(i, aff, num_affs, nsub), aff == affiliation));
                        proof {
                            assert(unit@ =~= seq![
                                sat_lit(gs, i as int, aff as int, aff == affiliation),
                            ]);
                            lemma_matches_push(
                                clauses@,
                                base + term_units(gs, i as int, affiliation, aff as int),
                                unit,
                                seq![sat_lit(gs, i as int, aff as int, aff == affiliation)],
                            );
                            assert((base + term_units(gs, i as int, affiliation, aff as int)).push(
                                seq![sat_lit(gs, i as int, aff as int, aff == affiliation)],
                            ) =~= base + term_units(gs, i as int, affiliation, aff as int + 1));
                        }
                        clauses.push(unit);
                        aff = aff + 1;
                    }
                    // exactly one incident edge shares the affiliation, and
                    // exactly one incident edge is non-null
                    let mut same: Vec<(usize, bool)> = Vec::new();
                    let mut zero: Vec<(usize, bool)> = Vec::new();
                    let mut k: usize = 0;
                    while k < m
                        invariant
                            gs == self.graph@,
                            n == gs.nodes.len(),
                            m == gs.edges.len(),
                            i < n,
                            nsub == n + m,
                            nsub * num_affs <= MAX_SAT_VARS,
                            num_affs == num_affs_of(gs),
                            affiliation < num_affs,
                            k <= m,
                            same@ == edge_lits(
                                gs,
                                incident_upto(gs, i as int, k as int),
                                affiliation as int,
                                true,
                            ),
                            zero@ == edge_lits(gs, incident_upto(gs, i as int, k as int), 0, false),
                        decreases m - k,
                    {
                        let e = self.graph.edges[k];
                        if e.a == i || e.b == i {
                            same.push((var_of(n + k, affiliation, num_affs, nsub), true));
                            zero.push((var_of(n + k, 0, num_affs, nsub), false));
                            proof {
                                assert(incident_upto(gs, i as int, k as int + 1) =~= incident_upto(
                                    gs,
                                    i as int,
                                    k as int,
                                ) + seq![k]);
                                assert(same@ =~= edge_lits(
                                    gs,
                                    incident_upto(gs, i as int, k as int + 1),
                                    affiliation as int,
                                    true,
                                ));
                                assert(zero@ =~= edge_lits(
                                    gs,
                                    incident_upto(gs, i as int, k as int + 1),
                                    0,
                                    false,
                                ));
                            }
                        } else {
                            proof {
                                assert(incident_upto(gs, i as int, k as int + 1) =~= incident_upto(
                                    gs,
                                    i as int,
                                    k as int,
                                ));
                            }
                        }
                        k = k + 1;
                    }
                    let mut eo_same = exactly_one(same);
                    proof {
                        lemma_matches_append(
                            clauses@,
                            base + term_units(gs, i as int, affiliation, num_affs as int),
                            eo_same@,
                            exactly_one_clauses(
                                edge_lits(gs, incident(gs, i as int), affiliation as int, true),
                            ),
                        );
                    }
                    clauses.append(&mut eo_same);
                    let mut eo_zero = exactly_one(zero);
                    proof {
                        lemma_matches_append(
                            clauses@,
                            base + term_units(gs, i as int, affiliation, num_affs as int)
                                + exactly_one_clauses(
                                edge_lits(gs, incident(gs, i as int), affiliation as int, true),
                            ),
                            eo_zero@,
                            exactly_one_clauses(edge_lits(gs, incident(gs, i as int), 0, false)),
                        );
                    }
                    clauses.append(&mut eo_zero);
                    proof {
                        assert(base + term_units(gs, i as int, affiliation, num_affs as int)
                            + exactly_one_clauses(
                            edge_lits(gs, incident(gs, i as int), affiliation as int, true),
                        ) + exactly_one_clauses(edge_lits(gs, incident(gs, i as int), 0, false))
                            =~= base + node_clauses(gs, i as int));
                    }
                },
                _ => {
                    // the vertex must take some non-null affiliation, and
                    // exactly one
                    let mut unit: Vec<(usize, bool)> = Vec::new();
                    unit.push((var_of(i, 0, num_affs, nsub), false));
                    proof {
                        assert(unit@ =~= seq![sat_lit(gs, i as int, 0, false)]);
                        lemma_matches_push(
                            clauses@,
                            base,
                            unit,
                            seq![sat_lit(gs, i as int, 0, false)],
                        );
                        assert(base.push(seq![sat_lit(gs, i as int, 0, false)]) =~= base + seq![
                            seq![sat_lit(gs, i as int, 0, false)],
                        ]);
                    }
                    clauses.push(unit);
                    let mut own: Vec<(usize, bool)> = Vec::new();
                    let mut aff: usize = 1;
                    while aff < num_affs
                        invariant
                            gs == self.graph@,
                            n == gs.nodes.len(),
                            i < n,
                            nsub == n + m,
                            nsub * num_affs <= MAX_SAT_VARS,
                            num_affs == num_affs_of(gs),
                            1 <= aff <= num_affs,
                            own@ == own_lits(gs, i as int, aff as int),
                        decreases num_affs - aff,
                    {
                        own.push((var_of(i, aff, num_affs, nsub), true));
                        proof {
                            assert(own@ =~= own_lits(gs, i as int, aff as int + 1));
                        }
                        aff = aff + 1;
                    }
                    let mut eo_own = exactly_one(own);
                    proof {
                        lemma_matches_append(
                            clauses@,
                            base + seq![seq![sat_lit(gs, i as int, 0, false)]],
                            eo_own@,
                            exactly_one_clauses(own_lits(gs, i as int, num_affs as int)),
                        );
                    }
                    clauses.append(&mut eo_own);
                    let ghost base1 = base + seq![seq![sat_lit(gs, i as int, 0, false)]]
                        + exactly_one_clauses(own_lits(gs, i as int, num_affs as int));

                    let mut incident_v: Vec<usize> = Vec::new();
                    let mut k: usize = 0;
                    while k < m
                        invariant
                            gs == self.graph@,
                            n == gs.nodes.len(),
                            m == gs.edges.len(),
                            k <= m,
                            incident_v@ == incident_upto(gs, i as int, k as int),
                            forall|t: int|
                                0 <= t < incident_v@.len() ==> #[trigger] incident_v@[t] < m,
                        decreases m - k,
                    {
                        let e = self.graph.edges[k];
                        if e.a == i || e.b == i {
                            incident_v.push(k);
                            proof {
                                assert(incident_v@ =~= incident_upto(gs, i as int, k as int + 1));
                            }
                        } else {
                            proof {
                                assert(incident_v@ =~= incident_upto(gs, i as int, k as int + 1));
                            }
                        }
                        k = k + 1;
                    }
                    let deg = incident_v.len();
                    proof {
                        assert(incident_v@ == incident(gs, i as int));
                    }
                    let mut aff: usize = 1;
                    while aff < num_affs
                        invariant
                            gs == self.graph@,
                            n == gs.nodes.len(),
                            m == gs.edges.len(),
                            i < n,
                            nsub == n + m,
                            nsub * num_affs <= MAX_SAT_VARS,
                            num_affs == num_affs_of(gs),
                            1 <= aff <= num_affs,
                            deg == incident_v@.len(),
                            incident_v@ == incident(gs, i as int),
                            forall|t: int|
                                0 <= t < incident_v@.len() ==> #[trigger] incident_v@[t] < m,
                            clause_seq_matches(
                                clauses@,
                                base1 + aff_parts(gs, i as int, aff as int),
                            ),
                        decreases num_affs - aff,
                    {
                        let ghost base2 = base1 + aff_parts(gs, i as int, aff as int);
                        // this affiliation implies at least one incident edge
                        // shares it
                        let mut c1: Vec<(usize, bool)> = Vec::new();
                        c1.push((var_of(i, aff, num_affs, nsub), false));
                        let mut t: usize = 0;
                        while t < deg
                            invariant
                                gs == self.graph@,
                                n == gs.nodes.len(),
                                m == gs.edges.len(),
                                i < n,
                                nsub == n + m,
                                nsub * num_affs <= MAX_SAT_VARS,
                                num_affs == num_affs_of(gs),
                                aff < num_affs,
                                deg == incident_v@.len(),
                                incident_v@ == incident(gs, i as int),
                                forall|t2: int|
                                    0 <= t2 < incident_v@.len() ==> #[trigger] incident_v@[t2] < m,
                                t <= deg,
                                c1@ == seq![sat_lit(gs, i as int, aff as int, false)] + edge_lits(
                                    gs,
                                    incident_v@.take(t as int),
                                    aff as int,
                                    true,
                                ),
                            decreases deg - t,
                        {
                            c1.push((var_of(n + incident_v[t], aff, num_affs, nsub), true));
                            proof {
                                assert(incident_v@.take(t as int + 1) =~= incident_v@.take(t as int)
                                    + seq![incident_v@[t as int]]);
                                assert(c1@ =~= seq![sat_lit(gs, i as int, aff as int, false)]
                                    + edge_lits(gs, incident_v@.take(t as int + 1), aff as int, true));
                            }
                            t = t + 1;
                        }
                        proof {
                            assert(incident_v@.take(deg as int) =~= incident_v@);
                            assert(c1@ =~= c1_clause(gs, i as int, aff as int));
                            lemma_matches_push(
                                clauses@,
                                base2,
                                c1,
                                c1_clause(gs, i as int, aff as int),
                            );
                            assert(base2.push(c1_clause(gs, i as int, aff as int)) =~= base2
                                + seq![c1_clause(gs, i as int, aff as int)]);
                        }
                        clauses.push(c1);
                        let ghost base3 = base2 + seq![c1_clause(gs, i as int, aff as int)];
                        // an incident edge sharing it implies another one does
                        let mut t0: usize = 0;
                        while t0 < deg
                            invariant
                                gs == self.graph@,
                                n == gs.nodes.len(),
                                m == gs.edges.len(),
                                i < n,
                                nsub == n + m,
                                nsub * num_affs <= MAX_SAT_VARS,
                                num_affs == num_affs_of(gs),
                                aff < num_affs,
                                deg == incident_v@.len(),
                                incident_v@ == incident(gs, i as int),
                                forall|t2: int|
                                    0 <= t2 < incident_v@.len() ==> #[trigger] incident_v@[t2] < m,
                                t0 <= deg,
                                clause_seq_matches(
                                    clauses@,
                                    base3 + c2_upto(gs, i as int, aff as int, t0 as int),
                                ),
                            decreases deg - t0,
                        {
                            let mut c2: Vec<(usize, bool)> = Vec::new();
                            let mut t: usize = 0;
                            while t < deg
                                invariant
                                    gs == self.graph@,
                                    n == gs.nodes.len(),
                                    m == gs.edges.len(),
                                    i < n,
                                    nsub == n + m,
                                    nsub * num_affs <= MAX_SAT_VARS,
                                    num_affs == num_affs_of(gs),
                                    aff < num_affs,
                                    deg == incident_v@.len(),
                                    incident_v@ == incident(gs, i as int),
                                    forall|t2: int|
                                        0 <= t2 < incident_v@.len() ==> #[trigger] incident_v@[t2]
                                            < m,
                                    t0 < deg,
                                    t <= deg,
                                    c2@.len() == t,
                                    forall|t2: int|
                                        0 <= t2 < t ==> #[trigger] c2@[t2] == sat_lit(
                                            gs,
                                            gs.nodes.len() + incident_v@[t2],
                                            aff as int,
                                            t2 != t0,
                                        ),
                                decreases deg - t,
                            {
                                c2.push((var_of(n + incident_v[t], aff, num_affs, nsub), t != t0));
                                t = t + 1;
                            }
                            proof {
                                assert(c2@ =~= c2_clause(gs, i as int, aff as int, t0 as int));
                                lemma_matches_push(
                                    clauses@,
                                    base3 + c2_upto(gs, i as int, aff as int, t0 as int),
                                    c2,
                                    c2_clause(gs, i as int, aff as int, t0 as int),
                                );
                                assert((base3 + c2_upto(gs, i as int, aff as int, t0 as int)).push(
                                    c2_clause(gs, i as int, aff as int, t0 as int),
                                ) =~= base3 + c2_upto(gs, i as int, aff as int, t0 as int + 1));
                            }
                            clauses.push(c2);
                            t0 = t0 + 1;
                        }
                        let ghost base4 = base3 + c2_upto(gs, i as int, aff as int, deg as int);
                        // no three incident edges share it
                        let mut t1: usize = 0;
                        while t1 < deg
                            invariant
                                gs == self.graph@,
                                n == gs.nodes.len(),
                                m == gs.edges.len(),
                                i < n,
                                nsub == n + m,
                                nsub * num_affs <= MAX_SAT_VARS,
                                num_affs == num_affs_of(gs),
                                aff < num_affs,
                                deg == incident_v@.len(),
                                incident_v@ == incident(gs, i as int),
                                forall|t2: int|
                                    0 <= t2 < incident_v@.len() ==> #[trigger] incident_v@[t2] < m,
                                t1 <= deg,
                                clause_seq_matches(
                                    clauses@,
                                    base4 + c3_out(gs, i as int, aff as int, t1 as int),
                                ),
                            decreases deg - t1,
                        {
                            let ghost base5 = base4 + c3_out(gs, i as int, aff as int, t1 as int);
                            let mut t2: usize = t1 + 1;
                            while t2 < deg
                                invariant
                                    gs == self.graph@,
                                    n == gs.nodes.len(),
                                    m == gs.edges.len(),
                                    i < n,
                                    nsub == n + m,
                                    nsub * num_affs <= MAX_SAT_VARS,
                                    num_affs == num_affs_of(gs),
                                    aff < num_affs,
                                    deg == incident_v@.len(),
                                    incident_v@ == incident(gs, i as int),
                                    forall|q: int|
                                        0 <= q < incident_v@.len() ==> #[trigger] incident_v@[q]
                                            < m,
                                    t1 < t2 <= deg,
                                    t1 < deg,
                                    clause_seq_matches(
                                        clauses@,
                                        base5 + c3_mid(gs, i as int, aff as int, t1 as int, t2 as int),
                                    ),
                                decreases deg - t2,
                            {
                                let ghost base6 = base5 + c3_mid(
                                    gs,
                                    i as int,
                                    aff as int,
                                    t1 as int,
                                    t2 as int,
                                );
                                let mut t3: usize = t2 + 1;
                                while t3 < deg
                                    invariant
                                        gs == self.graph@,
                                        n == gs.nodes.len(),
                                        m == gs.edges.len(),
                                        i < n,
                                        nsub == n + m,
                                        nsub * num_affs <= MAX_SAT_VARS,
                                        num_affs == num_affs_of(gs),
                                        aff < num_affs,
                                        deg == incident_v@.len(),
                                        incident_v@ == incident(gs, i as int),
                                        forall|q: int|
                                            0 <= q < incident_v@.len() ==> #[trigger] incident_v@[q]
                                                < m,
                                        t1 < t2 < t3 <= deg,
                                        t2 < deg,
                                        t1 < deg,
                                        clause_seq_matches(
                                            clauses@,
                                            base6 + c3_in(
                                                gs,
                                                i as int,
                                                aff as int,
                                                t1 as int,
                                                t2 as int,
                                                t3 as int,
                                            ),
                                        ),
                                    decreases deg - t3,
                                {
                                    let mut c3: Vec<(usize, bool)> = Vec::new();
                                    c3.push(
                                        (var_of(n + incident_v[t1], aff, num_affs, nsub), false),
                                    );
                                    c3.push(
                                        (var_of(n + incident_v[t2], aff, num_affs, nsub), false),
                                    );
                                    c3.push(
                                        (var_of(n + incident_v[t3], aff, num_affs, nsub), false),
                                    );
                                    proof {
                                        assert(c3@ =~= c3_clause(
                                            gs,
                                            i as int,
                                            aff as int,
                                            t1 as int,
                                            t2 as int,
                                            t3 as int,
                                        ));
                                        lemma_matches_push(
                                            clauses@,
                                            base6 + c3_in(
                                                gs,
                                                i as int,
                                                aff as int,
                                                t1 as int,
                                                t2 as int,
                                                t3 as int,
                                            ),
                                            c3,
                                            c3_clause(
                                                gs,
                                                i as int,
                                                aff as int,
                                                t1 as int,
                                                t2 as int,
                                                t3 as int,
                                            ),
                                        );
                                        assert((base6 + c3_in(
                                            gs,
                                            i as int,
                                            aff as int,
                                            t1 as int,
                                            t2 as int,
                                            t3 as int,
                                        )).push(
                                            c3_clause(
                                                gs,
                                                i as int,
                                                aff as int,
                                                t1 as int,
                                                t2 as int,
                                                t3 as int,
                                            ),
                                        ) =~= base6 + c3_in(
                                            gs,
                                            i as int,
                                            aff as int,
                                            t1 as int,
                                            t2 as int,
                                            t3 as int + 1,
                                        ));
                                    }
                                    clauses.push(c3);
                                    t3 = t3 + 1;
                                }
                                proof {
                                    assert(base5 + c3_mid(
                                        gs,
                                        i as int,
                                        aff as int,
                                        t1 as int,
                                        t2 as int + 1,
                                    ) =~= base6 + c3_in(
                                        gs,
                                        i as int,
                                        aff as int,
                                        t1 as int,
                                        t2 as int,
                                        deg as int,
                                    ));
                                }
                                t2 = t2 + 1;
                            }
                            proof {
                                assert(base4 + c3_out(gs, i as int, aff as int, t1 as int + 1)
                                    =~= base5 + c3_mid(
                                    gs,
                                    i as int,
                                    aff as int,
                                    t1 as int,
                                    deg as int,
                                ));
                            }
                            t1 = t1 + 1;
                        }
                        proof {
                            assert(base1 + aff_parts(gs, i as int, aff as int + 1) =~= base4
                                + c3_out(gs, i as int, aff as int, deg as int));
                        }
                        aff = aff + 1;
                    }
                    proof {
                        assert(base + node_clauses(gs, i as int) =~= base1 + aff_parts(
                            gs,
                            i as int,
                            num_affs as int,
                        ));
                    }
                },
            }
            proof {
                assert(nodes_clauses(gs, i as int + 1) =~= base + node_clauses(gs, i as int));
            }
            i = i + 1;
        }

        // edge clauses
        let ghost nbase = nodes_clauses(gs, n as int);
        let mut k: usize = 0;
        while k < m
            invariant
                gs == self.graph@,
                n == gs.nodes.len(),
                m == gs.edges.len(),
                nsub == n + m,
                nsub * num_affs <= MAX_SAT_VARS,
                num_affs == num_affs_of(gs),
                1 <= num_affs,
                within_limits(gs),
                k <= m,
                clause_seq_matches(clauses@, nbase + edges_clauses(gs, k as int)),
            decreases m - k,
        {
            let ghost ebase = nbase + edges_clauses(gs, k as int);
            let e = self.graph.edges[k];
            // the edge takes exactly one affiliation, the null one included
            let mut all: Vec<(usize, bool)> = Vec::new();
            let mut aff: usize = 0;
            while aff < num_affs
                invariant
                    gs == self.graph@,
                    n == gs.nodes.len(),
                    m == gs.edges.len(),
                    k < m,
                    nsub == n + m,
                    nsub * num_affs <= MAX_SAT_VARS,
                    num_affs == num_affs_of(gs),
                    aff <= num_affs,
                    all@ == all_lits(gs, k as int, aff as int),
                decreases num_affs - aff,
            {
                all.push((var_of(n + k, aff, num_affs, nsub), true));
                proof {
                    assert(all@ =~= all_lits(gs, k as int, aff as int + 1));
                }
                aff = aff + 1;
            }
            let mut eo_all = exactly_one(all);
            proof {
                lemma_matches_append(
                    clauses@,
                    ebase,
                    eo_all@,
                    exactly_one_clauses(all_lits(gs, k as int, num_affs as int)),
                );
            }
            clauses.append(&mut eo_all);
            let ghost ebase1 = ebase + exactly_one_clauses(all_lits(gs, k as int, num_affs as int));
            // a non-null affiliation on the edge is equivalent to both
            // endpoints taking that affiliation
            let mut aff: usize = 1;
            while aff < num_affs
                invariant
                    gs == self.graph@,
                    n == gs.nodes.len(),
                    m == gs.edges.len(),
                    k < m,
                    e == gs.edges[k as int],
                    e.a < n,
                    e.b < n,
                    nsub == n + m,
                    nsub * num_affs <= MAX_SAT_VARS,
                    num_affs == num_affs_of(gs),
                    within_limits(gs),
                    1 <= aff <= num_affs,
                    clause_seq_matches(
                        clauses@,
                        ebase1 + edge_aff_parts(gs, k as int, aff as int),
                    ),
                decreases num_affs - aff,
            {
                let ghost ebase2 = ebase1 + edge_aff_parts(gs, k as int, aff as int);
                let va = var_of(n + k, aff, num_affs, nsub);
                let vb = var_of(e.a, aff, num_affs, nsub);
                let vc = var_of(e.b, aff, num_affs, nsub);
                let mut cl1: Vec<(usize, bool)> = Vec::new();
                cl1.push((va, false));
                cl1.push((vb, true));
                proof {
                    assert(cl1@ =~= edge_aff_part(gs, k as int, aff as int)[0]);
                    lemma_matches_push(
                        clauses@,
                        ebase2,
                        cl1,
                        edge_aff_part(gs, k as int, aff as int)[0],
                    );
                }
                clauses.push(cl1);
                let mut cl2: Vec<(usize, bool)> = Vec::new();
                cl2.push((va, false));
                cl2.push((vc, true));
                proof {
                    assert(cl2@ =~= edge_aff_part(gs, k as int, aff as int)[1]);
                    lemma_matches_push(
                        clauses@,
                        ebase2.push(edge_aff_part(gs, k as int, aff as int)[0]),
                        cl2,
                        edge_aff_part(gs, k as int, aff as int)[1],
                    );
                }
                clauses.push(cl2);
                let mut cl3: Vec<(usize, bool)> = Vec::new();
                cl3.push((va, true));
                cl3.push((vb, false));
                cl3.push((vc, false));
                proof {
                    assert(cl3@ =~= edge_aff_part(gs, k as int, aff as int)[2]);
                    lemma_matches_push(
                        clauses@,
                        ebase2.push(edge_aff_part(gs, k as int, aff as int)[0]).push(
                            edge_aff_part(gs, k as int, aff as int)[1],
                        ),
                        cl3,
                        edge_aff_part(gs, k as int, aff as int)[2],
                    );
                    assert(ebase2.push(edge_aff_part(gs, k as int, aff as int)[0]).push(
                        edge_aff_part(gs, k as int, aff as int)[1],
                    ).push(edge_aff_part(gs, k as int, aff as int)[2]) =~= ebase1
                        + edge_aff_parts(gs, k as int, aff as int + 1));
                }
                clauses.push(cl3);
                aff = aff + 1;
            }
            proof {
                assert(nbase + edges_clauses(gs, k as int + 1) =~= ebase1 + edge_aff_parts(
                    gs,
                    k as int,
                    num_affs as int,
                ));
            }
            k = k + 1;
        }
        proof {
            assert(clauses_of(gs) =~= nbase + edges_clauses(gs, m as int));
        }

        // hand exactly the encoding to the CDCL engine
        let ghost cs = clauses_of(gs);
        proof {
            lemma_clauses_of_bounded(gs);
        }
        let mut engine = sat_new();
        let mut ci: usize = 0;
        while ci < clauses.len()
            invariant
                nsub == n + m,
                nsub * num_affs <= MAX_SAT_VARS,
                num_affs == num_affs_of(gs),
                gs == self.graph@,
                n == gs.nodes.len(),
                m == gs.edges.len(),
                within_limits(gs),
                cs == clauses_of(gs),
                sclauses_bounded(cs, var_bound(gs)),
                clause_seq_matches(clauses@, cs),
                ci <= clauses@.len(),
                engine_clauses(engine) == cs.take(ci as int),
            decreases clauses.len() - ci,
        {
            proof {
                assert(clauses@[ci as int]@ == cs[ci as int]);
                assert(lits_bounded(cs[ci as int], var_bound(gs)));
                assert(var_bound(gs) == nsub * num_affs);
            }
            sat_add_clause(&mut engine, &clauses[ci]);
            proof {
                assert(cs.take(ci as int + 1) =~= cs.take(ci as int).push(cs[ci as int]));
            }
            ci = ci + 1;
        }
        proof {
            assert(cs.take(clauses@.len() as int) =~= cs);
        }
        let model = match sat_solve_model(&mut engine) {
            None => {
                return Result::Err(SolverFailure::Inconsistent);
            },
            Some(mo) => mo,
        };
        let nvars = nsub * num_affs;

        // read the model into one value per variable
        let mut vals: Vec<bool> = Vec::new();
        let mut t: usize = 0;
        while t < nvars
            invariant
                t <= nvars,
                vals@.len() == t,
                within_limits(gs),
                gs == self.graph@,
                engine_sat(clauses_of(gs)),
            decreases nvars - t,
        {
            vals.push(false);
            t = t + 1;
        }
        let mut t: usize = 0;
        while t < model.len()
            invariant
                t <= model@.len(),
                vals@.len() == nvars,
                within_limits(gs),
                gs == self.graph@,
                engine_sat(clauses_of(gs)),
            decreases model.len() - t,
        {
            let (v, p) = model[t];
            if v < nvars {
                vals[v] = p;
            }
            t = t + 1;
        }

        // decode: the first positive affiliation variable of each subject
        let mut asg: Vec<AffiliationID> = Vec::new();
        let mut i: usize = 0;
        while i < n
            invariant
                nsub == n + m,
                nsub * num_affs <= MAX_SAT_VARS,
                vals@.len() == nsub * num_affs,
                1 <= num_affs,
                within_limits(gs),
                gs == self.graph@,
                engine_sat(clauses_of(gs)),
                i <= n,
            decreases n - i,
        {
            let mut found: usize = 0;
            let mut aff: usize = 1;
            while aff < num_affs && found == 0
                invariant
                    i < n,
                    nsub == n + m,
                    nsub * num_affs <= MAX_SAT_VARS,
                    vals@.len() == nsub * num_affs,
                    1 <= aff <= num_affs,
                decreases num_affs - aff,
            {
                if vals[var_of(i, aff, num_affs, nsub)] {
                    found = aff;
                }
                aff = aff + 1;
            }
            if found == 0 {
                return Result::Err(SolverFailure::NoAffFound);
            }
            asg.push(found);
            i = i + 1;
        }
        let mut k: usize = 0;
        while k < m
            invariant
                nsub == n + m,
                nsub * num_affs <= MAX_SAT_VARS,
                vals@.len() == nsub * num_affs,
                1 <= num_affs,
                within_limits(gs),
                gs == self.graph@,
                engine_sat(clauses_of(gs)),
                k <= m,
            decreases m - k,
        {
            let mut found: usize = 0;
            let mut have = false;
            let mut aff: usize = 0;
            while aff < num_affs && !have
                invariant
                    k < m,
                    nsub == n + m,
                    nsub * num_affs <= MAX_SAT_VARS,
                    vals@.len() == nsub * num_affs,
                    aff <= num_affs,
                decreases num_affs - aff,
            {
                if vals[var_of(n + k, aff, num_affs, nsub)] {
                    found = aff;
                    have = true;
                }
                aff = aff + 1;
            }
            if !have {
                return Result::Err(SolverFailure::NoAffFound);
            }
            asg.push(found);
            k = k + 1;
        }

        // the coloring is only returned once it provably obeys the rules
        if check_assignment(self.graph, &asg) {
            Result::Ok(asg)
        } else {
            Result::Err(SolverFailure::NoAffFound)
        }
    }
}

} // verus!
