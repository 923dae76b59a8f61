//! The coloring engine: three heuristics that assign each vertex of a
//! [`Graph`] the smallest color not already used by a colored neighbor,
//! under three different vertex-visitation strategies.
//!
//! All three return an assignment listing every vertex of the graph exactly
//! once, in the graph's insertion order, paired with the number of colors
//! used. Every traversal here follows that same fixed order, so for a fixed
//! sequence of `add_edge` calls the results are reproducible.
//!
//! During a run, the working state is a vector of colors aligned with the
//! vertex sequence, where `-1` marks a vertex not yet colored; the sentinel
//! never appears in a returned assignment.

use vstd::prelude::*;
use vstd::set_lib::lemma_int_range;
use vstd::set_lib::lemma_len_subset;
use vstd::set_lib::set_int_range;
use vstd::seq_lib::seq_to_set_is_finite;

use crate::graph::Graph;
use crate::graph::lemma_push_contains;

verus! {

/// Every neighbor list is short enough that a color index, which never
/// exceeds the list's length, fits in an `i32`.
pub open spec fn degrees_fit(g: Graph) -> bool {
    forall|v: i32| (#[trigger] g.nbrs(v)).len() < 0x7fff_ffff
}

/// Vertices at positions `i` and `j` of the vertex sequence are adjacent.
pub open spec fn adjacent_at(g: Graph, i: int, j: int) -> bool {
    g.nbrs(g.vertex_seq()[i]).contains(g.vertex_seq()[j])
}

/// A working color vector: one entry per vertex, each either a color or
/// the "not yet colored" sentinel `-1`.
pub open spec fn state_wf(g: Graph, colors: Seq<i32>) -> bool {
    &&& colors.len() == g.vertex_seq().len()
    &&& forall|i: int| 0 <= i < colors.len() ==> #[trigger] colors[i] >= -1
}

/// No two distinct adjacent vertices that are both colored share a color.
pub open spec fn partial_proper(g: Graph, colors: Seq<i32>) -> bool {
    forall|i: int, j: int|
        0 <= i < colors.len() && 0 <= j < colors.len() && i != j && colors[i] != -1
            && colors[j] != -1 && #[trigger] adjacent_at(g, i, j) ==> colors[i] != colors[j]
}

/// Some vertex currently holds color `c`.
pub open spec fn color_used(colors: Seq<i32>, c: i32) -> bool {
    exists|j: int| 0 <= j < colors.len() && colors[j] == c
}

/// Colors are assigned densely: below every assigned color, every
/// non-negative color is in use somewhere.
pub open spec fn partial_dense(colors: Seq<i32>) -> bool {
    forall|i: int, c: i32|
        0 <= i < colors.len() && 0 <= c < #[trigger] colors[i] ==> #[trigger] color_used(
            colors,
            c,
        )
}

/// Every assigned color is at most the degree of its vertex.
pub open spec fn partial_degree_bounded(g: Graph, colors: Seq<i32>) -> bool {
    forall|i: int|
        0 <= i < colors.len() && #[trigger] colors[i] != -1 ==> colors[i] <= g.nbrs(
            g.vertex_seq()[i],
        ).len()
}

/// Some vertex other than the one at position `i`, adjacent to it, holds
/// color `k` in the working vector.
pub open spec fn partial_nbr_has_color(g: Graph, colors: Seq<i32>, i: int, k: i32) -> bool {
    exists|j: int| 0 <= j < colors.len() && j != i && adjacent_at(g, i, j) && colors[j] == k
}

/// Each assigned color is locally minimal: every non-negative color below
/// it already sits on some neighbor — the mark of the "smallest available
/// color" policy.
pub open spec fn partial_local(g: Graph, colors: Seq<i32>) -> bool {
    forall|i: int, k: i32|
        0 <= i < colors.len() && 0 <= k < colors[i] ==> #[trigger] partial_nbr_has_color(
            g,
            colors,
            i,
            k,
        )
}

/// Everything the coloring loops maintain about their working state.
pub open spec fn coloring_inv(g: Graph, colors: Seq<i32>) -> bool {
    &&& state_wf(g, colors)
    &&& partial_proper(g, colors)
    &&& partial_dense(colors)
    &&& partial_degree_bounded(g, colors)
    &&& partial_local(g, colors)
}

/// The assignment lists exactly the graph's vertices, in the graph's order.
pub open spec fn coloring_covers(g: Graph, m: Seq<(i32, i32)>) -> bool {
    &&& m.len() == g.vertex_seq().len()
    &&& forall|i: int| 0 <= i < m.len() ==> (#[trigger] m[i]).0 == g.vertex_seq()[i]
}

/// Coverage: an assignment for a well-formed graph lists a vertex `v`
/// exactly when the graph knows `v`, and lists no vertex twice — every
/// vertex of the graph appears exactly once as a key.
pub proof fn lemma_coverage_unique(g: Graph, m: Seq<(i32, i32)>)
    requires
        g.wf(),
        coloring_covers(g, m),
    ensures
        forall|v: i32|
            g.has_vertex(v) <==> exists|i: int| 0 <= i < m.len() && (#[trigger] m[i]).0 == v,
        forall|i: int, j: int|
            0 <= i < m.len() && 0 <= j < m.len() && i != j ==> m[i].0 != m[j].0,
{
    assert forall|v: i32| g.has_vertex(v) implies exists|i: int|
        0 <= i < m.len() && (#[trigger] m[i]).0 == v by {
        let i = choose|i: int| 0 <= i < g.vertex_seq().len() && g.vertex_seq()[i] == v;
        assert(m[i].0 == v);
    }
    assert forall|v: i32| (exists|i: int| 0 <= i < m.len() && (#[trigger] m[i]).0 == v)
        implies g.has_vertex(v) by {
        let i = choose|i: int| 0 <= i < m.len() && m[i].0 == v;
        assert(g.vertex_seq()[i] == v);
    }
}

/// The assignment is a proper coloring: distinct adjacent vertices get
/// distinct colors (a self-loop is exempt, the endpoints being equal).
pub open spec fn coloring_proper(g: Graph, m: Seq<(i32, i32)>) -> bool {
    forall|i: int, j: int|
        0 <= i < m.len() && 0 <= j < m.len() && m[i].0 != m[j].0 && #[trigger] g.nbrs(
            m[i].0,
        ).contains(m[j].0) ==> m[i].1 != m[j].1
}

/// Some entry of the assignment carries color `c`.
pub open spec fn color_in_assignment(m: Seq<(i32, i32)>, c: i32) -> bool {
    exists|i: int| 0 <= i < m.len() && m[i].1 == c
}

/// The colors used are exactly `0, 1, ..., count - 1`, with no gaps; an
/// empty assignment uses zero colors.
pub open spec fn coloring_dense(m: Seq<(i32, i32)>, count: i32) -> bool {
    &&& count >= 0
    &&& forall|i: int| 0 <= i < m.len() ==> 0 <= (#[trigger] m[i]).1 < count
    &&& forall|c: i32| 0 <= c < count ==> #[trigger] color_in_assignment(m, c)
    &&& (m.len() == 0 ==> count == 0)
}

/// Each vertex's color is at most its degree.
pub open spec fn coloring_degree_bounded(g: Graph, m: Seq<(i32, i32)>) -> bool {
    forall|i: int|
        0 <= i < m.len() ==> (#[trigger] m[i]).1 <= g.nbrs(m[i].0).len()
}

/// Some entry other than the one at position `i`, for a vertex adjacent
/// to `m[i].0`, carries color `k`.
pub open spec fn nbr_has_color(g: Graph, m: Seq<(i32, i32)>, i: int, k: i32) -> bool {
    exists|j: int|
        0 <= j < m.len() && j != i && g.nbrs(m[i].0).contains(m[j].0) && m[j].1 == k
}

/// The assignment is locally minimal: below each vertex's color, every
/// non-negative color is already taken by one of its neighbors, so no
/// single vertex could have been given a smaller color. This is the
/// "smallest available color" policy, visible in the result.
pub open spec fn coloring_locally_minimal(g: Graph, m: Seq<(i32, i32)>) -> bool {
    forall|i: int, k: i32|
        0 <= i < m.len() && 0 <= k < m[i].1 ==> #[trigger] nbr_has_color(g, m, i, k)
}

/// `c` is the smallest non-negative integer outside `s`.
pub open spec fn is_smallest_outside(c: i32, s: Set<i32>) -> bool {
    &&& c >= 0
    &&& !s.contains(c)
    &&& forall|k: i32| 0 <= k < c ==> s.contains(k)
}

/// The colors currently worn by neighbors of the vertex at position `i`
/// (other than that vertex itself; the sentinel is not a color).
pub open spec fn current_nbr_colors(g: Graph, colors: Seq<i32>, i: int) -> Set<i32> {
    Set::new(|c: i32| c != -1 && partial_nbr_has_color(g, colors, i, c))
}

/// The colors worn by neighbors of the vertex at position `i` that stand
/// before it in the vertex sequence — exactly the neighbors already
/// colored when the greedy pass reaches position `i`.
pub open spec fn earlier_nbr_colors(g: Graph, colors: Seq<i32>, i: int) -> Set<i32> {
    Set::new(
        |c: i32| exists|j: int| 0 <= j < i && #[trigger] adjacent_at(g, i, j) && colors[j] == c,
    )
}

/// The full greedy pass, characterized position by position: each entry is
/// the smallest color not worn by an earlier-positioned neighbor. Exactly
/// one color sequence satisfies this for a given graph.
pub open spec fn greedy_exact(g: Graph, colors: Seq<i32>) -> bool {
    forall|i: int|
        0 <= i < colors.len() ==> is_smallest_outside(
            colors[i],
            #[trigger] earlier_nbr_colors(g, colors, i),
        )
}

/// The color column of an assignment.
pub open spec fn assigned_colors(m: Seq<(i32, i32)>) -> Seq<i32> {
    m.map_values(|p: (i32, i32)| p.1)
}

/// A snapshot of a cascade run: the colors assigned so far, and the stack
/// of positions whose neighbor lists are still being walked, each paired
/// with how far its list has been scanned.
#[verifier::ext_equal]
pub struct CascadeState {
    pub cs: Seq<i32>,
    pub stack: Seq<(int, int)>,
}

/// `b` is the position the cascade seeds from: uncolored, of maximal
/// degree, and standing before every other uncolored position of that
/// same degree.
pub open spec fn max_degree_pick_ok(g: Graph, cs: Seq<i32>, b: int) -> bool {
    &&& 0 <= b < cs.len()
    &&& cs[b] == -1
    &&& forall|m: int|
        0 <= m < cs.len() && #[trigger] cs[m] == -1 ==> g.nbrs(g.vertex_seq()[m]).len()
            <= g.nbrs(g.vertex_seq()[b]).len()
    &&& forall|m: int|
        0 <= m < b && #[trigger] cs[m] == -1 ==> g.nbrs(g.vertex_seq()[m]).len() < g.nbrs(
            g.vertex_seq()[b],
        ).len()
}

/// One move of the cascade machine from `s1` to `s2`. With a frame on the
/// stack, the scan of the top position's neighbor list either finishes
/// (pop), passes a colored or unknown neighbor (advance), or meets an
/// uncolored neighbor, which is then given the smallest available color
/// and pushed with a fresh scan of its own (descend). With an empty stack,
/// a new seed of maximal degree is colored and pushed. At most one `s2`
/// follows any `s1`.
pub open spec fn cascade_step(g: Graph, s1: CascadeState, s2: CascadeState) -> bool {
    if s1.stack.len() > 0 {
        let v = s1.stack.last().0;
        let k = s1.stack.last().1;
        if !(0 <= v < s1.cs.len() && 0 <= k) {
            false
        } else if k >= g.nbrs(g.vertex_seq()[v]).len() {
            s2 == CascadeState { cs: s1.cs, stack: s1.stack.drop_last() }
        } else {
            let w = g.nbrs(g.vertex_seq()[v])[k];
            let j = g.idx_of(w);
            let advanced = s1.stack.update(s1.stack.len() - 1, (v, k + 1));
            if 0 <= j < s1.cs.len() && s1.cs[j] == -1 && g.has_vertex(w) {
                &&& is_smallest_outside(s2.cs[j], current_nbr_colors(g, s1.cs, j))
                &&& s2.cs == s1.cs.update(j, s2.cs[j])
                &&& s2.stack == advanced.push((j, 0))
            } else {
                s2 == CascadeState { cs: s1.cs, stack: advanced }
            }
        }
    } else {
        let b = s2.stack[0].0;
        &&& s2.stack.len() == 1
        &&& s2.stack[0].1 == 0
        &&& max_degree_pick_ok(g, s1.cs, b)
        &&& is_smallest_outside(s2.cs[b], current_nbr_colors(g, s1.cs, b))
        &&& s2.cs == s1.cs.update(b, s2.cs[b])
    }
}

/// Every snapshot of the sequence follows from the one before it by one
/// cascade move.
pub open spec fn cascade_chain_ok(g: Graph, states: Seq<CascadeState>) -> bool {
    forall|t: int| 0 <= t < states.len() - 1 ==> cascade_step(g, states[t], #[trigger] states[t + 1])
}

/// `states` is a complete cascade run on `g` ending in the colors `cs`:
/// it starts all-uncolored with an empty stack, each move follows the
/// cascade rule, and it ends fully colored with an empty stack. Exactly
/// one final color sequence admits such a run for a given graph.
pub open spec fn cascade_run_ok(g: Graph, states: Seq<CascadeState>, cs: Seq<i32>) -> bool {
    &&& states.len() >= 1
    &&& states[0].cs.len() == g.vertex_seq().len()
    &&& forall|i: int| 0 <= i < states[0].cs.len() ==> #[trigger] states[0].cs[i] == -1
    &&& states[0].stack == Seq::<(int, int)>::empty()
    &&& cascade_chain_ok(g, states)
    &&& states.last().stack == Seq::<(int, int)>::empty()
    &&& forall|i: int| 0 <= i < states.last().cs.len() ==> #[trigger] states.last().cs[i] != -1
    &&& cs == states.last().cs
}

/// The cascade's seeding rule admits only one pick per state.
proof fn lemma_max_degree_pick_unique(g: Graph, cs: Seq<i32>, b1: int, b2: int)
    requires
        max_degree_pick_ok(g, cs, b1),
        max_degree_pick_ok(g, cs, b2),
    ensures
        b1 == b2,
{
    if b1 < b2 {
        assert(g.nbrs(g.vertex_seq()[b1]).len() < g.nbrs(g.vertex_seq()[b2]).len());
        assert(g.nbrs(g.vertex_seq()[b2]).len() <= g.nbrs(g.vertex_seq()[b1]).len());
    } else if b2 < b1 {
        assert(g.nbrs(g.vertex_seq()[b2]).len() < g.nbrs(g.vertex_seq()[b1]).len());
        assert(g.nbrs(g.vertex_seq()[b1]).len() <= g.nbrs(g.vertex_seq()[b2]).len());
    }
}

/// At most one state follows a given state by a cascade move.
proof fn lemma_cascade_step_unique(g: Graph, s: CascadeState, s1: CascadeState, s2: CascadeState)
    requires
        cascade_step(g, s, s1),
        cascade_step(g, s, s2),
    ensures
        s1 == s2,
{
    if s.stack.len() > 0 {
        let v = s.stack.last().0;
        let k = s.stack.last().1;
        if k >= g.nbrs(g.vertex_seq()[v]).len() {
            assert(s1 =~= s2);
        } else {
            let w = g.nbrs(g.vertex_seq()[v])[k];
            let j = g.idx_of(w);
            if 0 <= j < s.cs.len() && s.cs[j] == -1 && g.has_vertex(w) {
                lemma_smallest_unique(s1.cs[j], s2.cs[j], current_nbr_colors(g, s.cs, j));
                assert(s1.cs =~= s2.cs);
                assert(s1.stack =~= s2.stack);
                assert(s1 =~= s2);
            } else {
                assert(s1 =~= s2);
            }
        }
    } else {
        lemma_max_degree_pick_unique(g, s.cs, s1.stack[0].0, s2.stack[0].0);
        let b = s1.stack[0].0;
        lemma_smallest_unique(s1.cs[b], s2.cs[b], current_nbr_colors(g, s.cs, b));
        assert(s1.cs =~= s2.cs);
        assert(s1.stack =~= s2.stack);
        assert(s1 =~= s2);
    }
}

/// Two cascade runs on one graph agree on their first `t + 1` snapshots.
proof fn lemma_cascade_agree(
    g: Graph,
    states1: Seq<CascadeState>,
    states2: Seq<CascadeState>,
    t: int,
)
    requires
        states1.len() >= 1,
        states2.len() >= 1,
        states1[0] == states2[0],
        cascade_chain_ok(g, states1),
        cascade_chain_ok(g, states2),
        0 <= t < states1.len(),
        t < states2.len(),
    ensures
        states1[t] == states2[t],
    decreases t,
{
    if t > 0 {
        let u = t - 1;
        lemma_cascade_agree(g, states1, states2, u);
        assert(cascade_step(g, states1[u], states1[u + 1]));
        assert(cascade_step(g, states2[u], states2[u + 1]));
        assert(states1[u] == states2[u]);
        lemma_cascade_step_unique(g, states1[u], states1[u + 1], states2[u + 1]);
    }
}

/// Determinism of the cascade heuristic on a fixed graph — hence a fixed
/// vertex order: any two complete cascade runs produce identical
/// colorings, so repeated calls on the same graph return the same result.
pub proof fn lemma_rlf_deterministic(
    g: Graph,
    states1: Seq<CascadeState>,
    cs1: Seq<i32>,
    states2: Seq<CascadeState>,
    cs2: Seq<i32>,
)
    requires
        cascade_run_ok(g, states1, cs1),
        cascade_run_ok(g, states2, cs2),
    ensures
        cs1 == cs2,
{
    assert(states1[0] == states2[0]) by {
        assert(states1[0].cs =~= states2[0].cs);
        assert(states1[0] =~= states2[0]);
    }
    if states1.len() < states2.len() {
        let t = states1.len() - 1;
        lemma_cascade_agree(g, states1, states2, t);
        assert(cascade_step(g, states2[t], states2[t + 1]));
        let b = states2[t + 1].stack[0].0;
        assert(states2[t].cs[b] == -1);
        assert(states1.last().cs[b] != -1);
    } else if states2.len() < states1.len() {
        let t = states2.len() - 1;
        lemma_cascade_agree(g, states1, states2, t);
        assert(cascade_step(g, states1[t], states1[t + 1]));
        let b = states1[t + 1].stack[0].0;
        assert(states1[t].cs[b] == -1);
        assert(states2.last().cs[b] != -1);
    } else {
        lemma_cascade_agree(g, states1, states2, states1.len() - 1);
    }
}

/// Position `i` was picked in one of the first `t` rounds of the run `p`.
pub open spec fn picked_before(p: Seq<int>, t: int, i: int) -> bool {
    exists|s: int| 0 <= s < t && p[s] == i
}

/// The working state after the first `t` rounds of a run that picked
/// positions in the order `p` and finally produced the colors `cs`:
/// positions already picked show their final color, the rest the sentinel.
pub open spec fn dsatur_state(p: Seq<int>, cs: Seq<i32>, t: int) -> Seq<i32> {
    Seq::new(
        cs.len(),
        |i: int|
            if picked_before(p, t, i) {
                cs[i]
            } else {
                -1i32
            },
    )
}

/// `b` is the position DSatur picks in state `st`: uncolored, of maximal
/// saturation degree, and standing before every other uncolored position
/// of that same saturation.
pub open spec fn dsatur_pick_ok(g: Graph, st: Seq<i32>, b: int) -> bool {
    &&& 0 <= b < st.len()
    &&& st[b] == -1
    &&& forall|m: int|
        0 <= m < st.len() && #[trigger] st[m] == -1 ==> sat_set(g, st, g.vertex_seq()[m]).len()
            <= sat_set(g, st, g.vertex_seq()[b]).len()
    &&& forall|m: int|
        0 <= m < b && #[trigger] st[m] == -1 ==> sat_set(g, st, g.vertex_seq()[m]).len()
            < sat_set(g, st, g.vertex_seq()[b]).len()
}

/// Round `t` of the run `(p, cs)` picked the vertex DSatur's rule demands
/// and gave it the smallest color its neighbors then allowed.
pub open spec fn dsatur_step_ok(g: Graph, p: Seq<int>, cs: Seq<i32>, t: int) -> bool {
    &&& dsatur_pick_ok(g, dsatur_state(p, cs, t), p[t])
    &&& is_smallest_outside(cs[p[t]], current_nbr_colors(g, dsatur_state(p, cs, t), p[t]))
}

/// `(p, cs)` is a complete DSatur run on `g`: `p` reaches every position,
/// and every round follows DSatur's selection and color rules. Exactly one
/// color sequence admits such a run for a given graph.
pub open spec fn dsatur_run_ok(g: Graph, p: Seq<int>, cs: Seq<i32>) -> bool {
    &&& cs.len() == g.vertex_seq().len()
    &&& p.len() == cs.len()
    &&& forall|i: int| 0 <= i < cs.len() ==> p.contains(i)
    &&& forall|t: int| 0 <= t < p.len() ==> #[trigger] dsatur_step_ok(g, p, cs, t)
}

/// DSatur's selection rule admits only one pick per state.
proof fn lemma_pick_unique(g: Graph, st: Seq<i32>, b1: int, b2: int)
    requires
        dsatur_pick_ok(g, st, b1),
        dsatur_pick_ok(g, st, b2),
    ensures
        b1 == b2,
{
    if b1 < b2 {
        assert(sat_set(g, st, g.vertex_seq()[b1]).len() < sat_set(g, st, g.vertex_seq()[b2]).len());
        assert(sat_set(g, st, g.vertex_seq()[b2]).len() <= sat_set(g, st, g.vertex_seq()[b1]).len());
    } else if b2 < b1 {
        assert(sat_set(g, st, g.vertex_seq()[b2]).len() < sat_set(g, st, g.vertex_seq()[b1]).len());
        assert(sat_set(g, st, g.vertex_seq()[b1]).len() <= sat_set(g, st, g.vertex_seq()[b2]).len());
    }
}

/// Only one color is the smallest outside a given set.
proof fn lemma_smallest_unique(c1: i32, c2: i32, s: Set<i32>)
    requires
        is_smallest_outside(c1, s),
        is_smallest_outside(c2, s),
    ensures
        c1 == c2,
{
    if c1 < c2 {
        assert(s.contains(c1));
    } else if c2 < c1 {
        assert(s.contains(c2));
    }
}

/// Two DSatur runs on one graph agree on their first `t` rounds: same
/// picks, same states, same colors for the picked positions.
proof fn lemma_dsatur_rounds_agree(
    g: Graph,
    picks1: Seq<int>,
    cs1: Seq<i32>,
    picks2: Seq<int>,
    cs2: Seq<i32>,
    t: int,
)
    requires
        dsatur_run_ok(g, picks1, cs1),
        dsatur_run_ok(g, picks2, cs2),
        0 <= t <= cs1.len(),
    ensures
        forall|s: int| 0 <= s < t ==> picks1[s] == picks2[s],
        dsatur_state(picks1, cs1, t) == dsatur_state(picks2, cs2, t),
        forall|s: int| 0 <= s < t ==> cs1[picks1[s]] == cs2[picks2[s]],
    decreases t,
{
    if t == 0 {
        assert(dsatur_state(picks1, cs1, 0) =~= dsatur_state(picks2, cs2, 0));
    } else {
        lemma_dsatur_rounds_agree(g, picks1, cs1, picks2, cs2, t - 1);
        let st = dsatur_state(picks1, cs1, t - 1);
        assert(dsatur_step_ok(g, picks1, cs1, t - 1));
        assert(dsatur_step_ok(g, picks2, cs2, t - 1));
        lemma_pick_unique(g, st, picks1[t - 1], picks2[t - 1]);
        let b = picks1[t - 1];
        lemma_smallest_unique(cs1[b], cs2[b], current_nbr_colors(g, st, b));
        assert(dsatur_state(picks1, cs1, t) =~= dsatur_state(picks2, cs2, t)) by {
            assert forall|i: int| 0 <= i < cs1.len() implies dsatur_state(picks1, cs1, t)[i]
                == dsatur_state(picks2, cs2, t)[i] by {
                assert(picked_before(picks1, t, i) == picked_before(picks2, t, i)) by {
                    if picked_before(picks1, t, i) {
                        let s = choose|s: int| 0 <= s < t && picks1[s] == i;
                        assert(picks2[s] == i);
                    }
                    if picked_before(picks2, t, i) {
                        let s = choose|s: int| 0 <= s < t && picks2[s] == i;
                        assert(picks1[s] == i);
                    }
                }
                if picked_before(picks1, t, i) {
                    let s = choose|s: int| 0 <= s < t && picks1[s] == i;
                    if s < t - 1 {
                        assert(picked_before(picks1, t - 1, i));
                        assert(picked_before(picks2, t - 1, i));
                        assert(dsatur_state(picks1, cs1, t - 1)[i] == cs1[i]);
                        assert(dsatur_state(picks2, cs2, t - 1)[i] == cs2[i]);
                    } else {
                        assert(i == b);
                    }
                }
            }
        }
    }
}

/// Determinism of DSatur on a fixed graph — hence a fixed vertex order:
/// any two complete DSatur runs produce identical colorings, so repeated
/// calls on the same graph return the same result.
pub proof fn lemma_dsatur_deterministic(
    g: Graph,
    picks1: Seq<int>,
    cs1: Seq<i32>,
    picks2: Seq<int>,
    cs2: Seq<i32>,
)
    requires
        dsatur_run_ok(g, picks1, cs1),
        dsatur_run_ok(g, picks2, cs2),
    ensures
        cs1 == cs2,
{
    let n = cs1.len() as int;
    lemma_dsatur_rounds_agree(g, picks1, cs1, picks2, cs2, n);
    assert forall|i: int| 0 <= i < n implies cs1[i] == cs2[i] by {
        assert(picks1.contains(i));
        let s = choose|s: int| 0 <= s < picks1.len() && picks1[s] == i;
        assert(cs1[picks1[s]] == cs2[picks2[s]]);
        assert(picks2[s] == i);
    }
    assert(cs1 =~= cs2);
}

/// Positions before `k` of two greedy color sequences for the same graph
/// agree.
proof fn lemma_greedy_prefix_unique(g: Graph, cs1: Seq<i32>, cs2: Seq<i32>, k: int)
    requires
        cs1.len() == cs2.len(),
        greedy_exact(g, cs1),
        greedy_exact(g, cs2),
        0 <= k <= cs1.len(),
    ensures
        forall|j: int| 0 <= j < k ==> cs1[j] == cs2[j],
    decreases k,
{
    if k > 0 {
        lemma_greedy_prefix_unique(g, cs1, cs2, k - 1);
        let i = k - 1;
        let s1 = earlier_nbr_colors(g, cs1, i);
        let s2 = earlier_nbr_colors(g, cs2, i);
        assert(s1 =~= s2) by {
            assert forall|c: i32| s1.contains(c) implies s2.contains(c) by {
                let j = choose|j: int| 0 <= j < i && adjacent_at(g, i, j) && cs1[j] == c;
                assert(cs2[j] == c);
            }
            assert forall|c: i32| s2.contains(c) implies s1.contains(c) by {
                let j = choose|j: int| 0 <= j < i && adjacent_at(g, i, j) && cs2[j] == c;
                assert(cs1[j] == c);
            }
        }
        assert(is_smallest_outside(cs1[i], s1));
        assert(is_smallest_outside(cs2[i], s2));
        if cs1[i] < cs2[i] {
            assert(s2.contains(cs1[i]));
        } else if cs2[i] < cs1[i] {
            assert(s1.contains(cs2[i]));
        }
    }
}

/// Determinism of the greedy pass: for one graph — hence one fixed vertex
/// order — only one color sequence follows the greedy characterization, so
/// repeated runs of the pass necessarily return identical results.
pub proof fn lemma_greedy_deterministic(g: Graph, cs1: Seq<i32>, cs2: Seq<i32>)
    requires
        cs1.len() == cs2.len(),
        greedy_exact(g, cs1),
        greedy_exact(g, cs2),
    ensures
        cs1 == cs2,
{
    lemma_greedy_prefix_unique(g, cs1, cs2, cs1.len() as int);
    assert(cs1 =~= cs2);
}

/// If a sequence contains every color in `[0, c)`, it has at least `c`
/// entries.
proof fn lemma_pigeonhole(s: Seq<i32>, c: i32)
    requires
        c >= 0,
        forall|k: i32| 0 <= k < c ==> s.contains(k),
    ensures
        c <= s.len(),
{
    let si = s.map_values(|x: i32| x as int);
    let range = set_int_range(0, c as int);
    assert forall|k: int| range.contains(k) implies si.to_set().contains(k) by {
        assert(s.contains(k as i32));
        let m = choose|m: int| 0 <= m < s.len() && s[m] == k as i32;
        assert(si[m] == k);
        assert(si.contains(k));
    }
    lemma_int_range(0, c as int);
    broadcast use seq_to_set_is_finite;

    lemma_len_subset(range, si.to_set());
    si.lemma_cardinality_of_set();
}

/// Whether `x` occurs in `v`.
fn vec_contains(v: &Vec<i32>, x: i32) -> (r: bool)
    ensures
        r == v@.contains(x),
{
    let n = v.len();
    let mut k: usize = 0;
    while k < n
        invariant
            n == v@.len(),
            k <= n,
            forall|m: int| 0 <= m < k ==> v@[m] != x,
        decreases n - k,
    {
        if v[k] == x {
            return true;
        }
        k = k + 1;
    }
    false
}

/// The smallest non-negative color that does not occur in `forbidden`:
/// start at zero and count up while the candidate is taken.
fn smallest_missing(forbidden: &Vec<i32>) -> (c: i32)
    requires
        forbidden@.len() < 0x7fff_ffff,
    ensures
        0 <= c <= forbidden@.len(),
        !forbidden@.contains(c),
        forall|k: i32| 0 <= k < c ==> forbidden@.contains(k),
{
    let mut c: i32 = 0;
    while vec_contains(forbidden, c)
        invariant
            forbidden@.len() < 0x7fff_ffff,
            0 <= c <= forbidden@.len(),
            forall|k: i32| 0 <= k < c ==> forbidden@.contains(k),
        decreases forbidden@.len() - c,
    {
        proof {
            lemma_pigeonhole(forbidden@, (c + 1) as i32);
        }
        c = c + 1;
    }
    c
}

/// Colors the not-yet-colored vertex at position `vi` with the smallest
/// color not used by any of its already-colored neighbors, preserving the
/// coloring invariants. This single step is shared by all three heuristics.
fn color_vertex(g: &Graph, colors: &mut Vec<i32>, vi: usize)
    requires
        g.wf(),
        degrees_fit(*g),
        coloring_inv(*g, old(colors)@),
        vi < old(colors)@.len(),
        old(colors)@[vi as int] == -1,
    ensures
        final(colors)@.len() == old(colors)@.len(),
        forall|k: int|
            0 <= k < old(colors)@.len() && k != vi ==> final(colors)@[k] == old(colors)@[k],
        final(colors)@[vi as int] >= 0,
        is_smallest_outside(
            final(colors)@[vi as int],
            current_nbr_colors(*g, old(colors)@, vi as int),
        ),
        coloring_inv(*g, final(colors)@),
{
    let ghost c0 = colors@;
    let v = g.vertex_at(vi);
    let nlist = g.nbrs_at(vi);
    let deg = nlist.len();
    let mut forbidden: Vec<i32> = Vec::new();
    let mut k: usize = 0;
    while k < deg
        invariant
            g.wf(),
            colors@ == c0,
            coloring_inv(*g, c0),
            vi < c0.len(),
            c0[vi as int] == -1,
            v == g.vertex_seq()[vi as int],
            nlist@ == g.nbrs(v),
            deg == nlist@.len(),
            k <= deg,
            forbidden@.len() <= k,
            forall|j: int|
                0 <= j < c0.len() && c0[j] != -1 && nlist@.take(k as int).contains(
                    #[trigger] g.vertex_seq()[j],
                ) ==> forbidden@.contains(c0[j]),
            forall|x: i32|
                #[trigger] forbidden@.contains(x) ==> x != -1 && color_used(c0, x)
                    && partial_nbr_has_color(*g, c0, vi as int, x),
        decreases deg - k,
    {
        let w = nlist[k];
        proof {
            assert(g.nbrs(v).contains(w)) by {
                assert(g.nbrs(v)[k as int] == w);
            }
            g.lemma_nbr_is_vertex(v, w);
        }
        match g.find_index(w) {
            Some(j) => {
                let cw = colors[j];
                let ghost f0 = forbidden@;
                if cw != -1 {
                    forbidden.push(cw);
                }
                proof {
                    assert forall|x: i32| f0.contains(x) implies #[trigger] forbidden@.contains(
                        x,
                    ) by {
                        if cw != -1 {
                            lemma_push_contains(f0, cw, x);
                        }
                    }
                    assert forall|x: i32| #[trigger] forbidden@.contains(x) implies f0.contains(x)
                        || (cw != -1 && x == cw) by {
                        if cw != -1 {
                            lemma_push_contains(f0, cw, x);
                        }
                    }
                    if cw != -1 {
                        assert(forbidden@.contains(cw)) by {
                            lemma_push_contains(f0, cw, cw);
                        }
                        assert(color_used(c0, cw)) by {
                            assert(c0[j as int] == cw);
                        }
                        assert(partial_nbr_has_color(*g, c0, vi as int, cw)) by {
                            assert(c0[j as int] == cw);
                            assert(j as int != vi as int);
                            assert(adjacent_at(*g, vi as int, j as int)) by {
                                assert(g.nbrs(g.vertex_seq()[vi as int]).contains(w));
                            }
                        }
                    }
                    assert(nlist@.take((k + 1) as int) =~= nlist@.take(k as int).push(w));
                    assert forall|j2: int|
                        0 <= j2 < c0.len() && c0[j2] != -1 && nlist@.take((k + 1) as int).contains(
                            #[trigger] g.vertex_seq()[j2],
                        ) implies forbidden@.contains(c0[j2]) by {
                        lemma_push_contains(nlist@.take(k as int), w, g.vertex_seq()[j2]);
                        if g.vertex_seq()[j2] == w {
                            g.lemma_entry(j2);
                            assert(j2 == j as int);
                            assert(c0[j2] == cw);
                        } else {
                            assert(nlist@.take(k as int).contains(g.vertex_seq()[j2]));
                            assert(f0.contains(c0[j2]));
                        }
                    }
                }
            },
            None => {
                proof {
                    assert(false);
                }
            },
        }
        k = k + 1;
    }
    proof {
        assert(nlist@.take(deg as int) =~= nlist@);
        assert(forbidden@.len() < 0x7fff_ffff);
    }
    let c = smallest_missing(&forbidden);
    colors.set(vi, c);
    proof {
        let c1 = colors@;
        assert(c1 =~= c0.update(vi as int, c));
        assert(state_wf(*g, c1));
        assert(is_smallest_outside(c, current_nbr_colors(*g, c0, vi as int))) by {
            assert forall|k: i32| 0 <= k < c implies current_nbr_colors(
                *g,
                c0,
                vi as int,
            ).contains(k) by {
                assert(forbidden@.contains(k));
            }
            if current_nbr_colors(*g, c0, vi as int).contains(c) {
                let j = choose|j: int|
                    0 <= j < c0.len() && j != vi as int && adjacent_at(*g, vi as int, j)
                        && c0[j] == c;
                assert(nlist@.contains(g.vertex_seq()[j]));
                assert(forbidden@.contains(c0[j]));
            }
        }
        assert forall|i: int, j: int|
            0 <= i < c1.len() && 0 <= j < c1.len() && i != j && c1[i] != -1 && c1[j] != -1
                && #[trigger] adjacent_at(*g, i, j) implies c1[i] != c1[j] by {
            if i == vi as int {
                assert(nlist@.contains(g.vertex_seq()[j]));
                assert(forbidden@.contains(c0[j]));
            } else if j == vi as int {
                assert(g.nbrs(g.vertex_seq()[i]).contains(v));
                assert(g.nbrs(v).contains(g.vertex_seq()[i]));
                assert(adjacent_at(*g, vi as int, i));
                assert(nlist@.contains(g.vertex_seq()[i]));
                assert(forbidden@.contains(c0[i]));
            } else {
                assert(adjacent_at(*g, i, j) && c0[i] != -1 && c0[j] != -1);
            }
        }
        assert forall|i: int, cc: i32|
            0 <= i < c1.len() && 0 <= cc < #[trigger] c1[i] implies #[trigger] color_used(
            c1,
            cc,
        ) by {
            if i == vi as int {
                assert(forbidden@.contains(cc));
                assert(color_used(c0, cc));
                let j = choose|j: int| 0 <= j < c0.len() && c0[j] == cc;
                assert(j != vi as int);
                assert(c1[j] == cc);
            } else {
                assert(color_used(c0, cc));
                let j = choose|j: int| 0 <= j < c0.len() && c0[j] == cc;
                assert(j != vi as int);
                assert(c1[j] == cc);
            }
        }
        assert(partial_degree_bounded(*g, c1)) by {
            assert(c <= forbidden@.len() <= deg);
            assert(c1[vi as int] <= g.nbrs(g.vertex_seq()[vi as int]).len());
        }
        assert forall|i: int, k: i32| 0 <= i < c1.len() && 0 <= k < c1[i]
            implies #[trigger] partial_nbr_has_color(*g, c1, i, k) by {
            if i == vi as int {
                assert(forbidden@.contains(k));
                assert(partial_nbr_has_color(*g, c0, vi as int, k));
                let j = choose|j: int|
                    0 <= j < c0.len() && j != vi as int && adjacent_at(*g, vi as int, j)
                        && c0[j] == k;
                assert(c1[j] == k);
            } else {
                assert(0 <= k < c0[i]);
                assert(partial_nbr_has_color(*g, c0, i, k));
                let j = choose|j: int|
                    0 <= j < c0.len() && j != i && adjacent_at(*g, i, j) && c0[j] == k;
                assert(j != vi as int);
                assert(c1[j] == k);
            }
        }
    }
}

/// Packages a fully-colored working vector as the returned assignment and
/// computes the color count as one more than the largest color used
/// (zero for an empty graph).
fn collect_coloring(g: &Graph, colors: &Vec<i32>) -> (r: (Vec<(i32, i32)>, i32))
    requires
        g.wf(),
        degrees_fit(*g),
        coloring_inv(*g, colors@),
        forall|i: int| 0 <= i < colors@.len() ==> #[trigger] colors@[i] != -1,
    ensures
        coloring_covers(*g, r.0@),
        coloring_proper(*g, r.0@),
        coloring_dense(r.0@, r.1),
        coloring_degree_bounded(*g, r.0@),
        coloring_locally_minimal(*g, r.0@),
        forall|i: int| 0 <= i < colors@.len() ==> (#[trigger] r.0@[i]).1 == colors@[i],
{
    let n = g.len();
    let mut out: Vec<(i32, i32)> = Vec::new();
    let mut maxc: i32 = -1;
    let mut i: usize = 0;
    while i < n
        invariant
            g.wf(),
            degrees_fit(*g),
            coloring_inv(*g, colors@),
            forall|m: int| 0 <= m < colors@.len() ==> #[trigger] colors@[m] != -1,
            n == g.vertex_seq().len(),
            colors@.len() == n,
            i <= n,
            out@.len() == i,
            forall|m: int|
                0 <= m < i ==> #[trigger] out@[m] == (g.vertex_seq()[m], colors@[m]),
            maxc >= -1,
            forall|m: int| 0 <= m < i ==> #[trigger] colors@[m] <= maxc,
            maxc != -1 ==> exists|m: int| 0 <= m < i && colors@[m] == maxc,
        decreases n - i,
    {
        let v = g.vertex_at(i);
        let ci = colors[i];
        out.push((v, ci));
        if ci > maxc {
            maxc = ci;
        }
        i = i + 1;
    }
    proof {
        if maxc != -1 {
            let m = choose|m: int| 0 <= m < n && colors@[m] == maxc;
            assert(colors@[m] <= g.nbrs(g.vertex_seq()[m]).len());
            assert(g.nbrs(g.vertex_seq()[m]).len() < 0x7fff_ffff);
        }
    }
    let count = maxc + 1;
    proof {
        assert(coloring_covers(*g, out@));
        assert forall|i2: int, j2: int|
            0 <= i2 < out@.len() && 0 <= j2 < out@.len() && out@[i2].0 != out@[j2].0
                && #[trigger] g.nbrs(out@[i2].0).contains(out@[j2].0) implies out@[i2].1
            != out@[j2].1 by {
            assert(out@[i2].0 == g.vertex_seq()[i2]);
            assert(out@[j2].0 == g.vertex_seq()[j2]);
            assert(adjacent_at(*g, i2, j2));
        }
        assert forall|c: i32| 0 <= c < count implies #[trigger] color_in_assignment(
            out@,
            c,
        ) by {
            if c == maxc {
                let m = choose|m: int| 0 <= m < n && colors@[m] == maxc;
                assert(out@[m].1 == c);
            } else {
                let m = choose|m: int| 0 <= m < n && colors@[m] == maxc;
                assert(0 <= c < colors@[m]);
                assert(color_used(colors@, c));
                let j = choose|j: int| 0 <= j < colors@.len() && colors@[j] == c;
                assert(out@[j].1 == c);
            }
        }
        assert(coloring_dense(out@, count));
        assert(coloring_degree_bounded(*g, out@));
        assert forall|i2: int, k: i32| 0 <= i2 < out@.len() && 0 <= k < out@[i2].1
            implies #[trigger] nbr_has_color(*g, out@, i2, k) by {
            assert(colors@[i2] == out@[i2].1);
            assert(partial_nbr_has_color(*g, colors@, i2, k));
            let j = choose|j: int|
                0 <= j < colors@.len() && j != i2 && adjacent_at(*g, i2, j) && colors@[j] == k;
            assert(out@[j].1 == k);
            assert(out@[j].0 == g.vertex_seq()[j]);
            assert(out@[i2].0 == g.vertex_seq()[i2]);
            assert(g.nbrs(out@[i2].0).contains(out@[j].0));
        }
    }
    (out, count)
}

/// The color the working vector assigns to vertex `w`, the sentinel when
/// `w` is uncolored or not a vertex of the graph.
pub open spec fn color_of(g: Graph, colors: Seq<i32>, w: i32) -> i32 {
    if g.has_vertex(w) {
        colors[g.idx_of(w)]
    } else {
        -1i32
    }
}

/// The distinct colors currently assigned to neighbors of `v`.
pub open spec fn sat_set(g: Graph, colors: Seq<i32>, v: i32) -> Set<i32> {
    Set::new(
        |c: i32|
            c != -1 && exists|w: i32| #[trigger] g.nbrs(v).contains(w) && color_of(g, colors, w)
                == c,
    )
}

/// The distinct colors assigned to neighbors among the first `k` entries
/// of `v`'s neighbor list.
spec fn sat_prefix(g: Graph, colors: Seq<i32>, v: i32, k: int) -> Set<i32> {
    Set::new(
        |c: i32|
            c != -1 && exists|m: int|
                0 <= m < k && color_of(g, colors, #[trigger] g.nbrs(v)[m]) == c,
    )
}

/// How many entries of a working color vector still hold the sentinel.
pub open spec fn uncolored_count(colors: Seq<i32>) -> nat
    decreases colors.len(),
{
    if colors.len() == 0 {
        0
    } else {
        uncolored_count(colors.drop_last()) + (if colors.last() == -1 {
            1nat
        } else {
            0nat
        })
    }
}

/// Replacing one sentinel entry by a color lowers the uncolored count by
/// exactly one.
proof fn lemma_uncolored_update(c1: Seq<i32>, vi: int, x: i32)
    requires
        0 <= vi < c1.len(),
        c1[vi] == -1,
        x != -1,
    ensures
        uncolored_count(c1.update(vi, x)) + 1 == uncolored_count(c1),
    decreases c1.len(),
{
    let c2 = c1.update(vi, x);
    if vi == c1.len() - 1 {
        assert(c2.drop_last() =~= c1.drop_last());
        assert(c2.last() == x && c1.last() == -1);
    } else {
        assert(c2.drop_last() =~= c1.drop_last().update(vi, x));
        assert(c2.last() == c1.last());
        lemma_uncolored_update(c1.drop_last(), vi, x);
    }
}

/// A vector of sentinels only is uncolored throughout.
proof fn lemma_uncolored_all(c: Seq<i32>)
    requires
        forall|j: int| 0 <= j < c.len() ==> #[trigger] c[j] == -1,
    ensures
        uncolored_count(c) == c.len(),
    decreases c.len(),
{
    if c.len() > 0 {
        assert forall|j: int| 0 <= j < c.drop_last().len() implies #[trigger] c.drop_last()[j]
            == -1 by {
            assert(c[j] == -1);
        }
        lemma_uncolored_all(c.drop_last());
    }
}

/// The uncolored count is zero exactly when every entry is colored.
proof fn lemma_uncolored_zero(c: Seq<i32>)
    ensures
        (uncolored_count(c) == 0) <==> (forall|j: int| 0 <= j < c.len() ==> #[trigger] c[j]
            != -1),
    decreases c.len(),
{
    if c.len() > 0 {
        lemma_uncolored_zero(c.drop_last());
        if uncolored_count(c) == 0 {
            assert forall|j: int| 0 <= j < c.len() implies #[trigger] c[j] != -1 by {
                if j < c.len() - 1 {
                    assert(c.drop_last()[j] != -1);
                }
            }
        }
        if forall|j: int| 0 <= j < c.len() ==> #[trigger] c[j] != -1 {
            assert forall|j: int| 0 <= j < c.drop_last().len()
                implies #[trigger] c.drop_last()[j] != -1 by {
                assert(c[j] != -1);
            }
        }
    }
}

/// Counts the entries still holding the sentinel.
fn count_uncolored(colors: &Vec<i32>) -> (cnt: usize)
    ensures
        cnt == uncolored_count(colors@),
{
    let n = colors.len();
    let mut cnt: usize = 0;
    let mut i: usize = 0;
    while i < n
        invariant
            n == colors@.len(),
            i <= n,
            cnt <= i,
            cnt == uncolored_count(colors@.take(i as int)),
        decreases n - i,
    {
        proof {
            assert(colors@.take((i + 1) as int).drop_last() =~= colors@.take(i as int));
            assert(colors@.take((i + 1) as int).last() == colors@[i as int]);
        }
        if colors[i] == -1 {
            cnt = cnt + 1;
        }
        i = i + 1;
    }
    proof {
        assert(colors@.take(n as int) =~= colors@);
    }
    cnt
}

/// A fresh working vector marking every one of `n` vertices uncolored.
fn init_uncolored(n: usize) -> (colors: Vec<i32>)
    ensures
        colors@.len() == n,
        forall|i: int| 0 <= i < n ==> #[trigger] colors@[i] == -1,
{
    let mut colors: Vec<i32> = Vec::new();
    while colors.len() < n
        invariant
            colors@.len() <= n,
            forall|i: int| 0 <= i < colors@.len() ==> #[trigger] colors@[i] == -1,
        decreases n - colors@.len(),
    {
        colors.push(-1);
    }
    colors
}

/// Picks the first uncolored vertex, in vertex-sequence order, whose degree
/// is strictly larger than that of every uncolored vertex before it: the
/// lowest-positioned vertex of maximum degree among the uncolored ones.
fn pick_max_degree(g: &Graph, colors: &Vec<i32>) -> (vi: usize)
    requires
        g.wf(),
        colors@.len() == g.vertex_seq().len(),
        exists|j: int| 0 <= j < colors@.len() && colors@[j] == -1,
    ensures
        vi < colors@.len(),
        colors@[vi as int] == -1,
        forall|m: int|
            0 <= m < colors@.len() && #[trigger] colors@[m] == -1 ==> g.nbrs(
                g.vertex_seq()[m],
            ).len() <= g.nbrs(g.vertex_seq()[vi as int]).len(),
        forall|m: int|
            0 <= m < vi && #[trigger] colors@[m] == -1 ==> g.nbrs(g.vertex_seq()[m]).len()
                < g.nbrs(g.vertex_seq()[vi as int]).len(),
{
    let n = g.len();
    let mut best: usize = 0;
    let mut best_deg: usize = 0;
    let mut found = false;
    let mut i: usize = 0;
    while i < n
        invariant
            g.wf(),
            n == g.vertex_seq().len(),
            colors@.len() == n,
            i <= n,
            !found ==> forall|m: int| 0 <= m < i ==> #[trigger] colors@[m] != -1,
            found ==> best < i && colors@[best as int] == -1 && best_deg == g.nbrs(
                g.vertex_seq()[best as int],
            ).len(),
            found ==> forall|m: int|
                0 <= m < i && #[trigger] colors@[m] == -1 ==> g.nbrs(g.vertex_seq()[m]).len()
                    <= best_deg,
            found ==> forall|m: int|
                0 <= m < best && #[trigger] colors@[m] == -1 ==> g.nbrs(
                    g.vertex_seq()[m],
                ).len() < best_deg,
        decreases n - i,
    {
        if colors[i] == -1 {
            let d = g.nbrs_at(i).len();
            if !found || d > best_deg {
                best = i;
                best_deg = d;
                found = true;
            }
        }
        i = i + 1;
    }
    proof {
        if !found {
            let j = choose|j: int| 0 <= j < colors@.len() && colors@[j] == -1;
            assert(colors@[j] != -1);
        }
    }
    best
}

/// A chain of cascade moves stays a chain when one more move is appended.
proof fn lemma_chain_push(g: Graph, states: Seq<CascadeState>, s: CascadeState)
    requires
        states.len() >= 1,
        cascade_chain_ok(g, states),
        cascade_step(g, states.last(), s),
    ensures
        cascade_chain_ok(g, states.push(s)),
{
    let s2 = states.push(s);
    assert forall|t: int| 0 <= t < s2.len() - 1 implies cascade_step(g, s2[t], #[trigger] s2[t
        + 1]) by {
        if t < states.len() - 1 {
            assert(cascade_step(g, states[t], states[t + 1]));
            assert(s2[t] == states[t] && s2[t + 1] == states[t + 1]);
        } else {
            assert(s2[t] == states.last() && s2[t + 1] == s);
        }
    }
}

/// Walks the neighbor list of the already-colored vertex at `vi` in order
/// and recursively colors every neighbor still uncolored when reached: a
/// depth-first cascade of coloring steps. The ghost chain of cascade
/// snapshots is extended move by move, and the frame for `vi` — on top of
/// the stack on entry — is popped on exit.
fn rlf_color(g: &Graph, vi: usize, colors: &mut Vec<i32>, states_in: Ghost<Seq<CascadeState>>)
    -> (states_out: Ghost<Seq<CascadeState>>)
    requires
        g.wf(),
        degrees_fit(*g),
        coloring_inv(*g, old(colors)@),
        vi < old(colors)@.len(),
        old(colors)@[vi as int] != -1,
        states_in@.len() >= 1,
        cascade_chain_ok(*g, states_in@),
        states_in@.last().cs == old(colors)@,
        states_in@.last().stack.len() >= 1,
        states_in@.last().stack.last() == (vi as int, 0int),
    ensures
        final(colors)@.len() == old(colors)@.len(),
        coloring_inv(*g, final(colors)@),
        forall|j: int|
            0 <= j < old(colors)@.len() && #[trigger] old(colors)@[j] != -1
                ==> final(colors)@[j] == old(colors)@[j],
        uncolored_count(final(colors)@) <= uncolored_count(old(colors)@),
        states_out@.len() >= 1,
        cascade_chain_ok(*g, states_out@),
        states_out@[0] == states_in@[0],
        states_out@.last().cs == final(colors)@,
        states_out@.last().stack == states_in@.last().stack.drop_last(),
    decreases uncolored_count(old(colors)@),
{
    let ghost c_in = colors@;
    let ghost stack_in = states_in@.last().stack;
    let ghost mut states = states_in@;
    let nlist = g.nbrs_at(vi);
    let deg = nlist.len();
    proof {
        assert(stack_in.update(stack_in.len() - 1, (vi as int, 0int)) =~= stack_in);
    }
    let mut k: usize = 0;
    while k < deg
        invariant
            g.wf(),
            degrees_fit(*g),
            coloring_inv(*g, colors@),
            c_in == old(colors)@,
            colors@.len() == c_in.len(),
            vi < colors@.len(),
            colors@[vi as int] != -1,
            nlist@ == g.nbrs(g.vertex_seq()[vi as int]),
            deg == nlist@.len(),
            k <= deg,
            forall|j: int|
                0 <= j < c_in.len() && #[trigger] c_in[j] != -1 ==> colors@[j] == c_in[j],
            uncolored_count(colors@) <= uncolored_count(c_in),
            stack_in == states_in@.last().stack,
            stack_in.len() >= 1,
            states.len() >= 1,
            cascade_chain_ok(*g, states),
            states[0] == states_in@[0],
            states.last().cs == colors@,
            states.last().stack == stack_in.update(stack_in.len() - 1, (vi as int, k as int)),
        decreases deg - k,
    {
        let w = nlist[k];
        proof {
            assert(g.nbrs(g.vertex_seq()[vi as int]).contains(w)) by {
                assert(g.nbrs(g.vertex_seq()[vi as int])[k as int] == w);
            }
            g.lemma_nbr_is_vertex(g.vertex_seq()[vi as int], w);
        }
        match g.find_index(w) {
            Some(j) => {
                let ghost stack_cur = states.last().stack;
                let ghost advanced = stack_cur.update(
                    stack_cur.len() - 1,
                    (vi as int, k as int + 1),
                );
                proof {
                    assert(advanced =~= stack_in.update(
                        stack_in.len() - 1,
                        (vi as int, k as int + 1),
                    ));
                }
                if colors[j] == -1 {
                    let ghost c_pre = colors@;
                    color_vertex(g, colors, j);
                    proof {
                        lemma_uncolored_update(c_pre, j as int, colors@[j as int]);
                        let s_new = CascadeState {
                            cs: colors@,
                            stack: advanced.push((j as int, 0int)),
                        };
                        assert(cascade_step(*g, states.last(), s_new)) by {
                            assert(s_new.cs =~= c_pre.update(j as int, s_new.cs[j as int]));
                        }
                        lemma_chain_push(*g, states, s_new);
                        states = states.push(s_new);
                    }
                    let states2 = rlf_color(g, j, colors, Ghost(states));
                    proof {
                        states = states2@;
                        assert(states.last().stack =~= advanced);
                        assert forall|m: int|
                            0 <= m < c_in.len() && #[trigger] c_in[m] != -1
                            implies colors@[m] == c_in[m] by {
                            assert(c_pre[m] == c_in[m]);
                        }
                    }
                } else {
                    proof {
                        let s_new = CascadeState { cs: colors@, stack: advanced };
                        assert(cascade_step(*g, states.last(), s_new));
                        lemma_chain_push(*g, states, s_new);
                        states = states.push(s_new);
                    }
                }
            },
            None => {
                proof {
                    assert(false);
                }
            },
        }
        k = k + 1;
    }
    proof {
        let s_new = CascadeState { cs: colors@, stack: states.last().stack.drop_last() };
        assert(cascade_step(*g, states.last(), s_new));
        lemma_chain_push(*g, states, s_new);
        states = states.push(s_new);
        assert(states.last().stack =~= stack_in.drop_last());
    }
    Ghost(states)
}

impl Graph {
    /// Greedy coloring: a first pass marks every vertex uncolored, then a
    /// second pass walks the vertex sequence in order and gives each vertex
    /// the smallest color not yet used by a colored neighbor. Returns the
    /// assignment and the number of colors used.
    pub fn greedy_coloring(&self) -> (r: (Vec<(i32, i32)>, i32))
        requires
            self.wf(),
            degrees_fit(*self),
        ensures
            coloring_covers(*self, r.0@),
            coloring_proper(*self, r.0@),
            coloring_dense(r.0@, r.1),
            coloring_degree_bounded(*self, r.0@),
            coloring_locally_minimal(*self, r.0@),
            greedy_exact(*self, assigned_colors(r.0@)),
    {
        let n = self.len();
        let mut colors = init_uncolored(n);
        let mut vi: usize = 0;
        while vi < n
            invariant
                self.wf(),
                degrees_fit(*self),
                n == self.vertex_seq().len(),
                coloring_inv(*self, colors@),
                vi <= n,
                forall|j: int| 0 <= j < vi ==> #[trigger] colors@[j] != -1,
                forall|j: int| vi <= j < n ==> #[trigger] colors@[j] == -1,
                forall|i: int|
                    0 <= i < vi ==> is_smallest_outside(
                        colors@[i],
                        #[trigger] earlier_nbr_colors(*self, colors@, i),
                    ),
            decreases n - vi,
        {
            let ghost c_pre = colors@;
            color_vertex(self, &mut colors, vi);
            proof {
                assert(earlier_nbr_colors(*self, colors@, vi as int) =~= current_nbr_colors(
                    *self,
                    c_pre,
                    vi as int,
                )) by {
                    assert forall|c: i32|
                        earlier_nbr_colors(*self, colors@, vi as int).contains(c)
                        implies current_nbr_colors(*self, c_pre, vi as int).contains(c) by {
                        let j = choose|j: int|
                            0 <= j < vi && adjacent_at(*self, vi as int, j) && colors@[j] == c;
                        assert(c_pre[j] == c);
                        assert(c_pre[j] != -1);
                        assert(partial_nbr_has_color(*self, c_pre, vi as int, c));
                    }
                    assert forall|c: i32|
                        current_nbr_colors(*self, c_pre, vi as int).contains(c)
                        implies earlier_nbr_colors(*self, colors@, vi as int).contains(c) by {
                        let j = choose|j: int|
                            0 <= j < c_pre.len() && j != vi as int && adjacent_at(
                                *self,
                                vi as int,
                                j,
                            ) && c_pre[j] == c;
                        assert(c_pre[j] != -1);
                        assert(0 <= j < vi);
                        assert(colors@[j] == c);
                    }
                }
                assert forall|i: int| 0 <= i < vi + 1 implies is_smallest_outside(
                    colors@[i],
                    #[trigger] earlier_nbr_colors(*self, colors@, i),
                ) by {
                    if i < vi {
                        assert(earlier_nbr_colors(*self, colors@, i) =~= earlier_nbr_colors(
                            *self,
                            c_pre,
                            i,
                        )) by {
                            assert(forall|j: int| 0 <= j < i ==> colors@[j] == c_pre[j]);
                        }
                        assert(is_smallest_outside(c_pre[i], earlier_nbr_colors(*self, c_pre, i)));
                        assert(colors@[i] == c_pre[i]);
                    }
                }
            }
            vi = vi + 1;
        }
        let r = collect_coloring(self, &colors);
        proof {
            assert(assigned_colors(r.0@) =~= colors@);
        }
        r
    }

    /// Recursive-largest-first coloring: repeatedly seeds at the uncolored
    /// vertex of maximum degree (earliest in vertex order on a tie) and
    /// colors depth-first from there, cascading through uncolored
    /// neighbors, until every vertex is colored. Returns the assignment
    /// and the number of colors used.
    pub fn rlf_coloring(&self) -> (r: (Vec<(i32, i32)>, i32))
        requires
            self.wf(),
            degrees_fit(*self),
        ensures
            coloring_covers(*self, r.0@),
            coloring_proper(*self, r.0@),
            coloring_dense(r.0@, r.1),
            coloring_degree_bounded(*self, r.0@),
            coloring_locally_minimal(*self, r.0@),
            exists|states: Seq<CascadeState>|
                cascade_run_ok(*self, states, assigned_colors(r.0@)),
    {
        let n = self.len();
        let mut colors = init_uncolored(n);
        let mut remaining = count_uncolored(&colors);
        let ghost mut states: Seq<CascadeState> = seq![
            CascadeState { cs: colors@, stack: Seq::empty() },
        ];
        while remaining > 0
            invariant
                self.wf(),
                degrees_fit(*self),
                n == self.vertex_seq().len(),
                coloring_inv(*self, colors@),
                remaining == uncolored_count(colors@),
                states.len() >= 1,
                cascade_chain_ok(*self, states),
                states[0].cs.len() == n,
                forall|i: int| 0 <= i < n ==> #[trigger] states[0].cs[i] == -1,
                states[0].stack == Seq::<(int, int)>::empty(),
                states.last().cs == colors@,
                states.last().stack == Seq::<(int, int)>::empty(),
            decreases remaining,
        {
            proof {
                lemma_uncolored_zero(colors@);
            }
            let vi = pick_max_degree(self, &colors);
            let ghost c_pre = colors@;
            color_vertex(self, &mut colors, vi);
            proof {
                lemma_uncolored_update(c_pre, vi as int, colors@[vi as int]);
                let s_new = CascadeState { cs: colors@, stack: seq![(vi as int, 0int)] };
                assert(cascade_step(*self, states.last(), s_new)) by {
                    assert(s_new.cs =~= c_pre.update(vi as int, s_new.cs[vi as int]));
                    assert(max_degree_pick_ok(*self, c_pre, vi as int));
                }
                lemma_chain_push(*self, states, s_new);
                states = states.push(s_new);
            }
            let states2 = rlf_color(self, vi, &mut colors, Ghost(states));
            proof {
                states = states2@;
                assert(states.last().stack =~= Seq::<(int, int)>::empty());
            }
            remaining = count_uncolored(&colors);
        }
        proof {
            lemma_uncolored_zero(colors@);
        }
        let r = collect_coloring(self, &colors);
        proof {
            assert(assigned_colors(r.0@) =~= colors@);
            assert(cascade_run_ok(*self, states, assigned_colors(r.0@)));
        }
        r
    }

    /// The saturation degree of `vertex` under the working color vector:
    /// the number of distinct colors currently assigned to its neighbors.
    /// A vertex absent from the graph has no neighbors and saturation zero.
    pub fn saturation_degree(&self, vertex: i32, colors: &Vec<i32>) -> (r: i32)
        requires
            self.wf(),
            degrees_fit(*self),
            colors@.len() == self.vertex_seq().len(),
        ensures
            r >= 0,
            r == sat_set(*self, colors@, vertex).len(),
    {
        match self.neighbors(vertex) {
            None => {
                proof {
                    assert(sat_set(*self, colors@, vertex) =~= Set::<i32>::empty());
                }
                0
            },
            Some(nlist) => {
                let deg = nlist.len();
                let mut distinct: Vec<i32> = Vec::new();
                let mut k: usize = 0;
                while k < deg
                    invariant
                        self.wf(),
                        degrees_fit(*self),
                        colors@.len() == self.vertex_seq().len(),
                        nlist@ == self.nbrs(vertex),
                        deg == nlist@.len(),
                        k <= deg,
                        distinct@.no_duplicates(),
                        distinct@.len() <= k,
                        distinct@.to_set() == sat_prefix(*self, colors@, vertex, k as int),
                    decreases deg - k,
                {
                    let w = nlist[k];
                    proof {
                        assert(self.nbrs(vertex).contains(w)) by {
                            assert(self.nbrs(vertex)[k as int] == w);
                        }
                        self.lemma_nbr_is_vertex(vertex, w);
                    }
                    let ghost d0 = distinct@;
                    match self.find_index(w) {
                        Some(j) => {
                            let cw = colors[j];
                            proof {
                                assert(color_of(*self, colors@, w) == cw);
                            }
                            if cw != -1 && !vec_contains(&distinct, cw) {
                                distinct.push(cw);
                                proof {
                                    assert forall|a: int, b: int|
                                        0 <= a < distinct@.len() && 0 <= b < distinct@.len()
                                            && a != b implies distinct@[a] != distinct@[b] by {
                                        if a < d0.len() && b < d0.len() {
                                            assert(d0[a] != d0[b]);
                                        } else if a < d0.len() {
                                            assert(distinct@[b] == cw);
                                            if d0[a] == cw {
                                                assert(d0.contains(cw));
                                            }
                                        } else {
                                            assert(distinct@[a] == cw);
                                            if d0[b] == cw {
                                                assert(d0.contains(cw));
                                            }
                                        }
                                    }
                                }
                            }
                            proof {
                                assert forall|c: i32|
                                    sat_prefix(*self, colors@, vertex, (k + 1) as int).contains(
                                    c,
                                ) implies distinct@.to_set().contains(c) by {
                                    let m = choose|m: int|
                                        0 <= m < k + 1 && color_of(
                                            *self,
                                            colors@,
                                            self.nbrs(vertex)[m],
                                        ) == c;
                                    if m < k {
                                        assert(sat_prefix(*self, colors@, vertex, k as int)
                                            .contains(c));
                                        assert(d0.contains(c));
                                        if distinct@ != d0 {
                                            lemma_push_contains(d0, cw, c);
                                        }
                                    } else {
                                        assert(self.nbrs(vertex)[m] == w);
                                        assert(c == cw && cw != -1);
                                        if distinct@ != d0 {
                                            lemma_push_contains(d0, cw, c);
                                        } else {
                                            assert(d0.contains(cw));
                                        }
                                    }
                                }
                                assert forall|c: i32| distinct@.to_set().contains(c)
                                    implies sat_prefix(
                                    *self,
                                    colors@,
                                    vertex,
                                    (k + 1) as int,
                                ).contains(c) by {
                                    if distinct@ != d0 {
                                        lemma_push_contains(d0, cw, c);
                                    }
                                    if d0.contains(c) {
                                        assert(sat_prefix(*self, colors@, vertex, k as int)
                                            .contains(c));
                                        let m = choose|m: int|
                                            0 <= m < k && color_of(
                                                *self,
                                                colors@,
                                                self.nbrs(vertex)[m],
                                            ) == c;
                                        assert(0 <= m < k + 1);
                                    } else {
                                        assert(c == cw && cw != -1);
                                        assert(self.nbrs(vertex)[k as int] == w);
                                        assert(color_of(*self, colors@, self.nbrs(vertex)[k as int])
                                            == c);
                                    }
                                }
                                assert(distinct@.to_set() =~= sat_prefix(
                                    *self,
                                    colors@,
                                    vertex,
                                    (k + 1) as int,
                                ));
                            }
                        },
                        None => {
                            proof {
                                assert(false);
                            }
                        },
                    }
                    k = k + 1;
                }
                proof {
                    assert forall|c: i32|
                        sat_set(*self, colors@, vertex).contains(c) implies sat_prefix(
                        *self,
                        colors@,
                        vertex,
                        deg as int,
                    ).contains(c) by {
                        let w = choose|w: i32|
                            #[trigger] self.nbrs(vertex).contains(w) && color_of(
                                *self,
                                colors@,
                                w,
                            ) == c;
                        let m = choose|m: int|
                            0 <= m < self.nbrs(vertex).len() && self.nbrs(vertex)[m] == w;
                        assert(color_of(*self, colors@, self.nbrs(vertex)[m]) == c);
                    }
                    assert forall|c: i32|
                        sat_prefix(*self, colors@, vertex, deg as int).contains(c)
                        implies sat_set(*self, colors@, vertex).contains(c) by {
                        let m = choose|m: int|
                            0 <= m < deg && color_of(*self, colors@, self.nbrs(vertex)[m]) == c;
                        assert(self.nbrs(vertex).contains(self.nbrs(vertex)[m]));
                    }
                    assert(sat_set(*self, colors@, vertex) =~= sat_prefix(
                        *self,
                        colors@,
                        vertex,
                        deg as int,
                    ));
                    distinct@.unique_seq_to_set();
                    assert(self.nbrs(vertex).len() < 0x7fff_ffff);
                }
                distinct.len() as i32
            },
        }
    }

    /// DSatur coloring: repeatedly colors the uncolored vertex of highest
    /// saturation degree (the first such vertex in vertex order on a tie,
    /// the scan keeping a vertex only when its saturation strictly exceeds
    /// the running maximum) until every vertex is colored. Returns the
    /// assignment and the number of colors used.
    pub fn dsatur_coloring(&self) -> (r: (Vec<(i32, i32)>, i32))
        requires
            self.wf(),
            degrees_fit(*self),
        ensures
            coloring_covers(*self, r.0@),
            coloring_proper(*self, r.0@),
            coloring_dense(r.0@, r.1),
            coloring_degree_bounded(*self, r.0@),
            coloring_locally_minimal(*self, r.0@),
            exists|p: Seq<int>| dsatur_run_ok(*self, p, assigned_colors(r.0@)),
    {
        let n = self.len();
        let mut colors = init_uncolored(n);
        let mut remaining = count_uncolored(&colors);
        let ghost mut picks: Seq<int> = Seq::empty();
        proof {
            lemma_uncolored_all(colors@);
        }
        while remaining > 0
            invariant
                self.wf(),
                degrees_fit(*self),
                n == self.vertex_seq().len(),
                coloring_inv(*self, colors@),
                remaining == uncolored_count(colors@),
                picks.len() + remaining == n,
                forall|s: int| 0 <= s < picks.len() ==> 0 <= #[trigger] picks[s] < n,
                forall|i: int|
                    0 <= i < n ==> (#[trigger] colors@[i] != -1 <==> picked_before(
                        picks,
                        picks.len() as int,
                        i,
                    )),
                forall|t: int|
                    0 <= t < picks.len() ==> #[trigger] dsatur_step_ok(*self, picks, colors@, t),
            decreases remaining,
        {
            let mut best: usize = 0;
            let mut best_sat: i32 = -1;
            let mut found = false;
            let mut i: usize = 0;
            while i < n
                invariant
                    self.wf(),
                    degrees_fit(*self),
                    n == self.vertex_seq().len(),
                    coloring_inv(*self, colors@),
                    i <= n,
                    !found ==> best_sat == -1 && forall|m: int|
                        0 <= m < i ==> #[trigger] colors@[m] != -1,
                    found ==> best < i && colors@[best as int] == -1 && best_sat >= 0
                        && best_sat == sat_set(
                        *self,
                        colors@,
                        self.vertex_seq()[best as int],
                    ).len(),
                    found ==> forall|m: int|
                        0 <= m < i && #[trigger] colors@[m] == -1 ==> sat_set(
                            *self,
                            colors@,
                            self.vertex_seq()[m],
                        ).len() <= best_sat,
                    found ==> forall|m: int|
                        0 <= m < best && #[trigger] colors@[m] == -1 ==> sat_set(
                            *self,
                            colors@,
                            self.vertex_seq()[m],
                        ).len() < best_sat,
                decreases n - i,
            {
                if colors[i] == -1 {
                    let v = self.vertex_at(i);
                    let s = self.saturation_degree(v, &colors);
                    if s > best_sat {
                        best_sat = s;
                        best = i;
                        found = true;
                    }
                }
                i = i + 1;
            }
            proof {
                lemma_uncolored_zero(colors@);
                if !found {
                    assert(uncolored_count(colors@) == 0);
                }
            }
            let ghost c_pre = colors@;
            let ghost t = picks.len() as int;
            let ghost picks_old = picks;
            color_vertex(self, &mut colors, best);
            proof {
                assert(colors@ =~= c_pre.update(best as int, colors@[best as int]));
                lemma_uncolored_update(c_pre, best as int, colors@[best as int]);
                picks = picks.push(best as int);
                assert(picks[t] == best as int);
                assert(dsatur_pick_ok(*self, c_pre, best as int));
                assert forall|t2: int, i: int|
                    0 <= t2 <= t && 0 <= i < n implies (picked_before(picks, t2, i)
                    <==> picked_before(picks_old, t2, i)) by {
                    if picked_before(picks, t2, i) {
                        let s = choose|s: int| 0 <= s < t2 && picks[s] == i;
                        assert(picks_old[s] == i);
                    }
                    if picked_before(picks_old, t2, i) {
                        let s = choose|s: int| 0 <= s < t2 && picks_old[s] == i;
                        assert(picks[s] == i);
                    }
                }
                assert forall|t2: int, i: int|
                    0 <= t2 <= t && 0 <= i < n && picked_before(picks_old, t2, i)
                    implies c_pre[i] != -1 && i != best as int && colors@[i] == c_pre[i] by {
                    let s = choose|s: int| 0 <= s < t2 && picks_old[s] == i;
                    assert(picked_before(picks_old, t, i));
                }
                assert forall|t2: int| 0 <= t2 <= t implies dsatur_state(picks, colors@, t2)
                    =~= dsatur_state(picks_old, c_pre, t2) by {
                    assert forall|i: int| 0 <= i < n implies dsatur_state(picks, colors@, t2)[i]
                        == dsatur_state(picks_old, c_pre, t2)[i] by {
                        if picked_before(picks_old, t2, i) {
                            assert(colors@[i] == c_pre[i]);
                        }
                    }
                }
                assert(dsatur_state(picks, colors@, t) =~= c_pre) by {
                    assert forall|i: int| 0 <= i < n implies dsatur_state(picks_old, c_pre, t)[i]
                        == c_pre[i] by {
                        if c_pre[i] != -1 {
                            assert(picked_before(picks_old, t, i));
                        } else {
                            assert(!picked_before(picks_old, t, i));
                        }
                    }
                }
                assert(dsatur_step_ok(*self, picks, colors@, t)) by {
                    assert(dsatur_state(picks, colors@, t) == c_pre);
                    assert(is_smallest_outside(
                        colors@[best as int],
                        current_nbr_colors(*self, c_pre, best as int),
                    ));
                }
                assert forall|t2: int| 0 <= t2 < picks.len() implies #[trigger] dsatur_step_ok(
                    *self,
                    picks,
                    colors@,
                    t2,
                ) by {
                    if t2 < t {
                        assert(dsatur_step_ok(*self, picks_old, c_pre, t2));
                        assert(dsatur_state(picks, colors@, t2) == dsatur_state(
                            picks_old,
                            c_pre,
                            t2,
                        ));
                        assert(picks[t2] == picks_old[t2]);
                        assert(picked_before(picks_old, t2 + 1, picks_old[t2]));
                        assert(colors@[picks[t2]] == c_pre[picks_old[t2]]);
                    }
                }
                assert forall|i: int| 0 <= i < n implies (#[trigger] colors@[i] != -1
                    <==> picked_before(picks, picks.len() as int, i)) by {
                    if colors@[i] != -1 {
                        if i == best as int {
                            assert(picks[t] == i);
                            assert(picked_before(picks, picks.len() as int, i));
                        } else {
                            assert(c_pre[i] != -1);
                            assert(picked_before(picks_old, t, i));
                            let s = choose|s: int| 0 <= s < t && picks_old[s] == i;
                            assert(picks[s] == i);
                        }
                    }
                    if picked_before(picks, picks.len() as int, i) {
                        let s = choose|s: int| 0 <= s < picks.len() && picks[s] == i;
                        if s < t {
                            assert(picks_old[s] == i);
                            assert(picked_before(picks_old, t, i));
                            assert(c_pre[i] != -1);
                        } else {
                            assert(i == best as int);
                        }
                    }
                }
            }
            remaining = remaining - 1;
        }
        proof {
            lemma_uncolored_zero(colors@);
        }
        let r = collect_coloring(self, &colors);
        proof {
            assert(assigned_colors(r.0@) =~= colors@);
            assert(dsatur_run_ok(*self, picks, assigned_colors(r.0@))) by {
                assert forall|i: int| 0 <= i < colors@.len() implies picks.contains(i) by {
                    assert(colors@[i] != -1);
                    assert(picked_before(picks, picks.len() as int, i));
                    let s = choose|s: int| 0 <= s < picks.len() && picks[s] == i;
                    assert(picks[s] == i);
                }
            }
        }
        r
    }
}

} // verus!
