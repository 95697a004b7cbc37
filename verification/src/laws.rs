//! The library's laws, stated over the specification model and proved once
//! and for all.  The executable [`crate::solver::step`] and
//! [`crate::solver::solve_fully`] are pinned to [`spec_step`] and
//! [`spec_solve`] by their contracts, so each law below holds of every run.

use vstd::prelude::*;
use crate::grid::GridModel;
use crate::grid::lemma_count_bounded;
use crate::tiles::Catalog;
use crate::tiles::Side;
use crate::solver::allowed_from;
use crate::solver::dom_narrows;
use crate::solver::dx;
use crate::solver::dy;
use crate::solver::grid_narrows;
use crate::solver::lemma_domain_size;
use crate::solver::lemma_narrowed_membership;
use crate::solver::lemma_narrowed_props;
use crate::solver::lemma_narrows_trans;
use crate::solver::lemma_pick_complete;
use crate::solver::lemma_pick_in_bucket;
use crate::solver::lemma_step_narrows;
use crate::solver::lemma_weights_min;
use crate::solver::narrowed_dom;
use crate::solver::spec_pick;
use crate::solver::spec_solve;
use crate::solver::spec_step;
use crate::solver::spec_visit;
use crate::solver::spec_weights;
use crate::solver::sum_of;

verus! {

/// Law (monotonic shrink): one step never grows any cell's domain — every
/// domain keeps at most the candidates it had, and its size never
/// increases.  [`lemma_narrows_trans`] extends this to any sequence of
/// steps, since only an explicit reset ever rewrites domains wholesale.
pub proof fn lemma_monotonic_shrink(g: GridModel, cat: Catalog, s: u64)
    requires
        g.dims_ok(),
    ensures
        grid_narrows(spec_step(g, cat, s).0, g),
        forall|k: int|
            0 <= k < g.cells.len() ==> #[trigger] spec_step(g, cat, s).0.cells[k].len()
                <= g.cells[k].len(),
        forall|k: int, id: Seq<char>|
            0 <= k < g.cells.len() && #[trigger] spec_step(g, cat, s).0.cells[k].contains(id)
                ==> g.cells[k].contains(id),
{
    lemma_step_narrows(g, cat, s);
    assert forall|k: int|
        0 <= k < g.cells.len() implies #[trigger] spec_step(g, cat, s).0.cells[k].len()
        <= g.cells[k].len() by {
        assert(dom_narrows(spec_step(g, cat, s).0.cells[k], g.cells[k]));
    }
    assert forall|k: int, id: Seq<char>|
        0 <= k < g.cells.len() && #[trigger] spec_step(g, cat, s).0.cells[k].contains(
            id,
        ) implies g.cells[k].contains(id) by {
        assert(dom_narrows(spec_step(g, cat, s).0.cells[k], g.cells[k]));
    }
}

/// Law (shrink composes): two consecutive steps still only narrow the
/// grid; with [`lemma_narrows_trans`] this extends to any run length.
pub proof fn lemma_two_steps_shrink(g: GridModel, cat: Catalog, s: u64)
    requires
        g.dims_ok(),
    ensures
        grid_narrows(
            spec_step(spec_step(g, cat, s).0, cat, spec_step(g, cat, s).1).0,
            g,
        ),
{
    lemma_step_narrows(g, cat, s);
    let g1 = spec_step(g, cat, s).0;
    let s1 = spec_step(g, cat, s).1;
    lemma_step_narrows(g1, cat, s1);
    lemma_narrows_trans(spec_step(g1, cat, s1).0, g1, g);
}

/// Law (termination): every progressing step strictly lowers the total
/// number of candidates left on the grid, and that total starts no higher
/// than `width * height * K` for a catalog of `K` identifiers — so a full
/// solve finishes within `width * height * K` progressing steps.
pub proof fn lemma_termination(g: GridModel, cat: Catalog, s: u64)
    requires
        cat.wf(),
        g.wf_for(cat),
    ensures
        spec_step(g, cat, s).2 ==> spec_step(g, cat, s).0.count_total() < g.count_total(),
        g.count_total() <= g.width * g.height * cat.size(),
{
    lemma_step_narrows(g, cat, s);
    assert forall|k: int| 0 <= k < g.cells.len() implies #[trigger] g.cells[k].len()
        <= cat.size() by {
        assert(GridModel::domain_ok(g.cells[k], cat));
        lemma_domain_size(cat, g.cells[k]);
    }
    lemma_count_bounded(g.cells, cat.size());
}

/// Law (single-choice stability): a cell already holding at most one
/// candidate is left exactly as it is by a step — collapse only ever picks
/// an undecided cell, and propagation only ever visits undecided
/// neighbors.
pub proof fn lemma_single_choice_stability(g: GridModel, cat: Catalog, s: u64, k: int)
    requires
        g.dims_ok(),
        0 <= k < g.cells.len(),
        g.cells[k].len() <= 1,
    ensures
        spec_step(g, cat, s).0.cells[k] == g.cells[k],
{
    lemma_step_narrows(g, cat, s);
    assert(dom_narrows(spec_step(g, cat, s).0.cells[k], g.cells[k]));
}

/// Law (weighted draw, bucket form): candidate weights partition
/// `[0, w1 + .. + wn)` into consecutive buckets of widths `w1 .. wn`, and a
/// draw picks exactly the candidate whose bucket it falls in — so over
/// uniform draws each candidate carries selection mass `wi` out of the
/// total.  A candidate with weight zero is never picked; the solver's
/// weights are in fact always at least one ([`lemma_weights_min`]), so no
/// candidate's probability is ever literally zero.
pub proof fn lemma_weighted_draw(ws: Seq<int>, r: int)
    requires
        forall|j: int| 0 <= j < ws.len() ==> #[trigger] ws[j] >= 0,
        0 <= r < sum_of(ws),
    ensures
        0 <= spec_pick(ws, r) < ws.len(),
        sum_of(ws.take(spec_pick(ws, r))) <= r < sum_of(ws.take(spec_pick(ws, r))) + ws[spec_pick(
            ws,
            r,
        )],
        ws[spec_pick(ws, r)] > 0,
{
    lemma_pick_in_bucket(ws, r);
}

/// Law (weighted draw, completeness): every candidate really can be drawn:
/// the draw at its bucket's lower bound picks it, and that draw lies
/// inside the total.
pub proof fn lemma_weighted_draw_complete(ws: Seq<int>, i: int)
    requires
        forall|j: int| 0 <= j < ws.len() ==> #[trigger] ws[j] >= 1,
        0 <= i < ws.len(),
    ensures
        0 <= sum_of(ws.take(i)) < sum_of(ws),
        spec_pick(ws, sum_of(ws.take(i))) == i,
{
    lemma_pick_complete(ws, i);
}

/// Law (every solver weight is positive): whatever the preference scores,
/// the scaled selection weights the solver draws from are all at least one.
pub proof fn lemma_solver_weights_positive(
    g: GridModel,
    cat: Catalog,
    x: int,
    y: int,
    dom: Seq<Seq<char>>,
)
    ensures
        spec_weights(g, cat, x, y, dom).len() == dom.len(),
        forall|j: int| 0 <= j < dom.len() ==> #[trigger] spec_weights(g, cat, x, y, dom)[j] >= 1,
{
    lemma_weights_min(g, cat, x, y, dom);
}

/// Law (propagation correctness): one visit of a neighbor, taken by
/// itself, reduces that neighbor's domain to exactly the intersection of
/// its prior domain with the union of the source domain's
/// permitted-adjacency sets for that side — and modifies no other cell.
pub proof fn lemma_propagation_exact(g: GridModel, cat: Catalog, x: int, y: int, side: Side)
    requires
        g.dims_ok(),
        g.in_bounds(x + dx(side), y + dy(side)),
        g.at(x + dx(side), y + dy(side)).len() > 1,
    ensures
        ({
            let nx = x + dx(side);
            let ny = y + dy(side);
            let g1 = spec_visit(g, cat, x, y, side, 0);
            &&& g1.at(nx, ny) == narrowed_dom(cat, g.at(x, y), side, g.at(nx, ny))
            &&& forall|id: Seq<char>|
                g1.at(nx, ny).contains(id) <==> g.at(nx, ny).contains(id) && allowed_from(
                    cat,
                    g.at(x, y),
                    side,
                    id,
                )
            &&& forall|k: int|
                0 <= k < g.cells.len() && k != g.idx(nx, ny) ==> g1.cells[k] == g.cells[k]
        }),
{
    let nx = x + dx(side);
    let ny = y + dy(side);
    assert(0 <= g.idx(nx, ny) < g.cells.len()) by {
        assert(0 <= ny * g.width + nx < g.cells.len()) by (nonlinear_arith)
            requires
                0 <= nx < g.width,
                0 <= ny < g.height,
                g.cells.len() >= g.width * g.height,
        ;
    }
    lemma_narrowed_props(cat, g.at(x, y), side, g.at(nx, ny));
    assert forall|id: Seq<char>|
        spec_visit(g, cat, x, y, side, 0).at(nx, ny).contains(id) <==> g.at(nx, ny).contains(id)
            && allowed_from(cat, g.at(x, y), side, id) by {
        lemma_narrowed_membership(cat, g.at(x, y), side, g.at(nx, ny), id);
    }
}

/// Law (determinism under fixed seed): one step, and a whole solve, are
/// mathematical functions of the grid, the catalog and the random state
/// alone — two runs from equal inputs end in equal grids and equal random
/// states.  The executable operations return exactly these functions'
/// values, so this holds of real runs, not just of the model.
pub proof fn lemma_determinism(
    g1: GridModel,
    g2: GridModel,
    cat: Catalog,
    s1: u64,
    s2: u64,
    fuel: nat,
)
    requires
        g1 == g2,
        s1 == s2,
    ensures
        spec_step(g1, cat, s1) == spec_step(g2, cat, s2),
        spec_solve(g1, cat, s1, fuel) == spec_solve(g2, cat, s2, fuel),
{
}

} // verus!
