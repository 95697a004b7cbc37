//! The grid solver: one collapse-and-propagate cycle per [`step`], repeated
//! by [`solve_fully`] until no cell has more than one candidate.
//!
//! Every operation's result is pinned to a specification-level function of
//! the starting grid, the catalog and the random state, so a run is a
//! mathematical function of its inputs: two runs from equal inputs end in
//! equal grids.

use vstd::prelude::*;
use vstd::set_lib::lemma_len_subset;
use crate::grid::Grid;
use crate::grid::GridModel;
use crate::grid::lemma_count_at_least;
use crate::grid::lemma_count_update;
use crate::grid::lemma_grid_index;
use crate::tiles::Catalog;
use crate::tiles::Side;
use crate::tiles::ids_of;
use crate::rng::RandomSource;
use crate::rng::draw_of;
use crate::rng::next_state;

verus! {

/// Gain factor applied to raw preference scores before the weighted draw.
pub const GAIN: i64 = 50;

/// Upper bound on one candidate's selection weight: comfortably above the
/// gain times four weight-table entries.
pub const W_MAX: i64 = 549755813888;

/// Horizontal offset of the neighbor in direction `side`.
pub open spec fn dx(side: Side) -> int {
    match side {
        Side::Left => -1,
        Side::Right => 1,
        _ => 0,
    }
}

/// Vertical offset of the neighbor in direction `side`.
pub open spec fn dy(side: Side) -> int {
    match side {
        Side::Top => -1,
        Side::Bottom => 1,
        _ => 0,
    }
}

/// True when some candidate still in the source domain permits `id` as its
/// neighbor in direction `side`.
pub open spec fn allowed_from(
    cat: Catalog,
    src: Seq<Seq<char>>,
    side: Side,
    id: Seq<char>,
) -> bool {
    exists|k: int| 0 <= k < src.len() && cat.spec_rule(#[trigger] src[k]).allows(side, id)
}

/// The neighbor domain narrowed by a source domain: exactly those of its
/// candidates, in their old order, that some source candidate permits on
/// `side` — the intersection of the neighbor's domain with the union of the
/// source candidates' permitted-adjacency sets.
pub open spec fn narrowed_dom(
    cat: Catalog,
    src: Seq<Seq<char>>,
    side: Side,
    dom: Seq<Seq<char>>,
) -> Seq<Seq<char>>
    decreases dom.len(),
{
    if dom.len() == 0 {
        Seq::empty()
    } else {
        let rest = narrowed_dom(cat, src, side, dom.drop_last());
        if allowed_from(cat, src, side, dom.last()) {
            rest.push(dom.last())
        } else {
            rest
        }
    }
}

/// Narrowing never grows a domain.
pub proof fn lemma_narrowed_len(cat: Catalog, src: Seq<Seq<char>>, side: Side, dom: Seq<Seq<char>>)
    ensures
        narrowed_dom(cat, src, side, dom).len() <= dom.len(),
    decreases dom.len(),
{
    if dom.len() > 0 {
        lemma_narrowed_len(cat, src, side, dom.drop_last());
    }
}

/// Narrowing keeps exactly the candidates the source domain permits: the
/// result holds `id` if and only if the old domain held it and some source
/// candidate allows it on `side`.
pub proof fn lemma_narrowed_membership(
    cat: Catalog,
    src: Seq<Seq<char>>,
    side: Side,
    dom: Seq<Seq<char>>,
    id: Seq<char>,
)
    ensures
        narrowed_dom(cat, src, side, dom).contains(id) <==> dom.contains(id) && allowed_from(
            cat,
            src,
            side,
            id,
        ),
    decreases dom.len(),
{
    if dom.len() > 0 {
        let prefix = dom.drop_last();
        let rest = narrowed_dom(cat, src, side, prefix);
        let nar = narrowed_dom(cat, src, side, dom);
        lemma_narrowed_membership(cat, src, side, prefix, id);
        if nar.contains(id) {
            let w = choose|i: int| 0 <= i < nar.len() && nar[i] == id;
            if allowed_from(cat, src, side, dom.last()) {
                if w == rest.len() {
                    assert(id == dom.last());
                    assert(dom[dom.len() - 1] == id);
                } else {
                    assert(rest[w] == id);
                    assert(rest.contains(id));
                    let u = choose|i: int| 0 <= i < prefix.len() && prefix[i] == id;
                    assert(dom[u] == id);
                }
            } else {
                assert(rest[w] == id);
                assert(rest.contains(id));
                let u = choose|i: int| 0 <= i < prefix.len() && prefix[i] == id;
                assert(dom[u] == id);
            }
            assert(dom.contains(id) && allowed_from(cat, src, side, id));
        }
        if dom.contains(id) && allowed_from(cat, src, side, id) {
            let w = choose|i: int| 0 <= i < dom.len() && dom[i] == id;
            if w < dom.len() - 1 {
                assert(prefix[w] == id);
                assert(prefix.contains(id));
                assert(rest.contains(id));
                let u = choose|i: int| 0 <= i < rest.len() && rest[i] == id;
                if allowed_from(cat, src, side, dom.last()) {
                    assert(nar[u] == id);
                } else {
                    assert(nar[u] == id);
                }
            } else {
                assert(id == dom.last());
                assert(nar[nar.len() - 1] == id);
            }
            assert(nar.contains(id));
        }
    }
}

/// Narrowing a duplicate-free domain leaves it duplicate-free.
pub proof fn lemma_narrowed_nodup(
    cat: Catalog,
    src: Seq<Seq<char>>,
    side: Side,
    dom: Seq<Seq<char>>,
)
    requires
        dom.no_duplicates(),
    ensures
        narrowed_dom(cat, src, side, dom).no_duplicates(),
    decreases dom.len(),
{
    if dom.len() > 0 {
        let prefix = dom.drop_last();
        let rest = narrowed_dom(cat, src, side, prefix);
        let nar = narrowed_dom(cat, src, side, dom);
        assert(prefix.no_duplicates()) by {
            assert forall|i: int, j: int|
                0 <= i < j < prefix.len() implies prefix[i] != prefix[j] by {
                assert(dom[i] == prefix[i] && dom[j] == prefix[j]);
            }
        }
        lemma_narrowed_nodup(cat, src, side, prefix);
        if allowed_from(cat, src, side, dom.last()) {
            assert(!rest.contains(dom.last())) by {
                if rest.contains(dom.last()) {
                    lemma_narrowed_membership(cat, src, side, prefix, dom.last());
                    let u = choose|i: int| 0 <= i < prefix.len() && prefix[i] == dom.last();
                    assert(dom[u] == dom[dom.len() - 1]);
                }
            }
            assert(nar.no_duplicates()) by {
                assert forall|i: int, j: int| 0 <= i < j < nar.len() implies nar[i] != nar[j] by {
                    if j < rest.len() {
                        assert(nar[i] == rest[i] && nar[j] == rest[j]);
                    } else {
                        assert(nar[j] == dom.last());
                        assert(nar[i] == rest[i]);
                        assert(rest.contains(rest[i]));
                    }
                }
            }
        }
    }
}

/// A narrowing that kept every candidate is the identity.
pub proof fn lemma_narrowed_full(
    cat: Catalog,
    src: Seq<Seq<char>>,
    side: Side,
    dom: Seq<Seq<char>>,
)
    requires
        narrowed_dom(cat, src, side, dom).len() == dom.len(),
    ensures
        narrowed_dom(cat, src, side, dom) == dom,
    decreases dom.len(),
{
    if dom.len() > 0 {
        let prefix = dom.drop_last();
        let rest = narrowed_dom(cat, src, side, prefix);
        lemma_narrowed_len(cat, src, side, prefix);
        if allowed_from(cat, src, side, dom.last()) {
            lemma_narrowed_full(cat, src, side, prefix);
            assert(prefix.push(dom.last()) =~= dom);
        } else {
            assert(narrowed_dom(cat, src, side, dom).len() <= dom.len() - 1);
        }
    }
}

/// Bundles the narrowing facts the solver needs at every call site.
pub proof fn lemma_narrowed_props(
    cat: Catalog,
    src: Seq<Seq<char>>,
    side: Side,
    dom: Seq<Seq<char>>,
)
    ensures
        narrowed_dom(cat, src, side, dom).len() <= dom.len(),
        forall|id: Seq<char>|
            narrowed_dom(cat, src, side, dom).contains(id) <==> dom.contains(id) && allowed_from(
                cat,
                src,
                side,
                id,
            ),
        dom.no_duplicates() ==> narrowed_dom(cat, src, side, dom).no_duplicates(),
        narrowed_dom(cat, src, side, dom).len() == dom.len() ==> narrowed_dom(
            cat,
            src,
            side,
            dom,
        ) == dom,
{
    lemma_narrowed_len(cat, src, side, dom);
    assert forall|id: Seq<char>|
        narrowed_dom(cat, src, side, dom).contains(id) <==> dom.contains(id) && allowed_from(
            cat,
            src,
            side,
            id,
        ) by {
        lemma_narrowed_membership(cat, src, side, dom, id);
    }
    if dom.no_duplicates() {
        lemma_narrowed_nodup(cat, src, side, dom);
    }
    if narrowed_dom(cat, src, side, dom).len() == dom.len() {
        lemma_narrowed_full(cat, src, side, dom);
    }
}

/// One visit of the neighbor in direction `side` of cell `(x, y)`: if that
/// neighbor exists and is still undecided, its domain is narrowed by the
/// cell's domain, and when it actually shrank the wave recurses from it.
/// `fuel` only bounds the recursion depth; any fuel at or above the grid's
/// candidate total gives the same result.
pub open spec fn spec_visit(
    g: GridModel,
    cat: Catalog,
    x: int,
    y: int,
    side: Side,
    fuel: nat,
) -> GridModel
    decreases fuel, 0int,
{
    let nx = x + dx(side);
    let ny = y + dy(side);
    if !g.in_bounds(nx, ny) {
        g
    } else if g.at(nx, ny).len() <= 1 {
        g
    } else {
        let nd = narrowed_dom(cat, g.at(x, y), side, g.at(nx, ny));
        let g1 = g.with_cell(g.idx(nx, ny), nd);
        if nd.len() < g.at(nx, ny).len() && fuel > 0 {
            spec_propagate(g1, cat, nx, ny, (fuel - 1) as nat)
        } else {
            g1
        }
    }
}

/// Constraint propagation from cell `(x, y)`: its four orthogonal neighbors
/// are visited in the order left, right, top, bottom.
pub open spec fn spec_propagate(g: GridModel, cat: Catalog, x: int, y: int, fuel: nat) -> GridModel
    decreases fuel, 1int,
{
    let g1 = spec_visit(g, cat, x, y, Side::Left, fuel);
    let g2 = spec_visit(g1, cat, x, y, Side::Right, fuel);
    let g3 = spec_visit(g2, cat, x, y, Side::Top, fuel);
    spec_visit(g3, cat, x, y, Side::Bottom, fuel)
}

/// True when every identifier of `d` resolves in `cat`.
pub open spec fn all_known(cat: Catalog, d: Seq<Seq<char>>) -> bool {
    forall|j: int| 0 <= j < d.len() ==> cat.contains_id(#[trigger] d[j])
}

/// True when `id` occurs in the identifier list `v`.
fn vec_contains(v: &Vec<String>, id: &String) -> (b: bool)
    ensures
        b == ids_of(v@).contains(id@),
{
    let n = v.len();
    for j in 0..n
        invariant
            n == v@.len(),
            forall|i: int| 0 <= i < j ==> v@[i]@ != id@,
    {
        if v[j] == *id {
            proof {
                assert(ids_of(v@)[j as int] == id@);
            }
            return true;
        }
    }
    proof {
        assert forall|i: int| 0 <= i < v@.len() implies ids_of(v@)[i] != id@ by {
            assert(ids_of(v@)[i] == v@[i]@);
        }
    }
    false
}

/// True when some candidate in `src` permits `id` on `side`.
fn allowed_exec(cat: &Catalog, src: &Vec<String>, side: Side, id: &String) -> (b: bool)
    requires
        all_known(*cat, ids_of(src@)),
    ensures
        b == allowed_from(*cat, ids_of(src@), side, id@),
{
    let n = src.len();
    for k in 0..n
        invariant
            n == src@.len(),
            all_known(*cat, ids_of(src@)),
            forall|i: int|
                0 <= i < k ==> !cat.spec_rule(#[trigger] ids_of(src@)[i]).allows(side, id@),
    {
        proof {
            assert(ids_of(src@)[k as int] == src@[k as int]@);
        }
        let rule = cat.rule(&src[k]);
        if vec_contains(rule.friends(side), id) {
            return true;
        }
    }
    false
}

/// A fresh copy of an identifier list.
fn clone_ids(v: &Vec<String>) -> (r: Vec<String>)
    ensures
        ids_of(r@) == ids_of(v@),
        r@.len() == v@.len(),
{
    let mut out: Vec<String> = Vec::new();
    let n = v.len();
    for j in 0..n
        invariant
            n == v@.len(),
            out@.len() == j,
            forall|i: int| 0 <= i < j ==> out@[i]@ == v@[i]@,
    {
        out.push(v[j].clone());
    }
    proof {
        assert(ids_of(out@) =~= ids_of(v@));
    }
    out
}

/// The domain at `(nx, ny)` narrowed by the domain at `(x, y)`.
fn narrowed_vec(cat: &Catalog, src: &Vec<String>, side: Side, dom: &Vec<String>) -> (r: Vec<
    String,
>)
    requires
        all_known(*cat, ids_of(src@)),
    ensures
        ids_of(r@) == narrowed_dom(*cat, ids_of(src@), side, ids_of(dom@)),
{
    let mut out: Vec<String> = Vec::new();
    let n = dom.len();
    let ghost s = ids_of(src@);
    let ghost d = ids_of(dom@);
    for j in 0..n
        invariant
            n == dom@.len(),
            s == ids_of(src@),
            d == ids_of(dom@),
            all_known(*cat, ids_of(src@)),
            ids_of(out@) == narrowed_dom(*cat, s, side, d.take(j as int)),
    {
        proof {
            assert(d.take(j + 1).drop_last() =~= d.take(j as int));
            assert(d.take(j + 1).last() == d[j as int]);
            assert(d[j as int] == dom@[j as int]@);
        }
        let ghost before = out@;
        if allowed_exec(cat, src, side, &dom[j]) {
            out.push(dom[j].clone());
            proof {
                assert(ids_of(out@) =~= ids_of(before).push(d[j as int]));
            }
        }
    }
    proof {
        assert(d.take(n as int) =~= d);
    }
    out
}

/// Visits the neighbor in direction `side` of `(x, y)`: narrows it when it
/// is present and undecided, recursing when its domain shrank.
fn visit(grid: &mut Grid, cat: &Catalog, x: usize, y: usize, side: Side)
    requires
        cat.wf(),
        old(grid)@.wf_for(*cat),
        old(grid)@.in_bounds(x as int, y as int),
    ensures
        final(grid)@.wf_for(*cat),
        final(grid)@.width == old(grid)@.width,
        final(grid)@.height == old(grid)@.height,
        final(grid)@.count_total() <= old(grid)@.count_total(),
        forall|fuel: nat|
            fuel >= old(grid)@.count_total() ==> final(grid)@ == spec_visit(
                old(grid)@,
                *cat,
                x as int,
                y as int,
                side,
                fuel,
            ),
    decreases old(grid)@.count_total(), 0int,
{
    let ghost g0 = grid@;
    let mut nx: usize = 0;
    let mut ny: usize = 0;
    let mut ok = false;
    match side {
        Side::Left => {
            if x > 0 {
                nx = x - 1;
                ny = y;
                ok = true;
            }
        },
        Side::Right => {
            if x + 1 < grid.width {
                nx = x + 1;
                ny = y;
                ok = true;
            }
        },
        Side::Top => {
            if y > 0 {
                nx = x;
                ny = y - 1;
                ok = true;
            }
        },
        Side::Bottom => {
            if y + 1 < grid.height {
                nx = x;
                ny = y + 1;
                ok = true;
            }
        },
    }
    proof {
        assert(ok ==> nx == x + dx(side) && ny == y + dy(side) && g0.in_bounds(
            x + dx(side),
            y + dy(side),
        ));
        assert(!ok ==> !g0.in_bounds(x + dx(side), y + dy(side)));
    }
    if !ok {
        return ;
    }
    let old_len = grid.domain_len(nx, ny);
    if old_len <= 1 {
        return ;
    }
    proof {
        lemma_grid_index(*grid, x as int, y as int);
        assert(GridModel::domain_ok(g0.cells[g0.idx(x as int, y as int)], *cat));
        assert(all_known(*cat, g0.at(x as int, y as int)));
    }
    let nd = narrowed_vec(cat, grid.cell(x, y), side, grid.cell(nx, ny));
    let new_len = nd.len();
    let w = grid.width;
    let n = grid.len();
    proof {
        lemma_grid_index(*grid, nx as int, ny as int);
        assert(ny * w + nx < n);
        lemma_narrowed_props(*cat, g0.at(x as int, y as int), side, g0.at(nx as int, ny as int));
    }
    let nidx = ny * w + nx;
    let ghost k = nidx as int;
    grid.set_cell(nidx, nd);
    let ghost g1 = grid@;
    proof {
        // The write only shrank one domain, so well-formedness and the
        // candidate accounting carry over.
        assert(GridModel::domain_ok(g1.cells[k], *cat)) by {
            assert forall|j: int| 0 <= j < g1.cells[k].len() implies cat.contains_id(
                #[trigger] g1.cells[k][j],
            ) by {
                assert(g0.cells[k].contains(g1.cells[k][j]));
            }
        }
        assert(g1.wf_for(*cat)) by {
            assert forall|i: int| 0 <= i < g1.cells.len() implies GridModel::domain_ok(
                #[trigger] g1.cells[i],
                *cat,
            ) by {
                if i != k {
                    assert(g1.cells[i] == g0.cells[i]);
                }
            }
        }
        lemma_count_update(g0.cells, k, g1.cells[k]);
        assert(g1.count_total() == g0.count_total() - old_len + new_len);
    }
    if new_len < old_len {
        proof {
            lemma_count_at_least(g0.cells, k);
        }
        propagate(grid, cat, nx, ny);
        proof {
            assert forall|fuel: nat|
                fuel >= g0.count_total() implies grid@ == spec_visit(
                g0,
                *cat,
                x as int,
                y as int,
                side,
                fuel,
            ) by {
                assert(fuel - 1 >= g1.count_total());
                assert(grid@ == spec_propagate(g1, *cat, nx as int, ny as int, (fuel - 1) as nat));
            }
        }
    } else {
        proof {
            assert forall|fuel: nat|
                fuel >= g0.count_total() implies grid@ == spec_visit(
                g0,
                *cat,
                x as int,
                y as int,
                side,
                fuel,
            ) by {
                assert(new_len == old_len);
            }
        }
    }
}

/// The cell the next step collapses: scanning the first `k` cells in
/// row-major order, the first one with the strictly smallest domain among
/// those with more than one candidate.
pub open spec fn scan_best(g: GridModel, k: int) -> Option<int>
    decreases k,
{
    if k <= 0 {
        None
    } else {
        let prev = scan_best(g, k - 1);
        let l = g.cells[k - 1].len();
        if l > 1 && (prev is None || l < g.cells[prev->0].len()) {
            Some(k - 1)
        } else {
            prev
        }
    }
}

/// What the scan returns: nothing when no cell is undecided; otherwise an
/// undecided cell of minimal domain size, the first such cell in row-major
/// order.
pub proof fn lemma_scan_best(g: GridModel, k: int)
    requires
        0 <= k <= g.cells.len(),
    ensures
        scan_best(g, k) is None ==> forall|j: int| 0 <= j < k ==> #[trigger] g.cells[j].len() <= 1,
        scan_best(g, k) is Some ==> {
            let i = scan_best(g, k)->0;
            &&& 0 <= i < k
            &&& g.cells[i].len() > 1
            &&& forall|j: int|
                0 <= j < k && #[trigger] g.cells[j].len() > 1 ==> g.cells[i].len()
                    <= g.cells[j].len()
            &&& forall|j: int|
                0 <= j < i && #[trigger] g.cells[j].len() > 1 ==> g.cells[i].len()
                    < g.cells[j].len()
        },
    decreases k,
{
    if k > 0 {
        lemma_scan_best(g, k - 1);
    }
}

/// The sum of a weight sequence.
pub open spec fn sum_of(ws: Seq<int>) -> int
    decreases ws.len(),
{
    if ws.len() == 0 {
        0
    } else {
        ws[0] + sum_of(ws.drop_first())
    }
}

/// Appending a weight adds it to the sum.
pub proof fn lemma_sum_push(ws: Seq<int>, v: int)
    ensures
        sum_of(ws.push(v)) == sum_of(ws) + v,
    decreases ws.len(),
{
    assert(ws.push(v).len() == ws.len() + 1);
    assert(sum_of(ws.push(v)) == ws.push(v)[0] + sum_of(ws.push(v).drop_first()));
    if ws.len() == 0 {
        assert(ws.push(v)[0] == v);
        assert(ws.push(v).drop_first() =~= Seq::<int>::empty());
        assert(sum_of(Seq::<int>::empty()) == 0);
    } else {
        assert(ws.push(v)[0] == ws[0]);
        assert(ws.push(v).drop_first() =~= ws.drop_first().push(v));
        lemma_sum_push(ws.drop_first(), v);
    }
}

/// A sum of non-negative weights is non-negative.
pub proof fn lemma_sum_nonneg(ws: Seq<int>)
    requires
        forall|j: int| 0 <= j < ws.len() ==> #[trigger] ws[j] >= 0,
    ensures
        sum_of(ws) >= 0,
    decreases ws.len(),
{
    if ws.len() > 0 {
        lemma_sum_nonneg(ws.drop_first());
    }
}

/// A sum splits at any position into the sum of the prefix and the suffix.
pub proof fn lemma_sum_split(ws: Seq<int>, i: int)
    requires
        0 <= i <= ws.len(),
    ensures
        sum_of(ws) == sum_of(ws.take(i)) + sum_of(ws.skip(i)),
    decreases i,
{
    if i == 0 {
        assert(ws.take(0).len() == 0);
        assert(ws.skip(0) =~= ws);
    } else {
        let df = ws.drop_first();
        lemma_sum_split(df, i - 1);
        assert(ws.take(i).drop_first() =~= df.take(i - 1));
        assert(ws.skip(i) =~= df.skip(i - 1));
        assert(ws.take(i)[0] == ws[0]);
    }
}

/// The candidate a cumulative draw lands on: weights are laid out as
/// consecutive buckets, and the draw falls in bucket `spec_pick`.
pub open spec fn spec_pick(ws: Seq<int>, r: int) -> int
    decreases ws.len(),
{
    if ws.len() == 0 {
        0
    } else if r < ws[0] {
        0
    } else {
        1 + spec_pick(ws.drop_first(), r - ws[0])
    }
}

/// A draw inside the total lands in a real bucket: the picked index is in
/// range, the draw lies between that bucket's bounds, and the picked weight
/// is strictly positive — a candidate whose weight is zero is never picked.
pub proof fn lemma_pick_in_bucket(ws: Seq<int>, r: int)
    requires
        forall|j: int| 0 <= j < ws.len() ==> #[trigger] ws[j] >= 0,
        0 <= r < sum_of(ws),
    ensures
        0 <= spec_pick(ws, r) < ws.len(),
        sum_of(ws.take(spec_pick(ws, r))) <= r,
        r < sum_of(ws.take(spec_pick(ws, r))) + ws[spec_pick(ws, r)],
        ws[spec_pick(ws, r)] > 0,
    decreases ws.len(),
{
    assert(ws.len() > 0);
    let df = ws.drop_first();
    if r < ws[0] {
        assert(ws.take(0).len() == 0);
    } else {
        lemma_pick_in_bucket(df, r - ws[0]);
        let i = spec_pick(df, r - ws[0]);
        assert(ws.take(1 + i).drop_first() =~= df.take(i));
        assert(ws.take(1 + i)[0] == ws[0]);
        assert(ws[1 + i] == df[i]);
    }
}

/// Every candidate can be drawn: the draw equal to its bucket's lower bound
/// picks it, and that draw lies inside the total.
pub proof fn lemma_pick_complete(ws: Seq<int>, i: int)
    requires
        forall|j: int| 0 <= j < ws.len() ==> #[trigger] ws[j] >= 1,
        0 <= i < ws.len(),
    ensures
        0 <= sum_of(ws.take(i)),
        sum_of(ws.take(i)) + ws[i] <= sum_of(ws),
        spec_pick(ws, sum_of(ws.take(i))) == i,
    decreases i,
{
    assert forall|j: int| 0 <= j < ws.take(i).len() implies #[trigger] ws.take(i)[j] >= 0 by {
        assert(ws.take(i)[j] == ws[j]);
    }
    lemma_sum_nonneg(ws.take(i));
    lemma_sum_split(ws, i);
    assert(ws.skip(i)[0] == ws[i]);
    assert forall|j: int| 0 <= j < ws.skip(i).drop_first().len() implies #[trigger] ws.skip(
        i,
    ).drop_first()[j] >= 0 by {
        assert(ws.skip(i).drop_first()[j] == ws[i + 1 + j]);
    }
    lemma_sum_nonneg(ws.skip(i).drop_first());
    if i == 0 {
        assert(ws.take(0).len() == 0);
    } else {
        let df = ws.drop_first();
        assert forall|j: int| 0 <= j < df.len() implies #[trigger] df[j] >= 1 by {
            assert(df[j] == ws[j + 1]);
        }
        lemma_pick_complete(df, i - 1);
        assert(ws.take(i).drop_first() =~= df.take(i - 1));
        assert(ws.take(i)[0] == ws[0]);
        assert forall|j: int| 0 <= j < ws.take(i).len() implies #[trigger] ws.take(i)[j] >= 1 by {
            assert(ws.take(i)[j] == ws[j]);
        }
        assert(sum_of(ws.take(i)) == ws[0] + sum_of(df.take(i - 1)));
    }
}

/// The bias the neighbor in direction `side` gives candidate `id` at
/// `(x, y)`: when that neighbor exists and is collapsed, its single tile
/// looks back at the cell through the opposite side's weight table.
pub open spec fn dir_term(
    g: GridModel,
    cat: Catalog,
    x: int,
    y: int,
    side: Side,
    id: Seq<char>,
) -> int {
    let nx = x + dx(side);
    let ny = y + dy(side);
    if g.in_bounds(nx, ny) && g.at(nx, ny).len() == 1 {
        cat.spec_rule(g.at(nx, ny)[0]).side_weight(side.spec_opposite(), id)
    } else {
        0
    }
}

/// The preference score of candidate `id` at `(x, y)`: the biases of the
/// four orthogonal neighbors, already-collapsed ones contributing their
/// tile's weight for `id` and all others zero.
pub open spec fn spec_pref(g: GridModel, cat: Catalog, x: int, y: int, id: Seq<char>) -> int {
    dir_term(g, cat, x, y, Side::Left, id) + dir_term(g, cat, x, y, Side::Right, id) + dir_term(
        g,
        cat,
        x,
        y,
        Side::Top,
        id,
    ) + dir_term(g, cat, x, y, Side::Bottom, id)
}

/// A candidate's selection weight: the preference score times the gain,
/// floored up to one when zero or negative, so every candidate keeps
/// strictly positive selection mass.
pub open spec fn spec_scaled(p: int) -> int {
    if p * (GAIN as int) <= 0 {
        1
    } else {
        p * (GAIN as int)
    }
}

/// The selection weights of a whole domain at `(x, y)`.
pub open spec fn spec_weights(
    g: GridModel,
    cat: Catalog,
    x: int,
    y: int,
    dom: Seq<Seq<char>>,
) -> Seq<int> {
    dom.map_values(|id: Seq<char>| spec_scaled(spec_pref(g, cat, x, y, id)))
}

/// The integer values of an executable weight vector.
pub open spec fn ints(ws: Seq<i64>) -> Seq<int> {
    ws.map_values(|w: i64| w as int)
}

/// A weight table never hands back a value outside the range of its
/// entries' type.
pub proof fn lemma_table_weight_range(t: Seq<(String, i32)>, id: Seq<char>)
    ensures
        i32::MIN as int <= crate::tiles::table_weight(t, id) <= i32::MAX as int,
    decreases t.len(),
{
    if t.len() > 0 && t[0].0@ != id {
        lemma_table_weight_range(t.drop_first(), id);
    }
}

/// A well-formed domain cannot hold more identifiers than the catalog.
pub proof fn lemma_domain_size(cat: Catalog, d: Seq<Seq<char>>)
    requires
        cat.wf(),
        GridModel::domain_ok(d, cat),
    ensures
        d.len() <= cat.size(),
{
    broadcast use vstd::seq_lib::seq_to_set_is_finite;

    d.unique_seq_to_set();
    cat.ids().lemma_cardinality_of_set();
    assert(d.to_set().subset_of(cat.ids().to_set())) by {
        assert forall|id: Seq<char>| d.to_set().contains(id) implies cat.ids().to_set().contains(
            id,
        ) by {
            assert(d.contains(id));
            assert(cat.contains_id(id));
            let t = choose|i: int| 0 <= i < cat.rules().len() && cat.rules()[i].name@ == id;
            assert(cat.ids()[t] == id);
            assert(cat.ids().contains(id));
        }
    }
    lemma_len_subset(d.to_set(), cat.ids().to_set());
}

/// Constraint propagation from `(x, y)`: visits the four orthogonal
/// neighbors in the order left, right, top, bottom; a neighbor whose domain
/// shrank propagates onward before the next is visited.
fn propagate(grid: &mut Grid, cat: &Catalog, x: usize, y: usize)
    requires
        cat.wf(),
        old(grid)@.wf_for(*cat),
        old(grid)@.in_bounds(x as int, y as int),
    ensures
        final(grid)@.wf_for(*cat),
        final(grid)@.width == old(grid)@.width,
        final(grid)@.height == old(grid)@.height,
        final(grid)@.count_total() <= old(grid)@.count_total(),
        forall|fuel: nat|
            fuel >= old(grid)@.count_total() ==> final(grid)@ == spec_propagate(
                old(grid)@,
                *cat,
                x as int,
                y as int,
                fuel,
            ),
    decreases old(grid)@.count_total(), 1int,
{
    let ghost g0 = grid@;
    visit(grid, cat, x, y, Side::Left);
    let ghost h1 = grid@;
    visit(grid, cat, x, y, Side::Right);
    let ghost h2 = grid@;
    visit(grid, cat, x, y, Side::Top);
    let ghost h3 = grid@;
    visit(grid, cat, x, y, Side::Bottom);
    proof {
        assert forall|fuel: nat|
            fuel >= g0.count_total() implies grid@ == spec_propagate(
            g0,
            *cat,
            x as int,
            y as int,
            fuel,
        ) by {
            assert(h1 == spec_visit(g0, *cat, x as int, y as int, Side::Left, fuel));
            assert(fuel >= h1.count_total());
            assert(h2 == spec_visit(h1, *cat, x as int, y as int, Side::Right, fuel));
            assert(fuel >= h2.count_total());
            assert(h3 == spec_visit(h2, *cat, x as int, y as int, Side::Top, fuel));
            assert(fuel >= h3.count_total());
            assert(grid@ == spec_visit(h3, *cat, x as int, y as int, Side::Bottom, fuel));
        }
    }
}

/// How many candidates the cell at row-major position `k` still has.
fn cell_len(grid: &Grid, k: usize) -> (l: usize)
    requires
        k < grid@.cells.len(),
    ensures
        l == grid@.cells[k as int].len(),
{
    proof {
        assert(grid@.cells.len() == grid.cells@.len());
        assert(grid@.cells[k as int] == ids_of(grid.cells@[k as int]@));
    }
    grid.cells[k].len()
}

/// The row-major position of the cell the next step collapses, if any cell
/// is still undecided.
fn select_cell(grid: &Grid) -> (r: Option<usize>)
    ensures
        match r {
            Some(i) => scan_best(grid@, grid@.cells.len() as int) == Some(i as int),
            None => scan_best(grid@, grid@.cells.len() as int) is None,
        },
{
    let n = grid.len();
    let mut best: Option<usize> = None;
    let mut best_len: usize = 0;
    for k in 0..n
        invariant
            n == grid@.cells.len(),
            match best {
                Some(b) => scan_best(grid@, k as int) == Some(b as int) && b < n && best_len
                    == grid@.cells[b as int].len(),
                None => scan_best(grid@, k as int) is None,
            },
    {
        let l = cell_len(grid, k);
        let better = match best {
            None => l > 1,
            Some(_) => l > 1 && l < best_len,
        };
        if better {
            best = Some(k);
            best_len = l;
        }
    }
    best
}

/// The weight `t` assigns to `id`: the first entry naming it, else zero.
fn weight_lookup(t: &Vec<(String, i32)>, id: &String) -> (w: i32)
    ensures
        w as int == crate::tiles::table_weight(t@, id@),
{
    let n = t.len();
    proof {
        assert(t@.skip(0) =~= t@);
    }
    for j in 0..n
        invariant
            n == t@.len(),
            crate::tiles::table_weight(t@, id@) == crate::tiles::table_weight(
                t@.skip(j as int),
                id@,
            ),
    {
        proof {
            assert(t@.skip(j as int)[0] == t@[j as int]);
        }
        if t[j].0 == *id {
            return t[j].1;
        }
        proof {
            assert(t@.skip(j as int).drop_first() =~= t@.skip(j + 1));
        }
    }
    proof {
        assert(t@.skip(n as int).len() == 0);
    }
    0
}

/// The bias the neighbor in direction `side` gives candidate `id`.
fn dir_term_exec(grid: &Grid, cat: &Catalog, x: usize, y: usize, side: Side, id: &String) -> (w:
    i32)
    requires
        cat.wf(),
        grid@.wf_for(*cat),
        grid@.in_bounds(x as int, y as int),
    ensures
        w as int == dir_term(grid@, *cat, x as int, y as int, side, id@),
{
    let mut nx: usize = 0;
    let mut ny: usize = 0;
    let mut ok = false;
    match side {
        Side::Left => {
            if x > 0 {
                nx = x - 1;
                ny = y;
                ok = true;
            }
        },
        Side::Right => {
            if x + 1 < grid.width {
                nx = x + 1;
                ny = y;
                ok = true;
            }
        },
        Side::Top => {
            if y > 0 {
                nx = x;
                ny = y - 1;
                ok = true;
            }
        },
        Side::Bottom => {
            if y + 1 < grid.height {
                nx = x;
                ny = y + 1;
                ok = true;
            }
        },
    }
    proof {
        assert(ok ==> nx == x + dx(side) && ny == y + dy(side) && grid@.in_bounds(
            x + dx(side),
            y + dy(side),
        ));
        assert(!ok ==> !grid@.in_bounds(x + dx(side), y + dy(side)));
    }
    if !ok {
        return 0;
    }
    if grid.domain_len(nx, ny) != 1 {
        return 0;
    }
    let nb = grid.cell(nx, ny);
    proof {
        lemma_grid_index(*grid, nx as int, ny as int);
        assert(GridModel::domain_ok(grid@.cells[grid@.idx(nx as int, ny as int)], *cat));
        assert(grid@.at(nx as int, ny as int)[0] == nb@[0]@);
        assert(cat.contains_id(nb@[0]@));
    }
    let rule = cat.rule(&nb[0]);
    match rule.weight_table(side.opposite()) {
        None => 0,
        Some(t) => weight_lookup(t, id),
    }
}

/// The preference score of candidate `id` at `(x, y)`: the sum of the four
/// neighbors' biases.
fn preference_of(grid: &Grid, cat: &Catalog, x: usize, y: usize, id: &String) -> (p: i64)
    requires
        cat.wf(),
        grid@.wf_for(*cat),
        grid@.in_bounds(x as int, y as int),
    ensures
        p == spec_pref(grid@, *cat, x as int, y as int, id@),
        -8589934592 <= p <= 8589934592,
{
    let a = dir_term_exec(grid, cat, x, y, Side::Left, id) as i64;
    let b = dir_term_exec(grid, cat, x, y, Side::Right, id) as i64;
    let c = dir_term_exec(grid, cat, x, y, Side::Top, id) as i64;
    let d = dir_term_exec(grid, cat, x, y, Side::Bottom, id) as i64;
    a + b + c + d
}

/// A candidate's selection weight from its preference score.
fn scaled_weight(p: i64) -> (w: i64)
    requires
        -8589934592 <= p <= 8589934592,
    ensures
        w as int == spec_scaled(p as int),
        1 <= w <= W_MAX,
{
    let q = p * GAIN;
    if q <= 0 {
        1
    } else {
        q
    }
}

/// The index the cumulative-weight draw `draw` lands on.
fn pick_index(ws: &Vec<i64>, draw: i64) -> (i: usize)
    requires
        ws@.len() >= 1,
        forall|j: int| 0 <= j < ws@.len() ==> 1 <= #[trigger] ws@[j],
        0 <= draw < sum_of(ints(ws@)),
    ensures
        i < ws@.len(),
        i as int == spec_pick(ints(ws@), draw as int),
{
    let mut rem = draw;
    let n = ws.len();
    let ghost full = ints(ws@);
    proof {
        assert(full.skip(0) =~= full);
    }
    for j in 0..n
        invariant
            n == ws@.len(),
            full == ints(ws@),
            forall|jj: int| 0 <= jj < ws@.len() ==> 1 <= #[trigger] ws@[jj],
            0 <= rem <= draw,
            rem < sum_of(full.skip(j as int)),
            spec_pick(full, draw as int) == j + spec_pick(full.skip(j as int), rem as int),
    {
        let w = ws[j];
        proof {
            assert(full.skip(j as int)[0] == ws@[j as int] as int);
        }
        if rem < w {
            return j;
        }
        rem = rem - w;
        proof {
            assert(full.skip(j as int).drop_first() =~= full.skip(j + 1));
        }
    }
    proof {
        assert(full.skip(n as int).len() == 0);
        assert(false);
    }
    0
}

/// One whole collapse-and-propagate cycle, as a function of the grid, the
/// catalog and the random state.  When no cell is undecided the grid and
/// state are returned unchanged with `false`.  Otherwise the first smallest
/// undecided cell is collapsed to the candidate a cumulative-weight draw
/// picks, the consequence is propagated, and `true` is returned with the
/// advanced random state.
pub open spec fn spec_step(g: GridModel, cat: Catalog, s: u64) -> (GridModel, u64, bool) {
    match scan_best(g, g.cells.len() as int) {
        Option::None => (g, s, false),
        Option::Some(k) => {
            let x = k % (g.width as int);
            let y = k / (g.width as int);
            let dom = g.cells[k];
            let ws = spec_weights(g, cat, x, y, dom);
            let total = sum_of(ws);
            let s1 = next_state(s);
            let draw = (draw_of(s) as int) % total;
            let i = spec_pick(ws, draw);
            let g1 = g.with_cell(k, seq![dom[i]]);
            (spec_propagate(g1, cat, x, y, g1.count_total()), s1, true)
        },
    }
}

/// One domain narrows another: it is no longer, keeps only candidates the
/// other held, stays duplicate-free, and an already decided or empty domain
/// is left untouched.
pub open spec fn dom_narrows(a: Seq<Seq<char>>, b: Seq<Seq<char>>) -> bool {
    &&& a.len() <= b.len()
    &&& forall|id: Seq<char>| a.contains(id) ==> b.contains(id)
    &&& (b.no_duplicates() ==> a.no_duplicates())
    &&& (b.len() <= 1 ==> a == b)
}

/// One grid narrows another: same dimensions, every domain narrowed.
pub open spec fn grid_narrows(g2: GridModel, g1: GridModel) -> bool {
    &&& g2.width == g1.width
    &&& g2.height == g1.height
    &&& g2.cells.len() == g1.cells.len()
    &&& forall|k: int| 0 <= k < g2.cells.len() ==> dom_narrows(#[trigger] g2.cells[k], g1.cells[k])
}

/// Narrowing is reflexive.
pub proof fn lemma_narrows_refl(g: GridModel)
    ensures
        grid_narrows(g, g),
{
}

/// Narrowing is transitive, so it holds over any sequence of steps.
pub proof fn lemma_narrows_trans(g3: GridModel, g2: GridModel, g1: GridModel)
    requires
        grid_narrows(g3, g2),
        grid_narrows(g2, g1),
    ensures
        grid_narrows(g3, g1),
{
    assert forall|k: int| 0 <= k < g3.cells.len() implies dom_narrows(
        #[trigger] g3.cells[k],
        g1.cells[k],
    ) by {
        assert(dom_narrows(g3.cells[k], g2.cells[k]));
        assert(dom_narrows(g2.cells[k], g1.cells[k]));
    }
}

/// A narrowed grid has at most as many candidates left.
pub proof fn lemma_narrows_count(g2: GridModel, g1: GridModel)
    requires
        grid_narrows(g2, g1),
    ensures
        g2.count_total() <= g1.count_total(),
{
    crate::grid::lemma_count_le(g2.cells, g1.cells);
}

/// A visit only ever narrows the grid (monotonic shrink), and in particular
/// never touches a cell that is already decided or empty.
pub proof fn lemma_visit_narrows(
    g: GridModel,
    cat: Catalog,
    x: int,
    y: int,
    side: Side,
    fuel: nat,
)
    requires
        g.dims_ok(),
    ensures
        grid_narrows(spec_visit(g, cat, x, y, side, fuel), g),
    decreases fuel, 0int,
{
    let nx = x + dx(side);
    let ny = y + dy(side);
    if g.in_bounds(nx, ny) && g.at(nx, ny).len() > 1 {
        let k = g.idx(nx, ny);
        let nd = narrowed_dom(cat, g.at(x, y), side, g.at(nx, ny));
        let g1 = g.with_cell(k, nd);
        lemma_narrowed_props(cat, g.at(x, y), side, g.at(nx, ny));
        assert(0 <= k < g.cells.len()) by {
            assert(g.in_bounds(nx, ny));
            assert(0 <= ny * g.width + nx < g.cells.len()) by (nonlinear_arith)
                requires
                    0 <= nx < g.width,
                    0 <= ny < g.height,
                    g.cells.len() >= g.width * g.height,
            ;
        }
        assert(grid_narrows(g1, g)) by {
            assert(dom_narrows(nd, g.cells[k]));
        }
        if nd.len() < g.at(nx, ny).len() && fuel > 0 {
            assert(g1.cells.len() == g.cells.len());
            lemma_propagate_narrows(g1, cat, nx, ny, (fuel - 1) as nat);
            lemma_narrows_trans(spec_propagate(g1, cat, nx, ny, (fuel - 1) as nat), g1, g);
        }
    }
}

/// Propagation only ever narrows the grid.
pub proof fn lemma_propagate_narrows(g: GridModel, cat: Catalog, x: int, y: int, fuel: nat)
    requires
        g.dims_ok(),
    ensures
        grid_narrows(spec_propagate(g, cat, x, y, fuel), g),
    decreases fuel, 1int,
{
    let g1 = spec_visit(g, cat, x, y, Side::Left, fuel);
    let g2 = spec_visit(g1, cat, x, y, Side::Right, fuel);
    let g3 = spec_visit(g2, cat, x, y, Side::Top, fuel);
    let g4 = spec_visit(g3, cat, x, y, Side::Bottom, fuel);
    lemma_visit_narrows(g, cat, x, y, Side::Left, fuel);
    assert(g1.dims_ok());
    lemma_visit_narrows(g1, cat, x, y, Side::Right, fuel);
    assert(g2.dims_ok());
    lemma_visit_narrows(g2, cat, x, y, Side::Top, fuel);
    assert(g3.dims_ok());
    lemma_visit_narrows(g3, cat, x, y, Side::Bottom, fuel);
    lemma_narrows_trans(g2, g1, g);
    lemma_narrows_trans(g3, g2, g);
    lemma_narrows_trans(g4, g3, g);
}

/// A sum of weights that are each at least one is at least their number.
pub proof fn lemma_sum_min(ws: Seq<int>)
    requires
        forall|j: int| 0 <= j < ws.len() ==> #[trigger] ws[j] >= 1,
    ensures
        sum_of(ws) >= ws.len(),
    decreases ws.len(),
{
    if ws.len() > 0 {
        let df = ws.drop_first();
        assert forall|j: int| 0 <= j < df.len() implies #[trigger] df[j] >= 1 by {
            assert(df[j] == ws[j + 1]);
        }
        lemma_sum_min(df);
    }
}

/// Every selection weight is at least one.
pub proof fn lemma_weights_min(g: GridModel, cat: Catalog, x: int, y: int, dom: Seq<Seq<char>>)
    ensures
        spec_weights(g, cat, x, y, dom).len() == dom.len(),
        forall|j: int|
            0 <= j < dom.len() ==> #[trigger] spec_weights(g, cat, x, y, dom)[j] >= 1,
{
    assert forall|j: int|
        0 <= j < dom.len() implies #[trigger] spec_weights(g, cat, x, y, dom)[j] >= 1 by {
        assert(spec_weights(g, cat, x, y, dom)[j] == spec_scaled(spec_pref(g, cat, x, y, dom[j])));
    }
}

/// One specification-level step: a progressing step narrows the grid and
/// strictly lowers the candidate total; a non-progressing one changes
/// nothing at all.
pub proof fn lemma_step_narrows(g: GridModel, cat: Catalog, s: u64)
    requires
        g.dims_ok(),
    ensures
        grid_narrows(spec_step(g, cat, s).0, g),
        spec_step(g, cat, s).2 ==> g.count_total() >= 2 && spec_step(g, cat, s).0.count_total()
            < g.count_total(),
        !spec_step(g, cat, s).2 ==> spec_step(g, cat, s).0 == g && spec_step(g, cat, s).1 == s
            && g.settled(),
    decreases 0int,
{
    lemma_scan_best(g, g.cells.len() as int);
    match scan_best(g, g.cells.len() as int) {
        Option::None => {
            lemma_narrows_refl(g);
        },
        Option::Some(k) => {
            let dom = g.cells[k];
            let x = k % (g.width as int);
            let y = k / (g.width as int);
            let ws = spec_weights(g, cat, x, y, dom);
            let total = sum_of(ws);
            let s1 = next_state(s);
            let draw = (draw_of(s) as int) % total;
            lemma_weights_min(g, cat, x, y, dom);
            lemma_sum_min(ws);
            vstd::arithmetic::div_mod::lemma_mod_division_less_than_divisor(draw_of(s) as int, total);
            lemma_pick_in_bucket(ws, draw);
            let i = spec_pick(ws, draw);
            let g1 = g.with_cell(k, seq![dom[i]]);
            assert(grid_narrows(g1, g)) by {
                assert(dom_narrows(seq![dom[i]], dom)) by {
                    assert forall|id: Seq<char>| seq![dom[i]].contains(id) implies dom.contains(
                        id,
                    ) by {
                        assert(seq![dom[i]][0] == dom[i]);
                    }
                }
            }
            let fuel = g1.count_total();
            assert(g1.dims_ok());
            lemma_propagate_narrows(g1, cat, x, y, fuel);
            lemma_narrows_trans(spec_propagate(g1, cat, x, y, fuel), g1, g);
            lemma_count_update(g.cells, k, seq![dom[i]]);
            lemma_count_at_least(g.cells, k);
            lemma_narrows_count(spec_propagate(g1, cat, x, y, fuel), g1);
        },
    }
}

/// Repeated steps from a grid, a catalog and a random state; stops when a
/// step reports no progress.  `fuel` only bounds the iteration count; any
/// fuel at or above the grid's candidate total gives the same result.
pub open spec fn spec_solve(g: GridModel, cat: Catalog, s: u64, fuel: nat) -> (GridModel, u64)
    decreases fuel,
{
    let r = spec_step(g, cat, s);
    if !r.2 || fuel == 0 {
        (g, s)
    } else {
        spec_solve(r.0, cat, r.1, (fuel - 1) as nat)
    }
}

/// Any fuel at or above the candidate total resolves the whole run.
pub proof fn lemma_solve_fuel(g: GridModel, cat: Catalog, s: u64, f1: nat, f2: nat)
    requires
        g.dims_ok(),
        f1 >= g.count_total(),
        f2 >= g.count_total(),
    ensures
        spec_solve(g, cat, s, f1) == spec_solve(g, cat, s, f2),
    decreases f1 + f2,
{
    let r = spec_step(g, cat, s);
    if r.2 {
        lemma_step_narrows(g, cat, s);
        assert(r.0.dims_ok());
        lemma_solve_fuel(r.0, cat, r.1, (f1 - 1) as nat, (f2 - 1) as nat);
    }
}

/// Advances the grid by exactly one collapse-and-propagate cycle.
///
/// Scans for the first undecided cell of smallest domain (row-major order,
/// first found wins); returns `false` without touching anything when there
/// is none.  Otherwise collapses that cell to the candidate chosen by a
/// cumulative-weight draw over the neighbors' preference weights,
/// propagates the consequence, and returns `true`.  The outcome is exactly
/// [`spec_step`] of the starting grid, catalog and random state: equal
/// inputs give equal results.
pub fn step(grid: &mut Grid, cat: &Catalog, rng: &mut RandomSource) -> (progressed: bool)
    requires
        cat.wf(),
        old(grid)@.wf_for(*cat),
    ensures
        final(grid)@.wf_for(*cat),
        final(grid)@.width == old(grid)@.width,
        final(grid)@.height == old(grid)@.height,
        (final(grid)@, final(rng).state, progressed) == spec_step(
            old(grid)@,
            *cat,
            old(rng).state,
        ),
        progressed ==> final(grid)@.count_total() < old(grid)@.count_total(),
        !progressed ==> final(grid)@ == old(grid)@ && final(rng).state == old(rng).state && old(
            grid,
        )@.settled(),
{
    let ghost g0 = grid@;
    let ghost s0 = rng.state;
    let sel = select_cell(grid);
    proof {
        lemma_scan_best(g0, g0.cells.len() as int);
    }
    let k = match sel {
        None => {
            return false;
        },
        Some(k) => k,
    };
    let w = grid.width;
    proof {
        assert(w > 0) by {
            if w == 0 {
                assert(g0.width * g0.height == 0) by (nonlinear_arith)
                    requires
                        g0.width == 0,
                ;
            }
        }
    }
    let x = k % w;
    let y = k / w;
    proof {
        vstd::arithmetic::div_mod::lemma_fundamental_div_mod(k as int, w as int);
        vstd::arithmetic::div_mod::lemma_mod_division_less_than_divisor(k as int, w as int);
        assert((y as int) < g0.height) by (nonlinear_arith)
            requires
                (w as int) > 0,
                (k as int) == (w as int) * ((k as int) / (w as int)) + (x as int),
                (y as int) == (k as int) / (w as int),
                0 <= (x as int) < (w as int),
                (k as int) < (w as int) * (g0.height as int),
                0 <= (y as int),
        ;
        assert(g0.in_bounds(x as int, y as int));
        assert((y as int) * (w as int) == (w as int) * (y as int)) by (nonlinear_arith);
        assert(g0.idx(x as int, y as int) == k as int);
    }
    let ghost dom_ids = g0.cells[k as int];
    let dom = clone_ids(grid.cell(x, y));
    proof {
        assert(ids_of(dom@) == dom_ids);
        assert(GridModel::domain_ok(dom_ids, *cat));
        lemma_domain_size(*cat, dom_ids);
    }
    let m = dom.len();
    let ghost wspec = spec_weights(g0, *cat, x as int, y as int, dom_ids);
    let mut ws: Vec<i64> = Vec::new();
    let mut total: i64 = 0;
    proof {
        assert(ints(ws@) =~= wspec.take(0));
    }
    for j in 0..m
        invariant
            cat.wf(),
            grid@ == g0,
            g0.wf_for(*cat),
            g0.in_bounds(x as int, y as int),
            m == dom@.len(),
            m <= crate::tiles::MAX_TILES,
            ids_of(dom@) == dom_ids,
            wspec == spec_weights(g0, *cat, x as int, y as int, dom_ids),
            ws@.len() == j,
            ints(ws@) == wspec.take(j as int),
            forall|t: int| 0 <= t < j ==> 1 <= #[trigger] ws@[t] <= W_MAX,
            total == sum_of(wspec.take(j as int)),
            j as int <= total as int,
            total as int <= (j as int) * (W_MAX as int),
    {
        proof {
            assert(dom_ids[j as int] == dom@[j as int]@);
        }
        let p = preference_of(grid, cat, x, y, &dom[j]);
        let wgt = scaled_weight(p);
        proof {
            assert(wspec[j as int] == spec_scaled(
                spec_pref(g0, *cat, x as int, y as int, dom_ids[j as int]),
            ));
        }
        let ghost before = ints(ws@);
        ws.push(wgt);
        proof {
            assert(ints(ws@) =~= before.push(wgt as int));
            assert(wspec.take(j + 1) =~= wspec.take(j as int).push(wspec[j as int]));
            lemma_sum_push(wspec.take(j as int), wspec[j as int]);
        }
        total = total + wgt;
    }
    proof {
        assert(wspec.take(m as int) =~= wspec);
        assert(m >= 2);
        assert(total >= 2);
    }
    let draw_u = rng.next_below(total as u64);
    let draw = draw_u as i64;
    let i = pick_index(&ws, draw);
    let chosen = dom[i].clone();
    let mut newdom: Vec<String> = Vec::new();
    newdom.push(chosen);
    proof {
        assert(ids_of(newdom@) =~= seq![dom_ids[i as int]]);
        assert(k < g0.cells.len());
    }
    grid.set_cell(k, newdom);
    let ghost g1 = grid@;
    proof {
        assert(g1 == g0.with_cell(k as int, seq![dom_ids[i as int]]));
        assert(g1.wf_for(*cat)) by {
            assert(GridModel::domain_ok(g1.cells[k as int], *cat)) by {
                assert(g1.cells[k as int] == seq![dom_ids[i as int]]);
                assert(cat.contains_id(dom_ids[i as int]));
                assert(seq![dom_ids[i as int]].no_duplicates());
            }
            assert forall|t: int| 0 <= t < g1.cells.len() implies GridModel::domain_ok(
                #[trigger] g1.cells[t],
                *cat,
            ) by {
                if t != k as int {
                    assert(g1.cells[t] == g0.cells[t]);
                }
            }
        }
        lemma_count_update(g0.cells, k as int, g1.cells[k as int]);
        lemma_count_at_least(g0.cells, k as int);
        assert(g1.count_total() < g0.count_total());
        assert(g1.in_bounds(x as int, y as int));
    }
    propagate(grid, cat, x, y);
    proof {
        assert(grid@ == spec_propagate(g1, *cat, x as int, y as int, g1.count_total()));
        assert((grid@, rng.state, true) == spec_step(g0, *cat, s0)) by {
            assert(scan_best(g0, g0.cells.len() as int) == Some(k as int));
            assert((draw as int) == (draw_of(s0) as int) % (total as int));
            assert(i as int == spec_pick(wspec, draw as int));
        }
    }
    true
}

/// Runs [`step`] until it reports no progress.  Afterwards every cell holds
/// at most one candidate; callers that care about contradictions check
/// [`GridModel::has_contradiction`] themselves.  The whole run is a
/// function of the starting grid, catalog and seed.
pub fn solve_fully(grid: &mut Grid, cat: &Catalog, rng: &mut RandomSource)
    requires
        cat.wf(),
        old(grid)@.wf_for(*cat),
    ensures
        final(grid)@.wf_for(*cat),
        final(grid)@.width == old(grid)@.width,
        final(grid)@.height == old(grid)@.height,
        final(grid)@.settled(),
        (final(grid)@, final(rng).state) == spec_solve(
            old(grid)@,
            *cat,
            old(rng).state,
            old(grid)@.count_total(),
        ),
{
    let ghost g0 = grid@;
    let ghost s0 = rng.state;
    loop
        invariant
            cat.wf(),
            grid@.wf_for(*cat),
            grid@.width == g0.width,
            grid@.height == g0.height,
            spec_solve(g0, *cat, s0, g0.count_total()) == spec_solve(
                grid@,
                *cat,
                rng.state,
                grid@.count_total(),
            ),
        ensures
            grid@.wf_for(*cat),
            grid@.width == g0.width,
            grid@.height == g0.height,
            grid@.settled(),
            spec_solve(g0, *cat, s0, g0.count_total()) == (grid@, rng.state),
        decreases grid@.count_total(),
    {
        let ghost gi = grid@;
        let ghost si = rng.state;
        let progressed = step(grid, cat, rng);
        if !progressed {
            proof {
                assert(spec_step(gi, *cat, si).2 == false);
            }
            break ;
        }
        proof {
            lemma_step_narrows(gi, *cat, si);
            assert(spec_solve(gi, *cat, si, gi.count_total()) == spec_solve(
                grid@,
                *cat,
                rng.state,
                (gi.count_total() - 1) as nat,
            ));
            lemma_solve_fuel(
                grid@,
                *cat,
                rng.state,
                (gi.count_total() - 1) as nat,
                grid@.count_total(),
            );
        }
    }
}

/// Sets every cell's domain back to the given full identifier set; no
/// propagation runs afterwards, so the grid is exactly the unconstrained
/// initial state again.
pub fn reset(grid: &mut Grid, all_ids: &Vec<String>)
    ensures
        final(grid)@.width == old(grid)@.width,
        final(grid)@.height == old(grid)@.height,
        final(grid)@.cells.len() == old(grid)@.cells.len(),
        forall|k: int|
            0 <= k < final(grid)@.cells.len() ==> final(grid)@.cells[k] == ids_of(all_ids@),
{
    let n = grid.len();
    for k in 0..n
        invariant
            n == grid@.cells.len(),
            grid@.width == old(grid)@.width,
            grid@.height == old(grid)@.height,
            forall|t: int| 0 <= t < k ==> grid@.cells[t] == ids_of(all_ids@),
    {
        let d = clone_ids(all_ids);
        grid.set_cell(k, d);
    }
}

/// A fresh grid for `cat`: `width * height` cells, every domain the full
/// identifier set, in catalog order.
pub fn initialize(width: usize, height: usize, cat: &Catalog) -> (g: Grid)
    requires
        cat.wf(),
        width * height <= usize::MAX,
    ensures
        g@.width == width as nat,
        g@.height == height as nat,
        g@.wf_for(*cat),
        g@.cells.len() == width * height,
        forall|k: int| 0 <= k < g@.cells.len() ==> g@.cells[k] == cat.ids(),
{
    let ids = cat.all_ids();
    let n = width * height;
    let mut cells: Vec<Vec<String>> = Vec::new();
    for k in 0..n
        invariant
            cells@.len() == k,
            ids_of(ids@) == cat.ids(),
            forall|t: int| 0 <= t < k ==> ids_of(#[trigger] cells@[t]@) == cat.ids(),
    {
        cells.push(clone_ids(&ids));
    }
    let g = Grid { width, height, cells };
    proof {
        assert(GridModel::domain_ok(cat.ids(), *cat)) by {
            assert forall|j: int| 0 <= j < cat.ids().len() implies cat.contains_id(
                #[trigger] cat.ids()[j],
            ) by {
                assert(cat.rules()[j].name@ == cat.ids()[j]);
            }
        }
        assert forall|k: int| 0 <= k < g@.cells.len() implies g@.cells[k] == cat.ids() by {
            assert(g@.cells[k] == ids_of(cells@[k]@));
        }
        assert(g@.cells.len() == width * height);
    }
    g
}

} // verus!

