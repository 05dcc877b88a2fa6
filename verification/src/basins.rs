//! Low points and basins of a height grid: cells lower than all their
//! neighbours, flood-filled regions bounded by height 9, and the risk and
//! basin scores derived from them.

use crate::extsort::{sorted, sorted_usizes};
use crate::gridops::{adjacents_spec, find_adjecents, Grid};
use std::collections::VecDeque;
use vstd::pervasive::VecAdditionalExecFns;
use vstd::prelude::*;

verus! {

/// Every neighbour of the cell lies strictly higher.
pub open spec fn lowest_spec(g: &Grid, r: int, c: int) -> bool {
    forall|k: int| 0 <= k < adjacents_spec(g.height as int, g.width as int, r, c).len() ==> {
        let p = #[trigger] adjacents_spec(g.height as int, g.width as int, r, c)[k];
        g.cell(p.0 as int, p.1 as int) > g.cell(r, c)
    }
}

pub(crate) proof fn lemma_adjacents_in_bounds(g: &Grid, r: int, c: int, k: int)
    requires
        g.in_bounds(r, c),
        0 <= k < adjacents_spec(g.height as int, g.width as int, r, c).len(),
    ensures
        g.in_bounds(
            adjacents_spec(g.height as int, g.width as int, r, c)[k].0 as int,
            adjacents_spec(g.height as int, g.width as int, r, c)[k].1 as int,
        ),
{
}

/// Whether the cell is lower than all of its neighbours.
pub fn is_lowest(map: &Grid, pos: (usize, usize)) -> (r: bool)
    requires
        map.wf(),
        map.in_bounds(pos.0 as int, pos.1 as int),
    ensures
        r == lowest_spec(map, pos.0 as int, pos.1 as int),
{
    let ghost adj = adjacents_spec(map.height as int, map.width as int, pos.0 as int, pos.1 as int);
    let adjecents = find_adjecents(map, pos);
    let here = map.get(pos.0, pos.1);
    let mut i: usize = 0;
    while i < adjecents.len()
        invariant
            0 <= i <= adj.len(),
            map.wf(),
            map.in_bounds(pos.0 as int, pos.1 as int),
            adjecents@ == adj,
            adj == adjacents_spec(map.height as int, map.width as int, pos.0 as int, pos.1 as int),
            here == map.cell(pos.0 as int, pos.1 as int),
            forall|k: int| 0 <= k < i ==> map.cell(
                (#[trigger] adj[k]).0 as int,
                adj[k].1 as int,
            ) > here,
        decreases adj.len() - i,
    {
        proof {
            lemma_adjacents_in_bounds(map, pos.0 as int, pos.1 as int, i as int);
        }
        let a = adjecents[i];
        if map.get(a.0, a.1) <= here {
            return false;
        }
        i = i + 1;
    }
    true
}

/// The low points among the first `k` cells, row-major.
pub open spec fn lowest_prefix(g: &Grid, k: int) -> Seq<(usize, usize)>
    decreases k,
{
    if k <= 0 || g.width == 0 {
        Seq::empty()
    } else {
        let r = (k - 1) / (g.width as int);
        let c = (k - 1) % (g.width as int);
        lowest_prefix(g, k - 1) + (if lowest_spec(g, r, c) {
            seq![(r as usize, c as usize)]
        } else {
            Seq::empty()
        })
    }
}

/// All low points of the grid, row-major.
pub fn find_lowest_points(map: &Grid) -> (r: Vec<(usize, usize)>)
    requires
        map.wf(),
        map.height * map.width <= usize::MAX,
    ensures
        r@ == lowest_prefix(map, (map.height * map.width) as int),
{
    let mut out: Vec<(usize, usize)> = Vec::new();
    if map.width == 0 {
        proof {
            assert(lowest_prefix(map, (map.height * map.width) as int) =~= Seq::<(
                usize,
                usize,
            )>::empty()) by {
                lemma_lowest_prefix_empty(map, (map.height * map.width) as int);
            }
        }
        return out;
    }
    let mut row: usize = 0;
    while row < map.height
        invariant
            0 <= row <= map.height,
            map.wf(),
            0 < map.width,
            map.height * map.width <= usize::MAX,
            out@ == lowest_prefix(map, row * map.width),
        decreases map.height - row,
    {
        let mut col: usize = 0;
        proof {
            assert(row * map.width + 0 == row * map.width);
        }
        while col < map.width
            invariant
                0 <= col <= map.width,
                0 <= row < map.height,
                map.wf(),
                0 < map.width,
                map.height * map.width <= usize::MAX,
                out@ == lowest_prefix(map, row * map.width + col),
            decreases map.width - col,
        {
            proof {
                assert((row + 1) * map.width <= map.height * map.width) by (nonlinear_arith)
                    requires row < map.height, 0 <= map.width;
                assert(row * map.width + col < (row + 1) * map.width) by (nonlinear_arith)
                    requires col < map.width, 0 <= row;
                let k = row * map.width + col + 1;
                vstd::arithmetic::div_mod::lemma_fundamental_div_mod_converse(
                    (k - 1) as int,
                    map.width as int,
                    row as int,
                    col as int,
                );
            }
            if is_lowest(map, (row, col)) {
                out.push((row, col));
            }
            proof {
                assert(out@ =~= lowest_prefix(map, row * map.width + col + 1));
            }
            col = col + 1;
        }
        proof {
            assert((row + 1) * map.width == row * map.width + map.width) by (nonlinear_arith);
        }
        row = row + 1;
    }
    proof {
        assert(out@ =~= lowest_prefix(map, (map.height * map.width) as int));
    }
    out
}

proof fn lemma_lowest_prefix_empty(g: &Grid, k: int)
    requires
        g.width == 0,
    ensures
        lowest_prefix(g, k) =~= Seq::<(usize, usize)>::empty(),
    decreases k,
{
    if k > 0 {
        lemma_lowest_prefix_empty(g, k - 1);
    }
}

/// The flat index of a cell.
pub open spec fn flat(g: &Grid, p: (usize, usize)) -> int {
    p.0 * g.width + p.1
}

/// The cells have pairwise different flat indices.
pub open spec fn distinct_cells(g: &Grid, s: Seq<(usize, usize)>) -> bool {
    forall|i: int, j: int| 0 <= i < j < s.len() ==> flat(g, #[trigger] s[i]) != flat(g, #[trigger] s[j])
}

/// Every cell lies on the grid.
pub open spec fn cells_in_bounds(g: &Grid, s: Seq<(usize, usize)>) -> bool {
    forall|i: int| 0 <= i < s.len() ==> g.in_bounds((#[trigger] s[i]).0 as int, s[i].1 as int)
}

/// How many entries are set.
pub open spec fn count_trues(s: Seq<bool>) -> nat
    decreases s.len(),
{
    if s.len() == 0 {
        0
    } else {
        count_trues(s.drop_last()) + if s.last() {
            1nat
        } else {
            0nat
        }
    }
}

pub(crate) proof fn lemma_count_trues_le(s: Seq<bool>)
    ensures
        count_trues(s) <= s.len(),
    decreases s.len(),
{
    if s.len() > 0 {
        lemma_count_trues_le(s.drop_last());
    }
}

pub(crate) proof fn lemma_count_trues_update(s: Seq<bool>, i: int)
    requires
        0 <= i < s.len(),
        !s[i],
    ensures
        count_trues(s.update(i, true)) == count_trues(s) + 1,
    decreases s.len(),
{
    if i == s.len() - 1 {
        assert(s.update(i, true).drop_last() =~= s.drop_last());
    } else {
        lemma_count_trues_update(s.drop_last(), i);
        assert(s.update(i, true).drop_last() =~= s.drop_last().update(i, true));
        assert(s.update(i, true).last() == s.last());
    }
}

/// A cell's flat index is marked.
pub open spec fn marked(g: &Grid, visited: Seq<bool>, p: (usize, usize)) -> bool {
    visited[flat(g, p)]
}

pub(crate) proof fn lemma_flat_injective(g: &Grid, p: (usize, usize), q: (usize, usize))
    requires
        g.in_bounds(p.0 as int, p.1 as int),
        g.in_bounds(q.0 as int, q.1 as int),
        flat(g, p) == flat(g, q),
    ensures
        p == q,
{
    assert(p.0 == q.0 && p.1 == q.1) by (nonlinear_arith)
        requires
            0 <= p.1 < g.width,
            0 <= q.1 < g.width,
            p.0 * g.width + p.1 == q.0 * g.width + q.1,
            0 <= p.0,
            0 <= q.0,
    ;
}

pub(crate) proof fn lemma_flat_in_range(g: &Grid, p: (usize, usize))
    requires
        g.in_bounds(p.0 as int, p.1 as int),
    ensures
        0 <= flat(g, p) < g.height * g.width,
{
    assert(0 <= p.0 * g.width + p.1 < g.height * g.width) by (nonlinear_arith)
        requires 0 <= p.0 < g.height, 0 <= p.1 < g.width;
}

pub(crate) proof fn lemma_count_trues_zero(s: Seq<bool>)
    requires
        forall|i: int| 0 <= i < s.len() ==> !(#[trigger] s[i]),
    ensures
        count_trues(s) == 0,
    decreases s.len(),
{
    if s.len() > 0 {
        lemma_count_trues_zero(s.drop_last());
    }
}

/// Grows the basin: repeatedly takes a cell from the horizon into the
/// total, and adds each of its unvisited neighbours below height 9 to the
/// horizon. Returns the total: the cells given in, then the horizon, then
/// every cell the spreading reached, each exactly once, closed under
/// spreading to neighbours below height 9.
pub fn expand_basin(map: &Grid, horizon: VecDeque<(usize, usize)>, total: Vec<(usize, usize)>) -> (r:
    Vec<(usize, usize)>)
    requires
        map.wf(),
        map.height * map.width <= usize::MAX,
        cells_in_bounds(map, horizon@),
        cells_in_bounds(map, total@),
        distinct_cells(map, total@ + horizon@),
    ensures
        r@.len() >= total@.len() + horizon@.len(),
        r@.take((total@.len() + horizon@.len()) as int) == total@ + horizon@,
        distinct_cells(map, r@),
        cells_in_bounds(map, r@),
        forall|i: int, k: int| total@.len() <= i < r@.len() && 0 <= k < adjacents_spec(
            map.height as int,
            map.width as int,
            r@[i].0 as int,
            r@[i].1 as int,
        ).len() ==> {
            let q = #[trigger] adjacents_spec(
                map.height as int,
                map.width as int,
                r@[i].0 as int,
                r@[i].1 as int,
            )[k];
            map.cell(q.0 as int, q.1 as int) != 9 ==> r@.contains(q)
        },
{
    let ghost given = total@;
    let ghost init_cat = total@ + horizon@;
    let n = map.height * map.width;
    let mut visited: Vec<bool> = vec![false; n];
    let mut hz = horizon;
    let mut tot = total;
    proof {
        lemma_count_trues_zero(visited@);
        assert(init_cat.skip(given.len() as int) =~= hz@);
    }
    let mut i: usize = 0;
    while i < tot.len()
        invariant
            0 <= i <= tot@.len(),
            map.wf(),
            tot@ == given,
            hz@ == init_cat.skip(given.len() as int),
            init_cat == given + hz@,
            n == map.height * map.width,
            visited@.len() == n,
            cells_in_bounds(map, tot@),
            cells_in_bounds(map, hz@),
            distinct_cells(map, init_cat),
            forall|f: int| 0 <= f < n ==> ((#[trigger] visited@[f]) <==> exists|j: int|
                0 <= j < i && flat(map, init_cat[j]) == f),
            count_trues(visited@) == i,
        decreases tot@.len() - i,
    {
        let p = tot[i];
        proof {
            assert(init_cat[i as int] == tot@[i as int]);
            lemma_flat_in_range(map, p);
            assert(!visited@[flat(map, p)]) by {
                if visited@[flat(map, p)] {
                    let j = choose|j: int| 0 <= j < i && flat(map, init_cat[j]) == flat(map, p);
                    assert(flat(map, init_cat[j]) != flat(map, init_cat[i as int]));
                }
            }
            lemma_count_trues_update(visited@, flat(map, p));
        }
        visited.set(p.0 * map.width + p.1, true);
        proof {
            assert forall|f: int| 0 <= f < n implies ((#[trigger] visited@[f]) <==> exists|j: int|
                0 <= j < i + 1 && flat(map, init_cat[j]) == f) by {
                if f == flat(map, p) {
                    assert(flat(map, init_cat[i as int]) == f);
                }
            }
        }
        i = i + 1;
    }
    let mut j: usize = 0;
    while j < hz.len()
        invariant
            0 <= j <= hz@.len(),
            map.wf(),
            tot@ == given,
            init_cat == given + hz@,
            n == map.height * map.width,
            visited@.len() == n,
            cells_in_bounds(map, tot@),
            cells_in_bounds(map, hz@),
            distinct_cells(map, init_cat),
            forall|f: int| 0 <= f < n ==> ((#[trigger] visited@[f]) <==> exists|j2: int|
                0 <= j2 < given.len() + j && flat(map, init_cat[j2]) == f),
            count_trues(visited@) == given.len() + j,
        decreases hz@.len() - j,
    {
        let p = hz[j];
        proof {
            assert(init_cat[given.len() + j] == hz@[j as int]);
            lemma_flat_in_range(map, p);
            assert(!visited@[flat(map, p)]) by {
                if visited@[flat(map, p)] {
                    let j2 = choose|j2: int|
                        0 <= j2 < given.len() + j && flat(map, init_cat[j2]) == flat(map, p);
                    assert(flat(map, init_cat[j2]) != flat(map, init_cat[given.len() + j]));
                }
            }
            lemma_count_trues_update(visited@, flat(map, p));
        }
        visited.set(p.0 * map.width + p.1, true);
        proof {
            assert forall|f: int| 0 <= f < n implies ((#[trigger] visited@[f]) <==> exists|j2: int|
                0 <= j2 < given.len() + j + 1 && flat(map, init_cat[j2]) == f) by {
                if f == flat(map, p) {
                    assert(flat(map, init_cat[given.len() + j]) == f);
                }
            }
        }
        j = j + 1;
    }
    while hz.len() > 0
        invariant
            map.wf(),
            n == map.height * map.width,
            visited@.len() == n,
            cells_in_bounds(map, tot@),
            cells_in_bounds(map, hz@),
            given.len() <= tot@.len(),
            init_cat.len() <= tot@.len() + hz@.len(),
            (tot@ + hz@).take(init_cat.len() as int) == init_cat,
            forall|f: int| 0 <= f < n ==> ((#[trigger] visited@[f]) <==> exists|j2: int|
                0 <= j2 < tot@.len() + hz@.len() && flat(map, (tot@ + hz@)[j2]) == f),
            count_trues(visited@) == tot@.len() + hz@.len(),
            distinct_cells(map, tot@ + hz@),
            forall|i2: int, k2: int| given.len() <= i2 < tot@.len() && 0 <= k2 < adjacents_spec(
                map.height as int,
                map.width as int,
                tot@[i2].0 as int,
                tot@[i2].1 as int,
            ).len() ==> {
                let q = #[trigger] adjacents_spec(
                    map.height as int,
                    map.width as int,
                    tot@[i2].0 as int,
                    tot@[i2].1 as int,
                )[k2];
                map.cell(q.0 as int, q.1 as int) != 9 ==> visited@[flat(map, q)]
            },
        decreases n - tot@.len(),
    {
        proof {
            lemma_count_trues_le(visited@);
        }
        let ghost pre_tot = tot@;
        let ghost pre_hz = hz@;
        let popped = hz.pop_front();
        let point = match popped {
            Some(p) => p,
            None => {
                proof {
                    assert(false);
                }
                (0, 0)
            },
        };
        tot.push(point);
        proof {
            assert(tot@ + hz@ =~= pre_tot + pre_hz);
        }
        let ghost cat0 = tot@ + hz@;
        let adjecents = find_adjecents(map, point);
        let ghost adj = adjacents_spec(
            map.height as int,
            map.width as int,
            point.0 as int,
            point.1 as int,
        );
        let mut k: usize = 0;
        while k < adjecents.len()
            invariant
                0 <= k <= adj.len(),
                map.wf(),
                n == map.height * map.width,
                visited@.len() == n,
                adjecents@ == adj,
                adj == adjacents_spec(
                    map.height as int,
                    map.width as int,
                    point.0 as int,
                    point.1 as int,
                ),
                map.in_bounds(point.0 as int, point.1 as int),
                cells_in_bounds(map, tot@),
                cells_in_bounds(map, hz@),
                given.len() <= tot@.len(),
                init_cat.len() <= tot@.len() + hz@.len(),
                (tot@ + hz@).take(init_cat.len() as int) == init_cat,
                tot@.len() >= 1,
                tot@ == pre_tot.push(point),
                forall|f: int| 0 <= f < n ==> ((#[trigger] visited@[f]) <==> exists|j2: int|
                    0 <= j2 < tot@.len() + hz@.len() && flat(map, (tot@ + hz@)[j2]) == f),
                count_trues(visited@) == tot@.len() + hz@.len(),
                distinct_cells(map, tot@ + hz@),
                forall|k2: int| 0 <= k2 < k ==> {
                    let q = #[trigger] adj[k2];
                    map.cell(q.0 as int, q.1 as int) != 9 ==> visited@[flat(map, q)]
                },
                forall|i2: int, k2: int| given.len() <= i2 < tot@.len() - 1 && 0 <= k2
                    < adjacents_spec(
                    map.height as int,
                    map.width as int,
                    tot@[i2].0 as int,
                    tot@[i2].1 as int,
                ).len() ==> {
                    let q = #[trigger] adjacents_spec(
                        map.height as int,
                        map.width as int,
                        tot@[i2].0 as int,
                        tot@[i2].1 as int,
                    )[k2];
                    map.cell(q.0 as int, q.1 as int) != 9 ==> visited@[flat(map, q)]
                },
            decreases adj.len() - k,
        {
            proof {
                lemma_adjacents_in_bounds(map, point.0 as int, point.1 as int, k as int);
                lemma_flat_in_range(map, adj[k as int]);
            }
            let q = adjecents[k];
            let qv = map.get(q.0, q.1);
            let fl = q.0 * map.width + q.1;
            let already = visited[fl];
            if qv != 9 && !already {
                let ghost pre_cat = tot@ + hz@;
                let ghost pre_vis = visited@;
                hz.push_back(q);
                visited.set(fl, true);
                proof {
                    assert(tot@ + hz@ =~= pre_cat.push(q));
                    lemma_count_trues_update(pre_vis, flat(map, q));
                    assert forall|f: int| 0 <= f < n implies ((#[trigger] visited@[f]) <==> exists|
                        j2: int,
                    |
                        0 <= j2 < tot@.len() + hz@.len() && flat(map, (tot@ + hz@)[j2]) == f) by {
                        let cat1 = tot@ + hz@;
                        if visited@[f] {
                            if f == flat(map, q) {
                                assert(cat1[cat1.len() - 1] == q);
                            } else {
                                let j2 = choose|j2: int|
                                    0 <= j2 < pre_cat.len() && flat(map, pre_cat[j2]) == f;
                                assert(cat1[j2] == pre_cat[j2]);
                            }
                        } else {
                            if exists|j2: int|
                                0 <= j2 < cat1.len() && flat(map, #[trigger] cat1[j2]) == f {
                                let j2 = choose|j2: int|
                                    0 <= j2 < cat1.len() && flat(map, #[trigger] cat1[j2]) == f;
                                if j2 < pre_cat.len() {
                                    assert(cat1[j2] == pre_cat[j2]);
                                    assert(pre_vis[f]);
                                    assert(visited@[f]);
                                } else {
                                    assert(cat1[j2] == q);
                                    assert(visited@[f]);
                                }
                            }
                        }
                    }
                    assert forall|i2: int, j2: int| 0 <= i2 < j2 < (tot@ + hz@).len() implies flat(
                        map,
                        #[trigger] (tot@ + hz@)[i2],
                    ) != flat(map, #[trigger] (tot@ + hz@)[j2]) by {
                        let cat1 = tot@ + hz@;
                        if j2 == cat1.len() - 1 {
                            assert(cat1[i2] == pre_cat[i2]);
                            assert(cat1[j2] == q);
                            if flat(map, pre_cat[i2]) == flat(map, q) {
                                assert(pre_vis[flat(map, q)]);
                            }
                        } else {
                            assert(cat1[i2] == pre_cat[i2]);
                            assert(cat1[j2] == pre_cat[j2]);
                        }
                    }
                    assert((tot@ + hz@).take(init_cat.len() as int) =~= pre_cat.take(
                        init_cat.len() as int,
                    ));
                    assert forall|x: int| 0 <= x < n && pre_vis[x] implies #[trigger] visited@[x]
                        by {}
                }
            }
            proof {
                assert forall|k2: int| 0 <= k2 < k + 1 implies {
                    let q2 = #[trigger] adj[k2];
                    map.cell(q2.0 as int, q2.1 as int) != 9 ==> visited@[flat(map, q2)]
                } by {
                    lemma_adjacents_in_bounds(map, point.0 as int, point.1 as int, k2);
                    lemma_flat_in_range(map, adj[k2]);
                    if k2 == k {
                        if qv != 9 {
                            assert(visited@[flat(map, q)]);
                        }
                    }
                }
                assert forall|i2: int, k2: int| given.len() <= i2 < tot@.len() - 1 && 0 <= k2
                    < adjacents_spec(
                    map.height as int,
                    map.width as int,
                    tot@[i2].0 as int,
                    tot@[i2].1 as int,
                ).len() implies {
                    let q2 = #[trigger] adjacents_spec(
                        map.height as int,
                        map.width as int,
                        tot@[i2].0 as int,
                        tot@[i2].1 as int,
                    )[k2];
                    map.cell(q2.0 as int, q2.1 as int) != 9 ==> visited@[flat(map, q2)]
                } by {
                    lemma_adjacents_in_bounds(map, tot@[i2].0 as int, tot@[i2].1 as int, k2);
                    lemma_flat_in_range(
                        map,
                        adjacents_spec(
                            map.height as int,
                            map.width as int,
                            tot@[i2].0 as int,
                            tot@[i2].1 as int,
                        )[k2],
                    );
                }
            }
            k = k + 1;
        }
        proof {
            assert forall|i2: int, k2: int| given.len() <= i2 < tot@.len() && 0 <= k2
                < adjacents_spec(
                map.height as int,
                map.width as int,
                tot@[i2].0 as int,
                tot@[i2].1 as int,
            ).len() implies {
                let q = #[trigger] adjacents_spec(
                    map.height as int,
                    map.width as int,
                    tot@[i2].0 as int,
                    tot@[i2].1 as int,
                )[k2];
                map.cell(q.0 as int, q.1 as int) != 9 ==> visited@[flat(map, q)]
            } by {
                if i2 == tot@.len() - 1 {
                    assert(tot@[i2] == point);
                }
            }
        }
    }
    proof {
        assert(tot@ + hz@ =~= tot@);
        assert(tot@.take(init_cat.len() as int) == init_cat) by {
            assert((tot@ + hz@).take(init_cat.len() as int) =~= tot@.take(init_cat.len() as int));
        }
        assert(distinct_cells(map, tot@)) by {
            assert forall|i2: int, j2: int| 0 <= i2 < j2 < tot@.len() implies flat(
                map,
                #[trigger] tot@[i2],
            ) != flat(map, #[trigger] tot@[j2]) by {
                assert((tot@ + hz@)[i2] == tot@[i2]);
                assert((tot@ + hz@)[j2] == tot@[j2]);
            }
        }
        assert forall|i2: int, k2: int| given.len() <= i2 < tot@.len() && 0 <= k2 < adjacents_spec(
            map.height as int,
            map.width as int,
            tot@[i2].0 as int,
            tot@[i2].1 as int,
        ).len() implies {
            let q = #[trigger] adjacents_spec(
                map.height as int,
                map.width as int,
                tot@[i2].0 as int,
                tot@[i2].1 as int,
            )[k2];
            map.cell(q.0 as int, q.1 as int) != 9 ==> tot@.contains(q)
        } by {
            lemma_adjacents_in_bounds(map, tot@[i2].0 as int, tot@[i2].1 as int, k2);
            let q = adjacents_spec(
                map.height as int,
                map.width as int,
                tot@[i2].0 as int,
                tot@[i2].1 as int,
            )[k2];
            if map.cell(q.0 as int, q.1 as int) != 9 {
                lemma_flat_in_range(map, q);
                assert(visited@[flat(map, q)]);
                let j2 = choose|j2: int|
                    0 <= j2 < tot@.len() + hz@.len() && flat(map, (tot@ + hz@)[j2]) == flat(map, q);
                assert((tot@ + hz@)[j2] == tot@[j2]);
                lemma_flat_injective(map, tot@[j2], q);
                assert(tot@.contains(tot@[j2]));
            }
        }
    }
    tot
}

/// Flood-fills one basin from each low point.
pub fn find_basins(map: &Grid, lowest_points: &Vec<(usize, usize)>) -> (r: Vec<
    Vec<(usize, usize)>,
>)
    requires
        map.wf(),
        map.height * map.width <= usize::MAX,
        cells_in_bounds(map, lowest_points@),
    ensures
        r@.len() == lowest_points@.len(),
        forall|i: int| 0 <= i < r@.len() ==> (#[trigger] r@[i])@.len() >= 1 && r@[i]@[0]
            == lowest_points@[i] && distinct_cells(map, r@[i]@) && cells_in_bounds(map, r@[i]@),
{
    let mut basins: Vec<Vec<(usize, usize)>> = Vec::new();
    let mut i: usize = 0;
    while i < lowest_points.len()
        invariant
            0 <= i <= lowest_points@.len(),
            map.wf(),
            map.height * map.width <= usize::MAX,
            cells_in_bounds(map, lowest_points@),
            basins@.len() == i,
            forall|j: int| 0 <= j < i ==> (#[trigger] basins@[j])@.len() >= 1 && basins@[j]@[0]
                == lowest_points@[j] && distinct_cells(map, basins@[j]@) && cells_in_bounds(
                map,
                basins@[j]@,
            ),
        decreases lowest_points@.len() - i,
    {
        let p = lowest_points[i];
        let mut hz: VecDeque<(usize, usize)> = VecDeque::new();
        hz.push_back(p);
        let ghost hzv = hz@;
        let seedless: Vec<(usize, usize)> = Vec::new();
        proof {
            assert(hzv =~= seq![p]);
            assert(seedless@ + hzv =~= seq![p]);
            assert(cells_in_bounds(map, hzv)) by {
                assert(hzv[0] == p);
            }
            assert(cells_in_bounds(map, seedless@));
            assert(distinct_cells(map, seedless@ + hzv));
        }
        let basin = expand_basin(map, hz, seedless);
        proof {
            assert(basin@.take(1int) == seedless@ + hzv);
            assert(basin@.take(1int)[0] == basin@[0]);
            assert((seedless@ + hzv)[0] == p);
        }
        basins.push(basin);
        i = i + 1;
    }
    basins
}

/// The product of the three largest basin sizes: the top three slots of an
/// ascending arrangement of the sizes, multiplied.
pub fn calc_biggest_basin_prod(basins: &Vec<Vec<(usize, usize)>>) -> (r: usize)
    requires
        basins@.len() >= 3,
        forall|i: int| 0 <= i < basins@.len() ==> (#[trigger] basins@[i])@.len() <= usize::MAX,
    ensures
        exists|s: Seq<usize>|
            sorted(s) && s.to_multiset() == basins@.map_values(
                |b: Vec<(usize, usize)>| b@.len() as usize,
            ).to_multiset() && s.len() == basins@.len() && r == vstd::wrapping::usize_specs::wrapping_mul(
                vstd::wrapping::usize_specs::wrapping_mul(s[s.len() - 1], s[s.len() - 2]),
                s[s.len() - 3],
            ),
{
    let mut sizes: Vec<usize> = Vec::new();
    let mut i: usize = 0;
    while i < basins.len()
        invariant
            0 <= i <= basins@.len(),
            sizes@ =~= basins@.take(i as int).map_values(|b: Vec<(usize, usize)>| b@.len() as usize),
        decreases basins@.len() - i,
    {
        proof {
            assert(basins@.take(i + 1).drop_last() =~= basins@.take(i as int));
            assert(basins@.take(i + 1) =~= basins@.take(i as int).push(basins@[i as int]));
        }
        sizes.push(basins[i].len());
        i = i + 1;
    }
    proof {
        assert(basins@.take(basins@.len() as int) =~= basins@);
    }
    let s = sorted_usizes(&sizes);
    let a = s[s.len() - 1];
    let b = s[s.len() - 2];
    let c = s[s.len() - 3];
    let ab = a.wrapping_mul(b);
    let abc = ab.wrapping_mul(c);
    abc
}

/// The total risk of the low points: each contributes its height plus one.
pub open spec fn risk_sum(g: &Grid, points: Seq<(usize, usize)>) -> int
    decreases points.len(),
{
    if points.len() == 0 {
        0
    } else {
        risk_sum(g, points.drop_last()) + g.cell(
            points.last().0 as int,
            points.last().1 as int,
        ) + 1
    }
}

/// Sums height plus one over the low points.
pub fn calc_risk(map: &Grid, lowest_points: &Vec<(usize, usize)>) -> (r: usize)
    requires
        map.wf(),
        cells_in_bounds(map, lowest_points@),
        risk_sum(map, lowest_points@) <= usize::MAX,
    ensures
        r == risk_sum(map, lowest_points@),
{
    let mut acc: usize = 0;
    let mut i: usize = 0;
    proof {
        assert(lowest_points@.take(0int) =~= Seq::<(usize, usize)>::empty());
    }
    while i < lowest_points.len()
        invariant
            0 <= i <= lowest_points@.len(),
            map.wf(),
            cells_in_bounds(map, lowest_points@),
            risk_sum(map, lowest_points@) <= usize::MAX,
            acc == risk_sum(map, lowest_points@.take(i as int)),
        decreases lowest_points@.len() - i,
    {
        proof {
            lemma_risk_sum_prefix(map, lowest_points@, i + 1);
            assert(lowest_points@.take(i + 1).drop_last() =~= lowest_points@.take(i as int));
            assert(lowest_points@.take(i + 1).last() == lowest_points@[i as int]);
        }
        let p = lowest_points[i];
        acc = acc + map.get(p.0, p.1) + 1;
        i = i + 1;
    }
    proof {
        assert(lowest_points@.take(lowest_points@.len() as int) =~= lowest_points@);
    }
    acc
}

proof fn lemma_risk_sum_prefix(g: &Grid, points: Seq<(usize, usize)>, m: int)
    requires
        0 <= m <= points.len(),
    ensures
        0 <= risk_sum(g, points.take(m)) <= risk_sum(g, points),
    decreases points.len(), points.len() - m,
{
    if m < points.len() {
        lemma_risk_sum_prefix(g, points, m + 1);
        assert(points.take(m + 1).drop_last() =~= points.take(m));
        assert(points.take(m + 1).last() == points[m]);
        lemma_risk_nonneg(g, points.take(m));
    } else {
        assert(points.take(m) =~= points);
        lemma_risk_nonneg(g, points);
    }
}

proof fn lemma_risk_nonneg(g: &Grid, points: Seq<(usize, usize)>)
    ensures
        risk_sum(g, points) >= 0,
    decreases points.len(),
{
    if points.len() > 0 {
        lemma_risk_nonneg(g, points.drop_last());
    }
}

} // verus!
