//! Flashing energy grids: one step raises every cell, cells above nine
//! flash and raise their surroundings in cascade, each at most once per
//! step, and every flashed cell resets to zero.

use crate::basins::{cells_in_bounds, count_trues, distinct_cells, flat, lemma_count_trues_le,
    lemma_count_trues_update, lemma_count_trues_zero, lemma_flat_in_range};
use crate::gridops::{find_sorounding, surrounding_spec, Grid};
use vstd::pervasive::VecAdditionalExecFns;
use vstd::prelude::*;

verus! {

proof fn lemma_contains_push(s: Seq<(usize, usize)>, x: (usize, usize), y: (usize, usize))
    requires
        s.contains(x),
    ensures
        s.push(y).contains(x),
{
    let i = choose|i: int| 0 <= i < s.len() && s[i] == x;
    assert(s.push(y)[i] == x);
}

/// The cap the cascade keeps every cell under: the grid is small and each
/// flasher raises a cell at most once.
pub open spec fn flash_bound(who_len: int) -> int {
    0xffff + 8 * who_len
}

/// Cascades flashes: every cell above nine that has not flashed yet
/// flashes, raising its surroundings by one, until no new cell is above
/// nine. Returns the given flashers followed by the new ones, each cell at
/// most once.
#[verifier::rlimit(100)]
pub fn flash(grid: &mut Grid, who_flashed: Vec<(usize, usize)>) -> (r: Vec<(usize, usize)>)
    requires
        old(grid).wf(),
        old(grid).height * old(grid).width <= 0xffff,
        cells_in_bounds(old(grid), who_flashed@),
        distinct_cells(old(grid), who_flashed@),
        who_flashed@.len() <= old(grid).height * old(grid).width,
        forall|k: int| 0 <= k < old(grid).cells@.len() ==> old(grid).cells@[k] <= flash_bound(
            who_flashed@.len() as int,
        ),
    ensures
        final(grid).wf(),
        final(grid).height == old(grid).height,
        final(grid).width == old(grid).width,
        r@.len() >= who_flashed@.len(),
        r@.take(who_flashed@.len() as int) == who_flashed@,
        cells_in_bounds(final(grid), r@),
        distinct_cells(final(grid), r@),
        r@.len() <= final(grid).height * final(grid).width,
        forall|k: int| 0 <= k < final(grid).cells@.len() ==> old(grid).cells@[k]
            <= #[trigger] final(grid).cells@[k] <= flash_bound(r@.len() as int),
        forall|rr: int, cc: int| final(grid).in_bounds(rr, cc) && final(grid).cell(rr, cc) > 9
            ==> r@.contains((rr as usize, cc as usize)),
    decreases old(grid).height * old(grid).width - who_flashed@.len(),
{
    let ghost entry_cells = grid.cells@;
    let h = grid.height;
    let w = grid.width;
    let n = h * w;
    let mut flashed_bm: Vec<bool> = vec![false; n];
    proof {
        lemma_count_trues_zero(flashed_bm@);
    }
    let mut m: usize = 0;
    while m < who_flashed.len()
        invariant
            0 <= m <= who_flashed@.len(),
            grid.wf(),
            grid.cells@ == entry_cells,
            h == grid.height,
            w == grid.width,
            n == h * w,
            n <= 0xffff,
            flashed_bm@.len() == n,
            cells_in_bounds(grid, who_flashed@),
            distinct_cells(grid, who_flashed@),
            forall|f: int| 0 <= f < n ==> ((#[trigger] flashed_bm@[f]) <==> exists|j: int|
                0 <= j < m && flat(grid, who_flashed@[j]) == f),
            count_trues(flashed_bm@) == m,
        decreases who_flashed@.len() - m,
    {
        let p = who_flashed[m];
        proof {
            lemma_flat_in_range(grid, p);
            assert(!flashed_bm@[flat(grid, p)]) by {
                if flashed_bm@[flat(grid, p)] {
                    let j = choose|j: int| 0 <= j < m && flat(grid, who_flashed@[j]) == flat(
                        grid,
                        p,
                    );
                    assert(flat(grid, who_flashed@[j]) != flat(grid, who_flashed@[m as int]));
                }
            }
            lemma_count_trues_update(flashed_bm@, flat(grid, p));
        }
        flashed_bm.set(p.0 * w + p.1, true);
        proof {
            assert forall|f: int| 0 <= f < n implies ((#[trigger] flashed_bm@[f]) <==> exists|
                j: int,
            |
                0 <= j < m + 1 && flat(grid, who_flashed@[j]) == f) by {
                if f == flat(grid, p) {
                    assert(flat(grid, who_flashed@[m as int]) == f);
                }
            }
        }
        m = m + 1;
    }
    let mut new_flashers: Vec<(usize, usize)> = Vec::new();
    let mut rr: usize = 0;
    proof {
        assert(who_flashed@ + new_flashers@ =~= who_flashed@);
        assert(distinct_cells(grid, who_flashed@ + new_flashers@));
        assert forall|f: int| 0 <= f < n implies ((#[trigger] flashed_bm@[f]) <==> exists|j: int|
            0 <= j < who_flashed@.len() + new_flashers@.len() && flat(
                grid,
                (who_flashed@ + new_flashers@)[j],
            ) == f) by {
            if flashed_bm@[f] {
                let j = choose|j: int| 0 <= j < who_flashed@.len() && flat(grid, who_flashed@[j])
                    == f;
                assert((who_flashed@ + new_flashers@)[j] == who_flashed@[j]);
            } else {
                if exists|j: int| 0 <= j < who_flashed@.len() + new_flashers@.len() && flat(
                    grid,
                    #[trigger] (who_flashed@ + new_flashers@)[j],
                ) == f {
                    let j = choose|j: int|
                        0 <= j < who_flashed@.len() + new_flashers@.len() && flat(
                            grid,
                            #[trigger] (who_flashed@ + new_flashers@)[j],
                        ) == f;
                    assert((who_flashed@ + new_flashers@)[j] == who_flashed@[j]);
                }
            }
        }
    }
    while rr < h
        invariant
            0 <= rr <= h,
            grid.wf(),
            grid.cells@ == entry_cells,
            h == grid.height,
            w == grid.width,
            n == h * w,
            n <= 0xffff,
            who_flashed@.len() <= n,
            flashed_bm@.len() == n,
            cells_in_bounds(grid, who_flashed@),
            distinct_cells(grid, who_flashed@),
            cells_in_bounds(grid, new_flashers@),
            distinct_cells(grid, who_flashed@ + new_flashers@),
            forall|f: int| 0 <= f < n ==> ((#[trigger] flashed_bm@[f]) <==> exists|j: int|
                0 <= j < who_flashed@.len() + new_flashers@.len() && flat(
                    grid,
                    (who_flashed@ + new_flashers@)[j],
                ) == f),
            count_trues(flashed_bm@) == who_flashed@.len() + new_flashers@.len(),
            forall|r2: int, c2: int| 0 <= r2 < rr && 0 <= c2 < w && grid.cell(r2, c2) > 9 ==> (
            who_flashed@ + new_flashers@).contains((r2 as usize, c2 as usize)),
        decreases h - rr,
    {
        let mut cc: usize = 0;
        while cc < w
            invariant
                0 <= cc <= w,
                0 <= rr < h,
                grid.wf(),
                grid.cells@ == entry_cells,
                h == grid.height,
                w == grid.width,
                n == h * w,
                n <= 0xffff,
                who_flashed@.len() <= n,
                flashed_bm@.len() == n,
                cells_in_bounds(grid, who_flashed@),
                distinct_cells(grid, who_flashed@),
                cells_in_bounds(grid, new_flashers@),
                distinct_cells(grid, who_flashed@ + new_flashers@),
                forall|f: int| 0 <= f < n ==> ((#[trigger] flashed_bm@[f]) <==> exists|j: int|
                    0 <= j < who_flashed@.len() + new_flashers@.len() && flat(
                        grid,
                        (who_flashed@ + new_flashers@)[j],
                    ) == f),
                count_trues(flashed_bm@) == who_flashed@.len() + new_flashers@.len(),
                forall|r2: int, c2: int| 0 <= r2 < rr && 0 <= c2 < w && grid.cell(r2, c2) > 9 ==> (
                who_flashed@ + new_flashers@).contains((r2 as usize, c2 as usize)),
                forall|c2: int| 0 <= c2 < cc && grid.cell(rr as int, c2) > 9 ==> (who_flashed@
                    + new_flashers@).contains((rr as usize, c2 as usize)),
            decreases w - cc,
        {
            let v = grid.get(rr, cc);
            proof {
                lemma_flat_in_range(grid, (rr, cc));
            }
            let fl = rr * w + cc;
            let already = flashed_bm[fl];
            if v > 9 && !already {
                let ghost pre_cat = who_flashed@ + new_flashers@;
                let ghost pre_bm = flashed_bm@;
                new_flashers.push((rr, cc));
                flashed_bm.set(fl, true);
                proof {
                    lemma_count_trues_update(pre_bm, flat(grid, (rr, cc)));
                    assert(who_flashed@ + new_flashers@ =~= pre_cat.push((rr, cc)));
                    let cat1 = who_flashed@ + new_flashers@;
                    assert forall|f: int| 0 <= f < n implies ((#[trigger] flashed_bm@[f]) <==> exists|
                        j: int,
                    |
                        0 <= j < cat1.len() && flat(grid, cat1[j]) == f) by {
                        if flashed_bm@[f] {
                            if f == flat(grid, (rr, cc)) {
                                assert(cat1[cat1.len() - 1] == (rr, cc));
                            } else {
                                let j = choose|j: int|
                                    0 <= j < pre_cat.len() && flat(grid, pre_cat[j]) == f;
                                assert(cat1[j] == pre_cat[j]);
                            }
                        } else {
                            if exists|j: int| 0 <= j < cat1.len() && flat(grid, #[trigger] cat1[j])
                                == f {
                                let j = choose|j: int|
                                    0 <= j < cat1.len() && flat(grid, #[trigger] cat1[j]) == f;
                                if j < pre_cat.len() {
                                    assert(cat1[j] == pre_cat[j]);
                                    assert(pre_bm[f]);
                                } else {
                                    assert(cat1[j] == (rr, cc));
                                }
                            }
                        }
                    }
                    assert forall|i2: int, j2: int| 0 <= i2 < j2 < cat1.len() implies flat(
                        grid,
                        #[trigger] cat1[i2],
                    ) != flat(grid, #[trigger] cat1[j2]) by {
                        if j2 == cat1.len() - 1 {
                            assert(cat1[i2] == pre_cat[i2]);
                            if flat(grid, pre_cat[i2]) == flat(grid, (rr, cc)) {
                                assert(pre_bm[flat(grid, (rr, cc))]);
                            }
                        } else {
                            assert(cat1[i2] == pre_cat[i2]);
                            assert(cat1[j2] == pre_cat[j2]);
                        }
                    }
                    assert forall|r2: int, c2: int| 0 <= r2 < rr && 0 <= c2 < w && grid.cell(
                        r2,
                        c2,
                    ) > 9 implies cat1.contains((r2 as usize, c2 as usize)) by {
                        lemma_contains_push(pre_cat, (r2 as usize, c2 as usize), (rr, cc));
                    }
                    assert forall|c2: int| 0 <= c2 < cc && grid.cell(rr as int, c2) > 9 implies
                        cat1.contains((rr as usize, c2 as usize)) by {
                        lemma_contains_push(pre_cat, (rr as usize, c2 as usize), (rr, cc));
                    }
                }
            }
            proof {
                assert forall|c2: int| 0 <= c2 < cc + 1 && grid.cell(rr as int, c2) > 9 implies (
                who_flashed@ + new_flashers@).contains((rr as usize, c2 as usize)) by {
                    if c2 == cc {
                        if grid.cell(rr as int, cc as int) > 9 {
                            let cat1 = who_flashed@ + new_flashers@;
                            if already {
                                assert(flashed_bm@[flat(grid, (rr, cc))]);
                                let j = choose|j: int|
                                    0 <= j < cat1.len() && flat(grid, cat1[j]) == flat(
                                        grid,
                                        (rr, cc),
                                    );
                                assert(cat1[j] == (if j < who_flashed@.len() {
                                    who_flashed@[j]
                                } else {
                                    new_flashers@[j - who_flashed@.len()]
                                }));
                                assert(grid.in_bounds(cat1[j].0 as int, cat1[j].1 as int));
                                crate::basins::lemma_flat_injective(grid, cat1[j], (rr, cc));
                                assert(cat1[j] == (rr, cc));
                            } else {
                                assert(cat1[cat1.len() - 1] == (rr, cc));
                            }
                        }
                    }
                }
            }
            cc = cc + 1;
        }
        rr = rr + 1;
    }
    let someone_flashed = new_flashers.len() > 0;
    let ghost cat = who_flashed@ + new_flashers@;
    proof {
        lemma_count_trues_le(flashed_bm@);
        assert(entry_cells == old(grid).cells@);
        assert forall|r2: int, c2: int| 0 <= r2 < h && 0 <= c2 < w && entry_cells[r2 * w + c2] > 9
            implies #[trigger] cat.contains((r2 as usize, c2 as usize)) by {
            assert(grid.cell(r2, c2) > 9);
        }
    }
    let mut fi: usize = 0;
    while fi < new_flashers.len()
        invariant
            0 <= fi <= new_flashers@.len(),
            grid.wf(),
            h == grid.height,
            w == grid.width,
            n == h * w,
            n <= 0xffff,
            who_flashed@.len() <= n,
            grid.cells@.len() == n,
            entry_cells.len() == n,
            cat == who_flashed@ + new_flashers@,
            cells_in_bounds(grid, who_flashed@),
            cells_in_bounds(grid, new_flashers@),
            distinct_cells(grid, cat),
            cat.len() <= n,
            forall|k: int| 0 <= k < n ==> entry_cells[k] <= #[trigger] grid.cells@[k]
                <= entry_cells[k] + fi,
            forall|r2: int, c2: int| 0 <= r2 < h && 0 <= c2 < w && entry_cells[r2 * w + c2] > 9
                ==> #[trigger] cat.contains((r2 as usize, c2 as usize)),
            forall|k: int| 0 <= k < n ==> entry_cells[k] <= flash_bound(who_flashed@.len() as int),
        decreases new_flashers@.len() - fi,
    {
        let flasher = new_flashers[fi];
        let surrounding = find_sorounding(grid, flasher);
        let ghost sur = surrounding_spec(h as int, w as int, flasher.0 as int, flasher.1 as int);
        let ghost round_entry = grid.cells@;
        let mut si: usize = 0;
        while si < surrounding.len()
            invariant
                0 <= si <= sur.len(),
                grid.wf(),
                h == grid.height,
                w == grid.width,
                n == h * w,
                n <= 0xffff,
                who_flashed@.len() <= n,
                fi <= n,
                grid.cells@.len() == n,
                entry_cells.len() == n,
                round_entry.len() == n,
                surrounding@ == sur,
                sur == surrounding_spec(h as int, w as int, flasher.0 as int, flasher.1 as int),
                grid.in_bounds(flasher.0 as int, flasher.1 as int),
                0 <= fi < new_flashers@.len(),
                forall|k: int| 0 <= k < n ==> entry_cells[k] <= #[trigger] round_entry[k]
                    <= entry_cells[k] + fi,
                forall|k: int| 0 <= k < n ==> #[trigger] grid.cells@[k] == round_entry[k] + (
                if exists|j: int| 0 <= j < si && flat(grid, #[trigger] sur[j]) == k {
                    1int
                } else {
                    0int
                }),
                forall|k: int| 0 <= k < n ==> entry_cells[k] <= flash_bound(
                    who_flashed@.len() as int,
                ),
            decreases sur.len() - si,
        {
            proof {
                lemma_surrounding_in_bounds(grid, flasher.0 as int, flasher.1 as int, si as int);
                lemma_flat_in_range(grid, sur[si as int]);
                lemma_surrounding_distinct(grid, flasher.0 as int, flasher.1 as int, si as int);
            }
            let point = surrounding[si];
            let ghost pf = flat(grid, point);
            proof {
                assert(point == sur[si as int]);
                assert(pf == flat(grid, sur[si as int]));
                assert(grid.cells@[pf] == round_entry[pf]) by {
                    if exists|j: int| 0 <= j < si && flat(grid, #[trigger] sur[j]) == pf {
                        let j = choose|j: int| 0 <= j < si && flat(grid, #[trigger] sur[j]) == pf;
                        assert(flat(grid, sur[j]) != flat(grid, sur[si as int]));
                    }
                }
                assert(round_entry[pf] <= entry_cells[pf] + fi);
                assert(entry_cells[pf] <= flash_bound(who_flashed@.len() as int));
                assert(grid.cells@[pf] <= 0xffff + 8 * 0xffff + 0xffff);
            }
            let cur = grid.get(point.0, point.1);
            let ghost pre_cells = grid.cells@;
            grid.set_cell(point.0, point.1, cur + 1);
            proof {
                assert forall|k: int| 0 <= k < n implies #[trigger] grid.cells@[k] == round_entry[k]
                    + (if exists|j: int| 0 <= j < si + 1 && flat(grid, #[trigger] sur[j]) == k {
                    1int
                } else {
                    0int
                }) by {
                    if k == pf {
                        assert(flat(grid, sur[si as int]) == k);
                    } else {
                        assert(grid.cells@[k] == pre_cells[k]);
                        if exists|j: int| 0 <= j < si + 1 && flat(grid, #[trigger] sur[j]) == k {
                            let j = choose|j: int|
                                0 <= j < si + 1 && flat(grid, #[trigger] sur[j]) == k;
                            assert(j < si);
                        }
                    }
                }
            }
            si = si + 1;
        }
        proof {
            assert forall|k: int| 0 <= k < n implies entry_cells[k] <= #[trigger] grid.cells@[k]
                <= entry_cells[k] + fi + 1 by {}
        }
        fi = fi + 1;
    }
    let mut who = who_flashed;
    let ghost pre_who = who@;
    let mut tail = new_flashers;
    who.append(&mut tail);
    proof {
        assert(who@ == cat);
        assert(who@.take(pre_who.len() as int) =~= pre_who);
    }
    if someone_flashed {
        proof {
            assert(forall|k: int| 0 <= k < grid.cells@.len() ==> #[trigger] grid.cells@[k]
                <= flash_bound(who@.len() as int));
        }
        let r = flash(grid, who);
        proof {
            assert(r@.take(pre_who.len() as int) =~= r@.take(cat.len() as int).take(
                pre_who.len() as int,
            ));
        }
        r
    } else {
        proof {
            assert forall|r2: int, c2: int| grid.in_bounds(r2, c2) && grid.cell(r2, c2) > 9
                implies cat.contains((r2 as usize, c2 as usize)) by {
                lemma_flat_in_range(grid, (r2 as usize, c2 as usize));
                assert(grid.cells@[r2 * w + c2] == entry_cells[r2 * w + c2]);
                assert(entry_cells[r2 * w + c2] > 9);
            }
            assert(who@.take(who@.len() as int) =~= who@);
        }
        who
    }
}

proof fn lemma_surrounding_in_bounds(g: &Grid, r: int, c: int, k: int)
    requires
        g.in_bounds(r, c),
        0 <= k < surrounding_spec(g.height as int, g.width as int, r, c).len(),
    ensures
        g.in_bounds(
            surrounding_spec(g.height as int, g.width as int, r, c)[k].0 as int,
            surrounding_spec(g.height as int, g.width as int, r, c)[k].1 as int,
        ),
{
}

proof fn lemma_surrounding_distinct(g: &Grid, r: int, c: int, k: int)
    requires
        g.in_bounds(r, c),
        0 <= k < surrounding_spec(g.height as int, g.width as int, r, c).len(),
    ensures
        forall|j: int| 0 <= j < k ==> flat(
            g,
            surrounding_spec(g.height as int, g.width as int, r, c)[j],
        ) != flat(g, surrounding_spec(g.height as int, g.width as int, r, c)[k]),
{
    let sp = surrounding_spec(g.height as int, g.width as int, r, c);
    assert forall|j: int| 0 <= j < k implies flat(g, sp[j]) != flat(g, sp[k]) by {
        lemma_surrounding_in_bounds(g, r, c, j);
        lemma_surrounding_in_bounds(g, r, c, k);
        if flat(g, sp[j]) == flat(g, sp[k]) {
            crate::basins::lemma_flat_injective(g, sp[j], sp[k]);
            assert(sp[j] == sp[k]);
            assert(false);
        }
    }
}

/// How many cells hold zero.
pub open spec fn count_zeros(cells: Seq<usize>) -> nat
    decreases cells.len(),
{
    if cells.len() == 0 {
        0
    } else {
        count_zeros(cells.drop_last()) + if cells.last() == 0 {
            1nat
        } else {
            0nat
        }
    }
}

/// One step of the whole grid: every cell rises by one, cells above nine
/// flash in cascade, each at most once, and every flashed cell resets to
/// zero. Returns how many cells flashed: afterwards exactly those cells are
/// zero and every cell is at most nine.
pub fn simulate_step(grid: &mut Grid) -> (r: usize)
    requires
        old(grid).wf(),
        old(grid).height * old(grid).width <= 0xffff,
        forall|k: int| 0 <= k < old(grid).cells@.len() ==> old(grid).cells@[k] <= 9,
    ensures
        final(grid).wf(),
        final(grid).height == old(grid).height,
        final(grid).width == old(grid).width,
        forall|k: int| 0 <= k < final(grid).cells@.len() ==> final(grid).cells@[k] <= 9,
        r <= final(grid).height * final(grid).width,
        exists|flashed: Seq<(usize, usize)>|
            distinct_cells(final(grid), flashed) && flashed.len() == r && (forall|r2: int, c2: int|
                final(grid).in_bounds(r2, c2) ==> (final(grid).cell(r2, c2) == 0 <==> flashed.contains(
                    (r2 as usize, c2 as usize),
                ))),
{
    let h = grid.height;
    let w = grid.width;
    let n = h * w;
    let ghost before = grid.cells@;
    let mut k: usize = 0;
    while k < n
        invariant
            0 <= k <= n,
            grid.wf(),
            h == grid.height,
            w == grid.width,
            n == h * w,
            grid.cells@.len() == n,
            forall|k2: int| 0 <= k2 < k ==> 1 <= #[trigger] grid.cells@[k2] <= 10,
            forall|k2: int| k <= k2 < n ==> #[trigger] grid.cells@[k2] == before[k2] && before[k2]
                <= 9,
        decreases n - k,
    {
        let v = grid.cells[k];
        grid.cells.set(k, v + 1);
        k = k + 1;
    }
    let who_flashed = flash(grid, Vec::new());
    let ghost mid_cells = grid.cells@;
    let ghost who = who_flashed@;
    proof {
        assert forall|k2: int| 0 <= k2 < n implies 1 <= #[trigger] mid_cells[k2] by {}
        assert forall|r2: int, c2: int| grid.in_bounds(r2, c2) && mid_cells[r2 * w + c2] > 9
            implies #[trigger] who.contains((r2 as usize, c2 as usize)) by {
            assert(grid.cell(r2, c2) > 9);
        }
    }
    let mut fi: usize = 0;
    while fi < who_flashed.len()
        invariant
            0 <= fi <= who.len(),
            grid.wf(),
            h == grid.height,
            w == grid.width,
            n == h * w,
            who == who_flashed@,
            cells_in_bounds(grid, who),
            distinct_cells(grid, who),
            who.len() <= n,
            mid_cells.len() == n,
            forall|k2: int| 0 <= k2 < n ==> 1 <= #[trigger] mid_cells[k2],
            forall|r2: int, c2: int| 0 <= r2 < h && 0 <= c2 < w && mid_cells[r2 * w + c2] > 9
                ==> #[trigger] who.contains((r2 as usize, c2 as usize)),
            grid.cells@.len() == n,
            forall|j: int| 0 <= j < fi ==> #[trigger] grid.cells@[flat(grid, who[j])] == 0,
            forall|k2: int| 0 <= k2 < n ==> #[trigger] grid.cells@[k2] == mid_cells[k2]
                || grid.cells@[k2] == 0,
            forall|k2: int| 0 <= k2 < n && grid.cells@[k2] != mid_cells[k2] ==> exists|j: int|
                0 <= j < fi && flat(grid, #[trigger] who[j]) == k2,
        decreases who.len() - fi,
    {
        let p = who_flashed[fi];
        proof {
            lemma_flat_in_range(grid, p);
        }
        let ghost pre_cells = grid.cells@;
        grid.set_cell(p.0, p.1, 0);
        proof {
            assert forall|j: int| 0 <= j < fi + 1 implies #[trigger] grid.cells@[flat(
                grid,
                who[j],
            )] == 0 by {
                if j < fi {
                    lemma_flat_in_range(grid, who[j]);
                    assert(flat(grid, who[j]) != flat(grid, who[fi as int]));
                    assert(grid.cells@[flat(grid, who[j])] == pre_cells[flat(grid, who[j])]);
                }
            }
            assert forall|k2: int| 0 <= k2 < n && grid.cells@[k2] != mid_cells[k2] implies exists|
                j: int,
            |
                0 <= j < fi + 1 && flat(grid, #[trigger] who[j]) == k2 by {
                if k2 == flat(grid, who[fi as int]) {
                } else {
                    assert(grid.cells@[k2] == pre_cells[k2]);
                    let j = choose|j: int| 0 <= j < fi && flat(grid, #[trigger] who[j]) == k2;
                    assert(0 <= j < fi + 1 && flat(grid, who[j]) == k2);
                }
            }
        }
        fi = fi + 1;
    }
    proof {
        assert forall|r2: int, c2: int| grid.in_bounds(r2, c2) implies (grid.cell(r2, c2) == 0
            <==> who.contains((r2 as usize, c2 as usize))) by {
            lemma_flat_in_range(grid, (r2 as usize, c2 as usize));
            let k2 = r2 * w + c2;
            if who.contains((r2 as usize, c2 as usize)) {
                let j = choose|j: int| 0 <= j < who.len() && who[j] == (r2 as usize, c2 as usize);
                assert(grid.cells@[flat(grid, who[j])] == 0);
            } else {
                if grid.cells@[k2] != mid_cells[k2] {
                    let j = choose|j: int|
                        0 <= j < who.len() && flat(grid, #[trigger] who[j]) == k2;
                    crate::basins::lemma_flat_injective(grid, who[j], (r2 as usize, c2 as usize));
                    assert(false);
                }
                assert(grid.cells@[k2] == mid_cells[k2]);
                assert(mid_cells[k2] >= 1);
            }
        }
        assert forall|k2: int| 0 <= k2 < grid.cells@.len() implies #[trigger] grid.cells@[k2] <= 9
            by {
            assert(n > 0);
            assert(w > 0 && h > 0) by (nonlinear_arith)
                requires h * w > 0, h >= 0, w >= 0;
            let r2 = k2 / (w as int);
            let c2 = k2 % (w as int);
            vstd::arithmetic::div_mod::lemma_fundamental_div_mod(k2, w as int);
            assert(0 <= c2 < w) by {
                vstd::arithmetic::div_mod::lemma_mod_bound(k2, w as int);
            }
            assert(0 <= r2 < h) by (nonlinear_arith)
                requires k2 == (w as int) * r2 + c2, 0 <= k2 < h * w, 0 <= c2 < w, w > 0;
            assert(k2 == r2 * w + c2) by (nonlinear_arith)
                requires k2 == (w as int) * r2 + c2;
            if grid.cells@[k2] > 9 {
                assert(grid.in_bounds(r2, c2));
                assert(grid.cell(r2, c2) != 0);
                assert(!who.contains((r2 as usize, c2 as usize)));
                if grid.cells@[k2] != mid_cells[k2] {
                    let j = choose|j: int|
                        0 <= j < who.len() && flat(grid, #[trigger] who[j]) == k2;
                    crate::basins::lemma_flat_injective(grid, who[j], (r2 as usize, c2 as usize));
                    assert(false);
                }
                assert(mid_cells[k2] > 9);
                assert(who.contains((r2 as usize, c2 as usize)));
                assert(false);
            }
        }
        assert(who.len() <= grid.height * grid.width);
    }
    who_flashed.len()
}

} // verus!
