//! Growth of a population of spawning timers.
//!
//! Each member of the population is a countdown timer: a step decrements it,
//! a timer at zero resets to 6 and spawns a new timer at 8. Long horizons are
//! forecast through a lookup table that maps each timer to the population it
//! becomes after a fixed number of steps.

use crate::parse::{all_digits, chars_of, is_number, number_value, parse_number, split_on,
    split_spec};
use vstd::pervasive::VecAdditionalExecFns;
use vstd::prelude::*;

verus! {

/// How many steps one lookup-table iteration stands for.
pub const HORIZON: usize = 120;

/// One step of a single timer that does not spawn: decrement, resetting a
/// zero to 6.
pub open spec fn dec_timer(t: u8) -> u8 {
    if t == 0 {
        6u8
    } else {
        (t - 1) as u8
    }
}

/// How many timers of a population are at zero.
pub open spec fn zeros_count(p: Seq<u8>) -> nat
    decreases p.len(),
{
    if p.len() == 0 {
        0
    } else {
        zeros_count(p.drop_last()) + if p.last() == 0 {
            1nat
        } else {
            0nat
        }
    }
}

/// One step of the whole population: every timer is decremented in place and
/// one timer at 8 is appended per zero.
pub open spec fn step_spec(p: Seq<u8>) -> Seq<u8> {
    p.map_values(|t: u8| dec_timer(t)) + Seq::new(zeros_count(p), |i: int| 8u8)
}

/// The population after `steps` steps.
pub open spec fn grow_spec(p: Seq<u8>, steps: nat) -> Seq<u8>
    decreases steps,
{
    if steps == 0 {
        p
    } else {
        grow_spec(step_spec(p), (steps - 1) as nat)
    }
}

/// Every timer is below `n`.
pub open spec fn all_within(p: Seq<u8>, n: nat) -> bool {
    forall|i: int| 0 <= i < p.len() ==> (#[trigger] p[i]) < n
}

/// The views of a table's rows.
pub open spec fn views_of(rows: Seq<Vec<u8>>) -> Seq<Seq<u8>> {
    rows.map_values(|v: Vec<u8>| v@)
}

proof fn lemma_grow_unfold_right(p: Seq<u8>, k: nat)
    ensures
        grow_spec(p, k + 1) == step_spec(grow_spec(p, k)),
    decreases k,
{
    if k == 0 {
        assert(grow_spec(p, 1) == grow_spec(step_spec(p), 0));
        assert(grow_spec(step_spec(p), 0) == step_spec(p));
        assert(grow_spec(p, 0) == p);
    } else {
        lemma_grow_unfold_right(step_spec(p), (k - 1) as nat);
        assert(grow_spec(p, k + 1) == grow_spec(step_spec(p), k));
        assert(grow_spec(p, k) == grow_spec(step_spec(p), (k - 1) as nat));
    }
}

/// One step of the population, appending the spawned timers after the
/// decremented ones.
fn grow_step(population: &Vec<u8>) -> (r: Vec<u8>)
    ensures
        r@ == step_spec(population@),
{
    let mut mapped: Vec<u8> = Vec::new();
    let mut spawned: Vec<u8> = Vec::new();
    let mut i: usize = 0;
    while i < population.len()
        invariant
            0 <= i <= population@.len(),
            mapped@ =~= population@.take(i as int).map_values(|t: u8| dec_timer(t)),
            spawned@ =~= Seq::new(zeros_count(population@.take(i as int)), |j: int| 8u8),
        decreases population@.len() - i,
    {
        proof {
            assert(population@.take(i + 1).drop_last() =~= population@.take(i as int));
            assert(population@.take(i + 1).last() == population@[i as int]);
            assert(population@.take(i + 1).map_values(|t: u8| dec_timer(t)) =~= population@.take(
                i as int,
            ).map_values(|t: u8| dec_timer(t)).push(dec_timer(population@[i as int])));
        }
        let t = population[i];
        if t == 0 {
            mapped.push(6);
            spawned.push(8);
            proof {
                assert(spawned@ =~= Seq::new(
                    zeros_count(population@.take(i + 1)),
                    |j: int| 8u8,
                ));
            }
        } else {
            mapped.push(t - 1);
            proof {
                assert(spawned@ =~= Seq::new(
                    zeros_count(population@.take(i + 1)),
                    |j: int| 8u8,
                ));
            }
        }
        i = i + 1;
    }
    proof {
        assert(population@.take(population@.len() as int) =~= population@);
    }
    let mut out = mapped;
    let mut tail = spawned;
    out.append(&mut tail);
    out
}

/// Grows the population step by step for `steps` steps.
pub fn grow_population(population: Vec<u8>, steps: usize) -> (r: Vec<u8>)
    ensures
        r@ == grow_spec(population@, steps as nat),
{
    let mut pop = population;
    let ghost orig = pop@;
    let mut s: usize = 0;
    while s < steps
        invariant
            0 <= s <= steps,
            pop@ == grow_spec(orig, s as nat),
        decreases steps - s,
    {
        proof {
            lemma_grow_unfold_right(orig, s as nat);
        }
        pop = grow_step(&pop);
        s = s + 1;
    }
    pop
}

/// Builds the lookup table: row `t` is the population a single timer `t`
/// becomes after `HORIZON` steps.
pub fn create_lookup() -> (r: Vec<Vec<u8>>)
    ensures
        r@.len() == 9,
        forall|t: int| 0 <= t < 9 ==> (#[trigger] r@[t])@ == grow_spec(
            seq![t as u8],
            HORIZON as nat,
        ),
{
    let mut rows: Vec<Vec<u8>> = Vec::new();
    let mut t: u8 = 0;
    while t < 9
        invariant
            0 <= t <= 9,
            rows@.len() == t,
            forall|u: int| 0 <= u < t ==> (#[trigger] rows@[u])@ == grow_spec(
                seq![u as u8],
                HORIZON as nat,
            ),
        decreases 9 - t,
    {
        let single: Vec<u8> = vec![t];
        proof {
            assert(single@ =~= seq![t]);
        }
        let row = grow_population(single, HORIZON);
        rows.push(row);
        t = t + 1;
    }
    rows
}

/// The population one lookup iteration yields: each timer is replaced by its
/// table row, in order.
pub open spec fn expand_once(lookup: Seq<Seq<u8>>, p: Seq<u8>) -> Seq<u8>
    decreases p.len(),
{
    if p.len() == 0 {
        Seq::empty()
    } else {
        expand_once(lookup, p.drop_last()) + lookup[p.last() as int]
    }
}

/// The population `iters` lookup iterations yield.
pub open spec fn expand_spec(lookup: Seq<Seq<u8>>, p: Seq<u8>, iters: nat) -> Seq<u8>
    decreases iters,
{
    if iters == 0 {
        p
    } else {
        expand_spec(lookup, expand_once(lookup, p), (iters - 1) as nat)
    }
}

/// Every row of the table stays within the table's own index range.
pub open spec fn closed_table(lookup: Seq<Seq<u8>>) -> bool {
    forall|t: int| 0 <= t < lookup.len() ==> all_within(#[trigger] lookup[t], lookup.len())
}

proof fn lemma_expand_once_concat(lookup: Seq<Seq<u8>>, a: Seq<u8>, b: Seq<u8>)
    ensures
        expand_once(lookup, a + b) == expand_once(lookup, a) + expand_once(lookup, b),
    decreases b.len(),
{
    if b.len() == 0 {
        assert(a + b =~= a);
        assert(expand_once(lookup, a) + expand_once(lookup, b) =~= expand_once(lookup, a));
    } else {
        lemma_expand_once_concat(lookup, a, b.drop_last());
        assert((a + b).drop_last() =~= a + b.drop_last());
        assert((a + b).last() == b.last());
        assert(expand_once(lookup, a) + expand_once(lookup, b) =~= (expand_once(lookup, a)
            + expand_once(lookup, b.drop_last())) + lookup[b.last() as int]);
    }
}

proof fn lemma_expand_once_within(lookup: Seq<Seq<u8>>, p: Seq<u8>)
    requires
        closed_table(lookup),
        all_within(p, lookup.len() as nat),
    ensures
        all_within(expand_once(lookup, p), lookup.len() as nat),
    decreases p.len(),
{
    if p.len() > 0 {
        lemma_expand_once_within(lookup, p.drop_last());
        let row = lookup[p.last() as int];
        assert forall|i: int| 0 <= i < expand_once(lookup, p).len() implies (#[trigger] expand_once(
            lookup,
            p,
        )[i]) < lookup.len() by {
            let front = expand_once(lookup, p.drop_last());
            if i < front.len() {
                assert(expand_once(lookup, p)[i] == front[i]);
            } else {
                assert(expand_once(lookup, p)[i] == row[i - front.len()]);
            }
        }
    }
}

proof fn lemma_expand_unfold_right(lookup: Seq<Seq<u8>>, p: Seq<u8>, k: nat)
    ensures
        expand_spec(lookup, p, k + 1) == expand_once(lookup, expand_spec(lookup, p, k)),
    decreases k,
{
    if k == 0 {
        assert(expand_spec(lookup, p, 1) == expand_spec(lookup, expand_once(lookup, p), 0));
        assert(expand_spec(lookup, p, 0) == p);
    } else {
        lemma_expand_unfold_right(lookup, expand_once(lookup, p), (k - 1) as nat);
        assert(expand_spec(lookup, p, k + 1) == expand_spec(lookup, expand_once(lookup, p), k));
        assert(expand_spec(lookup, p, k) == expand_spec(
            lookup,
            expand_once(lookup, p),
            (k - 1) as nat,
        ));
    }
}

proof fn lemma_expand_concat(lookup: Seq<Seq<u8>>, a: Seq<u8>, b: Seq<u8>, k: nat)
    ensures
        expand_spec(lookup, a + b, k) == expand_spec(lookup, a, k) + expand_spec(lookup, b, k),
    decreases k,
{
    if k == 0 {
        assert(expand_spec(lookup, a + b, 0) == a + b);
    } else {
        lemma_expand_once_concat(lookup, a, b);
        lemma_expand_concat(lookup, expand_once(lookup, a), expand_once(lookup, b), (k - 1) as nat);
    }
}

/// One lookup iteration of the whole population.
fn expand_step(lookup: &Vec<Vec<u8>>, population: &Vec<u8>) -> (r: Vec<u8>)
    requires
        all_within(population@, lookup@.len() as nat),
    ensures
        r@ == expand_once(views_of(lookup@), population@),
{
    let ghost table = views_of(lookup@);
    let mut tmp: Vec<u8> = Vec::new();
    let mut i: usize = 0;
    proof {
        assert(population@.take(0int) =~= Seq::<u8>::empty());
        assert(tmp@ =~= expand_once(table, population@.take(0int)));
    }
    while i < population.len()
        invariant
            0 <= i <= population@.len(),
            table == views_of(lookup@),
            all_within(population@, lookup@.len() as nat),
            tmp@ == expand_once(table, population@.take(i as int)),
        decreases population@.len() - i,
    {
        proof {
            assert(population@.take(i + 1).drop_last() =~= population@.take(i as int));
            assert(population@.take(i + 1).last() == population@[i as int]);
        }
        let fish = population[i];
        let row = &lookup[fish as usize];
        let mut j: usize = 0;
        while j < row.len()
            invariant
                0 <= j <= row@.len(),
                row@ == table[population@[i as int] as int],
                tmp@ == expand_once(table, population@.take(i as int)) + row@.take(j as int),
            decreases row@.len() - j,
        {
            proof {
                assert(row@.take(j + 1) =~= row@.take(j as int).push(row@[j as int]));
            }
            tmp.push(row[j]);
            j = j + 1;
        }
        proof {
            assert(row@.take(row@.len() as int) =~= row@);
        }
        i = i + 1;
    }
    proof {
        assert(population@.take(population@.len() as int) =~= population@);
    }
    tmp
}

/// Applies the lookup table to the population for `iterations` rounds.
pub fn grow_population_lookup(population: Vec<u8>, iterations: usize, lookup: &Vec<Vec<u8>>) -> (r:
    Vec<u8>)
    requires
        all_within(population@, lookup@.len() as nat),
        closed_table(views_of(lookup@)),
    ensures
        r@ == expand_spec(views_of(lookup@), population@, iterations as nat),
{
    let ghost table = views_of(lookup@);
    let mut pop = population;
    let ghost orig = pop@;
    let mut s: usize = 0;
    while s < iterations
        invariant
            0 <= s <= iterations,
            table == views_of(lookup@),
            closed_table(table),
            pop@ == expand_spec(table, orig, s as nat),
            all_within(pop@, lookup@.len() as nat),
        decreases iterations - s,
    {
        proof {
            lemma_expand_unfold_right(table, orig, s as nat);
        }
        pop = expand_step(lookup, &pop);
        proof {
            lemma_expand_once_within(table, expand_spec(table, orig, s as nat));
        }
        s = s + 1;
    }
    pop
}

/// Counts, by recursion over the population, how many timers `iterations -
/// current` lookup rounds yield, without materialising the whole population.
pub fn forecast_population_recursion(
    population: Vec<u8>,
    iterations: usize,
    current: usize,
    lookup: &Vec<Vec<u8>>,
) -> (r: usize)
    requires
        current <= iterations,
        all_within(population@, lookup@.len() as nat),
        closed_table(views_of(lookup@)),
        expand_spec(views_of(lookup@), population@, (iterations - current) as nat).len()
            <= usize::MAX,
    ensures
        r == expand_spec(views_of(lookup@), population@, (iterations - current) as nat).len(),
    decreases iterations - current,
{
    let ghost table = views_of(lookup@);
    let ghost k = (iterations - current) as nat;
    if current == iterations {
        return population.len();
    }
    let mut population_size: usize = 0;
    let mut i: usize = 0;
    proof {
        assert(population@.take(0int) =~= Seq::<u8>::empty());
        assert(expand_spec(table, population@.take(0int), k) =~= Seq::<u8>::empty()) by {
            lemma_expand_concat(table, Seq::<u8>::empty(), Seq::<u8>::empty(), k);
            assert(Seq::<u8>::empty() + Seq::<u8>::empty() =~= Seq::<u8>::empty());
        }
    }
    while i < population.len()
        invariant
            0 <= i <= population@.len(),
            current < iterations <= usize::MAX,
            k == (iterations - current) as nat,
            table == views_of(lookup@),
            closed_table(table),
            all_within(population@, lookup@.len() as nat),
            expand_spec(table, population@, k).len() <= usize::MAX,
            population_size == expand_spec(table, population@.take(i as int), k).len(),
        decreases population@.len() - i,
    {
        let ghost single = seq![population@[i as int]];
        proof {
            assert(population@.take(i + 1) =~= population@.take(i as int) + single);
            lemma_expand_concat(table, population@.take(i as int), single, k);
            assert(population@ =~= population@.take(i + 1) + population@.skip(i + 1));
            lemma_expand_concat(table, population@.take(i + 1), population@.skip(i + 1), k);
        }
        let fish = population[i];
        let sub: Vec<u8> = vec![fish];
        proof {
            assert(sub@ =~= single);
            assert(expand_spec(table, single, 1) == expand_spec(table, expand_once(table, single), 0));
            assert(expand_spec(table, expand_once(table, single), 0) == expand_once(table, single));
            assert(expand_once(table, single.drop_last()) =~= Seq::<u8>::empty());
            assert(Seq::<u8>::empty() + table[fish as int] =~= table[fish as int]);
        }
        let grown = grow_population_lookup(sub, 1, lookup);
        proof {
            lemma_expand_once_within(table, single);
            assert(expand_spec(table, single, k) == expand_spec(
                table,
                expand_once(table, single),
                (k - 1) as nat,
            ));
        }
        let part = forecast_population_recursion(grown, iterations, current + 1, lookup);
        population_size = population_size + part;
        i = i + 1;
    }
    proof {
        assert(population@.take(population@.len() as int) =~= population@);
    }
    population_size
}

/// Forecasts the population size after `iterations` lookup rounds.
pub fn forecast_population(population: Vec<u8>, iterations: usize, lookup: &Vec<Vec<u8>>) -> (r:
    usize)
    requires
        all_within(population@, lookup@.len() as nat),
        closed_table(views_of(lookup@)),
        expand_spec(views_of(lookup@), population@, iterations as nat).len() <= usize::MAX,
    ensures
        r == expand_spec(views_of(lookup@), population@, iterations as nat).len(),
{
    forecast_population_recursion(population, iterations, 0, lookup)
}

/// How many timers a single timer `t` becomes after `s` steps.
pub open spec fn descendants(t: u8, s: nat) -> nat
    decreases s,
{
    if s == 0 {
        1
    } else if t == 0 {
        descendants(6u8, (s - 1) as nat) + descendants(8u8, (s - 1) as nat)
    } else {
        descendants((t - 1) as u8, (s - 1) as nat)
    }
}

/// The total number of timers a population becomes after `s` steps, member by
/// member.
pub open spec fn sum_descendants(p: Seq<u8>, s: nat) -> nat
    decreases p.len(),
{
    if p.len() == 0 {
        0
    } else {
        sum_descendants(p.drop_last(), s) + descendants(p.last(), s)
    }
}

proof fn lemma_sum_desc_zero(p: Seq<u8>)
    ensures
        sum_descendants(p, 0) == p.len(),
    decreases p.len(),
{
    if p.len() > 0 {
        lemma_sum_desc_zero(p.drop_last());
    }
}

proof fn lemma_sum_desc_concat(a: Seq<u8>, b: Seq<u8>, s: nat)
    ensures
        sum_descendants(a + b, s) == sum_descendants(a, s) + sum_descendants(b, s),
    decreases b.len(),
{
    if b.len() == 0 {
        assert(a + b =~= a);
    } else {
        lemma_sum_desc_concat(a, b.drop_last(), s);
        assert((a + b).drop_last() =~= a + b.drop_last());
        assert((a + b).last() == b.last());
    }
}

proof fn lemma_sum_desc_eights(z: nat, s: nat)
    ensures
        sum_descendants(Seq::new(z, |i: int| 8u8), s) == z * descendants(8u8, s),
    decreases z,
{
    let d = descendants(8u8, s);
    if z == 0 {
        assert(Seq::new(0, |i: int| 8u8).len() == 0);
        assert(0nat * d == 0) by (nonlinear_arith);
    } else {
        lemma_sum_desc_eights((z - 1) as nat, s);
        assert(Seq::new(z, |i: int| 8u8).drop_last() =~= Seq::new((z - 1) as nat, |i: int| 8u8));
        assert(Seq::new(z, |i: int| 8u8).last() == 8u8);
        assert((z - 1) as nat * d + d == z * d) by (nonlinear_arith)
            requires z >= 1;
    }
}

proof fn lemma_map_sum(p: Seq<u8>, s: nat)
    ensures
        sum_descendants(p.map_values(|t: u8| dec_timer(t)), s) + zeros_count(p) * descendants(
            8u8,
            s,
        ) == sum_descendants(p, s + 1),
    decreases p.len(),
{
    let d = descendants(8u8, s);
    if p.len() == 0 {
        assert(p.map_values(|t: u8| dec_timer(t)).len() == 0);
        assert(zeros_count(p) * d == 0) by (nonlinear_arith)
            requires zeros_count(p) == 0;
    } else {
        lemma_map_sum(p.drop_last(), s);
        let m = p.map_values(|t: u8| dec_timer(t));
        assert(m.drop_last() =~= p.drop_last().map_values(|t: u8| dec_timer(t)));
        assert(m.last() == dec_timer(p.last()));
        assert(descendants(dec_timer(p.last()), s) + (if p.last() == 0 {
            1nat
        } else {
            0nat
        }) * d == descendants(p.last(), s + 1)) by {
            if p.last() == 0 {
                assert(dec_timer(p.last()) == 6u8);
                assert(1nat * d == d) by (nonlinear_arith);
            } else {
                assert(0nat * d == 0) by (nonlinear_arith);
            }
        }
        let zd = zeros_count(p.drop_last());
        let zl: nat = if p.last() == 0 {
            1nat
        } else {
            0nat
        };
        assert((zd + zl) * d == zd * d + zl * d) by (nonlinear_arith);
    }
}

proof fn lemma_step_sum(p: Seq<u8>, s: nat)
    ensures
        sum_descendants(step_spec(p), s) == sum_descendants(p, s + 1),
{
    lemma_sum_desc_concat(
        p.map_values(|t: u8| dec_timer(t)),
        Seq::new(zeros_count(p), |i: int| 8u8),
        s,
    );
    lemma_sum_desc_eights(zeros_count(p), s);
    lemma_map_sum(p, s);
}

proof fn lemma_grow_len(p: Seq<u8>, s: nat)
    ensures
        grow_spec(p, s).len() == sum_descendants(p, s),
    decreases s,
{
    if s == 0 {
        lemma_sum_desc_zero(p);
    } else {
        lemma_grow_len(step_spec(p), (s - 1) as nat);
        lemma_step_sum(p, (s - 1) as nat);
    }
}

proof fn lemma_grow_sum(p: Seq<u8>, s: nat, s2: nat)
    ensures
        sum_descendants(grow_spec(p, s), s2) == sum_descendants(p, s + s2),
    decreases s,
{
    if s > 0 {
        lemma_grow_sum(step_spec(p), (s - 1) as nat, s2);
        lemma_step_sum(p, ((s - 1) + s2) as nat);
    }
}

/// Row `t` of the table is the growth of a single timer `t` over `h` steps.
pub open spec fn table_grows(lookup: Seq<Seq<u8>>, h: nat) -> bool {
    lookup.len() == 9 && forall|t: int|
        0 <= t < 9 ==> lookup[t] == grow_spec(seq![t as u8], h)
}

proof fn lemma_grow_within(p: Seq<u8>, s: nat)
    requires
        all_within(p, 9),
    ensures
        all_within(grow_spec(p, s), 9),
    decreases s,
{
    if s > 0 {
        assert(all_within(step_spec(p), 9)) by {
            let q = step_spec(p);
            assert forall|i: int| 0 <= i < q.len() implies (#[trigger] q[i]) < 9 by {
                let m = p.map_values(|t: u8| dec_timer(t));
                if i < m.len() {
                    assert(q[i] == dec_timer(p[i]));
                } else {
                    assert(q[i] == 8u8);
                }
            }
        }
        lemma_grow_within(step_spec(p), (s - 1) as nat);
    }
}

proof fn lemma_table_closed(lookup: Seq<Seq<u8>>, h: nat)
    requires
        table_grows(lookup, h),
    ensures
        closed_table(lookup),
{
    assert forall|t: int| 0 <= t < lookup.len() implies all_within(
        #[trigger] lookup[t],
        lookup.len() as nat,
    ) by {
        assert(all_within(seq![t as u8], 9)) by {
            assert(seq![t as u8][0] == t as u8);
        }
        lemma_grow_within(seq![t as u8], h);
    }
}

proof fn lemma_once_sum(lookup: Seq<Seq<u8>>, h: nat, p: Seq<u8>, s2: nat)
    requires
        table_grows(lookup, h),
        all_within(p, 9),
    ensures
        sum_descendants(expand_once(lookup, p), s2) == sum_descendants(p, h + s2),
    decreases p.len(),
{
    if p.len() > 0 {
        assert(all_within(p.drop_last(), 9));
        lemma_once_sum(lookup, h, p.drop_last(), s2);
        lemma_sum_desc_concat(expand_once(lookup, p.drop_last()), lookup[p.last() as int], s2);
        let single = seq![p.last()];
        lemma_grow_sum(single, h, s2);
        assert(sum_descendants(single, (h + s2) as nat) == descendants(p.last(), (h + s2) as nat))
            by {
            assert(single.drop_last() =~= Seq::<u8>::empty());
            assert(single.last() == p.last());
            assert(sum_descendants(Seq::<u8>::empty(), (h + s2) as nat) == 0);
            assert(sum_descendants(single, (h + s2) as nat) == sum_descendants(
                single.drop_last(),
                (h + s2) as nat,
            ) + descendants(single.last(), (h + s2) as nat));
        }
        assert(lookup[p.last() as int] == grow_spec(seq![p.last() as int as u8], h));
        assert(seq![p.last() as int as u8] =~= single);
    }
}

proof fn lemma_expand_len_sum(lookup: Seq<Seq<u8>>, h: nat, p: Seq<u8>, k: nat)
    requires
        table_grows(lookup, h),
        all_within(p, 9),
    ensures
        expand_spec(lookup, p, k).len() == sum_descendants(p, k * h),
    decreases k,
{
    if k == 0 {
        lemma_sum_desc_zero(p);
        assert(0nat * h == 0) by (nonlinear_arith);
    } else {
        lemma_table_closed(lookup, h);
        lemma_expand_once_within(lookup, p);
        lemma_expand_len_sum(lookup, h, expand_once(lookup, p), (k - 1) as nat);
        lemma_once_sum(lookup, h, p, ((k - 1) as nat * h) as nat);
        assert(h + (k - 1) as nat * h == k * h) by (nonlinear_arith)
            requires k >= 1;
    }
}

/// The lookup table forecasts growth exactly: over a table whose row `t` is
/// the growth of a single timer `t` across `h` steps, `k` table iterations
/// yield a population of exactly the size that `k * h` direct steps yield.
pub proof fn lemma_forecast_matches_growth(lookup: Seq<Seq<u8>>, p: Seq<u8>, k: nat, h: nat)
    requires
        table_grows(lookup, h),
        all_within(p, 9),
    ensures
        expand_spec(lookup, p, k).len() == grow_spec(p, k * h).len(),
{
    lemma_expand_len_sum(lookup, h, p, k);
    lemma_grow_len(p, (k * h) as nat);
}

/// Reads a comma-separated list of timers from a line.
pub fn parse_input(line: &str) -> (r: Vec<u8>)
    requires
        forall|i: int| 0 <= i < split_spec(line@, ',').len() ==> is_number(
            #[trigger] split_spec(line@, ',')[i],
        ) && number_value(split_spec(line@, ',')[i]) <= u8::MAX,
    ensures
        r@.len() == split_spec(line@, ',').len(),
        forall|i: int| 0 <= i < r@.len() ==> #[trigger] r@[i] == number_value(
            split_spec(line@, ',')[i],
        ),
{
    let ghost groups = split_spec(line@, ',');
    let cs = chars_of(line);
    let parts = split_on(&cs, ',');
    let mut out: Vec<u8> = Vec::new();
    let mut i: usize = 0;
    while i < parts.len()
        invariant
            0 <= i <= parts@.len(),
            groups == split_spec(line@, ','),
            parts@.map_values(|g: Vec<char>| g@) == groups,
            forall|j: int| 0 <= j < groups.len() ==> is_number(#[trigger] groups[j])
                && number_value(groups[j]) <= u8::MAX,
            out@.len() == i,
            forall|j: int| 0 <= j < i ==> #[trigger] out@[j] == number_value(groups[j]),
        decreases parts@.len() - i,
    {
        proof {
            assert(parts@.map_values(|g: Vec<char>| g@)[i as int] == parts@[i as int]@);
        }
        let n = parse_number(&parts[i]);
        out.push(n as u8);
        i = i + 1;
    }
    out
}

} // verus!
