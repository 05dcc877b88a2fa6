//! Choosing an alignment position of minimal total fuel cost.
//!
//! Positions align on a common target; moving a distance `d` costs either `d`
//! (constant model) or `1 + 2 + ... + d` (linear model). The constant model
//! is solved by the median, the linear model by a greedy scan that stops at
//! the first candidate that costs more than its predecessor.

use crate::extsort::{sorted, sorted_usizes};
use crate::parse::{chars_of, is_number, number_value, parse_number, split_on, split_spec};
use vstd::prelude::*;

verus! {

/// How the cost of a move grows with its distance.
pub enum FuelModel {
    Constant,
    Linear,
}

/// The distance between two positions.
pub open spec fn abs_diff(a: int, b: int) -> int {
    if a >= b {
        a - b
    } else {
        b - a
    }
}

/// The cost of moving a distance `d` under the linear model:
/// `1 + 2 + ... + d`.
pub open spec fn tri(d: nat) -> nat
    decreases d,
{
    if d == 0 {
        0
    } else {
        tri((d - 1) as nat) + d
    }
}

/// The cost of moving a distance `d`.
pub open spec fn cost_at(model: FuelModel, d: nat) -> nat {
    match model {
        FuelModel::Constant => d,
        FuelModel::Linear => tri(d),
    }
}

/// The total cost of aligning every position on `t`.
pub open spec fn total_cost(model: FuelModel, s: Seq<usize>, t: int) -> nat
    decreases s.len(),
{
    if s.len() == 0 {
        0
    } else {
        total_cost(model, s.drop_last(), t) + cost_at(model, abs_diff(s.last() as int, t) as nat)
    }
}

proof fn lemma_tri_monotone(a: nat, b: nat)
    requires
        a <= b,
    ensures
        tri(a) <= tri(b),
    decreases b,
{
    if a < b {
        lemma_tri_monotone(a, (b - 1) as nat);
    }
}

proof fn lemma_total_cost_prefix(model: FuelModel, s: Seq<usize>, t: int, n: int)
    requires
        0 <= n <= s.len(),
    ensures
        total_cost(model, s.take(n), t) <= total_cost(model, s, t),
    decreases s.len() - n,
{
    if n < s.len() {
        lemma_total_cost_prefix(model, s, t, n + 1);
        assert(s.take(n + 1).drop_last() =~= s.take(n));
        assert(s.take(n + 1).last() == s[n]);
    } else {
        assert(s.take(n) =~= s);
    }
}

/// The linear cost of one move of distance `d`.
fn tri_cost(d: usize) -> (r: usize)
    requires
        tri(d as nat) <= usize::MAX,
    ensures
        r == tri(d as nat),
{
    let mut acc: usize = 0;
    let mut k: usize = 0;
    while k < d
        invariant
            0 <= k <= d,
            acc == tri(k as nat),
            tri(d as nat) <= usize::MAX,
        decreases d - k,
    {
        proof {
            lemma_tri_monotone((k + 1) as nat, d as nat);
        }
        acc = acc + (k + 1);
        k = k + 1;
    }
    acc
}

/// The total fuel spent if every position aligns on `target`.
pub fn find_total_diff(positions: &[usize], target: usize, fuel_model: &FuelModel) -> (r: usize)
    requires
        total_cost(*fuel_model, positions@, target as int) <= usize::MAX,
    ensures
        r == total_cost(*fuel_model, positions@, target as int),
{
    let mut acc: usize = 0;
    let mut i: usize = 0;
    proof {
        assert(positions@.take(0int) =~= Seq::<usize>::empty());
    }
    while i < positions.len()
        invariant
            0 <= i <= positions@.len(),
            total_cost(*fuel_model, positions@, target as int) <= usize::MAX,
            acc == total_cost(*fuel_model, positions@.take(i as int), target as int),
        decreases positions@.len() - i,
    {
        proof {
            lemma_total_cost_prefix(*fuel_model, positions@, target as int, i + 1);
            assert(positions@.take(i + 1).drop_last() =~= positions@.take(i as int));
            assert(positions@.take(i + 1).last() == positions@[i as int]);
        }
        let x = positions[i];
        let d = if x >= target {
            x - target
        } else {
            target - x
        };
        let c = match fuel_model {
            FuelModel::Constant => d,
            FuelModel::Linear => tri_cost(d),
        };
        acc = acc + c;
        i = i + 1;
    }
    proof {
        assert(positions@.take(positions@.len() as int) =~= positions@);
    }
    acc
}

/// The value the middle slot of an ascending arrangement of `vec` holds.
pub fn find_median(vec: &[usize]) -> (r: usize)
    requires
        vec@.len() > 0,
    ensures
        exists|s: Seq<usize>| sorted(s) && s.to_multiset() == vec@.to_multiset() && s.len()
            == vec@.len() && r == s[vec@.len() as int / 2],
{
    let mut owned: Vec<usize> = Vec::new();
    let mut i: usize = 0;
    while i < vec.len()
        invariant
            0 <= i <= vec@.len(),
            owned@ =~= vec@.take(i as int),
        decreases vec@.len() - i,
    {
        proof {
            assert(vec@.take(i + 1) =~= vec@.take(i as int).push(vec@[i as int]));
        }
        owned.push(vec[i]);
        i = i + 1;
    }
    proof {
        assert(vec@.take(vec@.len() as int) =~= vec@);
    }
    let s = sorted_usizes(&owned);
    let r = s[owned.len() / 2];
    proof {
        assert(sorted(s@) && s@.to_multiset() == vec@.to_multiset() && s@.len() == vec@.len()
            && r == s@[vec@.len() as int / 2]);
    }
    r
}

/// What `greedy_best_search` promises of its result under each model.
pub open spec fn best_search_post(model: FuelModel, s: Seq<usize>, r: usize) -> bool {
    match model {
        FuelModel::Constant => exists|t: Seq<usize>|
            sorted(t) && t.to_multiset() == s.to_multiset() && t.len() == s.len() && r == t[s.len() as int / 2],
        FuelModel::Linear => {
            &&& r < s.len()
            &&& forall|i: int| 0 <= i < r ==> #[trigger] total_cost(FuelModel::Linear, s, i + 1)
                <= total_cost(FuelModel::Linear, s, i)
            &&& (r == s.len() - 1 || total_cost(FuelModel::Linear, s, r + 1) > total_cost(
                FuelModel::Linear,
                s,
                r as int,
            ))
        },
    }
}

/// Scans candidate targets in order and keeps the last one that did not cost
/// more than its predecessor; under the constant model, takes the median.
pub fn greedy_best_search(positions: &[usize], fuel_model: &FuelModel) -> (r: usize)
    requires
        positions@.len() > 0,
        *fuel_model is Linear ==> forall|p: int| 0 <= p < positions@.len() ==> total_cost(
            *fuel_model,
            positions@,
            p,
        ) <= usize::MAX,
    ensures
        best_search_post(*fuel_model, positions@, r),
{
    if let FuelModel::Constant = fuel_model {
        return find_median(positions);
    }
    let mut best: usize = 0;
    let mut lowest: usize = usize::MAX;
    let mut p: usize = 0;
    while p < positions.len()
        invariant
            0 <= p <= positions@.len(),
            positions@.len() > 0,
            *fuel_model is Linear,
            forall|q: int| 0 <= q < positions@.len() ==> total_cost(*fuel_model, positions@, q)
                <= usize::MAX,
            p == 0 ==> best == 0 && lowest == usize::MAX,
            p > 0 ==> best == p - 1 && lowest == total_cost(*fuel_model, positions@, p - 1),
            forall|i: int| 0 <= i < p - 1 ==> #[trigger] total_cost(*fuel_model, positions@, i + 1)
                <= total_cost(*fuel_model, positions@, i),
        ensures
            best_search_post(*fuel_model, positions@, best),
        decreases positions@.len() - p,
    {
        let p_cost = find_total_diff(positions, p, fuel_model);
        if p_cost > lowest {
            proof {
                assert(p > 0) by {
                    if p == 0 {
                        assert(total_cost(*fuel_model, positions@, 0) <= usize::MAX);
                    }
                }
                assert(best_search_post(*fuel_model, positions@, best));
            }
            break ;
        }
        lowest = p_cost;
        best = p;
        p = p + 1;
    }
    best
}

/// The target the greedy search picks, together with the total fuel it
/// costs.
pub fn choose_best_alignment_position(positions: &Vec<usize>, fuel_model: FuelModel) -> (r: (
    usize,
    usize,
))
    requires
        positions@.len() > 0,
        fuel_model is Linear ==> forall|p: int| 0 <= p < positions@.len() ==> total_cost(
            fuel_model,
            positions@,
            p,
        ) <= usize::MAX,
        fuel_model is Constant ==> forall|i: int| 0 <= i < positions@.len() ==> total_cost(
            fuel_model,
            positions@,
            #[trigger] positions@[i] as int,
        ) <= usize::MAX,
    ensures
        best_search_post(fuel_model, positions@, r.0),
        r.1 == total_cost(fuel_model, positions@, r.0 as int),
{
    let target = greedy_best_search(positions.as_slice(), &fuel_model);
    proof {
        if fuel_model is Constant {
            let t = choose|t: Seq<usize>|
                sorted(t) && t.to_multiset() == positions@.to_multiset() && t.len()
                    == positions@.len() && target == t[positions@.len() as int / 2];
            let mid = positions@.len() as int / 2;
            assert(t.to_multiset().contains(t[mid])) by {
                broadcast use vstd::seq_lib::group_to_multiset_ensures;

                assert(t.contains(t[mid]));
            }
            assert(positions@.to_multiset().contains(t[mid]));
            assert(positions@.contains(t[mid])) by {
                broadcast use vstd::seq_lib::group_to_multiset_ensures;

            }
            let wi = choose|wi: int| 0 <= wi < positions@.len() && positions@[wi] == t[mid];
            assert(total_cost(fuel_model, positions@, positions@[wi] as int) <= usize::MAX);
        }
    }
    let total_diff = find_total_diff(positions.as_slice(), target, &fuel_model);
    (target, total_diff)
}

/// The largest position.
pub open spec fn seq_max(s: Seq<usize>) -> int
    decreases s.len(),
{
    if s.len() <= 1 {
        if s.len() == 0 {
            0
        } else {
            s[0] as int
        }
    } else {
        let m = seq_max(s.drop_last());
        if s.last() > m {
            s.last() as int
        } else {
            m
        }
    }
}

proof fn lemma_seq_max_prefix(s: Seq<usize>, n: int)
    requires
        0 <= n <= s.len(),
    ensures
        seq_max(s.take(n)) <= seq_max(s),
    decreases s.len() - n,
{
    if n < s.len() {
        lemma_seq_max_prefix(s, n + 1);
        assert(s.take(n + 1).drop_last() =~= s.take(n));
        assert(s.take(n + 1).last() == s[n]);
    } else {
        assert(s.take(n) =~= s);
    }
}

/// Tabulates the cost of every distance up to the largest position: slot `d`
/// holds the cost of moving a distance `d`.
pub fn gen_lookup_table(positions: &[usize], fuel_model: &FuelModel) -> (r: Vec<usize>)
    requires
        positions@.len() > 0,
        cost_at(*fuel_model, seq_max(positions@) as nat) <= usize::MAX,
    ensures
        r@.len() == seq_max(positions@) + 1,
        forall|d: int| 0 <= d < r@.len() ==> #[trigger] r@[d] == cost_at(*fuel_model, d as nat),
{
    let mut max_pos: usize = positions[0];
    let mut i: usize = 1;
    while i < positions.len()
        invariant
            1 <= i <= positions@.len(),
            max_pos == seq_max(positions@.take(i as int)),
        decreases positions@.len() - i,
    {
        proof {
            assert(positions@.take(i + 1).drop_last() =~= positions@.take(i as int));
            assert(positions@.take(i + 1).last() == positions@[i as int]);
        }
        if positions[i] > max_pos {
            max_pos = positions[i];
        }
        i = i + 1;
    }
    proof {
        assert(positions@.take(positions@.len() as int) =~= positions@);
    }
    let mut table: Vec<usize> = Vec::new();
    table.push(0);
    let mut cost: usize = 0;
    let mut d: usize = 0;
    while d < max_pos
        invariant
            0 <= d <= max_pos,
            max_pos == seq_max(positions@),
            cost_at(*fuel_model, seq_max(positions@) as nat) <= usize::MAX,
            table@.len() == d + 1,
            forall|e: int| 0 <= e <= d ==> #[trigger] table@[e] == cost_at(*fuel_model, e as nat),
            *fuel_model is Linear ==> cost == d,
        decreases max_pos - d,
    {
        proof {
            if *fuel_model is Linear {
                lemma_tri_monotone((d + 1) as nat, max_pos as nat);
            }
        }
        let prev = table[d];
        let next = match fuel_model {
            FuelModel::Constant => prev + 1,
            FuelModel::Linear => {
                cost = cost + 1;
                prev + cost
            },
        };
        table.push(next);
        d = d + 1;
    }
    table
}

/// Reads a comma-separated list of positions from a line.
pub fn parse_input(line: &str) -> (r: Vec<usize>)
    requires
        forall|i: int| 0 <= i < split_spec(line@, ',').len() ==> is_number(
            #[trigger] split_spec(line@, ',')[i],
        ) && number_value(split_spec(line@, ',')[i]) <= usize::MAX,
    ensures
        r@.len() == split_spec(line@, ',').len(),
        forall|i: int| 0 <= i < r@.len() ==> #[trigger] r@[i] == number_value(
            split_spec(line@, ',')[i],
        ),
{
    let ghost groups = split_spec(line@, ',');
    let cs = chars_of(line);
    let parts = split_on(&cs, ',');
    let mut out: Vec<usize> = Vec::new();
    let mut i: usize = 0;
    while i < parts.len()
        invariant
            0 <= i <= parts@.len(),
            groups == split_spec(line@, ','),
            parts@.map_values(|g: Vec<char>| g@) == groups,
            forall|j: int| 0 <= j < groups.len() ==> is_number(#[trigger] groups[j])
                && number_value(groups[j]) <= usize::MAX,
            out@.len() == i,
            forall|j: int| 0 <= j < i ==> #[trigger] out@[j] == number_value(groups[j]),
        decreases parts@.len() - i,
    {
        proof {
            assert(parts@.map_values(|g: Vec<char>| g@)[i as int] == parts@[i as int]@);
        }
        let n = parse_number(&parts[i]);
        out.push(n as usize);
        i = i + 1;
    }
    out
}

} // verus!
