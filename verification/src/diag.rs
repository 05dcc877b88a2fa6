//! Filtering diagnostic readings bit by bit: at each bit position, keep the
//! readings whose bit agrees with the most (or least) common value there.

use vstd::prelude::*;

verus! {

/// How many readings have bit `bit` set.
pub open spec fn count_bit(s: Seq<i32>, bit: i32) -> nat
    decreases s.len(),
{
    if s.len() == 0 {
        0
    } else {
        count_bit(s.drop_last(), bit) + if (s.last() >> bit) & 1 == 1 {
            1nat
        } else {
            0nat
        }
    }
}

/// The bit value the filter keeps: the most (or least) common bit value,
/// except that a unanimous position always keeps itself.
pub open spec fn majority_choice(s: Seq<i32>, bit: i32, most_common: bool) -> i32 {
    let bitsum = count_bit(s, bit);
    let mcb: i32 = if 2 * bitsum >= s.len() {
        1
    } else {
        0
    };
    let flipped: i32 = if most_common {
        mcb
    } else {
        ((mcb + 1) % 2) as i32
    };
    if bitsum == 0 {
        0
    } else if bitsum == s.len() {
        1
    } else {
        flipped
    }
}

/// The readings that survive filtering from bit `bit` down to bit 0: each
/// round keeps the readings whose bit agrees with `majority_choice` there,
/// and stops once one reading is left or the bits are exhausted.
pub open spec fn do_filter_spec(s: Seq<i32>, bit: i32, most_common: bool) -> Seq<i32>
    decreases bit + 1,
{
    if s.len() <= 1 || bit < 0 {
        s
    } else {
        let choice = majority_choice(s, bit, most_common);
        do_filter_spec(
            s.filter(|x: i32| (x >> bit) & 1 == choice),
            (bit - 1) as i32,
            most_common,
        )
    }
}

/// One filtering round, then the next lower bit, as `do_filter_spec` states.
pub fn do_filter(vec: &[i32], bit: i32, most_common: bool) -> (r: Vec<i32>)
    requires
        bit <= 30,
        vec@.len() <= i32::MAX,
    ensures
        r@ == do_filter_spec(vec@, bit, most_common),
    decreases bit + 1,
{
    let mut copied: Vec<i32> = Vec::new();
    let mut i: usize = 0;
    while i < vec.len()
        invariant
            0 <= i <= vec@.len(),
            copied@ =~= vec@.take(i as int),
        decreases vec@.len() - i,
    {
        proof {
            assert(vec@.take(i + 1) =~= vec@.take(i as int).push(vec@[i as int]));
        }
        copied.push(vec[i]);
        i = i + 1;
    }
    proof {
        assert(vec@.take(vec@.len() as int) =~= vec@);
    }
    if vec.len() <= 1 || bit < 0 {
        return copied;
    }
    let mut bitsum: usize = 0;
    let mut i: usize = 0;
    proof {
        assert(vec@.take(0int) =~= Seq::<i32>::empty());
    }
    while i < vec.len()
        invariant
            0 <= i <= vec@.len(),
            0 <= bit <= 30,
            bitsum == count_bit(vec@.take(i as int), bit),
            bitsum <= i,
        decreases vec@.len() - i,
    {
        proof {
            assert(vec@.take(i + 1).drop_last() =~= vec@.take(i as int));
            assert(vec@.take(i + 1).last() == vec@[i as int]);
        }
        if (vec[i] >> bit) & 1 == 1 {
            bitsum = bitsum + 1;
        }
        i = i + 1;
    }
    proof {
        assert(vec@.take(vec@.len() as int) =~= vec@);
    }
    let mcb: i32 = if 2 * bitsum >= vec.len() {
        1
    } else {
        0
    };
    let mut choice: i32 = if most_common {
        mcb
    } else {
        (mcb + 1) % 2
    };
    if bitsum == 0 {
        choice = 0;
    }
    if bitsum == vec.len() {
        choice = 1;
    }
    proof {
        assert(choice == majority_choice(vec@, bit, most_common));
    }
    let mut filtered: Vec<i32> = Vec::new();
    let ghost pred = |x: i32| (x >> bit) & 1 == choice;
    let mut i: usize = 0;
    proof {
        assert(vec@.take(0int) =~= Seq::<i32>::empty());
        assert(vec@.take(0int).filter(pred) =~= Seq::<i32>::empty());
    }
    while i < vec.len()
        invariant
            0 <= i <= vec@.len(),
            0 <= bit <= 30,
            pred == (|x: i32| (x >> bit) & 1 == choice),
            filtered@ =~= vec@.take(i as int).filter(pred),
        decreases vec@.len() - i,
    {
        proof {
            assert(vec@.take(i + 1).drop_last() =~= vec@.take(i as int));
            assert(vec@.take(i + 1).last() == vec@[i as int]);
            reveal(Seq::filter);
        }
        let x = vec[i];
        if (x >> bit) & 1 == choice {
            filtered.push(x);
        }
        i = i + 1;
    }
    proof {
        assert(vec@.take(vec@.len() as int) =~= vec@);
        assert(filtered@.len() <= vec@.len()) by {
            vec@.lemma_filter_len(pred);
        }
    }
    do_filter(filtered.as_slice(), bit - 1, most_common)
}

/// For each bit-sum, 1 when at least half of `length` readings had the bit
/// set, else 0.
pub fn most_common_bits(bitsums: &Vec<i32>, length: i32) -> (r: Vec<u8>)
    requires
        length >= 0,
    ensures
        r@.len() == bitsums@.len(),
        forall|i: int| 0 <= i < r@.len() ==> #[trigger] r@[i] == (if bitsums@[i] >= length / 2 {
            1u8
        } else {
            0u8
        }),
{
    let mut out: Vec<u8> = Vec::new();
    let mut i: usize = 0;
    while i < bitsums.len()
        invariant
            0 <= i <= bitsums@.len(),
            length >= 0,
            out@.len() == i,
            forall|j: int| 0 <= j < i ==> #[trigger] out@[j] == (if bitsums@[j] >= length / 2 {
                1u8
            } else {
                0u8
            }),
        decreases bitsums@.len() - i,
    {
        if bitsums[i] >= length / 2 {
            out.push(1);
        } else {
            out.push(0);
        }
        i = i + 1;
    }
    out
}

/// For each bit-sum, 0 when at least half of `length` readings had the bit
/// set, else 1.
pub fn least_common_bits(bitsums: &Vec<i32>, length: i32) -> (r: Vec<u8>)
    requires
        length >= 0,
    ensures
        r@.len() == bitsums@.len(),
        forall|i: int| 0 <= i < r@.len() ==> #[trigger] r@[i] == (if bitsums@[i] >= length / 2 {
            0u8
        } else {
            1u8
        }),
{
    let mut out: Vec<u8> = Vec::new();
    let mut i: usize = 0;
    while i < bitsums.len()
        invariant
            0 <= i <= bitsums@.len(),
            length >= 0,
            out@.len() == i,
            forall|j: int| 0 <= j < i ==> #[trigger] out@[j] == (if bitsums@[j] >= length / 2 {
                0u8
            } else {
                1u8
            }),
        decreases bitsums@.len() - i,
    {
        if bitsums[i] >= length / 2 {
            out.push(0);
        } else {
            out.push(1);
        }
        i = i + 1;
    }
    out
}

} // verus!
