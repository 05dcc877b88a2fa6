//! Character-level parsing helpers: splitting a line on a separator and
//! reading unsigned numbers, with the grammar stated as spec functions.

use vstd::prelude::*;

verus! {

/// The groups a separator cuts a character sequence into, built by folding
/// from the right: a separator closes the current group, any other character
/// extends it. The empty sequence is one empty group.
pub open spec fn split_spec(s: Seq<char>, sep: char) -> Seq<Seq<char>>
    decreases s.len(),
{
    if s.len() == 0 {
        seq![Seq::<char>::empty()]
    } else {
        let rest = split_spec(s.drop_last(), sep);
        if s.last() == sep {
            rest.push(Seq::<char>::empty())
        } else {
            rest.update(rest.len() - 1, rest.last().push(s.last()))
        }
    }
}

proof fn lemma_split_spec_len(s: Seq<char>, sep: char)
    ensures
        split_spec(s, sep).len() >= 1,
    decreases s.len(),
{
    if s.len() > 0 {
        lemma_split_spec_len(s.drop_last(), sep);
    }
}

/// Every character is a decimal digit.
pub open spec fn all_digits(s: Seq<char>) -> bool {
    forall|i: int| 0 <= i < s.len() ==> ('0' <= #[trigger] s[i] && s[i] <= '9')
}

/// A non-empty run of decimal digits.
pub open spec fn is_number(s: Seq<char>) -> bool {
    s.len() > 0 && all_digits(s)
}

/// The value of a decimal digit character.
pub open spec fn digit_val(c: char) -> int {
    c as int - '0' as int
}

/// The number denoted by a sequence of decimal digits, most significant
/// first.
pub open spec fn number_value(s: Seq<char>) -> int
    decreases s.len(),
{
    if s.len() == 0 {
        0
    } else {
        number_value(s.drop_last()) * 10 + digit_val(s.last())
    }
}

proof fn lemma_number_value_nonneg(s: Seq<char>)
    requires
        all_digits(s),
    ensures
        number_value(s) >= 0,
    decreases s.len(),
{
    if s.len() > 0 {
        lemma_number_value_nonneg(s.drop_last());
    }
}

proof fn lemma_number_value_monotone(s: Seq<char>, n: int)
    requires
        all_digits(s),
        0 <= n <= s.len(),
    ensures
        number_value(s.take(n)) <= number_value(s),
    decreases s.len() - n,
{
    if n < s.len() {
        lemma_number_value_monotone(s, n + 1);
        lemma_number_value_nonneg(s.take(n));
        assert(all_digits(s.take(n)));
        assert(s.take(n + 1).drop_last() =~= s.take(n));
        assert(s.take(n + 1).last() == s[n]);
    } else {
        assert(s.take(n) =~= s);
    }
}

/// The characters of a string, as a vector.
pub fn chars_of(s: &str) -> (r: Vec<char>)
    ensures
        r@ == s@,
{
    let n = s.unicode_len();
    let mut out: Vec<char> = Vec::new();
    let mut i: usize = 0;
    while i < n
        invariant
            0 <= i <= n,
            n == s@.len(),
            out@ =~= s@.take(i as int),
        decreases n - i,
    {
        let c = s.get_char(i);
        proof {
            assert(s@.take(i + 1) =~= s@.take(i as int).push(s@[i as int]));
        }
        out.push(c);
        i = i + 1;
    }
    proof {
        assert(s@.take(n as int) =~= s@);
    }
    out
}

/// Cuts `s` into the groups that `sep` separates, as `split_spec` states.
pub fn split_on(s: &Vec<char>, sep: char) -> (r: Vec<Vec<char>>)
    ensures
        r@.map_values(|g: Vec<char>| g@) == split_spec(s@, sep),
        r@.len() >= 1,
{
    let mut done: Vec<Vec<char>> = Vec::new();
    let mut cur: Vec<char> = Vec::new();
    let mut i: usize = 0;
    proof {
        assert(done@.map_values(|g: Vec<char>| g@).push(cur@) =~= split_spec(
            s@.take(0int),
            sep,
        ));
        assert(s@.take(0int) =~= Seq::<char>::empty());
    }
    while i < s.len()
        invariant
            0 <= i <= s@.len(),
            done@.map_values(|g: Vec<char>| g@).push(cur@) =~= split_spec(s@.take(i as int), sep),
        decreases s@.len() - i,
    {
        proof {
            assert(s@.take(i + 1).drop_last() =~= s@.take(i as int));
            assert(s@.take(i + 1).last() == s@[i as int]);
            lemma_split_spec_len(s@.take(i as int), sep);
        }
        let c = s[i];
        if c == sep {
            done.push(cur);
            cur = Vec::new();
            proof {
                assert(done@.map_values(|g: Vec<char>| g@).push(cur@) =~= split_spec(
                    s@.take(i as int),
                    sep,
                ).push(Seq::<char>::empty()));
            }
        } else {
            cur.push(c);
            proof {
                let prev = split_spec(s@.take(i as int), sep);
                assert(done@.map_values(|g: Vec<char>| g@).push(cur@) =~= prev.update(
                    prev.len() - 1,
                    prev.last().push(s@[i as int]),
                ));
            }
        }
        i = i + 1;
    }
    proof {
        assert(s@.take(s@.len() as int) =~= s@);
    }
    done.push(cur);
    done
}

/// Tests whether the characters are a non-empty run of decimal digits.
pub fn check_number(s: &Vec<char>) -> (r: bool)
    ensures
        r == is_number(s@),
{
    if s.len() == 0 {
        return false;
    }
    let mut i: usize = 0;
    while i < s.len()
        invariant
            0 <= i <= s@.len(),
            forall|j: int| 0 <= j < i ==> ('0' <= #[trigger] s@[j] && s@[j] <= '9'),
        decreases s@.len() - i,
    {
        let c = s[i];
        if c < '0' || c > '9' {
            return false;
        }
        i = i + 1;
    }
    true
}

/// Reads a run of decimal digits as a number, most significant first.
pub fn parse_number(s: &Vec<char>) -> (r: u64)
    requires
        all_digits(s@),
        number_value(s@) <= u64::MAX,
    ensures
        r == number_value(s@),
{
    let mut acc: u64 = 0;
    let mut i: usize = 0;
    proof {
        assert(s@.take(0int) =~= Seq::<char>::empty());
    }
    while i < s.len()
        invariant
            0 <= i <= s@.len(),
            all_digits(s@),
            number_value(s@) <= u64::MAX,
            acc == number_value(s@.take(i as int)),
        decreases s@.len() - i,
    {
        proof {
            lemma_number_value_monotone(s@, i + 1);
            lemma_number_value_nonneg(s@.take(i as int));
            assert(s@.take(i + 1).drop_last() =~= s@.take(i as int));
            assert(s@.take(i + 1).last() == s@[i as int]);
        }
        let c = s[i];
        let d = (c as u32) - ('0' as u32);
        acc = acc * 10 + (d as u64);
        i = i + 1;
    }
    proof {
        assert(s@.take(s@.len() as int) =~= s@);
    }
    acc
}

/// Drops the empty groups of a split, keeping the order of the rest.
pub fn drop_empty_groups(groups: Vec<Vec<char>>) -> (r: Vec<Vec<char>>)
    ensures
        r@.map_values(|g: Vec<char>| g@) == groups@.map_values(|g: Vec<char>| g@).filter(
            |g: Seq<char>| g.len() > 0,
        ),
{
    let ghost all = groups@.map_values(|g: Vec<char>| g@);
    let mut out: Vec<Vec<char>> = Vec::new();
    let mut i: usize = 0;
    proof {
        assert(all.take(0int) =~= Seq::<Seq<char>>::empty());
        assert(all.take(0int).filter(|g: Seq<char>| g.len() > 0) =~= Seq::<Seq<char>>::empty());
    }
    while i < groups.len()
        invariant
            0 <= i <= groups@.len(),
            all == groups@.map_values(|g: Vec<char>| g@),
            out@.map_values(|g: Vec<char>| g@) =~= all.take(i as int).filter(
                |g: Seq<char>| g.len() > 0,
            ),
        decreases groups@.len() - i,
    {
        proof {
            assert(all.take(i + 1).drop_last() =~= all.take(i as int));
            assert(all.take(i + 1).last() == all[i as int]);
            reveal(Seq::filter);
        }
        let g = groups[i].clone();
        if g.len() > 0 {
            out.push(g);
        }
        i = i + 1;
    }
    proof {
        assert(all.take(all.len() as int) =~= all);
    }
    out
}

} // verus!
