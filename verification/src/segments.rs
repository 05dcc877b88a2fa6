//! Seven-segment display entries: parsing scrambled digit patterns,
//! counting the four uniquely-sized digits, deducing which wire plays which
//! segment, and decoding the output digits.

use crate::parse::{chars_of, split_on, split_spec};
use vstd::pervasive::VecAdditionalExecFns;
use vstd::prelude::*;

verus! {

/// One display segment wire.
#[derive(Clone, Copy, Debug, PartialEq, Eq, Hash, Structural)]
pub enum Segment {
    A,
    B,
    C,
    D,
    E,
    F,
    G,
}

/// The bit a segment contributes to a pattern's bitmap.
pub open spec fn seg_bit(s: Segment) -> int {
    match s {
        Segment::A => 1,
        Segment::B => 2,
        Segment::C => 4,
        Segment::D => 8,
        Segment::E => 16,
        Segment::F => 32,
        Segment::G => 64,
    }
}

/// The sum of the segments' bits, duplicates counted.
pub open spec fn bitmap_spec(segs: Seq<Segment>) -> int
    decreases segs.len(),
{
    if segs.len() == 0 {
        0
    } else {
        bitmap_spec(segs.drop_last()) + seg_bit(segs.last())
    }
}

proof fn lemma_bitmap_nonneg(segs: Seq<Segment>)
    ensures
        bitmap_spec(segs) >= 0,
    decreases segs.len(),
{
    if segs.len() > 0 {
        lemma_bitmap_nonneg(segs.drop_last());
    }
}

proof fn lemma_bitmap_prefix(segs: Seq<Segment>, n: int)
    requires
        0 <= n <= segs.len(),
    ensures
        0 <= bitmap_spec(segs.take(n)) <= bitmap_spec(segs),
    decreases segs.len() - n,
{
    lemma_bitmap_nonneg(segs.take(n));
    if n < segs.len() {
        lemma_bitmap_prefix(segs, n + 1);
        assert(segs.take(n + 1).drop_last() =~= segs.take(n));
        assert(segs.take(n + 1).last() == segs[n]);
    } else {
        assert(segs.take(n) =~= segs);
    }
}

impl Segment {
    /// Adds up the segments' bits.
    pub fn to_bitmap(segments: &[Segment]) -> (r: usize)
        requires
            bitmap_spec(segments@) <= usize::MAX,
        ensures
            r == bitmap_spec(segments@),
    {
        let mut ret: usize = 0;
        let mut i: usize = 0;
        proof {
            assert(segments@.take(0int) =~= Seq::<Segment>::empty());
        }
        while i < segments.len()
            invariant
                0 <= i <= segments@.len(),
                bitmap_spec(segments@) <= usize::MAX,
                ret == bitmap_spec(segments@.take(i as int)),
            decreases segments@.len() - i,
        {
            proof {
                lemma_bitmap_prefix(segments@, i + 1);
                assert(segments@.take(i + 1).drop_last() =~= segments@.take(i as int));
                assert(segments@.take(i + 1).last() == segments@[i as int]);
            }
            let b: usize = match segments[i] {
                Segment::A => 1,
                Segment::B => 2,
                Segment::C => 4,
                Segment::D => 8,
                Segment::E => 16,
                Segment::F => 32,
                Segment::G => 64,
            };
            ret = ret + b;
            i = i + 1;
        }
        proof {
            assert(segments@.take(segments@.len() as int) =~= segments@);
        }
        ret
    }
}

/// The segment a wire letter names.
pub open spec fn seg_of(c: char) -> Segment {
    if c == 'a' {
        Segment::A
    } else if c == 'b' {
        Segment::B
    } else if c == 'c' {
        Segment::C
    } else if c == 'd' {
        Segment::D
    } else if c == 'e' {
        Segment::E
    } else if c == 'f' {
        Segment::F
    } else {
        Segment::G
    }
}

/// Every character names a wire.
pub open spec fn valid_seg_chars(s: Seq<char>) -> bool {
    forall|i: int| 0 <= i < s.len() ==> ('a' <= #[trigger] s[i] && s[i] <= 'g')
}

/// One displayed digit: the wires lit for it, in reading order.
#[derive(Debug, PartialEq, Eq, Hash)]
pub struct Digit {
    pub segments: Vec<Segment>,
}

fn seg_of_char(c: char) -> (r: Segment)
    requires
        'a' <= c <= 'g',
    ensures
        r == seg_of(c),
{
    match c {
        'a' => Segment::A,
        'b' => Segment::B,
        'c' => Segment::C,
        'd' => Segment::D,
        'e' => Segment::E,
        'f' => Segment::F,
        _ => Segment::G,
    }
}

fn digit_from_chars(g: &Vec<char>) -> (r: Digit)
    requires
        valid_seg_chars(g@),
    ensures
        r.segments@ == g@.map_values(|c: char| seg_of(c)),
{
    let mut segs: Vec<Segment> = Vec::new();
    let mut i: usize = 0;
    while i < g.len()
        invariant
            0 <= i <= g@.len(),
            valid_seg_chars(g@),
            segs@ =~= g@.take(i as int).map_values(|c: char| seg_of(c)),
        decreases g@.len() - i,
    {
        proof {
            assert(g@.take(i + 1) =~= g@.take(i as int).push(g@[i as int]));
            assert(g@.take(i + 1).map_values(|c: char| seg_of(c)) =~= g@.take(i as int).map_values(
                |c: char| seg_of(c),
            ).push(seg_of(g@[i as int])));
        }
        segs.push(seg_of_char(g[i]));
        i = i + 1;
    }
    proof {
        assert(g@.take(g@.len() as int) =~= g@);
    }
    Digit { segments: segs }
}

impl Digit {
    /// Parses one digit's wire letters.
    pub fn new(text_rep: &str) -> (r: Digit)
        requires
            valid_seg_chars(text_rep@),
        ensures
            r.segments@ == text_rep@.map_values(|c: char| seg_of(c)),
    {
        let cs = chars_of(text_rep);
        digit_from_chars(&cs)
    }
}

/// One note entry: the ten unique patterns and the four output patterns.
#[derive(Debug)]
pub struct Entry {
    pub uniques: Vec<Digit>,
    pub output: Vec<Digit>,
}

/// The wire patterns of the digits.
pub open spec fn digit_views(ds: Seq<Digit>) -> Seq<Seq<Segment>> {
    ds.map_values(|d: Digit| d.segments@)
}

/// The digits one side of an entry line holds: each non-empty
/// space-separated group, as segments.
pub open spec fn parse_side(part: Seq<char>) -> Seq<Seq<Segment>> {
    split_spec(part, ' ').filter(|g: Seq<char>| g.len() > 0).map_values(
        |g: Seq<char>| g.map_values(|c: char| seg_of(c)),
    )
}

/// The line splits at `|` into two sides of wire-letter groups.
pub open spec fn good_entry_line(s: Seq<char>) -> bool {
    let sides = split_spec(s, '|');
    &&& sides.len() >= 2
    &&& forall|j: int| 0 <= j < split_spec(sides[0], ' ').len() ==> valid_seg_chars(
        #[trigger] split_spec(sides[0], ' ')[j],
    )
    &&& forall|j: int| 0 <= j < split_spec(sides[1], ' ').len() ==> valid_seg_chars(
        #[trigger] split_spec(sides[1], ' ')[j],
    )
}

fn parse_digits(part: &Vec<char>) -> (r: Vec<Digit>)
    requires
        forall|j: int| 0 <= j < split_spec(part@, ' ').len() ==> valid_seg_chars(
            #[trigger] split_spec(part@, ' ')[j],
        ),
    ensures
        digit_views(r@) == parse_side(part@),
{
    let groups = split_on(part, ' ');
    let kept = crate::parse::drop_empty_groups(groups);
    let ghost kept_views = split_spec(part@, ' ').filter(|g: Seq<char>| g.len() > 0);
    proof {
        assert(kept@.map_values(|g: Vec<char>| g@) == kept_views);
        assert forall|j: int| 0 <= j < kept_views.len() implies valid_seg_chars(
            #[trigger] kept_views[j],
        ) by {
            lemma_filter_member_chars(split_spec(part@, ' '), j);
            let all = split_spec(part@, ' ');
            let wi = choose|wi: int| 0 <= wi < all.len() && all[wi] == kept_views[j];
        }
    }
    let mut out: Vec<Digit> = Vec::new();
    let mut i: usize = 0;
    while i < kept.len()
        invariant
            0 <= i <= kept@.len(),
            kept@.map_values(|g: Vec<char>| g@) == kept_views,
            forall|j: int| 0 <= j < kept_views.len() ==> valid_seg_chars(#[trigger] kept_views[j]),
            out@.len() == i,
            forall|j: int| 0 <= j < i ==> (#[trigger] out@[j]).segments@ == kept_views[j].map_values(
                |c: char| seg_of(c),
            ),
        decreases kept@.len() - i,
    {
        proof {
            assert(kept@.map_values(|g: Vec<char>| g@)[i as int] == kept@[i as int]@);
        }
        let d = digit_from_chars(&kept[i]);
        out.push(d);
        i = i + 1;
    }
    proof {
        assert(digit_views(out@) =~= parse_side(part@));
    }
    out
}

proof fn lemma_filter_member_chars(s: Seq<Seq<char>>, j: int)
    requires
        0 <= j < s.filter(|g: Seq<char>| g.len() > 0).len(),
    ensures
        s.contains(s.filter(|g: Seq<char>| g.len() > 0)[j]),
    decreases s.len(),
{
    reveal(Seq::filter);
    let pred = |g: Seq<char>| g.len() > 0;
    if s.len() > 0 {
        let f = s.filter(pred);
        let fd = s.drop_last().filter(pred);
        if pred(s.last()) && j == f.len() - 1 {
            assert(f[j] == s.last());
            assert(s[s.len() - 1] == s.last());
        } else {
            lemma_filter_member_chars(s.drop_last(), j);
            let wi = choose|wi: int| 0 <= wi < s.drop_last().len() && s.drop_last()[wi] == fd[j];
            assert(s[wi] == fd[j]);
        }
    }
}

/// Parses every note line into its unique and output digit patterns.
pub fn parse_text(lines: &Vec<String>) -> (r: Vec<Entry>)
    requires
        forall|i: int| 0 <= i < lines@.len() ==> good_entry_line((#[trigger] lines@[i])@),
    ensures
        r@.len() == lines@.len(),
        forall|i: int| 0 <= i < r@.len() ==> digit_views((#[trigger] r@[i]).uniques@) == parse_side(
            split_spec(lines@[i]@, '|')[0],
        ) && digit_views(r@[i].output@) == parse_side(split_spec(lines@[i]@, '|')[1]),
{
    let mut out: Vec<Entry> = Vec::new();
    let mut i: usize = 0;
    while i < lines.len()
        invariant
            0 <= i <= lines@.len(),
            forall|k: int| 0 <= k < lines@.len() ==> good_entry_line((#[trigger] lines@[k])@),
            out@.len() == i,
            forall|k: int| 0 <= k < i ==> digit_views((#[trigger] out@[k]).uniques@) == parse_side(
                split_spec(lines@[k]@, '|')[0],
            ) && digit_views(out@[k].output@) == parse_side(split_spec(lines@[k]@, '|')[1]),
        decreases lines@.len() - i,
    {
        let cs = chars_of(lines[i].as_str());
        let sides = split_on(&cs, '|');
        proof {
            assert(sides@.map_values(|g: Vec<char>| g@)[0] == sides@[0]@);
            assert(sides@.map_values(|g: Vec<char>| g@)[1] == sides@[1]@);
        }
        let uniques = parse_digits(&sides[0]);
        let output = parse_digits(&sides[1]);
        out.push(Entry { uniques, output });
        i = i + 1;
    }
    out
}

/// A pattern with as many segments as only one digit has: 1, 7, 4 or 8.
pub open spec fn easy_pattern(v: Seq<Segment>) -> bool {
    v.len() == 2 || v.len() == 3 || v.len() == 4 || v.len() == 7
}

/// The easy output patterns of the entries, in reading order.
pub open spec fn easies_spec(entries: Seq<Entry>) -> Seq<Seq<Segment>>
    decreases entries.len(),
{
    if entries.len() == 0 {
        Seq::empty()
    } else {
        easies_spec(entries.drop_last()) + digit_views(entries.last().output@).filter(
            |v: Seq<Segment>| easy_pattern(v),
        )
    }
}

/// The output digits whose segment count identifies them at sight.
pub fn get_easies<'a>(entries: &'a Vec<Entry>) -> (r: Vec<&'a Digit>)
    ensures
        r@.map_values(|d: &Digit| d.segments@) == easies_spec(entries@),
{
    let mut ret: Vec<&Digit> = Vec::new();
    let mut i: usize = 0;
    proof {
        assert(entries@.take(0int) =~= Seq::<Entry>::empty());
        assert(ret@.map_values(|d: &Digit| d.segments@) =~= easies_spec(entries@.take(0int)));
    }
    while i < entries.len()
        invariant
            0 <= i <= entries@.len(),
            ret@.map_values(|d: &Digit| d.segments@) == easies_spec(entries@.take(i as int)),
        decreases entries@.len() - i,
    {
        proof {
            assert(entries@.take(i + 1).drop_last() =~= entries@.take(i as int));
            assert(entries@.take(i + 1).last() == entries@[i as int]);
        }
        let entry = &entries[i];
        let ghost outs = digit_views(entry.output@);
        let mut j: usize = 0;
        proof {
            assert(outs.take(0int) =~= Seq::<Seq<Segment>>::empty());
            assert(outs.take(0int).filter(|v: Seq<Segment>| easy_pattern(v)) =~= Seq::<
                Seq<Segment>,
            >::empty()) by {
                reveal(Seq::filter);
            }
            assert(ret@.map_values(|d: &Digit| d.segments@) =~= easies_spec(entries@.take(i as int))
                + outs.take(0int).filter(|v: Seq<Segment>| easy_pattern(v)));
        }
        while j < entry.output.len()
            invariant
                0 <= j <= entry.output@.len(),
                0 <= i < entries@.len(),
                outs == digit_views(entry.output@),
                ret@.map_values(|d: &Digit| d.segments@) == easies_spec(entries@.take(i as int))
                    + outs.take(j as int).filter(|v: Seq<Segment>| easy_pattern(v)),
            decreases entry.output@.len() - j,
        {
            proof {
                assert(outs.take(j + 1).drop_last() =~= outs.take(j as int));
                assert(outs.take(j + 1).last() == outs[j as int]);
                assert(outs[j as int] == entry.output@[j as int].segments@);
                reveal(Seq::filter);
            }
            let o = &entry.output[j];
            let len = o.segments.len();
            if len == 2 || len == 3 || len == 4 || len == 7 {
                ret.push(o);
                proof {
                    assert(ret@.map_values(|d: &Digit| d.segments@) =~= ret@.drop_last().map_values(
                        |d: &Digit| d.segments@,
                    ).push(o.segments@));
                    assert(o.segments@ == outs[j as int]);
                    assert(easy_pattern(outs[j as int]));
                    assert(outs.take(j + 1).filter(|v: Seq<Segment>| easy_pattern(v))
                        =~= outs.take(j as int).filter(|v: Seq<Segment>| easy_pattern(v)).push(
                        outs[j as int],
                    )) by {
                        reveal(Seq::filter);
                        assert(outs.take(j + 1).drop_last() =~= outs.take(j as int));
                        assert(outs.take(j + 1).last() == outs[j as int]);
                    }
                    assert(ret@.drop_last().map_values(|d: &Digit| d.segments@) == easies_spec(
                        entries@.take(i as int),
                    ) + outs.take(j as int).filter(|v: Seq<Segment>| easy_pattern(v)));
                    assert((easies_spec(entries@.take(i as int)) + outs.take(j as int).filter(
                        |v: Seq<Segment>| easy_pattern(v),
                    )).push(outs[j as int]) =~= easies_spec(entries@.take(i as int)) + outs.take(
                        j as int,
                    ).filter(|v: Seq<Segment>| easy_pattern(v)).push(outs[j as int]));
                    assert(ret@.map_values(|d: &Digit| d.segments@) =~= easies_spec(
                        entries@.take(i as int),
                    ) + outs.take(j + 1).filter(|v: Seq<Segment>| easy_pattern(v)));
                }
            } else {
                proof {
                    assert(outs.take(j + 1).filter(|v: Seq<Segment>| easy_pattern(v))
                        =~= outs.take(j as int).filter(|v: Seq<Segment>| easy_pattern(v))) by {
                        reveal(Seq::filter);
                        assert(outs.take(j + 1).drop_last() =~= outs.take(j as int));
                        assert(outs.take(j + 1).last() == outs[j as int]);
                        assert(!easy_pattern(outs[j as int]));
                    }
                }
            }
            j = j + 1;
        }
        proof {
            assert(outs.take(outs.len() as int) =~= outs);
        }
        i = i + 1;
    }
    proof {
        assert(entries@.take(entries@.len() as int) =~= entries@);
    }
    ret
}

/// The last pattern with exactly `n` segments, or empty if there is none.
pub open spec fn last_with_len(ds: Seq<Seq<Segment>>, n: nat) -> Seq<Segment>
    decreases ds.len(),
{
    if ds.len() == 0 {
        Seq::empty()
    } else if ds.last().len() == n {
        ds.last()
    } else {
        last_with_len(ds.drop_last(), n)
    }
}

/// The two right-hand wires: the pattern of the 1.
pub open spec fn rs_of(ds: Seq<Seq<Segment>>) -> Seq<Segment> {
    last_with_len(ds, 2)
}

/// The 7's wires that the 1 does not light: candidates for the top wire.
pub open spec fn top_candidates(ds: Seq<Seq<Segment>>) -> Seq<Segment> {
    last_with_len(ds, 3).filter(|x: Segment| !rs_of(ds).contains(x))
}

/// The top wire.
pub open spec fn top_of(ds: Seq<Seq<Segment>>) -> Segment {
    top_candidates(ds)[0]
}

/// The 4's pattern.
pub open spec fn four_of(ds: Seq<Seq<Segment>>) -> Seq<Segment> {
    last_with_len(ds, 4)
}

/// How many patterns light `a` but not `b`.
pub open spec fn count_with(ds: Seq<Seq<Segment>>, a: Segment, b: Segment) -> nat
    decreases ds.len(),
{
    if ds.len() == 0 {
        0
    } else {
        count_with(ds.drop_last(), a, b) + if ds.last().contains(a) && !ds.last().contains(b) {
            1nat
        } else {
            0nat
        }
    }
}

/// The lower right wire: of the 1's two wires, the one that more often
/// appears without the other.
pub open spec fn right_bot_of(ds: Seq<Seq<Segment>>) -> Segment {
    if count_with(ds, rs_of(ds)[0], rs_of(ds)[1]) > count_with(ds, rs_of(ds)[1], rs_of(ds)[0]) {
        rs_of(ds)[0]
    } else {
        rs_of(ds)[1]
    }
}

/// The upper right wire: the 1's other wire.
pub open spec fn right_top_of(ds: Seq<Seq<Segment>>) -> Segment {
    if count_with(ds, rs_of(ds)[0], rs_of(ds)[1]) > count_with(ds, rs_of(ds)[1], rs_of(ds)[0]) {
        rs_of(ds)[1]
    } else {
        rs_of(ds)[0]
    }
}

/// The pattern lights the upper right wire but not the lower right one:
/// only the 2 does.
pub open spec fn two_cond(ds: Seq<Seq<Segment>>, u: Seq<Segment>) -> bool {
    u.contains(right_top_of(ds)) && !u.contains(right_bot_of(ds))
}

pub open spec fn last_two_from(ds: Seq<Seq<Segment>>, part: Seq<Seq<Segment>>) -> Seq<Segment>
    decreases part.len(),
{
    if part.len() == 0 {
        Seq::empty()
    } else if two_cond(ds, part.last()) {
        part.last()
    } else {
        last_two_from(ds, part.drop_last())
    }
}

/// The 2's pattern: the last pattern matching `two_cond`.
pub open spec fn two_of(ds: Seq<Seq<Segment>>) -> Seq<Segment> {
    last_two_from(ds, ds)
}

pub open spec fn scan_left_top(ds: Seq<Seq<Segment>>, v: Seq<Segment>) -> Segment
    decreases v.len(),
{
    if v.len() == 0 {
        four_of(ds)[0]
    } else if !two_of(ds).contains(v.first()) && v.first() != right_bot_of(ds) {
        v.first()
    } else {
        scan_left_top(ds, v.drop_first())
    }
}

/// The upper left wire: the first of the 4's wires that the 2 does not
/// light and that is not the lower right wire.
pub open spec fn left_top_of(ds: Seq<Seq<Segment>>) -> Segment {
    scan_left_top(ds, four_of(ds))
}

pub open spec fn scan_mid(ds: Seq<Seq<Segment>>, v: Seq<Segment>) -> Segment
    decreases v.len(),
{
    if v.len() == 0 {
        four_of(ds)[0]
    } else if v.last() != right_top_of(ds) && v.last() != left_top_of(ds) && v.last()
        != right_bot_of(ds) {
        v.last()
    } else {
        scan_mid(ds, v.drop_last())
    }
}

/// The middle wire: the 4's wire that plays none of the three roles found
/// so far.
pub open spec fn mid_of(ds: Seq<Seq<Segment>>) -> Segment {
    scan_mid(ds, four_of(ds))
}

/// The 2's wires not yet assigned a role: the bottom and lower left wires.
pub open spec fn remainder_of(ds: Seq<Seq<Segment>>) -> Seq<Segment> {
    two_of(ds).filter(
        |x: Segment| x != top_of(ds) && x != right_top_of(ds) && x != left_top_of(ds) && x
            != right_bot_of(ds) && x != mid_of(ds),
    )
}

/// How many patterns light the wire.
pub open spec fn count_seg(ds: Seq<Seq<Segment>>, a: Segment) -> nat
    decreases ds.len(),
{
    if ds.len() == 0 {
        0
    } else {
        count_seg(ds.drop_last(), a) + if ds.last().contains(a) {
            1nat
        } else {
            0nat
        }
    }
}

/// The bottom wire: of the two remaining wires, the more common one.
pub open spec fn bot_of(ds: Seq<Seq<Segment>>) -> Segment {
    if count_seg(ds, remainder_of(ds)[0]) > count_seg(ds, remainder_of(ds)[1]) {
        remainder_of(ds)[0]
    } else {
        remainder_of(ds)[1]
    }
}

/// The lower left wire: the other remaining wire.
pub open spec fn left_bot_of(ds: Seq<Seq<Segment>>) -> Segment {
    if count_seg(ds, remainder_of(ds)[0]) > count_seg(ds, remainder_of(ds)[1]) {
        remainder_of(ds)[1]
    } else {
        remainder_of(ds)[0]
    }
}

/// The pattern lights the 9's wires and not its missing one.
pub open spec fn cond9(ds: Seq<Seq<Segment>>, u: Seq<Segment>) -> bool {
    u.contains(top_of(ds)) && u.contains(left_top_of(ds)) && u.contains(right_top_of(ds))
        && u.contains(mid_of(ds)) && !u.contains(left_bot_of(ds)) && u.contains(right_bot_of(ds))
        && u.contains(bot_of(ds))
}

/// The pattern lights the 5's wires and not its missing one.
pub open spec fn cond5(ds: Seq<Seq<Segment>>, u: Seq<Segment>) -> bool {
    u.contains(top_of(ds)) && u.contains(left_top_of(ds)) && !u.contains(right_top_of(ds))
        && u.contains(mid_of(ds)) && u.contains(right_bot_of(ds)) && u.contains(bot_of(ds))
}

/// The pattern lights the 3's wires and not its missing one.
pub open spec fn cond3(ds: Seq<Seq<Segment>>, u: Seq<Segment>) -> bool {
    u.contains(top_of(ds)) && !u.contains(left_top_of(ds)) && u.contains(right_top_of(ds))
        && u.contains(mid_of(ds)) && u.contains(right_bot_of(ds)) && u.contains(bot_of(ds))
}

/// The pattern lights the 6's wires and not its missing one.
pub open spec fn cond6(ds: Seq<Seq<Segment>>, u: Seq<Segment>) -> bool {
    u.contains(top_of(ds)) && u.contains(left_top_of(ds)) && !u.contains(right_top_of(ds))
        && u.contains(mid_of(ds)) && u.contains(left_bot_of(ds)) && u.contains(right_bot_of(ds))
        && u.contains(bot_of(ds))
}

/// The pattern lights the 0's wires and not its missing one.
pub open spec fn cond0(ds: Seq<Seq<Segment>>, u: Seq<Segment>) -> bool {
    u.contains(top_of(ds)) && u.contains(left_top_of(ds)) && u.contains(right_top_of(ds))
        && !u.contains(mid_of(ds)) && u.contains(left_bot_of(ds)) && u.contains(right_bot_of(ds))
        && u.contains(bot_of(ds))
}

/// The deduction assigns the pattern a digit.
pub open spec fn classified(ds: Seq<Seq<Segment>>, u: Seq<Segment>) -> bool {
    easy_pattern(u) || two_cond(ds, u) || cond9(ds, u) || cond5(ds, u) || cond3(ds, u) || cond6(
        ds,
        u,
    ) || cond0(ds, u)
}

/// What the deduction needs of the unique patterns to run through.
pub open spec fn configurable(ds: Seq<Seq<Segment>>) -> bool {
    &&& rs_of(ds).len() == 2
    &&& last_with_len(ds, 3).len() == 3
    &&& four_of(ds).len() == 4
    &&& rs_of(ds)[0] != rs_of(ds)[1]
    &&& top_candidates(ds).len() >= 1
    &&& remainder_of(ds).len() >= 2
    &&& remainder_of(ds)[0] != remainder_of(ds)[1]
    &&& forall|i: int| 0 <= i < ds.len() ==> 0 <= bitmap_spec(#[trigger] ds[i]) < 128
}

/// Whether the wire is among the given ones.
fn seg_in(v: &Vec<Segment>, s: Segment) -> (r: bool)
    ensures
        r == v@.contains(s),
{
    let mut i: usize = 0;
    while i < v.len()
        invariant
            0 <= i <= v@.len(),
            forall|j: int| 0 <= j < i ==> v@[j] != s,
        decreases v@.len() - i,
    {
        if v[i] == s {
            return true;
        }
        i = i + 1;
    }
    false
}

fn clone_segs(v: &Vec<Segment>) -> (r: Vec<Segment>)
    ensures
        r@ == v@,
{
    let mut out: Vec<Segment> = Vec::new();
    let mut i: usize = 0;
    while i < v.len()
        invariant
            0 <= i <= v@.len(),
            out@ =~= v@.take(i as int),
        decreases v@.len() - i,
    {
        proof {
            assert(v@.take(i + 1) =~= v@.take(i as int).push(v@[i as int]));
        }
        out.push(v[i]);
        i = i + 1;
    }
    proof {
        assert(v@.take(v@.len() as int) =~= v@);
    }
    out
}

/// Deduces which wire plays which segment and tabulates, by bitmap, the
/// digit each unique pattern shows. Slot `b` of the table holds the digit of
/// the pattern with bitmap `b`, once the deduction classifies that pattern.
pub fn find_configuration(uniques: &Vec<Digit>) -> (r: Vec<Option<u8>>)
    requires
        configurable(digit_views(uniques@)),
    ensures
        r@.len() == 128,
        forall|b: int| 0 <= b < 128 ==> ((#[trigger] r@[b]) matches Some(d) ==> d <= 9),
        forall|k: int| 0 <= k < uniques@.len() && classified(
            digit_views(uniques@),
            digit_views(uniques@)[k],
        ) ==> r@[bitmap_spec(digit_views(uniques@)[k])] is Some,
{
    let ghost ds = digit_views(uniques@);
    let mut table: Vec<Option<u8>> = vec![None; 128];
    let mut right_side: Vec<Segment> = Vec::new();
    let mut top_raw: Vec<Segment> = Vec::new();
    let mut four: Vec<Segment> = Vec::new();
    let mut i: usize = 0;
    proof {
        assert(ds.take(0int) =~= Seq::<Seq<Segment>>::empty());
    }
    while i < uniques.len()
        invariant
            0 <= i <= uniques@.len(),
            ds == digit_views(uniques@),
            configurable(ds),
            table@.len() == 128,
            right_side@ == last_with_len(ds.take(i as int), 2),
            top_raw@ == last_with_len(ds.take(i as int), 3),
            four@ == last_with_len(ds.take(i as int), 4),
            forall|b: int| 0 <= b < 128 ==> ((#[trigger] table@[b]) matches Some(d) ==> d <= 9),
            forall|k: int| 0 <= k < i && easy_pattern(ds[k]) ==> table@[bitmap_spec(ds[k])] is Some,
        decreases uniques@.len() - i,
    {
        proof {
            assert(ds.take(i + 1).drop_last() =~= ds.take(i as int));
            assert(ds.take(i + 1).last() == ds[i as int]);
            assert(ds[i as int] == uniques@[i as int].segments@);
            assert(0 <= bitmap_spec(ds[i as int]) < 128);
        }
        let u = &uniques[i];
        let len = u.segments.len();
        let bm = Segment::to_bitmap(u.segments.as_slice());
        if len == 2 {
            right_side = clone_segs(&u.segments);
            table.set(bm, Some(1));
        } else if len == 3 {
            top_raw = clone_segs(&u.segments);
            table.set(bm, Some(7));
        } else if len == 4 {
            four = clone_segs(&u.segments);
            table.set(bm, Some(4));
        } else if len == 7 {
            table.set(bm, Some(8));
        }
        i = i + 1;
    }
    proof {
        assert(ds.take(ds.len() as int) =~= ds);
    }
    let mut top_cands: Vec<Segment> = Vec::new();
    let mut j: usize = 0;
    proof {
        assert(top_raw@.take(0int) =~= Seq::<Segment>::empty());
        assert(top_raw@.take(0int).filter(|x: Segment| !rs_of(ds).contains(x)) =~= Seq::<
            Segment,
        >::empty()) by {
            reveal(Seq::filter);
        }
    }
    while j < top_raw.len()
        invariant
            0 <= j <= top_raw@.len(),
            ds == digit_views(uniques@),
            right_side@ == rs_of(ds),
            top_raw@ == last_with_len(ds, 3),
            top_cands@ == top_raw@.take(j as int).filter(|x: Segment| !rs_of(ds).contains(x)),
        decreases top_raw@.len() - j,
    {
        proof {
            assert(top_raw@.take(j + 1).drop_last() =~= top_raw@.take(j as int));
            assert(top_raw@.take(j + 1).last() == top_raw@[j as int]);
        }
        let x = top_raw[j];
        let inside = seg_in(&right_side, x);
        if !inside {
            top_cands.push(x);
        }
        proof {
            assert(top_cands@ =~= top_raw@.take(j + 1).filter(|x2: Segment| !rs_of(ds).contains(x2)))
                by {
                reveal(Seq::filter);
            }
        }
        j = j + 1;
    }
    proof {
        assert(top_raw@.take(top_raw@.len() as int) =~= top_raw@);
        assert(top_cands@ == top_candidates(ds));
    }
    let top = top_cands[0];
    let rs0 = right_side[0];
    let rs1 = right_side[1];
    let mut count_a: usize = 0;
    let mut count_b: usize = 0;
    let mut i2: usize = 0;
    proof {
        assert(ds.take(0int) =~= Seq::<Seq<Segment>>::empty());
    }
    while i2 < uniques.len()
        invariant
            0 <= i2 <= uniques@.len(),
            ds == digit_views(uniques@),
            rs0 == rs_of(ds)[0],
            rs1 == rs_of(ds)[1],
            count_a == count_with(ds.take(i2 as int), rs0, rs1),
            count_b == count_with(ds.take(i2 as int), rs1, rs0),
            count_a <= i2,
            count_b <= i2,
        decreases uniques@.len() - i2,
    {
        proof {
            assert(ds.take(i2 + 1).drop_last() =~= ds.take(i2 as int));
            assert(ds.take(i2 + 1).last() == ds[i2 as int]);
            assert(ds[i2 as int] == uniques@[i2 as int].segments@);
        }
        let u = &uniques[i2];
        let has0 = seg_in(&u.segments, rs0);
        let has1 = seg_in(&u.segments, rs1);
        if has0 && !has1 {
            count_a = count_a + 1;
        }
        if !has0 && has1 {
            count_b = count_b + 1;
        }
        i2 = i2 + 1;
    }
    proof {
        assert(ds.take(ds.len() as int) =~= ds);
    }
    let right_bot = if count_a > count_b {
        rs0
    } else {
        rs1
    };
    let right_top = if count_a > count_b {
        rs1
    } else {
        rs0
    };
    proof {
        assert(right_bot == right_bot_of(ds));
        assert(right_top == right_top_of(ds));
    }
    let mut two: Vec<Segment> = Vec::new();
    let mut i3: usize = 0;
    proof {
        assert(ds.take(0int) =~= Seq::<Seq<Segment>>::empty());
    }
    while i3 < uniques.len()
        invariant
            0 <= i3 <= uniques@.len(),
            ds == digit_views(uniques@),
            configurable(ds),
            right_bot == right_bot_of(ds),
            right_top == right_top_of(ds),
            table@.len() == 128,
            two@ == last_two_from(ds, ds.take(i3 as int)),
            forall|b: int| 0 <= b < 128 ==> ((#[trigger] table@[b]) matches Some(d) ==> d <= 9),
            forall|k: int| 0 <= k < ds.len() && easy_pattern(ds[k]) ==> table@[bitmap_spec(
                ds[k],
            )] is Some,
            forall|k: int| 0 <= k < i3 && two_cond(ds, ds[k]) ==> table@[bitmap_spec(
                ds[k],
            )] is Some,
        decreases uniques@.len() - i3,
    {
        proof {
            assert(ds.take(i3 + 1).drop_last() =~= ds.take(i3 as int));
            assert(ds.take(i3 + 1).last() == ds[i3 as int]);
            assert(ds[i3 as int] == uniques@[i3 as int].segments@);
            assert(0 <= bitmap_spec(ds[i3 as int]) < 128);
        }
        let u = &uniques[i3];
        let has_rt = seg_in(&u.segments, right_top);
        let has_rb = seg_in(&u.segments, right_bot);
        if has_rt && !has_rb {
            let bm = Segment::to_bitmap(u.segments.as_slice());
            table.set(bm, Some(2));
            two = clone_segs(&u.segments);
        }
        i3 = i3 + 1;
    }
    proof {
        assert(ds.take(ds.len() as int) =~= ds);
        assert(two@ == two_of(ds));
    }
    let mut left_top = four[0];
    let mut found_lt = false;
    let mut j2: usize = 0;
    proof {
        assert(four@.skip(0int) =~= four@);
    }
    while j2 < four.len()
        invariant
            0 <= j2 <= four@.len(),
            ds == digit_views(uniques@),
            four@ == four_of(ds),
            four@.len() == 4,
            two@ == two_of(ds),
            right_bot == right_bot_of(ds),
            found_lt ==> left_top == left_top_of(ds),
            !found_lt ==> left_top == four@[0] && scan_left_top(ds, four@) == scan_left_top(
                ds,
                four@.skip(j2 as int),
            ),
        decreases four@.len() - j2,
    {
        proof {
            assert(four@.skip(j2 as int).first() == four@[j2 as int]);
            assert(four@.skip(j2 as int).drop_first() =~= four@.skip(j2 + 1));
        }
        if !found_lt {
            let x = four[j2];
            let in_two = seg_in(&two, x);
            if !in_two && x != right_bot {
                left_top = x;
                found_lt = true;
            }
        }
        j2 = j2 + 1;
    }
    proof {
        if !found_lt {
            assert(four@.skip(four@.len() as int) =~= Seq::<Segment>::empty());
        }
        assert(left_top == left_top_of(ds));
    }
    let mut mid = four[0];
    let mut j3: usize = 0;
    proof {
        assert(four@.take(0int) =~= Seq::<Segment>::empty());
    }
    while j3 < four.len()
        invariant
            0 <= j3 <= four@.len(),
            ds == digit_views(uniques@),
            four@ == four_of(ds),
            four@.len() == 4,
            right_top == right_top_of(ds),
            right_bot == right_bot_of(ds),
            left_top == left_top_of(ds),
            mid == scan_mid(ds, four@.take(j3 as int)),
        decreases four@.len() - j3,
    {
        proof {
            assert(four@.take(j3 + 1).drop_last() =~= four@.take(j3 as int));
            assert(four@.take(j3 + 1).last() == four@[j3 as int]);
        }
        let x = four[j3];
        if x != right_top && x != left_top && x != right_bot {
            mid = x;
        }
        j3 = j3 + 1;
    }
    proof {
        assert(four@.take(four@.len() as int) =~= four@);
        assert(mid == mid_of(ds));
    }
    let mut remainder: Vec<Segment> = Vec::new();
    let mut j4: usize = 0;
    let ghost rem_pred = |x: Segment|
        x != top_of(ds) && x != right_top_of(ds) && x != left_top_of(ds) && x != right_bot_of(ds)
            && x != mid_of(ds);
    proof {
        assert(two@.take(0int) =~= Seq::<Segment>::empty());
        assert(two@.take(0int).filter(rem_pred) =~= Seq::<Segment>::empty()) by {
            reveal(Seq::filter);
        }
    }
    while j4 < two.len()
        invariant
            0 <= j4 <= two@.len(),
            ds == digit_views(uniques@),
            two@ == two_of(ds),
            top == top_of(ds),
            right_top == right_top_of(ds),
            right_bot == right_bot_of(ds),
            left_top == left_top_of(ds),
            mid == mid_of(ds),
            rem_pred == (|x: Segment|
                x != top_of(ds) && x != right_top_of(ds) && x != left_top_of(ds) && x
                    != right_bot_of(ds) && x != mid_of(ds)),
            remainder@ == two@.take(j4 as int).filter(rem_pred),
        decreases two@.len() - j4,
    {
        proof {
            assert(two@.take(j4 + 1).drop_last() =~= two@.take(j4 as int));
            assert(two@.take(j4 + 1).last() == two@[j4 as int]);
        }
        let x = two[j4];
        if x != top && x != right_top && x != left_top && x != right_bot && x != mid {
            remainder.push(x);
        }
        proof {
            assert(remainder@ =~= two@.take(j4 + 1).filter(rem_pred)) by {
                reveal(Seq::filter);
            }
        }
        j4 = j4 + 1;
    }
    proof {
        assert(two@.take(two@.len() as int) =~= two@);
        assert(remainder@ =~= remainder_of(ds));
    }
    let rem0 = remainder[0];
    let rem1 = remainder[1];
    let mut cnt0: usize = 0;
    let mut cnt1: usize = 0;
    let mut i4: usize = 0;
    proof {
        assert(ds.take(0int) =~= Seq::<Seq<Segment>>::empty());
    }
    while i4 < uniques.len()
        invariant
            0 <= i4 <= uniques@.len(),
            ds == digit_views(uniques@),
            rem0 == remainder_of(ds)[0],
            rem1 == remainder_of(ds)[1],
            cnt0 == count_seg(ds.take(i4 as int), rem0),
            cnt1 == count_seg(ds.take(i4 as int), rem1),
            cnt0 <= i4,
            cnt1 <= i4,
        decreases uniques@.len() - i4,
    {
        proof {
            assert(ds.take(i4 + 1).drop_last() =~= ds.take(i4 as int));
            assert(ds.take(i4 + 1).last() == ds[i4 as int]);
            assert(ds[i4 as int] == uniques@[i4 as int].segments@);
        }
        let u = &uniques[i4];
        if seg_in(&u.segments, rem0) {
            cnt0 = cnt0 + 1;
        }
        if seg_in(&u.segments, rem1) {
            cnt1 = cnt1 + 1;
        }
        i4 = i4 + 1;
    }
    proof {
        assert(ds.take(ds.len() as int) =~= ds);
    }
    let bot = if cnt0 > cnt1 {
        rem0
    } else {
        rem1
    };
    let left_bot = if cnt0 > cnt1 {
        rem1
    } else {
        rem0
    };
    proof {
        assert(bot == bot_of(ds));
        assert(left_bot == left_bot_of(ds));
    }
    let mut i5: usize = 0;
    while i5 < uniques.len()
        invariant
            0 <= i5 <= uniques@.len(),
            ds == digit_views(uniques@),
            configurable(ds),
            table@.len() == 128,
            top == top_of(ds),
            right_top == right_top_of(ds),
            right_bot == right_bot_of(ds),
            left_top == left_top_of(ds),
            mid == mid_of(ds),
            bot == bot_of(ds),
            left_bot == left_bot_of(ds),
            forall|b: int| 0 <= b < 128 ==> ((#[trigger] table@[b]) matches Some(d) ==> d <= 9),
            forall|k: int| 0 <= k < ds.len() && easy_pattern(ds[k]) ==> table@[bitmap_spec(
                ds[k],
            )] is Some,
            forall|k: int| 0 <= k < ds.len() && two_cond(ds, ds[k]) ==> table@[bitmap_spec(
                ds[k],
            )] is Some,
            forall|k: int| 0 <= k < i5 && (cond9(ds, ds[k]) || cond5(ds, ds[k]) || cond3(ds, ds[k])
                || cond6(ds, ds[k]) || cond0(ds, ds[k])) ==> table@[bitmap_spec(ds[k])] is Some,
        decreases uniques@.len() - i5,
    {
        proof {
            assert(ds[i5 as int] == uniques@[i5 as int].segments@);
            assert(0 <= bitmap_spec(ds[i5 as int]) < 128);
        }
        let u = &uniques[i5];
        let has_top = seg_in(&u.segments, top);
        let has_lt = seg_in(&u.segments, left_top);
        let has_rt = seg_in(&u.segments, right_top);
        let has_mid = seg_in(&u.segments, mid);
        let has_lb = seg_in(&u.segments, left_bot);
        let has_rb = seg_in(&u.segments, right_bot);
        let has_bot = seg_in(&u.segments, bot);
        let bm = Segment::to_bitmap(u.segments.as_slice());
        if has_top && has_lt && has_rt && has_mid && !has_lb && has_rb && has_bot {
            table.set(bm, Some(9));
        }
        if has_top && has_lt && !has_rt && has_mid && has_rb && has_bot {
            table.set(bm, Some(5));
        }
        if has_top && !has_lt && has_rt && has_mid && has_rb && has_bot {
            table.set(bm, Some(3));
        }
        if has_top && has_lt && !has_rt && has_mid && has_lb && has_rb && has_bot {
            table.set(bm, Some(6));
        }
        if has_top && has_lt && has_rt && !has_mid && has_lb && has_rb && has_bot {
            table.set(bm, Some(0));
        }
        i5 = i5 + 1;
    }
    table
}

/// Ten to the `n`-th power.
pub open spec fn pow10(n: nat) -> int
    decreases n,
{
    if n == 0 {
        1
    } else {
        10 * pow10((n - 1) as nat)
    }
}

/// The digit a table slot holds, 0 when empty.
pub open spec fn slot_val(o: Option<u8>) -> int {
    match o {
        Some(d) => d as int,
        None => 0,
    }
}

/// The number the output patterns spell under the table, first pattern most
/// significant.
pub open spec fn decode_value(table: Seq<Option<u8>>, outs: Seq<Seq<Segment>>) -> int
    decreases outs.len(),
{
    if outs.len() == 0 {
        0
    } else {
        decode_value(table, outs.drop_last()) * 10 + slot_val(table[bitmap_spec(outs.last())])
    }
}

proof fn lemma_decode_nonneg(table: Seq<Option<u8>>, outs: Seq<Seq<Segment>>)
    requires
        forall|j: int| 0 <= j < outs.len() ==> 0 <= bitmap_spec(#[trigger] outs[j]) < table.len(),
    ensures
        decode_value(table, outs) >= 0,
    decreases outs.len(),
{
    if outs.len() > 0 {
        lemma_decode_nonneg(table, outs.drop_last());
    }
}

proof fn lemma_decode_prefix(table: Seq<Option<u8>>, outs: Seq<Seq<Segment>>, n: int)
    requires
        0 <= n <= outs.len(),
        forall|j: int| 0 <= j < outs.len() ==> 0 <= bitmap_spec(#[trigger] outs[j]) < table.len(),
    ensures
        0 <= decode_value(table, outs.take(n)) <= decode_value(table, outs),
    decreases outs.len() - n,
{
    assert(forall|j: int| 0 <= j < outs.take(n).len() ==> 0 <= bitmap_spec(
        #[trigger] outs.take(n)[j],
    ) < table.len());
    lemma_decode_nonneg(table, outs.take(n));
    if n < outs.len() {
        lemma_decode_prefix(table, outs, n + 1);
        assert(outs.take(n + 1).drop_last() =~= outs.take(n));
        assert(outs.take(n + 1).last() == outs[n]);
        assert(decode_value(table, outs.take(n)) * 10 >= decode_value(table, outs.take(n)))
            by (nonlinear_arith)
            requires decode_value(table, outs.take(n)) >= 0;
    } else {
        assert(outs.take(n) =~= outs);
    }
}

/// Reads the output patterns as one number through the table.
pub fn decode_digits(table: &Vec<Option<u8>>, output: &Vec<Digit>) -> (r: usize)
    requires
        forall|j: int| 0 <= j < output@.len() ==> 0 <= bitmap_spec(
            (#[trigger] output@[j]).segments@,
        ) < table@.len() && table@[bitmap_spec(output@[j].segments@)] is Some,
        decode_value(table@, digit_views(output@)) <= usize::MAX,
    ensures
        r == decode_value(table@, digit_views(output@)),
{
    let ghost outs = digit_views(output@);
    let mut acc: usize = 0;
    let mut j: usize = 0;
    proof {
        assert(outs.take(0int) =~= Seq::<Seq<Segment>>::empty());
        assert(forall|j2: int| 0 <= j2 < outs.len() ==> 0 <= bitmap_spec(#[trigger] outs[j2])
            < table@.len());
    }
    while j < output.len()
        invariant
            0 <= j <= output@.len(),
            outs == digit_views(output@),
            forall|j2: int| 0 <= j2 < output@.len() ==> 0 <= bitmap_spec(
                (#[trigger] output@[j2]).segments@,
            ) < table@.len() && table@[bitmap_spec(output@[j2].segments@)] is Some,
            decode_value(table@, outs) <= usize::MAX,
            acc == decode_value(table@, outs.take(j as int)),
        decreases output@.len() - j,
    {
        proof {
            assert(forall|j2: int| 0 <= j2 < outs.len() ==> 0 <= bitmap_spec(#[trigger] outs[j2])
                < table@.len());
            lemma_decode_prefix(table@, outs, j + 1);
            assert(outs.take(j + 1).drop_last() =~= outs.take(j as int));
            assert(outs.take(j + 1).last() == outs[j as int]);
            assert(outs[j as int] == output@[j as int].segments@);
            assert(0 <= bitmap_spec(outs[j as int]) < 128 || true);
        }
        let o = &output[j];
        let tn = table.len();
        let bm = Segment::to_bitmap(o.segments.as_slice());
        let d: u8 = match table[bm] {
            Some(v) => v,
            None => {
                proof {
                    assert(false);
                }
                0
            },
        };
        acc = acc * 10 + (d as usize);
        j = j + 1;
    }
    proof {
        assert(outs.take(outs.len() as int) =~= outs);
    }
    acc
}

proof fn lemma_decode_bound(table: Seq<Option<u8>>, outs: Seq<Seq<Segment>>)
    requires
        forall|b: int| 0 <= b < table.len() ==> ((#[trigger] table[b]) matches Some(d) ==> d <= 9),
        forall|j: int| 0 <= j < outs.len() ==> 0 <= bitmap_spec(#[trigger] outs[j]) < table.len(),
    ensures
        0 <= decode_value(table, outs) < pow10(outs.len()),
    decreases outs.len(),
{
    if outs.len() > 0 {
        lemma_decode_bound(table, outs.drop_last());
        let prev = decode_value(table, outs.drop_last());
        assert(prev * 10 + 9 < 10 * pow10((outs.len() - 1) as nat)) by (nonlinear_arith)
            requires prev < pow10((outs.len() - 1) as nat), prev >= 0;
        assert(slot_val(table[bitmap_spec(outs.last())]) <= 9);
    }
}

/// Every entry can be deduced and each of its outputs is a classified
/// pattern whose number fits the machine.
pub open spec fn decodable(entries: Seq<Entry>) -> bool {
    forall|i: int| 0 <= i < entries.len() ==> {
        let ds = digit_views((#[trigger] entries[i]).uniques@);
        let outs = digit_views(entries[i].output@);
        &&& configurable(ds)
        &&& pow10(outs.len()) <= usize::MAX
        &&& forall|j: int| 0 <= j < outs.len() ==> 0 <= bitmap_spec(#[trigger] outs[j]) < 128
            && exists|k: int|
            0 <= k < ds.len() && bitmap_spec(ds[k]) == bitmap_spec(outs[j]) && classified(
                ds,
                ds[k],
            )
    }
}

/// Deduces each entry's wiring and decodes its output number.
pub fn decode_outputs(entries: &Vec<Entry>) -> (r: Vec<usize>)
    requires
        decodable(entries@),
    ensures
        r@.len() == entries@.len(),
{
    let mut output: Vec<usize> = Vec::new();
    let mut i: usize = 0;
    while i < entries.len()
        invariant
            0 <= i <= entries@.len(),
            decodable(entries@),
            output@.len() == i,
        decreases entries@.len() - i,
    {
        let entry = &entries[i];
        proof {
            assert(digit_views(entry.uniques@) == digit_views(entries@[i as int].uniques@));
        }
        let configuration = find_configuration(&entry.uniques);
        proof {
            let ds = digit_views(entries@[i as int].uniques@);
            let outs = digit_views(entries@[i as int].output@);
            assert forall|j: int| 0 <= j < entry.output@.len() implies 0 <= bitmap_spec(
                (#[trigger] entry.output@[j]).segments@,
            ) < configuration@.len() && configuration@[bitmap_spec(
                entry.output@[j].segments@,
            )] is Some by {
                assert(outs[j] == entry.output@[j].segments@);
                let k = choose|k: int|
                    0 <= k < ds.len() && bitmap_spec(ds[k]) == bitmap_spec(outs[j]) && classified(
                        ds,
                        ds[k],
                    );
                assert(configuration@[bitmap_spec(ds[k])] is Some);
            }
            lemma_decode_bound(configuration@, outs);
        }
        let number = decode_digits(&configuration, &entry.output);
        output.push(number);
        i = i + 1;
    }
    output
}

} // verus!
