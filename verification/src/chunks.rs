//! Bracket-matching of chunked lines: finding the first corrupting close
//! bracket, and scoring corruptions and completions.

use crate::extsort::{sorted, sorted_usizes};
use vstd::prelude::*;

verus! {

/// One bracket shape.
#[derive(Clone, Copy, Debug, PartialEq, Eq, Structural)]
pub enum Bracket {
    Round,
    Square,
    Curly,
    Angular,
}

/// One parsed character: an opening or closing bracket, or neither.
#[derive(Clone, Copy, Debug, PartialEq, Eq, Structural)]
pub enum Chunk {
    Open(Bracket),
    Close(Bracket),
    Invalid,
}

/// What a scanned line needs: it is corrupted at some close bracket, or it
/// is incomplete and leaves a stack of open brackets.
#[derive(Debug)]
pub enum LineFix {
    Corrupted(Chunk),
    Incomplete(Vec<Bracket>),
}

/// The chunk a character denotes.
pub open spec fn chunk_of(c: char) -> Chunk {
    if c == '(' {
        Chunk::Open(Bracket::Round)
    } else if c == ')' {
        Chunk::Close(Bracket::Round)
    } else if c == '[' {
        Chunk::Open(Bracket::Square)
    } else if c == ']' {
        Chunk::Close(Bracket::Square)
    } else if c == '{' {
        Chunk::Open(Bracket::Curly)
    } else if c == '}' {
        Chunk::Close(Bracket::Curly)
    } else if c == '<' {
        Chunk::Open(Bracket::Angular)
    } else if c == '>' {
        Chunk::Close(Bracket::Angular)
    } else {
        Chunk::Invalid
    }
}

/// Every character denotes a bracket.
pub open spec fn all_brackets(s: Seq<char>) -> bool {
    forall|i: int| 0 <= i < s.len() ==> !((#[trigger] chunk_of(s[i])) is Invalid)
}

impl Chunk {
    /// Parses one character.
    pub fn new(c: char) -> (r: Chunk)
        ensures
            r == chunk_of(c),
    {
        match c {
            '(' => Chunk::Open(Bracket::Round),
            ')' => Chunk::Close(Bracket::Round),
            '[' => Chunk::Open(Bracket::Square),
            ']' => Chunk::Close(Bracket::Square),
            '{' => Chunk::Open(Bracket::Curly),
            '}' => Chunk::Close(Bracket::Curly),
            '<' => Chunk::Open(Bracket::Angular),
            '>' => Chunk::Close(Bracket::Angular),
            _ => Chunk::Invalid,
        }
    }
}

/// The close bracket at which scanning `s` with open-bracket stack `st`
/// first fails, if any: a close matching the top pops it, a mismatching or
/// unmatched close is the corruption.
pub open spec fn first_corruption(s: Seq<char>, st: Seq<Bracket>) -> Option<Bracket>
    decreases s.len(),
{
    if s.len() == 0 {
        None
    } else {
        match chunk_of(s.first()) {
            Chunk::Open(b) => first_corruption(s.drop_first(), st.push(b)),
            Chunk::Close(b) => if st.len() > 0 && st.last() == b {
                first_corruption(s.drop_first(), st.drop_last())
            } else {
                Some(b)
            },
            Chunk::Invalid => None,
        }
    }
}

/// The stack of open brackets left after scanning `s` from stack `st`,
/// meaningful only when the scan has no corruption.
pub open spec fn scan_stack(s: Seq<char>, st: Seq<Bracket>) -> Seq<Bracket>
    decreases s.len(),
{
    if s.len() == 0 {
        st
    } else {
        match chunk_of(s.first()) {
            Chunk::Open(b) => scan_stack(s.drop_first(), st.push(b)),
            Chunk::Close(b) => if st.len() > 0 && st.last() == b {
                scan_stack(s.drop_first(), st.drop_last())
            } else {
                st
            },
            Chunk::Invalid => st,
        }
    }
}

/// Scans a line of brackets: the first mismatching close bracket corrupts
/// the line; a line without corruption is incomplete and yields its stack of
/// still-open brackets.
pub fn find_error(line: &str) -> (r: LineFix)
    requires
        all_brackets(line@),
    ensures
        ({
            let fc = first_corruption(line@, Seq::<Bracket>::empty());
            match r {
                LineFix::Corrupted(ch) => fc is Some && ch == Chunk::Close(fc->0),
                LineFix::Incomplete(st) => fc is None && st@ == scan_stack(
                    line@,
                    Seq::<Bracket>::empty(),
                ),
            }
        }),
{
    let ghost fc = first_corruption(line@, Seq::<Bracket>::empty());
    let n = line.unicode_len();
    let mut stack: Vec<Bracket> = Vec::new();
    let mut i: usize = 0;
    proof {
        assert(line@.skip(0int) =~= line@);
        assert(stack@ =~= Seq::<Bracket>::empty());
    }
    while i < n
        invariant
            0 <= i <= n,
            n == line@.len(),
            all_brackets(line@),
            fc == first_corruption(line@, Seq::<Bracket>::empty()),
            fc == first_corruption(line@.skip(i as int), stack@),
            scan_stack(line@, Seq::<Bracket>::empty()) == scan_stack(line@.skip(i as int), stack@),
        decreases n - i,
    {
        proof {
            assert(line@.skip(i as int).first() == line@[i as int]);
            assert(line@.skip(i as int).drop_first() =~= line@.skip(i + 1));
        }
        let c = line.get_char(i);
        let chunk = Chunk::new(c);
        match chunk {
            Chunk::Open(b) => {
                stack.push(b);
            },
            Chunk::Close(b) => {
                let matched = match stack.pop() {
                    Some(top) => top == b,
                    None => false,
                };
                if !matched {
                    return LineFix::Corrupted(Chunk::Close(b));
                }
            },
            Chunk::Invalid => {
                proof {
                    assert(chunk_of(line@[i as int]) is Invalid);
                    assert(false);
                }
            },
        }
        i = i + 1;
    }
    proof {
        assert(line@.skip(n as int) =~= Seq::<char>::empty());
    }
    LineFix::Incomplete(stack)
}

/// The points a corrupting chunk scores.
pub open spec fn corruption_score(c: Chunk) -> nat {
    match c {
        Chunk::Close(Bracket::Round) => 3,
        Chunk::Close(Bracket::Square) => 57,
        Chunk::Close(Bracket::Curly) => 1197,
        Chunk::Close(Bracket::Angular) => 25137,
        _ => 0,
    }
}

/// Scores a corrupting chunk.
pub fn score_corruption(error_chunk: &Chunk) -> (r: usize)
    ensures
        r == corruption_score(*error_chunk),
{
    match error_chunk {
        Chunk::Close(Bracket::Round) => 3,
        Chunk::Close(Bracket::Square) => 57,
        Chunk::Close(Bracket::Curly) => 1197,
        Chunk::Close(Bracket::Angular) => 25137,
        _ => 0,
    }
}

/// The points one open bracket's completion scores.
pub open spec fn bracket_score(b: Bracket) -> nat {
    match b {
        Bracket::Round => 1,
        Bracket::Square => 2,
        Bracket::Curly => 3,
        Bracket::Angular => 4,
    }
}

/// The score of completing a stack of open brackets, closing the top first:
/// each step multiplies the score so far by five and adds the bracket's
/// points.
pub open spec fn completion_score(st: Seq<Bracket>) -> nat
    decreases st.len(),
{
    if st.len() == 0 {
        0
    } else {
        completion_score(st.drop_first()) * 5 + bracket_score(st.first())
    }
}

proof fn lemma_completion_score_suffix(st: Seq<Bracket>, i: int)
    requires
        0 <= i <= st.len(),
    ensures
        completion_score(st.skip(i)) <= completion_score(st),
    decreases i,
{
    if i > 0 {
        lemma_completion_score_suffix(st, i - 1);
        assert(st.skip(i - 1).first() == st[i - 1]);
        assert(st.skip(i - 1).drop_first() =~= st.skip(i));
        assert(completion_score(st.skip(i - 1)) == completion_score(st.skip(i)) * 5
            + bracket_score(st[i - 1]));
        assert(completion_score(st.skip(i)) * 5 >= completion_score(st.skip(i))) by (nonlinear_arith);
    } else {
        assert(st.skip(0) =~= st);
    }
}

/// Scores the completion of a stack of open brackets, top of stack first.
pub fn get_completion_score(stack: &Vec<Bracket>) -> (r: usize)
    requires
        completion_score(stack@) <= usize::MAX,
    ensures
        r == completion_score(stack@),
{
    let mut acc: usize = 0;
    let mut i: usize = stack.len();
    proof {
        assert(stack@.skip(stack@.len() as int) =~= Seq::<Bracket>::empty());
    }
    while i > 0
        invariant
            0 <= i <= stack@.len(),
            completion_score(stack@) <= usize::MAX,
            acc == completion_score(stack@.skip(i as int)),
        decreases i,
    {
        proof {
            lemma_completion_score_suffix(stack@, i - 1);
            assert(stack@.skip(i - 1).first() == stack@[i - 1]);
            assert(stack@.skip(i - 1).drop_first() =~= stack@.skip(i as int));
        }
        i = i - 1;
        let x_score: usize = match stack[i] {
            Bracket::Round => 1,
            Bracket::Square => 2,
            Bracket::Curly => 3,
            Bracket::Angular => 4,
        };
        acc = acc * 5 + x_score;
    }
    proof {
        assert(stack@.skip(0int) =~= stack@);
    }
    acc
}

/// The completion scores of the incomplete lines, in order, as the machine
/// holds them.
pub open spec fn incomplete_scores(lines: Seq<LineFix>) -> Seq<usize>
    decreases lines.len(),
{
    if lines.len() == 0 {
        Seq::empty()
    } else {
        let rest = incomplete_scores(lines.drop_last());
        match lines.last() {
            LineFix::Incomplete(st) => rest.push(completion_score(st@) as usize),
            LineFix::Corrupted(_) => rest,
        }
    }
}

/// The middle completion score: the value the middle slot of an ascending
/// arrangement of the incomplete lines' scores holds.
pub fn score_completions(lines: &Vec<LineFix>) -> (r: usize)
    requires
        incomplete_scores(lines@).len() % 2 == 1,
        forall|i: int| 0 <= i < lines@.len() ==> match #[trigger] lines@[i] {
            LineFix::Incomplete(st) => completion_score(st@) <= usize::MAX,
            LineFix::Corrupted(_) => true,
        },
    ensures
        exists|s: Seq<usize>|
            sorted(s) && s.to_multiset() == incomplete_scores(lines@).to_multiset() && s.len()
                == incomplete_scores(lines@).len() && r == s[incomplete_scores(lines@).len() as int
                / 2],
{
    let mut scores: Vec<usize> = Vec::new();
    let mut i: usize = 0;
    proof {
        assert(lines@.take(0int) =~= Seq::<LineFix>::empty());
    }
    while i < lines.len()
        invariant
            0 <= i <= lines@.len(),
            forall|j: int| 0 <= j < lines@.len() ==> match #[trigger] lines@[j] {
                LineFix::Incomplete(st) => completion_score(st@) <= usize::MAX,
                LineFix::Corrupted(_) => true,
            },
            scores@ == incomplete_scores(lines@.take(i as int)),
        decreases lines@.len() - i,
    {
        proof {
            assert(lines@.take(i + 1).drop_last() =~= lines@.take(i as int));
            assert(lines@.take(i + 1).last() == lines@[i as int]);
        }
        match &lines[i] {
            LineFix::Incomplete(st) => {
                let score = get_completion_score(st);
                scores.push(score);
            },
            LineFix::Corrupted(_) => {},
        }
        i = i + 1;
    }
    proof {
        assert(lines@.take(lines@.len() as int) =~= lines@);
    }
    let s = sorted_usizes(&scores);
    let r = s[scores.len() / 2];
    r
}

} // verus!
