//! Vent lines on a grid: parsing line segments, plotting the cells each
//! segment covers, and counting cells covered more than once.

use crate::parse::{chars_of, is_number, number_value, parse_number, split_on, split_spec};
use vstd::pervasive::VecAdditionalExecFns;
use vstd::prelude::*;

verus! {

/// A grid cell.
#[derive(Clone, Copy, Debug, PartialEq, Eq, Structural)]
pub struct Point {
    pub x: usize,
    pub y: usize,
}

/// A segment between two cells.
#[derive(Clone, Copy, Debug, PartialEq, Eq, Structural)]
pub struct Line {
    pub start: Point,
    pub end: Point,
}

/// The sign of a difference.
pub open spec fn sign(d: int) -> int {
    if d > 0 {
        1
    } else if d < 0 {
        -1
    } else {
        0
    }
}

/// The larger of two values.
pub open spec fn max_int(a: int, b: int) -> int {
    if a >= b {
        a
    } else {
        b
    }
}

/// The absolute difference of two values.
pub open spec fn abs_int(d: int) -> int {
    if d >= 0 {
        d
    } else {
        -d
    }
}

/// How many cells the segment covers: one more than the larger coordinate
/// distance.
pub open spec fn line_len(l: Line) -> int {
    max_int(abs_int(l.end.x - l.start.x), abs_int(l.end.y - l.start.y)) + 1
}

/// The `i`-th cell of the segment, stepping one unit per axis toward the
/// end.
pub open spec fn line_point(l: Line, i: int) -> Point {
    Point {
        x: (l.start.x + i * sign(l.end.x - l.start.x)) as usize,
        y: (l.start.y + i * sign(l.end.y - l.start.y)) as usize,
    }
}

/// The cells the segment covers, start first.
pub open spec fn line_points(l: Line) -> Seq<Point> {
    Seq::new(line_len(l) as nat, |i: int| line_point(l, i))
}

/// The segment is horizontal, vertical, or an exact diagonal; only such
/// segments step through in-range cells.
pub open spec fn regular_line(l: Line) -> bool {
    l.start.x == l.end.x || l.start.y == l.end.y || abs_int(l.end.x - l.start.x) == abs_int(
        l.end.y - l.start.y,
    )
}

impl Line {
    /// The segment is horizontal or vertical.
    pub fn is_straight(&self) -> (r: bool)
        ensures
            r == (self.start.x == self.end.x || self.start.y == self.end.y),
    {
        self.start.x == self.end.x || self.start.y == self.end.y
    }

    /// The cells the segment covers, start first.
    pub fn iterate_points(&self) -> (r: Vec<Point>)
        requires
            regular_line(*self),
            line_len(*self) <= usize::MAX,
        ensures
            r@ == line_points(*self),
    {
        let dir_x_pos = self.end.x > self.start.x;
        let dir_y_pos = self.end.y > self.start.y;
        let dx = if dir_x_pos {
            self.end.x - self.start.x
        } else {
            self.start.x - self.end.x
        };
        let dy = if dir_y_pos {
            self.end.y - self.start.y
        } else {
            self.start.y - self.end.y
        };
        let n = if dx >= dy {
            dx
        } else {
            dy
        };
        let mut out: Vec<Point> = Vec::new();
        let mut i: usize = 0;
        while i <= n
            invariant
                0 <= i <= n + 1,
                n + 1 == line_len(*self),
                n < usize::MAX,
                regular_line(*self),
                dx == abs_int(self.end.x - self.start.x),
                dy == abs_int(self.end.y - self.start.y),
                out@ =~= line_points(*self).take(i as int),
            decreases n + 1 - i,
        {
            let x = if self.end.x > self.start.x {
                self.start.x + i
            } else if self.end.x < self.start.x {
                self.start.x - i
            } else {
                self.start.x
            };
            let y = if self.end.y > self.start.y {
                self.start.y + i
            } else if self.end.y < self.start.y {
                self.start.y - i
            } else {
                self.start.y
            };
            proof {
                assert(line_points(*self).take(i + 1) =~= line_points(*self).take(i as int).push(
                    line_point(*self, i as int),
                ));
            }
            out.push(Point { x, y });
            i = i + 1;
        }
        proof {
            assert(line_points(*self).take(line_len(*self)) =~= line_points(*self));
        }
        out
    }
}

/// A grid of visit counts, row-major with `size_x` cells per row.
#[derive(Debug)]
pub struct VentMap {
    pub map: Vec<usize>,
    pub size_x: usize,
    pub size_y: usize,
}

impl VentMap {
    /// A zeroed grid covering coordinates `0..=x` by `0..=y`.
    pub fn new(x: usize, y: usize) -> (r: VentMap)
        requires
            (x + 1) * (y + 1) <= usize::MAX,
        ensures
            r.size_x == x + 1,
            r.size_y == y + 1,
            r.map@.len() == (x + 1) * (y + 1),
            forall|i: int| 0 <= i < r.map@.len() ==> #[trigger] r.map@[i] == 0,
    {
        proof {
            assert(x + 1 <= usize::MAX && y + 1 <= usize::MAX) by (nonlinear_arith)
                requires (x + 1) * (y + 1) <= usize::MAX;
        }
        VentMap { map: vec![0; (x + 1) * (y + 1)], size_x: x + 1, size_y: y + 1 }
    }

    /// The visit count of one cell.
    pub fn get(&self, x: usize, y: usize) -> (r: usize)
        requires
            x < self.size_x,
            y < self.size_y,
            self.map@.len() == self.size_x * self.size_y,
        ensures
            r == self.map@[y * self.size_x + x],
    {
        let n = self.map.len();
        proof {
            assert(y * self.size_x + x < self.size_x * self.size_y) by (nonlinear_arith)
                requires x < self.size_x, y < self.size_y;
        }
        self.map[y * self.size_x + x]
    }
}

/// The cells all the segments cover, in order.
pub open spec fn all_points(lines: Seq<Line>) -> Seq<Point>
    decreases lines.len(),
{
    if lines.len() == 0 {
        Seq::empty()
    } else {
        all_points(lines.drop_last()) + line_points(lines.last())
    }
}

/// How many of the given cells are the cell `(x, y)`.
pub open spec fn cell_count(points: Seq<Point>, x: int, y: int) -> nat {
    points.filter(|p: Point| p.x == x && p.y == y).len()
}

/// How often the segments cover the cell.
pub open spec fn cover_count(lines: Seq<Line>, x: int, y: int) -> nat {
    cell_count(all_points(lines), x, y)
}

/// The largest x coordinate any segment touches.
pub open spec fn lines_max_x(lines: Seq<Line>) -> int
    decreases lines.len(),
{
    if lines.len() == 0 {
        0
    } else {
        max_int(
            lines_max_x(lines.drop_last()),
            max_int(lines.last().start.x as int, lines.last().end.x as int),
        )
    }
}

/// The largest y coordinate any segment touches.
pub open spec fn lines_max_y(lines: Seq<Line>) -> int
    decreases lines.len(),
{
    if lines.len() == 0 {
        0
    } else {
        max_int(
            lines_max_y(lines.drop_last()),
            max_int(lines.last().start.y as int, lines.last().end.y as int),
        )
    }
}

proof fn lemma_lines_max_prefix(lines: Seq<Line>, n: int)
    requires
        0 <= n <= lines.len(),
    ensures
        lines_max_x(lines.take(n)) <= lines_max_x(lines),
        lines_max_y(lines.take(n)) <= lines_max_y(lines),
        forall|i: int| 0 <= i < n ==> (#[trigger] lines[i]).start.x <= lines_max_x(lines)
            && lines[i].end.x <= lines_max_x(lines) && lines[i].start.y <= lines_max_y(lines)
            && lines[i].end.y <= lines_max_y(lines),
    decreases lines.len(), lines.len() - n,
{
    if n < lines.len() {
        lemma_lines_max_prefix(lines, n + 1);
        assert(lines.take(n + 1).drop_last() =~= lines.take(n));
        assert(lines.take(n + 1).last() == lines[n]);
    } else {
        assert(lines.take(n) =~= lines);
        if n > 0 {
            lemma_lines_max_prefix(lines.drop_last(), n - 1);
            assert(lines.drop_last().take(n - 1) =~= lines.drop_last());
            assert forall|i: int| 0 <= i < n implies (#[trigger] lines[i]).start.x <= lines_max_x(
                lines,
            ) && lines[i].end.x <= lines_max_x(lines) && lines[i].start.y <= lines_max_y(lines)
                && lines[i].end.y <= lines_max_y(lines) by {
                if i < n - 1 {
                    assert(lines.drop_last()[i] == lines[i]);
                }
            }
        }
    }
}

/// A regular segment stays within the extremes of its endpoints.
proof fn lemma_line_point_bounds(l: Line, i: int)
    requires
        regular_line(l),
        0 <= i < line_len(l),
    ensures
        line_point(l, i).x <= max_int(l.start.x as int, l.end.x as int),
        line_point(l, i).y <= max_int(l.start.y as int, l.end.y as int),
{
    let dx = l.end.x - l.start.x;
    let dy = l.end.y - l.start.y;
    if dx > 0 {
        assert(abs_int(dy) <= abs_int(dx));
        assert(i <= dx);
        assert(line_point(l, i).x == l.start.x + i);
    } else if dx < 0 {
        assert(abs_int(dy) <= abs_int(dx));
        assert(i <= -dx);
        assert(line_point(l, i).x == l.start.x - i);
    } else {
        assert(line_point(l, i).x == l.start.x);
    }
    if dy > 0 {
        assert(abs_int(dx) <= abs_int(dy));
        assert(i <= dy);
        assert(line_point(l, i).y == l.start.y + i);
    } else if dy < 0 {
        assert(abs_int(dx) <= abs_int(dy));
        assert(i <= -dy);
        assert(line_point(l, i).y == l.start.y - i);
    } else {
        assert(line_point(l, i).y == l.start.y);
    }
}

/// The sum of the lengths of all segments.
pub open spec fn total_points(lines: Seq<Line>) -> int
    decreases lines.len(),
{
    if lines.len() == 0 {
        0
    } else {
        total_points(lines.drop_last()) + line_len(lines.last())
    }
}

/// Plots every segment on a grid just large enough to hold them: each cell
/// ends up holding how often the segments cover it.
pub fn map_lines(lines: Vec<Line>) -> (r: VentMap)
    requires
        forall|i: int| 0 <= i < lines@.len() ==> regular_line(#[trigger] lines@[i]),
        (lines_max_x(lines@) + 1) * (lines_max_y(lines@) + 1) <= usize::MAX,
        total_points(lines@) <= usize::MAX,
    ensures
        r.size_x == lines_max_x(lines@) + 1,
        r.size_y == lines_max_y(lines@) + 1,
        r.map@.len() == r.size_x * r.size_y,
        forall|x: int, y: int| 0 <= x < r.size_x && 0 <= y < r.size_y ==> r.map@[y * r.size_x + x]
            == #[trigger] cover_count(lines@, x, y),
{
    let ghost all = all_points(lines@);
    let mut max_x: usize = 0;
    let mut max_y: usize = 0;
    let mut i: usize = 0;
    while i < lines.len()
        invariant
            0 <= i <= lines@.len(),
            max_x == lines_max_x(lines@.take(i as int)),
            max_y == lines_max_y(lines@.take(i as int)),
        decreases lines@.len() - i,
    {
        proof {
            assert(lines@.take(i + 1).drop_last() =~= lines@.take(i as int));
            assert(lines@.take(i + 1).last() == lines@[i as int]);
        }
        let l = lines[i];
        let ex = if l.end.x > l.start.x {
            l.end.x
        } else {
            l.start.x
        };
        if ex > max_x {
            max_x = ex;
        }
        let ey = if l.end.y > l.start.y {
            l.end.y
        } else {
            l.start.y
        };
        if ey > max_y {
            max_y = ey;
        }
        i = i + 1;
    }
    proof {
        assert(lines@.take(lines@.len() as int) =~= lines@);
    }
    let mut map = VentMap::new(max_x, max_y);
    let ghost sx = map.size_x as int;
    proof {
        assert forall|x: int, y: int| 0 <= x < map.size_x && 0 <= y < map.size_y implies
            map.map@[y * sx + x] == #[trigger] cell_count(prefix_points(lines@, 0, 0), x, y) by {
            assert(prefix_points(lines@, 0, 0) =~= Seq::<Point>::empty());
            assert(Seq::<Point>::empty().filter(|p: Point| p.x == x && p.y == y).len() == 0) by {
                reveal(Seq::filter);
            }
            assert(y * sx + x < sx * map.size_y) by (nonlinear_arith)
                requires 0 <= x < sx, 0 <= y < map.size_y;
        }
    }
    let mut li: usize = 0;
    while li < lines.len()
        invariant
            0 <= li <= lines@.len(),
            forall|k: int| 0 <= k < lines@.len() ==> regular_line(#[trigger] lines@[k]),
            total_points(lines@) <= usize::MAX,
            map.size_x == lines_max_x(lines@) + 1,
            map.size_y == lines_max_y(lines@) + 1,
            sx == map.size_x,
            map.map@.len() == map.size_x * map.size_y,
            forall|x: int, y: int| 0 <= x < map.size_x && 0 <= y < map.size_y ==> map.map@[y * sx
                + x] == #[trigger] cell_count(prefix_points(lines@, li as int, 0), x, y),
        decreases lines@.len() - li,
    {
        proof {
            lemma_all_points_len(lines@, li + 1);
            assert(lines@.take(li + 1).drop_last() =~= lines@.take(li as int));
            assert(lines@.take(li + 1).last() == lines@[li as int]);
            lemma_all_points_len(lines@, li as int);
            assert(line_len(lines@[li as int]) <= total_points(lines@));
        }
        let points = lines[li].iterate_points();
        let mut pi: usize = 0;
        proof {
            assert(line_points(lines@[li as int]).take(0int) =~= Seq::<Point>::empty());
            assert(prefix_points(lines@, li as int, 0) =~= prefix_points(lines@, li as int, 0)
                + line_points(lines@[li as int]).take(0int));
        }
        while pi < points.len()
            invariant
                0 <= pi <= points@.len(),
                0 <= li < lines@.len(),
                forall|k: int| 0 <= k < lines@.len() ==> regular_line(#[trigger] lines@[k]),
                total_points(lines@) <= usize::MAX,
                points@ == line_points(lines@[li as int]),
                map.size_x == lines_max_x(lines@) + 1,
                map.size_y == lines_max_y(lines@) + 1,
                sx == map.size_x,
                map.map@.len() == map.size_x * map.size_y,
                forall|x: int, y: int| 0 <= x < map.size_x && 0 <= y < map.size_y ==> map.map@[y
                    * sx + x] == #[trigger] cell_count(
                    prefix_points(lines@, li as int, 0) + line_points(lines@[li as int]).take(
                        pi as int,
                    ),
                    x,
                    y,
                ),
            decreases points@.len() - pi,
        {
            let p = points[pi];
            let ghost shorter = prefix_points(lines@, li as int, 0) + line_points(
                lines@[li as int],
            ).take(pi as int);
            let ghost longer = prefix_points(lines@, li as int, 0) + line_points(
                lines@[li as int],
            ).take(pi + 1);
            proof {
                lemma_line_point_bounds(lines@[li as int], pi as int);
                lemma_lines_max_prefix(lines@, lines@.len() as int);
                assert(p.x < map.size_x && p.y < map.size_y);
                assert(p.y * sx + p.x < sx * map.size_y) by (nonlinear_arith)
                    requires 0 <= p.x < sx, 0 <= p.y < map.size_y;
                assert(longer =~= shorter.push(p));
                assert forall|x: int, y: int| 0 <= x < map.size_x && 0 <= y < map.size_y implies
                    #[trigger] cell_count(longer, x, y) == cell_count(shorter, x, y) + (if p.x == x
                    && p.y == y {
                    1int
                } else {
                    0int
                }) by {
                    reveal(Seq::filter);
                    assert(shorter.push(p).drop_last() =~= shorter);
                }
                assert(cell_count(shorter, p.x as int, p.y as int) <= shorter.len()) by {
                    shorter.lemma_filter_len(|q: Point| q.x == p.x as int && q.y == p.y as int);
                }
                assert(shorter.len() + 1 == longer.len());
                assert(longer.len() <= total_points(lines@)) by {
                    lemma_prefix_points_bound(lines@, li as int, pi + 1);
                }
            }
            let n_now = map.map.len();
            let idx = p.y * map.size_x + p.x;
            let c = map.map[idx];
            let ghost pre = map.map@;
            map.map.set(idx, c + 1);
            proof {
                assert forall|x: int, y: int| 0 <= x < map.size_x && 0 <= y < map.size_y implies
                    map.map@[y * sx + x] == #[trigger] cell_count(longer, x, y) by {
                    assert(0 <= y * sx + x < pre.len()) by (nonlinear_arith)
                        requires
                            0 <= x < sx,
                            0 <= y < map.size_y,
                            pre.len() == sx * map.size_y,
                    ;
                    if y * sx + x == idx {
                        assert(x == p.x && y == p.y) by (nonlinear_arith)
                            requires
                                0 <= x < sx,
                                0 <= y,
                                0 <= p.x < sx,
                                0 <= p.y,
                                y * sx + x == p.y * sx + p.x,
                        ;
                        assert(map.map@[y * sx + x] == c + 1);
                    } else {
                        assert(map.map@[y * sx + x] == pre[y * sx + x]);
                        assert(!(x == p.x && y == p.y));
                    }
                }
            }
            pi = pi + 1;
        }
        proof {
            assert(line_points(lines@[li as int]).take(points@.len() as int) =~= line_points(
                lines@[li as int],
            ));
            assert(lines@.take(li + 1).drop_last() =~= lines@.take(li as int));
            assert(lines@.take(li + 1).last() == lines@[li as int]);
            assert(all_points(lines@.take(li + 1)) == all_points(lines@.take(li as int))
                + line_points(lines@[li as int]));
            assert(prefix_points(lines@, li as int, 0) + line_points(lines@[li as int])
                =~= prefix_points(lines@, li + 1, 0));
            assert forall|x: int, y: int| 0 <= x < map.size_x && 0 <= y < map.size_y implies
                map.map@[y * sx + x] == #[trigger] cell_count(prefix_points(lines@, li + 1, 0), x, y)
                by {
                assert(cell_count(
                    prefix_points(lines@, li as int, 0) + line_points(lines@[li as int]).take(
                        points@.len() as int,
                    ),
                    x,
                    y,
                ) == cell_count(prefix_points(lines@, li + 1, 0), x, y));
            }
        }
        li = li + 1;
    }
    proof {
        assert forall|x: int, y: int| 0 <= x < map.size_x && 0 <= y < map.size_y implies
            map.map@[y * sx + x] == #[trigger] cover_count(lines@, x, y) by {
            lemma_prefix_points_all(lines@);
            assert(prefix_points(lines@, lines@.len() as int, 0) == all_points(lines@));
            assert(cell_count(prefix_points(lines@, lines@.len() as int, 0), x, y) == cell_count(
                all_points(lines@),
                x,
                y,
            ));
        }
    }
    map
}

/// The cells covered by the first `li` whole segments and the first `pi`
/// cells of segment `li`.
pub open spec fn prefix_points(lines: Seq<Line>, li: int, pi: int) -> Seq<Point> {
    all_points(lines.take(li)) + (if 0 <= li < lines.len() {
        line_points(lines[li]).take(pi)
    } else {
        Seq::<Point>::empty()
    })
}

proof fn lemma_prefix_points_all(lines: Seq<Line>)
    ensures
        prefix_points(lines, lines.len() as int, 0) == all_points(lines),
{
    assert(lines.take(lines.len() as int) =~= lines);
    assert(prefix_points(lines, lines.len() as int, 0) =~= all_points(lines));
}

proof fn lemma_prefix_points_bound(lines: Seq<Line>, li: int, pi: int)
    requires
        0 <= li < lines.len(),
        0 <= pi <= line_points(lines[li]).len(),
        forall|k: int| 0 <= k < lines.len() ==> regular_line(#[trigger] lines[k]),
    ensures
        (prefix_points(lines, li, 0) + line_points(lines[li]).take(pi)).len() <= total_points(
            lines,
        ),
{
    lemma_all_points_len(lines, li + 1);
    assert(all_points(lines.take(li + 1)).len() <= total_points(lines));
    assert(lines.take(li + 1).drop_last() =~= lines.take(li));
    assert(lines.take(li + 1).last() == lines[li]);
    assert(all_points(lines.take(li + 1)) == all_points(lines.take(li)) + line_points(lines[li]));
}

proof fn lemma_all_points_len(lines: Seq<Line>, n: int)
    requires
        0 <= n <= lines.len(),
    ensures
        all_points(lines.take(n)).len() == total_points(lines.take(n)),
        total_points(lines.take(n)) <= total_points(lines),
        all_points(lines.take(n)).len() >= 0,
    decreases lines.len(), lines.len() - n,
{
    if n < lines.len() {
        lemma_all_points_len(lines, n + 1);
        assert(lines.take(n + 1).drop_last() =~= lines.take(n));
        assert(lines.take(n + 1).last() == lines[n]);
        assert(line_len(lines[n]) >= 1);
    } else {
        assert(lines.take(n) =~= lines);
        if lines.len() > 0 {
            lemma_all_points_len(lines.drop_last(), lines.len() - 1);
            assert(lines.drop_last().take(lines.len() - 1) =~= lines.drop_last());
        }
    }
}

/// How many cells the grid holds more than one visit for.
pub open spec fn overlap_count(cells: Seq<usize>) -> nat
    decreases cells.len(),
{
    if cells.len() == 0 {
        0
    } else {
        overlap_count(cells.drop_last()) + if cells.last() > 1 {
            1nat
        } else {
            0nat
        }
    }
}

/// Counts the cells that more than one segment covers.
pub fn count_overlaps(map: &VentMap) -> (r: usize)
    ensures
        r == overlap_count(map.map@),
{
    let mut acc: usize = 0;
    let mut i: usize = 0;
    let mut seen: usize = 0;
    proof {
        assert(map.map@.take(0int) =~= Seq::<usize>::empty());
    }
    while i < map.map.len()
        invariant
            0 <= i <= map.map@.len(),
            acc == overlap_count(map.map@.take(i as int)),
            acc <= i,
        decreases map.map@.len() - i,
    {
        proof {
            assert(map.map@.take(i + 1).drop_last() =~= map.map@.take(i as int));
            assert(map.map@.take(i + 1).last() == map.map@[i as int]);
        }
        if map.map[i] > 1 {
            acc = acc + 1;
        }
        i = i + 1;
    }
    proof {
        assert(map.map@.take(map.map@.len() as int) =~= map.map@);
    }
    acc
}

/// The segment a `x1,y1 -> x2,y2` line denotes: the first two
/// comma-separated numbers of the first and third space-separated groups.
pub open spec fn line_of(s: Seq<char>) -> Line {
    let groups = split_spec(s, ' ');
    let p1 = split_spec(groups[0], ',');
    let p2 = split_spec(groups[2], ',');
    Line {
        start: Point { x: number_value(p1[0]) as usize, y: number_value(p1[1]) as usize },
        end: Point { x: number_value(p2[0]) as usize, y: number_value(p2[1]) as usize },
    }
}

/// The line is well-formed: three space-separated groups, the first and
/// third of which hold two comma-separated numbers in range.
pub open spec fn good_vent_line(s: Seq<char>) -> bool {
    let groups = split_spec(s, ' ');
    &&& groups.len() == 3
    &&& split_spec(groups[0], ',').len() == 2
    &&& split_spec(groups[2], ',').len() == 2
    &&& forall|j: int| 0 <= j < 2 ==> is_number(#[trigger] split_spec(groups[0], ',')[j])
        && number_value(split_spec(groups[0], ',')[j]) <= usize::MAX
    &&& forall|j: int| 0 <= j < 2 ==> is_number(#[trigger] split_spec(groups[2], ',')[j])
        && number_value(split_spec(groups[2], ',')[j]) <= usize::MAX
}

/// Parses one segment line.
fn parse_vent_line(line: &str) -> (r: Line)
    requires
        good_vent_line(line@),
    ensures
        r == line_of(line@),
{
    let cs = chars_of(line);
    let groups = split_on(&cs, ' ');
    proof {
        assert(groups@.map_values(|g: Vec<char>| g@)[0] == groups@[0]@);
        assert(groups@.map_values(|g: Vec<char>| g@)[2] == groups@[2]@);
    }
    let p1 = split_on(&groups[0], ',');
    let p2 = split_on(&groups[2], ',');
    proof {
        assert(p1@.map_values(|g: Vec<char>| g@)[0] == p1@[0]@);
        assert(p1@.map_values(|g: Vec<char>| g@)[1] == p1@[1]@);
        assert(p2@.map_values(|g: Vec<char>| g@)[0] == p2@[0]@);
        assert(p2@.map_values(|g: Vec<char>| g@)[1] == p2@[1]@);
    }
    let x1 = parse_number(&p1[0]);
    let y1 = parse_number(&p1[1]);
    let x2 = parse_number(&p2[0]);
    let y2 = parse_number(&p2[1]);
    Line {
        start: Point { x: x1 as usize, y: y1 as usize },
        end: Point { x: x2 as usize, y: y2 as usize },
    }
}

/// Parses every line into a segment, keeping the straight ones unless
/// diagonals are allowed.
pub fn get_lines(lines: &Vec<String>, allow_diagonal: bool) -> (r: Vec<Line>)
    requires
        forall|i: int| 0 <= i < lines@.len() ==> good_vent_line((#[trigger] lines@[i])@),
    ensures
        r@ == char_lines(lines@).map_values(|s: Seq<char>| line_of(s)).filter(
            |l: Line| allow_diagonal || l.start.x == l.end.x || l.start.y == l.end.y,
        ),
{
    let ghost mapped = char_lines(lines@).map_values(|s: Seq<char>| line_of(s));
    let ghost keep = |l: Line| allow_diagonal || l.start.x == l.end.x || l.start.y == l.end.y;
    let mut out: Vec<Line> = Vec::new();
    let mut i: usize = 0;
    proof {
        assert(mapped.take(0int) =~= Seq::<Line>::empty());
        assert(mapped.take(0int).filter(keep) =~= Seq::<Line>::empty()) by {
            reveal(Seq::filter);
        }
    }
    while i < lines.len()
        invariant
            0 <= i <= lines@.len(),
            forall|k: int| 0 <= k < lines@.len() ==> good_vent_line((#[trigger] lines@[k])@),
            mapped == char_lines(lines@).map_values(|s: Seq<char>| line_of(s)),
            keep == (|l: Line| allow_diagonal || l.start.x == l.end.x || l.start.y == l.end.y),
            out@ == mapped.take(i as int).filter(keep),
        decreases lines@.len() - i,
    {
        proof {
            assert(mapped.take(i + 1).drop_last() =~= mapped.take(i as int));
            assert(mapped.take(i + 1).last() == mapped[i as int]);
            assert(mapped[i as int] == line_of(lines@[i as int]@));
            reveal(Seq::filter);
        }
        let l = parse_vent_line(lines[i].as_str());
        let straight = l.is_straight();
        if allow_diagonal || straight {
            out.push(l);
        }
        i = i + 1;
    }
    proof {
        assert(mapped.take(mapped.len() as int) =~= mapped);
    }
    out
}

/// The char sequences of the lines.
pub open spec fn char_lines(lines: Seq<String>) -> Seq<Seq<char>> {
    lines.map_values(|s: String| s@)
}

} // verus!
