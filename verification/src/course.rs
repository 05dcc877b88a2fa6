//! Steering commands: plotting a course by position and depth, with or
//! without an aim.

use crate::parse::{chars_of, is_number, number_value, parse_number, split_on, split_spec};
use vstd::prelude::*;

verus! {

/// One steering command.
#[derive(Clone, Copy, Debug, PartialEq, Eq, Structural)]
pub enum Command {
    Forward(i32),
    Down(i32),
    Up(i32),
}

/// The horizontal position and depth the plain reading of the commands
/// reaches: forward adds to the position, down and up change the depth.
pub open spec fn course_spec(cmds: Seq<Command>) -> (int, int)
    decreases cmds.len(),
{
    if cmds.len() == 0 {
        (0, 0)
    } else {
        let prev = course_spec(cmds.drop_last());
        match cmds.last() {
            Command::Forward(v) => (prev.0 + v, prev.1),
            Command::Down(v) => (prev.0, prev.1 + v),
            Command::Up(v) => (prev.0, prev.1 - v),
        }
    }
}

/// The position, depth and aim the aimed reading of the commands reaches:
/// down and up change the aim, forward advances and dives by the aim.
pub open spec fn aim_course_spec(cmds: Seq<Command>) -> (int, int, int)
    decreases cmds.len(),
{
    if cmds.len() == 0 {
        (0, 0, 0)
    } else {
        let prev = aim_course_spec(cmds.drop_last());
        match cmds.last() {
            Command::Forward(v) => (prev.0 + v, prev.1 + prev.2 * v, prev.2),
            Command::Down(v) => (prev.0, prev.1, prev.2 + v),
            Command::Up(v) => (prev.0, prev.1, prev.2 - v),
        }
    }
}

/// Every prefix of the plain course stays in the machine's range.
pub open spec fn course_in_range(cmds: Seq<Command>) -> bool {
    forall|k: int| 0 <= k <= cmds.len() ==> {
        let s = #[trigger] course_spec(cmds.take(k));
        i32::MIN <= s.0 <= i32::MAX && i32::MIN <= s.1 <= i32::MAX
    }
}

/// Every prefix of the aimed course, and each dive step, stays in the
/// machine's range.
pub open spec fn aim_course_in_range(cmds: Seq<Command>) -> bool {
    forall|k: int| 0 <= k <= cmds.len() ==> {
        let s = #[trigger] aim_course_spec(cmds.take(k));
        i32::MIN <= s.0 <= i32::MAX && i32::MIN <= s.1 <= i32::MAX && i32::MIN <= s.2 <= i32::MAX
            && (k < cmds.len() ==> match cmds[k] {
            Command::Forward(v) => i32::MIN <= s.2 * v <= i32::MAX,
            Command::Down(_) => true,
            Command::Up(_) => true,
        })
    }
}

/// Follows the commands with the plain reading.
pub fn plot_course(cmds: &Vec<Command>) -> (r: (i32, i32))
    requires
        course_in_range(cmds@),
    ensures
        (r.0 as int, r.1 as int) == course_spec(cmds@),
{
    let mut x: i32 = 0;
    let mut y: i32 = 0;
    let mut i: usize = 0;
    proof {
        assert(cmds@.take(0int) =~= Seq::<Command>::empty());
    }
    while i < cmds.len()
        invariant
            0 <= i <= cmds@.len(),
            course_in_range(cmds@),
            (x as int, y as int) == course_spec(cmds@.take(i as int)),
        decreases cmds@.len() - i,
    {
        proof {
            assert(cmds@.take(i + 1).drop_last() =~= cmds@.take(i as int));
            assert(cmds@.take(i + 1).last() == cmds@[i as int]);
            assert(i32::MIN <= course_spec(cmds@.take(i + 1)).0 <= i32::MAX && i32::MIN
                <= course_spec(cmds@.take(i + 1)).1 <= i32::MAX);
        }
        match cmds[i] {
            Command::Forward(v) => {
                x = x + v;
            },
            Command::Down(v) => {
                y = y + v;
            },
            Command::Up(v) => {
                y = y - v;
            },
        }
        i = i + 1;
    }
    proof {
        assert(cmds@.take(cmds@.len() as int) =~= cmds@);
    }
    (x, y)
}

/// Follows the commands with the aimed reading; returns position and depth.
pub fn plot_aim_course(cmds: &Vec<Command>) -> (r: (i32, i32))
    requires
        aim_course_in_range(cmds@),
    ensures
        r.0 as int == aim_course_spec(cmds@).0,
        r.1 as int == aim_course_spec(cmds@).1,
{
    let mut pos: i32 = 0;
    let mut depth: i32 = 0;
    let mut aim: i32 = 0;
    let mut i: usize = 0;
    proof {
        assert(cmds@.take(0int) =~= Seq::<Command>::empty());
    }
    while i < cmds.len()
        invariant
            0 <= i <= cmds@.len(),
            aim_course_in_range(cmds@),
            (pos as int, depth as int, aim as int) == aim_course_spec(cmds@.take(i as int)),
        decreases cmds@.len() - i,
    {
        proof {
            assert(cmds@.take(i + 1).drop_last() =~= cmds@.take(i as int));
            assert(cmds@.take(i + 1).last() == cmds@[i as int]);
            let s1 = aim_course_spec(cmds@.take(i + 1));
            assert(i32::MIN <= s1.0 <= i32::MAX && i32::MIN <= s1.1 <= i32::MAX && i32::MIN <= s1.2
                <= i32::MAX);
            let s0 = aim_course_spec(cmds@.take(i as int));
            assert((i as int) < cmds@.len());
            assert(match cmds@[i as int] {
                Command::Forward(v) => i32::MIN <= s0.2 * v <= i32::MAX,
                Command::Down(_) => true,
                Command::Up(_) => true,
            });
        }
        match cmds[i] {
            Command::Forward(v) => {
                pos = pos + v;
                depth = depth + aim * v;
            },
            Command::Down(v) => {
                aim = aim + v;
            },
            Command::Up(v) => {
                aim = aim - v;
            },
        }
        i = i + 1;
    }
    proof {
        assert(cmds@.take(cmds@.len() as int) =~= cmds@);
    }
    (pos, depth)
}

/// The command a `direction amount` line denotes.
pub open spec fn command_of(s: Seq<char>) -> Command {
    let groups = split_spec(s, ' ');
    let v = number_value(groups[1]) as i32;
    if groups[0] == "forward"@ {
        Command::Forward(v)
    } else if groups[0] == "down"@ {
        Command::Down(v)
    } else {
        Command::Up(v)
    }
}

/// The line names one of the three directions and a number in range.
pub open spec fn good_command_line(s: Seq<char>) -> bool {
    let groups = split_spec(s, ' ');
    &&& groups.len() == 2
    &&& (groups[0] == "forward"@ || groups[0] == "down"@ || groups[0] == "up"@)
    &&& is_number(groups[1])
    &&& number_value(groups[1]) <= i32::MAX
}

/// Parses one steering command line.
pub fn parse_command(line: &str) -> (r: Command)
    requires
        good_command_line(line@),
    ensures
        r == command_of(line@),
{
    proof {
        reveal_strlit("forward");
        reveal_strlit("down");
        reveal_strlit("up");
    }
    let cs = chars_of(line);
    let groups = split_on(&cs, ' ');
    proof {
        assert(groups@.map_values(|g: Vec<char>| g@)[0] == groups@[0]@);
        assert(groups@.map_values(|g: Vec<char>| g@)[1] == groups@[1]@);
    }
    let n = parse_number(&groups[1]);
    let v = n as i32;
    let word = &groups[0];
    proof {
        assert(word@.len() > 0);
    }
    let c0 = word[0];
    if c0 == 'f' {
        proof {
            assert(word@ == "forward"@);
        }
        Command::Forward(v)
    } else if c0 == 'd' {
        proof {
            assert(word@ == "down"@);
        }
        Command::Down(v)
    } else {
        proof {
            assert(word@ == "up"@);
        }
        Command::Up(v)
    }
}

} // verus!
