use aoclib::vents::{count_overlaps, get_lines, map_lines, Line, Point};

fn to_lines(rows: Vec<&str>) -> Vec<String> {
    let mut out: Vec<String> = Vec::new();
    for r in rows {
        out.push(r.to_string());
    }
    out
}

#[test]
fn vents_test_0x0001() {
    // test 5x5 grid where all lines go from top left to bot right
    let file = vec![
        "0,0 -> 5,0",
        "0,0 -> 0,5",
        "0,3 -> 2,3",
        "0,5 -> 4,5",
        "2,2 -> 2,5",
    ];
    let file_lines = to_lines(file);
    let lines = get_lines(&file_lines, false);
    let map = map_lines(lines);
    let score = map.map.iter().fold(0, |acc, p| {
        if *p > 1 {
            return acc + 1;
        }
        acc
    });
    println!("part1: {}", score);
    assert_eq!(score, 5);
}

#[test]
fn vents_test_0x0002() {
    // test 5x5 grid where some lines go from bot right to top left
    let file = vec![
        "0,0 -> 5,0",
        "0,0 -> 0,5",
        "0,3 -> 2,3",
        "4,5 -> 0,5",
        "2,5 -> 2,2",
    ];
    let file_lines = to_lines(file);
    let lines = get_lines(&file_lines, false);
    let map = map_lines(lines);
    let score = map.map.iter().fold(0, |acc, p| {
        if *p > 1 {
            return acc + 1;
        }
        acc
    });
    println!("part1: {}", score);
    assert_eq!(score, 5);
}

#[test]
fn overlap_count_matches_fold() {
    let file = to_lines(vec!["0,0 -> 5,0", "0,0 -> 0,5", "0,3 -> 2,3", "0,5 -> 4,5", "2,2 -> 2,5"]);
    let lines = get_lines(&file, false);
    let map = map_lines(lines);
    assert_eq!(count_overlaps(&map), 5);
}

#[test]
fn diagonal_lines_are_filtered() {
    let file = to_lines(vec!["0,0 -> 3,3", "1,0 -> 1,2"]);
    let straight_only = get_lines(&file, false);
    assert_eq!(straight_only.len(), 1);
    let all = get_lines(&file, true);
    assert_eq!(all.len(), 2);
}

#[test]
fn points_of_a_segment() {
    let l = Line { start: Point { x: 2, y: 1 }, end: Point { x: 0, y: 1 } };
    assert!(l.is_straight());
    let pts = l.iterate_points();
    assert_eq!(
        pts,
        vec![Point { x: 2, y: 1 }, Point { x: 1, y: 1 }, Point { x: 0, y: 1 }]
    );
    let d = Line { start: Point { x: 0, y: 0 }, end: Point { x: 2, y: 2 } };
    assert!(!d.is_straight());
    let dpts = d.iterate_points();
    assert_eq!(
        dpts,
        vec![Point { x: 0, y: 0 }, Point { x: 1, y: 1 }, Point { x: 2, y: 2 }]
    );
}
