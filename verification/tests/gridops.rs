use aoclib::gridops::{find_adjecents, find_sorounding, parse_lines, Grid};

fn zeros(h: usize, w: usize) -> Grid {
    Grid { cells: vec![0; h * w], height: h, width: w }
}

#[test]
fn gridops_test_0x0001() {
    let grid = zeros(5, 5);
    assert_eq!(find_adjecents(&grid, (0, 0)), vec![(1, 0), (0, 1)],);
}

#[test]
fn gridops_test_0x0002() {
    let grid = zeros(5, 5);
    assert_eq!(find_adjecents(&grid, (2, 2)), vec![(1, 2), (3, 2), (2, 1), (2, 3)],);
}

#[test]
fn gridops_test_0x0003() {
    let grid = zeros(5, 5);
    assert_eq!(find_sorounding(&grid, (4, 4)), vec![(3, 3), (3, 4), (4, 3)],);
}

#[test]
fn gridops_test_0x0004() {
    let grid = zeros(5, 5);
    assert_eq!(
        find_sorounding(&grid, (2, 2)),
        vec![(1, 1), (1, 2), (1, 3), (2, 1), (2, 3), (3, 1), (3, 2), (3, 3),],
    );
}

#[test]
fn parse_digit_rows() {
    let rows = vec!["219".to_string(), "398".to_string()];
    let g = parse_lines(&rows);
    assert_eq!(g.height, 2);
    assert_eq!(g.width, 3);
    assert_eq!(g.cells, vec![2, 1, 9, 3, 9, 8]);
    assert_eq!(g.get(1, 2), 8);
}
