use aoclib::basins::{calc_biggest_basin_prod, calc_risk, find_basins, find_lowest_points};
use aoclib::gridops::{parse_lines, Grid};

fn get_test_input() -> Grid {
    let rows = vec![
        "2199943210".to_string(),
        "3987894921".to_string(),
        "9856789892".to_string(),
        "8767896789".to_string(),
        "9899965678".to_string(),
    ];
    parse_lines(&rows)
}

#[test]
/// test parse input
fn basins_test_0x0001() {
    let input = get_test_input();
    assert_eq!(input.height, 5);
    assert_eq!(input.width, 10);
    let expected: Vec<Vec<usize>> = vec![
        vec![2, 1, 9, 9, 9, 4, 3, 2, 1, 0],
        vec![3, 9, 8, 7, 8, 9, 4, 9, 2, 1],
        vec![9, 8, 5, 6, 7, 8, 9, 8, 9, 2],
        vec![8, 7, 6, 7, 8, 9, 6, 7, 8, 9],
        vec![9, 8, 9, 9, 9, 6, 5, 6, 7, 8],
    ];
    for r in 0..5 {
        for c in 0..10 {
            assert_eq!(input.get(r, c), expected[r][c]);
        }
    }
}

#[test]
/// test finding the lowest point
fn basins_test_0x0002() {
    let input = get_test_input();
    let lowest_points = find_lowest_points(&input);
    assert_eq!(lowest_points.len(), 4);
    assert_eq!(lowest_points, vec![(0, 1), (0, 9), (2, 2), (4, 6)]);
}

#[test]
/// test finding the lowest point
fn basins_test_0x0003() {
    let input = get_test_input();
    let lowest_points = find_lowest_points(&input);
    let risk_sum = calc_risk(&input, &lowest_points);
    assert_eq!(risk_sum, 15);
}

#[test]
/// test finding the lowest point
fn basins_test_0x0004() {
    let input = get_test_input();
    let lowest_points = find_lowest_points(&input);
    let basins = find_basins(&input, &lowest_points);
    assert_eq!(basins.len(), 4);
    assert_eq!(calc_biggest_basin_prod(&basins), 1134);
}
