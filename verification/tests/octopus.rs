use aoclib::gridops::parse_lines;
use aoclib::octopus::simulate_step;

#[test]
fn one_step_cascades() {
    let rows = vec![
        "11111".to_string(),
        "19991".to_string(),
        "19191".to_string(),
        "19991".to_string(),
        "11111".to_string(),
    ];
    let mut grid = parse_lines(&rows);
    let flashes = simulate_step(&mut grid);
    assert_eq!(flashes, 9);
    assert_eq!(grid.get(0, 0), 3);
    assert_eq!(grid.get(0, 2), 5);
    assert_eq!(grid.get(1, 1), 0);
    assert_eq!(grid.get(2, 2), 0);
    assert_eq!(grid.get(2, 0), 5);
    let flashes = simulate_step(&mut grid);
    assert_eq!(flashes, 0);
    assert_eq!(grid.get(1, 1), 1);
}

#[test]
fn no_flash_below_ten() {
    let rows = vec!["12".to_string(), "34".to_string()];
    let mut grid = parse_lines(&rows);
    let flashes = simulate_step(&mut grid);
    assert_eq!(flashes, 0);
    assert_eq!(grid.get(0, 0), 2);
    assert_eq!(grid.get(1, 1), 5);
}
