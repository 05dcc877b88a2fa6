use aoclib::crabs::{
    choose_best_alignment_position, find_median, find_total_diff, gen_lookup_table, parse_input,
    FuelModel,
};

#[test]
/// test constant fuel
fn test_0x0001() {
    let input = vec![16, 1, 2, 0, 4, 2, 7, 1, 2, 14];
    let (pos, fuel_cost) = choose_best_alignment_position(&input, FuelModel::Constant);
    println!("pos:{}, fuel_cost:{}", pos, fuel_cost);
    assert_eq!(pos, 2);
    assert_eq!(fuel_cost, 37);
}

#[test]
/// test fuel cost lookup
fn test_0x0002() {
    let input = vec![16, 1, 2, 0, 4, 2, 7, 1, 2, 14];
    let constant_lookup = gen_lookup_table(&input, &FuelModel::Constant);
    assert_eq!(constant_lookup.len(), 17); //0 ..= 16
    assert_eq!(
        constant_lookup,
        vec![0, 1, 2, 3, 4, 5, 6, 7, 8, 9, 10, 11, 12, 13, 14, 15, 16]
    );

    let linear_lookup = gen_lookup_table(&input, &FuelModel::Linear);
    assert_eq!(linear_lookup.len(), 17); //0 ..= 16
    assert_eq!(linear_lookup[0], 0);
    assert_eq!(linear_lookup[1], 1);
    assert_eq!(linear_lookup[2], 1 + 2);
    assert_eq!(linear_lookup[3], 1 + 2 + 3);
    assert_eq!(linear_lookup[4], 1 + 2 + 3 + 4);
    assert_eq!(linear_lookup[5], 1 + 2 + 3 + 4 + 5);
    assert_eq!(linear_lookup[6], 1 + 2 + 3 + 4 + 5 + 6);
    assert_eq!(linear_lookup[7], 1 + 2 + 3 + 4 + 5 + 6 + 7);
    assert_eq!(linear_lookup[8], 1 + 2 + 3 + 4 + 5 + 6 + 7 + 8);
    assert_eq!(linear_lookup[9], 1 + 2 + 3 + 4 + 5 + 6 + 7 + 8 + 9);
    assert_eq!(linear_lookup[10], 1 + 2 + 3 + 4 + 5 + 6 + 7 + 8 + 9 + 10);
    assert_eq!(linear_lookup[11], 1 + 2 + 3 + 4 + 5 + 6 + 7 + 8 + 9 + 10 + 11);
    assert_eq!(linear_lookup[12], 1 + 2 + 3 + 4 + 5 + 6 + 7 + 8 + 9 + 10 + 11 + 12);
    assert_eq!(linear_lookup[13], 1 + 2 + 3 + 4 + 5 + 6 + 7 + 8 + 9 + 10 + 11 + 12 + 13);
    assert_eq!(
        linear_lookup[14],
        1 + 2 + 3 + 4 + 5 + 6 + 7 + 8 + 9 + 10 + 11 + 12 + 13 + 14
    );
    assert_eq!(
        linear_lookup[15],
        1 + 2 + 3 + 4 + 5 + 6 + 7 + 8 + 9 + 10 + 11 + 12 + 13 + 14 + 15
    );
    assert_eq!(
        linear_lookup[16],
        1 + 2 + 3 + 4 + 5 + 6 + 7 + 8 + 9 + 10 + 11 + 12 + 13 + 14 + 15 + 16
    );
}

#[test]
/// test linear fuel
fn test_0x0003() {
    let input = vec![16, 1, 2, 0, 4, 2, 7, 1, 2, 14];
    let (pos, fuel_cost) = choose_best_alignment_position(&input, FuelModel::Linear);
    println!("pos:{}, fuel_cost:{}", pos, fuel_cost);
    assert_eq!(pos, 5);
    assert_eq!(fuel_cost, 168);
}

#[test]
fn median_of_unsorted_positions() {
    assert_eq!(find_median(&[3, 1, 2]), 2);
    assert_eq!(find_median(&[5, 5, 1, 9, 7]), 5);
}

#[test]
fn constant_fuel_is_total_distance() {
    assert_eq!(find_total_diff(&[0, 10], 4, &FuelModel::Constant), 4 + 6);
    assert_eq!(find_total_diff(&[2, 2, 2], 2, &FuelModel::Constant), 0);
}

#[test]
fn linear_fuel_grows_by_triangles() {
    assert_eq!(find_total_diff(&[0, 3], 1, &FuelModel::Linear), 1 + (1 + 2));
}

#[test]
fn parse_positions() {
    assert_eq!(parse_input("16,1,2,0"), vec![16, 1, 2, 0]);
}
