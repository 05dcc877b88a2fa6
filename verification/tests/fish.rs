use aoclib::fish::{create_lookup, forecast_population, grow_population, parse_input, HORIZON};

#[test]
fn test_0x001() {
    let initial = vec![3, 4, 3, 1, 2];
    let final_population = grow_population(initial, 18);
    assert_eq!(final_population.len(), 26);
    let final_population = grow_population(final_population, 80 - 18);
    assert_eq!(final_population.len(), 5934);
}

#[test]
fn parse_timers() {
    let timers = parse_input("3,4,3,1,2");
    assert_eq!(timers, vec![3, 4, 3, 1, 2]);
}

#[test]
fn one_step_spawns() {
    let population = grow_population(vec![0], 1);
    assert_eq!(population, vec![6, 8]);
    let population = grow_population(vec![1, 0], 1);
    assert_eq!(population, vec![0, 6, 8]);
}

#[test]
fn forecast_agrees_with_direct_growth() {
    let lookup = create_lookup();
    assert_eq!(lookup.len(), 9);
    let direct = grow_population(vec![3, 1], HORIZON);
    let forecast = forecast_population(vec![3, 1], 1, &lookup);
    assert_eq!(forecast, direct.len());
}

#[test]
fn forecast_zero_rounds_counts_population() {
    let lookup = create_lookup();
    assert_eq!(forecast_population(vec![1, 2, 3], 0, &lookup), 3);
}
