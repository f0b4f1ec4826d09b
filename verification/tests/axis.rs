use plot::axis::{calculate_tick_step_for_range, calculate_ticks, number_of_ticks, Axis, TickSteps};

fn take_steps(mut t: TickSteps, n: usize) -> Vec<i64> {
    let mut out = Vec::new();
    for _ in 0..n {
        out.push(t.next());
    }
    out
}

#[test]
fn test_tick_step_generator() {
    let t = TickSteps::start_at(1);
    let ts = take_steps(t, 7);
    assert_eq!(ts, [1, 2, 4, 5, 10, 20, 40]);

    let t = TickSteps::start_at(100);
    let ts = take_steps(t, 5);
    assert_eq!(ts, [100, 200, 400, 500, 1000]);

    let t = TickSteps::start_at(3);
    let ts = take_steps(t, 5);
    assert_eq!(ts, [4, 5, 10, 20, 40]);

    let t = TickSteps::start_at(8);
    let ts = take_steps(t, 3);
    assert_eq!(ts, [10, 20, 40]);
}

#[test]
fn test_number_of_ticks() {
    assert_eq!(number_of_ticks(-793, 1558, 400), 5);
    assert_eq!(number_of_ticks(-793, 1558, 500), 5);
    assert_eq!(number_of_ticks(0, 1500, 400), 4);
    assert_eq!(number_of_ticks(0, 1500, 500), 4);
    assert_eq!(number_of_ticks(500, 2100, 400), 4);
    assert_eq!(number_of_ticks(500, 2100, 500), 4);
    assert_eq!(number_of_ticks(-800, 1558, 400), 6);
    assert_eq!(number_of_ticks(-800, 1558, 500), 5);
}

#[test]
fn test_calculate_tick_step_for_range() {
    assert_eq!(calculate_tick_step_for_range(0, 6, 6), 2);
    assert_eq!(calculate_tick_step_for_range(0, 11, 6), 2);
    assert_eq!(calculate_tick_step_for_range(0, 14, 6), 4);
    assert_eq!(calculate_tick_step_for_range(0, 15, 6), 5);
    assert_eq!(calculate_tick_step_for_range(-1, 5, 6), 2);
    assert_eq!(calculate_tick_step_for_range(-793, 1558, 6), 500);
    assert_eq!(calculate_tick_step_for_range(0, 600, 6), 200);
}

#[test]
fn test_calculate_ticks() {
    assert_eq!(calculate_ticks(0, 10, 6), [0, 2, 4, 6, 8, 10]);
    assert_eq!(calculate_ticks(0, 20, 6), [0, 4, 8, 12, 16, 20]);
    assert_eq!(calculate_ticks(0, 3, 6), [0, 1, 2, 3]);
    assert_eq!(calculate_ticks(0, 4, 6), [0, 1, 2, 3, 4]);
    assert_eq!(calculate_ticks(0, 5, 6), [0, 1, 2, 3, 4, 5]);
    assert_eq!(calculate_ticks(0, 6, 6), [0, 2, 4, 6]);
    assert_eq!(calculate_ticks(0, 7, 6), [0, 2, 4, 6]);
    assert_eq!(calculate_ticks(0, 8, 6), [0, 2, 4, 6, 8]);
    assert_eq!(calculate_ticks(0, 9, 6), [0, 2, 4, 6, 8]);
    assert_eq!(calculate_ticks(0, 10, 6), [0, 2, 4, 6, 8, 10]);
    assert_eq!(calculate_ticks(0, 11, 6), [0, 2, 4, 6, 8, 10]);
    assert_eq!(calculate_ticks(0, 12, 6), [0, 4, 8, 12]);
    assert_eq!(calculate_ticks(0, 13, 6), [0, 4, 8, 12]);
    assert_eq!(calculate_ticks(0, 14, 6), [0, 4, 8, 12]);
    assert_eq!(calculate_ticks(0, 15, 6), [0, 5, 10, 15]);
    assert_eq!(calculate_ticks(0, 16, 6), [0, 4, 8, 12, 16]);
    assert_eq!(calculate_ticks(0, 17, 6), [0, 4, 8, 12, 16]);
    assert_eq!(calculate_ticks(0, 18, 6), [0, 4, 8, 12, 16]);
    assert_eq!(calculate_ticks(0, 19, 6), [0, 4, 8, 12, 16]);
    assert_eq!(calculate_ticks(0, 20, 6), [0, 4, 8, 12, 16, 20]);
    assert_eq!(calculate_ticks(0, 21, 6), [0, 4, 8, 12, 16, 20]);
    assert_eq!(calculate_ticks(0, 22, 6), [0, 4, 8, 12, 16, 20]);
    assert_eq!(calculate_ticks(0, 23, 6), [0, 4, 8, 12, 16, 20]);
    assert_eq!(calculate_ticks(0, 24, 6), [0, 5, 10, 15, 20]);
    assert_eq!(calculate_ticks(0, 25, 6), [0, 5, 10, 15, 20, 25]);
    assert_eq!(calculate_ticks(0, 26, 6), [0, 5, 10, 15, 20, 25]);
    assert_eq!(calculate_ticks(0, 27, 6), [0, 5, 10, 15, 20, 25]);
    assert_eq!(calculate_ticks(0, 28, 6), [0, 5, 10, 15, 20, 25]);
    assert_eq!(calculate_ticks(0, 29, 6), [0, 5, 10, 15, 20, 25]);
    assert_eq!(calculate_ticks(0, 30, 6), [0, 10, 20, 30]);
    assert_eq!(calculate_ticks(0, 31, 6), [0, 10, 20, 30]);
    assert_eq!(calculate_ticks(0, 40, 6), [0, 10, 20, 30, 40]);
    assert_eq!(calculate_ticks(0, 50, 6), [0, 10, 20, 30, 40, 50]);
    assert_eq!(calculate_ticks(0, 60, 6), [0, 20, 40, 60]);
    assert_eq!(calculate_ticks(0, 70, 6), [0, 20, 40, 60]);
    assert_eq!(calculate_ticks(0, 80, 6), [0, 20, 40, 60, 80]);
    assert_eq!(calculate_ticks(0, 90, 6), [0, 20, 40, 60, 80]);
    assert_eq!(calculate_ticks(0, 100, 6), [0, 20, 40, 60, 80, 100]);
    assert_eq!(calculate_ticks(0, 110, 6), [0, 20, 40, 60, 80, 100]);
    assert_eq!(calculate_ticks(0, 120, 6), [0, 40, 80, 120]);
    assert_eq!(calculate_ticks(0, 130, 6), [0, 40, 80, 120]);
    assert_eq!(calculate_ticks(0, 140, 6), [0, 40, 80, 120]);
    assert_eq!(calculate_ticks(0, 150, 6), [0, 50, 100, 150]);
    assert_eq!(calculate_ticks(0, 3475, 6), [0, 1000, 2000, 3000]);
}

#[test]
fn test_ticks_span_zero_scenario() {
    // a range straddling zero keeps zero and steps by five
    assert_eq!(calculate_ticks(-793, 1558, 6), [-500, 0, 500, 1000, 1500]);
}

#[test]
fn test_tick_monotonicity_concrete() {
    // ascending, within range, and within the budget
    let ticks = calculate_ticks(-701, 1302, 5);
    assert!(ticks.len() >= 1 && ticks.len() <= 5);
    for w in ticks.windows(2) {
        assert!(w[0] < w[1]);
    }
    for &t in &ticks {
        assert!(-701 <= t && t <= 1302);
    }
}

#[test]
fn test_zero_inclusion_concrete() {
    let ticks = calculate_ticks(-3, 17, 6);
    assert!(ticks.contains(&0));
    let ticks = calculate_ticks(-120, 7, 6);
    assert!(ticks.contains(&0));
}

#[test]
fn test_scale_invariance_concrete() {
    // the ticks of the ten-fold range are the ten-fold ticks
    let small = calculate_ticks(3, 19, 6);
    let large = calculate_ticks(30, 190, 6);
    assert_eq!(small.len(), large.len());
    for (s, l) in small.iter().zip(large.iter()) {
        assert_eq!(s * 10, *l);
    }
}

#[test]
fn test_axis_accessors() {
    let axis = Axis::new(5, 10);
    assert_eq!(axis.min(), 5);
    assert_eq!(axis.max(), 10);
    assert_eq!(axis.ticks(), &vec![5, 6, 7, 8, 9, 10]);
}
