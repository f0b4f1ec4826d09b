use plot::histogram::{Histogram, Scatter};
use plot::render::{draw_histogram, draw_scatter};

#[test]
fn test_draw_histogram_small() {
    // bounds 0.0, 1.0, 2.0, 3.0 at scale 1; counts 1, 2, 3
    let h = Histogram::new(vec![0, 10, 20, 30], vec![1, 2, 3], 1).unwrap();
    let lines = draw_histogram(&h);
    assert_eq!(lines.len(), 33);

    // bar caps and walls where adjacent bars differ in height
    assert_eq!(lines[0], "3-|     ----");
    assert_eq!(lines[1], "  |     |  |");
    assert_eq!(lines[10], "2-|  ---|  |");
    assert_eq!(lines[20], "1-|--|  |  |");
    assert_eq!(lines[29], "  |  |  |  |");

    // the x-axis line, tick marks and labels
    assert_eq!(lines[30], " 0+---------");
    assert_eq!(lines[31], "  |  |  |  |");
    assert_eq!(lines[32], "  0  1  2  3");
}

#[test]
fn test_draw_scatter_small() {
    let s = Scatter::new(vec![(0, 0), (10, 10)], 0).unwrap();
    let lines = draw_scatter(&s);
    assert_eq!(lines.len(), 33);

    // the highest point sits in the top face row, rightmost column
    let top: Vec<char> = lines[0].chars().collect();
    assert_eq!(top.len(), 94);
    assert!(lines[0].starts_with("10-|"));
    assert_eq!(top[93], 'o');

    // tick marks under the face at the projected tick cells
    let ticks: Vec<char> = lines[31].chars().collect();
    assert_eq!(ticks[3], '|');
    assert_eq!(ticks[3 + 18], '|');
    assert_eq!(ticks[3 + 90], '|');

    // the label line names both ends of the x range
    assert!(lines[32].starts_with("   0"));
    assert!(lines[32].contains("10"));
}

#[test]
fn test_unit_range_gets_sub_unit_ticks() {
    // a one-unit data range still gets sub-unit ticks: the axes sit one
    // decimal digit finer than the data
    let h = Histogram::new(vec![0, 1], vec![5], 0).unwrap();
    assert_eq!(h.x_axis.ticks(), &vec![0, 2, 4, 6, 8, 10]);
    let lines = draw_histogram(&h);
    assert_eq!(lines.len(), 33);
}
