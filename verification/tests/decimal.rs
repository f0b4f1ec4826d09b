use plot::decimal::{div_floor, format_decimal};

#[test]
fn test_format_decimal() {
    assert_eq!(format_decimal(-793, 2), "-7.93");
    assert_eq!(format_decimal(1558, 2), "15.58");
    assert_eq!(format_decimal(20, 2), "0.2");
    assert_eq!(format_decimal(1500, 2), "15");
    assert_eq!(format_decimal(0, 0), "0");
    assert_eq!(format_decimal(0, 3), "0");
    assert_eq!(format_decimal(7, 0), "7");
    assert_eq!(format_decimal(-5, 1), "-0.5");
    assert_eq!(format_decimal(1000, 1), "100");
    assert_eq!(format_decimal(3475, 0), "3475");
}

#[test]
fn test_div_floor() {
    assert_eq!(div_floor(7, 2), 3);
    assert_eq!(div_floor(-7, 2), -4);
    assert_eq!(div_floor(6, 3), 2);
    assert_eq!(div_floor(-6, 3), -2);
    assert_eq!(div_floor(0, 5), 0);
}
