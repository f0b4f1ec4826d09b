use plot::histogram::{Histogram, PlotError, Scatter};

#[test]
fn test_histogram_new_valid() {
    let h = Histogram::new(vec![0, 10, 20, 30], vec![1, 2, 3], 1).unwrap();
    assert_eq!(h.num_bins(), 3);
    assert_eq!(h.bin_bounds, vec![0, 10, 20, 30]);
    assert_eq!(h.bin_counts, vec![1, 2, 3]);
    assert_eq!(h.x_axis.min(), 0);
    assert_eq!(h.x_axis.max(), 300);
    assert_eq!(h.y_axis.min(), 0);
    assert_eq!(h.y_axis.max(), 30);
}

#[test]
fn test_histogram_new_no_data() {
    assert_eq!(
        Histogram::new(vec![0, 1], vec![], 0).unwrap_err(),
        PlotError::NoData
    );
}

#[test]
fn test_histogram_new_mismatched_bounds() {
    assert_eq!(
        Histogram::new(vec![0, 1, 2], vec![1], 0).unwrap_err(),
        PlotError::MismatchedBounds
    );
}

#[test]
fn test_histogram_new_out_of_range() {
    assert_eq!(
        Histogram::new(vec![0, 1], vec![1], 13).unwrap_err(),
        PlotError::OutOfRange
    );
    assert_eq!(
        Histogram::new(vec![0, 200_000_000_000_000], vec![1], 0).unwrap_err(),
        PlotError::OutOfRange
    );
}

#[test]
fn test_histogram_new_unsorted_bounds() {
    assert_eq!(
        Histogram::new(vec![0, 2, 1, 3], vec![1, 1, 1], 0).unwrap_err(),
        PlotError::UnsortedBounds
    );
    assert_eq!(
        Histogram::new(vec![0, 1, 1, 3], vec![1, 1, 1], 0).unwrap_err(),
        PlotError::UnsortedBounds
    );
}

#[test]
fn test_histogram_all_zero_counts_fallback() {
    // all-zero counts are not an error: the y axis falls back to one count
    let h = Histogram::new(vec![0, 1, 2], vec![0, 0], 0).unwrap();
    assert_eq!(h.y_axis.max(), 10);
}

#[test]
fn test_scatter_new_valid() {
    let s = Scatter::new(vec![(0, 0), (10, 20)], 0).unwrap();
    assert_eq!(s.x_axis.min(), 0);
    assert_eq!(s.x_axis.max(), 100);
    assert_eq!(s.y_axis.min(), 0);
    assert_eq!(s.y_axis.max(), 200);
}

#[test]
fn test_scatter_new_no_data() {
    assert_eq!(Scatter::new(vec![], 0).unwrap_err(), PlotError::NoData);
}

#[test]
fn test_scatter_new_out_of_range() {
    assert_eq!(
        Scatter::new(vec![(0, 0), (200_000_000_000_000, 1)], 0).unwrap_err(),
        PlotError::OutOfRange
    );
    assert_eq!(
        Scatter::new(vec![(0, 0), (1, 1)], 13).unwrap_err(),
        PlotError::OutOfRange
    );
}

#[test]
fn test_scatter_new_degenerate_range() {
    assert_eq!(
        Scatter::new(vec![(5, 0), (5, 1)], 0).unwrap_err(),
        PlotError::DegenerateRange
    );
    assert_eq!(
        Scatter::new(vec![(0, 7), (1, 7)], 0).unwrap_err(),
        PlotError::DegenerateRange
    );
}
