use plot::axis::Axis;
use plot::render::{bins_for_cells, build_label_line, tick_offset_map, value_to_axis_cell_offset, XAxisLabel};

#[test]
fn test_bins_for_cells() {
    let face_width = 10;
    let n = i32::max_value();
    let run_bins_for_cells = |bound_cell_offsets: &Vec<i32>| -> Vec<i32> {
        bins_for_cells(bound_cell_offsets, face_width)
            .iter()
            .map(|&a| a.unwrap_or(n))
            .collect()
    };

    assert_eq!(
        run_bins_for_cells(&vec![-4, -1, 4, 7, 10]),
        [1, 1, 1, 1, 1, 2, 2, 2, 3, 3, 3, n]
    );
    assert_eq!(
        run_bins_for_cells(&vec![0, 2, 4, 8, 10]),
        [n, 0, 0, 1, 1, 2, 2, 2, 2, 3, 3, n]
    );
    assert_eq!(
        run_bins_for_cells(&vec![3, 5, 7, 9, 10]),
        [n, n, n, n, 0, 0, 1, 1, 2, 2, 3, n]
    );
    assert_eq!(
        run_bins_for_cells(&vec![0, 2, 4, 6, 8]),
        [n, 0, 0, 1, 1, 2, 2, 3, 3, n, n, n]
    );
    assert_eq!(
        run_bins_for_cells(&vec![0, 3, 6, 9, 12]),
        [n, 0, 0, 0, 1, 1, 1, 2, 2, 2, 3, 3]
    );

    assert_eq!(
        run_bins_for_cells(&vec![-5, -4, -3, -1, 0]),
        [3, n, n, n, n, n, n, n, n, n, n, n]
    );
    assert_eq!(
        run_bins_for_cells(&vec![10, 12, 14, 16, 18]),
        [n, n, n, n, n, n, n, n, n, n, n, 0]
    );

    assert_eq!(
        run_bins_for_cells(&vec![15, 16, 17, 18, 19]),
        [n, n, n, n, n, n, n, n, n, n, n, n]
    );
    assert_eq!(
        run_bins_for_cells(&vec![-19, -18, -17, -16, -1]),
        [n, n, n, n, n, n, n, n, n, n, n, n]
    );
}

#[test]
fn test_bins_for_cells_coverage() {
    // always face_width + 2 entries, valid bin indices, nondecreasing
    let offsets = vec![-4, -1, 4, 7, 10];
    let cells = bins_for_cells(&offsets, 10);
    assert_eq!(cells.len(), 12);
    let mut prev: i32 = -1;
    for c in &cells {
        if let Some(b) = c {
            assert!(0 <= *b && (*b as usize) < offsets.len() - 1);
            assert!(prev <= *b);
            prev = *b;
        }
    }
}

#[test]
fn test_value_to_axis_cell_offset() {
    assert_eq!(value_to_axis_cell_offset(3, &Axis::new(5, 10), 10), -4);
}

#[test]
fn test_x_axis_label() {
    let l = XAxisLabel {
        text: "3".to_string(),
        offset: 2,
    };
    assert_eq!(l.len(), 1);
    assert!(l.footprint() % 2 != 0);
    assert_eq!(l.start_offset(), 2);

    let l = XAxisLabel {
        text: "34".to_string(),
        offset: 2,
    };
    assert_eq!(l.len(), 2);
    assert!(l.footprint() % 2 != 0);
    assert_eq!(l.start_offset(), 1);

    let l = XAxisLabel {
        text: "345".to_string(),
        offset: 2,
    };
    assert_eq!(l.len(), 3);
    assert!(l.footprint() % 2 != 0);
    assert_eq!(l.start_offset(), 1);

    let l = XAxisLabel {
        text: "3454".to_string(),
        offset: 1,
    };
    assert_eq!(l.len(), 4);
    assert!(l.footprint() % 2 != 0);
    assert_eq!(l.start_offset(), -1);
}

#[test]
fn test_label_line_no_overlap_concrete() {
    // separated labels: every text appears intact in the composed line
    let labels = vec![
        XAxisLabel {
            text: "0".to_string(),
            offset: 0,
        },
        XAxisLabel {
            text: "50".to_string(),
            offset: 5,
        },
        XAxisLabel {
            text: "100".to_string(),
            offset: 10,
        },
    ];
    let (line, start) = build_label_line(&labels);
    assert_eq!(start, 0);
    assert!(line.contains("0"));
    assert!(line.contains("50"));
    assert!(line.contains("100"));
    assert_eq!(line, "0   50   100");
}

#[test]
fn test_tick_offset_map_collisions() {
    // several ticks projecting onto one cell: the last tick wins the cell
    let axis = Axis::new(0, 100);
    assert_eq!(axis.ticks(), &vec![0, 20, 40, 60, 80, 100]);
    let m = tick_offset_map(&axis, 3);
    assert_eq!(m, vec![(0, 0), (1, 40), (2, 80), (3, 100)]);
}
