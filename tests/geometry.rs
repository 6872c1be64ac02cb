use vpcalc::geometry::{line_at, line_or_last};

#[test]
fn polyline_line_indices() {
    assert_eq!(line_at(5, 0), Some((0, 1)));
    assert_eq!(line_at(5, 3), Some((3, 4)));
    assert_eq!(line_at(5, 4), None);
    assert_eq!(line_at(5, -1), None);
    assert_eq!(line_or_last(5, 2), (2, 3));
    assert_eq!(line_or_last(5, 6), (3, 4));
    assert_eq!(line_or_last(5, 150), (3, 4));
}
