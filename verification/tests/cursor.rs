use rivulet::buffer::cursor::{advance_value, distance};

#[test]
fn distance_between_cursors() {
    assert_eq!(distance(5, 0, 0), 0);
    assert_eq!(distance(5, 1, 4), 3);
    assert_eq!(distance(5, 4, 1), 2);
    assert_eq!(distance(5, 4, 3), 4);
    assert_eq!(distance(2, 1, 0), 1);
}

#[test]
fn distance_near_the_largest_size() {
    assert_eq!(distance(usize::MAX, usize::MAX - 1, 0), 1);
    assert_eq!(distance(usize::MAX, 0, usize::MAX - 1), usize::MAX - 1);
}

#[test]
fn advance_wraps_at_the_size() {
    assert_eq!(advance_value(5, 0, 0), 0);
    assert_eq!(advance_value(5, 3, 1), 4);
    assert_eq!(advance_value(5, 3, 2), 0);
    assert_eq!(advance_value(5, 3, 4), 2);
    assert_eq!(advance_value(5, 3, 5), 3);
    assert_eq!(advance_value(usize::MAX, usize::MAX - 1, usize::MAX), usize::MAX - 1);
}

#[test]
fn advance_then_distance_gives_the_step() {
    for start in 0..5usize {
        for step in 0..5usize {
            assert_eq!(distance(5, start, advance_value(5, start, step)), step);
        }
    }
}
