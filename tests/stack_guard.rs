use miniball::{maybe_grow, red_zone, simplex_dimension, stack_size};

#[test]
fn red_zone_grows_with_dimension_and_point_size() {
    assert_eq!(red_zone(0, 0), 32 * 1024);
    assert_eq!(red_zone(3, 0), 32 * 1024);
    assert_eq!(red_zone(3, 24), 32 * 1024 + (8 * 3 + 2 * 9) * 24);
    assert_eq!(red_zone(6, 48), 32 * 1024 + (8 * 6 + 2 * 36) * 48);
}

#[test]
fn red_zone_saturates() {
    assert_eq!(red_zone(usize::MAX, 8), usize::MAX);
    assert_eq!(red_zone(1 << 40, 1), usize::MAX);
}

#[test]
fn stack_size_is_a_multiple_of_the_red_zone() {
    assert_eq!(stack_size(33_776), 33_776 * 1024);
    assert_eq!(stack_size(0), 0);
    assert_eq!(stack_size(usize::MAX), usize::MAX / 4);
}

#[test]
fn maybe_grow_runs_the_callback_in_place() {
    assert_eq!(maybe_grow(32 * 1024, 1 << 20, || 41 + 1), 42);
}

#[test]
fn maybe_grow_runs_the_callback_on_a_new_stack() {
    let values = vec![1, 2, 3];
    assert_eq!(maybe_grow(usize::MAX, 1 << 20, move || values.iter().sum::<i32>()), 6);
}

#[test]
fn simplex_dimension_of_bounds() {
    assert_eq!(simplex_dimension(0, 3), None);
    assert_eq!(simplex_dimension(1, 3), Some(0));
    assert_eq!(simplex_dimension(4, 3), Some(3));
    assert_eq!(simplex_dimension(5, 3), None);
    assert_eq!(simplex_dimension(1, 0), Some(0));
    assert_eq!(simplex_dimension(2, 0), None);
    assert_eq!(simplex_dimension(usize::MAX, usize::MAX), Some(usize::MAX - 1));
}
