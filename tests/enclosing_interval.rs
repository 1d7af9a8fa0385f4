use miniball::{enclosing_points, Enclosing};
use std::collections::VecDeque;

/// Exact ball on the integer line: the closed interval from `low` to `high`.
#[derive(Clone, Debug, PartialEq)]
struct Interval {
    low: i64,
    high: i64,
}

impl Enclosing<i64> for Interval {
    fn dimension() -> usize {
        1
    }

    fn contains(&self, point: &i64) -> bool {
        self.low <= *point && *point <= self.high
    }

    fn with_bounds(bounds: &[i64]) -> Option<Self> {
        match bounds {
            [a] => Some(Interval { low: *a, high: *a }),
            [a, b] if a != b => Some(Interval { low: *a.min(b), high: *a.max(b) }),
            _ => None,
        }
    }
}

/// A ball type for which no set of bounds has a circumscribed ball.
#[derive(Clone, Debug, PartialEq)]
struct Nowhere;

impl Enclosing<i64> for Nowhere {
    fn dimension() -> usize {
        2
    }

    fn contains(&self, _point: &i64) -> bool {
        false
    }

    fn with_bounds(_bounds: &[i64]) -> Option<Self> {
        None
    }
}

/// A ball type whose balls are single points: two or more bounds have none.
#[derive(Clone, Debug, PartialEq)]
struct Single(i64);

impl Enclosing<i64> for Single {
    fn dimension() -> usize {
        1
    }

    fn contains(&self, point: &i64) -> bool {
        self.0 == *point
    }

    fn with_bounds(bounds: &[i64]) -> Option<Self> {
        match bounds {
            [a] => Some(Single(*a)),
            _ => None,
        }
    }
}

/// Pseudo-random points in `-range..=range`, the same on every run.
fn scattered(count: usize, range: i64, seed: u64) -> Vec<i64> {
    let mut state = seed;
    (0..count)
        .map(|_| {
            state = state.wrapping_mul(6364136223846793005).wrapping_add(1442695040888963407);
            ((state >> 33) as i64) % (range + 1) * if state & 1 == 0 { 1 } else { -1 }
        })
        .collect()
}

fn sorted(points: impl IntoIterator<Item = i64>) -> Vec<i64> {
    let mut points: Vec<i64> = points.into_iter().collect();
    points.sort();
    points
}

#[test]
fn interval_encloses_three_points() {
    let mut points: VecDeque<i64> = [4, -2, 9].into_iter().collect();
    let ball: Option<Interval> = enclosing_points(&mut points);
    assert_eq!(ball, Some(Interval { low: -2, high: 9 }));
}

#[test]
fn interval_moves_bounds_to_front() {
    let mut points: VecDeque<i64> = [4, -2, 9].into_iter().collect();
    let _: Option<Interval> = enclosing_points(&mut points);
    assert_eq!(points, VecDeque::from(vec![9, -2, 4]));
}

#[test]
fn interval_of_single_point_has_zero_radius() {
    let mut points: VecDeque<i64> = [5].into_iter().collect();
    let ball: Option<Interval> = enclosing_points(&mut points);
    assert_eq!(ball, Some(Interval { low: 5, high: 5 }));
    assert_eq!(points, VecDeque::from(vec![5]));
}

#[test]
fn interval_with_equal_points() {
    let mut points: VecDeque<i64> = [3, 3, 3, -1, 3].into_iter().collect();
    let ball: Option<Interval> = enclosing_points(&mut points);
    assert_eq!(ball, Some(Interval { low: -1, high: 3 }));
    assert_eq!(sorted(points), vec![-1, 3, 3, 3, 3]);
}

#[test]
fn interval_encloses_every_point_with_two_on_the_surface() {
    let original = scattered(1_000, 1_000_000, 7);
    let mut points: VecDeque<i64> = original.iter().copied().collect();
    let ball: Interval = enclosing_points(&mut points).unwrap();
    assert!(points.iter().all(|point| ball.contains(point)));
    let on_surface = points.iter().filter(|&&p| p == ball.low || p == ball.high).count();
    assert!(on_surface >= 2);
    assert_eq!(ball.low, *original.iter().min().unwrap());
    assert_eq!(ball.high, *original.iter().max().unwrap());
}

#[test]
fn interval_keeps_the_points() {
    let original = scattered(500, 1_000, 11);
    let mut points: VecDeque<i64> = original.iter().copied().collect();
    let _: Option<Interval> = enclosing_points(&mut points);
    assert_eq!(sorted(points), sorted(original));
}

#[test]
fn interval_ignores_the_order_of_points() {
    let original = scattered(2_000, 50_000, 3);
    let mut forward: VecDeque<i64> = original.iter().copied().collect();
    let mut backward: VecDeque<i64> = original.iter().rev().copied().collect();
    let mut ascending: VecDeque<i64> = sorted(original.iter().copied()).into_iter().collect();
    let a: Option<Interval> = enclosing_points(&mut forward);
    let b: Option<Interval> = enclosing_points(&mut backward);
    let c: Option<Interval> = enclosing_points(&mut ascending);
    assert_eq!(a, b);
    assert_eq!(a, c);
}

#[test]
fn interval_repeated_calls_agree() {
    let mut points: VecDeque<i64> = scattered(1_000, 10_000, 5).into_iter().collect();
    let first: Option<Interval> = enclosing_points(&mut points);
    points.push_back(20_000);
    let second: Option<Interval> = enclosing_points(&mut points);
    assert_eq!(second, Some(Interval { low: first.unwrap().low, high: 20_000 }));
}

#[test]
fn numerical_instability_gives_none() {
    let mut points: VecDeque<i64> = [1, 2, 3].into_iter().collect();
    let ball: Option<Nowhere> = enclosing_points(&mut points);
    assert_eq!(ball, None);
    assert_eq!(sorted(points), vec![1, 2, 3]);
}

#[test]
fn deep_recursion_does_not_exhaust_the_stack() {
    let original = scattered(100_000, 1_000_000_000, 13);
    let mut points: VecDeque<i64> = original.iter().copied().collect();
    let ball: Interval = enclosing_points(&mut points).unwrap();
    assert_eq!(ball.low, *original.iter().min().unwrap());
    assert_eq!(ball.high, *original.iter().max().unwrap());
    assert_eq!(points.len(), 100_000);
}

#[test]
fn failed_attempt_is_retried_with_fewer_bounds() {
    let mut points: VecDeque<i64> = [1, 2].into_iter().collect();
    let ball: Option<Single> = enclosing_points(&mut points);
    assert_eq!(ball, Some(Single(1)));
    assert_eq!(points, VecDeque::from(vec![1, 2]));
}
