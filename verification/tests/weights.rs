//! The weight of changes, against the formula in floating point.

use refined_diff::weight::{are_heavy, change_weight, range_counts};

fn float_weight(x: u64, y: u64) -> f64 {
    ((x as f64).powf(1.5) + (y as f64).powf(1.5)).powf(1.5)
}

#[test]
fn ranges_count_lines_and_characters_up_to_the_cap() {
    let one = range_counts(0, 1);
    assert_eq!(range_counts(0, 0), 0);
    assert_eq!(range_counts(0, 7), 7 * one);
    assert_eq!(range_counts(2, 7), 87 * one);
    assert_eq!(range_counts(3, 10), 130 * one);
    assert_eq!(range_counts(3, 11), 130 * one);
    assert_eq!(range_counts(u64::MAX, u64::MAX), 130 * one);
}

#[test]
fn powers_are_exact_where_they_are_whole() {
    let one = range_counts(0, 1);
    // 4^1.5 = 8, and 8^1.5 is 22.627416 times 2^28, rounded down
    assert_eq!(change_weight(range_counts(0, 4), 0), 6074000999);
    assert_eq!(change_weight(one, 0), one);
    // (1 + 8)^1.5 = 27
    assert_eq!(change_weight(one, range_counts(0, 4)), 27 * one);
}

#[test]
fn every_pair_of_weights_is_judged_as_in_floating_point() {
    let limit = 130f64.powf(1.5).powf(1.5) * 1.3;
    let mut weights: Vec<(f64, u128)> = Vec::new();
    for x in 0..=130 {
        for y in x..=130 {
            let exact = change_weight(range_counts(0, x), range_counts(0, y));
            assert_eq!(exact, change_weight(range_counts(0, y), range_counts(0, x)));
            weights.push((float_weight(x, y), exact));
        }
    }
    // The sums nearest to the limit, on both sides of it, for each weight. Both
    // scales grow together, so all other sums are farther away.
    weights.sort_by(|p, q| p.0.partial_cmp(&q.0).unwrap());
    for pair in weights.windows(2) {
        assert!(pair[0].1 <= pair[1].1);
    }
    for &(value, exact) in &weights {
        let at = weights.partition_point(|other| value + other.0 <= limit);
        let from = at.saturating_sub(3);
        let to = (at + 3).min(weights.len());
        for other in &weights[from..to] {
            let expected = value + other.0 > limit;
            assert_eq!(are_heavy(exact, other.1), expected, "{} {}", value, other.0);
        }
    }
}
