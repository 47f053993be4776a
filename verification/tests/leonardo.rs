use leonardo_heap::leonardo::{leonardo, leonardo_lookup, leonardo_naive};

/// Closed-form computation of the Leonardo numbers, for cross-checking the
/// table.  It starts to diverge due to precision issues at higher orders.
fn leonardo_closed(order: u32) -> u64 {
    ((2.0
        * (((1.0 + 5.0f64.sqrt()) / 2.0).powf(order as f64 + 1.0)
            - ((1.0 - 5.0f64.sqrt()) / 2.0).powf(order as f64 + 1.0))
        / 5.0f64.sqrt())
    .floor()
        - 1.0) as u64
}

#[test]
fn test_leonardo_lookup_matches() {
    for order in 0..64 {
        assert_eq!(leonardo_lookup(order), leonardo_naive(order));
    }
}

#[test]
fn test_leonardo_closed_matches() {
    for order in 0..70 {
        assert_eq!(leonardo_closed(order), leonardo_naive(order));
    }
}

#[test]
fn test_leonardo_small_values() {
    assert_eq!(leonardo(0), 1);
    assert_eq!(leonardo(1), 1);
    assert_eq!(leonardo(2), 3);
    assert_eq!(leonardo(3), 5);
    assert_eq!(leonardo(4), 9);
    assert_eq!(leonardo(5), 15);
    assert_eq!(leonardo(63), 21220419715445);
}
