use rustics::ticks::{elapsed_saturating, elapsed_wrapping};

#[test]
fn ticks_elapsed() {
    assert_eq!(elapsed_saturating(1_500, 1_000), 500);
    assert_eq!(elapsed_saturating(7, 7), 0);
    assert_eq!(elapsed_saturating(u128::MAX, 0), i64::MAX);
    assert_eq!(elapsed_saturating(i64::MAX as u128 + 5, 5), i64::MAX);

    assert_eq!(elapsed_wrapping(1_500, 1_000), 500);
    assert_eq!(elapsed_wrapping(1 << 64, 0), 0);
    assert_eq!(elapsed_wrapping((1 << 63) + 2, 2), i64::MIN);
}
