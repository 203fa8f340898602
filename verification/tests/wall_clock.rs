use vrac::clock::current_unix_seconds;

#[test]
fn the_wall_clock_advances_monotonically_enough() {
    let a = current_unix_seconds();
    let b = current_unix_seconds();
    // after the epoch on any sanely set clock, and never moving backwards
    // within one process on a healthy host
    assert!(a > 0);
    assert!(b >= a || a - b < 2);
}
