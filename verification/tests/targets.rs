use sim3dview::targets::{supersample_size, SUPERSAMPLE_MAX_DIMENSION};

#[test]
fn supersample_size_doubles_and_clamps_each_side() {
    assert_eq!(supersample_size(700, 500), (1400, 1000));
    assert_eq!(supersample_size(0, 0), (2, 2));
    assert_eq!(
        supersample_size(3000, 100),
        (SUPERSAMPLE_MAX_DIMENSION, 200)
    );
}

#[test]
fn supersample_size_at_the_limit() {
    assert_eq!(supersample_size(2048, 2047), (4096, 4094));
    assert_eq!(supersample_size(1, 2049), (2, 4096));
}
