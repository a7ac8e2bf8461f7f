use wltile::globals::bind_version;

#[test]
fn a_global_is_bound_at_the_lower_of_the_two_versions() {
    assert_eq!(bind_version(4, 1, 3), Some(3));
    assert_eq!(bind_version(2, 1, 3), Some(2));
    assert_eq!(bind_version(3, 3, 3), Some(3));
}

#[test]
fn a_global_below_the_range_is_refused() {
    assert_eq!(bind_version(1, 2, 4), None);
}
