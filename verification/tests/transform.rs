use wltile::transform::{ToString, Transform, TryFrom};

fn transform(angle: i32) -> Result<Transform, String> {
    <Transform as TryFrom<i32>>::try_from(angle)
}

#[test]
fn zero_rotation_maps_to_normal() {
    assert_eq!(transform(0), Ok(Transform::Normal));
}

#[test]
fn image_rotation_maps_to_the_counter_clockwise_transform() {
    let cases = [
        (90, Transform::_270),
        (180, Transform::_180),
        (270, Transform::_90),
        (-90, Transform::_90),
        (-180, Transform::_180),
        (-270, Transform::_270),
    ];
    for (angle, expected) in cases {
        assert_eq!(transform(angle), Ok(expected), "angle {angle}");
    }
}

#[test]
fn angles_are_canonicalized_modulo_360() {
    assert_eq!(transform(360), Ok(Transform::Normal));
    assert_eq!(transform(-360), Ok(Transform::Normal));
    assert_eq!(transform(720), Ok(Transform::Normal));
    assert_eq!(transform(450), Ok(Transform::_270)); // 450 ≡ 90
    assert_eq!(transform(-450), Ok(Transform::_90)); // -450 ≡ -90
}

#[test]
fn non_right_angles_are_rejected() {
    for angle in [1, 45, 89, 100, 179, 359, -1, -45, -100] {
        assert_eq!(
            transform(angle),
            Err(String::from("Invalid angle")),
            "angle {angle} should be rejected"
        );
    }
}

#[test]
fn extreme_angles_are_handled() {
    assert_eq!(transform(i32::MAX), Err(String::from("Invalid angle")));
    assert_eq!(transform(i32::MIN), Err(String::from("Invalid angle")));
    // 2147483520 = 360 * 5965232, a full number of turns.
    assert_eq!(transform(2147483520), Ok(Transform::Normal));
}

#[test]
fn transform_names() {
    assert_eq!(Transform::Normal.to_string(), "normal");
    assert_eq!(Transform::_90.to_string(), "90");
    assert_eq!(Transform::Flipped270.to_string(), "flipped-270");
    assert!(Transform::_90.is_vertical());
    assert!(!Transform::_180.is_vertical());
    assert!(Transform::Flipped270.is_vertical());
}
