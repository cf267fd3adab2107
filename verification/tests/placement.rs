use vertical_label_placement::{place, place_with_limits};

#[test]
fn already_separated() {
    assert_eq!([0], *place(&[0], 10));
    assert_eq!([0, 10], *place(&[0, 10], 10));
    assert_eq!([-10, 0, 10], *place(&[-10, 0, 10], 10));
}

#[test]
fn already_separated_but_outside_limits() {
    assert_eq!([-10], *place_with_limits(&[-20], 10, -10, 10));
    assert_eq!([10], *place_with_limits(&[20], 10, -10, 10));
    assert_eq!([-10, 10], *place_with_limits(&[-20, 20], 10, -10, 10));
}

#[test]
fn overflowing_limits() {
    assert_eq!([-20, -10, 0], *place_with_limits(&[0, 0, 0], 10, 0, 0));
}

#[test]
fn one_cluster() {
    assert_eq!([-5, 5], *place(&[0, 0], 10));
    assert_eq!([-10, 0, 10], *place(&[0, 0, 0], 10));
    assert_eq!([-20, -10, 0], *place_with_limits(&[0, 0, 0], 10, -20, 0));
    assert_eq!([0, 10, 20], *place_with_limits(&[0, 0, 0], 10, 0, 20));
}

#[test]
fn two_clusters() {
    assert_eq!(
        [-30, -20, -10, 10, 20, 30],
        *place(&[-20, -20, -20, 20, 20, 20], 10)
    );
}

#[test]
fn cascading_merge() {
    assert_eq!([-5, 5, 15, 25, 35], *place(&[0, 10, 20, 30, 31], 10));
}

#[test]
fn odd_separation() {
    assert_eq!([-3, 2], *place(&[0, 0], 5));
    assert_eq!([-5, 0, 5], *place(&[0, 0, 0], 5));
    assert_eq!([-8, -3, 2, 7], *place(&[0, 0, 0, 0], 5));
}
