use vertical_label_placement::reach::{can_place, can_place_with_limits, REACH};
use vertical_label_placement::{place, place_with_limits};

fn worst_offset(preferred: &[i32], permitted: &[i32]) -> i32 {
    let mut worst = 0;
    for (wanted, given) in preferred.iter().zip(permitted.iter()) {
        worst = worst.max((given - wanted).abs());
    }
    worst
}

fn separated(permitted: &[i32], separation: i32) -> bool {
    permitted.windows(2).all(|pair| pair[1] - pair[0] >= separation)
}

#[test]
fn places_labels_around_crowded_positions() {
    assert_eq!([-15, -5, 5, 15], *place(&[-10, -1, 1, 10], 10));
}

#[test]
fn places_labels_above_a_minimum() {
    assert_eq!(
        [0, 10, 20, 30],
        *place_with_limits(&[-10, -1, 1, 10], 10, 0, 100)
    );
}

#[test]
fn places_labels_below_a_maximum() {
    assert_eq!(
        [-30, -20, -10, 0],
        *place_with_limits(&[-10, -1, 1, 10], 10, -100, 0)
    );
}

#[test]
fn respects_only_the_maximum_when_space_runs_out() {
    assert_eq!(
        [-20, -10, 0, 10],
        *place_with_limits(&[-10, -1, 1, 10], 10, -10, 10)
    );
}

#[test]
fn no_labels_give_no_positions() {
    let nothing: [i32; 0] = [];
    assert_eq!(nothing, *place(&[], 10));
    assert_eq!(nothing, *place_with_limits(&[], 10, -5, 5));
}

#[test]
fn one_label_stays_where_it_is() {
    assert_eq!([42], *place(&[42], 1));
    assert_eq!([42], *place_with_limits(&[42], 1000, 42, 42));
}

#[test]
fn keeps_count_and_order() {
    let preferred = [0, 1, 2, 3, 100, 101, 200];
    let permitted = place(&preferred, 10);
    assert_eq!(preferred.len(), permitted.len());
    assert!(permitted.windows(2).all(|pair| pair[0] <= pair[1]));
    assert_eq!([-14, -4, 6, 16, 95, 105, 200], *permitted);
}

#[test]
fn keeps_count_and_order_within_limits() {
    let preferred = [0, 1, 2, 3, 100, 101, 200];
    let permitted = place_with_limits(&preferred, 10, 0, 110);
    assert_eq!(preferred.len(), permitted.len());
    assert!(permitted.windows(2).all(|pair| pair[0] <= pair[1]));
    assert_eq!([0, 10, 20, 30, 90, 100, 110], *permitted);
}

#[test]
fn neighbours_lie_a_separation_apart() {
    assert!(separated(&place(&[0, 1, 2, 3, 100, 101, 200], 10), 10));
    assert!(separated(&place(&[0, 4, 8, 9], 4), 4));
    assert!(separated(&place(&[1, 1, 1], 1), 1));
    assert!(separated(
        &place_with_limits(&[0, 0, 0, 0], 5, -3, 100),
        5
    ));
    assert!(separated(&place_with_limits(&[0, 0, 0], 10, 0, 0), 10));
}

#[test]
fn clusters_that_touch_are_not_merged() {
    assert_eq!([0, 10], *place(&[0, 10], 10));
    assert_eq!([0, 11], *place(&[0, 11], 10));
    assert_eq!([-1, 9], *place(&[0, 9], 10));
}

#[test]
fn stays_within_limits_that_leave_room() {
    let permitted = place_with_limits(&[0, 0, 0, 0], 5, -3, 100);
    assert_eq!([-3, 2, 7, 12], *permitted);
    assert!(permitted.iter().all(|&position| -3 <= position && position <= 100));

    let permitted = place_with_limits(&[0, 0, 0, 0], 5, -100, 3);
    assert_eq!([-12, -7, -2, 3], *permitted);
    assert!(permitted.iter().all(|&position| -100 <= position && position <= 3));

    assert_eq!([0, 3, 6], *place_with_limits(&[2, 2, 2], 3, 0, 6));
    assert_eq!([0, 3, 6], *place_with_limits(&[0, 5, 6], 3, 0, 6));
}

#[test]
fn maximum_wins_where_limits_leave_no_room() {
    let permitted = place_with_limits(&[0, 0, 0], 10, 0, 0);
    assert!(permitted.iter().all(|&position| position <= 0));
    assert_eq!(-20, permitted[0]);

    assert_eq!([3], *place_with_limits(&[5], 10, 7, 3));
    assert_eq!([-25, -15, -5], *place_with_limits(&[0, 0, 0], 10, 5, -5));
}

#[test]
fn every_cluster_is_moved_into_the_limits() {
    let permitted = place_with_limits(&[-50, -50, -50, -50, 8], 5, -52, 10);
    assert_eq!([-52, -47, -42, -37, 8], *permitted);

    let permitted = place_with_limits(&[0, 0, 0, 0, 0, 30], 5, 0, 30);
    assert_eq!([0, 5, 10, 15, 20, 30], *permitted);
}

#[test]
fn separated_positions_come_back_unchanged() {
    assert_eq!([-7, 0, 7, 100], *place(&[-7, 0, 7, 100], 7));
    assert_eq!([3], *place(&[3], 5));
    assert_eq!(
        [-10, 0, 10],
        *place_with_limits(&[-10, 0, 10], 10, -10, 10)
    );
    assert_eq!(
        [-10, 0, 10],
        *place_with_limits(&[-10, 0, 10], 5, -100, 100)
    );
}

#[test]
fn equal_positions_are_centred() {
    assert_eq!([1, 4, 7, 10, 13], *place(&[7, 7, 7, 7, 7], 3));
    assert_eq!([5, 8], *place(&[7, 7], 3));
    assert_eq!([0, 1, 2], *place(&[1, 1, 1], 1));

    let permitted = place(&[7, 7, 7, 7], 5);
    let below = 7 - permitted[0];
    let above = permitted[3] - 7;
    assert_eq!(8, below);
    assert_eq!(7, above);
}

#[test]
fn odd_sums_are_halved_toward_zero() {
    assert_eq!([-7, 0, 7], *place(&[0, 0, 1], 7));
    assert_eq!([-3, 1, 5, 10], *place(&[0, 3, 3, 10], 4));
    assert_eq!([-2, 2, 6, 10], *place(&[0, 4, 8, 9], 4));
}

#[test]
fn merges_cascade_down_the_stack() {
    assert_eq!(
        [-15, -5, 5, 15, 25, 35, 45],
        *place(&[0, 0, 0, 30, 30, 30, 31], 10)
    );
}

#[test]
fn no_other_separated_positions_do_better() {
    let preferred = [0, 1, 2, 3, 100, 101, 200];
    let permitted = place(&preferred, 10);
    let best = worst_offset(&preferred, &permitted);
    assert_eq!(14, best);

    let others: [[i32; 7]; 4] = [
        [0, 10, 20, 30, 100, 110, 200],
        [-15, -5, 5, 15, 95, 105, 200],
        [-13, -3, 7, 17, 96, 106, 200],
        [-30, -20, -10, 0, 90, 101, 200],
    ];
    for other in others.iter() {
        assert!(separated(other, 10));
        assert!(worst_offset(&preferred, other) >= best);
    }
}

#[test]
fn positions_out_of_order_are_placed_as_they_come() {
    assert_eq!([0, 10], *place(&[10, 0], 10));
    assert_eq!([1, 3, 5], *place(&[5, 3, 1], 2));
}

#[test]
fn works_at_the_edge_of_its_reach() {
    assert!(can_place(&[REACH, REACH], REACH / 2));
    assert_eq!(
        [322_122_547, 536_870_911],
        *place(&[REACH, REACH], REACH / 2)
    );
    assert_eq!(
        [-572_662_305, -429_496_729, -286_331_153],
        *place(&[-REACH, -REACH, -REACH], REACH / 3)
    );
}

#[test]
fn works_at_the_edge_of_its_reach_within_limits() {
    assert!(can_place_with_limits(&[REACH, REACH], REACH / 2, -REACH, -REACH));
    assert_eq!(
        [-644_245_093, -429_496_729],
        *place_with_limits(&[REACH, REACH], REACH / 2, -REACH, -REACH)
    );
    assert_eq!(
        [214_748_365, 429_496_729],
        *place_with_limits(&[-REACH, -REACH], REACH / 2, REACH, REACH)
    );
    assert_eq!(
        [
            -773_094_109,
            -687_194_764,
            -601_295_419,
            -515_396_074,
            -429_496_729
        ],
        *place_with_limits(&[REACH; 5], REACH / 5, -REACH, -REACH)
    );
    assert_eq!(
        [
            85_899_349,
            171_798_694,
            257_698_039,
            343_597_384,
            429_496_729
        ],
        *place_with_limits(&[-REACH; 5], REACH / 5, REACH, REACH)
    );
}

#[test]
fn separation_must_be_positive() {
    assert!(can_place(&[0, 0], 1));
    assert!(!can_place(&[0, 0], 0));
    assert!(!can_place(&[0, 0], -10));
    assert!(!can_place(&[], 0));
    assert!(!can_place_with_limits(&[0, 0], 0, -5, 5));
}

#[test]
fn positions_must_be_in_reach() {
    assert!(can_place(&[-REACH, 0, REACH], 10));
    assert!(!can_place(&[0, REACH + 1], 10));
    assert!(!can_place(&[-REACH - 1, 0], 10));
    assert!(!can_place(&[i32::MIN, i32::MAX], 1));
}

#[test]
fn labels_laid_end_to_end_must_be_in_reach() {
    assert!(can_place(&[0, 0, 0], REACH / 3));
    assert!(!can_place(&[0, 0, 0], REACH / 3 + 1));
    assert!(can_place(&[0], REACH));
    assert!(!can_place(&[0], REACH + 1));
    assert!(can_place(&[], i32::MAX));
}

#[test]
fn limits_must_be_in_reach() {
    assert!(can_place_with_limits(&[0, 0], 10, -REACH, REACH));
    assert!(can_place_with_limits(&[0, 0], 10, REACH, -REACH));
    assert!(!can_place_with_limits(&[0, 0], 10, -REACH - 1, 0));
    assert!(!can_place_with_limits(&[0, 0], 10, 0, REACH + 1));
    assert!(!can_place_with_limits(&[0, REACH + 1], 10, 0, 10));
}

#[test]
fn reach_is_a_fifth_of_the_greatest_position() {
    assert_eq!(i32::MAX / 5, REACH);
    assert_eq!(429_496_729, REACH);
}
