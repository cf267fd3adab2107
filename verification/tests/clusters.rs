use vertical_label_placement::cluster::Cluster;
use vertical_label_placement::cluster_list::ClusterList;

fn fields(cluster: Cluster) -> [i32; 4] {
    [
        cluster.start,
        cluster.end,
        cluster.min_offset,
        cluster.max_offset,
    ]
}

fn cluster(start: i32, end: i32, min_offset: i32, max_offset: i32) -> Cluster {
    Cluster {
        start,
        end,
        min_offset,
        max_offset,
    }
}

#[test]
fn new_cluster_sits_at_its_position() {
    assert_eq!([17, 17, 0, 0], fields(Cluster::new(17)));
    assert_eq!([-4, -4, 0, 0], fields(Cluster::new(-4)));
}

#[test]
fn shift_moves_all_four_numbers() {
    let mut moved = cluster(1, 2, 3, 4);
    moved.shift(10);
    assert_eq!([11, 12, 13, 14], fields(moved));
    moved.shift(-11);
    assert_eq!([0, 1, 2, 3], fields(moved));
}

#[test]
fn balance_centres_the_offsets() {
    assert_eq!([-5, 5, -5, 5], fields(cluster(-10, 0, -10, 0).balance()));
    assert_eq!([4, 14, -3, 3], fields(cluster(10, 20, 3, 9).balance()));
}

#[test]
fn balance_rounds_toward_zero() {
    assert_eq!([1, 11, -2, 1], fields(cluster(0, 10, -3, 0).balance()));
    assert_eq!([-1, 9, -1, 2], fields(cluster(0, 10, 0, 3).balance()));
    assert_eq!([0, 10, 0, 1], fields(cluster(0, 10, 0, 1).balance()));
    assert_eq!([0, 10, -1, 0], fields(cluster(0, 10, -1, 0).balance()));
}

#[test]
fn limit_raises_to_the_minimum() {
    assert_eq!([0, 10, 5, 5], fields(cluster(-5, 5, 0, 0).limit(0, 100)));
}

#[test]
fn limit_lowers_to_the_maximum() {
    assert_eq!([-10, 0, -5, -5], fields(cluster(-5, 5, 0, 0).limit(-100, 0)));
}

#[test]
fn limit_leaves_a_cluster_inside_alone() {
    assert_eq!([-5, 5, -1, 1], fields(cluster(-5, 5, -1, 1).limit(-5, 5)));
}

#[test]
fn limit_prefers_the_maximum() {
    assert_eq!([-2, 8, 3, 3], fields(cluster(-5, 5, 0, 0).limit(0, 8)));
    assert_eq!([-7, 3, -2, -2], fields(cluster(-5, 5, 0, 0).limit(7, 3)));
}

#[test]
fn merge_closes_the_gap_and_balances() {
    let merged = Cluster::merge(Cluster::new(0), Cluster::new(0), 10);
    assert_eq!([-5, 5, -5, 5], fields(merged));

    let merged = Cluster::merge(Cluster::new(0), Cluster::new(0), 5);
    assert_eq!([-3, 2, -3, 2], fields(merged));

    let merged = Cluster::merge(cluster(0, 30, 0, 0), Cluster::new(31), 10);
    assert_eq!([-5, 35, -5, 4], fields(merged));
}

#[test]
fn merge_keeps_the_widest_offsets() {
    let merged = Cluster::merge(cluster(-5, 5, -5, 5), cluster(8, 18, -2, 8), 10);
    assert_eq!([-10, 20, -10, 10], fields(merged));
}

#[test]
fn nothing_is_popped_from_an_empty_list() {
    let mut list = ClusterList::new(10, 4);
    assert!(list.pop_if_not_separate(Cluster::new(0)).is_none());
}

#[test]
fn a_separate_cluster_is_not_popped() {
    let mut list = ClusterList::new(10, 4);
    list.push(cluster(0, 20, -10, 10));
    assert!(list.pop_if_not_separate(Cluster::new(30)).is_none());
    assert!(list.pop_if_not_separate(Cluster::new(31)).is_none());
    assert_eq!([0, 10, 20], *list.positions());
}

#[test]
fn a_close_cluster_is_popped() {
    let mut list = ClusterList::new(10, 4);
    list.push(cluster(-40, -40, 0, 0));
    list.push(cluster(0, 20, -10, 10));
    let popped = list.pop_if_not_separate(Cluster::new(29));
    assert!(popped.is_some());
    assert_eq!([0, 20, -10, 10], fields(popped.unwrap()));
    assert_eq!([-40], *list.positions());
}

#[test]
fn only_the_last_cluster_is_looked_at() {
    let mut list = ClusterList::new(10, 4);
    list.push(cluster(0, 20, -10, 10));
    list.push(cluster(100, 100, 0, 0));
    assert!(list.pop_if_not_separate(Cluster::new(110)).is_none());
    assert_eq!([0, 10, 20, 100], *list.positions());
}

#[test]
fn positions_run_through_every_cluster() {
    let mut list = ClusterList::new(5, 6);
    list.push(cluster(-10, 0, -5, 5));
    list.push(cluster(7, 7, 0, 0));
    list.push(cluster(20, 30, -5, 5));
    assert_eq!([-10, -5, 0, 7, 20, 25, 30], *list.positions());
}

#[test]
fn positions_stop_at_the_end_of_a_cluster() {
    let mut list = ClusterList::new(10, 0);
    list.push(cluster(0, 25, 0, 0));
    list.push(cluster(40, 39, 0, 0));
    assert_eq!([0, 10, 20], *list.positions());
}

#[test]
fn an_empty_list_has_no_positions() {
    let nothing: [i32; 0] = [];
    assert_eq!(nothing, *ClusterList::new(10, 3).positions());
}
