use gelnica_chopper::connections::{
    connections_to_path, edge_exists, new_connections, path_to_connections, process_connection,
    update_city_status, CityStatus,
};
use gelnica_chopper::domain::Path;
use gelnica_chopper::find_subset::find_subset;
use gelnica_chopper::playground::{compare_to_ten, datatypes};
use gelnica_chopper::tsp::tsp;

#[test]
fn tsp_on_a_ring_with_expensive_chords() {
    // cheap ring 0-1-2-3-0, expensive chords: the optimum walks the ring
    let d = vec![
        vec![0, 1, 10, 1],
        vec![1, 0, 1, 10],
        vec![10, 1, 0, 1],
        vec![1, 10, 1, 0],
    ];
    assert_eq!(tsp(d), 4);
}

#[test]
fn tsp_small_reference_matrix() {
    let d = vec![
        vec![0, 10, 15, 20, 25],
        vec![10, 0, 35, 25, 30],
        vec![15, 35, 0, 30, 5],
        vec![20, 25, 30, 0, 15],
        vec![25, 30, 5, 15, 0],
    ];
    // best tour: 0 -> 1 -> 3 -> 4 -> 2 -> 0 with cost 10+25+15+5+15
    assert_eq!(tsp(d), 70);
}

#[test]
fn tsp_two_cities_walks_there_and_back() {
    let d = vec![vec![0, 5], vec![7, 0]];
    assert_eq!(tsp(d), 12);
}

#[test]
fn tsp_single_city_has_no_tour() {
    let d = vec![vec![0]];
    assert_eq!(tsp(d), u32::MAX);
}

#[test]
fn find_subset_returns_a_correct_subset() {
    let nums = vec![423737, 236563, 94718, 86329, 3000, 5000];
    let target = 8000;
    let found = find_subset(&nums, target).unwrap();
    let sum: u32 = found.iter().map(|&i| nums[i]).sum();
    assert_eq!(sum, target);
    for w in found.windows(2) {
        assert!(w[0] < w[1]);
    }
    for &i in &found {
        assert!(i < nums.len());
    }
}

#[test]
fn find_subset_reports_unreachable_targets() {
    let nums = vec![2, 4, 8];
    assert!(find_subset(&nums, 1).is_none());
    assert!(find_subset(&nums, 15).is_none());
    assert_eq!(find_subset(&nums, 14).is_some(), true);
}

#[test]
fn find_subset_of_nothing_is_the_empty_subset() {
    let empty: Vec<u32> = Vec::new();
    assert_eq!(find_subset(&empty, 0), Some(Vec::new()));
    assert!(find_subset(&empty, 3).is_none());
}

#[test]
fn route_edges_are_recorded_without_the_final_hop() {
    let p = Path::from_indexes(vec![0, 1, 2, 3]);
    let c = path_to_connections(&p, 5);
    assert!(edge_exists(&c, 0, 1));
    assert!(edge_exists(&c, 1, 0));
    assert!(edge_exists(&c, 1, 2));
    // the last hop (2,3) is not recorded
    assert!(!edge_exists(&c, 2, 3));
    assert!(!edge_exists(&c, 0, 2));
}

#[test]
fn toggling_a_connection_adds_and_removes_it() {
    let mut c = new_connections(4);
    let mut statuses = vec![CityStatus::NotConnected; 4];
    let excluded = vec![false; 4];
    process_connection(1, 2, &mut c, &mut statuses, &excluded);
    assert!(edge_exists(&c, 1, 2));
    assert!(edge_exists(&c, 2, 1));
    assert_eq!(statuses[1], CityStatus::ConnectedOne);
    assert_eq!(statuses[2], CityStatus::ConnectedOne);
    process_connection(1, 2, &mut c, &mut statuses, &excluded);
    assert!(!edge_exists(&c, 1, 2));
    assert_eq!(statuses[1], CityStatus::NotConnected);
}

#[test]
fn status_reflects_connection_count_and_exclusion() {
    let mut c = new_connections(5);
    let mut statuses = vec![CityStatus::NotConnected; 5];
    let excluded = vec![false, false, false, false, true];
    process_connection(0, 1, &mut c, &mut statuses, &excluded);
    process_connection(0, 2, &mut c, &mut statuses, &excluded);
    assert_eq!(statuses[0], CityStatus::ConnectedTwo);
    process_connection(0, 3, &mut c, &mut statuses, &excluded);
    assert_eq!(statuses[0], CityStatus::Invalid);
    // an excluded city shows invalid whatever its count
    update_city_status(4, &c, &mut statuses, &excluded);
    assert_eq!(statuses[4], CityStatus::Invalid);
}

#[test]
fn greedy_walk_follows_the_recorded_route() {
    let p = Path::from_indexes(vec![2, 0, 1, 3, 2]);
    // recorded edges: (2,0), (0,1), (1,3) — the closing (3,2) is dropped
    let c = path_to_connections(&p, 4);
    let walked = connections_to_path(&c, 2);
    assert_eq!(walked.city_indexes, vec![2, 0, 1, 3]);
}

#[test]
fn walk_from_an_isolated_depot_is_just_the_depot() {
    let c = new_connections(3);
    let walked = connections_to_path(&c, 1);
    assert_eq!(walked.city_indexes, vec![1]);
}

#[test]
fn compare_to_ten_covers_all_three_cases() {
    assert_eq!(compare_to_ten(50), "more than");
    assert_eq!(compare_to_ten(-6666666), "less than");
    assert_eq!(compare_to_ten(10), "equal to");
}

#[test]
fn datatypes_demo_runs() {
    datatypes();
}
