use voxel_world::schedule::{pick_first, select_first};
use voxel_world::IVec3;

#[test]
fn the_smallest_keys_are_selected_in_order() {
    let keys = vec![(0, 9, 0), (0, 1, 5), (0, 4, 0), (0, 1, 2), (0, 0, 7)];
    let eligible = vec![true; 5];
    assert_eq!(select_first(&keys, &eligible, 3), vec![4, 3, 1]);
    assert_eq!(select_first(&keys, &eligible, 5), vec![4, 3, 1, 2, 0]);
    assert_eq!(select_first(&keys, &eligible, 9), vec![4, 3, 1, 2, 0]);
    assert_eq!(select_first(&keys, &eligible, 0), Vec::<usize>::new());
}

#[test]
fn the_priority_class_comes_before_the_distance() {
    let keys = vec![(1, 0, 0), (0, 100, 0), (2, 0, 0), (0, 100, 1), (1, 0, 1)];
    let eligible = vec![true; 5];
    assert_eq!(select_first(&keys, &eligible, 5), vec![1, 3, 0, 4, 2]);
}

#[test]
fn equal_keys_keep_the_order_of_the_list() {
    let keys = vec![(0, 5, 5), (0, 1, 1), (0, 5, 5), (0, 1, 1), (0, 5, 5)];
    let eligible = vec![true; 5];
    assert_eq!(select_first(&keys, &eligible, 4), vec![1, 3, 0, 2]);
    assert_eq!(select_first(&keys, &eligible, 5), vec![1, 3, 0, 2, 4]);
}

#[test]
fn only_eligible_candidates_are_selected() {
    let keys = vec![(0, 0, 0), (0, 1, 0), (0, 2, 0), (0, 3, 0)];
    let eligible = vec![false, true, false, true];
    assert_eq!(select_first(&keys, &eligible, 1), vec![1]);
    assert_eq!(select_first(&keys, &eligible, 4), vec![1, 3]);
    assert_eq!(select_first(&keys, &vec![false; 4], 4), Vec::<usize>::new());
    assert_eq!(select_first(&Vec::new(), &Vec::new(), 4), Vec::<usize>::new());
}

#[test]
fn large_keys_are_compared_in_full() {
    let keys = vec![(0, u128::MAX, 0), (0, u128::MAX - 1, u32::MAX), (0, 1 << 64, 0)];
    let eligible = vec![true; 3];
    assert_eq!(select_first(&keys, &eligible, 3), vec![2, 1, 0]);
}

#[test]
fn positions_are_picked_by_their_keys() {
    let base = vec![IVec3::new(5, 0, 0), IVec3::new(1, 0, 0), IVec3::new(3, 0, 0)];
    let keys = vec![(0, 25, 0), (0, 1, 0), (0, 9, 0)];
    let eligible = vec![true, true, true];
    assert_eq!(
        pick_first(&base, &keys, &eligible, 2),
        vec![IVec3::new(1, 0, 0), IVec3::new(3, 0, 0)]
    );
    assert_eq!(
        pick_first(&base, &keys, &vec![true, false, true], 2),
        vec![IVec3::new(3, 0, 0), IVec3::new(5, 0, 0)]
    );
}
