use voxel_world::coords::{chunk_pos_of, div_floor, local_index, local_pos_of, rem_floor};
use voxel_world::{IVec3, RegionManager, USizeVec3, World};

#[test]
fn chunk_positions_round_down() {
    assert_eq!(World::chunk_pos(IVec3::new(0, 0, 0)), IVec3::new(0, 0, 0));
    assert_eq!(World::chunk_pos(IVec3::new(31, 32, 63)), IVec3::new(0, 1, 1));
    assert_eq!(World::chunk_pos(IVec3::new(-1, -32, -33)), IVec3::new(-1, -1, -2));
    assert_eq!(chunk_pos_of(IVec3::new(100, -100, 64)), IVec3::new(3, -4, 2));
    assert_eq!(
        World::chunk_pos(IVec3::new(i32::MAX, i32::MIN, 0)),
        IVec3::new(67108863, -67108864, 0)
    );
}

#[test]
fn local_positions_are_remainders() {
    assert_eq!(World::local_pos(IVec3::new(0, 0, 0)), USizeVec3::new(0, 0, 0));
    assert_eq!(World::local_pos(IVec3::new(31, 32, 63)), USizeVec3::new(31, 0, 31));
    assert_eq!(World::local_pos(IVec3::new(-1, -32, -33)), USizeVec3::new(31, 0, 31));
    assert_eq!(local_pos_of(IVec3::new(100, -100, 64)), USizeVec3::new(4, 28, 0));
    assert_eq!(
        World::local_pos(IVec3::new(i32::MAX, i32::MIN, 5)),
        USizeVec3::new(31, 0, 5)
    );
}

#[test]
fn chunk_and_local_position_give_the_world_position_back() {
    for w in [-1000, -65, -64, -33, -32, -1, 0, 1, 31, 32, 999] {
        let pos = IVec3::new(w, -w, w / 2);
        let chunk = World::chunk_pos(pos);
        let local = World::local_pos(pos);
        assert_eq!(chunk.x * 32 + local.x as i32, pos.x);
        assert_eq!(chunk.y * 32 + local.y as i32, pos.y);
        assert_eq!(chunk.z * 32 + local.z as i32, pos.z);
        assert!(local.is_in_chunk());
    }
}

#[test]
fn regions_hold_sixteen_chunks_on_each_axis() {
    assert_eq!(RegionManager::region_pos(IVec3::new(0, 15, 16)), IVec3::new(0, 0, 1));
    assert_eq!(RegionManager::region_pos(IVec3::new(-1, -16, -17)), IVec3::new(-1, -1, -2));
    assert_eq!(RegionManager::region_pos(IVec3::new(100, -100, 31)), IVec3::new(6, -7, 1));
}

#[test]
fn floor_division_and_remainder() {
    assert_eq!(div_floor(7, 2), 3);
    assert_eq!(div_floor(-7, 2), -4);
    assert_eq!(rem_floor(7, 2), 1);
    assert_eq!(rem_floor(-7, 2), 1);
    assert_eq!(div_floor(i32::MIN, 32), -67108864);
    assert_eq!(rem_floor(i32::MIN, 32), 0);
}

#[test]
fn cells_are_numbered_with_x_fastest() {
    assert_eq!(local_index(USizeVec3::new(0, 0, 0)), 0);
    assert_eq!(local_index(USizeVec3::new(1, 0, 0)), 1);
    assert_eq!(local_index(USizeVec3::new(0, 1, 0)), 32);
    assert_eq!(local_index(USizeVec3::new(0, 0, 1)), 1024);
    assert_eq!(local_index(USizeVec3::new(31, 31, 31)), 32767);
}

#[test]
fn offsets_stop_at_the_edge_of_the_grid() {
    let pos = IVec3::new(i32::MAX, 0, i32::MIN);
    assert_eq!(pos.offset(0, 1, 0), Some(IVec3::new(i32::MAX, 1, i32::MIN)));
    assert_eq!(pos.offset(1, 0, 0), None);
    assert_eq!(pos.offset(0, 0, -1), None);
    assert_eq!(pos.offset(-1, -1, 1), Some(IVec3::new(i32::MAX - 1, -1, i32::MIN + 1)));
}
