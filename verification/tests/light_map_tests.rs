use cubecode::light_map::{LightMap, B_CHANNEL, G_CHANNEL, R_CHANNEL, S_CHANNEL};

#[test]
fn new_map_is_dark() {
    let map = LightMap::new();
    for x in 0..16u8 {
        for y in 0..16u8 {
            for z in 0..16u8 {
                let pos = [x, y, z];
                assert_eq!(map.get(&pos, R_CHANNEL), 0);
                assert_eq!(map.get(&pos, G_CHANNEL), 0);
                assert_eq!(map.get(&pos, B_CHANNEL), 0);
                assert_eq!(map.get(&pos, S_CHANNEL), 0);
            }
        }
    }
}

#[test]
fn set_then_get_round_trips_every_channel() {
    let mut map = LightMap::new();
    let pos = [3u8, 7u8, 11u8];
    map.set(&pos, R_CHANNEL, 1);
    map.set(&pos, G_CHANNEL, 5);
    map.set(&pos, B_CHANNEL, 10);
    map.set(&pos, S_CHANNEL, 15);
    assert_eq!(map.get(&pos, R_CHANNEL), 1);
    assert_eq!(map.get(&pos, G_CHANNEL), 5);
    assert_eq!(map.get(&pos, B_CHANNEL), 10);
    assert_eq!(map.get(&pos, S_CHANNEL), 15);
}

#[test]
fn channel_independence_on_one_voxel() {
    let mut map = LightMap::new();
    let pos = [0u8, 0u8, 0u8];
    map.set(&pos, G_CHANNEL, 9);
    map.set(&pos, B_CHANNEL, 4);
    map.set(&pos, S_CHANNEL, 13);
    map.set(&pos, R_CHANNEL, 7);
    assert_eq!(map.get(&pos, R_CHANNEL), 7);
    assert_eq!(map.get(&pos, G_CHANNEL), 9);
    assert_eq!(map.get(&pos, B_CHANNEL), 4);
    assert_eq!(map.get(&pos, S_CHANNEL), 13);
    map.set(&pos, R_CHANNEL, 0);
    assert_eq!(map.get(&pos, G_CHANNEL), 9);
    assert_eq!(map.get(&pos, B_CHANNEL), 4);
    assert_eq!(map.get(&pos, S_CHANNEL), 13);
}

#[test]
fn set_leaves_other_voxels_alone() {
    let mut map = LightMap::new();
    map.set(&[5, 5, 5], R_CHANNEL, 12);
    assert_eq!(map.get(&[5, 5, 5], R_CHANNEL), 12);
    assert_eq!(map.get(&[4, 5, 5], R_CHANNEL), 0);
    assert_eq!(map.get(&[5, 4, 5], R_CHANNEL), 0);
    assert_eq!(map.get(&[5, 5, 4], R_CHANNEL), 0);
}

#[test]
fn named_channel_accessors_match_generic_ones() {
    let mut map = LightMap::new();
    let pos = [15u8, 15u8, 15u8];
    map.set_r(&pos, 2);
    map.set_g(&pos, 3);
    map.set_b(&pos, 14);
    map.set_s(&pos, 8);
    assert_eq!(map.get_r(&pos), map.get(&pos, R_CHANNEL));
    assert_eq!(map.get_g(&pos), map.get(&pos, G_CHANNEL));
    assert_eq!(map.get_b(&pos), map.get(&pos, B_CHANNEL));
    assert_eq!(map.get_s(&pos), map.get(&pos, S_CHANNEL));
    assert_eq!(map.get_r(&pos), 2);
    assert_eq!(map.get_g(&pos), 3);
    assert_eq!(map.get_b(&pos), 14);
    assert_eq!(map.get_s(&pos), 8);
}
