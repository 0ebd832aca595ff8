use particle_sim::morton::{clamp_u32, morton2D, morton_order, part1by1};

#[test]
fn part1by1_spreads_low_bits() {
    assert_eq!(part1by1(0), 0);
    assert_eq!(part1by1(0b1011), 69);
    assert_eq!(part1by1(0xFFFF), 0x5555_5555);
}

#[test]
fn part1by1_ignores_high_bits() {
    assert_eq!(part1by1(0x1_0001), 1);
    assert_eq!(part1by1(0xFFFF_0000), 0);
}

#[test]
fn morton2d_interleaves() {
    assert_eq!(morton2D(1, 0), 1);
    assert_eq!(morton2D(0, 1), 2);
    assert_eq!(morton2D(3, 3), 15);
    assert_eq!(morton2D(2, 1), 6);
    assert_eq!(morton2D(0xFFFF, 0), 0x5555_5555);
    assert_eq!(morton2D(0xFFFF, 0xFFFF), 0xFFFF_FFFF);
}

#[test]
fn morton_round_trip_on_values() {
    for k in [0u32, 1, 2, 6, 0x1234_5678, 0xDEAD_BEEF, 0xFFFF_FFFF] {
        let mut ix = 0u32;
        let mut iy = 0u32;
        for i in 0..16 {
            ix |= ((k >> (2 * i)) & 1) << i;
            iy |= ((k >> (2 * i + 1)) & 1) << i;
        }
        assert_eq!(morton2D(ix, iy), k);
    }
}

#[test]
fn clamp_u32_clamps() {
    assert_eq!(clamp_u32(-5, 0, 10), 0);
    assert_eq!(clamp_u32(15, 0, 10), 10);
    assert_eq!(clamp_u32(7, 0, 10), 7);
    assert_eq!(clamp_u32(1 << 40, 0, 65535), 65535);
}

#[test]
fn morton_order_sorts_by_key_then_index() {
    assert_eq!(morton_order(&vec![5, 1, 5, 0]), vec![3, 1, 0, 2]);
    assert_eq!(morton_order(&vec![]), Vec::<usize>::new());
    assert_eq!(morton_order(&vec![7, 7, 7]), vec![0, 1, 2]);
}
