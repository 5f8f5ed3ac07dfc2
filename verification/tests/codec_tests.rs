use hyperlife::codec::{pow3_u32, pow_usize, tagged_coords_to_index, tagged_index_to_coords};
use hyperlife::rules::LifeRules;
use hyperlife::sim::LifeSimulator;

#[test]
fn pow_helpers() {
    assert_eq!(pow3_u32(0), 1);
    assert_eq!(pow3_u32(1), 3);
    assert_eq!(pow3_u32(4), 81);
    assert_eq!(pow_usize(5, 0), 1);
    assert_eq!(pow_usize(5, 3), 125);
    assert_eq!(pow_usize(1, 9), 1);
}

#[test]
fn encode_is_mixed_radix() {
    // axis 0 is least significant: index = 1 + 2*4 + 3*16
    assert_eq!(tagged_coords_to_index(4, 3, &vec![1, 2, 3]), 57);
    assert_eq!(tagged_coords_to_index(4, 3, &vec![0, 0, 0]), 0);
    assert_eq!(tagged_coords_to_index(4, 3, &vec![3, 3, 3]), 63);
    assert_eq!(tagged_coords_to_index(10, 1, &vec![7]), 7);
}

#[test]
fn decode_recovers_digits() {
    assert_eq!(tagged_index_to_coords(4, 3, 57), vec![1, 2, 3]);
    assert_eq!(tagged_index_to_coords(4, 3, 0), vec![0, 0, 0]);
    assert_eq!(tagged_index_to_coords(4, 3, 63), vec![3, 3, 3]);
    assert_eq!(tagged_index_to_coords(10, 1, 7), vec![7]);
}

#[test]
fn round_trip_every_index() {
    // every index of a 3-axis grid of size 4 survives decode-then-encode
    for index in 0..64 {
        let coords = tagged_index_to_coords(4, 3, index);
        assert_eq!(coords.len(), 3);
        for c in coords.iter() {
            assert!(*c < 4);
        }
        assert_eq!(tagged_coords_to_index(4, 3, &coords), index);
    }
}

#[test]
fn round_trip_every_coordinate() {
    // every coordinate vector of a 2-axis grid of size 5 survives
    // encode-then-decode
    for x in 0..5u32 {
        for y in 0..5u32 {
            let index = tagged_coords_to_index(5, 2, &vec![x, y]);
            assert!(index < 25);
            assert_eq!(tagged_index_to_coords(5, 2, index), vec![x, y]);
        }
    }
}

#[test]
fn grid_codec_delegates() {
    let game = LifeSimulator::new(LifeRules::BasicRules, 2, 6);
    let index = game.coords_to_index(&vec![4, 5]);
    assert_eq!(index, 4 + 5 * 6);
    assert_eq!(game.index_to_coords(index), vec![4, 5]);
}
