use colorspread::color::{shift_channel, shift_color, Color};
use rand::SeedableRng;

fn rng_from(seed: u64) -> rand::rngs::StdRng {
    rand::rngs::StdRng::seed_from_u64(seed)
}

#[test]
fn shift_channel_zero_is_identity() {
    for seed in 0..8u64 {
        let mut rng = rng_from(seed);
        for v in [0u8, 1, 5, 127, 200, 254, 255] {
            assert_eq!(shift_channel(v, 0, &mut rng), v);
        }
    }
}

#[test]
fn shift_channel_stays_in_byte_range() {
    for seed in 0..16u64 {
        let mut rng = rng_from(seed);
        for v in [0u8, 1, 2, 100, 128, 250, 255] {
            for s in [1u8, 2, 5, 10, 255] {
                let r = shift_channel(v, s, &mut rng);
                let lo = v.saturating_sub(s - 1);
                let hi = v.saturating_add(s - 1);
                assert!(r >= lo && r <= hi, "value {} shifted by <{} gave {}", v, s, r);
            }
        }
    }
}

#[test]
fn shift_channel_one_is_identity_up_to_saturation() {
    // A bound of 1 only ever draws magnitude 0, so the value never moves.
    let mut rng = rng_from(3);
    for v in [0u8, 77, 255] {
        assert_eq!(shift_channel(v, 1, &mut rng), v);
    }
}

#[test]
fn shift_color_zero_is_identity() {
    let mut rng = rng_from(11);
    let c = Color { red: 13, green: 200, blue: 0 };
    assert_eq!(shift_color(c, 0, &mut rng), c);
}

#[test]
fn shift_color_channels_stay_within_bound() {
    for seed in 0..12u64 {
        let mut rng = rng_from(seed);
        let c = Color { red: 2, green: 128, blue: 254 };
        let s = 5u8;
        let r = shift_color(c, s, &mut rng);
        for (orig, new) in [(c.red, r.red), (c.green, r.green), (c.blue, r.blue)] {
            assert!(new >= orig.saturating_sub(s - 1));
            assert!(new <= orig.saturating_add(s - 1));
        }
    }
}

#[test]
fn random_color_is_reproducible_under_a_fixed_seed() {
    let a = Color::random(&mut rng_from(42));
    let b = Color::random(&mut rng_from(42));
    assert_eq!(a, b);
}
