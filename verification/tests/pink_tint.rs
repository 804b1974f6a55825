use image::{DynamicImage, GenericImageView, ImageBuffer, Rgba};
use pixel_noise::dyadic::{plus, round, times, truncate, Binary};
use pixel_noise::noise::{pink_noise, pink_noise_words};
use pixel_noise::pixel::Rgba8;
use pixel_noise::tint::{
    scale_for, tint_channel, tint_pixel, Channel, BASE_MANT, BLUE_EXP, DAMPING_MANT, FRACTION_EXP,
    GREEN_EXP, TENTH_MANT,
};
use rand::rngs::StdRng;
use rand::{Rng, RngCore, SeedableRng};

fn value_of(b: Binary) -> f64 {
    b.mant as f64 * 2f64.powi(b.exp)
}

fn binary_of(v: f64) -> Binary {
    if v == 0.0 {
        return Binary { mant: 0, exp: 0 };
    }
    let bits = v.to_bits();
    let field = ((bits >> 52) & 0x7ff) as i32;
    assert!(field != 0 && field != 0x7ff);
    Binary { mant: (bits & 0xf_ffff_ffff_ffff) | (1 << 52), exp: field - 1075 }
}

fn fraction_of(word: u64) -> f64 {
    (word >> 11) as f64 * (1.0 / (1u64 << 53) as f64)
}

fn spread_of(which: Channel) -> f64 {
    match which {
        Channel::Red => 0.6,
        Channel::Green => 0.1,
        Channel::Blue => 0.4,
    }
}

fn by_formula(channel: u8, word: u64, which: Channel) -> u8 {
    let scale: f64 = 0.6 + fraction_of(word) * spread_of(which);
    let scaled: f64 = channel as f64 * 0.99 * scale;
    if scaled >= 255.0 {
        255
    } else {
        scaled.floor() as u8
    }
}

fn gradient(width: u32, height: u32) -> DynamicImage {
    DynamicImage::ImageRgba8(ImageBuffer::from_fn(width, height, |x, y| {
        Rgba { data: [(x * 7 + y) as u8, (x + y * 11) as u8, (x * y) as u8, (x * 3 + y * 5) as u8] }
    }))
}

fn seeded_words(seed: u64, count: usize) -> Vec<u64> {
    let mut rng = StdRng::seed_from_u64(seed);
    let mut words = Vec::new();
    for _ in 0..count {
        words.push(rng.next_u64());
    }
    words
}

const CHANNELS: [Channel; 3] = [Channel::Red, Channel::Green, Channel::Blue];

#[test]
fn constants_are_the_nearest_doubles() {
    assert_eq!(binary_of(0.6), Binary { mant: BASE_MANT, exp: FRACTION_EXP });
    assert_eq!(binary_of(0.99), Binary { mant: DAMPING_MANT, exp: FRACTION_EXP });
    assert_eq!(binary_of(0.1), Binary { mant: TENTH_MANT, exp: GREEN_EXP });
    assert_eq!(binary_of(0.4), Binary { mant: TENTH_MANT, exp: BLUE_EXP });
}

#[test]
fn a_word_stands_for_the_fraction_that_the_generator_samples() {
    let mut words = StdRng::seed_from_u64(7);
    let mut floats = StdRng::seed_from_u64(7);
    for _ in 0..1000 {
        let word = words.next_u64();
        let sampled: f64 = floats.gen();
        assert_eq!(fraction_of(word).to_bits(), sampled.to_bits());
        assert!(sampled >= 0.0 && sampled < 1.0);
    }
}

#[test]
fn rounding_keeps_short_values_and_halves_to_even() {
    assert_eq!(round(0, 5), Binary { mant: 0, exp: 5 });
    assert_eq!(round(12345, -3), Binary { mant: 12345, exp: -3 });
    let limit: u128 = 1 << 53;
    assert_eq!(round(limit - 1, 0), Binary { mant: (limit - 1) as u64, exp: 0 });
    assert_eq!(round(limit, 0), Binary { mant: 1 << 52, exp: 1 });
    assert_eq!(round(limit + 1, 0), Binary { mant: 1 << 52, exp: 1 });
    assert_eq!(round(limit + 2, 0), Binary { mant: (1 << 52) + 1, exp: 1 });
    assert_eq!(round(limit + 3, 0), Binary { mant: (1 << 52) + 2, exp: 1 });
    assert_eq!(round(2 * limit - 1, 0), Binary { mant: 1 << 53, exp: 1 });
    assert_eq!(round(4 * limit + 6, 7), Binary { mant: (1 << 52) + 1, exp: 10 });
    assert_eq!(round(4 * limit + 12, 7), Binary { mant: (1 << 52) + 2, exp: 10 });
    assert_eq!(round(4 * limit + 4, 7), Binary { mant: 1 << 52, exp: 10 });
    assert_eq!(round(4 * limit + 5, 7), Binary { mant: (1 << 52) + 1, exp: 10 });
    assert_eq!(round(u128::max_value(), 0), Binary { mant: 1 << 53, exp: 75 });
}

#[test]
fn products_and_sums_round_as_doubles_do() {
    let mut rng = StdRng::seed_from_u64(11);
    for _ in 0..20000 {
        let a: f64 = rng.gen::<f64>() * 300.0 + 1e-9;
        let b: f64 = rng.gen::<f64>() * 2.0 + 1e-9;
        let product = times(binary_of(a), binary_of(b));
        assert_eq!(value_of(product).to_bits(), (a * b).to_bits());
        let total = plus(binary_of(a), binary_of(b));
        assert_eq!(value_of(total).to_bits(), (a + b).to_bits());
        let swapped = plus(binary_of(b), binary_of(a));
        assert_eq!(value_of(swapped).to_bits(), (a + b).to_bits());
    }
    assert_eq!(value_of(plus(binary_of(0.6), binary_of(0.0))).to_bits(), 0.6f64.to_bits());
    assert_eq!(value_of(times(binary_of(0.6), binary_of(0.0))), 0.0);
    assert_eq!(value_of(plus(binary_of(0.1), binary_of(0.2))).to_bits(), (0.1f64 + 0.2).to_bits());
}

#[test]
fn truncation_drops_the_fraction_and_stops_at_255() {
    assert_eq!(truncate(binary_of(0.0)), 0);
    assert_eq!(truncate(binary_of(0.999)), 0);
    assert_eq!(truncate(binary_of(1.0)), 1);
    assert_eq!(truncate(binary_of(151.47)), 151);
    assert_eq!(truncate(binary_of(254.999)), 254);
    assert_eq!(truncate(binary_of(255.0)), 255);
    assert_eq!(truncate(binary_of(302.94)), 255);
    assert_eq!(truncate(binary_of(1e30)), 255);
    assert_eq!(truncate(binary_of(1e-30)), 0);
    assert_eq!(truncate(Binary { mant: 3, exp: 0 }), 3);
    assert_eq!(truncate(Binary { mant: 3, exp: 6 }), 192);
    assert_eq!(truncate(Binary { mant: 3, exp: 7 }), 255);
    assert_eq!(truncate(Binary { mant: 1, exp: 8 }), 255);
    assert_eq!(truncate(Binary { mant: 0, exp: 100 }), 0);
    assert_eq!(truncate(Binary { mant: 1 << 53, exp: -64 }), 0);
    assert_eq!(truncate(Binary { mant: 1 << 53, exp: -53 }), 1);
    assert_eq!(truncate(Binary { mant: 1 << 53, exp: -46 }), 128);
}

#[test]
fn scale_factors_follow_the_formula() {
    let mut rng = StdRng::seed_from_u64(5);
    for _ in 0..20000 {
        let word = rng.next_u64();
        for which in CHANNELS.iter() {
            let expected: f64 = 0.6 + fraction_of(word) * spread_of(*which);
            assert_eq!(value_of(scale_for(word, *which)).to_bits(), expected.to_bits());
        }
    }
}

#[test]
fn scale_factors_at_the_ends_of_the_draw() {
    let least: u64 = 0;
    let most: u64 = u64::max_value();
    assert_eq!(fraction_of(least), 0.0);
    assert!(fraction_of(most) < 1.0 && fraction_of(most) > 0.9999999999999998);
    for which in CHANNELS.iter() {
        assert_eq!(value_of(scale_for(least, *which)), 0.6);
        let top: f64 = 0.6 + fraction_of(most) * spread_of(*which);
        assert_eq!(value_of(scale_for(most, *which)).to_bits(), top.to_bits());
    }
    let green_top = value_of(scale_for(most, Channel::Green));
    let red_top = value_of(scale_for(most, Channel::Red));
    let blue_top = value_of(scale_for(most, Channel::Blue));
    assert!(green_top >= 0.6 && green_top <= 0.7);
    assert!(red_top >= 0.6 && red_top < 1.2);
    assert!(blue_top >= 0.6 && blue_top <= 1.0);
    assert!(green_top < red_top && green_top < blue_top && blue_top < red_top);
    assert_eq!(scale_for(most, Channel::Green), binary_of(0.7));
    assert_eq!(value_of(scale_for(most, Channel::Blue)), 1.0);
    assert_eq!(scale_for(least, Channel::Red), binary_of(0.6));
    assert_eq!(scale_for(1 << 63, Channel::Red), Binary { mant: 0x1c_cccc_cccc_cccc, exp: -53 });
}

#[test]
fn green_scale_never_leaves_its_range_nor_passes_that_of_red() {
    let mut rng = StdRng::seed_from_u64(21);
    for _ in 0..20000 {
        let word = rng.next_u64();
        let green = value_of(scale_for(word, Channel::Green));
        let red = value_of(scale_for(word, Channel::Red));
        assert!(green >= 0.6 && green <= 0.7);
        assert!(red >= 0.6 && red < 1.2);
        assert!(green <= red);
    }
}

#[test]
fn tinted_channels_follow_the_formula_at_the_ends_of_the_draw() {
    for channel in 0..=255u8 {
        for which in CHANNELS.iter() {
            for &word in [0u64, u64::max_value(), 1 << 11, 1 << 63, (1 << 11) - 1].iter() {
                assert_eq!(tint_channel(channel, word, *which), by_formula(channel, word, *which));
            }
        }
    }
    assert_eq!(tint_channel(255, 0, Channel::Red), 151);
    assert_eq!(tint_channel(255, 0, Channel::Green), 151);
    assert_eq!(tint_channel(255, 0, Channel::Blue), 151);
    assert_eq!(tint_channel(100, 0, Channel::Green), 59);
    assert_eq!(tint_channel(100, u64::max_value(), Channel::Green), 69);
    assert_eq!(tint_channel(100, u64::max_value(), Channel::Blue), 99);
    assert_eq!(tint_channel(100, u64::max_value(), Channel::Red), 118);
    assert_eq!(tint_channel(0, u64::max_value(), Channel::Red), 0);
}

#[test]
fn tinted_channels_follow_the_formula_for_random_words() {
    let mut rng = StdRng::seed_from_u64(1);
    for _ in 0..40000 {
        let word = rng.next_u64();
        let channel: u8 = rng.gen();
        for which in CHANNELS.iter() {
            assert_eq!(tint_channel(channel, word, *which), by_formula(channel, word, *which));
        }
    }
}

#[test]
fn a_bright_red_channel_is_held_at_255() {
    assert_eq!(tint_channel(255, u64::max_value(), Channel::Red), 255);
    assert_eq!(tint_channel(215, u64::max_value(), Channel::Red), 255);
    assert_eq!(tint_channel(214, u64::max_value(), Channel::Red), 254);
    assert_eq!(by_formula(255, u64::max_value(), Channel::Red), 255);
}

#[test]
fn tint_pixel_gives_each_channel_its_own_word_and_keeps_alpha() {
    let px = Rgba8 { red: 200, green: 100, blue: 50, alpha: 33 };
    let out = tint_pixel(px, 1 << 63, 0, u64::max_value());
    assert_eq!(out.red, tint_channel(200, 1 << 63, Channel::Red));
    assert_eq!(out.green, tint_channel(100, 0, Channel::Green));
    assert_eq!(out.blue, tint_channel(50, u64::max_value(), Channel::Blue));
    assert_eq!(out, Rgba8 { red: 178, green: 59, blue: 49, alpha: 33 });
}

#[test]
fn listed_words_tint_pixels_in_the_order_of_the_walk() {
    let before = gradient(3, 2);
    let words = seeded_words(8, 18);
    let out = pink_noise_words(before.clone(), &words).unwrap();
    assert_eq!(out.dimensions(), (3, 2));
    for x in 0..3u32 {
        for y in 0..2u32 {
            let old = before.get_pixel(x, y).data;
            let k = 3 * (x * 2 + y) as usize;
            let expected = [
                by_formula(old[0], words[k], Channel::Red),
                by_formula(old[1], words[k + 1], Channel::Green),
                by_formula(old[2], words[k + 2], Channel::Blue),
                old[3],
            ];
            assert_eq!(out.get_pixel(x, y).data, expected);
        }
    }
}

#[test]
fn too_few_words_are_refused() {
    let img = gradient(2, 2);
    assert!(pink_noise_words(img.clone(), &seeded_words(1, 11)).is_none());
    assert!(pink_noise_words(img.clone(), &seeded_words(1, 12)).is_some());
    assert!(pink_noise_words(img, &seeded_words(1, 13)).is_some());
}

#[test]
fn pink_tint_keeps_dimensions() {
    for &(w, h) in [(0u32, 0u32), (1, 1), (100, 100)].iter() {
        let img = DynamicImage::ImageRgba8(ImageBuffer::from_pixel(w, h, Rgba { data: [9, 99, 199, 7] }));
        let out = pink_noise(img.clone());
        assert_eq!(out.dimensions(), (w, h));
        let listed = pink_noise_words(img, &seeded_words(2, (3 * w * h) as usize)).unwrap();
        assert_eq!(listed.dimensions(), (w, h));
    }
}

#[test]
fn alpha_is_untouched_by_the_pink_tint() {
    let before = gradient(16, 16);
    let random = pink_noise(before.clone());
    let listed = pink_noise_words(before.clone(), &seeded_words(4, 768)).unwrap();
    for x in 0..16 {
        for y in 0..16 {
            assert_eq!(random.get_pixel(x, y).data[3], before.get_pixel(x, y).data[3]);
            assert_eq!(listed.get_pixel(x, y).data[3], before.get_pixel(x, y).data[3]);
        }
    }
}

#[test]
fn random_tint_stays_between_the_least_and_the_greatest_factor() {
    let before = gradient(40, 30);
    let out = pink_noise(before.clone());
    let mut changed = false;
    for x in 0..40 {
        for y in 0..30 {
            let old = before.get_pixel(x, y).data;
            let new = out.get_pixel(x, y).data;
            for (c, which) in CHANNELS.iter().enumerate() {
                assert!(new[c] >= by_formula(old[c], 0, *which));
                assert!(new[c] <= by_formula(old[c], u64::max_value(), *which));
            }
            if new != old {
                changed = true;
            }
        }
    }
    assert!(changed);
}

#[test]
fn same_words_give_the_same_tint_and_other_words_another() {
    let before = gradient(20, 20);
    let first = pink_noise_words(before.clone(), &seeded_words(42, 1200)).unwrap();
    let again = pink_noise_words(before.clone(), &seeded_words(42, 1200)).unwrap();
    let other = pink_noise_words(before.clone(), &seeded_words(43, 1200)).unwrap();
    assert_eq!(first.raw_pixels(), again.raw_pixels());
    assert_ne!(first.raw_pixels(), other.raw_pixels());
    assert_ne!(pink_noise(before.clone()).raw_pixels(), pink_noise(before).raw_pixels());
}
