use imgcpr::Distance;
use imgcpr::PALETTE_SIZE;
use imgcpr::REJECT_DIST2;
use imgcpr::RgbU8;
use imgcpr::get_palette_freq;

fn rgb(r: u8, g: u8, b: u8) -> RgbU8 {
    RgbU8 { r, g, b }
}

#[test]
fn redmean_distance_exact_values() {
    // scaled by 768: one step of red at black weighs 512 + 0
    assert_eq!(rgb(0, 0, 0).distance2(&rgb(1, 0, 0)), 512);
    assert_eq!(rgb(1, 0, 0).distance2(&rgb(0, 0, 0)), 512);
    // one step of green weighs 1024 at any red mean
    assert_eq!(rgb(0, 10, 0).distance2(&rgb(0, 11, 0)), 1024);
    // one step of blue at black weighs 767 - 0
    assert_eq!(rgb(0, 0, 0).distance2(&rgb(0, 0, 1)), 767);
    assert_eq!(rgb(5, 5, 5).distance2(&rgb(5, 5, 5)), 0);
}

#[test]
fn nearest_empty_is_none() {
    let palette: Vec<RgbU8> = Vec::new();
    assert_eq!(rgb(1, 2, 3).nearest(&palette), None);
}

#[test]
fn nearest_picks_minimum() {
    let palette = vec![rgb(0, 0, 0), rgb(200, 200, 200), rgb(90, 90, 90)];
    let q = rgb(100, 100, 100);
    assert_eq!(q.nearest(&palette), Some(2));
}

#[test]
fn nearest_tie_keeps_lowest_index() {
    // both entries differ from the query by 10 in green only, so their
    // distances are exactly equal and the earlier entry wins
    let palette = vec![rgb(0, 30, 0), rgb(0, 10, 0)];
    let q = rgb(0, 20, 0);
    assert_eq!(q.distance2(&palette[0]), q.distance2(&palette[1]));
    assert_eq!(q.nearest(&palette), Some(0));
}

#[test]
fn freq_palette_caps_at_sixteen() {
    // twenty pixel colors in distinct buckets, pairwise farther apart
    // than the rejection distance
    let mut pixels = Vec::new();
    for i in 0..20u32 {
        pixels.push(rgb((i % 5) as u8 * 48, (i / 5) as u8 * 64, 0));
    }
    let palette = get_palette_freq(&pixels);
    assert!(palette.len() <= PALETTE_SIZE);
    assert_eq!(palette.len(), PALETTE_SIZE);
}

#[test]
fn freq_palette_entries_stay_apart() {
    let mut pixels = Vec::new();
    for i in 0..40u32 {
        let v = (i * 6) as u8;
        pixels.push(rgb(v, v / 2, 255 - v));
    }
    let palette = get_palette_freq(&pixels);
    for i in 0..palette.len() {
        for j in 0..palette.len() {
            if i != j {
                assert!(palette[i].distance2(&palette[j]) >= REJECT_DIST2 as u128);
            }
        }
    }
}

#[test]
fn freq_palette_rejects_near_duplicate_of_more_frequent_bucket() {
    // (0,0,0) appears twice and is taken first; (16,0,0) lies within
    // the rejection distance of it and is dropped
    let pixels = vec![rgb(0, 0, 0), rgb(0, 0, 0), rgb(16, 0, 0)];
    assert!(rgb(0, 0, 0).distance2(&rgb(16, 0, 0)) < REJECT_DIST2 as u128);
    let palette = get_palette_freq(&pixels);
    assert_eq!(palette, vec![rgb(0, 0, 0)]);
}

#[test]
fn freq_palette_orders_buckets_by_count() {
    // buckets leave in descending count order, however they arrive
    let pixels = vec![
        rgb(255, 255, 255),
        rgb(0, 255, 0),
        rgb(0, 255, 0),
        rgb(255, 0, 0),
        rgb(0, 255, 0),
        rgb(255, 0, 0),
    ];
    let palette = get_palette_freq(&pixels);
    assert_eq!(palette, vec![rgb(0, 240, 0), rgb(240, 0, 0), rgb(240, 240, 240)]);
}

#[test]
fn freq_palette_keeps_the_most_frequent_buckets_when_full() {
    // twenty far-apart buckets, bucket number i given i + 1 pixels: the
    // sixteen heaviest stay, in descending count order
    let bucket = |i: u32| rgb((i % 5) as u8 * 48, (i / 5) as u8 * 64, 0);
    let mut pixels = Vec::new();
    for i in 0..20u32 {
        for _ in 0..(i + 1) {
            pixels.push(bucket(i));
        }
    }
    let palette = get_palette_freq(&pixels);
    let expected: Vec<RgbU8> = (4..20u32).rev().map(bucket).collect();
    assert_eq!(palette, expected);
}

#[test]
fn freq_palette_of_empty_input_is_empty() {
    let palette = get_palette_freq(&Vec::new());
    assert!(palette.is_empty());
}

#[test]
fn freq_palette_entries_are_buckets_of_pixels() {
    let pixels = vec![rgb(17, 33, 250), rgb(128, 7, 9)];
    let palette = get_palette_freq(&pixels);
    for p in &palette {
        assert!(
            pixels
                .iter()
                .any(|px| rgb(px.r & 0xf0, px.g & 0xf0, px.b & 0xf0) == *p)
        );
    }
    assert_eq!(palette.len(), 2);
}
