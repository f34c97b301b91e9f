use anime4you::similarity::{best_match, distance, distances, min_index, parse_fixed12};

fn px(r: u8, g: u8, b: u8) -> lodepng::RGBA {
    lodepng::RGBA { r, g, b, a: 255 }
}

/// An 8x8 PNG filled with one colour, with one differing corner pixel to
/// keep patterns apart.
fn png(base: (u8, u8, u8), corner: (u8, u8, u8)) -> Vec<u8> {
    let mut pixels = vec![px(base.0, base.1, base.2); 64];
    pixels[0] = px(corner.0, corner.1, corner.2);
    lodepng::encode32(&pixels, 8, 8).unwrap()
}

#[test]
fn distance_of_identical_images_is_zero() {
    let img = png((200, 10, 10), (0, 0, 0));
    let copy = img.clone();
    assert_eq!(distance(&img, &copy).unwrap(), 0);
}

#[test]
fn distance_grows_with_divergence() {
    let a = png((200, 10, 10), (0, 0, 0));
    let b = png((10, 200, 10), (255, 255, 255));
    assert!(distance(&a, &b).unwrap() > 0);
}

#[test]
fn distance_refuses_undecodable_bytes() {
    let a = png((1, 2, 3), (0, 0, 0));
    let junk = vec![1u8, 2, 3, 4];
    assert!(distance(&a, &junk).is_err());
    assert!(distance(&junk, &a).is_err());
}

#[test]
fn distances_follow_candidates() {
    let reference = png((100, 100, 100), (0, 0, 0));
    let other = png((0, 0, 200), (9, 9, 9));
    let cands = vec![other.clone(), reference.clone(), other.clone()];
    let ds = distances(&reference, &cands).unwrap();
    assert_eq!(ds.len(), 3);
    assert_eq!(ds[1], 0);
    assert!(ds[0] > 0 && ds[2] > 0);
}

#[test]
fn min_index_breaks_ties_low() {
    assert_eq!(min_index(&vec![5, 2, 2, 7]), 1);
    assert_eq!(min_index(&vec![3]), 0);
    assert_eq!(min_index(&vec![4, 4, 4]), 0);
}

#[test]
fn best_match_picks_the_reference() {
    let reference = png((50, 120, 50), (0, 0, 0));
    let red = png((250, 0, 0), (1, 1, 1));
    let blue = png((0, 0, 250), (1, 1, 1));
    let green = png((0, 250, 0), (1, 1, 1));
    let cands = vec![red, blue, reference.clone(), green];
    assert_eq!(best_match(&reference, &cands).unwrap(), 2);
}

#[test]
fn best_match_prefers_the_visually_closest_candidate() {
    // a re-served reference need not be byte-identical: the nearest pixels win
    let reference = png((100, 100, 100), (0, 0, 0));
    let near = png((101, 101, 101), (0, 0, 0));
    let far1 = png((250, 0, 0), (1, 1, 1));
    let far2 = png((0, 0, 250), (1, 1, 1));
    let far3 = png((0, 250, 0), (1, 1, 1));
    assert_ne!(near, reference);
    let cands = vec![far1, near, far2, far3];
    assert_eq!(best_match(&reference, &cands).unwrap(), 1);
}

#[test]
fn parse_fixed12_reads_trillionths() {
    assert_eq!(parse_fixed12("0.000000000000"), 0);
    assert_eq!(parse_fixed12("0.000000000001"), 1);
    assert_eq!(parse_fixed12("1.500000000000"), 1_500_000_000_000);
    assert_eq!(parse_fixed12("-0.000000000001"), 0);
    assert_eq!(parse_fixed12("nonsense"), u64::MAX);
    assert_eq!(parse_fixed12("12345678.000000000000"), u64::MAX);
}
