use raytracer::perlin::{perlin_generate_perm, PerlinPermutations, POINT_COUNT};
use raytracer::texture::{ImageTexture, SolidColor};
use raytracer::utils::random_int;

fn is_perm(p: &[usize]) -> bool {
    let mut s = p.to_vec();
    s.sort();
    s == (0..POINT_COUNT).collect::<Vec<usize>>()
}

#[test]
fn shuffle_with_self_partners_is_identity() {
    let draws: Vec<usize> = (0..POINT_COUNT).collect();
    assert_eq!(perlin_generate_perm(&draws), (0..POINT_COUNT).collect::<Vec<usize>>());
}

#[test]
fn shuffle_with_zero_partners_rotates() {
    let draws = vec![0usize; POINT_COUNT];
    let p = perlin_generate_perm(&draws);
    // each step swaps the front entry upward: 0..256 becomes 1, 2, ..., 255, 0
    assert_eq!(p[0], 1);
    assert_eq!(p[1], 2);
    assert_eq!(p[254], 255);
    assert_eq!(p[255], 0);
    assert!(is_perm(&p));
}

#[test]
fn random_tables_are_permutations() {
    let t = PerlinPermutations::new();
    for i in -300..300 {
        assert!(t.hash(i, 2 * i, -i) < POINT_COUNT);
    }
}

#[test]
fn hash_wraps_negative_coordinates() {
    let id: Vec<usize> = (0..POINT_COUNT).collect();
    let zeros = vec![0usize; POINT_COUNT];
    let t = PerlinPermutations::from_draws(&id, &id, &zeros);
    // x and y tables are the identity, z is 1, 2, ..., 255, 0
    assert_eq!(t.hash(-1, 0, 1), 255 ^ 0 ^ 2);
    assert_eq!(t.hash(3, 5, 0), 3 ^ 5 ^ 1);
    assert_eq!(t.hash(256, 257, 258), 0 ^ 1 ^ 3);
    assert_eq!(t.hash(-256, -255, -1), 0 ^ 1 ^ 0);
}

#[test]
fn random_int_stays_in_range() {
    for _ in 0..1000 {
        let r = random_int(3, 5);
        assert!((3..=5).contains(&r));
    }
    assert_eq!(random_int(7, 7), 7);
}

#[test]
fn solid_color_returns_its_color() {
    let s = SolidColor::new((0.25f64, 0.5f64, 4.0f64));
    assert_eq!(s.value(), (0.25, 0.5, 4.0));
}

#[test]
fn image_texture_rejects_short_or_empty_images() {
    assert!(ImageTexture::new(2, 2, vec![0; 11]).is_none());
    assert!(ImageTexture::new(0, 2, vec![]).is_none());
    assert!(ImageTexture::new(2, 0, vec![]).is_none());
}

#[test]
fn image_texture_clamps_lookups() {
    let bytes: Vec<u8> = (0..12).collect();
    let t = ImageTexture::new(2, 2, bytes).unwrap();
    assert_eq!(t.width(), 2);
    assert_eq!(t.height(), 2);
    assert_eq!(t.texel(0, 0), [0, 1, 2]);
    assert_eq!(t.texel(1, 0), [3, 4, 5]);
    assert_eq!(t.texel(0, 1), [6, 7, 8]);
    assert_eq!(t.texel(9, 9), [9, 10, 11]);
    assert_eq!(t.texel(5, 0), [3, 4, 5]);
}
