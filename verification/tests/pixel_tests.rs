use hex_range::hex::Axial;
use hex_range::hex::Cube;
use hex_range::pixel::FracCube;
use hex_range::pixel::PixelVec;

fn ax(q: i64, r: i64) -> Axial {
    Axial::new(q, r)
}

#[test]
fn axial_to_pixel_examples() {
    // one unit of q moves sqrt(3) * 30 pixels right, in 1/10000 sub-pixels
    let p = ax(1, 0).to_vec3_pixel();
    assert_eq!(p, PixelVec { x: 519_615, y: 0 });
    // one unit of r moves half of that right and 45 pixels up
    let p = ax(0, 1).to_vec3_pixel();
    assert_eq!(p, PixelVec { x: 259_808, y: 450_000 });
    let p = ax(-2, 3).to_vec3_pixel();
    assert_eq!(p, PixelVec { x: -2 * 519_615 + 3 * 259_808, y: 3 * 450_000 });
}

#[test]
fn pixel_round_trip_within_fifty() {
    for q in -50..=50i64 {
        for r in -50..=50i64 {
            let a = ax(q, r);
            let back = Axial::from_pixel_vec3(a.to_vec3_pixel());
            assert_eq!(back, a);
        }
    }
}

#[test]
fn pixel_near_center_maps_to_origin() {
    // a third of a hex off centre still rounds home
    assert_eq!(Axial::from_pixel_vec3(PixelVec { x: 100_000, y: 100_000 }), ax(0, 0));
    assert_eq!(Axial::from_pixel_vec3(PixelVec { x: -100_000, y: -100_000 }), ax(0, 0));
}

#[test]
fn pixel_far_point_rounds_to_nearest_hex() {
    // just past the midpoint toward (1, 0): 30 * sqrt(3) pixels is one q
    let one_q: i64 = 519_615;
    assert_eq!(Axial::from_pixel_vec3(PixelVec { x: one_q * 3 / 4, y: 0 }), ax(1, 0));
    assert_eq!(Axial::from_pixel_vec3(PixelVec { x: one_q / 4, y: 0 }), ax(0, 0));
}

#[test]
fn cube_round_keeps_zero_sum() {
    // fractions a third of the way between hexes still satisfy q + r + s == 0
    for (fq, fr) in [(10, 20), (35, -7), (-50, 49), (99, 1)] {
        let den: i64 = 100;
        let c = Cube::from_cude_not_rounded(FracCube { q: fq, r: fr, s: -fq - fr, den });
        assert_eq!(c.q + c.r + c.s, 0);
    }
}

#[test]
fn cube_round_exact_integers() {
    let c = Cube::from_cude_not_rounded(FracCube { q: 300, r: -100, s: -200, den: 100 });
    assert_eq!((c.q, c.r, c.s), (3, -1, -2));
}

#[test]
fn cube_round_discards_largest_error() {
    // q has the largest rounding error, so q is the recomputed axis
    let c = Cube::from_cude_not_rounded(FracCube { q: 160, r: 130, s: -290, den: 100 });
    assert_eq!(c.q + c.r + c.s, 0);
    assert_eq!((c.q, c.r, c.s), (2, 1, -3));
}

#[test]
fn cube_round_fixes_inconsistent_sum() {
    // 0.5 rounds away from zero on both q and r, breaking the sum; the
    // r-axis (largest error after q's tie rule) is recomputed
    let c = Cube::from_cude_not_rounded(FracCube { q: 50, r: 50, s: -100, den: 100 });
    assert_eq!((c.q, c.r, c.s), (1, 0, -1));
}

#[test]
fn cube_from_axial_and_back() {
    let c = Cube::from_axial(ax(4, -9));
    assert_eq!((c.q, c.r, c.s), (4, -9, 5));
    assert_eq!(Axial::from_cube(c), ax(4, -9));
    let c2 = Cube::new(1, 2, -3);
    assert_eq!(Axial::from_cube(c2), ax(1, 2));
}
