use rst_raytrace::checker::checker_is_even;
use rst_raytrace::sampling::samples_per_side;
use rst_raytrace::{PPMImage, SpherePDF};

#[test]
fn ppm_header_holds_size() {
    let image = PPMImage::new(400, 225);
    assert_eq!(image.bytes().as_slice(), b"P6\n400 225\n255\n");
    let image = PPMImage::new(0, 7);
    assert_eq!(image.bytes().as_slice(), b"P6\n0 7\n255\n");
    let image = PPMImage::new(u32::MAX, 10);
    assert_eq!(image.bytes().as_slice(), b"P6\n4294967295 10\n255\n");
}

#[test]
fn ppm_pixels_follow_header() {
    let mut image = PPMImage::new(2, 1);
    assert!(image.write_color(255, 0, 10).is_ok());
    assert!(image.write_color(1, 2, 3).is_ok());
    let mut expected = b"P6\n2 1\n255\n".to_vec();
    expected.extend_from_slice(&[255, 0, 10, 1, 2, 3]);
    assert_eq!(image.bytes(), &expected);
}

#[test]
fn stratified_grid_side() {
    assert_eq!(samples_per_side(0), 0);
    assert_eq!(samples_per_side(1), 1);
    assert_eq!(samples_per_side(3), 1);
    assert_eq!(samples_per_side(4), 2);
    assert_eq!(samples_per_side(20), 4);
    assert_eq!(samples_per_side(30), 5);
    assert_eq!(samples_per_side(100), 10);
    assert_eq!(samples_per_side(u32::MAX), 65535);
    for s in 0..2000u32 {
        let n = samples_per_side(s);
        assert!(n * n <= s && s < (n + 1) * (n + 1));
    }
}

#[test]
fn sphere_pdf_has_no_state() {
    assert_eq!(SpherePDF::new(), SpherePDF {});
}

#[test]
fn checker_parity_of_cubes() {
    assert!(checker_is_even(0, 0, 0));
    assert!(!checker_is_even(1, 0, 0));
    assert!(checker_is_even(1, 1, 0));
    assert!(!checker_is_even(-1, 0, 0));
    assert!(checker_is_even(-1, -1, 0));
    assert!(!checker_is_even(-3, 2, 0));
    assert!(checker_is_even(i32::MAX, i32::MAX, 0));
    assert!(!checker_is_even(i32::MIN, i32::MAX, 0));
}
