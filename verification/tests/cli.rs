use tpt_aura::neural::{upscale_nearest, RgbImage};

#[test]
fn upscale_is_correct_size() {
    let img = RgbImage::new(2, 2);
    let up = upscale_nearest(&img, 8, 8);
    assert_eq!((up.width, up.height), (8, 8));
}

#[test]
fn upscale_nearest_copies_source_pixels() {
    let mut img = RgbImage::new(2, 2);
    img.set_pixel(1, 1, (9, 8, 7));
    let up = upscale_nearest(&img, 4, 4);
    assert_eq!(up.pixel(3, 3), (9, 8, 7));
    assert_eq!(up.pixel(2, 2), (9, 8, 7));
    assert_eq!(up.pixel(1, 1), (0, 0, 0));
}
