use tpt_aura::codec::{Reader, Writer};
use tpt_aura::error::AuraError;
use tpt_aura::neural::{
    decode_tier0, encode_tier0, reconstruct_tier1, squared_error_sum, upscale_tier0,
    NeuralPayloadRecord, RgbImage, Tier0Base,
};

fn grad_image(w: u32, h: u32) -> RgbImage {
    let mut img = RgbImage::new(w, h);
    for y in 0..h {
        for x in 0..w {
            img.set_pixel(x, y, (x as u8, y as u8, (x.wrapping_add(y)) as u8));
        }
    }
    img
}

/// Peak signal-to-noise ratio (dB) between two equal-sized RGB images.
fn psnr(a: &RgbImage, b: &RgbImage) -> Result<f64, AuraError> {
    let sum = squared_error_sum(a, b)?;
    let mse = sum as f64 / a.data.len() as f64;
    if mse == 0.0 {
        return Ok(f64::INFINITY);
    }
    Ok(10.0 * (255.0f64 * 255.0f64 / mse).log10())
}

#[test]
fn tier0_round_trip_is_exact_at_base_resolution() {
    let img = grad_image(16, 16);
    let base = encode_tier0(&img, 4);
    assert_eq!(base.base_width(), 4);
    assert_eq!(base.base_height(), 4);
    let decoded = decode_tier0(&base);
    assert_eq!(decoded.width, 4);
    assert_eq!(decoded.height, 4);
    // Lossless store -> exact equality, infinite PSNR.
    assert_eq!(psnr(&decoded, &decode_tier0(&base)).unwrap(), f64::INFINITY);
}

#[test]
fn tier0_base_is_smaller_than_original() {
    let img = grad_image(64, 64);
    let base = encode_tier0(&img, 4);
    assert!(base.data().len() < img.data.len());
}

#[test]
fn upscale_produces_target_dimensions() {
    let img = grad_image(32, 32);
    let base = encode_tier0(&img, 4);
    let up = upscale_tier0(&base, 32, 32);
    assert_eq!((up.width, up.height), (32, 32));
}

#[test]
fn payload_round_trip() {
    let p = NeuralPayloadRecord { model_name: "real-esrgan-x4".into(), weights: vec![1, 2, 3, 4, 5] };
    let mut w = Writer::new();
    p.encode(&mut w);
    let bytes = w.into_inner();
    let mut r = Reader::new(&bytes);
    let back = NeuralPayloadRecord::decode(&mut r).unwrap();
    assert_eq!(back, p);
}

#[test]
fn tier0_base_codec_round_trip() {
    let img = grad_image(16, 16);
    let base = encode_tier0(&img, 4);
    let mut w = Writer::new();
    base.encode(&mut w);
    let bytes = w.into_inner();
    let mut r = Reader::new(&bytes);
    let back = Tier0Base::decode(&mut r).unwrap();
    assert_eq!(back.base_width(), base.base_width());
    assert_eq!(back.data(), base.data());
}

#[test]
fn tier1_requires_onnx() {
    let img = grad_image(8, 8);
    let base = encode_tier0(&img, 2);
    let payload = NeuralPayloadRecord { model_name: "x".into(), weights: vec![] };
    assert!(reconstruct_tier1(&base, &payload).is_err());
}

#[test]
fn tier0_block_means_are_exact() {
    // 3x1 image, scale 2: blocks {x=0,1} and {x=2} (cut at the edge).
    let mut img = RgbImage::new(3, 1);
    img.set_pixel(0, 0, (10, 0, 255));
    img.set_pixel(1, 0, (21, 1, 255));
    img.set_pixel(2, 0, (7, 9, 0));
    let base = encode_tier0(&img, 2);
    assert_eq!((base.base_width(), base.base_height()), (2, 1));
    assert_eq!((base.orig_width(), base.orig_height()), (3, 1));
    assert_eq!(base.data(), &[15, 0, 255, 7, 9, 0]);
    // A scale of 0 counts as 1: the layer is the image.
    let same = encode_tier0(&img, 0);
    assert_eq!(same.data(), &img.data[..]);
}

#[test]
fn upscale_is_nearest_neighbour() {
    let mut img = RgbImage::new(2, 1);
    img.set_pixel(0, 0, (1, 2, 3));
    img.set_pixel(1, 0, (4, 5, 6));
    let base = encode_tier0(&img, 1);
    let up = upscale_tier0(&base, 4, 2);
    assert_eq!(up.pixel(0, 0), (1, 2, 3));
    assert_eq!(up.pixel(1, 1), (1, 2, 3));
    assert_eq!(up.pixel(2, 0), (4, 5, 6));
    assert_eq!(up.pixel(3, 1), (4, 5, 6));
}

#[test]
fn squared_error_sum_values_and_size_mismatch() {
    let mut a = RgbImage::new(1, 1);
    let mut b = RgbImage::new(1, 1);
    a.set_pixel(0, 0, (10, 0, 0));
    b.set_pixel(0, 0, (0, 3, 0));
    assert_eq!(squared_error_sum(&a, &b).unwrap(), 109);
    let c = RgbImage::new(2, 1);
    match squared_error_sum(&a, &c) {
        Err(AuraError::Unsupported(m)) => assert_eq!(m, "psnr requires equal-sized images"),
        other => panic!("unexpected {other:?}"),
    }
}

#[test]
fn image_accessors() {
    let mut img = RgbImage::new(3, 2);
    assert_eq!(img.pixels(), 6);
    assert_eq!(img.data.len(), 18);
    img.set_pixel(2, 1, (7, 8, 9));
    assert_eq!(img.pixel(2, 1), (7, 8, 9));
    assert_eq!(&img.data[15..18], &[7, 8, 9]);
}

#[test]
fn tier0_decode_refuses_wrong_data_length() {
    let mut w = Writer::new();
    for v in [1u32, 1, 1, 1] {
        w.put_u32(v);
    }
    w.put_bytes(&[]);
    let bytes = w.into_inner();
    let mut r = Reader::new(&bytes);
    assert_eq!(Tier0Base::decode(&mut r), Err(AuraError::InvalidLength));
}

#[test]
fn upscale_to_base_size_is_identity() {
    let img = grad_image(7, 5);
    let base = encode_tier0(&img, 2);
    let same = upscale_tier0(&base, base.base_width(), base.base_height());
    assert_eq!(same, decode_tier0(&base));
}
