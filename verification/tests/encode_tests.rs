use mandelbrot::encode::{encode_image, png_dimensions, EncodeError};

#[test]
fn test_write_image_declares_dimensions() {
    let pixels: Vec<u8> = vec![0, 64, 128, 192, 255, 32];
    let bytes = encode_image(&pixels, 2, 3).unwrap();
    // The stream is a real PNG, not the input handed back.
    assert_eq!(png_dimensions(&bytes), Some((2, 3)));
    assert_ne!(bytes, pixels);
}

#[test]
fn test_write_image_round_trips_pixels() {
    let pixels: Vec<u8> = (0..20u8).map(|i| i * 12).collect();
    let bytes = encode_image(&pixels, 5, 4).unwrap();
    let decoded = image::load_from_memory(&bytes).unwrap();
    assert_eq!((decoded.width(), decoded.height()), (5, 4));
    assert_eq!(decoded.into_luma8().into_raw(), pixels);
}

#[test]
fn test_write_image_dimension_mismatch() {
    let pixels: Vec<u8> = vec![0; 5];
    assert_eq!(
        encode_image(&pixels, 2, 3),
        Err(EncodeError::DimensionMismatch)
    );
    assert_eq!(
        encode_image(&vec![], 1, 1),
        Err(EncodeError::DimensionMismatch)
    );
}

#[test]
fn test_png_dimensions_rejects_other_bytes() {
    assert_eq!(png_dimensions(&vec![]), None);
    assert_eq!(png_dimensions(&vec![1, 2, 3]), None);
    let mut not_png = vec![0u8; 30];
    not_png[0] = 137;
    assert_eq!(png_dimensions(&not_png), None);
}

#[test]
fn test_render_pipeline_repeats_identically() {
    // The full pipeline twice over: same escape results, same buffer, same
    // encoded stream, byte for byte.
    let escapes: Vec<Option<u32>> = (0..16u32)
        .map(|i| if i % 3 == 0 { None } else { Some(i) })
        .collect();
    let mut pixels_a = vec![0u8; 16];
    mandelbrot::render::render(&mut pixels_a, &escapes, 4, 4);
    let mut pixels_b = vec![0u8; 16];
    mandelbrot::render::render(&mut pixels_b, &escapes, 4, 4);
    let stream_a = encode_image(&pixels_a, 4, 4).unwrap();
    let stream_b = encode_image(&pixels_b, 4, 4).unwrap();
    assert_eq!(stream_a, stream_b);
}
