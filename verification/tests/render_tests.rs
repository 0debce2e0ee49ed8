use mandelbrot::render::{intensity, render, render_band, render_in_bands};

#[test]
fn test_intensity_mapping() {
    assert_eq!(intensity(None), 0);
    assert_eq!(intensity(Some(0)), 255);
    assert_eq!(intensity(Some(1)), 254);
    assert_eq!(intensity(Some(200)), 55);
    assert_eq!(intensity(Some(254)), 1);
    assert_eq!(intensity(Some(255)), 0);
    assert_eq!(intensity(Some(1000)), 0);
}

#[test]
fn test_render_single_bounded_pixel() {
    // A 1-by-1 raster whose only point never escapes renders one black byte.
    let escapes = vec![None];
    let mut pixels = vec![7u8];
    render(&mut pixels, &escapes, 1, 1);
    assert_eq!(pixels, vec![0u8]);
}

#[test]
fn test_render_row_major_order() {
    let escapes = vec![Some(0), None, Some(200), Some(255), Some(1), None];
    let mut pixels = vec![0u8; 6];
    render(&mut pixels, &escapes, 3, 2);
    assert_eq!(pixels, vec![255, 0, 55, 0, 254, 0]);
}

#[test]
fn test_render_deterministic() {
    let escapes: Vec<Option<u32>> = (0..24u32)
        .map(|i| if i % 5 == 0 { None } else { Some(i * 13) })
        .collect();
    let mut first = vec![0u8; 24];
    render(&mut first, &escapes, 6, 4);
    let mut second = vec![9u8; 24];
    render(&mut second, &escapes, 6, 4);
    assert_eq!(first, second);
}

#[test]
fn test_render_bands_match_sequential() {
    let escapes: Vec<Option<u32>> = (0..35u32)
        .map(|i| if i % 7 == 3 { None } else { Some(i * 11) })
        .collect();
    let mut sequential = vec![0u8; 35];
    render(&mut sequential, &escapes, 5, 7);
    // Bands of two rows (the last band is a single row).
    let banded = render_in_bands(&escapes, 5, 7, 2);
    assert_eq!(sequential, banded);
    // One band per row as well.
    let rowwise = render_in_bands(&escapes, 5, 7, 1);
    assert_eq!(sequential, rowwise);
}

#[test]
fn test_render_band_is_slice_of_whole() {
    let escapes: Vec<Option<u32>> = (0..12u32).map(|i| Some(i)).collect();
    let mut whole = vec![0u8; 12];
    render(&mut whole, &escapes, 4, 3);
    let band = render_band(&escapes, 4, 1, 3);
    assert_eq!(band.as_slice(), &whole[4..12]);
}
