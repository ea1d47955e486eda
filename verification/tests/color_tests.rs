use image::{DynamicImage, Rgba, RgbaImage};
use mediaviz::color_extractor::{ColorExtractor, RGB};

/// An 80x80 image with four solid quadrant colors.
fn quadrant_image() -> DynamicImage {
    let img = RgbaImage::from_fn(80, 80, |x, y| {
        let c = match (x < 40, y < 40) {
            (true, true) => [200u8, 0, 0, 255],
            (false, true) => [0, 200, 0, 255],
            (true, false) => [0, 0, 200, 255],
            (false, false) => [200, 200, 0, 255],
        };
        Rgba(c)
    });
    DynamicImage::ImageRgba8(img)
}

#[test]
fn palette_of_quadrant_image() {
    let p = ColorExtractor::extract_palette(&quadrant_image()).unwrap();
    // a solid 200 channel averages to 784 per mille; light desaturation
    // pulls the zero channels up to 79, darkening by 650 gives 509 and 51
    assert_eq!(p.top_left, RGB { r: 509, g: 51, b: 51 });
    assert_eq!(p.top_right, RGB { r: 51, g: 509, b: 51 });
    assert_eq!(p.bottom_left, RGB { r: 51, g: 51, b: 509 });
    assert_eq!(p.bottom_right, RGB { r: 509, g: 509, b: 51 });
}

#[test]
fn palette_is_pure() {
    let img = quadrant_image();
    let a = ColorExtractor::extract_palette(&img).unwrap();
    let b = ColorExtractor::extract_palette(&img).unwrap();
    assert_eq!(a, b);
}

#[test]
fn dominant_color_of_uniform_midtone_image() {
    let img = DynamicImage::ImageRgba8(RgbaImage::from_pixel(60, 60, Rgba([100, 100, 100, 255])));
    let c = ColorExtractor::extract_dominant_color(&img);
    // 100/255 is 392 per mille; a gray is unchanged by desaturation and
    // darkening by 300 gives 117
    assert_eq!(c, RGB { r: 117, g: 117, b: 117 });
}

#[test]
fn dominant_color_defaults_when_all_pixels_are_dark() {
    let img = DynamicImage::ImageRgba8(RgbaImage::from_pixel(60, 60, Rgba([10, 10, 10, 255])));
    let c = ColorExtractor::extract_dominant_color(&img);
    assert_eq!(c, RGB { r: 400, g: 300, b: 350 });
}

#[test]
fn dominant_color_defaults_when_all_pixels_are_light() {
    let img = DynamicImage::ImageRgba8(RgbaImage::from_pixel(60, 60, Rgba([250, 250, 250, 255])));
    let c = ColorExtractor::extract_dominant_color(&img);
    assert_eq!(c, RGB { r: 400, g: 300, b: 350 });
}

#[test]
fn darken_scales_channels() {
    let c = RGB::new(1000, 500, 0).darken(650);
    assert_eq!(c, RGB { r: 650, g: 325, b: 0 });
}

#[test]
fn desaturate_moves_channels_toward_value() {
    // full desaturation grays the color out at its value channel
    let c = RGB::new(800, 200, 400).desaturate(1000);
    assert_eq!(c, RGB { r: 800, g: 800, b: 800 });
    // no desaturation leaves it unchanged
    let d = RGB::new(800, 200, 400).desaturate(0);
    assert_eq!(d, RGB { r: 800, g: 200, b: 400 });
}

#[test]
fn css_text() {
    let c = RGB::new(1000, 0, 392);
    assert_eq!(String::from_utf8(c.to_css()).unwrap(), "rgb(255, 0, 99)");
}
