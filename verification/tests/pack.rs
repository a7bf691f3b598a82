use tiny_packer::buffer::{Pixel, PixelBuffer};
use tiny_packer::pack::{pack_images, pack_images_auto_size, pack_images_auto_size_unified};

const ZERO: Pixel = Pixel {
    r: 0,
    g: 0,
    b: 0,
    a: 0,
};
const RED: Pixel = Pixel {
    r: 255,
    g: 0,
    b: 0,
    a: 255,
};
const GREEN: Pixel = Pixel {
    r: 0,
    g: 255,
    b: 0,
    a: 255,
};
const BLUE: Pixel = Pixel {
    r: 0,
    g: 0,
    b: 255,
    a: 255,
};

fn solid(width: u32, height: u32, colour: Pixel) -> PixelBuffer {
    PixelBuffer {
        width,
        height,
        pixels: vec![colour; (width * height) as usize],
    }
}

fn pixel(out: &PixelBuffer, x: u32, y: u32) -> Pixel {
    out.pixels[(y * out.width + x) as usize]
}

#[test]
fn test_pack_images() {
    let images = vec![solid(4, 4, RED), solid(4, 4, GREEN)];
    let out = pack_images(&images, 10, 10, 0);
    assert_eq!((out.width, out.height), (10, 10));
    assert_eq!(out.pixels.len(), 100);
}

#[test]
fn test_pack_images_content() {
    let images = vec![solid(5, 5, RED), solid(5, 5, GREEN)];
    let out = pack_images(&images, 10, 10, 0);
    assert_eq!(pixel(&out, 0, 0), RED);
    assert_eq!(pixel(&out, 4, 4), RED);
    assert_eq!(pixel(&out, 5, 0), GREEN);
    assert_eq!(pixel(&out, 9, 4), GREEN);
    assert_eq!(pixel(&out, 0, 5), ZERO);
    assert_eq!(pixel(&out, 9, 9), ZERO);
}

#[test]
fn test_pack_images_dims_regardless_of_fit() {
    // the second image cannot be placed, but the canvas keeps its size
    let images = vec![solid(8, 8, RED), solid(8, 8, GREEN)];
    let out = pack_images(&images, 10, 10, 0);
    assert_eq!((out.width, out.height), (10, 10));
    assert_eq!(pixel(&out, 0, 0), RED);
    for p in &out.pixels {
        assert_ne!(*p, GREEN);
    }
}

#[test]
fn test_pack_deterministic() {
    let images = vec![solid(3, 2, RED), solid(5, 5, GREEN), solid(2, 7, BLUE)];
    let once = pack_images(&images, 11, 9, 1);
    let again = pack_images(&images, 11, 9, 1);
    assert_eq!((once.width, once.height), (again.width, again.height));
    assert_eq!(once.pixels, again.pixels);
}

#[test]
fn test_pack_zero_sources() {
    let images: Vec<PixelBuffer> = Vec::new();

    let fixed = pack_images(&images, 7, 5, 2);
    assert_eq!((fixed.width, fixed.height), (7, 5));
    for p in &fixed.pixels {
        assert_eq!(*p, ZERO);
    }

    let auto = pack_images_auto_size(&images, 3);
    assert_eq!((auto.width, auto.height), (0, 0));
    assert_eq!(auto.pixels.len(), 0);

    let unified = pack_images_auto_size_unified(&images, 2);
    assert_eq!((unified.width, unified.height), (4, 4));
    for p in &unified.pixels {
        assert_eq!(*p, ZERO);
    }
}

#[test]
fn test_pack_auto_size() {
    // three 2x2 images with padding 1: cells are 4x4, ceil(sqrt(3)) == 2,
    // so the canvas is 8x8 and never smaller than 2 * (2 + 2*1) per axis
    let images = vec![solid(2, 2, RED), solid(2, 2, GREEN), solid(2, 2, BLUE)];
    let out = pack_images_auto_size(&images, 1);
    assert_eq!((out.width, out.height), (8, 8));
    assert_eq!(pixel(&out, 1, 1), RED);
    assert_eq!(pixel(&out, 4, 1), GREEN);
    assert_eq!(pixel(&out, 1, 4), BLUE);
    assert_eq!(pixel(&out, 0, 0), ZERO);
}

#[test]
fn test_pack_auto_size_formula() {
    // five 2x2 images with zero padding: ceil(sqrt(5)) == 3, cell 2x2
    let images = vec![
        solid(2, 2, RED),
        solid(2, 2, GREEN),
        solid(2, 2, BLUE),
        solid(2, 2, RED),
        solid(2, 2, GREEN),
    ];
    let out = pack_images_auto_size(&images, 0);
    assert_eq!((out.width, out.height), (6, 6));
}

#[test]
fn test_pack_auto_size_unified() {
    // cells are 2x2 (the largest image per axis); the canvas scales both
    // axes by the image count: 2 * 2 + 0 = 4 per axis
    let images = vec![solid(2, 1, RED), solid(1, 2, GREEN)];
    let out = pack_images_auto_size_unified(&images, 0);
    assert_eq!((out.width, out.height), (4, 4));
    assert_eq!(pixel(&out, 0, 0), RED);
    assert_eq!(pixel(&out, 1, 0), RED);
    assert_eq!(pixel(&out, 0, 1), ZERO);
    assert_eq!(pixel(&out, 2, 0), GREEN);
    assert_eq!(pixel(&out, 2, 1), GREEN);
    assert_eq!(pixel(&out, 3, 0), ZERO);
}

#[test]
fn test_pack_unified_deterministic() {
    let images = vec![solid(3, 1, RED), solid(1, 3, GREEN), solid(2, 2, BLUE)];
    let once = pack_images_auto_size_unified(&images, 1);
    let again = pack_images_auto_size_unified(&images, 1);
    assert_eq!((once.width, once.height), (again.width, again.height));
    assert_eq!(once.pixels, again.pixels);
}
