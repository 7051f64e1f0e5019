use sim_engines::fractal::{FractalImage, MAX_ITER, PALETTE_FIRE, PALETTE_OCEAN};

#[test]
fn new_image_defaults() {
    let img = FractalImage::new(4, 3);
    assert_eq!(img.buffer_len(), 48);
    assert!(img.buffer().iter().all(|&b| b == 0));
    assert_eq!(img.palette(), PALETTE_FIRE);
    assert_eq!(img.max_iter(), MAX_ITER);
    assert_eq!((img.width(), img.height()), (4, 3));
}

#[test]
fn settings_round_trip() {
    let mut img = FractalImage::new(2, 2);
    img.set_palette(PALETTE_OCEAN);
    img.set_max_iter(1000);
    assert_eq!(img.palette(), PALETTE_OCEAN);
    assert_eq!(img.max_iter(), 1000);
    img.reset_max_iter();
    assert_eq!(img.max_iter(), 256);
    assert_eq!(img.palette(), PALETTE_OCEAN);
}

#[test]
fn resize_keeps_leading_bytes() {
    let mut img = FractalImage::new(2, 1);
    img.put_escape_pixel(0, 0, 3, (1, 2, 3));
    img.resize(3, 2);
    assert_eq!(img.buffer_len(), 24);
    assert_eq!(&img.buffer()[0..4], &[1, 2, 3, 255]);
    assert!(img.buffer()[8..].iter().all(|&b| b == 0));
    img.resize(1, 1);
    assert_eq!(img.buffer(), &[1, 2, 3, 255]);
    img.resize(0, 5);
    assert_eq!(img.buffer_len(), 0);
}

#[test]
fn points_inside_the_set_are_black() {
    let mut img = FractalImage::new(2, 2);
    img.set_max_iter(50);
    img.put_escape_pixel(1, 1, 50, (9, 9, 9));
    img.put_escape_pixel(0, 1, 49, (9, 8, 7));
    assert_eq!(&img.buffer()[12..16], &[0, 0, 0, 255]);
    assert_eq!(&img.buffer()[8..12], &[9, 8, 7, 255]);
    assert_eq!(&img.buffer()[0..8], &[0; 8]);
}
