use libppm::{grayscale, invert, Pixel};

fn get_sample_pixel() -> Pixel {
    Pixel::new(8, 12, 16)
}

#[test]
fn it_works() {
    assert_eq!(2 + 2, 4);
}

#[test]
fn test_red() {
    assert_eq!(get_sample_pixel().red(), 8)
}

#[test]
fn test_green() {
    assert_eq!(get_sample_pixel().green(), 12)
}

#[test]
fn test_blue() {
    assert_eq!(get_sample_pixel().blue(), 16)
}

#[test]
fn test_display() {
    assert_eq!(get_sample_pixel().display(), "(r:8, g:12, b:16)")
}

#[test]
fn test_invert_pixel() {
    let sample_pix: Pixel = get_sample_pixel();
    let mut inverted_pix: Pixel = sample_pix.clone();
    inverted_pix.invert_pixel();
    assert_eq!(inverted_pix.red(), 255 - sample_pix.red());
    assert_eq!(inverted_pix.green(), 255 - sample_pix.green());
    assert_eq!(inverted_pix.blue(), 255 - sample_pix.blue());
}

#[test]
fn test_grayscale_pixel() {
    let sample_pix: Pixel = get_sample_pixel();
    let mut grayscaled_pix: Pixel = sample_pix.clone();
    grayscaled_pix.grayscale_pixel();
    assert_eq!(
        grayscaled_pix.red(),
        (sample_pix.red() / 3) + (sample_pix.green() / 3) + (sample_pix.blue() / 3)
    );
    assert_eq!(
        grayscaled_pix.green(),
        (sample_pix.red() / 3) + (sample_pix.green() / 3) + (sample_pix.blue() / 3)
    );
    assert_eq!(
        grayscaled_pix.blue(),
        (sample_pix.red() / 3) + (sample_pix.green() / 3) + (sample_pix.blue() / 3)
    );
}

#[test]
fn test_eq_pixel() {
    let pix_1: Pixel = get_sample_pixel();
    let pix_2: Pixel = get_sample_pixel();
    let mut pix_3: Pixel = get_sample_pixel().clone();
    pix_3.invert_pixel();

    assert_eq!(pix_1.eq(pix_2), true);
    assert_eq!(pix_1.eq(pix_3), false);
}

#[test]
fn test_partial_eq_pixel() {
    let pix_1: Pixel = get_sample_pixel();
    let pix_2: Pixel = get_sample_pixel();
    let mut pix_3: Pixel = get_sample_pixel().clone();
    pix_3.invert_pixel();

    assert_eq!(pix_1.partial_eq(pix_2), true);
    assert_eq!(pix_1.partial_eq(pix_3), false);
}

#[test]
fn invert_twice_gives_back_every_pixel() {
    for c in 0..=255u8 {
        let p = Pixel::new(c, 255 - c, c / 2);
        assert!(invert(invert(p)).eq(p));
    }
}

#[test]
fn invert_exact_values() {
    let p = invert(Pixel::new(0, 255, 100));
    assert_eq!((p.red(), p.green(), p.blue()), (255, 0, 155));
}

#[test]
fn grayscale_divides_each_channel_before_summing() {
    let g = grayscale(Pixel::new(8, 12, 16));
    assert_eq!((g.red(), g.green(), g.blue()), (11, 11, 11));
    // Summing first would give 12 here.
    let h = grayscale(Pixel::new(2, 2, 2));
    assert_eq!((h.red(), h.green(), h.blue()), (0, 0, 0));
    let w = grayscale(Pixel::new(255, 255, 255));
    assert_eq!((w.red(), w.green(), w.blue()), (255, 255, 255));
}

#[test]
fn grayscale_channels_agree_for_many_pixels() {
    for r in (0..=255u8).step_by(17) {
        for g in (0..=255u8).step_by(15) {
            let p = grayscale(Pixel::new(r, g, 200));
            let mean = r / 3 + g / 3 + 200 / 3;
            assert_eq!((p.red(), p.green(), p.blue()), (mean, mean, mean));
        }
    }
}

#[test]
fn full_equality_is_narrower_than_partial() {
    let a = Pixel::new(8, 12, 16);
    for b in [Pixel::new(9, 12, 16), Pixel::new(8, 13, 16), Pixel::new(8, 12, 17)] {
        assert!(!a.eq(b));
        assert!(a.partial_eq(b));
    }
    assert!(!a.partial_eq(Pixel::new(0, 0, 0)));
}

#[test]
fn display_extreme_channels() {
    assert_eq!(Pixel::new(0, 255, 100).display(), "(r:0, g:255, b:100)");
}

#[test]
fn parse_pixel_from_three_words() {
    assert_eq!(Pixel::parse(b"8 12 16"), Some(Pixel::new(8, 12, 16)));
    assert_eq!(Pixel::parse(b"\t0\n255  007 "), Some(Pixel::new(0, 255, 7)));
    assert_eq!(Pixel::parse(b"8 12"), None);
    assert_eq!(Pixel::parse(b"8 12 16 4"), None);
    assert_eq!(Pixel::parse(b"8 256 16"), None);
    assert_eq!(Pixel::parse(b"8 12 x"), None);
    assert_eq!(Pixel::parse(b""), None);
}
