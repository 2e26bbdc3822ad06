use libppm::{Image, Pixel};

fn get_sample_pixel() -> Pixel {
    Pixel::new(8, 12, 16)
}

fn get_sample_image() -> Image {
    Image::new(
        vec![
            get_sample_pixel(),
            get_sample_pixel(),
            get_sample_pixel(),
            get_sample_pixel(),
            get_sample_pixel(),
            get_sample_pixel(),
        ],
        3,
        2,
    )
}

#[test]
fn test_vector() {
    assert_eq!(
        get_sample_image().vector(),
        vec![
            get_sample_pixel(),
            get_sample_pixel(),
            get_sample_pixel(),
            get_sample_pixel(),
            get_sample_pixel(),
            get_sample_pixel()
        ]
    )
}

#[test]
fn test_width() {
    assert_eq!(get_sample_image().width, 3)
}

#[test]
fn test_height() {
    assert_eq!(get_sample_image().height, 2)
}

#[test]
fn test_eq_image() {
    let img1: Image = get_sample_image();
    let img2: Image = Image::new(vec![get_sample_pixel()], 3, 4);
    let img3: Image = get_sample_image();
    let img4: Image = Image::new(vec![Pixel::new(5, 12, 16)], 12, 16);
    assert_eq!(img1.clone().eq(img3), true);
    assert_eq!(img1.clone().eq(img2), false);
    assert_eq!(img1.clone().eq(img4), false);
}

#[test]
fn test_invert_image() {
    let sample_img: Image = get_sample_image();
    let mut inverted_img: Image = sample_img.clone();
    inverted_img.invert_image();
    let mut j = 0;
    loop {
        if j == sample_img.vector.len() {
            break;
        };
        assert_eq!(
            inverted_img.vector[j].red(),
            255 - sample_img.vector[j].red()
        );
        assert_eq!(
            inverted_img.vector[j].green(),
            255 - sample_img.vector[j].green()
        );
        assert_eq!(
            inverted_img.vector[j].blue(),
            255 - sample_img.vector[j].blue()
        );
        j += 1;
    }
}

#[test]
fn test_grayscale_image() {
    let sample_img: Image = get_sample_image();
    let mut graycaled_img: Image = sample_img.clone();
    graycaled_img.grayscale_image();
    let mut j = 0;
    let mut graycaled_val;
    loop {
        if j >= sample_img.vector.len() {
            break;
        };
        graycaled_val = sample_img.vector[j].red() / 3
            + sample_img.vector[j].green() / 3
            + sample_img.vector[j].blue() / 3;
        assert_eq!(graycaled_img.vector[j].red(), graycaled_val);
        assert_eq!(graycaled_img.vector[j].green(), graycaled_val);
        assert_eq!(graycaled_img.vector[j].blue(), graycaled_val);
        j += 1;
    }
}

fn varied_image() -> Image {
    Image::new(
        vec![
            Pixel::new(0, 0, 0),
            Pixel::new(255, 255, 255),
            Pixel::new(1, 128, 254),
            Pixel::new(8, 12, 16),
        ],
        2,
        2,
    )
}

#[test]
fn image_invert_twice_is_equal() {
    let img = varied_image();
    assert!(img.invert().invert().eq(img.clone()));
    let mut in_place = img.clone();
    in_place.invert_image();
    assert!(!in_place.clone().eq(img.clone()));
    in_place.invert_image();
    assert!(in_place.eq(img));
}

#[test]
fn pure_transforms_match_in_place_ones() {
    let img = varied_image();
    let mut inv = img.clone();
    inv.invert_image();
    assert!(img.invert().eq(inv));
    let mut gray = img.clone();
    gray.grayscale_image();
    assert!(img.grayscale().eq(gray));
    let g = img.grayscale();
    assert_eq!(g.vector[2], Pixel::new(126, 126, 126));
    assert_eq!(g.vector[1], Pixel::new(255, 255, 255));
    assert_eq!(img.invert().vector[2], Pixel::new(254, 127, 1));
}

#[test]
fn transforms_keep_size() {
    let img = varied_image();
    let inv = img.invert();
    assert_eq!((inv.width, inv.height, inv.vector.len()), (2, 2, 4));
    let gray = img.grayscale();
    assert_eq!((gray.clone().width(), gray.clone().height(), gray.vector().len()), (2, 2, 4));
}

#[test]
fn image_equality_checks_each_part() {
    let img = varied_image();
    let mut other_pixel = img.clone();
    other_pixel.vector[3] = Pixel::new(8, 12, 17);
    assert!(!img.clone().eq(other_pixel));
    assert!(!img.clone().eq(Image::new(img.vector.clone(), 4, 1)));
    assert!(!img.clone().eq(Image::new(img.vector.clone(), 2, 3)));
    assert!(Image::new(vec![], 0, 0).eq(Image::new(vec![], 0, 0)));
}
