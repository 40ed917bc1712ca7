use zharko::renderers::ppm::{DIGIT_NINE, DIGIT_ZERO, LETTER_P, LINE_FEED, MAX_CHANNEL, PLAIN_PIXMAP, SPACE};
use zharko::renderers::{Color, Image, PPM};

fn text(image: &Image) -> String {
    String::from_utf8(PPM::new().encode(image)).unwrap()
}

#[test]
fn the_bytes_are_the_ascii_they_are_named_after() {
    assert_eq!(DIGIT_ZERO, b'0');
    assert_eq!(DIGIT_NINE, b'9');
    assert_eq!(LETTER_P, b'P');
    assert_eq!(SPACE, b' ');
    assert_eq!(LINE_FEED, b'\n');
    assert_eq!(PLAIN_PIXMAP, 3);
    assert_eq!(MAX_CHANNEL, 255);
}

#[test]
fn black_image_text() {
    let image = Image::new(2, 1);
    assert_eq!(text(&image), "P3\n2 1\n255\n0 0 0 0 0 0 \n");
}

#[test]
fn empty_image_is_only_a_header() {
    assert_eq!(text(&Image::new(0, 0)), "P3\n0 0\n255\n");
}

#[test]
fn rows_without_columns_are_empty_lines() {
    assert_eq!(text(&Image::new(0, 2)), "P3\n0 2\n255\n\n\n");
}

#[test]
fn columns_without_rows_leave_only_the_header() {
    assert_eq!(text(&Image::new(3, 0)), "P3\n3 0\n255\n");
}

#[test]
fn channels_are_written_in_decimal_in_rgb_order() {
    let mut image = Image::new(2, 2);
    image.set_pixel(0, 0, Color::new(255, 0, 7));
    image.set_pixel(1, 0, Color::new(10, 100, 99));
    image.set_pixel(0, 1, Color::new(1, 2, 3));
    image.set_pixel(1, 1, Color::new(200, 19, 0));
    assert_eq!(
        text(&image),
        "P3\n2 2\n255\n255 0 7 10 100 99 \n1 2 3 200 19 0 \n"
    );
}

#[test]
fn dimensions_of_several_digits() {
    let image = Image::new(120, 1);
    let mut expected = String::from("P3\n120 1\n255\n");
    for _ in 0..120 {
        expected.push_str("0 0 0 ");
    }
    expected.push('\n');
    assert_eq!(text(&image), expected);
}

#[test]
fn default_encoder_writes_the_same() {
    let mut image = Image::new(1, 1);
    image.set_pixel(0, 0, Color::new(12, 34, 56));
    assert_eq!(PPM::default().encode(&image), PPM::new().encode(&image));
    assert_eq!(PPM::default().encode(&image), b"P3\n1 1\n255\n12 34 56 \n".to_vec());
}

#[test]
fn every_channel_value_reads_back() {
    for v in 0..=255u8 {
        let mut image = Image::new(1, 1);
        image.set_pixel(0, 0, Color::new(v, v, v));
        let written = text(&image);
        let line = written.lines().nth(3).unwrap();
        let read: Vec<u8> = line.split_whitespace().map(|w| w.parse().unwrap()).collect();
        assert_eq!(read, vec![v, v, v]);
        assert_eq!(line, format!("{} {} {} ", v, v, v));
    }
}

#[test]
fn filled_image_text() {
    let mut image = Image::new(3, 3);
    image.fill_rect(0, 0, 2, 2, Color::new(9, 9, 9));
    assert_eq!(
        text(&image),
        "P3\n3 3\n255\n9 9 9 9 9 9 0 0 0 \n9 9 9 9 9 9 0 0 0 \n0 0 0 0 0 0 0 0 0 \n"
    );
}

#[test]
fn different_images_are_written_differently() {
    let encoder = PPM::new();
    // Twelve and three against one and twenty-three: the space tells them apart.
    let mut a = Image::new(1, 1);
    a.set_pixel(0, 0, Color::new(12, 3, 0));
    let mut b = Image::new(1, 1);
    b.set_pixel(0, 0, Color::new(1, 23, 0));
    assert_ne!(encoder.encode(&a), encoder.encode(&b));
    // The same six pixels in two shapes.
    assert_ne!(encoder.encode(&Image::new(2, 3)), encoder.encode(&Image::new(3, 2)));
    assert_ne!(encoder.encode(&Image::new(1, 6)), encoder.encode(&Image::new(6, 1)));
    // No pixels at all, in two shapes.
    assert_ne!(encoder.encode(&Image::new(0, 1)), encoder.encode(&Image::new(1, 0)));
    // One pixel moved.
    let mut c = Image::new(2, 2);
    c.set_pixel(1, 0, Color::new(9, 9, 9));
    let mut d = Image::new(2, 2);
    d.set_pixel(0, 1, Color::new(9, 9, 9));
    assert_ne!(encoder.encode(&c), encoder.encode(&d));
}

#[test]
fn equal_images_are_written_the_same() {
    let mut a = Image::new(2, 2);
    a.set_pixel(1, 1, Color::new(3, 2, 1));
    let b = a.clone();
    assert_eq!(PPM::new().encode(&a), PPM::new().encode(&b));
}
