use raytracer::image::{ppm_header, push_body, Image, RenderColor, MAX_COLOR};

#[test]
fn can_display_color() {
    assert_eq!(RenderColor::new(0, 127, 255).to_line(), "0 127 255\n");
}

#[test]
fn channels_are_written_in_order() {
    assert_eq!(RenderColor { r: 1, g: 20, b: 3 }.to_line(), "1 20 3\n");
    assert_eq!(RenderColor { r: 0, g: 0, b: 0 }.to_line(), "0 0 0\n");
    assert_eq!(RenderColor { r: 255, g: 255, b: 255 }.to_line(), "255 255 255\n");
}

#[test]
fn push_line_appends() {
    let mut s = String::from("x");
    RenderColor::new(9, 8, 7).push_line(&mut s);
    assert_eq!(s, "x9 8 7\n");
}

#[test]
fn header_names_format_size_and_largest_value() {
    assert_eq!(MAX_COLOR, 255);
    assert_eq!(ppm_header(1000, 666), "P3\n1000 666\n255\n");
    assert_eq!(ppm_header(0, 0), "P3\n0 0\n255\n");
}

#[test]
fn body_is_one_line_per_pixel() {
    let pixels = vec![RenderColor::new(1, 2, 3), RenderColor::new(40, 50, 60)];
    let mut s = String::new();
    push_body(&mut s, &pixels);
    assert_eq!(s, "1 2 3\n40 50 60\n");
    let mut empty = String::from("kept");
    push_body(&mut empty, &vec![]);
    assert_eq!(empty, "kept");
}

#[test]
fn an_image_needs_width_times_height_pixels() {
    let p = RenderColor::new(0, 0, 0);
    assert!(Image::new(2, 3, vec![p; 6]).is_some());
    assert!(Image::new(2, 3, vec![p; 5]).is_none());
    assert!(Image::new(2, 3, vec![p; 7]).is_none());
    assert!(Image::new(0, 3, vec![]).is_some());
    assert!(Image::new(3, 0, vec![]).is_some());
    assert!(Image::new(0, 0, vec![p]).is_none());
    assert!(Image::new(u32::MAX, u32::MAX, vec![p]).is_none());
}

#[test]
fn pixels_are_found_by_row_and_column() {
    let pixels: Vec<RenderColor> = (0u8..6).map(|i| RenderColor::new(i, 10 + i, 20 + i)).collect();
    let image = Image::new(3, 2, pixels.clone()).unwrap();
    assert_eq!(image.width(), 3);
    assert_eq!(image.height(), 2);
    assert_eq!(image.pixels(), &pixels);
    assert_eq!(image.pixel(0, 0), Some(pixels[0]));
    assert_eq!(image.pixel(0, 2), Some(pixels[2]));
    assert_eq!(image.pixel(1, 0), Some(pixels[3]));
    assert_eq!(image.pixel(1, 2), Some(pixels[5]));
    assert_eq!(image.pixel(2, 0), None);
    assert_eq!(image.pixel(0, 3), None);
}

#[test]
fn the_image_text_is_header_then_rows_top_to_bottom() {
    let pixels = vec![
        RenderColor::new(255, 0, 0),
        RenderColor::new(0, 255, 0),
        RenderColor::new(0, 0, 255),
        RenderColor::new(12, 34, 56),
    ];
    let image = Image::new(2, 2, pixels).unwrap();
    assert_eq!(image.to_ppm(), "P3\n2 2\n255\n255 0 0\n0 255 0\n0 0 255\n12 34 56\n");
}

#[test]
fn the_image_text_has_one_line_per_pixel_after_the_header() {
    let image = Image::new(7, 5, vec![RenderColor::new(1, 2, 3); 35]).unwrap();
    let text = image.to_ppm();
    assert!(text.ends_with('\n'));
    let lines: Vec<&str> = text.lines().collect();
    assert_eq!(lines.len(), 3 + 7 * 5);
    assert_eq!(lines[0], "P3");
    assert_eq!(lines[1], "7 5");
    assert_eq!(lines[2], "255");
    for line in &lines[3..] {
        let parts: Vec<&str> = line.split(' ').collect();
        assert_eq!(parts.len(), 3);
        for part in parts {
            let value: u32 = part.parse().unwrap();
            assert!(value <= MAX_COLOR);
        }
    }
}

#[test]
fn an_empty_image_is_only_a_header() {
    let image = Image::new(0, 0, vec![]).unwrap();
    assert_eq!(image.to_ppm(), "P3\n0 0\n255\n");
}
