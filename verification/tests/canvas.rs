use ray_tracer::canvas::Canvas;
use ray_tracer::true_color::{clamp_channel, TrueColor};

#[test]
fn should_initalize_a_black_canvas() {
    let canvas = Canvas::new(3, 3);
    let is_all_black = canvas.pixels().iter().all(|x| x.is_black());
    assert_eq!(is_all_black, true);
}

#[test]
fn should_write_pixel_to_canvas() {
    let mut canvas = Canvas::new(10, 20);
    let red = TrueColor::new(255, 0, 0);
    canvas.set_pixel(2, 3, red);

    assert_eq!(canvas.get_pixel(2, 3), red);
}

#[test]
fn should_create_proper_ppm_header() {
    let canvas = Canvas::new(5, 3);

    let expected = "P3\n5 3\n255\n";
    let actual = canvas.to_ppm_header();

    assert_eq!(expected, actual);
}

#[test]
fn should_create_ppm_pixel_data() {
    let mut canvas = Canvas::new(5, 3);
    let color1 = TrueColor::from_scaled(382, 0, 0);
    let color2 = TrueColor::from_scaled(0, 127, 0);
    let color3 = TrueColor::from_scaled(-127, 0, 255);

    canvas.set_pixel(0, 0, color1);
    canvas.set_pixel(2, 1, color2);
    canvas.set_pixel(4, 2, color3);

    let expected = r"P3
5 3
255
255 0 0 0 0 0 0 0 0 0 0 0 0 0 0
0 0 0 0 0 0 0 127 0 0 0 0 0 0 0
0 0 0 0 0 0 0 0 0 0 0 0 0 0 255
";
    let actual = canvas.to_ppm();

    assert_eq!(expected, actual);
}

#[test]
fn should_split_long_lines() {
    let canvas = Canvas::with_color(10, 2, TrueColor::new(255, 204, 153));

    let expected = r"255 204 153 255 204 153 255 204 153 255 204 153 255 204 153 255 204
153 255 204 153 255 204 153 255 204 153 255 204 153
255 204 153 255 204 153 255 204 153 255 204 153 255 204 153 255 204
153 255 204 153 255 204 153 255 204 153 255 204 153
";
    let actual = canvas.to_ppm_body();

    assert_eq!(expected, actual);
}

#[test]
fn new_canvas_has_the_given_size() {
    let canvas = Canvas::new(900, 550);
    assert_eq!(canvas.width(), 900);
    assert_eq!(canvas.height(), 550);
    assert_eq!(canvas.pixels().len(), 900 * 550);
}

#[test]
fn with_color_fills_every_pixel() {
    let color = TrueColor::new(1, 2, 3);
    let canvas = Canvas::with_color(4, 2, color);
    for y in 0..2 {
        for x in 0..4 {
            assert_eq!(canvas.get_pixel(x, y), color);
        }
    }
}

#[test]
fn canvas_keeps_any_pixel_type() {
    let mut canvas = Canvas::with_color(3, 2, [0.0f64, 0.0, 0.0]);
    canvas.set_pixel(1, 1, [1.5, -0.5, 0.25]);
    assert_eq!(canvas.get_pixel(1, 1), [1.5, -0.5, 0.25]);
    assert_eq!(canvas.get_pixel(1, 0), [0.0, 0.0, 0.0]);
    assert_eq!(canvas.to_ppm_header(), "P3\n3 2\n255\n");
}

#[test]
fn pixels_are_stored_row_by_row() {
    let mut canvas = Canvas::new(3, 2);
    let color = TrueColor::new(9, 8, 7);
    canvas.set_pixel(2, 1, color);
    assert_eq!(canvas.pixels()[2 + 3 * 1], color);
    canvas.set_pixel(0, 1, color);
    assert_eq!(canvas.pixels()[3], color);
    let painted = canvas.pixels().iter().filter(|p| !p.is_black()).count();
    assert_eq!(painted, 2);
}

#[test]
fn set_pixel_outside_the_canvas_changes_nothing() {
    let mut canvas = Canvas::new(3, 2);
    let red = TrueColor::new(255, 0, 0);
    canvas.set_pixel(3, 0, red);
    canvas.set_pixel(0, 2, red);
    canvas.set_pixel(3, 2, red);
    canvas.set_pixel(usize::MAX, 1, red);
    canvas.set_pixel(1, usize::MAX, red);
    canvas.set_pixel(usize::MAX, usize::MAX, red);
    assert!(canvas.pixels().iter().all(|p| p.is_black()));
    assert_eq!(canvas.pixels().len(), 6);
}

#[test]
fn set_pixel_overwrites_an_earlier_color() {
    let mut canvas = Canvas::new(2, 2);
    canvas.set_pixel(1, 0, TrueColor::new(1, 1, 1));
    canvas.set_pixel(1, 0, TrueColor::new(2, 2, 2));
    assert_eq!(canvas.get_pixel(1, 0), TrueColor::new(2, 2, 2));
}

#[test]
fn clamp_channel_cuts_off_at_both_ends() {
    assert_eq!(clamp_channel(-1), 0);
    assert_eq!(clamp_channel(0), 0);
    assert_eq!(clamp_channel(1), 1);
    assert_eq!(clamp_channel(128), 128);
    assert_eq!(clamp_channel(254), 254);
    assert_eq!(clamp_channel(255), 255);
    assert_eq!(clamp_channel(256), 255);
    assert_eq!(clamp_channel(i64::MAX), 255);
    assert_eq!(clamp_channel(i64::MIN), 0);
}

#[test]
fn from_scaled_clamps_each_channel() {
    assert_eq!(TrueColor::from_scaled(300, -20, 128), TrueColor::new(255, 0, 128));
    assert_eq!(TrueColor::from_scaled(0, 255, 256), TrueColor::new(0, 255, 255));
}

#[test]
fn black_is_black_and_nothing_else_is() {
    assert!(TrueColor::black().is_black());
    assert_eq!(TrueColor::black(), TrueColor::new(0, 0, 0));
    assert!(!TrueColor::new(1, 0, 0).is_black());
    assert!(!TrueColor::new(0, 1, 0).is_black());
    assert!(!TrueColor::new(0, 0, 1).is_black());
}

#[test]
fn header_of_a_large_canvas() {
    let canvas = Canvas::new(900, 550);
    assert_eq!(canvas.to_ppm_header(), "P3\n900 550\n255\n");
}

#[test]
fn header_of_an_empty_canvas() {
    let canvas = Canvas::new(0, 0);
    assert_eq!(canvas.to_ppm_header(), "P3\n0 0\n255\n");
    assert_eq!(canvas.to_ppm_body(), "");
    assert_eq!(canvas.to_ppm(), "P3\n0 0\n255\n");
}

#[test]
fn canvas_without_columns_has_no_pixel_data() {
    let canvas = Canvas::new(0, 4);
    assert_eq!(canvas.to_ppm_body(), "");
    assert_eq!(canvas.to_ppm(), "P3\n0 4\n255\n");
    let canvas = Canvas::new(4, 0);
    assert_eq!(canvas.to_ppm_body(), "");
}

#[test]
fn every_row_starts_a_new_line() {
    let mut canvas = Canvas::new(1, 3);
    canvas.set_pixel(0, 1, TrueColor::new(10, 200, 7));
    assert_eq!(canvas.to_ppm_body(), "0 0 0\n10 200 7\n0 0 0\n");
}

#[test]
fn image_is_header_then_body() {
    let canvas = Canvas::with_color(2, 2, TrueColor::new(1, 22, 133));
    let image = canvas.to_ppm();
    assert_eq!(image, format!("{}{}", canvas.to_ppm_header(), canvas.to_ppm_body()));
    assert_eq!(image, "P3\n2 2\n255\n1 22 133 1 22 133\n1 22 133 1 22 133\n");
}

#[test]
fn line_is_filled_up_to_the_limit() {
    // 35 one-digit tokens with their separators come to exactly 70 characters.
    let canvas = Canvas::with_color(12, 1, TrueColor::new(0, 0, 0));
    let body = canvas.to_ppm_body();
    let lines: Vec<&str> = body.lines().collect();
    assert_eq!(lines.len(), 2);
    assert_eq!(lines[0].len(), 69);
    assert_eq!(lines[0], ["0"; 35].join(" "));
    assert_eq!(lines[1], "0");
}

#[test]
fn no_line_is_longer_than_the_limit() {
    let mut canvas = Canvas::new(40, 3);
    for y in 0..3 {
        for x in 0..40 {
            let v = (x * 7 + y * 13) as i64;
            canvas.set_pixel(x, y, TrueColor::from_scaled(v, v * 3, 255 - v));
        }
    }
    let body = canvas.to_ppm_body();
    assert!(body.ends_with('\n'));
    for line in body.lines() {
        assert!(line.len() + 1 <= 70);
        assert!(!line.is_empty());
        assert!(!line.starts_with(' '));
        assert!(!line.ends_with(' '));
        assert!(!line.contains("  "));
    }
    let numbers: Vec<u8> = body.split_whitespace().map(|t| t.parse().unwrap()).collect();
    let channels: Vec<u8> = canvas.pixels().iter().flat_map(|p| [p.r, p.g, p.b]).collect();
    assert_eq!(numbers, channels);
}

#[test]
fn wide_rows_wrap_again_and_again() {
    let canvas = Canvas::with_color(20, 1, TrueColor::new(255, 255, 255));
    let expected = [
        ["255"; 17].join(" "),
        ["255"; 17].join(" "),
        ["255"; 17].join(" "),
        ["255"; 9].join(" "),
    ]
    .join("\n")
        + "\n";
    assert_eq!(canvas.to_ppm_body(), expected);
}

#[test]
fn encoding_twice_gives_the_same_text() {
    let mut canvas = Canvas::new(7, 5);
    canvas.set_pixel(3, 2, TrueColor::new(12, 34, 56));
    let copy = {
        let mut other = Canvas::new(7, 5);
        other.set_pixel(3, 2, TrueColor::new(12, 34, 56));
        other
    };
    assert_eq!(canvas.to_ppm(), canvas.to_ppm());
    assert_eq!(canvas.to_ppm(), copy.to_ppm());
}

#[test]
fn different_canvases_have_different_images() {
    let base = Canvas::new(2, 2);
    let mut painted = Canvas::new(2, 2);
    painted.set_pixel(1, 1, TrueColor::new(0, 0, 1));
    assert_ne!(base.to_ppm(), painted.to_ppm());
    assert_ne!(Canvas::new(1, 4).to_ppm(), Canvas::new(4, 1).to_ppm());
    assert_ne!(Canvas::new(1, 4).to_ppm(), Canvas::new(2, 2).to_ppm());
    assert_ne!(
        Canvas::with_color(1, 1, TrueColor::new(1, 23, 4)).to_ppm(),
        Canvas::with_color(1, 1, TrueColor::new(12, 3, 4)).to_ppm()
    );
}

#[test]
fn new_canvas_is_black_everywhere() {
    let canvas = Canvas::new(5, 3);
    assert_eq!(canvas.width(), 5);
    assert_eq!(canvas.height(), 3);
    assert_eq!(canvas.pixels().len(), 15);
    for y in 0..3 {
        for x in 0..5 {
            assert_eq!(canvas.get_pixel(x, y), TrueColor::black());
            assert!(canvas.get_pixel(x, y).is_black());
        }
    }
    assert_eq!(canvas.to_ppm_header(), "P3\n5 3\n255\n");
}
