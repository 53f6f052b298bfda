use ray_tracing_weekend::ppm::PPM;

fn text(ppm: &PPM) -> String {
    String::from_utf8(ppm.encode()).unwrap()
}

#[test]
fn ppm_new_is_black() {
    let ppm = PPM::new(3, 2, 255);
    assert_eq!(ppm.columns(), 3);
    assert_eq!(ppm.rows(), 2);
    assert_eq!(ppm.max_color(), 255);
    for y in 0..2 {
        for x in 0..3 {
            assert_eq!(ppm.pixel(x, y), (0, 0, 0));
        }
    }
}

#[test]
fn ppm_encodes_header_and_pixels() {
    let mut ppm = PPM::new(2, 2, 255);
    ppm.set_pixel(1, 0, (255, 10, 7));
    ppm.set_pixel(0, 1, (128, 0, 99));
    assert_eq!(text(&ppm), "P3\n2 2\n255\n0 0 0\n255 10 7\n128 0 99\n0 0 0\n");
}

#[test]
fn ppm_set_pixel_is_row_major() {
    let mut ppm = PPM::new(4, 3, 255);
    ppm.set_pixel(3, 1, (1, 2, 3));
    assert_eq!(ppm.pixel(3, 1), (1, 2, 3));
    assert_eq!(ppm.pixel(1, 1), (0, 0, 0));
    let t = text(&ppm);
    let lines: Vec<&str> = t.lines().collect();
    // Three header lines, then pixel (3, 1) is the eighth pixel.
    assert_eq!(lines.len(), 3 + 12);
    assert_eq!(lines[3 + 7], "1 2 3");
}

#[test]
fn ppm_empty_image_is_header_only() {
    let ppm = PPM::new(0, 0, 255);
    assert_eq!(text(&ppm), "P3\n0 0\n255\n");
}

#[test]
fn ppm_pixel_count_matches_dimensions() {
    let ppm = PPM::new(16, 9, 255);
    let t = text(&ppm);
    let mut words = t.split_whitespace();
    assert_eq!(words.next(), Some("P3"));
    assert_eq!(words.next(), Some("16"));
    assert_eq!(words.next(), Some("9"));
    assert_eq!(words.next(), Some("255"));
    let values: Vec<u32> = words.map(|w| w.parse().unwrap()).collect();
    assert_eq!(values.len(), 16 * 9 * 3);
    assert!(values.iter().all(|&v| v <= 255));
}

#[test]
fn ppm_large_dimensions_in_decimal() {
    let ppm = PPM::new(1, 1, 4_000_000_000);
    assert_eq!(text(&ppm), "P3\n1 1\n4000000000\n0 0 0\n");
}

#[test]
fn ppm_from_fn_fills_row_by_row() {
    let calls = std::cell::RefCell::new(Vec::new());
    let pixel = |x: u32, y: u32| {
        calls.borrow_mut().push((x, y));
        (x as u8, y as u8, 7)
    };
    let ppm = PPM::from_fn(3, 2, 255, &pixel);
    assert_eq!(ppm.columns(), 3);
    assert_eq!(ppm.rows(), 2);
    for y in 0..2 {
        for x in 0..3 {
            assert_eq!(ppm.pixel(x, y), (x as u8, y as u8, 7));
        }
    }
    assert_eq!(*calls.borrow(), vec![(0, 0), (1, 0), (2, 0), (0, 1), (1, 1), (2, 1)]);
    assert_eq!(text(&ppm), "P3\n3 2\n255\n0 0 7\n1 0 7\n2 0 7\n0 1 7\n1 1 7\n2 1 7\n");
}

#[test]
fn ppm_from_fn_empty_rows() {
    let pixel = |_x: u32, _y: u32| -> (u8, u8, u8) { panic!("no pixel to compute") };
    let ppm = PPM::from_fn(0, 5, 255, &pixel);
    assert_eq!(text(&ppm), "P3\n0 5\n255\n");
}
