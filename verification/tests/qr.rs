use flamenco_tuner::qr::{draw, qr_image, QrFailure, MAX_INPUT, QUIET};

#[test]
fn code_is_drawn_with_a_quiet_zone() {
    let url = "https://192.168.1.7:7777";
    let image = qr_image(url).ok().unwrap();
    let code = qrcode::QrCode::new(url.as_bytes()).unwrap();
    let width = code.width();
    assert_eq!(image.side, width + 4);
    assert_eq!(image.dark.len(), image.side * image.side);
    let colors = code.to_colors();
    for y in 0..image.side {
        for x in 0..image.side {
            let inside = x >= QUIET && y >= QUIET && x < QUIET + width && y < QUIET + width;
            let dark = inside
                && colors[(y - QUIET) * width + (x - QUIET)] == qrcode::Color::Dark;
            assert_eq!(image.dark[y * image.side + x], dark);
        }
    }
    // The finder pattern's corner is dark, and not everything is.
    assert!(image.dark[QUIET * image.side + QUIET]);
    assert!(image.dark.iter().any(|d| !d));
}

#[test]
fn modules_are_placed_row_by_row() {
    let image = draw(2, &vec![true, false, false, true]);
    assert_eq!(image.side, 6);
    let dark: Vec<usize> = (0..36).filter(|&p| image.dark[p]).collect();
    assert_eq!(dark, vec![2 * 6 + 2, 3 * 6 + 3]);
}

#[test]
fn long_texts_have_no_code() {
    assert_eq!(qr_image(&"a".repeat(MAX_INPUT + 1)).err(), Some(QrFailure::TooLong));
    assert_eq!(qr_image(&"a".repeat(5000)).err(), Some(QrFailure::NotEncodable));
    assert!(qr_image("").is_ok());
}
