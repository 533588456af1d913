use bson_repair::text::{is_valid_text, lossy, repair, text_bytes};

#[test]
fn repair_widens_each_byte_to_one_code_point() {
    let text = repair(&[0xC1, 0xEE]);
    assert_eq!(text, "Áî");
    assert_eq!(text, String::from_utf16(&[0x00C1, 0x00EE]).unwrap());
}

#[test]
fn repair_recovers_units_with_zero_high_bits() {
    let units: Vec<u16> = vec![0x0041, 0x00E9, 0x00FF, 0x0000, 0x007F, 0x0080];
    let low: Vec<u8> = units.iter().map(|u| (u % 256) as u8).collect();
    let text = repair(&low);
    assert_eq!(text, String::from_utf16(&units).unwrap());
    assert_eq!(text.chars().count(), units.len());
}

#[test]
fn repair_of_low_bytes_of_wider_units_gives_the_low_code_points() {
    let units: Vec<u16> = vec![0x0410, 0x0411];
    let low: Vec<u8> = units.iter().map(|u| (u % 256) as u8).collect();
    assert_eq!(low, vec![0x10, 0x11]);
    assert_eq!(repair(&low), "\u{10}\u{11}");
}

#[test]
fn repair_of_nothing_is_empty() {
    assert_eq!(repair(&[]), "");
}

#[test]
fn repair_is_not_the_lenient_reading() {
    let raw = [0x04, 0x10, 0x04, 0x11, 0xC1];
    assert_eq!(repair(&raw), "\u{4}\u{10}\u{4}\u{11}\u{C1}");
    assert_eq!(lossy(&raw), "\u{4}\u{10}\u{4}\u{11}\u{FFFD}");
}

#[test]
fn valid_text_is_recognised() {
    assert!(is_valid_text(b""));
    assert!(is_valid_text(b"plain"));
    assert!(is_valid_text("Áî".as_bytes()));
    assert!(is_valid_text(&[0x04, 0x10, 0x04, 0x11]));
    assert!(is_valid_text(&[0xF0, 0x9F, 0x98, 0x80]));
}

#[test]
fn invalid_text_is_recognised() {
    assert!(!is_valid_text(&[0xC1, 0xEE]));
    assert!(!is_valid_text(&[0x80]));
    assert!(!is_valid_text(&[0xE2, 0x82]));
    assert!(!is_valid_text(&[0xED, 0xA0, 0x80]));
    assert!(!is_valid_text(&[0xC0, 0x80]));
}

#[test]
fn lossy_keeps_valid_text() {
    assert_eq!(lossy("Áî and more".as_bytes()), "Áî and more");
    assert_eq!(lossy(b""), "");
}

#[test]
fn lossy_replaces_what_is_invalid() {
    assert_eq!(lossy(&[0xC1, 0xEE]), "\u{FFFD}\u{FFFD}");
    assert_eq!(lossy(&[b'a', 0x80, b'b']), "a\u{FFFD}b");
}

#[test]
fn text_bytes_are_the_encoding() {
    assert_eq!(text_bytes(&String::from("Áî")), vec![0xC3, 0x81, 0xC3, 0xAE]);
    assert_eq!(text_bytes(&String::new()), Vec::<u8>::new());
    assert_eq!(text_bytes(&repair(&[0xC1, 0xEE])), vec![0xC3, 0x81, 0xC3, 0xAE]);
}

#[test]
fn emitted_text_is_valid_either_way() {
    let raws: Vec<Vec<u8>> = vec![vec![0xC1, 0xEE], vec![0xFF], vec![0x80, 0x41, 0xBF], vec![0xE2, 0x82]];
    for raw in raws {
        assert!(!is_valid_text(&raw));
        assert!(is_valid_text(&text_bytes(&repair(&raw))));
        assert!(is_valid_text(&text_bytes(&lossy(&raw))));
    }
}
