use luarunny::Pattern;

#[test]
fn mem_pattern_new() {
    let p = Pattern::new("01 23 45 67 89 AB CD EF ?").unwrap();

    assert_eq!(p.0[0], Some(0x01));
    assert_eq!(p.0[1], Some(0x23));
    assert_eq!(p.0[7], Some(0xEF));
    assert_eq!(p.0[8], None);
}

#[test]
fn mem_pattern_from_str() {
    let p = Pattern::from_str("Hello, world!").unwrap();

    assert_eq!(p.0[0], Some(b'H'));
    assert_eq!(p.0[1], Some(b'e'));
    assert_eq!(p.0[2], Some(b'l'));
    assert_eq!(p.0[12], Some(b'!'));
}

#[test]
fn mem_pattern_try_into() {
    let p: Pattern = "Hello, world!".try_into().unwrap();

    assert_eq!(p.0[0], Some(b'H'));
    assert_eq!(p.0[1], Some(b'e'));
    assert_eq!(p.0[2], Some(b'l'));
    assert_eq!(p.0[12], Some(b'!'));
}

#[test]
fn mem_pattern_try_from() {
    let p = Pattern::try_from("Hello, world!").unwrap();

    assert_eq!(p.0[0], Some(b'H'));
    assert_eq!(p.0[1], Some(b'e'));
    assert_eq!(p.0[2], Some(b'l'));
    assert_eq!(p.0[12], Some(b'!'));
}

#[test]
fn pattern_new_empty_text() {
    let p = Pattern::new("").unwrap();
    assert_eq!(p.0.len(), 0);

    let p = Pattern::new("  \t \n ").unwrap();
    assert_eq!(p.0.len(), 0);
}

#[test]
fn pattern_new_wildcard_forms() {
    let p = Pattern::new("? ?? 00").unwrap();
    assert_eq!(p.0, vec![None, None, Some(0)]);
}

#[test]
fn pattern_new_hex_case_insensitive() {
    let p = Pattern::new("aB Cd ff 0E").unwrap();
    assert_eq!(p.0, vec![Some(0xAB), Some(0xCD), Some(0xFF), Some(0x0E)]);
}

#[test]
fn pattern_new_one_digit_token_rejected() {
    let e = Pattern::new("01 2 03").unwrap_err();
    assert_eq!(e.token, b"2".to_vec());
}

#[test]
fn pattern_new_names_first_bad_token() {
    let e = Pattern::new("zz 01 qq").unwrap_err();
    assert_eq!(e.token, b"zz".to_vec());

    let e = Pattern::new("01 ??? 02").unwrap_err();
    assert_eq!(e.token, b"???".to_vec());

    let e = Pattern::new("0x1 00").unwrap_err();
    assert_eq!(e.token, b"0x1".to_vec());
}

#[test]
fn pattern_matches_exact_and_wildcard() {
    let exact = Pattern::new("ff").unwrap();
    assert!(exact.matches(&[0xff]));
    assert!(!exact.matches(&[0xfe]));

    let wild = Pattern::new("?").unwrap();
    assert!(wild.matches(&[0x00]));
    assert!(wild.matches(&[0xff]));

    let mixed = Pattern::new("00 ? 02").unwrap();
    assert!(mixed.matches(&[0x00, 0x55, 0x02]));
    assert!(mixed.matches(&[0x00, 0xAA, 0x02, 0x99]));
    assert!(!mixed.matches(&[0x01, 0x55, 0x02]));
    assert!(!mixed.matches(&[0x00, 0x55, 0x03]));
}

#[test]
fn pattern_matches_longer_than_span() {
    let p = Pattern::new("00 01 02 03").unwrap();
    assert!(!p.matches(&[0x00, 0x01, 0x02]));
    assert!(!p.matches(&[]));
}
