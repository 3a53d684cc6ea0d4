use luarunny::{
    rscan, rscan_pattern, rscan_str, scan, scan_all, scan_all_pattern, scan_all_str,
    scan_pattern, scan_str, Pattern,
};

#[test]
fn mem_mem_scan() {
    let data: &[u8] = &[0, 1, 2, 3, 4, 5, 6, 7, 8, 9, 0xa, 0xb, 0xc, 0xd, 0xe, 0xf];
    let base = data.as_ptr() as usize;

    assert_eq!(scan(data, base, "0a ? 0C").unwrap(), Some(base + 10));
}

#[test]
fn mem_mem_scan_all() {
    let data: &[u8] = &[0, 1, 2, 3, 42, 77, 0, 1, 2, 3, 5, 6, 7];
    let base = data.as_ptr() as usize;

    assert_eq!(scan_all(data, base, "00 ? ? 03").unwrap(), vec![base + 0, base + 6]);
}

#[test]
fn mem_mem_scan_str() {
    let data = "Hello, world!";
    let base = data.as_ptr() as usize;

    assert_eq!(scan_str(data.as_bytes(), base, "world").unwrap(), Some(base + 7));
}

#[test]
fn mem_mem_scan_all_str() {
    let data = "Hello, world! Hello, moon!";
    let base = data.as_ptr() as usize;

    assert_eq!(
        scan_all_str(data.as_bytes(), base, "Hello").unwrap(),
        vec![base + 0, base + 14]
    );
}

#[test]
fn scan_no_match_is_ok_none() {
    let data: &[u8] = &[1, 2, 3, 4];
    let base = data.as_ptr() as usize;

    assert_eq!(scan(data, base, "ff").unwrap(), None);
    assert_eq!(rscan(data, base, "ff").unwrap(), None);
    assert_eq!(scan_all(data, base, "ff").unwrap(), Vec::<usize>::new());
}

#[test]
fn scan_parse_error_names_token() {
    let data: &[u8] = &[1, 2, 3, 4];
    let base = data.as_ptr() as usize;

    assert_eq!(scan(data, base, "01 2 03").unwrap_err().token, b"2".to_vec());
    assert_eq!(rscan(data, base, "01 2 03").unwrap_err().token, b"2".to_vec());
    assert_eq!(scan_all(data, base, "01 2 03").unwrap_err().token, b"2".to_vec());
}

#[test]
fn scan_pattern_longer_than_span() {
    let data: &[u8] = &[0, 1, 2];
    let base = data.as_ptr() as usize;
    let p = Pattern::new("00 01 02 03").unwrap();

    assert_eq!(scan_pattern(data, base, &p), None);
    assert_eq!(rscan_pattern(data, base, &p), None);
    assert_eq!(scan_all_pattern(data, base, &p), Vec::<usize>::new());

    let empty: &[u8] = &[];
    assert_eq!(scan_pattern(empty, base, &p), None);
    assert_eq!(rscan_pattern(empty, base, &p), None);
    assert_eq!(scan_all_pattern(empty, base, &p), Vec::<usize>::new());
}

#[test]
fn scan_single_occurrence() {
    let data: &[u8] = &[9, 9, 5, 6, 9, 9];
    let base = data.as_ptr() as usize;
    let p = Pattern::new("05 06").unwrap();

    assert_eq!(scan_pattern(data, base, &p), Some(base + 2));
    assert_eq!(rscan_pattern(data, base, &p), Some(base + 2));
    assert_eq!(scan_all_pattern(data, base, &p), vec![base + 2]);
}

#[test]
fn rscan_returns_highest_occurrence() {
    let data = "Hello, world! Hello, moon!";
    let base = data.as_ptr() as usize;

    assert_eq!(rscan_str(data.as_bytes(), base, "Hello").unwrap(), Some(base + 14));

    let bytes: &[u8] = &[0, 1, 0, 1, 0, 1];
    let b2 = bytes.as_ptr() as usize;
    assert_eq!(rscan(bytes, b2, "00 01").unwrap(), Some(b2 + 4));
}

#[test]
fn scan_returns_lowest_occurrence() {
    let data = "Hello, world! Hello, moon!";
    let base = data.as_ptr() as usize;

    assert_eq!(scan_str(data.as_bytes(), base, "Hello").unwrap(), Some(base + 0));
}

#[test]
fn scan_all_overlapping_matches_advance_by_one() {
    let data: &[u8] = &[0x61, 0x61, 0x61, 0x61];
    let base = data.as_ptr() as usize;

    assert_eq!(
        scan_all(data, base, "61 61").unwrap(),
        vec![base + 0, base + 1, base + 2]
    );
}

#[test]
fn scan_all_results_ascend() {
    let data: &[u8] = &[7, 0, 7, 1, 7, 2, 7, 3];
    let base = data.as_ptr() as usize;

    let refs = scan_all(data, base, "07 ?").unwrap();
    assert_eq!(refs, vec![base + 0, base + 2, base + 4, base + 6]);
    for w in refs.windows(2) {
        assert!(w[0] < w[1]);
    }
}

#[test]
fn scan_wildcard_matches_every_byte() {
    let data: &[u8] = &[0x00, 0x7f, 0xff];
    let base = data.as_ptr() as usize;

    assert_eq!(scan_all(data, base, "?").unwrap(), vec![base, base + 1, base + 2]);
}

#[test]
fn scan_empty_pattern_degenerate() {
    let data: &[u8] = &[0x41, 0x42];
    let base = data.as_ptr() as usize;

    assert_eq!(scan_str(data, base, "").unwrap(), Some(base));
    assert_eq!(rscan_str(data, base, "").unwrap(), Some(base + 2));
    assert_eq!(scan_all_str(data, base, "").unwrap(), vec![base, base + 1, base + 2]);
}
