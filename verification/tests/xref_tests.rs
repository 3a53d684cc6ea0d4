use luarunny::{resolve_displacement, xref, xrefs};

#[test]
fn mem_mem_xref() {
    let data: &[u8] = &[1, 2, 3, 4, 0x12, 0x34, 0x56, 0x78];
    let a = data.as_ptr() as usize;

    assert_eq!(xref(data, a, a + 4 + 0x78563416), Some(a + 4));
}

#[test]
fn mem_mem_xrefs() {
    let data: &[u8] = &[1, 2, 3, 4, 0x12, 0x34, 0x56, 0x78];
    let a = data.as_ptr() as usize;
    let refs = xrefs(data, a, a + 4 + 0x78563416);

    assert_eq!(refs.len(), 1);
}

#[test]
fn mem_mem_abs() {
    let data: &[u8] = &[0x12, 0x34, 0x56, 0x78];
    let a = data.as_ptr() as usize;

    assert_eq!(resolve_displacement(a, data), a + 0x78563416);

    let data = (-42i32).to_le_bytes();
    let a = data.as_ptr() as usize;

    assert_eq!(resolve_displacement(a, &data), a - 42 + 4);
}

#[test]
fn resolve_displacement_wraps() {
    let data = (-16i32).to_le_bytes();

    assert_eq!(resolve_displacement(4, &data), usize::MAX - 7);
    assert_eq!(resolve_displacement(12, &data), 0);
}

#[test]
fn xref_zero_displacement_points_past_itself() {
    let data: &[u8] = &[0; 8];
    let base = data.as_ptr() as usize;

    assert_eq!(xref(data, base, base + 4), Some(base));
    assert_eq!(xref(data, base, base + 6), Some(base + 2));
    assert_eq!(xref(data, base, base + 100), None);
}

#[test]
fn xrefs_every_hit_ascending() {
    // An all-zero span: the displacement at offset `o` resolves to
    // `base + o + 4`, so exactly one offset hits each target in range.
    let data: &[u8] = &[0; 8];
    let base = data.as_ptr() as usize;

    assert_eq!(xrefs(data, base, base + 7), vec![base + 3]);

    // Two offsets resolving to one target: displacements 1 and 0 placed so
    // that offsets 0 and 1 both resolve to base + 5.
    let data2: &[u8] = &[1, 0, 0, 0, 0, 0, 0, 0];
    let b2 = data2.as_ptr() as usize;
    let refs = xrefs(data2, b2, b2 + 5);
    assert_eq!(refs, vec![b2 + 0, b2 + 1]);
    for w in refs.windows(2) {
        assert!(w[0] < w[1]);
    }
}

#[test]
fn xref_negative_displacement() {
    let data = (-8i32).to_le_bytes();
    let base = data.as_ptr() as usize;

    assert_eq!(xref(&data, base, base.wrapping_sub(4)), Some(base));
}

#[test]
fn xref_short_span_finds_nothing() {
    let data: &[u8] = &[0, 0, 0];
    let base = data.as_ptr() as usize;

    assert_eq!(xref(data, base, base + 4), None);
    assert_eq!(xrefs(data, base, base + 4), Vec::<usize>::new());

    let empty: &[u8] = &[];
    assert_eq!(xref(empty, base, base), None);
    assert_eq!(xrefs(empty, base, base), Vec::<usize>::new());
}
