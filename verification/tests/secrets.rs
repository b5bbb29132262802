/// Does `bytes` hold a run of exactly `len` lowercase hex digits?
fn has_hex_run(bytes: &[u8], len: usize) -> bool {
    let is_hex = |b: u8| b.is_ascii_digit() || (b'a'..=b'f').contains(&b) || (b'A'..=b'F').contains(&b);
    let mut run = 0;
    let mut lower_only = true;
    for b in bytes.iter().copied().chain(std::iter::once(b' ')) {
        if is_hex(b) {
            run += 1;
            lower_only &= !b.is_ascii_uppercase();
        } else {
            if run == len && lower_only {
                return true;
            }
            run = 0;
            lower_only = true;
        }
    }
    false
}

#[test]
fn the_scanner_agrees_with_these_tests() {
    // Built at run time: a literal 48-hex fixture here would trip the scanner.
    let key = "0123456789abcdef".repeat(3);
    assert_eq!(key.len(), 48);
    assert!(has_hex_run(format!("key={key}.").as_bytes(), 48));
    assert!(!has_hex_run(format!("{key}0").as_bytes(), 48), "49 is not a key");
    assert!(!has_hex_run("a".repeat(64).as_bytes(), 48), "a 64-char sha256 is not a key");
    assert!(!has_hex_run(b"cal_ab12cd34ef56ab78", 48));
}

#[test]
fn a_secret_is_a_key_sized_hex_string() {
    let s = almanac::util::secret(&[0xab; 24]);
    assert_eq!(s.len(), 48);
    assert!(has_hex_run(s.as_bytes(), 48));
}
