use pwds::passgen::{adjust_password_length, gen_pwd};

#[test]
fn adjust_pads_short_key_with_zero_bytes() {
    assert_eq!(adjust_password_length("abc"), format!("abc{}", "\0".repeat(29)));
    assert_eq!(adjust_password_length(""), "\0".repeat(32));
    let mut expected = b"ab".to_vec();
    expected.extend_from_slice(&[0u8; 30]);
    assert_eq!(adjust_password_length("ab").as_bytes(), &expected[..]);
    assert_eq!(
        adjust_password_length("ab").into_bytes(),
        pwds::crypto::normalize_key("ab")
    );
}

#[test]
fn adjust_keeps_key_of_exact_length() {
    let k = "0123456789abcdef0123456789abcdef";
    assert_eq!(adjust_password_length(k), k);
}

#[test]
fn adjust_cuts_long_key() {
    let k = "abcdefghijklmnopqrstuvwxyz0123456789";
    assert_eq!(adjust_password_length(k), &k[..32]);
}

#[test]
fn generated_password_has_fourteen_letters_or_digits() {
    let p = gen_pwd().unwrap();
    assert_eq!(p.chars().count(), 14);
    assert!(p.chars().all(|c| c.is_ascii_alphanumeric()));
}

#[test]
fn generated_passwords_differ() {
    let a = gen_pwd().unwrap();
    let b = gen_pwd().unwrap();
    let c = gen_pwd().unwrap();
    assert!(a != b || b != c);
}
