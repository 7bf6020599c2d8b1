use pwds::crypto::{Cipher, CryptoManager, DecryptError};
use pwds::store::{
    load_enc_passwords, load_passwords, modify_password, remove_password, save_password,
    open_records, write_records,
};

const KEY: &str = "store key";

fn pairs(v: &[(&str, &str)]) -> Vec<(String, String)> {
    v.iter().map(|(a, b)| (a.to_string(), b.to_string())).collect()
}

#[test]
fn crud_scenario() {
    let text = save_password("", "alice", "secret1", KEY);
    assert_eq!(load_passwords(&text, KEY), pairs(&[("alice", "secret1")]));
    let text = save_password(&text, "bob", "secret2", KEY);
    assert_eq!(
        load_passwords(&text, KEY),
        pairs(&[("alice", "secret1"), ("bob", "secret2")])
    );
    let text = modify_password(&text, "alice", "newpass", KEY);
    assert_eq!(
        load_passwords(&text, KEY),
        pairs(&[("alice", "newpass"), ("bob", "secret2")])
    );
    let text = remove_password(&text, "bob");
    assert_eq!(load_passwords(&text, KEY), pairs(&[("alice", "newpass")]));
}

#[test]
fn missing_file_loads_no_records() {
    assert!(load_passwords("", KEY).is_empty());
    assert!(load_enc_passwords("").is_empty());
    assert_eq!(open_records("", KEY), (vec![], vec![]));
}

#[test]
fn partial_corruption_drops_only_the_bad_record() {
    let text = save_password("", "alice", "secret1", KEY);
    let text = save_password(&text, "bob", "secret2", KEY);
    let records = load_enc_passwords(&text);
    let mut bad = records[0].1.clone();
    bad.replace_range(0..2, "zz");
    let corrupted = format!("alice:{}\nbob:{}\n", bad, records[1].1);
    assert_eq!(load_passwords(&corrupted, KEY), pairs(&[("bob", "secret2")]));
    assert_eq!(
        open_records(&corrupted, KEY).1,
        vec![("alice".to_string(), DecryptError::MalformedEncoding)]
    );
    let mut upper = records[0].1.clone();
    let at = upper.find(|c: char| ('a'..='f').contains(&c)).unwrap();
    upper.replace_range(at..at + 1, &upper[at..at + 1].to_uppercase());
    let flipped = format!("alice:{}\nbob:{}\n", upper, records[1].1);
    assert_eq!(load_passwords(&flipped, KEY), pairs(&[("bob", "secret2")]));
}

#[test]
fn records_under_another_key_are_dropped() {
    let text = save_password("", "alice", "secret1", "other key");
    let text = save_password(&text, "bob", "secret2", KEY);
    assert_eq!(load_passwords(&text, KEY), pairs(&[("bob", "secret2")]));
    assert_eq!(
        open_records(&text, KEY),
        (
            pairs(&[("bob", "secret2")]),
            vec![("alice".to_string(), DecryptError::AuthenticationFailure)]
        )
    );
}

#[test]
fn parsing_splits_at_first_colon_and_skips_lines_without_one() {
    let text = "alice:00ff\nno separator here\n\nbob:a:b\ncarol:";
    assert_eq!(
        load_enc_passwords(text),
        pairs(&[("alice", "00ff"), ("bob", "a:b"), ("carol", "")])
    );
}

#[test]
fn write_records_gives_one_line_per_record() {
    let records = pairs(&[("alice", "00ff"), ("bob", "abcd")]);
    assert_eq!(write_records(&records), "alice:00ff\nbob:abcd\n");
    assert_eq!(write_records(&Vec::new()), "");
    assert_eq!(load_enc_passwords(&write_records(&records)), records);
}

#[test]
fn save_appends_and_keeps_existing_lines() {
    let text = "alice:00ff\n";
    let out = save_password(text, "bob", "pw", KEY);
    assert!(out.starts_with("alice:00ff\nbob:"));
    assert!(out.ends_with('\n'));
    let records = load_enc_passwords(&out);
    assert_eq!(records.len(), 2);
    assert_eq!(Cipher::new(KEY).decrypt(records[1].1.clone()), Ok("pw".to_string()));
}

#[test]
fn save_rewrites_a_file_without_final_line_break() {
    let out = save_password("alice:00ff", "bob", "pw", KEY);
    assert!(out.starts_with("alice:00ff\nbob:"));
}

#[test]
fn duplicate_usernames_accumulate() {
    let text = save_password("", "alice", "one", KEY);
    let text = save_password(&text, "alice", "two", KEY);
    assert_eq!(
        load_passwords(&text, KEY),
        pairs(&[("alice", "one"), ("alice", "two")])
    );
}

#[test]
fn modify_changes_only_the_first_match() {
    let text = save_password("", "alice", "one", KEY);
    let text = save_password(&text, "alice", "two", KEY);
    let text = modify_password(&text, "alice", "three", KEY);
    assert_eq!(
        load_passwords(&text, KEY),
        pairs(&[("alice", "three"), ("alice", "two")])
    );
}

#[test]
fn modify_without_match_leaves_records_unchanged() {
    let text = save_password("", "alice", "one", KEY);
    assert_eq!(modify_password(&text, "nobody", "x", KEY), text);
}

#[test]
fn modify_seals_with_a_fresh_nonce() {
    let text = save_password("", "alice", "one", KEY);
    let out = modify_password(&text, "alice", "one", KEY);
    assert_ne!(out, text);
    assert_eq!(load_passwords(&out, KEY), pairs(&[("alice", "one")]));
}

#[test]
fn remove_drops_every_match() {
    let text = save_password("", "alice", "one", KEY);
    let text = save_password(&text, "bob", "two", KEY);
    let text = save_password(&text, "alice", "three", KEY);
    let text = remove_password(&text, "alice");
    assert_eq!(load_passwords(&text, KEY), pairs(&[("bob", "two")]));
}

#[test]
fn remove_without_match_keeps_records() {
    let text = "alice:00ff\nbob:abcd\n";
    assert_eq!(remove_password(text, "carol"), text);
    assert_eq!(remove_password("junk line\nalice:00ff", "carol"), "alice:00ff\n");
}

#[test]
fn saved_line_is_lowercase_hex_of_expected_length() {
    let text = save_password("", "alice", "secret1", KEY);
    let line = text.strip_suffix('\n').unwrap();
    let sealed = line.strip_prefix("alice:").unwrap();
    assert_eq!(sealed.len(), 2 * (12 + "secret1".len() + 16));
    assert!(sealed.chars().all(|c| c.is_ascii_digit() || ('a'..='f').contains(&c)));
}
