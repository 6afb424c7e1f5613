use flintbrain::vault::{index_path, vault_key};

#[test]
fn key_is_the_fnv1a_hash() {
    assert_eq!(vault_key(""), "cbf29ce484222325");
    assert_eq!(vault_key("a"), "af63dc4c8601ec8c");
    assert_eq!(vault_key("foobar"), "85944171f73967e8");
}

#[test]
fn key_goes_by_the_bytes_of_utf8() {
    let mut hash: u64 = 0xcbf2_9ce4_8422_2325;
    for b in "/home/é/Ünïcode 日本".as_bytes() {
        hash ^= *b as u64;
        hash = hash.wrapping_mul(0x100_0000_01b3);
    }
    assert_eq!(vault_key("/home/é/Ünïcode 日本"), format!("{:016x}", hash));
}

#[test]
fn key_is_16_hexadecimal_digits() {
    for i in 0..2000 {
        let key = vault_key(&format!("/vault/{}", i));
        assert_eq!(key.len(), 16);
        assert!(key.chars().all(|c| c.is_ascii_digit() || ('a'..='f').contains(&c)));
    }
    assert_ne!(vault_key("/a"), vault_key("/b"));
}

#[test]
fn index_has_its_place_under_the_data_directory() {
    let p = index_path(Some("/data"), "a").unwrap();
    assert_eq!((p.base, p.app.as_str()), ("/data", "FlintBrain"));
    assert_eq!((p.key.as_str(), p.file.as_str()), ("af63dc4c8601ec8c", "index.db"));
    let none: Option<&str> = None;
    assert_eq!(index_path(none, "a").unwrap_err(), "could not locate the OS data directory");
}
