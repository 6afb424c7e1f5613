use flintbrain::titles::{normalize_title, TitleIndex};

#[test]
fn key_ignores_case_and_white_space_around() {
    assert_eq!(normalize_title("  My Note\t"), "my note");
    assert_eq!(normalize_title("MY NOTE"), normalize_title("my note"));
    assert_eq!(normalize_title("ÀÉ ΑΣ"), "àé ας");
    assert_eq!(normalize_title("\u{212a}"), "k");
    assert_eq!(normalize_title(" "), "");
    for t in ["  My NOTE ", "ÀÉ ΑΣ", "İ"] {
        assert_eq!(normalize_title(&normalize_title(t)), normalize_title(t));
    }
}

#[test]
fn first_title_with_a_key_is_found() {
    let mut index = TitleIndex::new();
    assert_eq!(index.find("a"), None);
    for key in ["a", "b", "a", "", "c", "b"] {
        index.insert(key.to_string());
    }
    assert_eq!(index.find("a"), Some(0));
    assert_eq!(index.find("b"), Some(1));
    assert_eq!(index.find(""), Some(3));
    assert_eq!(index.find("c"), Some(4));
    assert_eq!(index.find("A"), None);
}
