use flintbrain::text::{chars, find_char, find_pair, less, string_of, trim_string, whitespace};

#[test]
fn whitespace_is_the_unicode_property() {
    for n in 0..=0x10ffffu32 {
        if let Some(c) = char::from_u32(n) {
            assert_eq!(whitespace(c), c.is_whitespace(), "U+{:04X}", n);
        }
    }
}

#[test]
fn trimming_takes_white_space_off_both_ends() {
    assert_eq!(trim_string("  a b\t\n"), "a b");
    assert_eq!(trim_string("\u{a0}\u{3000}é\u{2028}"), "é");
    assert_eq!(trim_string(" \n "), "");
    assert_eq!(trim_string(""), "");
}

#[test]
fn characters_go_out_and_come_back() {
    let v = chars("añ🙂z");
    assert_eq!(v, vec!['a', 'ñ', '🙂', 'z']);
    assert_eq!(string_of(&v, 1, 3), "ñ🙂");
    assert_eq!(string_of(&v, 2, 2), "");
}

#[test]
fn searching_gives_the_first_place() {
    let v = chars("a.b. c. d");
    assert_eq!(find_char(&v, 0, v.len(), '.'), Some(1));
    assert_eq!(find_char(&v, 2, v.len(), '.'), Some(3));
    assert_eq!(find_char(&v, 0, 1, '.'), None);
    assert_eq!(find_pair(&v, 0, v.len(), '.', ' '), Some(3));
    assert_eq!(find_pair(&v, 0, 4, '.', ' '), None);
}

#[test]
fn order_is_the_order_of_strings() {
    let words = ["", "A", "a", "a/b", "a.md", "ab", "b", "é", "z", "日", "🙂"];
    for a in words {
        for b in words {
            assert_eq!(less(&chars(a), &chars(b)), a < b, "{} {}", a, b);
        }
    }
}
