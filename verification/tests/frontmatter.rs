use flintbrain::frontmatter::{join, save_text, split, yaml, FrontMatter};

fn parts(content: &str) -> (Option<&str>, &str) {
    let s = split(content);
    (s.frontmatter, s.body)
}

#[test]
fn block_is_peeled_off() {
    assert_eq!(parts("---\ntitle: A\n---\nbody\n"), (Some("title: A\n"), "body\n"));
    assert_eq!(parts("---\na: 1\nb: é\n---\n# H\n---\nx"), (Some("a: 1\nb: é\n"), "# H\n---\nx"));
    assert_eq!(parts("---\n---\nbody"), (Some(""), "body"));
    assert_eq!(parts("---\na: 1\n---"), (Some("a: 1\n"), ""));
}

#[test]
fn carriage_returns_are_taken_as_line_ends() {
    assert_eq!(parts("---\r\na: 1\r\n---\r\nbody"), (Some("a: 1\r\n"), "body"));
    assert_eq!(parts("---\na\n---\r\r\nb"), (Some("a\n"), "b"));
    assert_eq!(parts("---\na\n---\r"), (Some("a\n"), ""));
}

#[test]
fn without_a_complete_block_all_is_body() {
    for content in [
        "", "---", "body", " ---\na\n---\n", "---\na: 1\nbody", "--- \na\n---\n", "----\na\n---\n",
        "---\r---\n", "\n---\na\n---\n", "---\na\n --- \n----\n",
    ] {
        assert_eq!(parts(content), (None, content));
    }
}

#[test]
fn only_a_block_with_text_is_parsed() {
    assert_eq!(yaml(&split("---\ntitle: A\n---\nbody")), Some("title: A\n"));
    assert_eq!(yaml(&split("---\n \n\t\n---\nbody")), None);
    assert_eq!(yaml(&split("---\n---\nbody")), None);
    assert_eq!(yaml(&split("body")), None);
}

#[test]
fn default_sets_no_field() {
    let fm = FrontMatter::default();
    assert!(fm.id.is_none() && fm.title.is_none() && fm.created.is_none() && fm.updated.is_none());
    assert!(!fm.favorite);
    assert!(fm.tags.is_empty());
}

#[test]
fn saved_text_is_fenced_again() {
    assert_eq!(join("title: A\n", "body"), "---\ntitle: A\n---\nbody");
    assert_eq!(join("", "body"), "body");
}

#[test]
fn unedited_note_is_saved_as_it_was() {
    for content in [
        "---\ntitle: A\n---\nbody\n", "---\n\n---\n", "plain", "", "---\nnever closed",
        "---\n---\nBody\n", "---\r\na: 1\r\n---\r\nB", "---\na: 1\n---", "---\r\n---", "---\n---\r",
        "---\r\na\n---\nb", "---\na: é\n---\né",
    ] {
        let s = split(content);
        assert_eq!(save_text(content, s.frontmatter.unwrap_or(""), s.body), content);
    }
}

#[test]
fn edited_note_keeps_its_framing() {
    for (content, body, saved) in [
        ("---\r\na: 1\r\n---\r\nold", "new", "---\r\na: 1\r\n---\r\nnew"),
        ("---\na: 1\n---", "new", "---\na: 1\n---\nnew"),
        ("---\na: 1\n---\r", "new", "---\na: 1\n---\r\nnew"),
        ("---\na: 1\n---\nold", "", "---\na: 1\n---\n"),
        ("---\n---\nold", "new", "---\n---\nnew"),
        ("old", "new", "new"),
    ] {
        let s = split(content);
        assert_eq!(save_text(content, s.frontmatter.unwrap_or(""), body), saved);
    }
}

#[test]
fn block_of_another_file_is_fenced_anew() {
    assert_eq!(save_text("", "a: 1\n", "body"), "---\na: 1\n---\nbody");
    assert_eq!(save_text("plain", "a: 1\n", "body"), "---\na: 1\n---\nbody");
    assert_eq!(save_text("---\r\nb: 2\r\n---\r\nx", "a: 1\n", "body"), "---\na: 1\n---\nbody");
    assert_eq!(save_text("---\r\nb: 2\r\n---\r\nx", "", "body"), "body");
}

#[test]
fn edited_note_keeps_its_frontmatter() {
    for content in [
        "---\r\na: 1\r\nb: 2\r\n---\r\nold", "---\n---\nold", "---\na\n---", "---\na\n---\r",
    ] {
        let held = split(content).frontmatter;
        for body in ["", "new", "---\nx\n---\n", "---", "\n"] {
            let saved = save_text(content, held.unwrap_or(""), body);
            assert_eq!(parts(&saved), (held, body));
        }
    }
}

#[test]
fn frontmatter_that_is_no_block_is_not_loaded_again() {
    assert_eq!(parts(&join("a: 1", "body")), (None, "---\na: 1---\nbody"));
    assert_eq!(parts(&join("a\n---\nb\n", "body")), (Some("a\n"), "b\n---\nbody"));
}

#[test]
fn plain_note_stays_plain_unless_its_body_is_a_block() {
    assert_eq!(parts(&save_text("old", "", "text")), (None, "text"));
    assert_eq!(parts(&save_text("old", "", "---\na\n---\nb")), (Some("a\n"), "b"));
}

#[test]
fn splitting_loses_nothing() {
    let content = "---\r\nk: v\n---\nbody\n---\n";
    let s = split(content);
    assert_eq!(format!("---\r\n{}---\n{}", s.frontmatter.unwrap_or(""), s.body), content);
}
