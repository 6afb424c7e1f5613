use flintbrain::frontmatter::save_text;
use flintbrain::index::IndexStats;
use flintbrain::session::{open_note, query_text, AppState};

fn stats(notes: usize) -> IndexStats {
    IndexStats { notes, ..IndexStats::default() }
}

#[test]
fn nothing_can_be_opened_or_found_before_a_vault_is_open() {
    let state: AppState<u8, &str> = AppState::new();
    assert_eq!(state.current().err().unwrap(), "no vault opened");
    assert!(state.search_notes("rust").is_none());
}

#[test]
fn opening_a_vault_makes_it_current() {
    let mut state: AppState<u8, &str> = AppState::new();
    assert_eq!(state.open_vault("/a", Ok((1, stats(3)))), Ok(stats(3)));
    let v = state.current().ok().unwrap();
    assert_eq!((v.conn, v.vault), (1, "/a"));
    assert_eq!(state.open_vault("/b", Ok((2, stats(0)))), Ok(stats(0)));
    assert_eq!(state.current().ok().unwrap().vault, "/b");
}

#[test]
fn failed_opening_keeps_the_vault() {
    let mut state: AppState<u8, &str> = AppState::new();
    assert_eq!(state.open_vault("/a", Err("e".to_string())), Err("e".to_string()));
    assert!(state.current().is_err());
    assert!(state.open_vault("/a", Ok((1, stats(0)))).is_ok());
    assert!(state.open_vault("/b", Err("e".to_string())).is_err());
    assert_eq!(state.current().ok().unwrap().vault, "/a");
}

#[test]
fn query_matches_the_last_word_as_a_prefix() {
    let mut state: AppState<u8, &str> = AppState::new();
    assert!(state.open_vault("/a", Ok((7, stats(0)))).is_ok());
    let s = state.search_notes("  rust mark\n").unwrap();
    assert_eq!((s.conn, s.fts_query.as_str()), (&7, "rust mark*"));
    assert!(state.search_notes("").is_none());
    assert!(state.search_notes(" \t").is_none());
}

#[test]
fn blank_query_asks_for_nothing() {
    assert_eq!(query_text(" \u{3000}\n"), None);
    assert_eq!(query_text(" a b "), Some("a b*".to_string()));
}

#[test]
fn every_framing_survives_loading_and_saving() {
    for raw in ["---\n---\nBody\n", "---\r\na: 1\r\n---\r\nB", "---\na: 1\n---"] {
        let n = open_note(String::new(), String::new(), raw);
        assert_eq!(save_text(raw, &n.frontmatter, &n.body), raw);
    }
}

#[test]
fn note_is_opened_in_its_parts() {
    let raw = "---\nid: x\n---\nbody";
    let n = open_note("/v/a.md".to_string(), "A".to_string(), raw);
    assert_eq!((n.path.as_str(), n.title.as_str()), ("/v/a.md", "A"));
    assert_eq!((n.frontmatter.as_str(), n.body.as_str()), ("id: x\n", "body"));
    assert_eq!(save_text(raw, &n.frontmatter, &n.body), raw);
    let n = open_note(String::new(), String::new(), "plain");
    assert_eq!((n.frontmatter.as_str(), n.body.as_str()), ("", "plain"));
}
