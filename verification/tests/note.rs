use flintbrain::frontmatter::FrontMatter;
use flintbrain::note::{
    collect_note, first_h1, note_record, read_note, timestamps, timestamps_or, Modified, NoteRecord,
};

fn at(secs: i64, nanos: u32, offset: i32) -> Option<Modified> {
    Some(Modified { secs, nanos, offset })
}

#[test]
fn first_heading_is_found() {
    assert_eq!(first_h1("# Title\ntext"), Some("Title".to_string()));
    assert_eq!(first_h1("text\n## sub\n#  Title \r\n# Other"), Some("Title".to_string()));
    assert_eq!(first_h1("text"), None);
    assert_eq!(first_h1(""), None);
    assert_eq!(first_h1("#Title"), None);
    assert_eq!(first_h1(" # Title"), None);
    assert_eq!(first_h1("#"), None);
}

#[test]
fn empty_first_heading_hides_later_ones() {
    assert_eq!(first_h1("# \n# Title"), None);
    assert_eq!(first_h1("#  \t\r\n# Title"), None);
}

#[test]
fn frontmatter_decides_the_timestamps() {
    let fm = FrontMatter { created: Some("c".to_string()), ..FrontMatter::default() };
    assert_eq!(timestamps_or(&fm, "m"), ("c".to_string(), "m".to_string()));
    let fm = FrontMatter { updated: Some("u".to_string()), ..FrontMatter::default() };
    assert_eq!(timestamps_or(&fm, "m"), ("m".to_string(), "u".to_string()));
    assert_eq!(timestamps(&fm, None), ("".to_string(), "u".to_string()));
}

#[test]
fn modification_time_is_written_in_rfc3339() {
    let fm = FrontMatter::default();
    for (m, text) in [
        (at(0, 0, 0), "1970-01-01T00:00:00+00:00"),
        (at(0, 500_000_000, 3600), "1970-01-01T01:00:00.500+01:00"),
        (at(1_700_000_000, 1, -18_000), "2023-11-14T17:13:20.000000001-05:00"),
        (at(-1, 0, 0), "1969-12-31T23:59:59+00:00"),
        (at(59, 1_000_000_000, 0), "1970-01-01T00:00:60+00:00"),
    ] {
        assert_eq!(timestamps(&fm, m), (text.to_string(), text.to_string()));
    }
}

#[test]
fn calendar_ends_where_chrono_ends_it() {
    let fm = FrontMatter::default();
    assert_eq!(timestamps(&fm, at(8_210_266_876_799, 0, 0)).0, "+262142-12-31T23:59:59+00:00");
    assert_eq!(timestamps(&fm, at(-8_334_601_228_800, 0, 0)).0, "-262143-01-01T00:00:00+00:00");
    for m in [
        at(8_210_266_876_800, 0, 0),
        at(-8_334_601_228_801, 0, 0),
        at(i64::MAX, 0, 0),
        at(i64::MIN, 0, 0),
        at(0, 0, 86_400),
        at(0, 0, -86_400),
        at(0, 1_000_000_000, 0),
        at(59, 2_000_000_000, 0),
    ] {
        assert!(!m.unwrap().in_calendar());
    }
    for m in [at(-1, 1_000_000_000, 0), at(119, 1_999_999_999, 0), at(0, 999_999_999, -86_399)] {
        assert!(m.unwrap().in_calendar());
    }
    assert!(timestamps(&fm, at(8_210_266_876_799, 999_999_999, 86_399)).0.len() > 0);
    assert!(timestamps(&fm, at(-8_334_601_228_800, 0, -86_399)).0.len() > 0);
}

#[test]
fn record_takes_everything_from_the_file() {
    let fm = FrontMatter {
        id: Some("i".to_string()),
        title: Some("T".to_string()),
        created: Some("c".to_string()),
        updated: Some("u".to_string()),
        favorite: true,
        tags: vec!["x".to_string(), "y".to_string()],
    };
    let raw = "---\ntitle: T\n---\n# H\n[[A]] [[B|b]]";
    let r = match read_note("1. Projects\\n.md", Some("n.md"), raw, Some(Ok(fm)), None) {
        Ok(r) => r,
        Err(e) => panic!("{}", e),
    };
    assert_eq!(r.id, "i");
    assert_eq!(r.rel_path, "1. Projects/n.md");
    assert_eq!(r.title, "T");
    assert_eq!(r.para, "project");
    assert!(r.favorite);
    assert_eq!((r.created.as_str(), r.updated.as_str()), ("c", "u"));
    assert_eq!(r.body, "# H\n[[A]] [[B|b]]");
    assert_eq!(r.tags, vec!["x", "y"]);
    assert_eq!(r.link_titles, vec!["A", "B"]);
}

#[test]
fn missing_fields_have_fallbacks() {
    let fm = FrontMatter::default();
    let r = read_note("a/n.x.md", Some("n.x.md"), "# H", Some(Ok(fm)), at(0, 0, 0)).unwrap();
    assert_eq!(r.title, "H");
    assert_eq!(r.created, "1970-01-01T00:00:00+00:00");
    let r = read_note("a/n.x.md", Some("n.x.md"), "text", None, None).unwrap();
    assert_eq!(r.title, "n.x");
    assert_eq!(r.updated, "");
    assert!(!r.favorite && r.tags.is_empty());
}

#[test]
fn generated_ids_have_21_safe_characters_and_differ() {
    let id = || read_note("n.md", Some("n.md"), "", None, None).unwrap().id;
    let (a, b) = (id(), id());
    assert_eq!(a.len(), 21);
    assert!(a.chars().all(|c| c.is_ascii_alphanumeric() || c == '_' || c == '-'));
    assert_ne!(a, b);
}

#[test]
fn bad_frontmatter_is_an_error() {
    let r = read_note("n.md", Some("n.md"), "---\n: :\n---\n", Some(Err("oops".to_string())), None);
    assert_eq!(r.unwrap_err(), "bad frontmatter: oops");
}

#[test]
fn bad_file_is_skipped() {
    let note = |id: &str| -> NoteRecord {
        note_record("n.md", None, "b", FrontMatter::default(), id.to_string(), "area".to_string(), String::new(), "u".to_string())
    };
    let mut records = Vec::new();
    assert_eq!(collect_note(&mut records, Ok(note("1"))), None);
    assert_eq!(collect_note(&mut records, Err("bad".to_string())), Some("bad".to_string()));
    assert_eq!(collect_note(&mut records, Ok(note("2"))), None);
    let ids: Vec<&str> = records.iter().map(|r| r.id.as_str()).collect();
    assert_eq!(ids, vec!["1", "2"]);
    assert_eq!(records[0].title, "Untitled");
    assert_eq!((records[0].para.as_str(), records[0].updated.as_str()), ("area", "u"));
}
