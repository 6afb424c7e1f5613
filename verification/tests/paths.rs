use flintbrain::paths::{
    filename_stem, index_rel_path, is_hidden, is_markdown, is_note, para_category, para_from_path,
    under_vault,
};

fn hidden(components: &[&str]) -> bool {
    is_hidden(&components.iter().map(|c| c.to_string()).collect())
}

#[test]
fn dotfiles_are_hidden_anywhere() {
    assert!(hidden(&[".git", "a.md"]));
    assert!(hidden(&["a", ".b", "c.md"]));
    assert!(hidden(&["a", ".c.md"]));
    assert!(hidden(&["."]));
    assert!(!hidden(&["a", "b.c.md"]));
    assert!(!hidden(&["", "a"]));
    assert!(!hidden(&[]));
}

#[test]
fn stem_is_what_std_takes_for_one() {
    for name in ["a.md", "a.b.md", "a", ".md", ".a.md", "a.", "é.ü", "..a", "a..md", "x y.markdown"] {
        let path = std::path::Path::new(name);
        assert_eq!(filename_stem(Some(name)), path.file_stem().unwrap().to_str().unwrap());
        for is_file in [true, false] {
            let ext = path.extension().and_then(|e| e.to_str());
            let md = matches!(ext, Some("md") | Some("markdown"));
            assert_eq!(is_markdown(Some(name), is_file), md && is_file);
        }
    }
}

#[test]
fn path_without_a_name_is_untitled() {
    assert_eq!(filename_stem(None), "Untitled");
    assert!(!is_markdown(None, true));
}

#[test]
fn markdown_is_told_by_extension() {
    assert!(is_markdown(Some("a.md"), true));
    assert!(is_markdown(Some("a.markdown"), true));
    assert!(!is_markdown(Some("a.md"), false));
    assert!(!is_markdown(Some("a.MD"), true));
    assert!(!is_markdown(Some("a.txt"), true));
    assert!(!is_markdown(Some("md"), true));
    assert!(!is_markdown(Some(".md"), true));
}

#[test]
fn backslashes_turn_forward() {
    assert_eq!(index_rel_path("a\\b/c\\é.md"), "a/b/c/é.md");
}

#[test]
fn top_folder_gives_the_category() {
    for (path, para) in [
        ("1. Projects/x.md", "project"),
        ("Projects/x.md", "project"),
        ("PROJECT/a/b/c.md", "project"),
        ("2. Areas/x.md", "area"),
        ("area/x.md", "area"),
        ("3. Resources/Archive/x.md", "resource"),
        ("resource/x.md", "resource"),
        ("4. Archive/x.md", "archive"),
        (" archive /x.md", "archive"),
        ("0. Inbox/x.md", "inbox"),
        ("Archives/x.md", "inbox"),
        ("x.md", "inbox"),
        ("1. Projects.md", "inbox"),
        ("", "inbox"),
        ("1. 2. Projects/x.md", "inbox"),
        ("1.. Projects/x.md", "inbox"),
        ("Old. Projects/x.md", "inbox"),
        ("10. Projects/x.md", "project"),
        ("1a. Projects/x.md", "inbox"),
        (" 1. Projects/x.md", "inbox"),
        (". Projects/x.md", "inbox"),
        ("1.  Projects /x.md", "project"),
        ("٣. Projects/x.md", "inbox"),
        ("1.Projects/x.md", "inbox"),
        ("/Projects/x.md", "inbox"),
        ("Projéts/x.md", "inbox"),
    ] {
        assert_eq!(para_from_path(path), para, "{}", path);
    }
}

#[test]
fn subfolders_inherit() {
    for top in ["1. Projects", "areas", "Stuff", "ARCHIVE"] {
        let whole = para_from_path(top);
        assert_eq!(para_from_path(&format!("{}/a/2. Areas/n.md", top)), whole);
    }
}

#[test]
fn lower_case_names_have_categories() {
    for (name, para) in [
        ("projects", "project"),
        ("project", "project"),
        ("areas", "area"),
        ("area", "area"),
        ("resources", "resource"),
        ("resource", "resource"),
        ("archive", "archive"),
        ("inbox", "inbox"),
        ("Projects", "inbox"),
        ("", "inbox"),
    ] {
        assert_eq!(para_category(name.to_string()), para);
    }
}

#[test]
fn root_notes_are_in_the_inbox() {
    for path in ["projects.md", "1. Area.markdown", "É. Projects.md", "archive.md", " .md"] {
        assert_eq!(para_from_path(path), "inbox");
    }
}

#[test]
fn vault_is_left_out_of_a_path() {
    let parts = |s: &str| -> Vec<String> { s.split(' ').map(|c| c.to_string()).collect() };
    for (path, vault, skipped) in [
        ("/ v a n.md", "/ v", 2),
        ("/ v", "/ v", 2),
        ("/ w n.md", "/ v", 0),
        ("/ v2 n.md", "/ v", 0),
        ("/", "/ v", 0),
    ] {
        assert_eq!(under_vault(&parts(path), &parts(vault)), skipped);
    }
    assert_eq!(under_vault(&parts("a b"), &Vec::new()), 0);
}

#[test]
fn note_is_a_markdown_file_that_is_not_hidden() {
    let parts = |s: &str| -> Vec<String> { s.split('/').map(|c| c.to_string()).collect() };
    assert!(is_note(&parts("a/n.md"), Some("n.md"), true));
    assert!(is_note(&parts("n.markdown"), Some("n.markdown"), true));
    assert!(!is_note(&parts("a/n.md"), Some("n.md"), false));
    assert!(!is_note(&parts("a/n.txt"), Some("n.txt"), true));
    assert!(!is_note(&parts(".git/n.md"), Some("n.md"), true));
    assert!(!is_note(&parts("a/.n.md"), Some(".n.md"), true));
    assert!(!is_note(&parts("a/.md"), Some(".md"), true));
    assert!(!is_note(&parts("a"), None, true));
}
