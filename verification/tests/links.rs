use flintbrain::links::extract_wikilinks;

#[test]
fn targets_are_pulled_out_in_order() {
    assert_eq!(extract_wikilinks("see [[A]] and [[B c]]."), vec!["A", "B c"]);
    assert_eq!(extract_wikilinks("[[A]][[A]]"), vec!["A", "A"]);
    assert_eq!(extract_wikilinks("[[ Ünï 日本 ]]"), vec!["Ünï 日本"]);
    assert!(extract_wikilinks("no links, [one] bracket").is_empty());
    assert!(extract_wikilinks("").is_empty());
}

#[test]
fn alias_and_heading_are_cut_off() {
    assert_eq!(extract_wikilinks("[[Note|alias]]"), vec!["Note"]);
    assert_eq!(extract_wikilinks("[[Note#heading]]"), vec!["Note"]);
    assert_eq!(extract_wikilinks("[[Note #h|a]] [[N|a#h]]"), vec!["Note", "N"]);
}

#[test]
fn link_without_a_target_counts_for_nothing() {
    assert!(extract_wikilinks("[[]] [[  ]] [[|alias]] [[#h]]").is_empty());
    assert_eq!(extract_wikilinks("[[]][[x]]"), vec!["x"]);
}

#[test]
fn open_link_is_not_closed_elsewhere() {
    assert!(extract_wikilinks("[[A").is_empty());
    assert!(extract_wikilinks("[[A]").is_empty());
    assert_eq!(extract_wikilinks("[[A]] [[B"), vec!["A"]);
    assert_eq!(extract_wikilinks("[[a [[b]] c]]"), vec!["a [[b"]);
    assert_eq!(extract_wikilinks("[[[x]]]"), vec!["[x"]);
    assert_eq!(extract_wikilinks("[[a\nb]]"), vec!["a\nb"]);
    assert_eq!(extract_wikilinks("]][[x]]"), vec!["x"]);
}
