use flintbrain::index::{rebuild_plan, reindex, IndexStats, Plan, Statement};
use flintbrain::note::NoteRecord;
use flintbrain::order::path_order;

fn note(id: &str, path: &str, title: &str, tags: &[&str], links: &[&str]) -> NoteRecord {
    NoteRecord {
        id: id.to_string(),
        rel_path: path.to_string(),
        title: title.to_string(),
        para: "inbox".to_string(),
        favorite: id == "1",
        created: "c".to_string(),
        updated: "u".to_string(),
        body: format!("body of {}", id),
        tags: tags.iter().map(|t| t.to_string()).collect(),
        link_titles: links.iter().map(|t| t.to_string()).collect(),
    }
}

fn links<'a>(plan: &Plan<'a>) -> Vec<(&'a str, &'a str, Option<&'a str>)> {
    let mut out = Vec::new();
    for s in &plan.statements {
        if let Statement::InsertLink { source_id, target_title, target_id } = s {
            out.push((*source_id, *target_title, *target_id));
        }
    }
    out
}

#[test]
fn notes_are_ordered_by_path() {
    let records = vec![
        note("1", "b.md", "", &[], &[]),
        note("2", "a/z.md", "", &[], &[]),
        note("3", "a.md", "", &[], &[]),
        note("4", "Z.md", "", &[], &[]),
        note("5", "é.md", "", &[], &[]),
        note("6", "a.md", "", &[], &[]),
        note("7", "", "", &[], &[]),
    ];
    let mut expected: Vec<usize> = (0..records.len()).collect();
    expected.sort_by(|a, b| records[*a].rel_path.cmp(&records[*b].rel_path));
    assert_eq!(path_order(&records), expected);
    assert_eq!(path_order(&records), vec![6, 3, 2, 5, 1, 0, 4]);
    assert!(path_order(&Vec::new()).is_empty());
}

#[test]
fn empty_vault_only_wipes() {
    let records = Vec::new();
    let plan = reindex(&records);
    assert!(matches!(plan.statements[..], [Statement::Wipe]));
    assert_eq!(plan.stats, IndexStats::default());
}

#[test]
fn plan_writes_each_note_with_its_tags_and_links() {
    let records = vec![
        note("2", "b.md", "B", &["t"], &["a", "Nowhere", " B "]),
        note("1", "a.md", "A", &["x", "y"], &[]),
    ];
    let plan = reindex(&records);
    assert!(matches!(plan.statements[0], Statement::Wipe));
    assert!(matches!(
        plan.statements[1],
        Statement::InsertNote {
            id: "1", path: "a.md", title: "A", para: "inbox", favorite: true, created: "c",
            updated: "u", body: "body of 1"
        }
    ));
    assert!(matches!(
        plan.statements[2],
        Statement::InsertText { id: "1", title: "A", body: "body of 1" }
    ));
    assert!(matches!(plan.statements[3], Statement::InsertTag { note_id: "1", tag: "x" }));
    assert!(matches!(plan.statements[4], Statement::InsertTag { note_id: "1", tag: "y" }));
    assert!(matches!(plan.statements[5], Statement::InsertNote { id: "2", favorite: false, .. }));
    assert!(matches!(plan.statements[7], Statement::InsertTag { note_id: "2", tag: "t" }));
    assert_eq!(
        links(&plan),
        vec![("2", "a", Some("1")), ("2", "Nowhere", None), ("2", " B ", Some("2"))]
    );
    assert_eq!(plan.statements.len(), 11);
    assert_eq!(plan.stats, IndexStats { notes: 2, links: 3, tags: 3, dangling_links: 1 });
}

#[test]
fn first_note_by_path_wins() {
    let mut records = vec![
        note("late", "z.md", "Same", &[], &["same"]),
        note("early", "a.md", "SAME ", &[], &[]),
        note("mid", "m.md", "same", &[], &[]),
    ];
    assert_eq!(links(&reindex(&records)), vec![("late", "same", Some("early"))]);
    records.reverse();
    assert_eq!(links(&reindex(&records)), vec![("late", "same", Some("early"))]);
}

#[test]
fn plan_does_not_depend_on_the_order_of_reading() {
    let make = |order: [usize; 3]| -> Vec<NoteRecord> {
        order
            .iter()
            .map(|i| match i {
                0 => note("1", "a.md", "A", &["t"], &["B", "C"]),
                1 => note("2", "b.md", "B", &[], &["A"]),
                _ => note("3", "c/a.md", "b", &["s"], &["x"]),
            })
            .collect()
    };
    let first = make([0, 1, 2]);
    let expected = format!("{:?}", reindex(&first));
    for order in [[0, 2, 1], [1, 0, 2], [1, 2, 0], [2, 0, 1], [2, 1, 0]] {
        assert_eq!(format!("{:?}", reindex(&make(order))), expected);
    }
}

#[test]
fn plan_follows_the_order_and_the_places_it_is_given() {
    let records = vec![
        note("1", "a.md", "A", &["t"], &["x", "y"]),
        note("2", "b.md", "B", &[], &["z"]),
        note("3", "c.md", "C", &["u", "v"], &[]),
    ];
    let places = vec![vec![], vec![Some(2), None], vec![Some(0)]];
    let plan = rebuild_plan(&records, &vec![2, 0, 1], &places);
    assert_eq!(links(&plan), vec![("1", "x", Some("2")), ("1", "y", None), ("2", "z", Some("3"))]);
    assert!(matches!(plan.statements[1], Statement::InsertNote { id: "3", .. }));
    assert!(matches!(plan.statements[4], Statement::InsertTag { note_id: "3", tag: "v" }));
    assert!(matches!(plan.statements[5], Statement::InsertNote { id: "1", .. }));
    assert!(matches!(plan.statements[10], Statement::InsertNote { id: "2", .. }));
    assert_eq!(plan.stats, IndexStats { notes: 3, links: 3, tags: 3, dangling_links: 1 });
}
