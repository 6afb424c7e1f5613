use flintbrain::index::{reindex, Statement};
use flintbrain::note::NoteRecord;
use rusqlite::Connection;

fn database() -> Connection {
    let conn = Connection::open_in_memory().unwrap();
    conn.execute_batch(
        "CREATE TABLE notes (id TEXT PRIMARY KEY, path TEXT NOT NULL, title TEXT NOT NULL,
             para TEXT NOT NULL, favorite INTEGER NOT NULL DEFAULT 0, created TEXT, updated TEXT,
             body TEXT NOT NULL);
         CREATE VIRTUAL TABLE notes_fts USING fts5(id UNINDEXED, title, body);
         CREATE TABLE note_links (source_id TEXT NOT NULL, target_title TEXT NOT NULL, target_id TEXT);
         CREATE TABLE tags (note_id TEXT NOT NULL, tag TEXT NOT NULL);",
    )
    .unwrap();
    conn
}

fn run(conn: &mut Connection, statements: &[Statement]) -> Result<(), rusqlite::Error> {
    let tx = conn.transaction()?;
    for s in statements {
        match s {
            Statement::Wipe => tx.execute_batch(
                "DELETE FROM notes; DELETE FROM notes_fts; DELETE FROM note_links; DELETE FROM tags;",
            )?,
            Statement::InsertNote { id, path, title, para, favorite, created, updated, body } => {
                tx.execute(
                    "INSERT INTO notes VALUES (?1, ?2, ?3, ?4, ?5, ?6, ?7, ?8)",
                    (id, path, title, para, favorite, created, updated, body),
                )?;
            }
            Statement::InsertText { id, title, body } => {
                tx.execute("INSERT INTO notes_fts VALUES (?1, ?2, ?3)", (id, title, body))?;
            }
            Statement::InsertTag { note_id, tag } => {
                tx.execute("INSERT INTO tags VALUES (?1, ?2)", (note_id, tag))?;
            }
            Statement::InsertLink { source_id, target_title, target_id } => {
                tx.execute(
                    "INSERT INTO note_links VALUES (?1, ?2, ?3)",
                    (source_id, target_title, target_id),
                )?;
            }
        }
    }
    tx.commit()
}

fn note(id: &str, path: &str, title: &str, links: &[&str]) -> NoteRecord {
    NoteRecord {
        id: id.to_string(),
        rel_path: path.to_string(),
        title: title.to_string(),
        para: "inbox".to_string(),
        favorite: false,
        created: String::new(),
        updated: String::new(),
        body: format!("words of {}", title),
        tags: vec!["t".to_string()],
        link_titles: links.iter().map(|t| t.to_string()).collect(),
    }
}

fn strings(conn: &Connection, sql: &str) -> Vec<String> {
    let mut statement = conn.prepare(sql).unwrap();
    let rows = statement.query_map([], |r| r.get::<usize, String>(0)).unwrap();
    rows.map(|r| r.unwrap()).collect()
}

fn count(conn: &Connection, table: &str) -> usize {
    let sql = format!("SELECT count(*) FROM {}", table);
    conn.query_row(&sql, [], |r| r.get::<usize, i64>(0)).unwrap() as usize
}

#[test]
fn rebuild_writes_every_note_and_stats_count_the_rows() {
    let mut conn = database();
    let records = vec![note("2", "b.md", "B", &["a", "gone"]), note("1", "a.md", "A", &["b"])];
    let plan = reindex(&records);
    run(&mut conn, &plan.statements).unwrap();
    assert_eq!(strings(&conn, "SELECT id FROM notes ORDER BY rowid"), vec!["1", "2"]);
    assert_eq!(count(&conn, "notes"), plan.stats.notes);
    assert_eq!(count(&conn, "notes_fts"), plan.stats.notes);
    assert_eq!(count(&conn, "tags"), plan.stats.tags);
    assert_eq!(count(&conn, "note_links"), plan.stats.links);
    assert_eq!(count(&conn, "note_links WHERE target_id IS NULL"), plan.stats.dangling_links);
    assert_eq!(
        count(&conn, "note_links JOIN notes ON target_id = id"),
        plan.stats.links - plan.stats.dangling_links
    );
    assert_eq!(strings(&conn, "SELECT path FROM notes WHERE id = '2'"), vec!["b.md"]);
    assert_eq!(strings(&conn, "SELECT id FROM notes_fts WHERE notes_fts MATCH 'wor*'").len(), 2);
}

#[test]
fn index_is_disposable() {
    let old = vec![note("9", "z.md", "Z", &["A"]), note("1", "y.md", "Y", &[])];
    let new = vec![note("1", "a.md", "A", &["z"])];
    let (mut used, mut fresh) = (database(), database());
    run(&mut used, &reindex(&old).statements).unwrap();
    for conn in [&mut used, &mut fresh] {
        run(conn, &reindex(&new).statements).unwrap();
        assert_eq!(strings(conn, "SELECT path FROM notes"), vec!["a.md"]);
        assert_eq!(strings(conn, "SELECT title FROM notes_fts"), vec!["A"]);
        assert_eq!(count(conn, "note_links WHERE target_id IS NULL"), 1);
    }
}

#[test]
fn second_note_with_one_id_fails_the_rebuild() {
    let mut conn = database();
    run(&mut conn, &reindex(&vec![note("1", "a.md", "A", &[])]).statements).unwrap();
    let records = vec![note("2", "b.md", "B", &[]), note("2", "c.md", "C", &[])];
    assert!(run(&mut conn, &reindex(&records).statements).is_err());
    assert_eq!(strings(&conn, "SELECT id FROM notes"), vec!["1"]);
}

#[test]
fn links_point_to_the_least_path() {
    let mut conn = database();
    let records = vec![
        note("late", "z.md", "Same", &["same", "gone"]),
        note("early", "a.md", "SAME ", &["Same"]),
        note("mid", "m.md", "same", &[]),
    ];
    run(&mut conn, &reindex(&records).statements).unwrap();
    assert_eq!(
        strings(&conn, "SELECT target_id FROM note_links WHERE target_id IS NOT NULL"),
        vec!["early", "early"]
    );
    assert_eq!(
        strings(&conn, "SELECT target_title FROM note_links WHERE target_id IS NULL"),
        vec!["gone"]
    );
}
