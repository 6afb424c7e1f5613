//! The tables of the index, and what a rebuild leaves in them. The `id` of a
//! note is the primary key of `notes`, so a second note with one id fails the
//! rebuild; the other tables take any row.
use vstd::prelude::*;

#[allow(unused_imports)]
use crate::index::{all_targets, dangling_count, insert_statements, link_count, link_rows, missing,
    note_row, note_statements, rebuild_statements, resolve, tag_count, tag_rows, targets_of, text_row,
    title_keys, LinkRow, NoteRow, StatementView, TagRow, TextRow};
#[allow(unused_imports)]
use crate::note::NoteView;
#[allow(unused_imports)]
use crate::order::{by_path, law_notes_are_ordered, law_order_keeps_the_notes,
    law_walk_order_is_irrelevant, lemma_less_irreflexive, paths_are_unique};
#[allow(unused_imports)]
use crate::paths::ascii_lowered;
#[allow(unused_imports)]
use crate::text::string_less;
#[allow(unused_imports)]
use crate::titles::{first_of, has_plain_key, law_titles_match_in_any_case, lemma_first_of, title_key};

verus! {

/// The rows of the four tables.
pub ghost struct Tables {
    pub notes: Seq<NoteRow>,
    pub texts: Seq<TextRow>,
    pub tags: Seq<TagRow>,
    pub links: Seq<LinkRow>,
}

/// The tables without any row.
pub open spec fn empty_tables() -> Tables {
    Tables { notes: Seq::empty(), texts: Seq::empty(), tags: Seq::empty(), links: Seq::empty() }
}

/// Whether a row of `notes` has the primary key `id`.
pub open spec fn has_key(db: Tables, id: Seq<char>) -> bool {
    exists|i: int| 0 <= i < db.notes.len() && (#[trigger] db.notes[i]).id == id
}

/// What a statement makes of the tables; `None` where the primary key is taken.
pub open spec fn written(db: Tables, statement: StatementView) -> Option<Tables> {
    match statement {
        StatementView::Wipe => Some(empty_tables()),
        StatementView::InsertNote(r) => if has_key(db, r.id) {
            None
        } else {
            Some(Tables { notes: db.notes.push(r), ..db })
        },
        StatementView::InsertText(r) => Some(Tables { texts: db.texts.push(r), ..db }),
        StatementView::InsertTag(r) => Some(Tables { tags: db.tags.push(r), ..db }),
        StatementView::InsertLink(r) => Some(Tables { links: db.links.push(r), ..db }),
    }
}

/// What a series of statements makes of the tables; `None` where one of them
/// fails.
pub open spec fn run(db: Tables, statements: Seq<StatementView>) -> Option<Tables>
    decreases statements.len(),
{
    if statements.len() == 0 {
        Some(db)
    } else {
        match run(db, statements.drop_last()) {
            Some(d) => written(d, statements.last()),
            None => None,
        }
    }
}

/// Whether no two notes have one id.
pub open spec fn ids_are_unique(notes: Seq<NoteView>) -> bool {
    forall|i: int, j: int|
        0 <= i < notes.len() && 0 <= j < notes.len() && (#[trigger] notes[i]).id == (
        #[trigger] notes[j]).id ==> i == j
}

/// The rows of the tags of the first `n` of the notes.
pub open spec fn all_tag_rows(notes: Seq<NoteView>, n: nat) -> Seq<TagRow>
    decreases n,
{
    if n == 0 {
        Seq::empty()
    } else {
        all_tag_rows(notes, (n - 1) as nat) + tag_rows(notes[n - 1])
    }
}

/// The rows of the links of the first `n` of the notes.
pub open spec fn all_link_rows(notes: Seq<NoteView>, n: nat) -> Seq<LinkRow>
    decreases n,
{
    if n == 0 {
        Seq::empty()
    } else {
        all_link_rows(notes, (n - 1) as nat) + link_rows(
            notes[n - 1],
            targets_of(notes, notes[n - 1]),
        )
    }
}

/// The tables with the rows of the first `n` of the notes.
pub open spec fn tables_of(notes: Seq<NoteView>, n: nat) -> Tables {
    Tables {
        notes: notes.take(n as int).map_values(|m: NoteView| note_row(m)),
        texts: notes.take(n as int).map_values(|m: NoteView| text_row(m)),
        tags: all_tag_rows(notes, n),
        links: all_link_rows(notes, n),
    }
}

proof fn lemma_run_concat(db: Tables, a: Seq<StatementView>, b: Seq<StatementView>)
    ensures
        run(db, a + b) == match run(db, a) {
            Some(d) => run(d, b),
            None => None,
        },
    decreases b.len(),
{
    if b.len() == 0 {
        assert(a + b =~= a);
    } else {
        assert((a + b).drop_last() =~= a + b.drop_last());
        assert((a + b).last() == b.last());
        lemma_run_concat(db, a, b.drop_last());
    }
}

proof fn lemma_run_tags(db: Tables, rows: Seq<TagRow>)
    ensures
        run(db, rows.map_values(|r: TagRow| StatementView::InsertTag(r))) == Some(
            Tables { tags: db.tags + rows, ..db },
        ),
    decreases rows.len(),
{
    let s = rows.map_values(|r: TagRow| StatementView::InsertTag(r));
    if rows.len() == 0 {
        assert(db.tags + rows =~= db.tags);
    } else {
        let head = rows.drop_last();
        lemma_run_tags(db, head);
        assert(s.drop_last() =~= head.map_values(|r: TagRow| StatementView::InsertTag(r)));
        assert((db.tags + head).push(rows.last()) =~= db.tags + rows);
    }
}

proof fn lemma_run_links(db: Tables, rows: Seq<LinkRow>)
    ensures
        run(db, rows.map_values(|r: LinkRow| StatementView::InsertLink(r))) == Some(
            Tables { links: db.links + rows, ..db },
        ),
    decreases rows.len(),
{
    let s = rows.map_values(|r: LinkRow| StatementView::InsertLink(r));
    if rows.len() == 0 {
        assert(db.links + rows =~= db.links);
    } else {
        let head = rows.drop_last();
        lemma_run_links(db, head);
        assert(s.drop_last() =~= head.map_values(|r: LinkRow| StatementView::InsertLink(r)));
        assert((db.links + head).push(rows.last()) =~= db.links + rows);
    }
}

proof fn lemma_run_note(db: Tables, note: NoteView, targets: Seq<Option<Seq<char>>>)
    ensures
        run(db, note_statements(note, targets)) == if has_key(db, note.id) {
            None
        } else {
            Some(
                Tables {
                    notes: db.notes.push(note_row(note)),
                    texts: db.texts.push(text_row(note)),
                    tags: db.tags + tag_rows(note),
                    links: db.links + link_rows(note, targets),
                },
            )
        },
{
    let one = StatementView::InsertNote(note_row(note));
    let two = StatementView::InsertText(text_row(note));
    let rows = seq![one, two];
    let tags = tag_rows(note).map_values(|r: TagRow| StatementView::InsertTag(r));
    let links = link_rows(note, targets).map_values(|r: LinkRow| StatementView::InsertLink(r));
    assert(rows.drop_last() =~= seq![one]);
    assert(seq![one].drop_last() =~= Seq::<StatementView>::empty());
    reveal_with_fuel(run, 3);
    lemma_run_concat(db, rows, tags);
    lemma_run_concat(db, rows + tags, links);
    if !has_key(db, note.id) {
        let d1 = run(db, rows)->0;
        lemma_run_tags(d1, tag_rows(note));
        let d2 = run(db, rows + tags)->0;
        lemma_run_links(d2, link_rows(note, targets));
    }
}

proof fn lemma_run_inserts(notes: Seq<NoteView>, n: nat)
    requires
        n <= notes.len(),
    ensures
        run(empty_tables(), insert_statements(notes, all_targets(notes), n)) == if ids_are_unique(
            notes.take(n as int),
        ) {
            Some(tables_of(notes, n))
        } else {
            None
        },
    decreases n,
{
    if n == 0 {
        assert(tables_of(notes, 0).notes =~= Seq::empty());
        assert(tables_of(notes, 0).texts =~= Seq::empty());
    } else {
        let m = (n - 1) as nat;
        let note = notes[n - 1];
        lemma_run_inserts(notes, m);
        let targets = targets_of(notes, note);
        assert(all_targets(notes)[n - 1] == targets);
        lemma_run_concat(
            empty_tables(),
            insert_statements(notes, all_targets(notes), m),
            note_statements(note, targets),
        );
        let head = notes.take(m as int);
        let all = notes.take(n as int);
        let d = tables_of(notes, m);
        assert(all =~= head.push(note));
        if ids_are_unique(head) {
            lemma_run_note(d, note, targets);
            if has_key(d, note.id) {
                let i = choose|i: int| 0 <= i < d.notes.len() && (#[trigger] d.notes[i]).id
                    == note.id;
                assert(all[i].id == all[m as int].id);
                assert(!ids_are_unique(all));
            } else {
                assert forall|i: int, j: int|
                    0 <= i < all.len() && 0 <= j < all.len() && (#[trigger] all[i]).id == (
                    #[trigger] all[j]).id implies i == j by {
                    if i < m && j < m {
                        assert(head[i].id == head[j].id);
                    } else if i < m {
                        assert(d.notes[i].id == note.id);
                    } else if j < m {
                        assert(d.notes[j].id == note.id);
                    }
                }
                assert(d.notes.push(note_row(note)) =~= tables_of(notes, n).notes);
                assert(d.texts.push(text_row(note)) =~= tables_of(notes, n).texts);
            }
        } else {
            let (i, j) = choose|i: int, j: int|
                0 <= i < head.len() && 0 <= j < head.len() && (#[trigger] head[i]).id == (
                #[trigger] head[j]).id && i != j;
            assert(all[i].id == all[j].id);
        }
    }
}

proof fn lemma_ids_of_permutation(a: Seq<NoteView>, b: Seq<NoteView>)
    requires
        a.to_multiset() == b.to_multiset(),
        ids_are_unique(a),
    ensures
        ids_are_unique(b),
{
    broadcast use vstd::seq_lib::group_to_multiset_ensures;

    assert(a.no_duplicates());
    a.lemma_multiset_has_no_duplicates();
    assert forall|x: NoteView| b.to_multiset().contains(x) implies b.to_multiset().count(x)
        == 1 by {
        assert(a.to_multiset().contains(x));
    }
    b.lemma_multiset_has_no_duplicates_conv();
    assert forall|i: int, j: int|
        0 <= i < b.len() && 0 <= j < b.len() && (#[trigger] b[i]).id == (#[trigger] b[j]).id implies i
        == j by {
        assert(b.contains(b[i]) && b.contains(b[j]));
        assert(b.to_multiset().count(b[i]) > 0 && b.to_multiset().count(b[j]) > 0);
        assert(a.contains(b[i]) && a.contains(b[j]));
        let p = choose|p: int| 0 <= p < a.len() && a[p] == b[i];
        let q = choose|q: int| 0 <= q < a.len() && a[q] == b[j];
        assert(a[p].id == a[q].id);
    }
}

/// What a rebuild leaves in the index: the rows of all notes, in the order of
/// their paths, and no others; or, if two notes have one id, a failure.
pub proof fn law_rebuild_writes_every_note(db: Tables, notes: Seq<NoteView>)
    ensures
        run(db, rebuild_statements(notes)) == if ids_are_unique(notes) {
            Some(tables_of(by_path(notes), notes.len()))
        } else {
            None
        },
{
    broadcast use vstd::seq_lib::group_to_multiset_ensures;

    let ordered = by_path(notes);
    law_order_keeps_the_notes(notes);
    assert(ordered.to_multiset().len() == ordered.len());
    assert(notes.to_multiset().len() == notes.len());
    let wipe = seq![StatementView::Wipe];
    assert(wipe.drop_last() =~= Seq::<StatementView>::empty());
    reveal_with_fuel(run, 2);
    lemma_run_concat(
        db,
        wipe,
        insert_statements(ordered, all_targets(ordered), notes.len()),
    );
    lemma_run_inserts(ordered, notes.len());
    assert(ordered.take(notes.len() as int) =~= ordered);
    if ids_are_unique(notes) {
        lemma_ids_of_permutation(notes, ordered);
    } else if ids_are_unique(ordered) {
        lemma_ids_of_permutation(ordered, notes);
    }
}

/// The index is disposable: what a rebuild leaves in it depends on the notes
/// alone, not on what was in it before.
pub proof fn law_index_is_disposable(a: Tables, b: Tables, notes: Seq<NoteView>)
    ensures
        run(a, rebuild_statements(notes)) == run(b, rebuild_statements(notes)),
{
    law_rebuild_writes_every_note(a, notes);
    law_rebuild_writes_every_note(b, notes);
}

/// A rebuild does not depend on the order in which the files were read.
pub proof fn law_rebuild_is_deterministic(a: Seq<NoteView>, b: Seq<NoteView>)
    requires
        a.to_multiset() == b.to_multiset(),
        paths_are_unique(a),
    ensures
        rebuild_statements(a) == rebuild_statements(b),
{
    broadcast use vstd::seq_lib::group_to_multiset_ensures;

    law_walk_order_is_irrelevant(a, b);
    assert(a.to_multiset().len() == a.len());
    assert(b.to_multiset().len() == b.len());
}

/// How many of the links have no target.
pub open spec fn dangling_rows(links: Seq<LinkRow>) -> nat
    decreases links.len(),
{
    if links.len() == 0 {
        0
    } else {
        dangling_rows(links.drop_last()) + if links.last().target_id is None {
            1nat
        } else {
            0nat
        }
    }
}

proof fn lemma_dangling_concat(a: Seq<LinkRow>, b: Seq<LinkRow>)
    ensures
        dangling_rows(a + b) == dangling_rows(a) + dangling_rows(b),
    decreases b.len(),
{
    if b.len() == 0 {
        assert(a + b =~= a);
    } else {
        assert((a + b).drop_last() =~= a + b.drop_last());
        lemma_dangling_concat(a, b.drop_last());
    }
}

proof fn lemma_missing(note: NoteView, targets: Seq<Option<Seq<char>>>, n: nat)
    requires
        n <= note.link_titles.len(),
        targets.len() == note.link_titles.len(),
    ensures
        dangling_rows(link_rows(note, targets).take(n as int)) == missing(targets.take(n as int)),
    decreases n,
{
    if n > 0 {
        let rows = link_rows(note, targets);
        lemma_missing(note, targets, (n - 1) as nat);
        assert(rows.take(n as int).drop_last() =~= rows.take(n - 1));
        assert(targets.take(n as int).drop_last() =~= targets.take(n - 1));
    }
}

/// What a rebuild counts is what is in the tables.
pub proof fn law_stats_count_the_rows(notes: Seq<NoteView>, n: nat)
    requires
        n <= notes.len(),
    ensures
        tables_of(notes, n).notes.len() == n,
        tables_of(notes, n).texts.len() == n,
        tables_of(notes, n).tags.len() == tag_count(notes, n),
        tables_of(notes, n).links.len() == link_count(notes, n),
        dangling_rows(tables_of(notes, n).links) == dangling_count(all_targets(notes), n),
        dangling_count(all_targets(notes), n) <= link_count(notes, n),
    decreases n,
{
    if n > 0 {
        let m = (n - 1) as nat;
        let note = notes[n - 1];
        law_stats_count_the_rows(notes, m);
        let targets = targets_of(notes, note);
        let rows = link_rows(note, targets);
        let k = note.link_titles.len();
        assert(all_targets(notes)[n - 1] == targets);
        lemma_missing(note, targets, k);
        assert(rows.take(k as int) =~= rows);
        assert(targets.take(k as int) =~= targets);
        lemma_dangling_concat(all_link_rows(notes, m), rows);
        lemma_dangling_bound(rows);
    }
}

proof fn lemma_dangling_bound(links: Seq<LinkRow>)
    ensures
        dangling_rows(links) <= links.len(),
    decreases links.len(),
{
    if links.len() > 0 {
        lemma_dangling_bound(links.drop_last());
    }
}

/// A link points to the first of the notes whose title is its own up to letter
/// case and white space, and it dangles exactly if there is none. The notes of
/// the index are in the order of their paths.
pub proof fn law_first_note_by_path_wins(notes: Seq<NoteView>, title: Seq<char>)
    ensures
        match resolve(notes, title) {
            Some(id) => exists|i: int|
                {
                    &&& 0 <= i < notes.len()
                    &&& (#[trigger] notes[i]).id == id
                    &&& title_key(notes[i].title) == title_key(title)
                    &&& forall|j: int|
                        0 <= j < i ==> title_key((#[trigger] notes[j]).title) != title_key(title)
                },
            None => forall|j: int|
                0 <= j < notes.len() ==> title_key((#[trigger] notes[j]).title) != title_key(title),
        },
{
    let keys = title_keys(notes);
    let key = title_key(title);
    lemma_first_of(keys, key);
    match first_of(keys, key) {
        Some(i) => {
            assert(notes[i].id == resolve(notes, title)->0);
            assert forall|j: int| 0 <= j < i implies title_key((#[trigger] notes[j]).title)
                != key by {
                assert(keys[j] != key);
            }
        },
        None => {
            assert forall|j: int| 0 <= j < notes.len() implies title_key(
                (#[trigger] notes[j]).title,
            ) != key by {
                assert(keys[j] != key);
            }
        },
    }
}

/// A link to the title of a note never dangles.
pub proof fn law_link_to_a_note_resolves(notes: Seq<NoteView>, i: int)
    requires
        0 <= i < notes.len(),
    ensures
        resolve(notes, notes[i].title) is Some,
{
    lemma_first_of(title_keys(notes), title_key(notes[i].title));
    assert(title_keys(notes)[i] == title_key(notes[i].title));
}

/// A link to the title of a note resolves however it is capitalised: stated of
/// ASCII titles, where their keys are known letter for letter, as `reindex`
/// says of all that it takes in.
pub proof fn law_link_resolves_in_any_case(notes: Seq<NoteView>, i: int, title: Seq<char>)
    requires
        0 <= i < notes.len(),
        vstd::utf8::is_ascii_chars(title),
        vstd::utf8::is_ascii_chars(notes[i].title),
        ascii_lowered(title) == ascii_lowered(notes[i].title),
    ensures
        has_plain_key(title) && has_plain_key(notes[i].title) ==> resolve(notes, title) is Some
            && resolve(notes, title) == resolve(notes, notes[i].title),
{
    law_titles_match_in_any_case(title, notes[i].title);
    law_link_to_a_note_resolves(notes, i);
}

proof fn lemma_link_rows(notes: Seq<NoteView>, n: nat)
    requires
        n <= notes.len(),
    ensures
        forall|k: int|
            0 <= k < all_link_rows(notes, n).len() ==> {
                let r = #[trigger] all_link_rows(notes, n)[k];
                &&& r.target_id == resolve(notes, r.target_title)
                &&& exists|i: int| 0 <= i < n && (#[trigger] notes[i]).id == r.source_id
            },
    decreases n,
{
    if n > 0 {
        let m = (n - 1) as nat;
        lemma_link_rows(notes, m);
        let rows = all_link_rows(notes, n);
        let head = all_link_rows(notes, m);
        assert forall|k: int| 0 <= k < rows.len() implies {
            let r = #[trigger] rows[k];
            &&& r.target_id == resolve(notes, r.target_title)
            &&& exists|i: int| 0 <= i < n && (#[trigger] notes[i]).id == r.source_id
        } by {
            if k < head.len() {
                assert(rows[k] == head[k]);
                let i = choose|i: int| 0 <= i < m && (#[trigger] notes[i]).id == head[k].source_id;
                assert(0 <= i < n && notes[i].id == rows[k].source_id);
            } else {
                let last = notes[n - 1];
                assert(rows[k] == link_rows(last, targets_of(notes, last))[k - head.len()]);
                assert(notes[n - 1].id == rows[k].source_id);
            }
        }
    }
}

/// Whether a link with the title `title` has the right target among `notes`: a
/// note with that title, up to letter case and white space, such that no other
/// with that title has a lesser path; or none, exactly if no note has the title.
pub open spec fn is_target(
    notes: Seq<NoteView>,
    title: Seq<char>,
    target_id: Option<Seq<char>>,
) -> bool {
    match target_id {
        Some(id) => exists|i: int|
            {
                &&& 0 <= i < notes.len()
                &&& (#[trigger] notes[i]).id == id
                &&& title_key(notes[i].title) == title_key(title)
                &&& forall|j: int|
                    0 <= j < notes.len() && title_key((#[trigger] notes[j]).title) == title_key(
                        title,
                    ) ==> !string_less(notes[j].rel_path, notes[i].rel_path)
            },
        None => forall|j: int|
            0 <= j < notes.len() ==> title_key((#[trigger] notes[j]).title) != title_key(title),
    }
}

/// Every link that a rebuild writes has its target: the note with its title and
/// the least path. It dangles exactly if no note has its title.
pub proof fn law_links_point_to_the_least_path(notes: Seq<NoteView>)
    ensures
        ({
            let db = tables_of(by_path(notes), notes.len());
            forall|k: int|
                0 <= k < db.links.len() ==> is_target(
                    notes,
                    (#[trigger] db.links[k]).target_title,
                    db.links[k].target_id,
                )
        }),
{
    broadcast use vstd::seq_lib::group_to_multiset_ensures;

    let ordered = by_path(notes);
    let db = tables_of(ordered, notes.len());
    law_order_keeps_the_notes(notes);
    law_notes_are_ordered(notes);
    assert(ordered.to_multiset().len() == ordered.len());
    assert(notes.to_multiset().len() == notes.len());
    lemma_link_rows(ordered, notes.len());
    assert forall|k: int| 0 <= k < db.links.len() implies is_target(
        notes,
        (#[trigger] db.links[k]).target_title,
        db.links[k].target_id,
    ) by {
        let title = db.links[k].target_title;
        let key = title_key(title);
        law_first_note_by_path_wins(ordered, title);
        assert forall|j: int| 0 <= j < notes.len() implies ordered.contains(
            #[trigger] notes[j],
        ) by {
            assert(notes.to_multiset().count(notes[j]) > 0);
        }
        if resolve(ordered, title) is Some {
            let p = choose|p: int|
                {
                    &&& 0 <= p < ordered.len()
                    &&& (#[trigger] ordered[p]).id == resolve(ordered, title)->0
                    &&& title_key(ordered[p].title) == key
                    &&& forall|q: int|
                        0 <= q < p ==> title_key((#[trigger] ordered[q]).title) != key
                };
            assert(ordered.to_multiset().count(ordered[p]) > 0);
            assert(notes.contains(ordered[p]));
            let i = choose|i: int| 0 <= i < notes.len() && notes[i] == ordered[p];
            assert forall|j: int|
                0 <= j < notes.len() && title_key((#[trigger] notes[j]).title)
                    == key implies !string_less(notes[j].rel_path, notes[i].rel_path) by {
                let q = choose|q: int| 0 <= q < ordered.len() && ordered[q] == notes[j];
                assert(p <= q);
                lemma_less_irreflexive(notes[i].rel_path);
            }
            assert(notes[i].id == db.links[k].target_id->0);
        } else {
            assert forall|j: int| 0 <= j < notes.len() implies title_key(
                (#[trigger] notes[j]).title,
            ) != key by {
                let q = choose|q: int| 0 <= q < ordered.len() && ordered[q] == notes[j];
                assert(title_key(ordered[q].title) != key);
            }
        }
    }
}

/// Every link in the index starts at a note of the index, and ends at one unless
/// it dangles.
pub proof fn law_links_join_notes(notes: Seq<NoteView>)
    ensures
        ({
            let db = tables_of(notes, notes.len());
            forall|k: int|
                0 <= k < db.links.len() ==> {
                    let r = #[trigger] db.links[k];
                    &&& has_key(db, r.source_id)
                    &&& r.target_id matches Some(id) ==> has_key(db, id)
                }
        }),
{
    let db = tables_of(notes, notes.len());
    lemma_link_rows(notes, notes.len());
    assert forall|k: int| 0 <= k < db.links.len() implies {
        let r = #[trigger] db.links[k];
        &&& has_key(db, r.source_id)
        &&& r.target_id matches Some(id) ==> has_key(db, id)
    } by {
        let r = db.links[k];
        let i = choose|i: int| 0 <= i < notes.len() && (#[trigger] notes[i]).id == r.source_id;
        assert(db.notes[i].id == r.source_id);
        if r.target_id is Some {
            law_first_note_by_path_wins(notes, r.target_title);
            let j = choose|j: int| 0 <= j < notes.len() && (#[trigger] notes[j]).id
                == r.target_id->0;
            assert(db.notes[j].id == r.target_id->0);
        }
    }
}

/// A note is found again by its id: after a rebuild there is one row with that
/// id, and it is the note's own.
pub proof fn law_note_is_found_by_its_id(notes: Seq<NoteView>, note: NoteView, k: int)
    requires
        ids_are_unique(notes),
        notes.contains(note),
        0 <= k < tables_of(by_path(notes), notes.len()).notes.len(),
    ensures
        has_key(tables_of(by_path(notes), notes.len()), note.id),
        tables_of(by_path(notes), notes.len()).notes[k].id == note.id ==> tables_of(
            by_path(notes),
            notes.len(),
        ).notes[k] == note_row(note),
{
    broadcast use vstd::seq_lib::group_to_multiset_ensures;

    let ordered = by_path(notes);
    law_order_keeps_the_notes(notes);
    assert(ordered.to_multiset().len() == ordered.len());
    assert(notes.to_multiset().len() == notes.len());
    lemma_ids_of_permutation(notes, ordered);
    assert(notes.to_multiset().count(note) > 0);
    assert(ordered.contains(note));
    let i = choose|i: int| 0 <= i < ordered.len() && ordered[i] == note;
    let db = tables_of(ordered, notes.len());
    assert(ordered.take(notes.len() as int) =~= ordered);
    assert(db.notes[i].id == note.id);
    if db.notes[k].id == note.id {
        assert(ordered[k].id == ordered[i].id);
    }
}

proof fn lemma_tag_rows_of(notes: Seq<NoteView>, n: nat, i: int, k: int)
    requires
        0 <= i < n,
        0 <= k < notes[i].tags.len(),
    ensures
        tag_count(notes, i as nat) + k < all_tag_rows(notes, n).len(),
        all_tag_rows(notes, n).len() == tag_count(notes, n),
        all_tag_rows(notes, n)[tag_count(notes, i as nat) + k].note_id == notes[i].id,
        all_tag_rows(notes, n)[tag_count(notes, i as nat) + k].tag == notes[i].tags[k],
    decreases n,
{
    lemma_tag_rows_len(notes, (n - 1) as nat);
    if i < n - 1 {
        lemma_tag_rows_of(notes, (n - 1) as nat, i, k);
    } else {
        assert(all_tag_rows(notes, n)[tag_count(notes, i as nat) + k] == tag_rows(notes[i])[k]);
    }
}

proof fn lemma_tag_rows_len(notes: Seq<NoteView>, n: nat)
    ensures
        all_tag_rows(notes, n).len() == tag_count(notes, n),
    decreases n,
{
    if n > 0 {
        lemma_tag_rows_len(notes, (n - 1) as nat);
    }
}

proof fn lemma_link_rows_of(notes: Seq<NoteView>, n: nat, i: int, k: int)
    requires
        0 <= i < n,
        0 <= k < notes[i].link_titles.len(),
    ensures
        link_count(notes, i as nat) + k < all_link_rows(notes, n).len(),
        all_link_rows(notes, n).len() == link_count(notes, n),
        all_link_rows(notes, n)[link_count(notes, i as nat) + k].source_id == notes[i].id,
        all_link_rows(notes, n)[link_count(notes, i as nat) + k].target_title
            == notes[i].link_titles[k],
    decreases n,
{
    lemma_link_rows_len(notes, (n - 1) as nat);
    let last = notes[n - 1];
    let rows = link_rows(last, targets_of(notes, last));
    assert(rows.len() == last.link_titles.len());
    if i < n - 1 {
        lemma_link_rows_of(notes, (n - 1) as nat, i, k);
    } else {
        assert(all_link_rows(notes, n)[link_count(notes, i as nat) + k] == rows[k]);
    }
}

proof fn lemma_link_rows_len(notes: Seq<NoteView>, n: nat)
    ensures
        all_link_rows(notes, n).len() == link_count(notes, n),
    decreases n,
{
    if n > 0 {
        lemma_link_rows_len(notes, (n - 1) as nat);
    }
}

proof fn lemma_rebuilt(db: Tables, notes: Seq<NoteView>)
    requires
        run(db, rebuild_statements(notes)) is Some,
    ensures
        run(db, rebuild_statements(notes))->0 == tables_of(by_path(notes), notes.len()),
        by_path(notes).len() == notes.len(),
        by_path(notes).take(notes.len() as int) == by_path(notes),
{
    broadcast use vstd::seq_lib::group_to_multiset_ensures;

    law_rebuild_writes_every_note(db, notes);
    law_order_keeps_the_notes(notes);
    assert(by_path(notes).to_multiset().len() == by_path(notes).len());
    assert(notes.to_multiset().len() == notes.len());
    assert(by_path(notes).take(notes.len() as int) =~= by_path(notes));
}

/// After a rebuild the `i`th row of the notes is the `i`th note by path, value
/// for value, and there is a row for each note and no other.
pub proof fn law_note_rows_hold_the_notes(db: Tables, notes: Seq<NoteView>, i: int)
    requires
        run(db, rebuild_statements(notes)) is Some,
        0 <= i < notes.len(),
    ensures
        ({
            let rows = run(db, rebuild_statements(notes))->0.notes;
            let note = by_path(notes)[i];
            &&& rows.len() == notes.len()
            &&& rows[i].id == note.id
            &&& rows[i].path == note.rel_path
            &&& rows[i].title == note.title
            &&& rows[i].para == note.para
            &&& rows[i].favorite == note.favorite
            &&& rows[i].created == note.created
            &&& rows[i].updated == note.updated
            &&& rows[i].body == note.body
        }),
{
    lemma_rebuilt(db, notes);
}

/// After a rebuild a search sees the whole of every note: the `i`th row of the
/// full text has the id, the title and the whole body of the `i`th note by
/// path.
pub proof fn law_full_text_holds_the_whole_note(db: Tables, notes: Seq<NoteView>, i: int)
    requires
        run(db, rebuild_statements(notes)) is Some,
        0 <= i < notes.len(),
    ensures
        ({
            let rows = run(db, rebuild_statements(notes))->0.texts;
            let note = by_path(notes)[i];
            &&& rows.len() == notes.len()
            &&& rows[i].id == note.id
            &&& rows[i].title == note.title
            &&& rows[i].body == note.body
        }),
{
    lemma_rebuilt(db, notes);
}

/// After a rebuild every tag of every note has its row, behind those of the
/// notes and the tags before it, and there is no other row.
pub proof fn law_every_tag_has_its_row(db: Tables, notes: Seq<NoteView>, i: int, k: int)
    requires
        run(db, rebuild_statements(notes)) is Some,
        0 <= i < notes.len(),
        0 <= k < by_path(notes)[i].tags.len(),
    ensures
        ({
            let rows = run(db, rebuild_statements(notes))->0.tags;
            let note = by_path(notes)[i];
            let r = rows[tag_count(by_path(notes), i as nat) + k];
            &&& rows.len() == tag_count(by_path(notes), notes.len())
            &&& r.note_id == note.id
            &&& r.tag == note.tags[k]
        }),
{
    lemma_rebuilt(db, notes);
    lemma_tag_rows_of(by_path(notes), notes.len(), i, k);
}

/// After a rebuild every link of every note has its row, behind those of the
/// notes and the links before it, with its title as it was written and its
/// right target; and there is no other row.
pub proof fn law_every_link_has_its_row(db: Tables, notes: Seq<NoteView>, i: int, k: int)
    requires
        run(db, rebuild_statements(notes)) is Some,
        0 <= i < notes.len(),
        0 <= k < by_path(notes)[i].link_titles.len(),
    ensures
        ({
            let rows = run(db, rebuild_statements(notes))->0.links;
            let note = by_path(notes)[i];
            let r = rows[link_count(by_path(notes), i as nat) + k];
            &&& rows.len() == link_count(by_path(notes), notes.len())
            &&& r.source_id == note.id
            &&& r.target_title == note.link_titles[k]
            &&& is_target(notes, r.target_title, r.target_id)
        }),
{
    lemma_rebuilt(db, notes);
    lemma_link_rows_of(by_path(notes), notes.len(), i, k);
    law_links_point_to_the_least_path(notes);
}

/// A rebuild leaves as many rows as there are notes, tags and links.
pub proof fn law_no_row_comes_from_nowhere(db: Tables, notes: Seq<NoteView>)
    requires
        run(db, rebuild_statements(notes)) is Some,
    ensures
        ({
            let d = run(db, rebuild_statements(notes))->0;
            &&& d.notes.len() == notes.len()
            &&& d.texts.len() == notes.len()
            &&& d.tags.len() == tag_count(by_path(notes), notes.len())
            &&& d.links.len() == link_count(by_path(notes), notes.len())
        }),
{
    lemma_rebuilt(db, notes);
    lemma_tag_rows_len(by_path(notes), notes.len());
    lemma_link_rows_len(by_path(notes), notes.len());
}

/// What a rebuild does to the tables, statement by statement: a wipe leaves no
/// row in any of them, and an insertion adds its row at the end of its table
/// and leaves the others alone.
pub proof fn law_statements_write_one_row(
    db: Tables,
    n: NoteRow,
    t: TextRow,
    g: TagRow,
    l: LinkRow,
)
    ensures
        written(db, StatementView::Wipe) matches Some(d) && d.notes.len() == 0 && d.texts.len() == 0
            && d.tags.len() == 0 && d.links.len() == 0,
        written(db, StatementView::InsertNote(n)) is Some <==> forall|i: int|
            0 <= i < db.notes.len() ==> (#[trigger] db.notes[i]).id != n.id,
        written(db, StatementView::InsertNote(n)) matches Some(d) ==> d.notes == db.notes.push(n)
            && d.texts == db.texts && d.tags == db.tags && d.links == db.links,
        written(db, StatementView::InsertText(t)) matches Some(d) && d.texts == db.texts.push(t)
            && d.notes == db.notes && d.tags == db.tags && d.links == db.links,
        written(db, StatementView::InsertTag(g)) matches Some(d) && d.tags == db.tags.push(g)
            && d.notes == db.notes && d.texts == db.texts && d.links == db.links,
        written(db, StatementView::InsertLink(l)) matches Some(d) && d.links == db.links.push(l)
            && d.notes == db.notes && d.texts == db.texts && d.tags == db.tags,
{
}

} // verus!
