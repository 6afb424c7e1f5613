//! The index over the notes: a cache that is wiped and rebuilt from the files.
//! `reindex` says what a rebuild writes: the rows of every note, and its links
//! resolved by title to the notes that they point to.
use vstd::prelude::*;

use crate::note::NoteRecord;
use crate::order::path_order;
use crate::titles::{normalize_title, TitleIndex};
#[allow(unused_imports)]
use crate::note::NoteView;
#[allow(unused_imports)]
use crate::order::{by_path, law_order_keeps_the_notes, notes_of, picked};
#[allow(unused_imports)]
use crate::paths::str_of;
#[allow(unused_imports)]
use crate::titles::{first_of, has_plain_key, title_key};

verus! {

/// What a rebuild of the index has counted.
#[derive(Clone, Copy, Debug, PartialEq, Eq, Structural)]
pub struct IndexStats {
    pub notes: usize,
    pub links: usize,
    pub tags: usize,
    pub dangling_links: usize,
}

impl Default for IndexStats {
    fn default() -> (r: IndexStats)
        ensures
            r == (IndexStats { notes: 0, links: 0, tags: 0, dangling_links: 0 }),
    {
        IndexStats { notes: 0, links: 0, tags: 0, dangling_links: 0 }
    }
}

/// One write to the database of the index.
#[derive(Debug)]
pub enum Statement<'a> {
    /// Deletes every row of every table.
    Wipe,
    /// Inserts a row into `notes`.
    InsertNote {
        id: &'a str,
        path: &'a str,
        title: &'a str,
        para: &'a str,
        favorite: bool,
        created: &'a str,
        updated: &'a str,
        body: &'a str,
    },
    /// Inserts a row into `notes_fts`, the full-text table.
    InsertText { id: &'a str, title: &'a str, body: &'a str },
    /// Inserts a row into `tags`.
    InsertTag { note_id: &'a str, tag: &'a str },
    /// Inserts a row into `note_links`; a link without a target dangles.
    InsertLink { source_id: &'a str, target_title: &'a str, target_id: Option<&'a str> },
}

/// The value of a `Statement`.
pub ghost enum StatementView {
    Wipe,
    InsertNote(NoteRow),
    InsertText(TextRow),
    InsertTag(TagRow),
    InsertLink(LinkRow),
}

/// A row of `notes`.
pub ghost struct NoteRow {
    pub id: Seq<char>,
    pub path: Seq<char>,
    pub title: Seq<char>,
    pub para: Seq<char>,
    pub favorite: bool,
    pub created: Seq<char>,
    pub updated: Seq<char>,
    pub body: Seq<char>,
}

/// A row of `notes_fts`.
pub ghost struct TextRow {
    pub id: Seq<char>,
    pub title: Seq<char>,
    pub body: Seq<char>,
}

/// A row of `tags`.
pub ghost struct TagRow {
    pub note_id: Seq<char>,
    pub tag: Seq<char>,
}

/// A row of `note_links`.
pub ghost struct LinkRow {
    pub source_id: Seq<char>,
    pub target_title: Seq<char>,
    pub target_id: Option<Seq<char>>,
}

impl<'a> View for Statement<'a> {
    type V = StatementView;

    open spec fn view(&self) -> StatementView {
        match *self {
            Statement::Wipe => StatementView::Wipe,
            Statement::InsertNote { id, path, title, para, favorite, created, updated, body } => {
                StatementView::InsertNote(
                    NoteRow {
                        id: id@,
                        path: path@,
                        title: title@,
                        para: para@,
                        favorite,
                        created: created@,
                        updated: updated@,
                        body: body@,
                    },
                )
            },
            Statement::InsertText { id, title, body } => StatementView::InsertText(
                TextRow { id: id@, title: title@, body: body@ },
            ),
            Statement::InsertTag { note_id, tag } => StatementView::InsertTag(
                TagRow { note_id: note_id@, tag: tag@ },
            ),
            Statement::InsertLink { source_id, target_title, target_id } => {
                StatementView::InsertLink(
                    LinkRow {
                        source_id: source_id@,
                        target_title: target_title@,
                        target_id: str_of(target_id),
                    },
                )
            },
        }
    }
}

/// The values of a list of statements.
pub open spec fn statements_of(s: Seq<Statement>) -> Seq<StatementView> {
    s.map_values(|t: Statement| t@)
}

/// What a rebuild writes, in its order, and what it counts.
#[derive(Debug)]
pub struct Plan<'a> {
    pub statements: Vec<Statement<'a>>,
    pub stats: IndexStats,
}

/// The keys of the titles of some notes.
pub open spec fn title_keys(notes: Seq<NoteView>) -> Seq<Seq<char>> {
    notes.map_values(|n: NoteView| title_key(n.title))
}

/// The id of the note that a link with the title `title` points to: the first of
/// the notes with that title.
pub open spec fn resolve(notes: Seq<NoteView>, title: Seq<char>) -> Option<Seq<char>> {
    match first_of(title_keys(notes), title_key(title)) {
        Some(i) => Some(notes[i].id),
        None => None,
    }
}

/// The ids of the notes that the links of `note` point to.
pub open spec fn targets_of(notes: Seq<NoteView>, note: NoteView) -> Seq<Option<Seq<char>>> {
    note.link_titles.map_values(|t: Seq<char>| resolve(notes, t))
}

/// The ids of the notes that the links of every note point to.
pub open spec fn all_targets(notes: Seq<NoteView>) -> Seq<Seq<Option<Seq<char>>>> {
    notes.map_values(|n: NoteView| targets_of(notes, n))
}

/// The row of a note.
pub open spec fn note_row(note: NoteView) -> NoteRow {
    NoteRow {
        id: note.id,
        path: note.rel_path,
        title: note.title,
        para: note.para,
        favorite: note.favorite,
        created: note.created,
        updated: note.updated,
        body: note.body,
    }
}

/// The full-text row of a note.
pub open spec fn text_row(note: NoteView) -> TextRow {
    TextRow { id: note.id, title: note.title, body: note.body }
}

/// The rows of the tags of a note.
pub open spec fn tag_rows(note: NoteView) -> Seq<TagRow> {
    note.tags.map_values(|t: Seq<char>| TagRow { note_id: note.id, tag: t })
}

/// The rows of the links of a note that point to `targets`.
pub open spec fn link_rows(note: NoteView, targets: Seq<Option<Seq<char>>>) -> Seq<LinkRow> {
    Seq::new(
        note.link_titles.len(),
        |k: int|
            LinkRow {
                source_id: note.id,
                target_title: note.link_titles[k],
                target_id: targets[k],
            },
    )
}

/// The statements that write a note whose links point to `targets`.
pub open spec fn note_statements(note: NoteView, targets: Seq<Option<Seq<char>>>) -> Seq<
    StatementView,
> {
    seq![StatementView::InsertNote(note_row(note)), StatementView::InsertText(text_row(note))]
        + tag_rows(note).map_values(|r: TagRow| StatementView::InsertTag(r)) + link_rows(
        note,
        targets,
    ).map_values(|r: LinkRow| StatementView::InsertLink(r))
}

/// The statements that write the first `n` of the notes.
pub open spec fn insert_statements(
    notes: Seq<NoteView>,
    targets: Seq<Seq<Option<Seq<char>>>>,
    n: nat,
) -> Seq<StatementView>
    decreases n,
{
    if n == 0 {
        Seq::empty()
    } else {
        insert_statements(notes, targets, (n - 1) as nat) + note_statements(
            notes[n - 1],
            targets[n - 1],
        )
    }
}

/// What a rebuild from `notes` writes: the tables are wiped, then every note is
/// inserted, in the order of the paths, with the first note by path as the
/// target of a link.
pub open spec fn rebuild_statements(notes: Seq<NoteView>) -> Seq<StatementView> {
    seq![StatementView::Wipe] + insert_statements(
        by_path(notes),
        all_targets(by_path(notes)),
        notes.len(),
    )
}

/// How many tags the first `n` of the notes have.
pub open spec fn tag_count(notes: Seq<NoteView>, n: nat) -> nat
    decreases n,
{
    if n == 0 {
        0
    } else {
        tag_count(notes, (n - 1) as nat) + notes[n - 1].tags.len()
    }
}

/// How many links the first `n` of the notes have.
pub open spec fn link_count(notes: Seq<NoteView>, n: nat) -> nat
    decreases n,
{
    if n == 0 {
        0
    } else {
        link_count(notes, (n - 1) as nat) + notes[n - 1].link_titles.len()
    }
}

/// How many of the targets are missing.
pub open spec fn missing(targets: Seq<Option<Seq<char>>>) -> nat
    decreases targets.len(),
{
    if targets.len() == 0 {
        0
    } else {
        missing(targets.drop_last()) + if targets.last() is None {
            1nat
        } else {
            0nat
        }
    }
}

/// How many links of the first `n` notes dangle.
pub open spec fn dangling_count(targets: Seq<Seq<Option<Seq<char>>>>, n: nat) -> nat
    decreases n,
{
    if n == 0 {
        0
    } else {
        dangling_count(targets, (n - 1) as nat) + missing(targets[n - 1])
    }
}

/// The ids of the notes at `places`.
pub open spec fn ids_at(notes: Seq<NoteView>, places: Seq<Option<usize>>) -> Seq<
    Option<Seq<char>>,
> {
    places.map_values(
        |p: Option<usize>|
            match p {
                Some(i) => Some(notes[i as int].id),
                None => None,
            },
    )
}

/// The ids of the notes at the places to which the links of every note point.
pub open spec fn all_ids_at(notes: Seq<NoteView>, places: Seq<Vec<Option<usize>>>) -> Seq<
    Seq<Option<Seq<char>>>,
> {
    places.map_values(|v: Vec<Option<usize>>| ids_at(notes, v@))
}

/// The statements for the first `n` tags of a note.
spec fn tag_statements(note: NoteView, n: int) -> Seq<StatementView> {
    tag_rows(note).take(n).map_values(|r: TagRow| StatementView::InsertTag(r))
}

/// The statements for the first `n` links of a note.
spec fn link_statements(note: NoteView, targets: Seq<Option<Seq<char>>>, n: int) -> Seq<
    StatementView,
> {
    link_rows(note, targets).take(n).map_values(|r: LinkRow| StatementView::InsertLink(r))
}

/// Adds the row and the full-text row of a note.
fn push_rows<'a>(out: &mut Vec<Statement<'a>>, note: &'a NoteRecord)
    ensures
        statements_of(final(out)@) == statements_of(old(out)@) + seq![
            StatementView::InsertNote(note_row(note@)),
            StatementView::InsertText(text_row(note@)),
        ],
{
    out.push(
        Statement::InsertNote {
            id: note.id.as_str(),
            path: note.rel_path.as_str(),
            title: note.title.as_str(),
            para: note.para.as_str(),
            favorite: note.favorite,
            created: note.created.as_str(),
            updated: note.updated.as_str(),
            body: note.body.as_str(),
        },
    );
    out.push(
        Statement::InsertText {
            id: note.id.as_str(),
            title: note.title.as_str(),
            body: note.body.as_str(),
        },
    );
    assert(statements_of(out@) =~= statements_of(old(out)@) + seq![
        StatementView::InsertNote(note_row(note@)),
        StatementView::InsertText(text_row(note@)),
    ]);
}

/// Adds the tags of a note.
fn push_tags<'a>(out: &mut Vec<Statement<'a>>, note: &'a NoteRecord)
    ensures
        statements_of(final(out)@) == statements_of(old(out)@) + tag_rows(note@).map_values(
            |r: TagRow| StatementView::InsertTag(r),
        ),
{
    let ghost start = statements_of(out@);
    let mut i: usize = 0;
    assert(start + tag_statements(note@, 0) =~= start);
    while i < note.tags.len()
        invariant
            i <= note.tags@.len(),
            statements_of(out@) == start + tag_statements(note@, i as int),
        decreases note.tags@.len() - i,
    {
        let ghost before = out@;
        out.push(Statement::InsertTag { note_id: note.id.as_str(), tag: note.tags[i].as_str() });
        assert(statements_of(out@) =~= statements_of(before).push(
            StatementView::InsertTag(tag_rows(note@)[i as int]),
        ));
        assert(tag_statements(note@, i + 1) =~= tag_statements(note@, i as int).push(
            StatementView::InsertTag(tag_rows(note@)[i as int]),
        ));
        i += 1;
        assert(statements_of(out@) =~= start + tag_statements(note@, i as int));
    }
    assert(tag_rows(note@).take(i as int) =~= tag_rows(note@));
}

/// Adds the links of a note to the notes at `places`, and counts those that
/// dangle.
fn push_links<'a>(
    out: &mut Vec<Statement<'a>>,
    records: &'a Vec<NoteRecord>,
    order: &Vec<usize>,
    places: &Vec<Option<usize>>,
    note: &'a NoteRecord,
) -> (dangling: usize)
    requires
        order@.len() == records@.len(),
        forall|i: int| 0 <= i < order@.len() ==> #[trigger] order@[i] < records@.len(),
        places@.len() == note.link_titles@.len(),
        forall|k: int|
            0 <= k < places@.len() ==> (#[trigger] places@[k] matches Some(p) ==> p < order@.len()),
    ensures
        statements_of(final(out)@) == statements_of(old(out)@) + link_rows(
            note@,
            ids_at(picked(notes_of(records@), order@), places@),
        ).map_values(|r: LinkRow| StatementView::InsertLink(r)),
        dangling == missing(ids_at(picked(notes_of(records@), order@), places@)),
        dangling <= note.link_titles@.len(),
{
    let ghost notes = picked(notes_of(records@), order@);
    let ghost targets = ids_at(notes, places@);
    let ghost start = statements_of(out@);
    let mut dangling: usize = 0;
    let mut i: usize = 0;
    assert(start + link_statements(note@, targets, 0) =~= start);
    while i < note.link_titles.len()
        invariant
            i <= note.link_titles@.len(),
            dangling <= i,
            order@.len() == records@.len(),
            forall|i: int| 0 <= i < order@.len() ==> #[trigger] order@[i] < records@.len(),
            places@.len() == note.link_titles@.len(),
            forall|k: int|
                0 <= k < places@.len() ==> (#[trigger] places@[k] matches Some(p) ==> p
                    < order@.len()),
            notes == picked(notes_of(records@), order@),
            targets == ids_at(notes, places@),
            statements_of(out@) == start + link_statements(note@, targets, i as int),
            dangling == missing(targets.take(i as int)),
        decreases note.link_titles@.len() - i,
    {
        let title = note.link_titles[i].as_str();
        let target_id: Option<&'a str> = match places[i] {
            Some(place) => Some(records[order[place]].id.as_str()),
            None => None,
        };
        assert(note@.link_titles[i as int] == title@);
        assert(str_of(target_id) == targets[i as int]);
        assert(targets.take(i + 1).drop_last() =~= targets.take(i as int));
        if target_id.is_none() {
            dangling += 1;
        }
        let ghost before = out@;
        out.push(Statement::InsertLink { source_id: note.id.as_str(), target_title: title, target_id });
        assert(statements_of(out@) =~= statements_of(before).push(
            StatementView::InsertLink(link_rows(note@, targets)[i as int]),
        ));
        assert(link_statements(note@, targets, i + 1) =~= link_statements(
            note@,
            targets,
            i as int,
        ).push(StatementView::InsertLink(link_rows(note@, targets)[i as int])));
        i += 1;
        assert(statements_of(out@) =~= start + link_statements(note@, targets, i as int));
    }
    assert(link_rows(note@, targets).take(i as int) =~= link_rows(note@, targets));
    assert(targets.take(i as int) =~= targets);
    dangling
}

/// Plans a rebuild of the notes in the order `order`, their links pointing to
/// the places `places` in that order: what is written to the database, in its
/// order, and how much of everything there is.
pub fn rebuild_plan<'a>(
    records: &'a Vec<NoteRecord>,
    order: &Vec<usize>,
    places: &Vec<Vec<Option<usize>>>,
) -> (plan: Plan<'a>)
    requires
        order@.len() == records@.len(),
        places@.len() == records@.len(),
        forall|i: int| 0 <= i < order@.len() ==> #[trigger] order@[i] < records@.len(),
        forall|i: int|
            0 <= i < places@.len() ==> (#[trigger] places@[i])@.len()
                == records@[order@[i] as int].link_titles@.len(),
        forall|i: int, k: int|
            0 <= i < places@.len() && 0 <= k < places@[i]@.len() ==> (
            #[trigger] places@[i]@[k] matches Some(p) ==> p < order@.len()),
    ensures
        ({
            let notes = picked(notes_of(records@), order@);
            let targets = all_ids_at(notes, places@);
            let n = records@.len();
            &&& statements_of(plan.statements@) == seq![StatementView::Wipe] + insert_statements(
                notes,
                targets,
                n,
            )
            &&& plan.stats.notes == n
            &&& plan.stats.tags == tag_count(notes, n)
            &&& plan.stats.links == link_count(notes, n)
            &&& plan.stats.dangling_links == dangling_count(targets, n)
        }),
{
    let ghost notes = picked(notes_of(records@), order@);
    let ghost targets = all_ids_at(notes, places@);
    let mut stats = IndexStats::default();
    let mut out: Vec<Statement<'a>> = Vec::new();
    out.push(Statement::Wipe);
    let mut i: usize = 0;
    assert(statements_of(out@) =~= seq![StatementView::Wipe] + insert_statements(
        notes,
        targets,
        0,
    ));
    while i < order.len()
        invariant
            i <= order@.len(),
            order@.len() == records@.len(),
            places@.len() == records@.len(),
            forall|i: int| 0 <= i < order@.len() ==> #[trigger] order@[i] < records@.len(),
            forall|i: int|
                0 <= i < places@.len() ==> (#[trigger] places@[i])@.len()
                    == records@[order@[i] as int].link_titles@.len(),
            forall|i: int, k: int|
                0 <= i < places@.len() && 0 <= k < places@[i]@.len() ==> (
                #[trigger] places@[i]@[k] matches Some(p) ==> p < order@.len()),
            notes == picked(notes_of(records@), order@),
            targets == all_ids_at(notes, places@),
            statements_of(out@) == seq![StatementView::Wipe] + insert_statements(
                notes,
                targets,
                i as nat,
            ),
            stats.notes == i,
            stats.tags == tag_count(notes, i as nat),
            stats.links == link_count(notes, i as nat),
            stats.dangling_links == dangling_count(targets, i as nat),
            stats.dangling_links <= stats.links,
            stats.tags + stats.links <= out@.len(),
        decreases order@.len() - i,
    {
        let note = &records[order[i]];
        let ghost view = note@;
        assert(notes[i as int] == view);
        let ghost before = statements_of(out@);
        push_rows(&mut out, note);
        push_tags(&mut out, note);
        let dangling = push_links(&mut out, records, order, &places[i], note);
        proof {
            assert(targets[i as int] == ids_at(notes, places@[i as int]@));
            assert(statements_of(out@) =~= before + note_statements(view, targets[i as int]));
            assert(out@.len() == statements_of(out@).len());
            assert(before.len() + view.tags.len() + view.link_titles.len() <= out@.len());
            assert(out.len() <= usize::MAX);
        }
        stats.tags = stats.tags + note.tags.len();
        stats.links = stats.links + note.link_titles.len();
        stats.dangling_links = stats.dangling_links + dangling;
        i += 1;
        stats.notes = i;
        assert(statements_of(out@) =~= seq![StatementView::Wipe] + insert_statements(
            notes,
            targets,
            i as nat,
        ));
    }
    Plan { statements: out, stats }
}

/// Whether the keys of the title of a note and of the titles that it links to
/// are known letter for letter, where these are ASCII.
pub open spec fn has_plain_keys(note: NoteView) -> bool {
    &&& has_plain_key(note.title)
    &&& forall|k: int|
        0 <= k < note.link_titles.len() ==> has_plain_key(#[trigger] note.link_titles[k])
}

/// The titles of the notes in the order `order`.
fn title_index(records: &Vec<NoteRecord>, order: &Vec<usize>) -> (titles: TitleIndex)
    requires
        order@.len() == records@.len(),
        forall|i: int| 0 <= i < order@.len() ==> #[trigger] order@[i] < records@.len(),
    ensures
        titles.wf(),
        titles.keys() == title_keys(picked(notes_of(records@), order@)),
        forall|i: int|
            0 <= i < order@.len() ==> has_plain_key(
                (#[trigger] picked(notes_of(records@), order@)[i]).title,
            ),
{
    let ghost notes = picked(notes_of(records@), order@);
    let mut titles = TitleIndex::new();
    let mut i: usize = 0;
    assert(title_keys(notes).take(0) =~= titles.keys());
    while i < order.len()
        invariant
            i <= order@.len(),
            order@.len() == records@.len(),
            forall|j: int| 0 <= j < order@.len() ==> #[trigger] order@[j] < records@.len(),
            notes == picked(notes_of(records@), order@),
            titles.wf(),
            titles.keys() == title_keys(notes).take(i as int),
            forall|j: int| 0 <= j < i ==> has_plain_key((#[trigger] notes[j]).title),
        decreases order@.len() - i,
    {
        assert(notes[i as int].title == records@[order@[i as int] as int].title@);
        titles.insert(normalize_title(records[order[i]].title.as_str()));
        i += 1;
        assert(titles.keys() =~= title_keys(notes).take(i as int));
    }
    assert(title_keys(notes).take(i as int) =~= title_keys(notes));
    titles
}

/// The places of the notes that the links of `note` point to.
fn link_places(
    note: &NoteRecord,
    titles: &TitleIndex,
    Ghost(notes): Ghost<Seq<NoteView>>,
) -> (places: Vec<Option<usize>>)
    requires
        titles.wf(),
        titles.keys() == title_keys(notes),
    ensures
        places@.len() == note.link_titles@.len(),
        forall|k: int|
            0 <= k < places@.len() ==> (#[trigger] places@[k] matches Some(p) ==> p < notes.len()),
        ids_at(notes, places@) == targets_of(notes, note@),
        forall|k: int|
            0 <= k < note@.link_titles.len() ==> has_plain_key(#[trigger] note@.link_titles[k]),
{
    let mut places: Vec<Option<usize>> = Vec::new();
    let mut i: usize = 0;
    while i < note.link_titles.len()
        invariant
            i <= note.link_titles@.len(),
            titles.wf(),
            titles.keys() == title_keys(notes),
            places@.len() == i,
            forall|k: int|
                0 <= k < places@.len() ==> (#[trigger] places@[k] matches Some(p) ==> p
                    < notes.len()),
            forall|k: int|
                0 <= k < i ==> #[trigger] ids_at(notes, places@)[k] == targets_of(notes, note@)[k],
            forall|k: int| 0 <= k < i ==> has_plain_key(#[trigger] note@.link_titles[k]),
        decreases note.link_titles@.len() - i,
    {
        let key = normalize_title(note.link_titles[i].as_str());
        let ghost before = places@;
        assert(note@.link_titles[i as int] == note.link_titles@[i as int]@);
        places.push(titles.find(key.as_str()));
        proof {
            assert forall|k: int| 0 <= k < i + 1 implies #[trigger] ids_at(notes, places@)[k]
                == targets_of(notes, note@)[k] by {
                if k < i {
                    assert(ids_at(notes, places@)[k] == ids_at(notes, before)[k]);
                }
            }
        }
        i += 1;
    }
    assert(ids_at(notes, places@) =~= targets_of(notes, note@));
    places
}

/// Plans the rebuild of the whole index from the notes that were read: what is
/// written to the database, in its order, and how much of everything there is.
/// On duplicate titles a link points to the first note by path. Titles of ASCII
/// characters match up to letter case and the white space around them.
pub fn reindex<'a>(records: &'a Vec<NoteRecord>) -> (plan: Plan<'a>)
    ensures
        statements_of(plan.statements@) == rebuild_statements(notes_of(records@)),
        ({
            let notes = by_path(notes_of(records@));
            let n = records@.len();
            &&& plan.stats.notes == n
            &&& plan.stats.tags == tag_count(notes, n)
            &&& plan.stats.links == link_count(notes, n)
            &&& plan.stats.dangling_links == dangling_count(all_targets(notes), n)
        }),
        forall|i: int| 0 <= i < records@.len() ==> has_plain_keys((#[trigger] records@[i])@),
{
    let order = path_order(records);
    let titles = title_index(records, &order);
    let ghost notes = by_path(notes_of(records@));
    let mut places: Vec<Vec<Option<usize>>> = Vec::new();
    let mut i: usize = 0;
    while i < order.len()
        invariant
            i <= order@.len(),
            order@.len() == records@.len(),
            forall|i: int| 0 <= i < order@.len() ==> #[trigger] order@[i] < records@.len(),
            notes == picked(notes_of(records@), order@),
            titles.wf(),
            titles.keys() == title_keys(notes),
            places@.len() == i,
            forall|j: int|
                0 <= j < i ==> (#[trigger] places@[j])@.len()
                    == records@[order@[j] as int].link_titles@.len(),
            forall|j: int, k: int|
                0 <= j < i && 0 <= k < places@[j]@.len() ==> (
                #[trigger] places@[j]@[k] matches Some(p) ==> p < order@.len()),
            forall|j: int|
                0 <= j < i ==> ids_at(notes, (#[trigger] places@[j])@) == targets_of(
                    notes,
                    notes[j],
                ),
            forall|j: int| 0 <= j < notes.len() ==> has_plain_key((#[trigger] notes[j]).title),
            forall|j: int| 0 <= j < i ==> has_plain_keys(#[trigger] notes[j]),
        decreases order@.len() - i,
    {
        let note = &records[order[i]];
        assert(notes[i as int] == note@);
        places.push(link_places(note, &titles, Ghost(notes)));
        i += 1;
    }
    assert(all_ids_at(notes, places@) =~= all_targets(notes));
    proof {
        broadcast use vstd::seq_lib::group_to_multiset_ensures;

        law_order_keeps_the_notes(notes_of(records@));
        assert forall|i: int| 0 <= i < records@.len() implies has_plain_keys(
            (#[trigger] records@[i])@,
        ) by {
            let view = records@[i]@;
            assert(notes_of(records@)[i] == view);
            assert(notes_of(records@).to_multiset().count(view) > 0);
            assert(notes.contains(view));
        }
    }
    rebuild_plan(records, &order, &places)
}

/// A statement is seen with every value that it carries, each in its place.
pub proof fn law_statements_are_seen_as_they_are<'a>(
    id: &'a str,
    path: &'a str,
    title: &'a str,
    para: &'a str,
    favorite: bool,
    created: &'a str,
    updated: &'a str,
    body: &'a str,
)
    ensures
        (Statement::Wipe)@ == StatementView::Wipe,
        (Statement::InsertNote { id, path, title, para, favorite, created, updated, body })@ matches
            StatementView::InsertNote(r) && r.id == id@ && r.path == path@ && r.title == title@
            && r.para == para@ && r.favorite == favorite && r.created == created@ && r.updated
            == updated@ && r.body == body@,
        (Statement::InsertText { id, title, body })@ matches StatementView::InsertText(r) && r.id
            == id@ && r.title == title@ && r.body == body@,
        (Statement::InsertTag { note_id: id, tag: title })@ matches StatementView::InsertTag(r)
            && r.note_id == id@ && r.tag == title@,
        (Statement::InsertLink { source_id: id, target_title: title, target_id: Some(path) })@ matches
            StatementView::InsertLink(r) && r.source_id == id@ && r.target_title == title@
            && r.target_id == Some(path@),
        (Statement::InsertLink { source_id: id, target_title: title, target_id: None })@ matches
            StatementView::InsertLink(r) && r.source_id == id@ && r.target_title == title@
            && r.target_id is None,
{
}

/// The statements of a plan are seen one by one, in their order.
pub proof fn law_statements_keep_their_order(s: Seq<Statement<'_>>, i: int)
    requires
        0 <= i < s.len(),
    ensures
        statements_of(s).len() == s.len(),
        statements_of(s)[i] == s[i]@,
{
}

/// The counts of a rebuild grow note by note: by its tags, by its links, and by
/// those of its links that have no target.
pub proof fn law_counts_grow_note_by_note(
    notes: Seq<NoteView>,
    targets: Seq<Seq<Option<Seq<char>>>>,
    n: nat,
)
    ensures
        tag_count(notes, 0) == 0,
        link_count(notes, 0) == 0,
        dangling_count(targets, 0) == 0,
        tag_count(notes, n + 1) == tag_count(notes, n) + notes[n as int].tags.len(),
        link_count(notes, n + 1) == link_count(notes, n) + notes[n as int].link_titles.len(),
        dangling_count(targets, n + 1) == dangling_count(targets, n) + targets[n as int].filter(
            |t: Option<Seq<char>>| t is None,
        ).len(),
{
    lemma_missing_are_counted(targets[n as int]);
}

proof fn lemma_missing_are_counted(targets: Seq<Option<Seq<char>>>)
    ensures
        missing(targets) == targets.filter(|t: Option<Seq<char>>| t is None).len(),
    decreases targets.len(),
{
    reveal(Seq::filter);
    if targets.len() > 0 {
        lemma_missing_are_counted(targets.drop_last());
    }
}

/// A link with a place has the id of the note at that place for its target, and
/// one without a place has none.
pub proof fn law_places_give_ids(
    notes: Seq<NoteView>,
    places: Seq<Vec<Option<usize>>>,
    i: int,
    k: int,
)
    requires
        0 <= i < places.len(),
        0 <= k < places[i]@.len(),
    ensures
        all_ids_at(notes, places).len() == places.len(),
        all_ids_at(notes, places)[i].len() == places[i]@.len(),
        match places[i]@[k] {
            Some(p) => all_ids_at(notes, places)[i][k] == Some(notes[p as int].id),
            None => all_ids_at(notes, places)[i][k] is None,
        },
{
}

/// The notes that are picked are those at the indices, in their order.
pub proof fn law_notes_are_picked_by_index(records: Seq<NoteRecord>, order: Seq<usize>, i: int)
    requires
        0 <= i < order.len(),
        order[i] < records.len(),
    ensures
        notes_of(records).len() == records.len(),
        picked(notes_of(records), order).len() == order.len(),
        picked(notes_of(records), order)[i] == records[order[i] as int]@,
{
}

} // verus!
