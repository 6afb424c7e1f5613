//! One note as the index takes it in: what its file says, and what stands in for
//! the fields that the file leaves out.
use vstd::prelude::*;

use crate::frontmatter::{split, FrontMatter};
use crate::links::extract_wikilinks;
use crate::paths::{filename_stem, index_rel_path, para_from_path};
use crate::text::{chars, line_end, string_of, trim};
#[allow(unused_imports)]
use crate::frontmatter::{no_fields, split_text, text_of, texts_of, FrontMatterView};
#[allow(unused_imports)]
use crate::links::wikilinks;
#[allow(unused_imports)]
use crate::paths::{ascii_lowered, category_name, forward_slash, name_title, para_of, para_text,
    slashed, stem, str_of};
#[allow(unused_imports)]
use crate::text::{law_line_ends_behind_its_line_feed, lemma_line_len, lemma_start_then_back, line_len,
    trimmed};

verus! {

/// One note as collected from disk, before its links are resolved.
#[derive(Debug)]
pub struct NoteRecord {
    pub id: String,
    pub rel_path: String,
    pub title: String,
    pub para: String,
    pub favorite: bool,
    pub created: String,
    pub updated: String,
    pub body: String,
    pub tags: Vec<String>,
    pub link_titles: Vec<String>,
}

/// The value of a `NoteRecord`.
pub ghost struct NoteView {
    pub id: Seq<char>,
    pub rel_path: Seq<char>,
    pub title: Seq<char>,
    pub para: Seq<char>,
    pub favorite: bool,
    pub created: Seq<char>,
    pub updated: Seq<char>,
    pub body: Seq<char>,
    pub tags: Seq<Seq<char>>,
    pub link_titles: Seq<Seq<char>>,
}

impl View for NoteRecord {
    type V = NoteView;

    open spec fn view(&self) -> NoteView {
        NoteView {
            id: self.id@,
            rel_path: self.rel_path@,
            title: self.title@,
            para: self.para@,
            favorite: self.favorite,
            created: self.created@,
            updated: self.updated@,
            body: self.body@,
            tags: texts_of(self.tags@),
            link_titles: texts_of(self.link_titles@),
        }
    }
}

/// When a file was modified: seconds and nanoseconds since the Unix epoch, and
/// how far the local clock was ahead of UTC, in seconds.
#[derive(Clone, Copy, Debug)]
pub struct Modified {
    pub secs: i64,
    pub nanos: u32,
    pub offset: i32,
}

impl Modified {
    /// Whether this is a moment of the calendar.
    pub open spec fn wf(self) -> bool {
        is_moment(self.secs as int, self.nanos as int, self.offset as int)
    }

    /// The RFC 3339 text of this moment.
    pub open spec fn text(self) -> Seq<char> {
        rfc3339_text(self.secs as int, self.nanos as int, self.offset as int)
    }

    /// Whether this is a moment of the calendar, so that it can be written down.
    pub fn in_calendar(&self) -> (r: bool)
        ensures
            r == self.wf(),
    {
        to_rfc3339(self.secs, self.nanos, self.offset).is_some()
    }
}

/// The text of the first level-one heading: of the first line that starts with
/// `# `, unless nothing but white space follows there.
pub open spec fn first_heading(body: Seq<char>) -> Option<Seq<char>>
    decreases body.len(),
{
    if body.len() == 0 {
        None
    } else if body.len() >= 2 && body[0] == '#' && body[1] == ' ' {
        let heading = trimmed(body.take(line_len(body)).skip(2));
        if heading.len() > 0 {
            Some(heading)
        } else {
            None
        }
    } else {
        proof {
            lemma_line_len(body);
        }
        first_heading(body.skip(line_len(body)))
    }
}

/// The text of the first level-one heading of `body`.
pub fn first_h1(body: &str) -> (r: Option<String>)
    ensures
        text_of(r) == first_heading(body@),
{
    let v = chars(body);
    let n = v.len();
    let mut i: usize = 0;
    assert(v@.skip(0) =~= v@);
    while i < n
        invariant
            n == v@.len(),
            i <= n,
            v@ == body@,
            first_heading(v@.skip(i as int)) == first_heading(body@),
        decreases n - i,
    {
        let ghost rest = v@.skip(i as int);
        let end = line_end(&v, i);
        if n - i >= 2 && v[i] == '#' && v[i + 1] == ' ' {
            proof {
                lemma_heading_line(rest);
                assert(rest.take(line_len(rest)).skip(2) =~= v@.subrange(i + 2, end as int));
            }
            let (a, b) = trim(&v, i + 2, end);
            if a < b {
                return Some(string_of(&v, a, b));
            }
            return None;
        }
        assert(rest.skip(line_len(rest)) =~= v@.skip(end as int));
        i = end;
    }
    None
}

/// The mark of a heading does not reach over the end of its line.
proof fn lemma_heading_line(s: Seq<char>)
    requires
        s.len() >= 2,
        s[0] == '#',
        s[1] == ' ',
    ensures
        line_len(s) >= 2,
{
    crate::text::lemma_find_char(s, '\n');
}

/// Whether chrono knows a moment: the calendar reaches from the year -262143 to
/// the year 262142, a clock is less than a day off UTC, and a second has a
/// billion nanoseconds, the last of a minute up to two.
pub open spec fn is_moment(secs: int, nanos: int, offset: int) -> bool {
    &&& -8334601228800 <= secs <= 8210266876799
    &&& 0 <= nanos < 2000000000
    &&& nanos < 1000000000 || secs % 60 == 59
    &&& -86400 < offset < 86400
}

/// The RFC 3339 text of a moment.
pub uninterp spec fn rfc3339_text(secs: int, nanos: int, offset: int) -> Seq<char>;

/// `chrono::DateTime::to_rfc3339`, of the moment `secs` and `nanos` after the
/// Unix epoch on a clock `offset` seconds ahead of UTC. The text depends on
/// these three numbers alone, and there is one exactly if they are a moment of
/// chrono's calendar.
#[verifier::external_body]
pub(crate) fn to_rfc3339(secs: i64, nanos: u32, offset: i32) -> (r: Option<String>)
    ensures
        r is Some <==> is_moment(secs as int, nanos as int, offset as int),
        r matches Some(t) ==> t@ == rfc3339_text(secs as int, nanos as int, offset as int),
{
    let zone = chrono::FixedOffset::east_opt(offset);
    let utc = chrono::DateTime::<chrono::Utc>::from_timestamp(secs, nanos);
    match (zone, utc) {
        (Some(z), Some(t)) => Some(t.with_timezone(&z).to_rfc3339()),
        _ => None,
    }
}

/// The characters of a generated id.
pub open spec fn is_id_char(c: char) -> bool {
    ||| 'a' <= c <= 'z'
    ||| 'A' <= c <= 'Z'
    ||| '0' <= c <= '9'
    ||| c == '_'
    ||| c == '-'
}

/// Whether `id` has the form of a generated id.
pub open spec fn is_generated_id(id: Seq<char>) -> bool {
    &&& id.len() == 21
    &&& forall|i: int| 0 <= i < id.len() ==> is_id_char(#[trigger] id[i])
}

/// `nanoid::format` with the arguments of a default id: 21 characters drawn at
/// random from letters, digits, `_` and `-`. Which ones is left to chance.
#[verifier::external_body]
pub(crate) fn generate_id() -> (r: String)
    ensures
        is_generated_id(r@),
{
    nanoid::format(nanoid::rngs::default, &nanoid::alphabet::SAFE, 21)
}

/// The text of a file's modification time: empty where it is not known.
pub open spec fn modified_text(modified: Option<Modified>) -> Seq<char> {
    match modified {
        Some(m) => m.text(),
        None => Seq::empty(),
    }
}

/// A field of the frontmatter, or what stands in for it.
pub open spec fn field_or(field: Option<Seq<char>>, fallback: Seq<char>) -> Seq<char> {
    match field {
        Some(t) => t,
        None => fallback,
    }
}

fn clone_or(field: &Option<String>, fallback: &str) -> (r: String)
    ensures
        r@ == field_or(text_of(*field), fallback@),
{
    match field {
        Some(t) => t.clone(),
        None => fallback.to_owned(),
    }
}

/// When a note was created and updated: what the frontmatter says, and `mtime`
/// for what it does not say.
pub fn timestamps_or(fm: &FrontMatter, mtime: &str) -> (r: (String, String))
    ensures
        r.0@ == field_or(fm@.created, mtime@),
        r.1@ == field_or(fm@.updated, mtime@),
{
    (clone_or(&fm.created, mtime), clone_or(&fm.updated, mtime))
}

/// When a note was created and updated: the frontmatter is the source of truth;
/// a field that is absent falls back to the file's modification time in RFC
/// 3339 form.
pub fn timestamps(fm: &FrontMatter, modified: Option<Modified>) -> (r: (String, String))
    requires
        modified matches Some(m) ==> m.wf(),
    ensures
        r.0@ == field_or(fm@.created, modified_text(modified)),
        r.1@ == field_or(fm@.updated, modified_text(modified)),
{
    let mtime = match modified {
        Some(m) => to_rfc3339(m.secs, m.nanos, m.offset).unwrap(),
        None => String::new(),
    };
    timestamps_or(fm, mtime.as_str())
}

/// The title of a note: its frontmatter's, else its first heading, else the name
/// of its file.
pub open spec fn title_text(
    fm: FrontMatterView,
    body: Seq<char>,
    file_name: Option<Seq<char>>,
) -> Seq<char> {
    match fm.title {
        Some(t) => t,
        None => match first_heading(body) {
            Some(h) => h,
            None => name_title(file_name),
        },
    }
}

/// The record of the note whose file, at `path` in the vault, holds `raw`.
pub open spec fn note_view(
    path: Seq<char>,
    file_name: Option<Seq<char>>,
    raw: Seq<char>,
    fm: FrontMatterView,
    id: Seq<char>,
    para: Seq<char>,
    created: Seq<char>,
    updated: Seq<char>,
) -> NoteView {
    let body = split_text(raw).body;
    NoteView {
        id,
        rel_path: slashed(path),
        title: title_text(fm, body, file_name),
        para,
        favorite: fm.favorite,
        created,
        updated,
        body,
        tags: fm.tags,
        link_titles: wikilinks(body),
    }
}

/// Makes the record of a note out of its file, given the id, the category and
/// the timestamps that it has.
pub fn note_record(
    path: &str,
    file_name: Option<&str>,
    raw: &str,
    fm: FrontMatter,
    id: String,
    para: String,
    created: String,
    updated: String,
) -> (r: NoteRecord)
    ensures
        r@ == note_view(path@, str_of(file_name), raw@, fm@, id@, para@, created@, updated@),
{
    let parts = split(raw);
    let rel_path = index_rel_path(path);
    let title = match &fm.title {
        Some(t) => t.clone(),
        None => match first_h1(parts.body) {
            Some(h) => h,
            None => filename_stem(file_name),
        },
    };
    let link_titles = extract_wikilinks(parts.body);
    NoteRecord {
        id,
        rel_path,
        title,
        para,
        favorite: fm.favorite,
        created,
        updated,
        body: parts.body.to_owned(),
        tags: fm.tags,
        link_titles,
    }
}

/// The frontmatter of a note: what came of parsing it, or no field at all where
/// there is nothing to parse.
pub open spec fn fields_of(parsed: Option<Result<FrontMatter, String>>) -> Option<FrontMatterView> {
    match parsed {
        Some(Ok(fm)) => Some(fm@),
        Some(Err(_)) => None,
        None => Some(no_fields()),
    }
}

/// Makes the record of a note out of its file: `path` is its path under the
/// vault, `raw` its text, and `parsed` what came of its frontmatter, where
/// `yaml` found any. A note that has no id of its own gets a generated one;
/// frontmatter that cannot be parsed is an error.
pub fn read_note(
    path: &str,
    file_name: Option<&str>,
    raw: &str,
    parsed: Option<Result<FrontMatter, String>>,
    modified: Option<Modified>,
) -> (r: Result<NoteRecord, String>)
    requires
        modified matches Some(m) ==> m.wf(),
    ensures
        match fields_of(parsed) {
            Some(fm) => {
                &&& r matches Ok(note)
                &&& note@ == note_view(
                    path@,
                    str_of(file_name),
                    raw@,
                    fm,
                    note.id@,
                    para_text(slashed(path@)),
                    field_or(fm.created, modified_text(modified)),
                    field_or(fm.updated, modified_text(modified)),
                )
                &&& vstd::utf8::is_ascii_chars(path@) ==> note.para@ == para_of(
                    ascii_lowered(category_name(slashed(path@))),
                )
                &&& fm.id matches Some(id) ==> note.id@ == id
                &&& fm.id is None ==> is_generated_id(note.id@)
            },
            None => r matches Err(m) && parsed matches Some(Err(e)) && m@ == "bad frontmatter: "@
                + e@,
        },
{
    let fm = match parsed {
        Some(Ok(fm)) => fm,
        Some(Err(e)) => {
            let mut message = "bad frontmatter: ".to_owned();
            message.append(e.as_str());
            return Err(message);
        },
        None => FrontMatter::default(),
    };
    let id = match &fm.id {
        Some(id) => id.clone(),
        None => generate_id(),
    };
    let rel_path = index_rel_path(path);
    assert(vstd::utf8::is_ascii_chars(path@) ==> vstd::utf8::is_ascii_chars(rel_path@)) by {
        assert forall|i: int| 0 <= i < rel_path@.len() implies rel_path@[i] == forward_slash(
            path@[i],
        ) by {}
    }
    let para = para_from_path(rel_path.as_str());
    let (created, updated) = timestamps(&fm, modified);
    Ok(note_record(path, file_name, raw, fm, id, para, created, updated))
}

/// Adds the record of a file that was read to `records`. A bad file is skipped,
/// and the reason is given back.
pub fn collect_note(records: &mut Vec<NoteRecord>, outcome: Result<NoteRecord, String>) -> (r:
    Option<String>)
    ensures
        match outcome {
            Ok(note) => final(records)@ == old(records)@.push(note) && r is None,
            Err(e) => final(records)@ == old(records)@ && r == Some(e),
        },
{
    match outcome {
        Ok(note) => {
            records.push(note);
            None
        },
        Err(e) => Some(e),
    }
}

/// Whether a line of `s` starts with the mark of a level-one heading.
pub open spec fn has_heading(s: Seq<char>) -> bool {
    exists|p: int|
        {
            &&& 0 <= p < s.len() - 1
            &&& #[trigger] s[p] == '#'
            &&& s[p + 1] == ' '
            &&& p == 0 || s[p - 1] == '\n'
        }
}

/// The rest behind the first line has no heading that the whole has not.
proof fn lemma_rest_has_no_heading(s: Seq<char>, n: int)
    requires
        0 < n <= s.len(),
        s[n - 1] == '\n' || n == s.len(),
        !has_heading(s),
    ensures
        !has_heading(s.skip(n)),
{
    let t = s.skip(n);
    if has_heading(t) {
        let p = choose|p: int|
            {
                &&& 0 <= p < t.len() - 1
                &&& #[trigger] t[p] == '#'
                &&& t[p + 1] == ' '
                &&& p == 0 || t[p - 1] == '\n'
            };
        assert(s[n + p] == '#' && s[n + p + 1] == ' ');
        assert(p > 0 ==> s[n + p - 1] == t[p - 1]);
    }
}

/// Where no line starts with `# `, there is no heading.
pub proof fn law_without_the_mark_no_heading(body: Seq<char>)
    requires
        !has_heading(body),
    ensures
        first_heading(body) is None,
    decreases body.len(),
{
    if body.len() > 0 {
        let n = line_len(body);
        lemma_line_len(body);
        crate::text::lemma_find_char(body, '\n');
        assert(!(body.len() >= 2 && body[0] == '#' && body[1] == ' '));
        lemma_rest_has_no_heading(body, n);
        law_without_the_mark_no_heading(body.skip(n));
    }
}

/// The heading is the text of the first line that starts with `# `, whatever
/// lines stand before it, empty ones too, and whatever follows. Where that text
/// is white space alone there is none.
pub proof fn law_first_marked_line_is_the_heading(
    front: Seq<char>,
    text: Seq<char>,
    rest: Seq<char>,
)
    requires
        front.len() == 0 || front.last() == '\n',
        !has_heading(front),
        !text.contains('\n'),
        rest.len() == 0 || rest[0] == '\n',
    ensures
        trimmed(text).len() > 0 ==> first_heading(front + seq!['#', ' '] + text + rest) == Some(
            trimmed(text),
        ),
        trimmed(text).len() == 0 ==> first_heading(front + seq!['#', ' '] + text + rest) is None,
    decreases front.len(),
{
    let mark = seq!['#', ' '];
    let s = front + mark + text + rest;
    if front.len() == 0 {
        let feed = if rest.len() > 0 {
            seq!['\n']
        } else {
            Seq::empty()
        };
        let line = mark + text + feed;
        let further = rest.skip(feed.len() as int);
        assert(s =~= line + further);
        assert forall|j: int| 0 <= j < line.len() - 1 implies #[trigger] line[j] != '\n' by {
            if 2 <= j < 2 + text.len() {
                assert(line[j] == text[j - 2]);
            }
        }
        law_line_ends_behind_its_line_feed(line, further);
        assert(s.take(line_len(s)) =~= line);
        assert(line.skip(2) =~= text + feed);
        lemma_start_then_back(text, feed);
        assert(s[0] == '#' && s[1] == ' ');
    } else {
        let n = line_len(front);
        lemma_line_len(front);
        crate::text::lemma_find_char(front, '\n');
        crate::text::lemma_find_char(s, '\n');
        assert(front[front.len() - 1] == '\n');
        assert forall|j: int| 0 <= j < front.len() implies s[j] == front[j] by {}
        assert(line_len(s) == n);
        assert(!(front.len() >= 2 && front[0] == '#' && front[1] == ' '));
        assert(s[0] == front[0]);
        if front.len() >= 2 {
            assert(s[1] == front[1]);
        }
        let shorter = front.skip(n);
        assert(s.skip(n) =~= shorter + mark + text + rest);
        lemma_rest_has_no_heading(front, n);
        law_first_marked_line_is_the_heading(shorter, text, rest);
    }
}

/// The frontmatter is the source of truth: a field that it sets is taken as it
/// is, an empty one too, and what stands in for it counts only where it is
/// missing.
pub proof fn law_frontmatter_wins(text: Seq<char>, fallback: Seq<char>)
    ensures
        field_or(Some(text), fallback) == text,
        field_or(None, fallback) == fallback,
{
}

/// The title of a note is its frontmatter's; without one the first heading of
/// the body; and without either the name of the file.
pub proof fn law_title_has_three_sources(
    fm: FrontMatterView,
    body: Seq<char>,
    file_name: Option<Seq<char>>,
)
    ensures
        fm.title matches Some(t) ==> title_text(fm, body, file_name) == t,
        fm.title is None ==> (first_heading(body) matches Some(h) ==> title_text(
            fm,
            body,
            file_name,
        ) == h),
        fm.title is None && first_heading(body) is None ==> (match file_name {
            Some(name) => title_text(fm, body, file_name) == stem(name),
            None => title_text(fm, body, file_name) == "Untitled"@,
        }),
{
}

/// What a record holds of a file: the whole body behind the frontmatter and the
/// links in it, the path with forward slashes, and of the frontmatter the tags
/// and whether the note is a favorite.
pub proof fn law_record_holds_the_file(
    path: Seq<char>,
    file_name: Option<Seq<char>>,
    raw: Seq<char>,
    fm: FrontMatterView,
    id: Seq<char>,
    para: Seq<char>,
    created: Seq<char>,
    updated: Seq<char>,
)
    ensures
        ({
            let r = note_view(path, file_name, raw, fm, id, para, created, updated);
            &&& r.id == id
            &&& r.para == para
            &&& r.created == created
            &&& r.updated == updated
            &&& r.rel_path == slashed(path)
            &&& r.body == split_text(raw).body
            &&& r.link_titles == wikilinks(r.body)
            &&& r.title == title_text(fm, r.body, file_name)
            &&& r.tags == fm.tags
            &&& r.favorite == fm.favorite
        }),
{
}

/// Frontmatter that was parsed counts with all its fields, and a note without
/// any sets none; only what could not be parsed has no fields to go by.
pub proof fn law_parsed_fields_are_taken(fm: FrontMatter, error: String)
    ensures
        fields_of(Some(Ok(fm))) == Some(fm@),
        fields_of(Some(Err(error))) is None,
        fields_of(None) matches Some(v) && v.id is None && v.title is None && v.created is None
            && v.updated is None && !v.favorite && v.tags.len() == 0,
{
}

/// The value of a record is that of each field.
pub proof fn law_record_is_seen_as_it_is(r: NoteRecord)
    ensures
        r@.id == r.id@,
        r@.rel_path == r.rel_path@,
        r@.title == r.title@,
        r@.para == r.para@,
        r@.favorite == r.favorite,
        r@.created == r.created@,
        r@.updated == r.updated@,
        r@.body == r.body@,
        r@.tags.len() == r.tags@.len(),
        r@.link_titles.len() == r.link_titles@.len(),
        forall|i: int| 0 <= i < r.tags@.len() ==> r@.tags[i] == (#[trigger] r.tags@[i])@,
        forall|i: int|
            0 <= i < r.link_titles@.len() ==> r@.link_titles[i] == (
            #[trigger] r.link_titles@[i])@,
{
}

/// The modification time is written down with its seconds, its nanoseconds and
/// the offset of the local clock; where it is not known nothing is.
pub proof fn law_modification_time_is_written_whole(m: Modified)
    ensures
        modified_text(Some(m)) == rfc3339_text(m.secs as int, m.nanos as int, m.offset as int),
        modified_text(None).len() == 0,
{
}

} // verus!
