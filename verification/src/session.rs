//! What the application holds while it runs, and what its commands decide.
use vstd::prelude::*;

use crate::frontmatter::split;
use crate::index::IndexStats;
use crate::text::trim_string;
#[allow(unused_imports)]
use crate::frontmatter::{held_frontmatter, split_text, text_of};
#[allow(unused_imports)]
use crate::text::{is_whitespace, law_trimming, trimmed};

verus! {

/// A vault that has been opened: the connection `conn` to its index, and its
/// root folder.
pub struct OpenVault<C, P> {
    pub conn: C,
    pub vault: P,
}

/// The state of the application: the current vault, or nothing before the first
/// one is opened.
pub struct AppState<C, P> {
    pub opened: Option<OpenVault<C, P>>,
}

/// A full-text search that has to be made.
pub struct Search<'a, C> {
    pub conn: &'a C,
    pub fts_query: String,
}

/// The full-text query for what was typed: without the white space around it,
/// the last word taken as a prefix. Nothing typed asks for nothing.
pub open spec fn fts_query(query: Seq<char>) -> Option<Seq<char>> {
    if trimmed(query).len() == 0 {
        None
    } else {
        Some(trimmed(query).push('*'))
    }
}

/// The full-text query for what was typed, if it asks for anything.
pub fn query_text(query: &str) -> (r: Option<String>)
    ensures
        text_of(r) == fts_query(query@),
        r is None <==> trimmed(query@).len() == 0,
        r matches Some(q) ==> q@ == trimmed(query@) + seq!['*'],
{
    let mut q = trim_string(query);
    if q.as_str().is_empty() {
        return None;
    }
    q.push('*');
    Some(q)
}

impl<C, P> AppState<C, P> {
    /// The state before a vault is opened.
    pub fn new() -> (r: Self)
        ensures
            r.opened is None,
    {
        AppState { opened: None }
    }

    /// Makes `vault` the current vault once its index has been built. Where that
    /// failed, the vault that was open stays so.
    pub fn open_vault(&mut self, vault: P, built: Result<(C, IndexStats), String>) -> (r: Result<
        IndexStats,
        String,
    >)
        ensures
            match built {
                Ok((conn, stats)) => {
                    &&& final(self).opened == Some(OpenVault { conn, vault })
                    &&& r == Ok::<IndexStats, String>(stats)
                },
                Err(e) => *final(self) == *old(self) && r == Err::<IndexStats, String>(e),
            },
    {
        match built {
            Ok((conn, stats)) => {
                self.opened = Some(OpenVault { conn, vault });
                Ok(stats)
            },
            Err(e) => Err(e),
        }
    }

    /// The current vault, without which no note can be opened.
    pub fn current(&self) -> (r: Result<&OpenVault<C, P>, String>)
        ensures
            match self.opened {
                Some(v) => r == Ok::<&OpenVault<C, P>, String>(&v),
                None => r matches Err(e) && e@ == "no vault opened"@,
            },
    {
        match &self.opened {
            Some(v) => Ok(v),
            None => Err("no vault opened".to_owned()),
        }
    }

    /// The search to be made for what was typed: none where nothing was typed,
    /// or no vault is open yet.
    pub fn search_notes(&self, query: &str) -> (r: Option<Search<'_, C>>)
        ensures
            match (fts_query(query@), self.opened) {
                (Some(q), Some(v)) => r matches Some(s) && s.fts_query@ == q && *s.conn == v.conn,
                _ => r is None,
            },
    {
        match (query_text(query), &self.opened) {
            (Some(q), Some(v)) => Some(Search { conn: &v.conn, fts_query: q }),
            _ => None,
        }
    }
}

/// The contents of one note, loaded for the editor. The frontmatter is kept as
/// it is in the file, to be saved again unchanged.
#[derive(Debug)]
pub struct NoteContents {
    pub path: String,
    pub title: String,
    pub frontmatter: String,
    pub body: String,
}

/// Loads a note for editing: of the text `raw` of its file, the editor gets the
/// body to edit and the frontmatter to hold.
pub fn open_note(path: String, title: String, raw: &str) -> (r: NoteContents)
    ensures
        r.path == path,
        r.title == title,
        r.frontmatter@ == held_frontmatter(split_text(raw@)),
        r.body@ == split_text(raw@).body,
{
    let parts = split(raw);
    let frontmatter = match parts.frontmatter {
        Some(y) => y.to_owned(),
        None => String::new(),
    };
    NoteContents { path, title, frontmatter, body: parts.body.to_owned() }
}

/// What is typed is searched for as it is, its last word as a prefix: the query
/// is what stands between the first and the last character that is not white
/// space, of one word or of many, with a star behind it.
pub proof fn law_last_word_is_a_prefix(query: Seq<char>, from: int, to: int)
    requires
        0 <= from < to <= query.len(),
        forall|j: int| 0 <= j < from ==> is_whitespace(#[trigger] query[j]),
        forall|j: int| to <= j < query.len() ==> is_whitespace(#[trigger] query[j]),
        !is_whitespace(query[from]),
        !is_whitespace(query[to - 1]),
    ensures
        fts_query(query) matches Some(q) && q.len() == to - from + 1 && q.last() == '*'
            && forall|k: int| 0 <= k < to - from ==> #[trigger] q[k] == query[from + k],
{
    law_trimming(query, from, to);
}

/// White space alone asks for nothing.
pub proof fn law_blank_query_asks_for_nothing(query: Seq<char>)
    requires
        forall|j: int| 0 <= j < query.len() ==> is_whitespace(#[trigger] query[j]),
    ensures
        fts_query(query) is None,
{
    law_trimming(query, 0, 0);
}

} // verus!
