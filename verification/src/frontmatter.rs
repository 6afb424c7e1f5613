//! The note format: a block of YAML between two `---` lines, then the markdown
//! body. `split` takes a file apart and `save_text` puts it together again; the
//! typed fields of the block are a `FrontMatter`.
use vstd::prelude::*;

use crate::text::{chars, line_end, string_of, trim};
#[allow(unused_imports)]
use crate::text::{is_whitespace, law_line_ends_behind_its_line_feed, lemma_find_char, lemma_line_len,
    lemma_trimmed, lemma_trimmed_keeps, line_len, trimmed};

verus! {

/// The typed frontmatter block. Every field may be missing in a file.
#[derive(Debug)]
pub struct FrontMatter {
    pub id: Option<String>,
    pub title: Option<String>,
    pub created: Option<String>,
    pub updated: Option<String>,
    pub favorite: bool,
    pub tags: Vec<String>,
}

/// The value of a `FrontMatter`.
pub ghost struct FrontMatterView {
    pub id: Option<Seq<char>>,
    pub title: Option<Seq<char>>,
    pub created: Option<Seq<char>>,
    pub updated: Option<Seq<char>>,
    pub favorite: bool,
    pub tags: Seq<Seq<char>>,
}

/// The text of an optional string.
pub open spec fn text_of(s: Option<String>) -> Option<Seq<char>> {
    match s {
        Some(t) => Some(t@),
        None => None,
    }
}

/// The texts of a list of strings.
pub open spec fn texts_of(s: Seq<String>) -> Seq<Seq<char>> {
    s.map_values(|t: String| t@)
}

impl View for FrontMatter {
    type V = FrontMatterView;

    open spec fn view(&self) -> FrontMatterView {
        FrontMatterView {
            id: text_of(self.id),
            title: text_of(self.title),
            created: text_of(self.created),
            updated: text_of(self.updated),
            favorite: self.favorite,
            tags: texts_of(self.tags@),
        }
    }
}

/// The block of a file that sets no field.
pub open spec fn no_fields() -> FrontMatterView {
    FrontMatterView {
        id: None,
        title: None,
        created: None,
        updated: None,
        favorite: false,
        tags: Seq::empty(),
    }
}

impl Default for FrontMatter {
    fn default() -> (r: FrontMatter)
        ensures
            r@ == no_fields(),
    {
        let r = FrontMatter {
            id: None,
            title: None,
            created: None,
            updated: None,
            favorite: false,
            tags: Vec::new(),
        };
        assert(texts_of(r.tags@) =~= Seq::empty());
        r
    }
}

/// A file taken apart: the raw YAML, if there is any, and the body after it.
/// Both are borrowed from the file's text.
pub struct Split<'a> {
    pub frontmatter: Option<&'a str>,
    pub body: &'a str,
}

/// The value of a `Split`.
pub ghost struct SplitView {
    pub frontmatter: Option<Seq<char>>,
    pub body: Seq<char>,
}

impl<'a> View for Split<'a> {
    type V = SplitView;

    open spec fn view(&self) -> SplitView {
        SplitView {
            frontmatter: match self.frontmatter {
                Some(y) => Some(y@),
                None => None,
            },
            body: self.body@,
        }
    }
}

/// The three dashes of a fence.
pub open spec fn dashes() -> Seq<char> {
    seq!['-', '-', '-']
}

/// The fence line that `join` writes.
pub open spec fn fence_line() -> Seq<char> {
    seq!['-', '-', '-', '\n']
}

/// The fence line of a file with CRLF line ends.
pub open spec fn crlf_fence_line() -> Seq<char> {
    seq!['-', '-', '-', '\r', '\n']
}

/// Whether the first line of `s` is an opening fence.
pub open spec fn opens_block(s: Seq<char>) -> bool {
    fence_line().is_prefix_of(s) || crlf_fence_line().is_prefix_of(s)
}

/// `line` without the carriage returns and line feeds at its end.
pub open spec fn without_line_end(line: Seq<char>) -> Seq<char>
    decreases line.len(),
{
    if line.len() > 0 && (line.last() == '\r' || line.last() == '\n') {
        without_line_end(line.drop_last())
    } else {
        line
    }
}

/// Whether a line closes the block.
pub open spec fn is_fence(line: Seq<char>) -> bool {
    without_line_end(line) == dashes()
}

/// The index at which the first closing fence of `s` starts.
pub open spec fn closing_fence(s: Seq<char>) -> Option<int>
    decreases s.len(),
{
    if s.len() == 0 {
        None
    } else if is_fence(s.take(line_len(s))) {
        Some(0)
    } else {
        proof {
            lemma_line_len(s);
        }
        match closing_fence(s.skip(line_len(s))) {
            Some(k) => Some(line_len(s) + k),
            None => None,
        }
    }
}

/// What the parts of a file are. The block starts in the first line or not at
/// all, and ends at the first closing fence; without both there is only body.
pub open spec fn split_text(s: Seq<char>) -> SplitView {
    let inner = s.skip(line_len(s));
    if !opens_block(s) || closing_fence(inner) is None {
        SplitView { frontmatter: None, body: s }
    } else {
        let k = closing_fence(inner)->0;
        let rest = inner.skip(k);
        SplitView { frontmatter: Some(inner.take(k)), body: rest.skip(line_len(rest)) }
    }
}

/// The first line of a file.
pub open spec fn opening_line(content: Seq<char>) -> Seq<char> {
    content.take(line_len(content))
}

/// The line that closes the block of a file.
pub open spec fn closing_line(content: Seq<char>) -> Seq<char> {
    let inner = content.skip(line_len(content));
    let rest = inner.skip(closing_fence(inner)->0);
    rest.take(line_len(rest))
}

/// Whether the line `v[from..to]` closes the block.
fn fence_at(v: &Vec<char>, from: usize, to: usize) -> (r: bool)
    requires
        from <= to <= v@.len(),
    ensures
        r == is_fence(v@.subrange(from as int, to as int)),
{
    let mut end = to;
    while from < end && (v[end - 1] == '\r' || v[end - 1] == '\n')
        invariant
            from <= end <= to <= v@.len(),
            without_line_end(v@.subrange(from as int, end as int)) == without_line_end(
                v@.subrange(from as int, to as int),
            ),
        decreases end - from,
    {
        assert(v@.subrange(from as int, end as int).drop_last() =~= v@.subrange(
            from as int,
            end - 1,
        ));
        end -= 1;
    }
    let r = end - from == 3 && v[from] == '-' && v[from + 1] == '-' && v[from + 2] == '-';
    proof {
        let line = v@.subrange(from as int, end as int);
        assert(without_line_end(line) == line);
        if r {
            assert(line =~= dashes());
        } else if line == dashes() {
            assert(line[0] == '-' && line[1] == '-' && line[2] == '-');
        }
    }
    r
}

/// Whether `v` starts with an opening fence.
fn opens(v: &Vec<char>) -> (r: bool)
    ensures
        r == opens_block(v@),
{
    let n = v.len();
    let r = n >= 4 && v[0] == '-' && v[1] == '-' && v[2] == '-' && (v[3] == '\n' || (n >= 5 && v[3]
        == '\r' && v[4] == '\n'));
    proof {
        let s = v@;
        if r {
            if s[3] == '\n' {
                assert(s.subrange(0, 4) =~= fence_line());
            } else {
                assert(s.subrange(0, 5) =~= crlf_fence_line());
            }
        } else {
            if fence_line().is_prefix_of(s) {
                assert(fence_line()[3] == s[3]);
                assert(fence_line()[0] == s[0] && fence_line()[1] == s[1] && fence_line()[2] == s[2]);
            }
            if crlf_fence_line().is_prefix_of(s) {
                let f = crlf_fence_line();
                assert(f[0] == s[0] && f[1] == s[1] && f[2] == s[2] && f[3] == s[3] && f[4] == s[4]);
            }
        }
    }
    r
}

/// Peels a leading block of frontmatter off `content`.
///
/// The opening fence must be the very first line, and the block ends at the
/// first line that is a fence. Without an opening fence, or where the block is
/// never closed, the whole of `content` is body.
pub fn split<'a>(content: &'a str) -> (r: Split<'a>)
    ensures
        r@ == split_text(content@),
{
    let v = chars(content);
    let n = v.len();
    if !opens(&v) {
        return Split { frontmatter: None, body: content };
    }
    assert(v@.skip(0) =~= v@);
    let start = line_end(&v, 0);
    let ghost inner = content@.skip(start as int);
    let mut offset = start;
    while offset < n
        invariant
            n == v@.len(),
            v@ == content@,
            start <= offset <= n,
            start == line_len(content@),
            inner == content@.skip(start as int),
            opens_block(content@),
            closing_fence(inner) == match closing_fence(content@.skip(offset as int)) {
                Some(k) => Some(offset - start + k),
                None => None,
            },
        decreases n - offset,
    {
        let end = line_end(&v, offset);
        let ghost rest = content@.skip(offset as int);
        assert(rest.take(line_len(rest)) =~= v@.subrange(offset as int, end as int));
        if fence_at(&v, offset, end) {
            let frontmatter = content.substring_char(start, offset);
            let body = content.substring_char(end, n);
            proof {
                assert(closing_fence(rest) == Some(0int));
                assert(inner.skip(offset - start) =~= rest);
                assert(inner.take(offset - start) =~= frontmatter@);
                assert(rest.skip(line_len(rest)) =~= body@);
            }
            return Split { frontmatter: Some(frontmatter), body };
        }
        proof {
            assert(rest.skip(line_len(rest)) =~= content@.skip(end as int));
        }
        offset = end;
    }
    Split { frontmatter: None, body: content }
}

/// Puts a file together from its raw YAML and its body. Without frontmatter
/// the file is the plain body.
pub open spec fn join_text(frontmatter: Seq<char>, body: Seq<char>) -> Seq<char> {
    if frontmatter.len() == 0 {
        body
    } else {
        fence_line() + frontmatter + fence_line() + body
    }
}

/// The text of a note to be saved: the frontmatter block as it was loaded,
/// fenced again, and the body after it.
pub fn join(frontmatter: &str, body: &str) -> (r: String)
    ensures
        r@ == join_text(frontmatter@, body@),
{
    if frontmatter.is_empty() {
        return body.to_owned();
    }
    let mut r = "---\n".to_owned();
    r.append(frontmatter);
    r.append("---\n");
    r.append(body);
    proof {
        reveal_strlit("---\n");
        assert("---\n"@ =~= fence_line());
    }
    r
}

/// The YAML of a file that has to be parsed: a block of white space alone, or
/// none, sets no field.
pub open spec fn yaml_text(split: SplitView) -> Option<Seq<char>> {
    match split.frontmatter {
        Some(y) if trimmed(y).len() > 0 => Some(y),
        _ => None,
    }
}

/// The YAML of `split` that has to be parsed, if there is any.
pub fn yaml<'a>(split: &Split<'a>) -> (r: Option<&'a str>)
    ensures
        match r {
            Some(y) => yaml_text(split@) == Some(y@),
            None => yaml_text(split@) is None,
        },
{
    match split.frontmatter {
        Some(y) => {
            let v = chars(y);
            let (a, b) = trim(&v, 0, v.len());
            assert(v@.subrange(0, v@.len() as int) =~= y@);
            assert(trimmed(y@).len() == b - a);
            if a < b {
                Some(y)
            } else {
                None
            }
        },
        None => None,
    }
}

/// The first line of a text ends with its first line feed.
proof fn lemma_line_len_of(s: Seq<char>, i: int)
    requires
        0 <= i < s.len(),
        s[i] == '\n',
        forall|j: int| 0 <= j < i ==> s[j] != '\n',
    ensures
        line_len(s) == i + 1,
{
    lemma_find_char(s, '\n');
}

/// The closing fence lies within the text.
proof fn lemma_closing_fence(s: Seq<char>)
    ensures
        closing_fence(s) matches Some(k) ==> 0 <= k < s.len() && is_fence(
            s.skip(k).take(line_len(s.skip(k))),
        ),
    decreases s.len(),
{
    if s.len() > 0 {
        lemma_line_len(s);
        assert(s.skip(0) =~= s);
        let n = line_len(s);
        if !is_fence(s.take(n)) {
            let t = s.skip(n);
            lemma_closing_fence(t);
            if closing_fence(t) is Some {
                let k = closing_fence(t)->0;
                assert(t.skip(k) =~= s.skip(n + k));
            }
        }
    }
}

/// A line of three dashes and a line feed is a fence.
proof fn lemma_fence_line(body: Seq<char>)
    ensures
        line_len(fence_line() + body) == 4,
        (fence_line() + body).take(4) == fence_line(),
        (fence_line() + body).skip(4) == body,
        is_fence(fence_line()),
        closing_fence(fence_line() + body) == Some(0int),
{
    let s = fence_line() + body;
    lemma_line_len_of(s, 3);
    assert(s.take(4) =~= fence_line());
    assert(s.skip(4) =~= body);
    assert(fence_line().drop_last() =~= dashes());
    reveal_with_fuel(without_line_end, 2);
}

/// What precedes the first closing fence stays the block in front of any text
/// that starts with a fence.
proof fn lemma_block_kept(s: Seq<char>, tail: Seq<char>)
    requires
        closing_fence(s) is Some,
        closing_fence(tail) == Some(0int),
    ensures
        closing_fence(s.take(closing_fence(s)->0) + tail) == closing_fence(s),
    decreases s.len(),
{
    let k = closing_fence(s)->0;
    lemma_closing_fence(s);
    lemma_line_len(s);
    let n = line_len(s);
    if is_fence(s.take(n)) {
        assert(s.take(0) + tail =~= tail);
    } else {
        let t = s.skip(n);
        lemma_closing_fence(t);
        lemma_find_char(s, '\n');
        let u = s.take(k) + tail;
        assert(u.take(n) =~= s.take(n));
        lemma_line_len_of(u, n - 1);
        assert(u.skip(n) =~= t.take(k - n) + tail);
        lemma_block_kept(t, tail);
    }
}

/// Splitting loses nothing: the parts, with the two fence lines around the
/// block, are the file; and a file without a block is all body.
pub proof fn law_split_loses_nothing(content: Seq<char>)
    ensures
        match split_text(content).frontmatter {
            Some(y) => {
                &&& opening_line(content) == fence_line() || opening_line(content)
                    == crlf_fence_line()
                &&& is_fence(closing_line(content))
                &&& content == opening_line(content) + y + closing_line(content) + split_text(
                    content,
                ).body
            },
            None => split_text(content).body == content,
        },
{
    if split_text(content).frontmatter is Some {
        let n = line_len(content);
        lemma_line_len(content);
        lemma_opening_line(content);
        let inner = content.skip(n);
        let k = closing_fence(inner)->0;
        lemma_closing_fence(inner);
        let rest = inner.skip(k);
        lemma_line_len(rest);
        assert(content =~= opening_line(content) + inner.take(k) + closing_line(content)
            + rest.skip(line_len(rest)));
    }
}

/// The line of the opening fence is one of the two that open a block.
proof fn lemma_opening_line(content: Seq<char>)
    requires
        opens_block(content),
    ensures
        fence_line().is_prefix_of(content) ==> line_len(content) == 4,
        !fence_line().is_prefix_of(content) ==> line_len(content) == 5,
        content.take(line_len(content)) == if fence_line().is_prefix_of(content) {
            fence_line()
        } else {
            crlf_fence_line()
        },
{
    if fence_line().is_prefix_of(content) {
        let f = fence_line();
        assert(f[0] == content[0] && f[1] == content[1] && f[2] == content[2] && f[3] == content[3]);
        lemma_line_len_of(content, 3);
        assert(content.take(4) =~= f);
    } else {
        let f = crlf_fence_line();
        assert(f[0] == content[0] && f[1] == content[1] && f[2] == content[2] && f[3] == content[3]
            && f[4] == content[4]);
        lemma_line_len_of(content, 4);
        assert(content.take(5) =~= f);
    }
}

/// The frontmatter that the editor holds for a file: empty where there is none.
pub open spec fn held_frontmatter(split: SplitView) -> Seq<char> {
    match split.frontmatter {
        Some(y) => y,
        None => Seq::empty(),
    }
}

/// Whether a text can stand between the fences: no line of it is a fence, and
/// its last line is ended by a line feed.
pub open spec fn is_block(frontmatter: Seq<char>) -> bool {
    closing_fence(frontmatter + fence_line()) == Some(frontmatter.len() as int)
}

/// What is saved is what is loaded: a note saved with frontmatter is taken
/// apart into that frontmatter and that body exactly if the frontmatter can
/// stand between the fences.
pub proof fn law_saved_note_is_loaded_again(frontmatter: Seq<char>, body: Seq<char>)
    requires
        frontmatter.len() > 0,
    ensures
        (split_text(join_text(frontmatter, body)) == SplitView {
            frontmatter: Some(frontmatter),
            body,
        }) <==> is_block(frontmatter),
{
    let k = frontmatter.len() as int;
    let saved = join_text(frontmatter, body);
    let tail = fence_line() + body;
    let inner = frontmatter + tail;
    assert(saved =~= fence_line() + inner);
    lemma_fence_line(inner);
    lemma_fence_line(body);
    lemma_fence_line(Seq::empty());
    assert(fence_line() + Seq::<char>::empty() =~= fence_line());
    assert(saved.subrange(0, 4) =~= fence_line());
    assert(saved.skip(4) == inner);
    assert(inner.take(k) =~= frontmatter);
    assert(inner.skip(k) =~= tail);
    if is_block(frontmatter) {
        assert((frontmatter + fence_line()).take(k) =~= frontmatter);
        lemma_block_kept(frontmatter + fence_line(), tail);
    } else if closing_fence(inner) is Some {
        let j = closing_fence(inner)->0;
        lemma_closing_fence(inner);
        if inner.take(j) == frontmatter {
            assert(inner.take(j).len() == j);
            lemma_block_kept(inner, fence_line());
        }
    }
}

/// The line that closes the block of a file again in front of `body`: the one
/// that is there, with a line feed added where it has none and a body follows.
pub open spec fn closing_line_before(content: Seq<char>, body: Seq<char>) -> Seq<char> {
    let line = closing_line(content);
    if body.len() > 0 && line.last() != '\n' {
        line.push('\n')
    } else {
        line
    }
}

/// The text of a note to be saved over the file that holds `original`. Where the
/// block of that file is the frontmatter that the editor holds, its fence lines
/// stay what they are; else the frontmatter is fenced anew.
pub open spec fn saved_text(
    original: Seq<char>,
    frontmatter: Seq<char>,
    body: Seq<char>,
) -> Seq<char> {
    if split_text(original).frontmatter == Some(frontmatter) {
        opening_line(original) + frontmatter + closing_line_before(original, body) + body
    } else {
        join_text(frontmatter, body)
    }
}

/// The text of a note to be saved: the frontmatter block as it was loaded, in
/// the framing that it has in the file that holds `original`, and the body
/// after it.
pub fn save_text(original: &str, frontmatter: &str, body: &str) -> (r: String)
    ensures
        r@ == saved_text(original@, frontmatter@, body@),
{
    let held = match split(original).frontmatter {
        Some(y) => y.to_owned() == frontmatter.to_owned(),
        None => false,
    };
    if !held {
        return join(frontmatter, body);
    }
    let v = chars(original);
    let ghost inner = original@.skip(line_len(original@));
    let ghost k = closing_fence(inner)->0;
    proof {
        lemma_line_len(original@);
        lemma_closing_fence(inner);
        assert(v@.skip(0) =~= v@);
        assert(frontmatter@ == inner.take(k));
    }
    let open = line_end(&v, 0);
    let close = open + chars(frontmatter).len();
    let ghost rest = v@.skip(close as int);
    assert(rest =~= inner.skip(k));
    proof {
        lemma_line_len(rest);
    }
    let end = line_end(&v, close);
    let mut r = string_of(&v, 0, open);
    assert(r@ =~= opening_line(original@));
    r.append(frontmatter);
    let mut line = string_of(&v, close, end);
    assert(line@ =~= closing_line(original@));
    if !body.is_empty() && v[end - 1] != '\n' {
        line.push('\n');
    }
    assert(line@ == closing_line_before(original@, body@));
    r.append(line.as_str());
    r.append(body);
    r
}

/// Loading and saving without an edit gives every file back, character for
/// character.
pub proof fn law_unedited_note_is_saved_as_it_was(content: Seq<char>)
    ensures
        saved_text(content, held_frontmatter(split_text(content)), split_text(content).body)
            == content,
{
    law_split_loses_nothing(content);
    if split_text(content).frontmatter is Some {
        lemma_closing_line(content);
    }
}

/// The closing line of a block is a fence that ends at its only line feed; one
/// without a line feed ends the file.
proof fn lemma_closing_line(content: Seq<char>)
    requires
        split_text(content).frontmatter is Some,
    ensures
        closing_line(content).len() > 0,
        is_fence(closing_line(content)),
        forall|j: int|
            0 <= j < closing_line(content).len() - 1 ==> closing_line(content)[j] != '\n',
        closing_line(content).last() != '\n' ==> split_text(content).body.len() == 0,
{
    let inner = content.skip(line_len(content));
    lemma_closing_fence(inner);
    let rest = inner.skip(closing_fence(inner)->0);
    lemma_line_len(rest);
    lemma_find_char(rest, '\n');
}

/// Editing the body of a note never touches its frontmatter: whatever body is
/// saved, loading gives the same frontmatter and that body. This holds of every
/// file that has a block, an empty one too.
pub proof fn law_edit_keeps_frontmatter(content: Seq<char>, edited: Seq<char>)
    requires
        split_text(content).frontmatter is Some,
    ensures
        split_text(saved_text(content, held_frontmatter(split_text(content)), edited)) == (
        SplitView { frontmatter: split_text(content).frontmatter, body: edited }),
{
    let n = line_len(content);
    let y = held_frontmatter(split_text(content));
    let inner = content.skip(n);
    let k = closing_fence(inner)->0;
    lemma_line_len(content);
    lemma_opening_line(content);
    lemma_closing_fence(inner);
    lemma_closing_line(content);
    assert(y == inner.take(k));
    let line = closing_line_before(content, edited);
    let tail = line + edited;
    lemma_fence_in_front(content, edited);
    let saved = saved_text(content, y, edited);
    let inside = y + tail;
    assert(saved =~= opening_line(content) + inside);
    lemma_block_kept(inner, tail);
    assert(saved.subrange(0, n) =~= opening_line(content));
    lemma_line_len_of(saved, n - 1);
    assert(saved.skip(n) =~= inside);
    assert(inside.skip(k) =~= tail);
    assert(inside.take(k) =~= y);
    assert(tail.skip(line.len() as int) =~= edited);
}

/// The closing line in front of a body is the first line, and still a fence.
proof fn lemma_fence_in_front(content: Seq<char>, body: Seq<char>)
    requires
        split_text(content).frontmatter is Some,
    ensures
        ({
            let line = closing_line_before(content, body);
            &&& line_len(line + body) == line.len()
            &&& closing_fence(line + body) == Some(0int)
        }),
{
    let plain = closing_line(content);
    let line = closing_line_before(content, body);
    let s = line + body;
    lemma_closing_line(content);
    if line.last() != '\n' {
        assert(s =~= plain);
    }
    lemma_find_char(s, '\n');
    assert forall|j: int| 0 <= j < line.len() - 1 implies s[j] != '\n' by {
        assert(s[j] == plain[j]);
    }
    assert(s[line.len() - 1] == line.last());
    assert(s.take(line.len() as int) =~= line);
    if line != plain {
        assert(line.drop_last() =~= plain);
    }
}

/// A note without frontmatter is saved as its plain body, and is loaded as that
/// body again unless the body itself starts with a complete block.
pub proof fn law_plain_note_stays_plain(content: Seq<char>, body: Seq<char>)
    requires
        split_text(content).frontmatter is None,
    ensures
        saved_text(content, held_frontmatter(split_text(content)), body) == body,
        (split_text(body) == SplitView { frontmatter: None, body }) <==> !(opens_block(body)
            && closing_fence(body.skip(line_len(body))) is Some),
{
}

/// Whether a line is three dashes followed by nothing but its line end.
pub open spec fn is_dashes(line: Seq<char>) -> bool {
    &&& line.len() >= 3
    &&& line[0] == '-'
    &&& line[1] == '-'
    &&& line[2] == '-'
    &&& forall|j: int| 3 <= j < line.len() ==> #[trigger] line[j] == '\r' || line[j] == '\n'
}

/// Whether `s[p..q]` is a line of `s`, its line feed included.
pub open spec fn is_line(s: Seq<char>, p: int, q: int) -> bool {
    &&& 0 <= p < q <= s.len()
    &&& p == 0 || s[p - 1] == '\n'
    &&& forall|j: int| p <= j < q - 1 ==> #[trigger] s[j] != '\n'
    &&& s[q - 1] == '\n' || q == s.len()
}

/// Whether no line of `s` is three dashes.
pub open spec fn has_no_dashes(s: Seq<char>) -> bool {
    forall|p: int, q: int| is_line(s, p, q) ==> !is_dashes(#[trigger] s.subrange(p, q))
}

proof fn lemma_is_fence(line: Seq<char>)
    ensures
        is_fence(line) == is_dashes(line),
    decreases line.len(),
{
    if line.len() > 0 && (line.last() == '\r' || line.last() == '\n') {
        let head = line.drop_last();
        lemma_is_fence(head);
        if is_dashes(head) {
            assert forall|j: int| 3 <= j < line.len() implies #[trigger] line[j] == '\r' || line[j]
                == '\n' by {
                if j < head.len() {
                    assert(line[j] == head[j]);
                }
            }
        }
        if is_dashes(line) {
            assert forall|j: int| 3 <= j < head.len() implies #[trigger] head[j] == '\r' || head[j]
                == '\n' by {
                assert(head[j] == line[j]);
            }
        }
    } else if is_dashes(line) {
        assert(line.len() > 3 ==> line[line.len() - 1] == line.last());
        assert(line =~= dashes());
    } else if line == dashes() {
        assert(line[0] == '-' && line[1] == '-' && line[2] == '-');
    }
}

/// The lines of the rest behind the first line are lines of the whole.
proof fn lemma_rest_has_no_dashes(s: Seq<char>)
    requires
        s.len() > 0,
        has_no_dashes(s),
    ensures
        has_no_dashes(s.skip(line_len(s))),
        !is_fence(s.take(line_len(s))),
{
    let n = line_len(s);
    let t = s.skip(n);
    lemma_line_len(s);
    lemma_find_char(s, '\n');
    assert(is_line(s, 0, n));
    assert(s.subrange(0, n) =~= s.take(n));
    lemma_is_fence(s.take(n));
    assert forall|p: int, q: int| is_line(t, p, q) implies !is_dashes(
        #[trigger] t.subrange(p, q),
    ) by {
        assert(t.subrange(p, q) =~= s.subrange(n + p, n + q));
        assert forall|j: int| n + p <= j < n + q - 1 implies #[trigger] s[j] != '\n' by {
            assert(t[j - n] == s[j]);
        }
        assert(t[q - 1] == s[n + q - 1]);
        assert(p > 0 ==> t[p - 1] == s[n + p - 1]);
        assert(is_line(s, n + p, n + q));
    }
}

proof fn lemma_nothing_closes(s: Seq<char>)
    requires
        has_no_dashes(s),
    ensures
        closing_fence(s) is None,
    decreases s.len(),
{
    if s.len() > 0 {
        lemma_line_len(s);
        lemma_rest_has_no_dashes(s);
        lemma_nothing_closes(s.skip(line_len(s)));
    }
}

/// Behind a block without a line of dashes, the first such line closes it.
proof fn lemma_first_dashes_close(block: Seq<char>, tail: Seq<char>)
    requires
        block.len() == 0 || block.last() == '\n',
        has_no_dashes(block),
        closing_fence(tail) == Some(0int),
    ensures
        closing_fence(block + tail) == Some(block.len() as int),
    decreases block.len(),
{
    if block.len() == 0 {
        assert(block + tail =~= tail);
    } else {
        let n = line_len(block);
        let s = block + tail;
        lemma_line_len(block);
        lemma_find_char(block, '\n');
        assert(block[block.len() - 1] == '\n');
        assert forall|j: int| 0 <= j < n - 1 implies s[j] != '\n' by {
            assert(s[j] == block[j]);
        }
        assert(s[n - 1] == block[n - 1]);
        lemma_line_len_of(s, n - 1);
        assert(s.take(n) =~= block.take(n));
        lemma_rest_has_no_dashes(block);
        assert(s.skip(n) =~= block.skip(n) + tail);
        lemma_first_dashes_close(block.skip(n), tail);
    }
}

/// The block ends at the first line that is three dashes, and at no other: what
/// stands between an opening fence and the first such line is the frontmatter,
/// whatever else its lines hold, and what follows that line is the body.
pub proof fn law_block_ends_at_the_first_dashes(
    open: Seq<char>,
    block: Seq<char>,
    close: Seq<char>,
    body: Seq<char>,
)
    requires
        open == seq!['-', '-', '-', '\n'] || open == seq!['-', '-', '-', '\r', '\n'],
        block.len() == 0 || block.last() == '\n',
        has_no_dashes(block),
        is_dashes(close),
        forall|j: int| 0 <= j < close.len() - 1 ==> #[trigger] close[j] != '\n',
        close.last() == '\n' || body.len() == 0,
    ensures
        split_text(open + block + close + body).frontmatter == Some(block),
        split_text(open + block + close + body).body == body,
{
    let content = open + block + close + body;
    let tail = close + body;
    let inner = block + tail;
    let n = open.len() as int;
    assert(content =~= open + inner);
    law_line_ends_behind_its_line_feed(open, inner);
    assert(content.skip(n) =~= inner);
    assert(content.subrange(0, n) =~= open);
    law_line_ends_behind_its_line_feed(close, body);
    assert(tail.take(close.len() as int) =~= close);
    lemma_is_fence(close);
    lemma_first_dashes_close(block, tail);
    assert(inner.take(block.len() as int) =~= block);
    assert(inner.skip(block.len() as int) =~= tail);
    assert(tail.skip(close.len() as int) =~= body);
}

/// Without an opening fence in the first line, or without a line of three dashes
/// behind it, there is no frontmatter and all is body.
pub proof fn law_without_dashes_all_is_body(first: Seq<char>, rest: Seq<char>)
    requires
        forall|j: int| 0 <= j < first.len() - 1 ==> #[trigger] first[j] != '\n',
        first.len() > 0 && first.last() == '\n' || rest.len() == 0,
        (first != seq!['-', '-', '-', '\n'] && first != seq!['-', '-', '-', '\r', '\n'])
            || has_no_dashes(rest),
    ensures
        split_text(first + rest).frontmatter is None,
        split_text(first + rest).body == first + rest,
{
    let s = first + rest;
    law_line_ends_behind_its_line_feed(first, rest);
    assert(s.skip(first.len() as int) =~= rest);
    assert(s.take(first.len() as int) =~= first);
    if opens_block(s) {
        lemma_opening_line(s);
        lemma_nothing_closes(rest);
    }
}

/// What is saved without a file to go by is loaded again: the frontmatter stands
/// between two plain fences, and without frontmatter there is only the body.
pub proof fn law_joined_parts_come_apart(block: Seq<char>, body: Seq<char>)
    requires
        block.len() > 0,
        block.last() == '\n',
        has_no_dashes(block),
    ensures
        join_text(block, body) == seq!['-', '-', '-', '\n'] + block + seq!['-', '-', '-', '\n']
            + body,
        split_text(join_text(block, body)).frontmatter == Some(block),
        split_text(join_text(block, body)).body == body,
        join_text(Seq::empty(), body) == body,
{
    let f = seq!['-', '-', '-', '\n'];
    law_block_ends_at_the_first_dashes(f, block, f, body);
}

/// Saving an edited note changes the body alone: the block and its two fences
/// stay as they are in the file, and a fence that ended the file gets a line
/// feed before the new body.
pub proof fn law_edit_changes_the_body_alone(
    open: Seq<char>,
    block: Seq<char>,
    close: Seq<char>,
    body: Seq<char>,
    edited: Seq<char>,
)
    requires
        open == seq!['-', '-', '-', '\n'] || open == seq!['-', '-', '-', '\r', '\n'],
        block.len() == 0 || block.last() == '\n',
        has_no_dashes(block),
        is_dashes(close),
        forall|j: int| 0 <= j < close.len() - 1 ==> #[trigger] close[j] != '\n',
        close.last() == '\n' || body.len() == 0,
    ensures
        close.last() == '\n' || edited.len() == 0 ==> saved_text(
            open + block + close + body,
            block,
            edited,
        ) == open + block + close + edited,
        close.last() != '\n' && edited.len() > 0 ==> saved_text(
            open + block + close + body,
            block,
            edited,
        ) == open + block + close + seq!['\n'] + edited,
{
    let content = open + block + close + body;
    law_block_ends_at_the_first_dashes(open, block, close, body);
    lemma_fences_of(open, block, close, body);
    if close.last() != '\n' && edited.len() > 0 {
        assert(close.push('\n') =~= close + seq!['\n']);
        assert(open + block + (close + seq!['\n']) + edited =~= open + block + close + seq!['\n']
            + edited);
    }
}

/// The fences that a block stands between are those of the file.
proof fn lemma_fences_of(open: Seq<char>, block: Seq<char>, close: Seq<char>, body: Seq<char>)
    requires
        open == seq!['-', '-', '-', '\n'] || open == seq!['-', '-', '-', '\r', '\n'],
        block.len() == 0 || block.last() == '\n',
        has_no_dashes(block),
        is_dashes(close),
        forall|j: int| 0 <= j < close.len() - 1 ==> #[trigger] close[j] != '\n',
        close.last() == '\n' || body.len() == 0,
    ensures
        opening_line(open + block + close + body) == open,
        closing_line(open + block + close + body) == close,
{
    let content = open + block + close + body;
    let tail = close + body;
    let inner = block + tail;
    assert(content =~= open + inner);
    law_line_ends_behind_its_line_feed(open, inner);
    assert(content.take(open.len() as int) =~= open);
    assert(content.skip(open.len() as int) =~= inner);
    law_line_ends_behind_its_line_feed(close, body);
    lemma_is_fence(close);
    assert(tail.take(close.len() as int) =~= close);
    lemma_first_dashes_close(block, tail);
    assert(inner.skip(block.len() as int) =~= tail);
}

/// A note that is saved over a file with another block, or with none, is written
/// as if there were no file.
pub proof fn law_another_block_is_not_kept(
    original: Seq<char>,
    frontmatter: Seq<char>,
    body: Seq<char>,
)
    requires
        split_text(original).frontmatter != Some(frontmatter),
    ensures
        saved_text(original, frontmatter, body) == join_text(frontmatter, body),
{
}

/// What has to be parsed is the whole block, exactly if something in it is not
/// white space.
pub proof fn law_block_with_text_is_parsed(split: SplitView)
    ensures
        match yaml_text(split) {
            Some(y) => {
                &&& split.frontmatter == Some(y)
                &&& exists|i: int| 0 <= i < y.len() && !is_whitespace(#[trigger] y[i])
            },
            None => split.frontmatter matches Some(y) ==> forall|i: int|
                0 <= i < y.len() ==> is_whitespace(#[trigger] y[i]),
        },
{
    match split.frontmatter {
        Some(y) => {
            if trimmed(y).len() > 0 {
                lemma_trimmed(y);
                let i = choose|i: int| 0 <= i < y.len() && y[i] == trimmed(y)[0];
                assert(y.contains(trimmed(y)[0]));
                assert(!is_whitespace(y[i]));
            } else {
                assert forall|i: int| 0 <= i < y.len() implies is_whitespace(#[trigger] y[i]) by {
                    if !is_whitespace(y[i]) {
                        lemma_trimmed_keeps(y, y[i]);
                    }
                }
            }
        },
        None => {},
    }
}

/// The editor holds the block as it stands in the file, and nothing where there
/// is none.
pub proof fn law_held_is_what_was_split_off(split: SplitView)
    ensures
        split.frontmatter matches Some(y) ==> held_frontmatter(split) == y,
        split.frontmatter is None ==> held_frontmatter(split).len() == 0,
{
}

/// The value of frontmatter, and of the parts of a file, is that of each field.
pub proof fn law_fields_are_seen_as_they_are(fm: FrontMatter, split: Split<'_>)
    ensures
        fm.id matches Some(t) ==> fm@.id == Some(t@),
        fm.title matches Some(t) ==> fm@.title == Some(t@),
        fm.created matches Some(t) ==> fm@.created == Some(t@),
        fm.updated matches Some(t) ==> fm@.updated == Some(t@),
        fm.id is None <==> fm@.id is None,
        fm.title is None <==> fm@.title is None,
        fm.created is None <==> fm@.created is None,
        fm.updated is None <==> fm@.updated is None,
        fm@.favorite == fm.favorite,
        fm@.tags.len() == fm.tags@.len(),
        forall|i: int| 0 <= i < fm.tags@.len() ==> fm@.tags[i] == (#[trigger] fm.tags@[i])@,
        split.frontmatter matches Some(y) ==> split@.frontmatter == Some(y@),
        split.frontmatter is None <==> split@.frontmatter is None,
        split@.body == split.body@,
{
}

} // verus!
