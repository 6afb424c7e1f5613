//! What the place of a file in the vault says about it: whether it is a note at
//! all, the title its name gives it, and its PARA category.
use vstd::prelude::*;

use crate::text::{chars, find_char, find_pair, string_of, to_lowercase, trim};
#[allow(unused_imports)]
use crate::frontmatter::texts_of;
#[allow(unused_imports)]
use crate::text::{ascii_lowercase, before, find, lemma_find, lemma_find_char,
    lemma_find_extends, lemma_find_is, lemma_trimmed_keeps, lemma_trimmed_last, lowercase, occurs_at,
    trimmed};

verus! {

/// The components of a path under the vault: those behind the vault's own, or
/// all of them where the path does not lead into the vault.
pub open spec fn components_under(path: Seq<Seq<char>>, vault: Seq<Seq<char>>) -> Seq<Seq<char>> {
    if vault.is_prefix_of(path) {
        path.skip(vault.len() as int)
    } else {
        path
    }
}

/// How many components at the front of a path are the vault's, and left out of
/// the path of a note.
pub fn under_vault(path: &Vec<String>, vault: &Vec<String>) -> (r: usize)
    ensures
        r <= path@.len(),
        r == if texts_of(vault@).is_prefix_of(texts_of(path@)) {
            vault@.len()
        } else {
            0
        },
        texts_of(path@).skip(r as int) == components_under(texts_of(path@), texts_of(vault@)),
{
    let ghost (p, q) = (texts_of(path@), texts_of(vault@));
    assert(p.skip(0) =~= p);
    if vault.len() > path.len() {
        return 0;
    }
    let mut i: usize = 0;
    while i < vault.len()
        invariant
            i <= vault@.len() <= path@.len(),
            p == texts_of(path@),
            q == texts_of(vault@),
            p.skip(0) == p,
            forall|j: int| 0 <= j < i ==> p[j] == q[j],
        decreases vault@.len() - i,
    {
        assert(p[i as int] == path@[i as int]@ && q[i as int] == vault@[i as int]@);
        if path[i] != vault[i] {
            assert(p.subrange(0, q.len() as int)[i as int] == p[i as int]);
            return 0;
        }
        i += 1;
    }
    assert(p.subrange(0, q.len() as int) =~= q);
    i
}

/// Whether a component of a path is a dotfile or a dotfolder.
pub open spec fn is_dotted(component: Seq<char>) -> bool {
    component.len() > 0 && component[0] == '.'
}

/// Whether a file is hidden, by the components of its path under the vault: a
/// dotfile, or a file anywhere below a dotfolder.
pub fn is_hidden(components: &Vec<String>) -> (r: bool)
    ensures
        r == exists|i: int| 0 <= i < components@.len() && is_dotted(#[trigger] components@[i]@),
{
    let mut i: usize = 0;
    while i < components.len()
        invariant
            i <= components@.len(),
            forall|j: int| 0 <= j < i ==> !is_dotted(#[trigger] components@[j]@),
        decreases components@.len() - i,
    {
        let component = components[i].as_str();
        if !component.is_empty() && component.get_char(0) == '.' {
            assert(is_dotted(components@[i as int]@));
            return true;
        }
        i += 1;
    }
    false
}

/// The index of the last dot of a file name.
pub open spec fn last_dot(name: Seq<char>) -> Option<int>
    decreases name.len(),
{
    if name.len() == 0 {
        None
    } else if name.last() == '.' {
        Some(name.len() - 1)
    } else {
        last_dot(name.drop_last())
    }
}

/// Where the extension of a file name is cut off: at its last dot, unless the
/// name has none or only starts with one.
pub open spec fn extension_dot(name: Seq<char>) -> Option<int> {
    match last_dot(name) {
        Some(i) if i > 0 => Some(i),
        _ => None,
    }
}

fn find_extension_dot(v: &Vec<char>) -> (r: Option<usize>)
    ensures
        match r {
            Some(i) => 0 < i < v@.len() && extension_dot(v@) == Some(i as int),
            None => extension_dot(v@) is None,
        },
{
    let mut end: usize = v.len();
    assert(v@.take(end as int) =~= v@);
    while end > 0
        invariant
            end <= v@.len(),
            last_dot(v@.take(end as int)) == last_dot(v@),
        decreases end,
    {
        let ghost head = v@.take(end as int);
        assert(head.last() == v@[end - 1]);
        assert(head.drop_last() =~= v@.take(end - 1));
        if v[end - 1] == '.' {
            if end == 1 {
                return None;
            }
            return Some(end - 1);
        }
        end -= 1;
    }
    None
}

/// A file name without its extension.
pub open spec fn stem(name: Seq<char>) -> Seq<char> {
    match extension_dot(name) {
        Some(i) => name.take(i),
        None => name,
    }
}

/// The extension of a file name.
pub open spec fn extension(name: Seq<char>) -> Option<Seq<char>> {
    match extension_dot(name) {
        Some(i) => Some(name.skip(i + 1)),
        None => None,
    }
}

/// The title that a note has from its file name alone.
pub open spec fn name_title(file_name: Option<Seq<char>>) -> Seq<char> {
    match file_name {
        Some(name) => stem(name),
        None => "Untitled"@,
    }
}

/// The text of an optional borrowed string.
pub open spec fn str_of(s: Option<&str>) -> Option<Seq<char>> {
    match s {
        Some(t) => Some(t@),
        None => None,
    }
}

/// The stem of the file name at the end of a path, or `Untitled` where the path
/// ends in none.
pub fn filename_stem(file_name: Option<&str>) -> (r: String)
    ensures
        r@ == name_title(str_of(file_name)),
{
    match file_name {
        Some(name) => {
            let v = chars(name);
            match find_extension_dot(&v) {
                Some(i) => {
                    assert(v@.subrange(0, i as int) =~= v@.take(i as int));
                    string_of(&v, 0, i)
                },
                None => name.to_owned(),
            }
        },
        None => "Untitled".to_owned(),
    }
}

/// Whether a path leads to a markdown file: a file whose name ends in `.md` or
/// `.markdown`.
pub fn is_markdown(file_name: Option<&str>, is_file: bool) -> (r: bool)
    ensures
        r == (is_file && match str_of(file_name) {
            Some(name) => extension(name) == Some("md"@) || extension(name) == Some("markdown"@),
            None => false,
        }),
{
    if !is_file {
        return false;
    }
    match file_name {
        Some(name) => {
            let v = chars(name);
            match find_extension_dot(&v) {
                Some(i) => {
                    let ext = string_of(&v, i + 1, v.len());
                    assert(ext@ =~= v@.skip(i + 1));
                    ext == "md".to_owned() || ext == "markdown".to_owned()
                },
                None => false,
            }
        },
        None => false,
    }
}

/// Whether a file is a note of the vault, by the components of its path under the
/// vault and by its name: a markdown file that is not hidden.
pub fn is_note(components: &Vec<String>, file_name: Option<&str>, is_file: bool) -> (r: bool)
    ensures
        r == {
            &&& forall|i: int|
                0 <= i < components@.len() ==> !is_dotted(#[trigger] components@[i]@)
            &&& is_file
            &&& match str_of(file_name) {
                Some(name) => extension(name) == Some("md"@) || extension(name) == Some(
                    "markdown"@,
                ),
                None => false,
            }
        },
{
    !is_hidden(components) && is_markdown(file_name, is_file)
}

/// `c`, or a forward slash for a backslash.
pub open spec fn forward_slash(c: char) -> char {
    if c == '\\' {
        '/'
    } else {
        c
    }
}

/// A path with forward slashes.
pub open spec fn slashed(path: Seq<char>) -> Seq<char> {
    path.map_values(|c: char| forward_slash(c))
}

/// The path of a note as the index holds it: relative to the vault, with
/// forward slashes.
pub fn index_rel_path(path: &str) -> (r: String)
    ensures
        r@ == slashed(path@),
{
    let v = chars(path);
    let mut r = String::new();
    let mut i: usize = 0;
    while i < v.len()
        invariant
            i <= v@.len(),
            r@ == slashed(v@.take(i as int)),
        decreases v@.len() - i,
    {
        let c = v[i];
        r.push(if c == '\\' { '/' } else { c });
        i += 1;
        assert(r@ =~= slashed(v@.take(i as int)));
    }
    assert(v@.take(i as int) =~= v@);
    r
}

/// Whether `s` is a number: one digit or more, and nothing else.
pub open spec fn is_numbering(s: Seq<char>) -> bool {
    &&& s.len() > 0
    &&& forall|i: int| 0 <= i < s.len() ==> '0' <= #[trigger] s[i] <= '9'
}

/// A folder's name without a numbering (`1. `) in front of it. What else may
/// stand before a dot and a space is part of the name.
pub open spec fn unnumbered(folder: Seq<char>) -> Seq<char> {
    match find(folder, seq!['.', ' ']) {
        Some(i) if is_numbering(folder.take(i)) => folder.skip(i + 2),
        _ => folder,
    }
}

/// The name of the folder that gives a note its category: the first segment of
/// its path, without a numbering (`1. `) and the white space around it.
pub open spec fn category_name(rel_path: Seq<char>) -> Seq<char> {
    trimmed(unnumbered(before(rel_path, seq!['/'])))
}

/// Whether `v[from..to]` is a number.
fn numbering(v: &Vec<char>, from: usize, to: usize) -> (r: bool)
    requires
        from <= to <= v@.len(),
    ensures
        r == is_numbering(v@.subrange(from as int, to as int)),
{
    let ghost s = v@.subrange(from as int, to as int);
    let mut i = from;
    while i < to
        invariant
            from <= i <= to <= v@.len(),
            s == v@.subrange(from as int, to as int),
            forall|j: int| 0 <= j < i - from ==> '0' <= #[trigger] s[j] <= '9',
        decreases to - i,
    {
        let c = v[i];
        assert(c == s[i - from]);
        if c < '0' || '9' < c {
            return false;
        }
        i += 1;
    }
    from < to
}

/// The PARA category of a lowercase folder name.
pub open spec fn para_of(name: Seq<char>) -> Seq<char> {
    if name == "projects"@ || name == "project"@ {
        "project"@
    } else if name == "areas"@ || name == "area"@ {
        "area"@
    } else if name == "resources"@ || name == "resource"@ {
        "resource"@
    } else if name == "archive"@ {
        "archive"@
    } else {
        "inbox"@
    }
}

/// The PARA category of a note by its path.
pub open spec fn para_text(rel_path: Seq<char>) -> Seq<char> {
    para_of(lowercase(category_name(rel_path)))
}

/// `name` with the letters `A` to `Z` lowered.
pub open spec fn ascii_lowered(name: Seq<char>) -> Seq<char> {
    name.map_values(|c: char| ascii_lowercase(c))
}

/// The PARA category of a folder name in lower case.
pub fn para_category(name: String) -> (r: String)
    ensures
        r@ == para_of(name@),
{
    let para = if name == "projects".to_owned() || name == "project".to_owned() {
        "project"
    } else if name == "areas".to_owned() || name == "area".to_owned() {
        "area"
    } else if name == "resources".to_owned() || name == "resource".to_owned() {
        "resource"
    } else if name == "archive".to_owned() {
        "archive"
    } else {
        "inbox"
    };
    para.to_owned()
}

/// The PARA category of the note at `rel_path`, by the top-level folder that it
/// stands in. At the root of the vault, or in a folder that is none of the
/// categories, it is `inbox`.
pub fn para_from_path(rel_path: &str) -> (r: String)
    ensures
        r@ == para_text(rel_path@),
        vstd::utf8::is_ascii_chars(rel_path@) ==> r@ == para_of(
            ascii_lowered(category_name(rel_path@)),
        ),
{
    let v = chars(rel_path);
    assert(v@.subrange(0, v@.len() as int) =~= v@);
    let end = match find_char(&v, 0, v.len(), '/') {
        Some(i) => i,
        None => v.len(),
    };
    let ghost first = v@.subrange(0, end as int);
    assert(first =~= before(v@, seq!['/']));
    let start = match find_pair(&v, 0, end, '.', ' ') {
        Some(i) => {
            assert(v@.subrange(0, i as int) =~= first.take(i as int));
            if numbering(&v, 0, i) {
                i + 2
            } else {
                0
            }
        },
        None => 0,
    };
    assert(v@.subrange(start as int, end as int) =~= unnumbered(first));
    let (a, b) = trim(&v, start, end);
    let name = string_of(&v, a, b);
    assert(name@ == category_name(rel_path@));
    let lowered = to_lowercase(name.as_str());
    assert(vstd::utf8::is_ascii_chars(rel_path@) ==> vstd::utf8::is_ascii_chars(name@)) by {
        assert forall|i: int| 0 <= i < name@.len() implies name@[i] == rel_path@[a + i] by {}
    }
    para_category(lowered)
}

/// A note is never without a category.
pub proof fn law_every_note_has_a_category(rel_path: Seq<char>)
    ensures
        ({
            let p = para_text(rel_path);
            p == "inbox"@ || p == "project"@ || p == "area"@ || p == "resource"@ || p
                == "archive"@
        }),
{
}

/// Subfolders inherit the category of the top-level folder: what stands behind
/// the first slash plays no part.
pub proof fn law_subfolders_inherit(top: Seq<char>, rest: Seq<char>)
    requires
        !top.contains('/'),
    ensures
        para_text(top + seq!['/'] + rest) == para_text(top),
{
    let path = top + seq!['/'] + rest;
    lemma_find_char(path, '/');
    lemma_find_char(top, '/');
    assert(path[top.len() as int] == '/');
    assert forall|j: int| 0 <= j < top.len() implies path[j] != '/' by {
        assert(path[j] == top[j]);
    }
    assert(before(path, seq!['/']) =~= top);
    assert(before(top, seq!['/']) =~= top);
}

/// A numbering in front of a folder's name does not change the category:
/// `1. Projects` is `Projects`, unless that name has a numbering of its own.
pub proof fn law_numbering_is_ignored(number: Seq<char>, name: Seq<char>)
    requires
        is_numbering(number),
        !name.contains('/'),
        unnumbered(name) == name,
    ensures
        para_text(number + seq!['.', ' '] + name) == para_text(name),
{
    let dot = seq!['.', ' '];
    let path = number + dot + name;
    lemma_find_char(path, '/');
    lemma_find_char(name, '/');
    assert forall|j: int| 0 <= j < path.len() implies path[j] != '/' by {
        if j < number.len() {
            assert(path[j] == number[j]);
        } else if j < number.len() + 2 {
            assert(path[j] == dot[j - number.len()]);
        } else {
            assert(path[j] == name[j - number.len() - 2]);
        }
    }
    assert(before(path, seq!['/']) =~= path);
    assert(before(name, seq!['/']) =~= name);
    assert(path.subrange(number.len() as int, number.len() as int + 2) =~= dot);
    assert forall|j: int| 0 <= j < number.len() implies !occurs_at(path, dot, j) by {
        assert(path.subrange(j, j + 2)[0] == number[j]);
    }
    lemma_find_is(path, dot, number.len() as int);
    assert(path.take(number.len() as int) =~= number);
    assert(path.skip(number.len() as int + 2) =~= name);
}

/// A prefix that is no number belongs to the folder's name, which is then none
/// of the categories: `Old. Projects` is in the inbox, by the category that
/// `para_from_path` gives a path of ASCII characters, and by any other
/// lower-case form of the name that keeps the dot.
pub proof fn law_other_prefixes_stay(prefix: Seq<char>, name: Seq<char>, lowered: Seq<char>)
    requires
        !is_numbering(prefix),
        !prefix.contains('/'),
        !name.contains('/'),
        find(prefix + seq!['.', ' '], seq!['.', ' ']) == Some(prefix.len() as int),
    ensures
        category_name(prefix + seq!['.', ' '] + name) == trimmed(prefix + seq!['.', ' '] + name),
        category_name(prefix + seq!['.', ' '] + name).contains('.'),
        para_of(ascii_lowered(category_name(prefix + seq!['.', ' '] + name))) == "inbox"@,
        lowered.contains('.') ==> para_of(lowered) == "inbox"@,
{
    let dot = seq!['.', ' '];
    let path = prefix + dot + name;
    lemma_find_char(path, '/');
    assert forall|j: int| 0 <= j < path.len() implies path[j] != '/' by {
        if j < prefix.len() {
            assert(path[j] == prefix[j]);
        } else if j < prefix.len() + 2 {
            assert(path[j] == dot[j - prefix.len()]);
        } else {
            assert(path[j] == name[j - prefix.len() - 2]);
        }
    }
    assert(before(path, seq!['/']) =~= path);
    lemma_find_extends(prefix + dot, dot, name);
    assert(path.take(prefix.len() as int) =~= prefix);
    assert(path[prefix.len() as int] == '.');
    lemma_trimmed_keeps(path, '.');
    let category = category_name(path);
    let i = choose|i: int| 0 <= i < category.len() && category[i] == '.';
    assert(ascii_lowered(category)[i] == '.');
    lemma_dotted_is_no_category(ascii_lowered(category));
    if lowered.contains('.') {
        lemma_dotted_is_no_category(lowered);
    }
}

/// No category has a dot in its name.
proof fn lemma_dotted_is_no_category(name: Seq<char>)
    requires
        name.contains('.'),
    ensures
        para_of(name) == "inbox"@,
{
    reveal_strlit("projects");
    reveal_strlit("project");
    reveal_strlit("areas");
    reveal_strlit("area");
    reveal_strlit("resources");
    reveal_strlit("resource");
    reveal_strlit("archive");
    assert(!"projects"@.contains('.'));
    assert(!"project"@.contains('.'));
    assert(!"areas"@.contains('.'));
    assert(!"area"@.contains('.'));
    assert(!"resources"@.contains('.'));
    assert(!"resource"@.contains('.'));
    assert(!"archive"@.contains('.'));
}

/// A note at the root of the vault falls into the inbox, whatever its name is:
/// by the category that `para_from_path` gives a path of ASCII characters, and
/// by any other lower-case form of its name that ends in the letter that the
/// name ends in.
pub proof fn law_root_note_is_in_the_inbox(rel_path: Seq<char>, lowered: Seq<char>)
    requires
        !rel_path.contains('/'),
        extension(rel_path) == Some("md"@) || extension(rel_path) == Some("markdown"@),
    ensures
        para_of(ascii_lowered(category_name(rel_path))) == "inbox"@,
        category_name(rel_path).len() > 0,
        lowered.len() > 0 && lowered.last() == category_name(rel_path).last() ==> para_of(lowered)
            == "inbox"@,
{
    reveal_strlit("md");
    reveal_strlit("markdown");
    reveal_strlit("projects");
    reveal_strlit("project");
    reveal_strlit("areas");
    reveal_strlit("area");
    reveal_strlit("resources");
    reveal_strlit("resource");
    reveal_strlit("archive");
    let end = rel_path.last();
    lemma_last_dot(rel_path);
    assert(end == extension(rel_path)->0.last());
    assert(end == 'd' || end == 'n');
    lemma_find_char(rel_path, '/');
    assert(before(rel_path, seq!['/']) =~= rel_path);
    let dot = seq!['.', ' '];
    lemma_find(rel_path, dot);
    if find(rel_path, dot) is Some {
        let i = find(rel_path, dot)->0;
        assert(rel_path.subrange(i, i + 2)[1] == rel_path[i + 1]);
    }
    let name = unnumbered(rel_path);
    assert(name.last() == end);
    lemma_trimmed_last(name);
    assert(ascii_lowered(category_name(rel_path)).last() == end);
}

proof fn lemma_last_dot(name: Seq<char>)
    ensures
        last_dot(name) matches Some(i) ==> 0 <= i < name.len(),
    decreases name.len(),
{
    if name.len() > 0 {
        lemma_last_dot(name.drop_last());
    }
}

/// A component is a dotfile or a dotfolder exactly if a dot is its first
/// character, whatever follows.
pub proof fn law_leading_dot_hides(rest: Seq<char>, c: char)
    ensures
        is_dotted(seq!['.'] + rest),
        c != '.' ==> !is_dotted(seq![c] + rest),
        !is_dotted(Seq::empty()),
{
    assert((seq!['.'] + rest)[0] == '.');
    assert((seq![c] + rest)[0] == c);
}

/// The name of a file is cut at its last dot: what stands before is the stem,
/// what stands behind the extension, as long as something stands before it.
pub proof fn law_name_is_cut_at_its_last_dot(base: Seq<char>, ext: Seq<char>)
    requires
        base.len() > 0,
        !ext.contains('.'),
    ensures
        stem(base + seq!['.'] + ext) == base,
        extension(base + seq!['.'] + ext) == Some(ext),
{
    let name = base + seq!['.'] + ext;
    lemma_last_dot_behind(base, ext);
    assert(name.take(base.len() as int) =~= base);
    assert(name.skip(base.len() as int + 1) =~= ext);
}

/// A name without a dot, or with none but its first character, has no extension
/// and is its own stem.
pub proof fn law_name_without_extension_is_its_stem(name: Seq<char>)
    requires
        !name.contains('.'),
    ensures
        stem(name) == name,
        extension(name) is None,
        stem(seq!['.'] + name) == seq!['.'] + name,
        extension(seq!['.'] + name) is None,
{
    lemma_no_last_dot(name);
    let empty = Seq::<char>::empty();
    lemma_last_dot_behind(empty, name);
    assert(empty + seq!['.'] + name =~= seq!['.'] + name);
}

proof fn lemma_last_dot_behind(base: Seq<char>, ext: Seq<char>)
    requires
        !ext.contains('.'),
    ensures
        last_dot(base + seq!['.'] + ext) == Some(base.len() as int),
    decreases ext.len(),
{
    let name = base + seq!['.'] + ext;
    if ext.len() == 0 {
        assert(name.last() == '.');
    } else {
        assert(name.last() == ext.last() && ext.contains(ext.last()));
        assert(name.drop_last() =~= base + seq!['.'] + ext.drop_last());
        assert forall|j: int| 0 <= j < ext.len() - 1 implies ext.drop_last()[j] != '.' by {
            assert(ext.contains(ext[j]));
        }
        lemma_last_dot_behind(base, ext.drop_last());
    }
}

proof fn lemma_no_last_dot(name: Seq<char>)
    requires
        !name.contains('.'),
    ensures
        last_dot(name) is None,
    decreases name.len(),
{
    if name.len() > 0 {
        assert(name.contains(name.last()));
        assert forall|j: int| 0 <= j < name.len() - 1 implies name.drop_last()[j] != '.' by {
            assert(name.contains(name[j]));
        }
        lemma_no_last_dot(name.drop_last());
    }
}

/// A note without a title of its own is called by its file's name without the
/// extension.
pub proof fn law_file_name_gives_the_title(name: Seq<char>)
    ensures
        name_title(Some(name)) == stem(name),
        name_title(None) == "Untitled"@,
{
}

/// In the path of a note every backslash is turned into a slash, and nothing
/// else is changed.
pub proof fn law_only_backslashes_turn(path: Seq<char>)
    ensures
        slashed(path).len() == path.len(),
        forall|i: int|
            0 <= i < path.len() ==> #[trigger] slashed(path)[i] == (if path[i] == '\\' {
                '/'
            } else {
                path[i]
            }),
{
}

/// The folder that counts is what stands before the first slash, without the
/// white space around it, where it has no numbering.
pub proof fn law_category_is_the_first_folder(folder: Seq<char>, rest: Seq<char>)
    requires
        !folder.contains('/'),
        rest.len() == 0 || rest[0] == '/',
        forall|i: int|
            0 < i < folder.len() - 1 && #[trigger] folder[i] == '.' && folder[i + 1] == ' '
                ==> exists|j: int|
                0 <= j < i && !('0' <= #[trigger] folder[j] <= '9'),
    ensures
        category_name(folder + rest) == trimmed(folder),
{
    let dot = seq!['.', ' '];
    lemma_first_folder(folder, rest);
    lemma_find(folder, dot);
    if find(folder, dot) is Some {
        let i = find(folder, dot)->0;
        assert(folder.subrange(i, i + 2)[0] == folder[i]);
        assert(folder.subrange(i, i + 2)[1] == folder[i + 1]);
        if is_numbering(folder.take(i)) {
            let j = choose|j: int| 0 <= j < i && !('0' <= #[trigger] folder[j] <= '9');
            assert(folder.take(i)[j] == folder[j]);
        }
    }
}

/// A numbered folder counts without its number, whatever is in it.
pub proof fn law_category_is_behind_the_number(
    number: Seq<char>,
    name: Seq<char>,
    rest: Seq<char>,
)
    requires
        number.len() > 0,
        forall|i: int| 0 <= i < number.len() ==> '0' <= #[trigger] number[i] <= '9',
        !name.contains('/'),
        rest.len() == 0 || rest[0] == '/',
    ensures
        category_name(number + seq!['.', ' '] + name + rest) == trimmed(name),
{
    let dot = seq!['.', ' '];
    let folder = number + dot + name;
    let n = number.len() as int;
    assert forall|j: int| 0 <= j < folder.len() implies folder[j] != '/' by {
        if j < n {
            assert(folder[j] == number[j]);
        } else if j < n + 2 {
            assert(folder[j] == dot[j - n]);
        } else {
            assert(folder[j] == name[j - n - 2]);
        }
    }
    lemma_first_folder(folder, rest);
    assert(folder.subrange(n, n + 2) =~= dot);
    assert forall|j: int| 0 <= j < n implies !occurs_at(folder, dot, j) by {
        assert(folder.subrange(j, j + 2)[0] == number[j]);
    }
    lemma_find_is(folder, dot, n);
    assert(folder.take(n) =~= number);
    assert(folder.skip(n + 2) =~= name);
}

proof fn lemma_first_folder(folder: Seq<char>, rest: Seq<char>)
    requires
        !folder.contains('/'),
        rest.len() == 0 || rest[0] == '/',
    ensures
        before(folder + rest, seq!['/']) == folder,
{
    let path = folder + rest;
    lemma_find_char(path, '/');
    assert forall|j: int| 0 <= j < folder.len() implies path[j] != '/' by {
        assert(path[j] == folder[j]);
    }
    if rest.len() > 0 {
        assert(path[folder.len() as int] == '/');
    }
    assert(before(path, seq!['/']) =~= folder);
}

/// The category of a folder, by its name in lower case: each of the four has its
/// names, and every other folder is the inbox.
pub proof fn law_names_of_the_categories(name: Seq<char>)
    ensures
        para_of(name) == "project"@ <==> name == "projects"@ || name == "project"@,
        para_of(name) == "area"@ <==> name == "areas"@ || name == "area"@,
        para_of(name) == "resource"@ <==> name == "resources"@ || name == "resource"@,
        para_of(name) == "archive"@ <==> name == "archive"@,
        para_of(name) == "inbox"@ || para_of(name) == "project"@ || para_of(name) == "area"@
            || para_of(name) == "resource"@ || para_of(name) == "archive"@,
{
    reveal_strlit("projects");
    reveal_strlit("project");
    reveal_strlit("areas");
    reveal_strlit("area");
    reveal_strlit("resources");
    reveal_strlit("resource");
    reveal_strlit("archive");
    reveal_strlit("inbox");
    assert("project"@[0] == 'p' && "projects"@[0] == 'p');
    assert("area"@[1] == 'r' && "areas"@[1] == 'r' && "archive"@[2] == 'c' && "area"@[2] == 'e'
        && "areas"@[2] == 'e');
    assert("resource"@[0] == 'r' && "resources"@[0] == 'r');
    assert("area"@[0] == 'a' && "areas"@[0] == 'a' && "archive"@[0] == 'a' && "inbox"@[0] == 'i');
    assert("projects"@.len() == 8 && "project"@.len() == 7 && "areas"@.len() == 5 && "area"@.len()
        == 4 && "resources"@.len() == 9 && "resource"@.len() == 8 && "archive"@.len() == 7);
}

/// The category of a note is that of its folder's name in lower case.
pub proof fn law_category_goes_by_lower_case(rel_path: Seq<char>)
    ensures
        para_text(rel_path) == para_of(lowercase(category_name(rel_path))),
        ascii_lowered(rel_path).len() == rel_path.len(),
        forall|i: int|
            0 <= i < rel_path.len() ==> #[trigger] ascii_lowered(rel_path)[i] == ascii_lowercase(
                rel_path[i],
            ),
{
}

} // verus!
