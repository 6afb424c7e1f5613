//! Wiki-links: every `[[target]]` in the body of a note.
use vstd::prelude::*;

use crate::text::{chars, find_char, find_pair, string_of, trim};
#[allow(unused_imports)]
use crate::frontmatter::texts_of;
#[allow(unused_imports)]
use crate::text::{before, find, is_whitespace, lemma_find, lemma_find_char, lemma_find_extends,
    lemma_trimmed, trimmed};

verus! {

/// The brackets that open a link.
pub open spec fn link_open() -> Seq<char> {
    seq!['[', '[']
}

/// The brackets that close a link.
pub open spec fn link_close() -> Seq<char> {
    seq![']', ']']
}

/// What a link points to: the text between the brackets up to an alias (`|`)
/// or a heading (`#`), without the white space around it.
pub open spec fn link_target(inner: Seq<char>) -> Seq<char> {
    trimmed(before(before(inner, seq!['|']), seq!['#']))
}

/// The targets of the links in `s`, in their order. A link runs from the first
/// opening brackets to the first closing ones after them; the next is looked
/// for behind it. A link without a target counts for nothing.
pub open spec fn wikilinks(s: Seq<char>) -> Seq<Seq<char>>
    decreases s.len(),
{
    match find(s, link_open()) {
        None => Seq::empty(),
        Some(o) => {
            let after = s.skip(o + 2);
            match find(after, link_close()) {
                None => Seq::empty(),
                Some(c) => {
                    let target = link_target(after.take(c));
                    let found = if target.len() > 0 {
                        seq![target]
                    } else {
                        Seq::empty()
                    };
                    proof {
                        lemma_find(s, link_open());
                        lemma_find(after, link_close());
                    }
                    found + wikilinks(after.skip(c + 2))
                },
            }
        },
    }
}

/// The bounds of the target of the link whose text is `v[from..to]`.
fn target_bounds(v: &Vec<char>, from: usize, to: usize) -> (r: (usize, usize))
    requires
        from <= to <= v@.len(),
    ensures
        from <= r.0 <= r.1 <= to,
        v@.subrange(r.0 as int, r.1 as int) == link_target(v@.subrange(from as int, to as int)),
{
    let ghost inner = v@.subrange(from as int, to as int);
    let alias = match find_char(v, from, to, '|') {
        Some(i) => i,
        None => to,
    };
    assert(v@.subrange(from as int, alias as int) =~= before(inner, seq!['|']));
    let heading = match find_char(v, from, alias, '#') {
        Some(i) => i,
        None => alias,
    };
    assert(v@.subrange(from as int, heading as int) =~= before(before(inner, seq!['|']), seq!['#']));
    trim(v, from, heading)
}

/// Pulls the target of every `[[target]]` out of `body`. `[[Note|alias]]` and
/// `[[Note#heading]]` give the part before the `|` or the `#`.
pub fn extract_wikilinks(body: &str) -> (r: Vec<String>)
    ensures
        texts_of(r@) == wikilinks(body@),
{
    let v = chars(body);
    let n = v.len();
    let mut out: Vec<String> = Vec::new();
    let mut i: usize = 0;
    proof {
        assert(v@.skip(0) =~= v@);
        assert(texts_of(out@) + wikilinks(v@) =~= wikilinks(v@));
    }
    loop
        invariant
            n == v@.len(),
            v@ == body@,
            i <= n,
            texts_of(out@) + wikilinks(v@.skip(i as int)) == wikilinks(body@),
        decreases n - i,
    {
        let ghost s = v@.skip(i as int);
        assert(v@.subrange(i as int, n as int) =~= s);
        let open = match find_pair(&v, i, n, '[', '[') {
            Some(o) => o,
            None => {
                assert(texts_of(out@) + wikilinks(s) =~= texts_of(out@));
                return out;
            },
        };
        let ghost after = s.skip(open - i + 2);
        assert(v@.subrange(open + 2, n as int) =~= after);
        let close = match find_pair(&v, open + 2, n, ']', ']') {
            Some(c) => c,
            None => {
                assert(texts_of(out@) + wikilinks(s) =~= texts_of(out@));
                return out;
            },
        };
        let (a, b) = target_bounds(&v, open + 2, close);
        let ghost target = v@.subrange(a as int, b as int);
        let ghost c = close - open - 2;
        let ghost old_out = texts_of(out@);
        proof {
            assert(v@.subrange(open + 2, close as int) =~= after.take(c));
            assert(after.skip(c + 2) =~= v@.skip(close + 2));
            assert(wikilinks(s) == (if target.len() > 0 {
                seq![target]
            } else {
                Seq::empty()
            }) + wikilinks(v@.skip(close + 2)));
        }
        if a < b {
            out.push(string_of(&v, a, b));
            assert(texts_of(out@) =~= old_out + seq![target]);
        }
        proof {
            assert(texts_of(out@) + wikilinks(v@.skip(close + 2)) =~= old_out + wikilinks(s));
        }
        i = close + 2;
    }
}

/// Every target that is found can name a note: it is not empty, no white space
/// stands around it, and it holds no alias or heading.
pub proof fn law_targets_are_clean(body: Seq<char>)
    ensures
        forall|i: int|
            0 <= i < wikilinks(body).len() ==> {
                let t = #[trigger] wikilinks(body)[i];
                &&& t.len() > 0
                &&& trimmed(t) == t
                &&& !t.contains('|')
                &&& !t.contains('#')
            },
    decreases body.len(),
{
    if find(body, link_open()) is Some {
        let o = find(body, link_open())->0;
        lemma_find(body, link_open());
        let after = body.skip(o + 2);
        if find(after, link_close()) is Some {
            let c = find(after, link_close())->0;
            lemma_find(after, link_close());
            let t = link_target(after.take(c));
            let further = wikilinks(after.skip(c + 2));
            lemma_link_target(after.take(c));
            law_targets_are_clean(after.skip(c + 2));
            assert forall|i: int| 0 <= i < wikilinks(body).len() implies {
                let t = #[trigger] wikilinks(body)[i];
                &&& t.len() > 0
                &&& trimmed(t) == t
                &&& !t.contains('|')
                &&& !t.contains('#')
            } by {
                if t.len() > 0 {
                    assert(wikilinks(body) == seq![t] + further);
                    if i > 0 {
                        assert(wikilinks(body)[i] == further[i - 1]);
                    }
                } else {
                    assert(wikilinks(body) =~= further);
                    assert(wikilinks(body)[i] == further[i]);
                }
            }
        }
    }
}

/// Text that white space neither starts nor ends is left as it is.
proof fn lemma_trimmed_twice(t: Seq<char>)
    requires
        t.len() > 0 ==> !is_whitespace(t[0]) && !is_whitespace(t.last()),
    ensures
        trimmed(t) == t,
{
}

proof fn lemma_link_target(inner: Seq<char>)
    ensures
        ({
            let t = link_target(inner);
            &&& trimmed(t) == t
            &&& !t.contains('|')
            &&& !t.contains('#')
        }),
{
    let name = before(inner, seq!['|']);
    let cut = before(name, seq!['#']);
    lemma_find_char(inner, '|');
    lemma_find_char(name, '#');
    lemma_trimmed(cut);
    let t = link_target(inner);
    lemma_trimmed_twice(t);
    assert forall|j: int| 0 <= j < t.len() implies t[j] != '|' && t[j] != '#' by {
        let i = choose|i: int| 0 <= i < cut.len() && cut[i] == t[j];
        assert(cut[i] == name[i] && name[i] == inner[i]);
    }
}

/// A link that is written is found: behind text in which no link opens, a clean
/// target between the brackets, with an alias or a heading or without, gives
/// that target, and the search goes on behind the link.
pub proof fn law_written_link_is_found(
    front: Seq<char>,
    target: Seq<char>,
    label: Seq<char>,
    rest: Seq<char>,
)
    requires
        find(front + link_open(), link_open()) == Some(front.len() as int),
        find(target + label + link_close(), link_close()) == Some((target + label).len() as int),
        target.len() > 0,
        trimmed(target) == target,
        !target.contains('|'),
        !target.contains('#'),
        label.len() == 0 || label[0] == '|' || label[0] == '#',
    ensures
        wikilinks(front + link_open() + target + label + link_close() + rest) == seq![target]
            + wikilinks(rest),
{
    let inner = target + label;
    let s = front + link_open() + target + label + link_close() + rest;
    let after = inner + link_close() + rest;
    assert(s =~= front + link_open() + after);
    lemma_find_extends(front + link_open(), link_open(), after);
    assert(s.skip(front.len() as int + 2) =~= after);
    lemma_find_extends(inner + link_close(), link_close(), rest);
    assert(after.take(inner.len() as int) =~= inner);
    assert(after.skip(inner.len() as int + 2) =~= rest);
    let name = before(inner, seq!['|']);
    lemma_find_char(inner, '|');
    lemma_find_char(name, '#');
    assert forall|j: int| 0 <= j < target.len() implies inner[j] != '|' && inner[j] != '#' by {
        assert(inner[j] == target[j]);
    }
    let n = target.len() as int;
    if label.len() > 0 {
        assert(inner[n] == label[0]);
        if label[0] == '|' {
            assert(find(inner, seq!['|']) == Some(n));
            assert(name =~= target);
        } else {
            assert(name.len() > n && name[n] == '#');
            assert forall|j: int| 0 <= j < n implies name[j] != '#' by {
                assert(name[j] == inner[j]);
            }
            assert(find(name, seq!['#']) == Some(n));
        }
    } else {
        assert(inner =~= target);
        assert(name =~= target);
    }
    assert(before(name, seq!['#']) =~= target);
}

/// Whether two characters `c` stand side by side in `s`.
pub open spec fn has_pair(s: Seq<char>, c: char) -> bool {
    exists|j: int| 0 <= j < s.len() - 1 && #[trigger] s[j] == c && s[j + 1] == c
}

/// Where a character is not doubled, nothing is found of the pair.
proof fn lemma_no_pair(s: Seq<char>, c: char)
    requires
        !has_pair(s, c),
    ensures
        find(s, seq![c, c]) is None,
{
    let pat = seq![c, c];
    lemma_find(s, pat);
    if find(s, pat) is Some {
        let i = find(s, pat)->0;
        assert(s.subrange(i, i + 2)[0] == s[i]);
        assert(s.subrange(i, i + 2)[1] == s[i + 1]);
    }
}

/// The first pair behind text that has none, and does not end in its character,
/// is found there.
proof fn lemma_first_pair(front: Seq<char>, c: char, rest: Seq<char>)
    requires
        !has_pair(front, c),
        front.len() == 0 || front.last() != c,
    ensures
        find(front + seq![c, c] + rest, seq![c, c]) == Some(front.len() as int),
{
    let pat = seq![c, c];
    let s = front + pat + rest;
    let n = front.len() as int;
    assert(s.subrange(n, n + 2) =~= pat);
    assert forall|j: int| 0 <= j < n implies !crate::text::occurs_at(s, pat, j) by {
        if crate::text::occurs_at(s, pat, j) {
            assert(s.subrange(j, j + 2)[0] == s[j]);
            assert(s.subrange(j, j + 2)[1] == s[j + 1]);
            assert(s[j] == front[j]);
            if j + 1 < n {
                assert(s[j + 1] == front[j + 1]);
            }
        }
    }
    crate::text::lemma_find_is(s, pat, n);
}

/// Only doubled brackets make a link: text without a `[[`, or without a `]]`
/// behind the first one, has none, whatever other brackets it holds.
pub proof fn law_without_double_brackets_no_links(front: Seq<char>, after: Seq<char>)
    requires
        !has_pair(front, '['),
        front.len() == 0 || front.last() != '[',
        !has_pair(after, ']'),
    ensures
        wikilinks(front).len() == 0,
        wikilinks(front + seq!['[', '['] + after).len() == 0,
{
    lemma_no_pair(front, '[');
    lemma_first_pair(front, '[', after);
    let s = front + seq!['[', '['] + after;
    assert(s.skip(front.len() as int + 2) =~= after);
    lemma_no_pair(after, ']');
}

/// Text without a `[[` has no links, even if a single bracket ends it.
pub proof fn law_single_brackets_are_no_link(s: Seq<char>)
    requires
        !has_pair(s, '['),
    ensures
        wikilinks(s).len() == 0,
{
    lemma_no_pair(s, '[');
}

/// The links of a text, one by one: the first `[[`, what stands up to the first
/// `]]` behind it, and the links of what follows. Of what stands between the
/// brackets, the link gives what precedes an alias or a heading, without the
/// white space around it; where nothing is left, it gives nothing.
pub proof fn law_links_are_taken_one_by_one(
    front: Seq<char>,
    name: Seq<char>,
    label: Seq<char>,
    rest: Seq<char>,
)
    requires
        !has_pair(front, '['),
        front.len() == 0 || front.last() != '[',
        !has_pair(name + label, ']'),
        (name + label).len() == 0 || (name + label).last() != ']',
        !name.contains('|'),
        !name.contains('#'),
        label.len() == 0 || label[0] == '|' || label[0] == '#',
    ensures
        trimmed(name).len() > 0 ==> wikilinks(
            front + seq!['[', '['] + name + label + seq![']', ']'] + rest,
        ) == seq![trimmed(name)] + wikilinks(rest),
        trimmed(name).len() == 0 ==> wikilinks(
            front + seq!['[', '['] + name + label + seq![']', ']'] + rest,
        ) == wikilinks(rest),
{
    let inner = name + label;
    let after = inner + seq![']', ']'] + rest;
    let s = front + seq!['[', '['] + name + label + seq![']', ']'] + rest;
    assert(s =~= front + seq!['[', '['] + after);
    lemma_first_pair(front, '[', after);
    assert(s.skip(front.len() as int + 2) =~= after);
    lemma_first_pair(inner, ']', rest);
    assert(after.take(inner.len() as int) =~= inner);
    assert(after.skip(inner.len() as int + 2) =~= rest);
    lemma_name_of(name, label);
    assert(Seq::<Seq<char>>::empty() + wikilinks(rest) =~= wikilinks(rest));
}

/// The name of a link stands before its alias or heading.
proof fn lemma_name_of(name: Seq<char>, label: Seq<char>)
    requires
        !name.contains('|'),
        !name.contains('#'),
        label.len() == 0 || label[0] == '|' || label[0] == '#',
    ensures
        link_target(name + label) == trimmed(name),
{
    let inner = name + label;
    let n = name.len() as int;
    let head = before(inner, seq!['|']);
    lemma_find_char(inner, '|');
    lemma_find_char(head, '#');
    assert forall|j: int| 0 <= j < n implies inner[j] != '|' && inner[j] != '#' by {
        assert(inner[j] == name[j]);
    }
    if label.len() > 0 {
        assert(inner[n] == label[0]);
        if label[0] == '|' {
            assert(find(inner, seq!['|']) == Some(n));
            assert(head =~= name);
        } else {
            assert(head.len() > n && head[n] == '#');
            assert forall|j: int| 0 <= j < n implies head[j] != '#' by {
                assert(head[j] == inner[j]);
            }
            assert(find(head, seq!['#']) == Some(n));
        }
    } else {
        assert(inner =~= name);
        assert(head =~= name);
    }
    assert(before(head, seq!['#']) =~= name);
}

} // verus!
