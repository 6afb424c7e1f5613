//! Titles as links find them: by a key that ignores letter case and the white
//! space around, the first note with a title winning.
use vstd::hash_map::StringHashMap;
use vstd::prelude::*;

use crate::text::{to_lowercase, trim_string};
#[allow(unused_imports)]
use crate::paths::ascii_lowered;
#[allow(unused_imports)]
use crate::text::{ascii_lowercase, is_whitespace, law_trimming, lemma_front_ignored, lemma_start_then_back,
    lemma_trimmed, lowercase, trimmed, trimmed_end,
    trimmed_start};

verus! {

/// The key by which links find titles.
pub open spec fn title_key(title: Seq<char>) -> Seq<char> {
    lowercase(trimmed(title))
}

/// The key of a title for the resolution of links, which is the same however the
/// title is capitalised.
pub fn normalize_title(title: &str) -> (r: String)
    ensures
        r@ == title_key(title@),
        has_plain_key(title@),
{
    let t = trim_string(title);
    proof {
        lemma_trimmed(title@);
    }
    to_lowercase(t.as_str())
}

/// Whether the key of a title is known letter for letter: of a title of ASCII
/// characters it is the title without the white space around it, its letters
/// `A` to `Z` lowered.
pub open spec fn has_plain_key(title: Seq<char>) -> bool {
    vstd::utf8::is_ascii_chars(title) ==> title_key(title) == ascii_lowered(trimmed(title))
}

/// The place of the first of the keys that is `key`.
pub open spec fn first_of(keys: Seq<Seq<char>>, key: Seq<char>) -> Option<int>
    decreases keys.len(),
{
    if keys.len() == 0 {
        None
    } else {
        match first_of(keys.drop_last(), key) {
            Some(i) => Some(i),
            None => if keys.last() == key {
                Some(keys.len() - 1)
            } else {
                None
            },
        }
    }
}

/// Where a key is found, no earlier one is the same; where it is not, none is.
pub proof fn lemma_first_of(keys: Seq<Seq<char>>, key: Seq<char>)
    ensures
        match first_of(keys, key) {
            Some(i) => 0 <= i < keys.len() && keys[i] == key && forall|j: int|
                0 <= j < i ==> keys[j] != key,
            None => forall|j: int| 0 <= j < keys.len() ==> keys[j] != key,
        },
    decreases keys.len(),
{
    if keys.len() > 0 {
        let head = keys.drop_last();
        lemma_first_of(head, key);
        assert forall|j: int| 0 <= j < head.len() implies head[j] == keys[j] by {}
    }
}

/// The keys of a series of titles, for finding the first title with a key.
pub struct TitleIndex {
    places: StringHashMap<usize>,
    next: usize,
    keys: Ghost<Seq<Seq<char>>>,
}

impl TitleIndex {
    /// The keys that have been added, in their order.
    pub closed spec fn keys(&self) -> Seq<Seq<char>> {
        self.keys@
    }

    spec fn finds(&self, key: Seq<char>) -> bool {
        match first_of(self.keys@, key) {
            Some(i) => self.places@.contains_key(key) && self.places@[key] == i,
            None => !self.places@.contains_key(key),
        }
    }

    /// Whether the index finds the first of its keys.
    pub closed spec fn wf(&self) -> bool {
        &&& self.next == self.keys@.len()
        &&& forall|key: Seq<char>| #[trigger] self.finds(key)
    }

    /// An index without keys.
    pub fn new() -> (r: TitleIndex)
        ensures
            r.wf(),
            r.keys() == Seq::<Seq<char>>::empty(),
    {
        TitleIndex { places: StringHashMap::new(), next: 0, keys: Ghost(Seq::empty()) }
    }

    /// Adds the key of the next title. A key that is there already keeps its
    /// place.
    pub fn insert(&mut self, key: String)
        requires
            old(self).wf(),
            old(self).keys().len() < usize::MAX,
        ensures
            final(self).wf(),
            final(self).keys() == old(self).keys().push(key@),
    {
        let ghost k = key@;
        let ghost before = *self;
        proof {
            assert(before.finds(k));
        }
        if !self.places.contains_key(key.as_str()) {
            self.places.insert(key, self.next);
        }
        self.next = self.next + 1;
        self.keys = Ghost(self.keys@.push(k));
        proof {
            let after = *self;
            assert(after.keys@.drop_last() =~= before.keys@);
            assert forall|q: Seq<char>| #[trigger] after.finds(q) by {
                assert(before.finds(q));
            }
        }
    }

    /// The place of the first title with the key `key`.
    pub fn find(&self, key: &str) -> (r: Option<usize>)
        requires
            self.wf(),
        ensures
            match r {
                Some(i) => i < self.keys().len() && first_of(self.keys(), key@) == Some(i as int),
                None => first_of(self.keys(), key@) is None,
            },
    {
        proof {
            assert(self.finds(key@));
            lemma_first_of(self.keys@, key@);
        }
        match self.places.get(key) {
            Some(i) => Some(*i),
            None => None,
        }
    }
}

proof fn lemma_same_case(c: char, d: char)
    requires
        ascii_lowercase(c) == ascii_lowercase(d),
    ensures
        is_whitespace(c) == is_whitespace(d),
{
    let e = ascii_lowercase(c);
    assert('A' <= c <= 'Z' ==> 'a' <= e <= 'z');
    assert('A' <= d <= 'Z' ==> 'a' <= e <= 'z');
}

proof fn lemma_same_case_trimmed_start(a: Seq<char>, b: Seq<char>)
    requires
        ascii_lowered(a) == ascii_lowered(b),
    ensures
        ascii_lowered(trimmed_start(a)) == ascii_lowered(trimmed_start(b)),
    decreases a.len(),
{
    assert(a.len() == ascii_lowered(a).len() == ascii_lowered(b).len() == b.len());
    if a.len() > 0 {
        assert(ascii_lowercase(a[0]) == ascii_lowered(a)[0] == ascii_lowered(b)[0] == ascii_lowercase(
            b[0],
        ));
        lemma_same_case(a[0], b[0]);
        assert(ascii_lowered(a.skip(1)) =~= ascii_lowered(a).skip(1));
        assert(ascii_lowered(b.skip(1)) =~= ascii_lowered(b).skip(1));
        lemma_same_case_trimmed_start(a.skip(1), b.skip(1));
    }
}

proof fn lemma_same_case_trimmed_end(a: Seq<char>, b: Seq<char>)
    requires
        ascii_lowered(a) == ascii_lowered(b),
    ensures
        ascii_lowered(trimmed_end(a)) == ascii_lowered(trimmed_end(b)),
    decreases a.len(),
{
    assert(a.len() == ascii_lowered(a).len() == ascii_lowered(b).len() == b.len());
    if a.len() > 0 {
        assert(ascii_lowercase(a.last()) == ascii_lowered(a).last() == ascii_lowered(b).last()
            == ascii_lowercase(b.last()));
        lemma_same_case(a.last(), b.last());
        assert(ascii_lowered(a.drop_last()) =~= ascii_lowered(a).drop_last());
        assert(ascii_lowered(b.drop_last()) =~= ascii_lowered(b).drop_last());
        lemma_same_case_trimmed_end(a.drop_last(), b.drop_last());
    }
}

/// Titles match in any capitalisation: two titles that differ in the case of
/// the letters `A` to `Z` alone have one key, stated of the key that
/// `normalize_title` gives a title of ASCII characters.
pub proof fn law_titles_match_in_any_case(a: Seq<char>, b: Seq<char>)
    requires
        ascii_lowered(a) == ascii_lowered(b),
    ensures
        ascii_lowered(trimmed(a)) == ascii_lowered(trimmed(b)),
        vstd::utf8::is_ascii_chars(a) && vstd::utf8::is_ascii_chars(b) && has_plain_key(a)
            && has_plain_key(b) ==> title_key(a) == title_key(b),
{
    lemma_same_case_trimmed_start(a, b);
    lemma_same_case_trimmed_end(trimmed_start(a), trimmed_start(b));
}

/// A key is its own key: in a title of ASCII characters, what lowers the letters
/// and takes the white space off changes nothing when it is done again; so the
/// key of the title's key, once both are known letter for letter, is that key.
/// Of any other title it holds where the lower case of its key is the key, and
/// the key has no white space around it.
pub proof fn law_key_is_its_own_key(title: Seq<char>)
    ensures
        ({
            let key = ascii_lowered(trimmed(title));
            &&& ascii_lowered(trimmed(key)) == key
            &&& vstd::utf8::is_ascii_chars(title) ==> vstd::utf8::is_ascii_chars(key)
        }),
        vstd::utf8::is_ascii_chars(title) && has_plain_key(title) && has_plain_key(title_key(title))
            ==> title_key(title_key(title)) == title_key(title),
        lowercase(title_key(title)) == title_key(title) && trimmed(title_key(title)) == title_key(
            title,
        ) ==> title_key(title_key(title)) == title_key(title),
{
    let t = trimmed(title);
    let key = ascii_lowered(t);
    lemma_trimmed(title);
    if t.len() > 0 {
        assert(key[0] == ascii_lowercase(t[0]) && key.last() == ascii_lowercase(t.last()));
        lemma_same_case(t[0], key[0]);
        lemma_same_case(t.last(), key.last());
    }
    assert(trimmed(key) == key);
    assert(ascii_lowered(key) =~= key);
    if vstd::utf8::is_ascii_chars(title) {
        assert forall|i: int| 0 <= i < key.len() implies '\0' <= #[trigger] key[i] <= '\u{7f}' by {
            let j = choose|j: int| 0 <= j < title.len() && title[j] == t[i];
            assert(title.contains(t[i]));
        }
    }
}

/// The key of a title is the lower case of what stands in it between the first
/// and the last character that is not white space: inner white space, dots,
/// hashes and everything else of it stay.
pub proof fn law_key_is_the_lower_case(title: Seq<char>, from: int, to: int)
    requires
        0 <= from <= to <= title.len(),
        forall|j: int| 0 <= j < from ==> is_whitespace(#[trigger] title[j]),
        forall|j: int| to <= j < title.len() ==> is_whitespace(#[trigger] title[j]),
        from < to ==> !is_whitespace(title[from]) && !is_whitespace(title[to - 1]),
    ensures
        title_key(title) == lowercase(title.subrange(from, to)),
{
    law_trimming(title, from, to);
}

/// White space around a title plays no part in its key.
pub proof fn law_white_space_around_a_title_is_ignored(
    front: Seq<char>,
    title: Seq<char>,
    back: Seq<char>,
)
    requires
        forall|i: int| 0 <= i < front.len() ==> is_whitespace(#[trigger] front[i]),
        forall|i: int| 0 <= i < back.len() ==> is_whitespace(#[trigger] back[i]),
    ensures
        title_key(front + title + back) == title_key(title),
{
    assert(front + title + back =~= front + (title + back));
    lemma_front_ignored(front, title + back);
    lemma_start_then_back(title, back);
}

} // verus!
