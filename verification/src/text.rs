//! Text as sequences of characters: white space, searching, and the order and
//! letter case of strings.
use vstd::prelude::*;

verus! {

/// The characters of the Unicode property White_Space.
pub open spec fn is_whitespace(c: char) -> bool {
    ||| '\u{9}' <= c <= '\u{d}'
    ||| c == ' '
    ||| c == '\u{85}'
    ||| c == '\u{a0}'
    ||| c == '\u{1680}'
    ||| '\u{2000}' <= c <= '\u{200a}'
    ||| c == '\u{2028}'
    ||| c == '\u{2029}'
    ||| c == '\u{202f}'
    ||| c == '\u{205f}'
    ||| c == '\u{3000}'
}

/// `s` without its leading white space.
pub open spec fn trimmed_start(s: Seq<char>) -> Seq<char>
    decreases s.len(),
{
    if s.len() > 0 && is_whitespace(s[0]) {
        trimmed_start(s.skip(1))
    } else {
        s
    }
}

/// `s` without its trailing white space.
pub open spec fn trimmed_end(s: Seq<char>) -> Seq<char>
    decreases s.len(),
{
    if s.len() > 0 && is_whitespace(s.last()) {
        trimmed_end(s.drop_last())
    } else {
        s
    }
}

/// `s` without its leading and trailing white space.
pub open spec fn trimmed(s: Seq<char>) -> Seq<char> {
    trimmed_end(trimmed_start(s))
}

/// Whether `pat` stands in `s` at index `i`.
pub open spec fn occurs_at(s: Seq<char>, pat: Seq<char>, i: int) -> bool {
    &&& 0 <= i
    &&& i + pat.len() <= s.len()
    &&& s.subrange(i, i + pat.len()) == pat
}

/// The index of the first occurrence of `pat` in `s`.
pub open spec fn find(s: Seq<char>, pat: Seq<char>) -> Option<int>
    decreases s.len(),
{
    if s.len() < pat.len() {
        None
    } else if s.take(pat.len() as int) == pat {
        Some(0)
    } else if s.len() == 0 {
        None
    } else {
        match find(s.skip(1), pat) {
            Some(i) => Some(i + 1),
            None => None,
        }
    }
}

/// What stands in `s` before the first occurrence of `pat`: all of `s` where
/// there is none.
pub open spec fn before(s: Seq<char>, pat: Seq<char>) -> Seq<char> {
    match find(s, pat) {
        Some(i) => s.take(i),
        None => s,
    }
}

/// The length of the first line of `s`, its line feed included.
pub open spec fn line_len(s: Seq<char>) -> int {
    match find(s, seq!['\n']) {
        Some(i) => i + 1,
        None => s.len() as int,
    }
}

/// The order of strings: by the first character in which two of them differ, a
/// string before its extensions.
pub open spec fn string_less(a: Seq<char>, b: Seq<char>) -> bool
    decreases a.len(),
{
    &&& b.len() > 0
    &&& {
        ||| a.len() == 0
        ||| a[0] < b[0]
        ||| a[0] == b[0] && string_less(a.skip(1), b.skip(1))
    }
}

/// `String::push` appends the given character to the end of the string.
pub assume_specification[ String::push ](s: &mut String, ch: char)
    ensures
        final(s)@ == old(s)@.push(ch),
;

/// What `str::to_lowercase` makes of a string.
pub uninterp spec fn lowercase(s: Seq<char>) -> Seq<char>;

/// `c` with the letters `A` to `Z` lowered.
pub open spec fn ascii_lowercase(c: char) -> char {
    if 'A' <= c <= 'Z' {
        (c as u32 + 32) as char
    } else {
        c
    }
}

/// `str::to_lowercase`, the Unicode lowercase of a string. It depends on the
/// string alone; in a string of ASCII characters it lowers the letters `A` to
/// `Z` and keeps everything else. Nothing more is said of other strings: not
/// that lowering one a second time changes nothing, nor that no white space
/// comes of it.
#[verifier::external_body]
pub(crate) fn to_lowercase(s: &str) -> (r: String)
    ensures
        r@ == lowercase(s@),
        vstd::utf8::is_ascii_chars(s@) ==> r@ == s@.map_values(|c: char| ascii_lowercase(c)),
{
    s.to_lowercase()
}

/// An occurrence that no earlier one precedes is the one that `find` gives.
pub proof fn lemma_find_is(s: Seq<char>, pat: Seq<char>, i: int)
    requires
        pat.len() > 0,
        occurs_at(s, pat, i),
        forall|j: int| 0 <= j < i ==> !occurs_at(s, pat, j),
    ensures
        find(s, pat) == Some(i),
    decreases s.len(),
{
    if i == 0 {
        assert(s.take(pat.len() as int) =~= s.subrange(0, pat.len() as int));
    } else {
        assert(!occurs_at(s, pat, 0));
        assert(s.take(pat.len() as int) =~= s.subrange(0, pat.len() as int));
        let t = s.skip(1);
        assert(t.subrange(i - 1, i - 1 + pat.len()) =~= s.subrange(i, i + pat.len()));
        assert forall|j: int| 0 <= j < i - 1 implies !occurs_at(t, pat, j) by {
            if occurs_at(t, pat, j) {
                assert(t.subrange(j, j + pat.len()) =~= s.subrange(j + 1, j + 1 + pat.len()));
                assert(occurs_at(s, pat, j + 1));
            }
        }
        lemma_find_is(t, pat, i - 1);
    }
}

/// Where nothing occurs, `find` gives nothing.
pub proof fn lemma_find_none(s: Seq<char>, pat: Seq<char>)
    requires
        pat.len() > 0,
        forall|j: int| 0 <= j ==> !occurs_at(s, pat, j),
    ensures
        find(s, pat) is None,
    decreases s.len(),
{
    if s.len() >= pat.len() {
        assert(!occurs_at(s, pat, 0));
        assert(s.take(pat.len() as int) =~= s.subrange(0, pat.len() as int));
        let t = s.skip(1);
        assert forall|j: int| 0 <= j implies !occurs_at(t, pat, j) by {
            if occurs_at(t, pat, j) {
                assert(t.subrange(j, j + pat.len()) =~= s.subrange(j + 1, j + 1 + pat.len()));
                assert(occurs_at(s, pat, j + 1));
            }
        }
        lemma_find_none(t, pat);
    }
}

/// What `find` gives is an occurrence, and no other precedes it.
pub proof fn lemma_find(s: Seq<char>, pat: Seq<char>)
    requires
        pat.len() > 0,
    ensures
        match find(s, pat) {
            Some(i) => occurs_at(s, pat, i) && forall|j: int|
                0 <= j < i ==> !occurs_at(s, pat, j),
            None => forall|j: int| !occurs_at(s, pat, j),
        },
    decreases s.len(),
{
    if s.len() >= pat.len() {
        assert(s.take(pat.len() as int) =~= s.subrange(0, pat.len() as int));
        let t = s.skip(1);
        lemma_find(t, pat);
        assert forall|j: int| 1 <= j implies occurs_at(s, pat, j) == occurs_at(t, pat, j - 1) by {
            if j + pat.len() <= s.len() {
                assert(t.subrange(j - 1, j - 1 + pat.len()) =~= s.subrange(j, j + pat.len()));
            }
        }
    }
}

/// What follows the first occurrence does not change where it is.
pub proof fn lemma_find_extends(s: Seq<char>, pat: Seq<char>, rest: Seq<char>)
    requires
        pat.len() > 0,
        find(s, pat) is Some,
    ensures
        find(s + rest, pat) == find(s, pat),
{
    let i = find(s, pat)->0;
    let t = s + rest;
    lemma_find(s, pat);
    assert(t.subrange(i, i + pat.len()) =~= s.subrange(i, i + pat.len()));
    assert forall|j: int| 0 <= j < i implies !occurs_at(t, pat, j) by {
        assert(!occurs_at(s, pat, j));
        assert(t.subrange(j, j + pat.len()) =~= s.subrange(j, j + pat.len()));
    }
    lemma_find_is(t, pat, i);
}

/// `find` for a single character.
pub proof fn lemma_find_char(s: Seq<char>, c: char)
    ensures
        match find(s, seq![c]) {
            Some(i) => 0 <= i < s.len() && s[i] == c && forall|j: int| 0 <= j < i ==> s[j] != c,
            None => forall|j: int| 0 <= j < s.len() ==> s[j] != c,
        },
{
    let pat = seq![c];
    lemma_find(s, pat);
    assert forall|j: int| 0 <= j < s.len() implies occurs_at(s, pat, j) == (s[j] == c) by {
        assert(s.subrange(j, j + 1)[0] == s[j]);
        if s[j] == c {
            assert(s.subrange(j, j + 1) =~= pat);
        }
    }
}

/// Trimming leaves a part of the text that white space neither starts nor ends.
pub proof fn lemma_trimmed(s: Seq<char>)
    ensures
        trimmed(s).len() > 0 ==> !is_whitespace(trimmed(s)[0]) && !is_whitespace(trimmed(s).last()),
        forall|j: int| 0 <= j < trimmed(s).len() ==> s.contains(#[trigger] trimmed(s)[j]),
        trimmed(s).len() <= s.len(),
{
    lemma_trimmed_start(s);
    lemma_trimmed_end(trimmed_start(s));
}

/// Trimming takes nothing but white space away.
pub proof fn lemma_trimmed_keeps(s: Seq<char>, c: char)
    requires
        s.contains(c),
        !is_whitespace(c),
    ensures
        trimmed(s).contains(c),
{
    lemma_trimmed_start_keeps(s, c);
    lemma_trimmed_end_keeps(trimmed_start(s), c);
}

proof fn lemma_trimmed_start_keeps(s: Seq<char>, c: char)
    requires
        s.contains(c),
        !is_whitespace(c),
    ensures
        trimmed_start(s).contains(c),
    decreases s.len(),
{
    if is_whitespace(s[0]) {
        let i = choose|i: int| 0 <= i < s.len() && s[i] == c;
        assert(s.skip(1)[i - 1] == c);
        lemma_trimmed_start_keeps(s.skip(1), c);
    }
}

proof fn lemma_trimmed_end_keeps(s: Seq<char>, c: char)
    requires
        s.contains(c),
        !is_whitespace(c),
    ensures
        trimmed_end(s).contains(c),
    decreases s.len(),
{
    if is_whitespace(s.last()) {
        let i = choose|i: int| 0 <= i < s.len() && s[i] == c;
        assert(s.drop_last()[i] == c);
        lemma_trimmed_end_keeps(s.drop_last(), c);
    }
}

proof fn lemma_trimmed_start(s: Seq<char>)
    ensures
        trimmed_start(s).len() > 0 ==> !is_whitespace(trimmed_start(s)[0]),
        forall|j: int|
            0 <= j < trimmed_start(s).len() ==> s.contains(#[trigger] trimmed_start(s)[j]),
        trimmed_start(s).len() <= s.len(),
    decreases s.len(),
{
    if s.len() > 0 && is_whitespace(s[0]) {
        let t = s.skip(1);
        lemma_trimmed_start(t);
        assert forall|j: int| 0 <= j < trimmed_start(s).len() implies s.contains(
            #[trigger] trimmed_start(s)[j],
        ) by {
            let i = choose|i: int| 0 <= i < t.len() && t[i] == trimmed_start(t)[j];
            assert(s[i + 1] == trimmed_start(s)[j]);
        }
    }
}

proof fn lemma_trimmed_end(s: Seq<char>)
    ensures
        trimmed_end(s).is_prefix_of(s),
        trimmed_end(s).len() > 0 ==> !is_whitespace(trimmed_end(s).last()),
    decreases s.len(),
{
    if s.len() > 0 && is_whitespace(s.last()) {
        lemma_trimmed_end(s.drop_last());
    }
}

/// Text that does not end in white space keeps its last character.
pub proof fn lemma_trimmed_last(s: Seq<char>)
    requires
        s.len() > 0,
        !is_whitespace(s.last()),
    ensures
        trimmed(s).len() > 0,
        trimmed(s).last() == s.last(),
    decreases s.len(),
{
    if is_whitespace(s[0]) {
        lemma_trimmed_last(s.skip(1));
    }
}

/// A line is no longer than the text, and is only empty where the text is.
pub proof fn lemma_line_len(s: Seq<char>)
    ensures
        0 <= line_len(s) <= s.len(),
        s.len() > 0 ==> line_len(s) > 0,
{
    lemma_find(s, seq!['\n']);
}

/// Copies out the characters of `s`.
pub fn chars(s: &str) -> (v: Vec<char>)
    ensures
        v@ == s@,
{
    let mut v: Vec<char> = Vec::new();
    for c in it: s.chars()
        invariant
            v@ == it.seq().take(it.index() as int),
            it.seq() == s@,
    {
        v.push(c);
    }
    v
}

/// The string of the characters of `v` from index `from` to before `to`.
pub fn string_of(v: &Vec<char>, from: usize, to: usize) -> (r: String)
    requires
        from <= to <= v@.len(),
    ensures
        r@ == v@.subrange(from as int, to as int),
{
    let mut r = String::new();
    let mut i = from;
    while i < to
        invariant
            from <= i <= to <= v@.len(),
            r@ == v@.subrange(from as int, i as int),
        decreases to - i,
    {
        r.push(v[i]);
        i += 1;
        assert(r@ =~= v@.subrange(from as int, i as int));
    }
    r
}

/// Whether `c` is white space.
pub fn whitespace(c: char) -> (b: bool)
    ensures
        b == is_whitespace(c),
{
    ('\u{9}' <= c && c <= '\u{d}') || c == ' ' || c == '\u{85}' || c == '\u{a0}' || c == '\u{1680}'
        || ('\u{2000}' <= c && c <= '\u{200a}') || c == '\u{2028}' || c == '\u{2029}' || c
        == '\u{202f}' || c == '\u{205f}' || c == '\u{3000}'
}

/// The bounds between which `v[from..to]` stands without the white space around it.
pub fn trim(v: &Vec<char>, from: usize, to: usize) -> (r: (usize, usize))
    requires
        from <= to <= v@.len(),
    ensures
        from <= r.0 <= r.1 <= to,
        v@.subrange(r.0 as int, r.1 as int) == trimmed(v@.subrange(from as int, to as int)),
{
    let mut a = from;
    while a < to && whitespace(v[a])
        invariant
            from <= a <= to <= v@.len(),
            trimmed_start(v@.subrange(a as int, to as int)) == trimmed_start(
                v@.subrange(from as int, to as int),
            ),
        decreases to - a,
    {
        assert(v@.subrange(a as int, to as int).skip(1) =~= v@.subrange(a + 1, to as int));
        a += 1;
    }
    let mut b = to;
    while a < b && whitespace(v[b - 1])
        invariant
            from <= a <= b <= to <= v@.len(),
            trimmed_end(v@.subrange(a as int, b as int)) == trimmed(
                v@.subrange(from as int, to as int),
            ),
        decreases b - a,
    {
        assert(v@.subrange(a as int, b as int).drop_last() =~= v@.subrange(a as int, b - 1));
        b -= 1;
    }
    (a, b)
}

/// `s` without the white space around it.
pub fn trim_string(s: &str) -> (r: String)
    ensures
        r@ == trimmed(s@),
{
    let v = chars(s);
    let (a, b) = trim(&v, 0, v.len());
    assert(v@.subrange(0, v@.len() as int) =~= v@);
    string_of(&v, a, b)
}

/// The index of the first `c` in `v[from..to]`.
pub fn find_char(v: &Vec<char>, from: usize, to: usize, c: char) -> (r: Option<usize>)
    requires
        from <= to <= v@.len(),
    ensures
        match r {
            Some(i) => from <= i < to && find(v@.subrange(from as int, to as int), seq![c]) == Some(
                i - from,
            ),
            None => find(v@.subrange(from as int, to as int), seq![c]) is None,
        },
{
    let ghost s = v@.subrange(from as int, to as int);
    let mut i = from;
    while i < to
        invariant
            from <= i <= to <= v@.len(),
            s == v@.subrange(from as int, to as int),
            forall|j: int| 0 <= j < i - from ==> s[j] != c,
        decreases to - i,
    {
        if v[i] == c {
            proof {
                lemma_find_char(s, c);
                assert(s[i - from] == c);
            }
            return Some(i);
        }
        i += 1;
    }
    proof {
        lemma_find_char(s, c);
    }
    None
}

/// The index of the first `c` followed by `d` in `v[from..to]`.
pub fn find_pair(v: &Vec<char>, from: usize, to: usize, c: char, d: char) -> (r: Option<usize>)
    requires
        from <= to <= v@.len(),
    ensures
        match r {
            Some(i) => from <= i && i + 2 <= to && find(
                v@.subrange(from as int, to as int),
                seq![c, d],
            ) == Some(i - from),
            None => find(v@.subrange(from as int, to as int), seq![c, d]) is None,
        },
{
    let ghost s = v@.subrange(from as int, to as int);
    let ghost pat = seq![c, d];
    let mut i = from;
    while to - i >= 2
        invariant
            from <= i <= to <= v@.len(),
            s == v@.subrange(from as int, to as int),
            pat == seq![c, d],
            forall|j: int| 0 <= j < i - from ==> !occurs_at(s, pat, j),
        decreases to - i,
    {
        if v[i] == c && v[i + 1] == d {
            proof {
                assert(s.subrange(i - from, i - from + 2) =~= pat);
                lemma_find_is(s, pat, i - from);
            }
            return Some(i);
        }
        proof {
            if occurs_at(s, pat, i - from) {
                assert(s.subrange(i - from, i - from + 2)[0] == s[i - from]);
                assert(s.subrange(i - from, i - from + 2)[1] == s[i - from + 1]);
            }
        }
        i += 1;
    }
    proof {
        lemma_find_none(s, pat);
    }
    None
}

/// The end of the line of `v` that starts at `from`, its line feed included.
pub fn line_end(v: &Vec<char>, from: usize) -> (r: usize)
    requires
        from <= v@.len(),
    ensures
        r == from + line_len(v@.skip(from as int)),
        from <= r <= v@.len(),
        from < v@.len() ==> from < r,
{
    assert(v@.subrange(from as int, v@.len() as int) =~= v@.skip(from as int));
    match find_char(v, from, v.len(), '\n') {
        Some(i) => i + 1,
        None => v.len(),
    }
}

/// Whether `a` is ordered before `b`.
pub fn less(a: &Vec<char>, b: &Vec<char>) -> (r: bool)
    ensures
        r == string_less(a@, b@),
{
    let mut i: usize = 0;
    assert(a@.skip(0) =~= a@ && b@.skip(0) =~= b@);
    while i < a.len() && i < b.len() && a[i] == b[i]
        invariant
            i <= a@.len(),
            i <= b@.len(),
            string_less(a@, b@) == string_less(a@.skip(i as int), b@.skip(i as int)),
        decreases a@.len() - i,
    {
        assert(a@.skip(i as int).skip(1) =~= a@.skip(i + 1));
        assert(b@.skip(i as int).skip(1) =~= b@.skip(i + 1));
        i += 1;
    }
    if i >= b.len() {
        false
    } else if i >= a.len() {
        true
    } else {
        a[i] < b[i]
    }
}

/// White space in front is trimmed off.
pub proof fn lemma_front_ignored(front: Seq<char>, t: Seq<char>)
    requires
        forall|i: int| 0 <= i < front.len() ==> is_whitespace(#[trigger] front[i]),
    ensures
        trimmed_start(front + t) == trimmed_start(t),
    decreases front.len(),
{
    if front.len() == 0 {
        assert(front + t =~= t);
    } else {
        assert((front + t).skip(1) =~= front.skip(1) + t);
        assert((front + t)[0] == front[0]);
        lemma_front_ignored(front.skip(1), t);
    }
}

/// White space behind is trimmed off.
proof fn lemma_back_ignored(t: Seq<char>, back: Seq<char>)
    requires
        forall|i: int| 0 <= i < back.len() ==> is_whitespace(#[trigger] back[i]),
    ensures
        trimmed_end(t + back) == trimmed_end(t),
    decreases back.len(),
{
    if back.len() == 0 {
        assert(t + back =~= t);
    } else {
        assert((t + back).drop_last() =~= t + back.drop_last());
        assert((t + back).last() == back[back.len() - 1]);
        lemma_back_ignored(t, back.drop_last());
    }
}

/// White space behind plays no part in what trimming leaves.
pub proof fn lemma_start_then_back(t: Seq<char>, back: Seq<char>)
    requires
        forall|i: int| 0 <= i < back.len() ==> is_whitespace(#[trigger] back[i]),
    ensures
        trimmed(t + back) == trimmed(t),
    decreases t.len(),
{
    if t.len() > 0 && is_whitespace(t[0]) {
        assert((t + back).skip(1) =~= t.skip(1) + back);
        lemma_start_then_back(t.skip(1), back);
    } else if t.len() > 0 {
        lemma_back_ignored(t, back);
    } else {
        assert(t + back =~= back + Seq::<char>::empty());
        lemma_front_ignored(back, Seq::empty());
        assert(t =~= Seq::empty());
    }
}

/// White space is these characters and no others.
pub proof fn law_white_space(c: char)
    ensures
        is_whitespace(c) <==> seq![
            '\u{9}', '\u{a}', '\u{b}', '\u{c}', '\u{d}', ' ',
            '\u{85}', '\u{a0}', '\u{1680}', '\u{2000}', '\u{2001}', '\u{2002}',
            '\u{2003}', '\u{2004}', '\u{2005}', '\u{2006}', '\u{2007}', '\u{2008}',
            '\u{2009}', '\u{200a}', '\u{2028}', '\u{2029}', '\u{202f}', '\u{205f}',
            '\u{3000}',
        ].contains(c),
{
    let all = seq![
        '\u{9}', '\u{a}', '\u{b}', '\u{c}', '\u{d}', ' ',
        '\u{85}', '\u{a0}', '\u{1680}', '\u{2000}', '\u{2001}', '\u{2002}',
        '\u{2003}', '\u{2004}', '\u{2005}', '\u{2006}', '\u{2007}', '\u{2008}',
        '\u{2009}', '\u{200a}', '\u{2028}', '\u{2029}', '\u{202f}', '\u{205f}',
        '\u{3000}',
    ];
    assert(all[0] == '\u{9}' && all[1] == '\u{a}' && all[2] == '\u{b}' && all[3] == '\u{c}'
        && all[4] == '\u{d}' && all[5] == ' ' && all[6] == '\u{85}' && all[7] == '\u{a0}'
        && all[8] == '\u{1680}' && all[9] == '\u{2000}' && all[10] == '\u{2001}'
        && all[11] == '\u{2002}' && all[12] == '\u{2003}' && all[13] == '\u{2004}'
        && all[14] == '\u{2005}' && all[15] == '\u{2006}' && all[16] == '\u{2007}'
        && all[17] == '\u{2008}' && all[18] == '\u{2009}' && all[19] == '\u{200a}'
        && all[20] == '\u{2028}' && all[21] == '\u{2029}' && all[22] == '\u{202f}'
        && all[23] == '\u{205f}' && all[24] == '\u{3000}');
}

/// Trimming leaves what stands between the first and the last character that is
/// not white space.
pub proof fn law_trimming(s: Seq<char>, from: int, to: int)
    requires
        0 <= from <= to <= s.len(),
        forall|j: int| 0 <= j < from ==> is_whitespace(#[trigger] s[j]),
        forall|j: int| to <= j < s.len() ==> is_whitespace(#[trigger] s[j]),
        from < to ==> !is_whitespace(s[from]) && !is_whitespace(s[to - 1]),
    ensures
        trimmed(s) == s.subrange(from, to),
{
    let front = s.take(from);
    let mid = s.subrange(from, to);
    let back = s.skip(to);
    assert(s =~= front + (mid + back));
    lemma_front_ignored(front, mid + back);
    lemma_start_then_back(mid, back);
    assert(trimmed(mid) == mid);
}

/// Searching gives the first place at which the pattern stands.
pub proof fn law_first_place_is_found(s: Seq<char>, pat: Seq<char>, i: int)
    requires
        pat.len() > 0,
        0 <= i,
        i + pat.len() <= s.len(),
        s.subrange(i, i + pat.len()) == pat,
        forall|j: int| 0 <= j < i ==> #[trigger] s.subrange(j, j + pat.len()) != pat,
    ensures
        find(s, pat) == Some(i),
        before(s, pat) == s.take(i),
{
    lemma_find_is(s, pat, i);
}

/// Searching gives nothing where the pattern stands nowhere.
pub proof fn law_what_is_nowhere_is_not_found(s: Seq<char>, pat: Seq<char>)
    requires
        pat.len() > 0,
        forall|j: int|
            0 <= j && j + pat.len() <= s.len() ==> #[trigger] s.subrange(j, j + pat.len()) != pat,
    ensures
        find(s, pat) is None,
        before(s, pat) == s,
{
    lemma_find_none(s, pat);
}

/// A line ends behind its line feed, and the last one where the text ends.
pub proof fn law_line_ends_behind_its_line_feed(line: Seq<char>, rest: Seq<char>)
    requires
        forall|j: int| 0 <= j < line.len() - 1 ==> #[trigger] line[j] != '\n',
        line.len() > 0 && line.last() == '\n' || rest.len() == 0,
    ensures
        line_len(line + rest) == line.len(),
{
    let s = line + rest;
    lemma_find_char(s, '\n');
    assert forall|j: int| 0 <= j < line.len() - 1 implies s[j] != '\n' by {
        assert(s[j] == line[j]);
    }
    if line.len() > 0 {
        assert(s[line.len() - 1] == line.last());
    }
}

/// Strings are ordered by the first character in which they differ; a string
/// stands before what it is the beginning of, and never before itself.
pub proof fn law_first_difference_orders(same: Seq<char>, a: Seq<char>, b: Seq<char>)
    ensures
        !string_less(same, same),
        b.len() > 0 ==> string_less(same, same + b) && !string_less(same + b, same),
        a.len() > 0 && b.len() > 0 && a[0] < b[0] ==> string_less(same + a, same + b)
            && !string_less(same + b, same + a),
    decreases same.len(),
{
    if same.len() == 0 {
        assert(same + a =~= a);
        assert(same + b =~= b);
    } else {
        law_first_difference_orders(same.skip(1), a, b);
        assert((same + a).skip(1) =~= same.skip(1) + a);
        assert((same + b).skip(1) =~= same.skip(1) + b);
        assert((same + a)[0] == same[0] && (same + b)[0] == same[0]);
    }
}

/// The letters `A` to `Z` become `a` to `z`, 32 further on; no other character
/// changes.
pub proof fn law_letters_are_lowered(c: char)
    ensures
        'A' <= c <= 'Z' ==> ascii_lowercase(c) as int == c as int + 32,
        c < 'A' || 'Z' < c ==> ascii_lowercase(c) == c,
{
}

} // verus!
