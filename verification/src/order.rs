//! The order of the notes: by path, so that every rebuild of the index sees them
//! in the same order.
use vstd::prelude::*;

use crate::note::NoteRecord;
use crate::text::{chars, less};
#[allow(unused_imports)]
use crate::note::NoteView;
#[allow(unused_imports)]
use crate::text::string_less;

verus! {

/// The values of a list of records.
pub open spec fn notes_of(records: Seq<NoteRecord>) -> Seq<NoteView> {
    records.map_values(|r: NoteRecord| r@)
}

/// `note` put behind the notes of `s` whose paths are not after its own.
pub open spec fn insert_by_path(s: Seq<NoteView>, note: NoteView) -> Seq<NoteView>
    decreases s.len(),
{
    if s.len() > 0 && string_less(note.rel_path, s.last().rel_path) {
        insert_by_path(s.drop_last(), note).push(s.last())
    } else {
        s.push(note)
    }
}

/// The notes in the order of their paths; notes with one path stay in the order
/// in which they were.
pub open spec fn by_path(notes: Seq<NoteView>) -> Seq<NoteView>
    decreases notes.len(),
{
    if notes.len() == 0 {
        notes
    } else {
        insert_by_path(by_path(notes.drop_last()), notes.last())
    }
}

/// The notes that stand at the indices of `order`.
pub open spec fn picked(notes: Seq<NoteView>, order: Seq<usize>) -> Seq<NoteView> {
    order.map_values(|i: usize| notes[i as int])
}

/// No string is before itself.
pub proof fn lemma_less_irreflexive(a: Seq<char>)
    ensures
        !string_less(a, a),
    decreases a.len(),
{
    if a.len() > 0 {
        lemma_less_irreflexive(a.skip(1));
    }
}

proof fn lemma_less_transitive(a: Seq<char>, b: Seq<char>, c: Seq<char>)
    requires
        string_less(a, b),
        string_less(b, c),
    ensures
        string_less(a, c),
    decreases a.len(),
{
    if a.len() > 0 && a[0] == b[0] && b[0] == c[0] {
        lemma_less_transitive(a.skip(1), b.skip(1), c.skip(1));
    }
}

proof fn lemma_less_total(a: Seq<char>, b: Seq<char>)
    ensures
        string_less(a, b) || string_less(b, a) || a == b,
    decreases a.len(),
{
    if a.len() > 0 && b.len() > 0 && a[0] == b[0] {
        lemma_less_total(a.skip(1), b.skip(1));
        if a.skip(1) == b.skip(1) {
            assert(a =~= seq![a[0]] + a.skip(1));
            assert(b =~= seq![b[0]] + b.skip(1));
        }
    } else if a.len() == 0 && b.len() == 0 {
        assert(a =~= b);
    }
}

/// Whether the path at `i` comes before the one at `j`: of equal paths, the one
/// with the lesser index.
spec fn comes_before(paths: Seq<Seq<char>>, i: usize, j: usize) -> bool {
    string_less(paths[i as int], paths[j as int]) || (paths[i as int] == paths[j as int] && i < j)
}

proof fn lemma_before_transitive(paths: Seq<Seq<char>>, i: usize, j: usize, k: usize)
    requires
        comes_before(paths, i, j),
        comes_before(paths, j, k),
    ensures
        comes_before(paths, i, k),
{
    let (a, b, c) = (paths[i as int], paths[j as int], paths[k as int]);
    if string_less(a, b) && string_less(b, c) {
        lemma_less_transitive(a, b, c);
    }
}

spec fn is_sorted(paths: Seq<Seq<char>>, order: Seq<usize>) -> bool {
    forall|a: int, b: int|
        0 <= a < b < order.len() ==> comes_before(paths, #[trigger] order[a], #[trigger] order[b])
}

/// Whether `order` holds every index from `lo` to before `hi`, in the order of
/// the paths.
spec fn orders(paths: Seq<Seq<char>>, order: Seq<usize>, lo: int, hi: int) -> bool {
    &&& order.len() == hi - lo
    &&& is_sorted(paths, order)
    &&& forall|k: usize| #[trigger] order.contains(k) <==> lo <= k < hi
}

spec fn paths_of(keys: Seq<Vec<char>>) -> Seq<Seq<char>> {
    keys.map_values(|k: Vec<char>| k@)
}

proof fn lemma_push_contains(s: Seq<usize>, x: usize)
    ensures
        s.push(x).contains(x),
        forall|y: usize| s.contains(y) ==> #[trigger] s.push(x).contains(y),
{
    assert(s.push(x)[s.len() as int] == x);
    assert forall|y: usize| s.contains(y) implies #[trigger] s.push(x).contains(y) by {
        let i = choose|i: int| 0 <= i < s.len() && s[i] == y;
        assert(s.push(x)[i] == y);
    }
}

/// Merges the orders of two neighbouring ranges of indices.
fn merge(
    keys: &Vec<Vec<char>>,
    a: &Vec<usize>,
    b: &Vec<usize>,
    lo: usize,
    mid: usize,
    hi: usize,
) -> (out: Vec<usize>)
    requires
        lo <= mid <= hi <= keys@.len(),
        orders(paths_of(keys@), a@, lo as int, mid as int),
        orders(paths_of(keys@), b@, mid as int, hi as int),
    ensures
        orders(paths_of(keys@), out@, lo as int, hi as int),
{
    let ghost paths = paths_of(keys@);
    let mut out: Vec<usize> = Vec::new();
    let mut i: usize = 0;
    let mut j: usize = 0;
    while i < a.len() || j < b.len()
        invariant
            paths == paths_of(keys@),
            lo <= mid <= hi <= keys@.len(),
            orders(paths, a@, lo as int, mid as int),
            orders(paths, b@, mid as int, hi as int),
            i <= a@.len(),
            j <= b@.len(),
            out@.len() == i + j,
            is_sorted(paths, out@),
            forall|p: int| 0 <= p < out@.len() ==> lo <= #[trigger] out@[p] < hi,
            forall|q: int| 0 <= q < i ==> out@.contains(#[trigger] a@[q]),
            forall|q: int| 0 <= q < j ==> out@.contains(#[trigger] b@[q]),
            forall|p: int, q: int|
                0 <= p < out@.len() && i <= q < a@.len() ==> comes_before(
                    paths,
                    #[trigger] out@[p],
                    #[trigger] a@[q],
                ),
            forall|p: int, q: int|
                0 <= p < out@.len() && j <= q < b@.len() ==> comes_before(
                    paths,
                    #[trigger] out@[p],
                    #[trigger] b@[q],
                ),
        decreases a@.len() - i + b@.len() - j,
    {
        proof {
            assert forall|q: int| 0 <= q < a@.len() implies lo <= #[trigger] a@[q] < mid by {
                assert(a@.contains(a@[q]));
            }
            assert forall|q: int| 0 <= q < b@.len() implies mid <= #[trigger] b@[q] < hi by {
                assert(b@.contains(b@[q]));
            }
        }
        let ghost before = out@;
        let first = i < a.len() && (j >= b.len() || !less(&keys[b[j]], &keys[a[i]]));
        if first {
            let x = a[i];
            proof {
                assert forall|q: int| j <= q < b@.len() implies comes_before(
                    paths,
                    x,
                    #[trigger] b@[q],
                ) by {
                    lemma_less_total(paths[x as int], paths[b@[j as int] as int]);
                    assert(comes_before(paths, x, b@[j as int]));
                    if q > j {
                        lemma_before_transitive(paths, x, b@[j as int], b@[q]);
                    }
                }
                lemma_push_contains(before, x);
            }
            out.push(x);
            i += 1;
        } else {
            let x = b[j];
            proof {
                assert forall|q: int| i <= q < a@.len() implies comes_before(
                    paths,
                    x,
                    #[trigger] a@[q],
                ) by {
                    assert(comes_before(paths, x, a@[i as int]));
                    if q > i {
                        lemma_before_transitive(paths, x, a@[i as int], a@[q]);
                    }
                }
                lemma_push_contains(before, x);
            }
            out.push(x);
            j += 1;
        }
    }
    proof {
        assert forall|k: usize| lo <= k < hi implies #[trigger] out@.contains(k) by {
            if k < mid {
                assert(a@.contains(k));
                let q = choose|q: int| 0 <= q < a@.len() && a@[q] == k;
                assert(out@.contains(a@[q]));
            } else {
                assert(b@.contains(k));
                let q = choose|q: int| 0 <= q < b@.len() && b@[q] == k;
                assert(out@.contains(b@[q]));
            }
        }
    }
    out
}

/// Sorts the indices from `lo` to before `hi` by their paths.
fn sort_range(keys: &Vec<Vec<char>>, lo: usize, hi: usize) -> (out: Vec<usize>)
    requires
        lo <= hi <= keys@.len(),
    ensures
        orders(paths_of(keys@), out@, lo as int, hi as int),
    decreases hi - lo,
{
    if hi - lo <= 1 {
        let mut out: Vec<usize> = Vec::new();
        if lo < hi {
            out.push(lo);
            assert(out@[0] == lo);
        }
        return out;
    }
    let mid = lo + (hi - lo) / 2;
    let a = sort_range(keys, lo, mid);
    let b = sort_range(keys, mid, hi);
    merge(keys, &a, &b, lo, mid, hi)
}

/// Where everything in `a` is not after `note`, and everything in `b` is, the
/// note goes between them.
proof fn lemma_insert(a: Seq<NoteView>, note: NoteView, b: Seq<NoteView>)
    requires
        forall|i: int| 0 <= i < a.len() ==> !string_less(note.rel_path, (#[trigger] a[i]).rel_path),
        forall|i: int| 0 <= i < b.len() ==> string_less(note.rel_path, (#[trigger] b[i]).rel_path),
    ensures
        insert_by_path(a + b, note) == a.push(note) + b,
    decreases b.len(),
{
    if b.len() == 0 {
        assert(a + b =~= a);
        assert(a.push(note) + b =~= a.push(note));
    } else {
        assert((a + b).drop_last() =~= a + b.drop_last());
        assert((a + b).last() == b[b.len() - 1]);
        lemma_insert(a, note, b.drop_last());
        assert((a.push(note) + b.drop_last()).push(b.last()) =~= a.push(note) + b);
    }
}

/// There is only one order of the paths.
proof fn lemma_order_is_by_path(notes: Seq<NoteView>, paths: Seq<Seq<char>>, order: Seq<usize>)
    requires
        notes.len() <= paths.len(),
        forall|i: int| 0 <= i < notes.len() ==> (#[trigger] notes[i]).rel_path == paths[i],
        notes.len() <= usize::MAX,
        orders(paths, order, 0, notes.len() as int),
    ensures
        picked(notes, order) == by_path(notes),
    decreases notes.len(),
{
    if notes.len() == 0 {
        assert(picked(notes, order) =~= by_path(notes));
    } else {
        let m = (notes.len() - 1) as usize;
        let head = notes.drop_last();
        assert(order.contains(m));
        let p = choose|p: int| 0 <= p < order.len() && order[p] == m;
        let rest = order.remove(p);
        assert forall|i: int| 0 <= i < order.len() implies #[trigger] order[i] < notes.len() by {
            assert(order.contains(order[i]));
        }
        assert forall|i: int, j: int| 0 <= i < j < order.len() implies order[i] != order[j] by {
            assert(comes_before(paths, order[i], order[j]));
            lemma_less_irreflexive(paths[order[i] as int]);
        }
        assert(is_sorted(paths, rest)) by {
            assert forall|i: int, j: int| 0 <= i < j < rest.len() implies comes_before(
                paths,
                #[trigger] rest[i],
                #[trigger] rest[j],
            ) by {
                let i2 = if i < p {
                    i
                } else {
                    i + 1
                };
                let j2 = if j < p {
                    j
                } else {
                    j + 1
                };
                assert(comes_before(paths, order[i2], order[j2]));
            }
        }
        assert forall|k: usize| #[trigger] rest.contains(k) <==> 0 <= k < m by {
            if rest.contains(k) {
                let i = choose|i: int| 0 <= i < rest.len() && rest[i] == k;
                let i2 = if i < p {
                    i
                } else {
                    i + 1
                };
                assert(order[i2] == k);
                assert(order[i2] != order[p]);
            }
            if k < m {
                assert(order.contains(k));
                let i = choose|i: int| 0 <= i < order.len() && order[i] == k;
                assert(rest[if i < p {
                    i
                } else {
                    i - 1
                }] == k);
            }
        }
        lemma_order_is_by_path(head, paths, rest);
        let note = notes.last();
        let a = picked(notes, order.take(p));
        let b = picked(notes, order.skip(p + 1));
        assert(picked(head, rest) =~= a + b) by {
            assert forall|i: int| 0 <= i < rest.len() implies picked(head, rest)[i] == (a + b)[i] by {
                assert(rest.contains(rest[i]));
            }
        }
        assert(picked(notes, order) =~= a.push(note) + b);
        assert forall|i: int| 0 <= i < a.len() implies !string_less(
            note.rel_path,
            (#[trigger] a[i]).rel_path,
        ) by {
            let x = order[i];
            assert(comes_before(paths, x, m));
            if string_less(paths[m as int], paths[x as int]) {
                if string_less(paths[x as int], paths[m as int]) {
                    lemma_less_transitive(paths[m as int], paths[x as int], paths[m as int]);
                }
                lemma_less_irreflexive(paths[m as int]);
            }
        }
        assert forall|i: int| 0 <= i < b.len() implies string_less(
            note.rel_path,
            (#[trigger] b[i]).rel_path,
        ) by {
            let x = order[p + 1 + i];
            assert(comes_before(paths, order[p], x));
            assert(x < notes.len());
        }
        lemma_insert(a, note, b);
    }
}

/// The indices of `records` in the order of their paths.
pub fn path_order(records: &Vec<NoteRecord>) -> (order: Vec<usize>)
    ensures
        order@.len() == records@.len(),
        forall|i: int| 0 <= i < order@.len() ==> #[trigger] order@[i] < records@.len(),
        picked(notes_of(records@), order@) == by_path(notes_of(records@)),
{
    let mut keys: Vec<Vec<char>> = Vec::new();
    let mut i: usize = 0;
    while i < records.len()
        invariant
            i <= records@.len(),
            keys@.len() == i,
            forall|j: int| 0 <= j < i ==> (#[trigger] keys@[j])@ == records@[j].rel_path@,
        decreases records@.len() - i,
    {
        keys.push(chars(records[i].rel_path.as_str()));
        i += 1;
    }
    let order = sort_range(&keys, 0, keys.len());
    proof {
        assert forall|i: int| 0 <= i < order@.len() implies #[trigger] order@[i]
            < records@.len() by {
            assert(order@.contains(order@[i]));
        }
        lemma_order_is_by_path(notes_of(records@), paths_of(keys@), order@);
    }
    order
}

proof fn lemma_insert_multiset(s: Seq<NoteView>, note: NoteView)
    ensures
        insert_by_path(s, note).to_multiset() == s.to_multiset().insert(note),
    decreases s.len(),
{
    broadcast use vstd::seq_lib::group_to_multiset_ensures;

    if s.len() > 0 && string_less(note.rel_path, s.last().rel_path) {
        let head = s.drop_last();
        lemma_insert_multiset(head, note);
        assert(s =~= head.push(s.last()));
        assert(head.to_multiset().insert(note).insert(s.last()) =~= head.to_multiset().insert(
            s.last(),
        ).insert(note));
    }
}

/// Sorting keeps the notes: none is lost, and none is added.
pub proof fn law_order_keeps_the_notes(notes: Seq<NoteView>)
    ensures
        by_path(notes).to_multiset() == notes.to_multiset(),
    decreases notes.len(),
{
    broadcast use vstd::seq_lib::group_to_multiset_ensures;

    if notes.len() > 0 {
        law_order_keeps_the_notes(notes.drop_last());
        lemma_insert_multiset(by_path(notes.drop_last()), notes.last());
        assert(notes =~= notes.drop_last().push(notes.last()));
    }
}

/// Whether no note comes before one whose path is less.
pub open spec fn is_by_path(notes: Seq<NoteView>) -> bool {
    forall|i: int, j: int|
        0 <= i < j < notes.len() ==> !string_less(
            (#[trigger] notes[j]).rel_path,
            (#[trigger] notes[i]).rel_path,
        )
}

proof fn lemma_insert_sorted(s: Seq<NoteView>, note: NoteView)
    requires
        is_by_path(s),
    ensures
        is_by_path(insert_by_path(s, note)),
        forall|p: Seq<char>|
            (forall|i: int| 0 <= i < s.len() ==> !string_less(p, (#[trigger] s[i]).rel_path))
                && !string_less(p, note.rel_path) ==> forall|i: int|
                0 <= i < insert_by_path(s, note).len() ==> !string_less(
                    p,
                    (#[trigger] insert_by_path(s, note)[i]).rel_path,
                ),
    decreases s.len(),
{
    let t = insert_by_path(s, note);
    if s.len() > 0 && string_less(note.rel_path, s.last().rel_path) {
        let head = s.drop_last();
        let u = insert_by_path(head, note);
        lemma_insert_sorted(head, note);
        let last = s.last().rel_path;
        if string_less(last, note.rel_path) {
            lemma_less_transitive(last, note.rel_path, last);
            lemma_less_irreflexive(last);
        }
        assert forall|i: int| 0 <= i < head.len() implies !string_less(
            last,
            (#[trigger] head[i]).rel_path,
        ) by {
            assert(head[i] == s[i]);
        }
        assert(t == u.push(s.last()));
        assert forall|p: Seq<char>|
            (forall|i: int| 0 <= i < s.len() ==> !string_less(p, (#[trigger] s[i]).rel_path))
                && !string_less(p, note.rel_path) implies forall|i: int|
            0 <= i < t.len() ==> !string_less(p, (#[trigger] t[i]).rel_path) by {
            assert forall|i: int| 0 <= i < head.len() implies !string_less(
                p,
                (#[trigger] head[i]).rel_path,
            ) by {
                assert(head[i] == s[i]);
            }
            assert forall|i: int| 0 <= i < t.len() implies !string_less(
                p,
                (#[trigger] t[i]).rel_path,
            ) by {
                if i < u.len() {
                    assert(t[i] == u[i]);
                } else {
                    assert(t[i] == s[s.len() - 1]);
                }
            }
        }
    } else {
        assert(t == s.push(note));
        assert forall|i: int, j: int| 0 <= i < j < t.len() implies !string_less(
            (#[trigger] t[j]).rel_path,
            (#[trigger] t[i]).rel_path,
        ) by {
            if j == s.len() {
                let last = s[s.len() - 1].rel_path;
                if string_less(note.rel_path, s[i].rel_path) && i < s.len() - 1 {
                    assert(!string_less(last, s[i].rel_path));
                    lemma_less_total(last, s[i].rel_path);
                    if string_less(s[i].rel_path, last) {
                        lemma_less_transitive(note.rel_path, s[i].rel_path, last);
                    }
                }
            }
        }
    }
}

/// The notes are in the order of their paths.
pub proof fn law_notes_are_ordered(notes: Seq<NoteView>)
    ensures
        is_by_path(by_path(notes)),
    decreases notes.len(),
{
    if notes.len() > 0 {
        law_notes_are_ordered(notes.drop_last());
        lemma_insert_sorted(by_path(notes.drop_last()), notes.last());
    }
}

/// Whether a path names one note only.
pub open spec fn paths_are_unique(notes: Seq<NoteView>) -> bool {
    forall|i: int, j: int|
        0 <= i < notes.len() && 0 <= j < notes.len() && (#[trigger] notes[i]).rel_path == (
        #[trigger] notes[j]).rel_path ==> notes[i] == notes[j]
}

proof fn lemma_sorted_unique(x: Seq<NoteView>, y: Seq<NoteView>)
    requires
        is_by_path(x),
        is_by_path(y),
        x.to_multiset() == y.to_multiset(),
        paths_are_unique(x),
    ensures
        x == y,
    decreases x.len(),
{
    broadcast use vstd::seq_lib::group_to_multiset_ensures;

    assert(x.len() == x.to_multiset().len());
    assert(y.len() == y.to_multiset().len());
    if x.len() == 0 {
        assert(x =~= y);
    } else {
        let (n, m) = (x.len() - 1, y.len() - 1);
        assert(x.contains(x[n]));
        assert(x.to_multiset().count(x[n]) > 0);
        assert(y.contains(x[n]));
        let j = choose|j: int| 0 <= j < y.len() && y[j] == x[n];
        assert(y.contains(y[m]));
        assert(y.to_multiset().count(y[m]) > 0);
        assert(x.contains(y[m]));
        let i = choose|i: int| 0 <= i < x.len() && x[i] == y[m];
        assert(!string_less(x[n].rel_path, x[i].rel_path)) by {
            lemma_less_irreflexive(x[n].rel_path);
        }
        assert(!string_less(y[m].rel_path, y[j].rel_path)) by {
            lemma_less_irreflexive(y[m].rel_path);
        }
        lemma_less_total(x[n].rel_path, y[m].rel_path);
        assert(x[n] == x[i]);
        let (x2, y2) = (x.drop_last(), y.drop_last());
        assert(x =~= x2.push(x[n]));
        assert(y =~= y2.push(y[m]));
        assert(x2.to_multiset() =~= x.to_multiset().remove(x[n]));
        assert(y2.to_multiset() =~= y.to_multiset().remove(y[m]));
        lemma_sorted_unique(x2, y2);
    }
}

/// The order does not depend on how the folder was walked: whatever order the
/// notes were read in, they come out in the same one, as long as a path names
/// one note.
pub proof fn law_walk_order_is_irrelevant(a: Seq<NoteView>, b: Seq<NoteView>)
    requires
        a.to_multiset() == b.to_multiset(),
        paths_are_unique(a),
    ensures
        by_path(a) == by_path(b),
{
    broadcast use vstd::seq_lib::group_to_multiset_ensures;

    law_order_keeps_the_notes(a);
    law_order_keeps_the_notes(b);
    law_notes_are_ordered(a);
    law_notes_are_ordered(b);
    let x = by_path(a);
    assert(paths_are_unique(x)) by {
        assert forall|i: int, j: int|
            0 <= i < x.len() && 0 <= j < x.len() && (#[trigger] x[i]).rel_path == (
            #[trigger] x[j]).rel_path implies x[i] == x[j] by {
            assert(x.contains(x[i]) && x.contains(x[j]));
            assert(x.to_multiset().count(x[i]) > 0 && x.to_multiset().count(x[j]) > 0);
            assert(a.contains(x[i]) && a.contains(x[j]));
        }
    }
    lemma_sorted_unique(x, by_path(b));
}

/// The notes with the path `path`, in their order.
pub open spec fn at_path(notes: Seq<NoteView>, path: Seq<char>) -> Seq<NoteView> {
    notes.filter(|n: NoteView| n.rel_path == path)
}

proof fn lemma_at_path(notes: Seq<NoteView>, note: NoteView, path: Seq<char>)
    ensures
        at_path(notes.push(note), path) == if note.rel_path == path {
            at_path(notes, path).push(note)
        } else {
            at_path(notes, path)
        },
{
    reveal(Seq::filter);
    assert(notes.push(note).drop_last() =~= notes);
}

/// Notes with one path stay in the order in which they were read.
pub proof fn law_notes_with_one_path_keep_their_order(notes: Seq<NoteView>, path: Seq<char>)
    ensures
        at_path(by_path(notes), path) == at_path(notes, path),
    decreases notes.len(),
{
    if notes.len() > 0 {
        let head = notes.drop_last();
        law_notes_with_one_path_keep_their_order(head, path);
        lemma_insert_keeps_order(by_path(head), notes.last(), path);
        lemma_at_path(by_path(head), notes.last(), path);
        lemma_at_path(head, notes.last(), path);
        assert(notes =~= head.push(notes.last()));
    }
}

proof fn lemma_insert_keeps_order(s: Seq<NoteView>, note: NoteView, path: Seq<char>)
    ensures
        at_path(insert_by_path(s, note), path) == at_path(s.push(note), path),
    decreases s.len(),
{
    if s.len() > 0 && string_less(note.rel_path, s.last().rel_path) {
        let head = s.drop_last();
        lemma_insert_keeps_order(head, note, path);
        lemma_less_irreflexive(note.rel_path);
        lemma_at_path(insert_by_path(head, note), s.last(), path);
        lemma_at_path(head, note, path);
        lemma_at_path(head, s.last(), path);
        lemma_at_path(s, note, path);
        assert(s =~= head.push(s.last()));
    }
}

} // verus!
