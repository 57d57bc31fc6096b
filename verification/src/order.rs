//! The order of entries: by path, byte for byte.

use core::cmp::Ordering;
use vstd::multiset::Multiset;
use vstd::prelude::*;
use vstd::string::StringSliceAdditionalSpecFns;
use vstd::utf8::{encode_utf8, encode_utf8_decode_utf8};
use crate::formatter::{Entry, EntryView};
use crate::tabulator::views;
use crate::text::str_eq;

verus! {

/// Whether `a` comes before or with `b` in the order of the dictionary,
/// given that the two agree before place `i`: at the first place where they
/// differ `a` has the smaller byte, or `a` ends there.
pub open spec fn bytes_le_from(a: Seq<u8>, b: Seq<u8>, i: int) -> bool
    decreases a.len() - i,
{
    if i >= a.len() {
        true
    } else if i >= b.len() {
        false
    } else if a[i] != b[i] {
        a[i] < b[i]
    } else {
        bytes_le_from(a, b, i + 1)
    }
}

/// Whether the path `a` comes before or with the path `b`: the order of
/// the dictionary on the bytes of their UTF-8 form.
pub open spec fn path_le(a: Seq<char>, b: Seq<char>) -> bool {
    bytes_le_from(encode_utf8(a), encode_utf8(b), 0)
}

proof fn lemma_bytes_total(a: Seq<u8>, b: Seq<u8>, i: int)
    requires
        0 <= i,
    ensures
        bytes_le_from(a, b, i) || bytes_le_from(b, a, i),
    decreases a.len() - i,
{
    if i < a.len() && i < b.len() && a[i] == b[i] {
        lemma_bytes_total(a, b, i + 1);
    }
}

proof fn lemma_bytes_antisymmetric(a: Seq<u8>, b: Seq<u8>, i: int)
    requires
        0 <= i,
        forall|k: int| 0 <= k < i && k < a.len() && k < b.len() ==> a[k] == b[k],
        i <= a.len(),
        i <= b.len(),
        bytes_le_from(a, b, i),
        bytes_le_from(b, a, i),
    ensures
        a == b,
    decreases a.len() - i,
{
    if i < a.len() && i < b.len() {
        lemma_bytes_antisymmetric(a, b, i + 1);
    } else {
        assert(a =~= b);
    }
}

proof fn lemma_bytes_transitive(a: Seq<u8>, b: Seq<u8>, c: Seq<u8>, i: int)
    requires
        0 <= i,
        bytes_le_from(a, b, i),
        bytes_le_from(b, c, i),
    ensures
        bytes_le_from(a, c, i),
    decreases a.len() - i,
{
    if i < a.len() && a[i] == b[i] && b[i] == c[i] {
        lemma_bytes_transitive(a, b, c, i + 1);
    }
}

/// Of two paths one comes before or with the other.
pub proof fn lemma_path_order_total(a: Seq<char>, b: Seq<char>)
    ensures
        path_le(a, b) || path_le(b, a),
        path_le(a, a),
{
    lemma_bytes_total(encode_utf8(a), encode_utf8(b), 0);
    lemma_bytes_total(encode_utf8(a), encode_utf8(a), 0);
}

/// Two paths of which each comes before or with the other are one path.
pub proof fn lemma_path_order_antisymmetric(a: Seq<char>, b: Seq<char>)
    requires
        path_le(a, b),
        path_le(b, a),
    ensures
        a == b,
{
    lemma_bytes_antisymmetric(encode_utf8(a), encode_utf8(b), 0);
    encode_utf8_decode_utf8(a);
    encode_utf8_decode_utf8(b);
}

/// What comes before or with a path that comes before or with a third,
/// comes before or with the third.
pub proof fn lemma_path_order_transitive(a: Seq<char>, b: Seq<char>, c: Seq<char>)
    requires
        path_le(a, b),
        path_le(b, c),
    ensures
        path_le(a, c),
{
    lemma_bytes_transitive(encode_utf8(a), encode_utf8(b), encode_utf8(c), 0);
}

/// Whether the path `a` comes before or with the path `b`.
pub fn path_precedes(a: &str, b: &str) -> (before: bool)
    ensures
        before == path_le(a@, b@),
{
    let x = a.as_bytes();
    let y = b.as_bytes();
    let mut i: usize = 0;
    while i < x.len()
        invariant
            i <= x.len(),
            x@ == a.spec_bytes(),
            y@ == b.spec_bytes(),
            path_le(a@, b@) == bytes_le_from(x@, y@, i as int),
        decreases x.len() - i,
    {
        if i >= y.len() {
            return false;
        }
        if x[i] != y[i] {
            return x[i] < y[i];
        }
        i += 1;
    }
    true
}

/// The entries stand in the order of their paths.
pub open spec fn sorted_by_path(entries: Seq<EntryView>) -> bool {
    forall|i: int, j: int|
        0 <= i <= j < entries.len() ==> path_le(
            (#[trigger] entries[i]).path,
            (#[trigger] entries[j]).path,
        )
}

/// The entries of the list that have the path `path`, in the order of the
/// list.
pub open spec fn with_path(entries: Seq<EntryView>, path: Seq<char>) -> Seq<EntryView>
    decreases entries.len(),
{
    if entries.len() == 0 {
        Seq::empty()
    } else {
        let front = with_path(entries.drop_last(), path);
        if entries.last().path == path {
            front.push(entries.last())
        } else {
            front
        }
    }
}

/// Entries of one path stand in `sorted` in the order in which they stand
/// in `entries`.
pub open spec fn keeps_order_within_paths(sorted: Seq<EntryView>, entries: Seq<EntryView>) -> bool {
    forall|path: Seq<char>| #[trigger] with_path(sorted, path) == with_path(entries, path)
}

/// The entries of one path in two lists put together are those of the
/// first list followed by those of the second.
proof fn lemma_with_path_add(a: Seq<EntryView>, b: Seq<EntryView>, path: Seq<char>)
    ensures
        with_path(a + b, path) == with_path(a, path) + with_path(b, path),
    decreases b.len(),
{
    if b.len() == 0 {
        assert(a + b =~= a);
        assert(with_path(a, path) + with_path(b, path) =~= with_path(a, path));
    } else {
        lemma_with_path_add(a, b.drop_last(), path);
        assert((a + b).drop_last() =~= a + b.drop_last());
        assert((a + b).last() == b.last());
        assert(with_path(a + b, path) =~= with_path(a, path) + with_path(b, path));
    }
}

/// A list in which no entry has the path holds no entries of that path.
proof fn lemma_with_path_none(a: Seq<EntryView>, path: Seq<char>)
    requires
        forall|k: int| 0 <= k < a.len() ==> (#[trigger] a[k]).path != path,
    ensures
        with_path(a, path) == Seq::<EntryView>::empty(),
    decreases a.len(),
{
    if a.len() > 0 {
        let front = a.drop_last();
        assert forall|k: int| 0 <= k < front.len() implies (#[trigger] front[k]).path != path by {
            assert(front[k] == a[k]);
        }
        lemma_with_path_none(front, path);
        assert(a.last() == a[a.len() - 1]);
    }
}

/// Putting `next` into a list behind entries of other paths puts it before
/// the list's entries of its own path, and leaves the entries of every
/// other path as they were.
proof fn lemma_with_path_insert(a: Seq<EntryView>, pos: int, next: EntryView, path: Seq<char>)
    requires
        0 <= pos <= a.len(),
        forall|k: int| 0 <= k < pos ==> (#[trigger] a[k]).path != next.path,
    ensures
        with_path(a.insert(pos, next), path) == (if next.path == path {
            seq![next] + with_path(a, path)
        } else {
            with_path(a, path)
        }),
{
    let head = a.take(pos);
    let tail = a.skip(pos);
    let one = seq![next];
    assert(a =~= head + tail);
    assert(a.insert(pos, next) =~= (head + one) + tail);
    lemma_with_path_add(head, tail, path);
    lemma_with_path_add(head + one, tail, path);
    lemma_with_path_add(head, one, path);
    assert(one.drop_last() =~= Seq::<EntryView>::empty());
    assert(with_path(one.drop_last(), path) =~= Seq::<EntryView>::empty());
    if next.path == path {
        assert(with_path(one, path) =~= one);
        lemma_with_path_none(head, path);
        assert(with_path(a.insert(pos, next), path) =~= one + with_path(a, path));
    } else {
        assert(with_path(one, path) =~= Seq::<EntryView>::empty());
        assert(with_path(a.insert(pos, next), path) =~= with_path(a, path));
    }
}

/// Puts the entries into the order of their paths.
///
/// The result holds the same entries, each as often as the list did, and
/// entries of one path keep the order in which they came.
pub fn sort_entries(entries: Vec<Entry>) -> (sorted: Vec<Entry>)
    ensures
        sorted_by_path(views(sorted@)),
        views(sorted@).to_multiset() == views(entries@).to_multiset(),
        keeps_order_within_paths(views(sorted@), views(entries@)),
{
    broadcast use vstd::multiset::group_multiset_axioms;

    let mut rest = entries;
    let mut sorted: Vec<Entry> = Vec::new();
    proof {
        views(sorted@).to_multiset_ensures();
        assert(views(sorted@).to_multiset() =~= Multiset::<EntryView>::empty()) by {
            assert(views(sorted@).to_multiset().len() == 0);
        }
        assert(views(sorted@).to_multiset().add(views(rest@).to_multiset()) =~= views(
            entries@,
        ).to_multiset());
        assert(views(sorted@) =~= Seq::<EntryView>::empty());
        assert forall|path: Seq<char>|
            #[trigger] with_path(views(rest@), path) + with_path(views(sorted@), path)
                == with_path(views(entries@), path) by {
            assert(with_path(views(rest@), path) + with_path(views(sorted@), path) =~= with_path(
                views(rest@),
                path,
            ));
        }
    }
    while rest.len() > 0
        invariant
            sorted_by_path(views(sorted@)),
            views(sorted@).to_multiset().add(views(rest@).to_multiset()) == views(
                entries@,
            ).to_multiset(),
            forall|path: Seq<char>|
                #[trigger] with_path(views(rest@), path) + with_path(views(sorted@), path)
                    == with_path(views(entries@), path),
        decreases rest.len(),
    {
        let ghost before = rest@;
        let next = rest.pop().unwrap();
        proof {
            assert(views(before) =~= views(rest@).push(next@));
            vstd::seq_lib::to_multiset_build(views(rest@), next@);
        }
        let mut pos: usize = 0;
        while pos < sorted.len() && !path_precedes(next.path.as_str(), sorted[pos].path.as_str())
            invariant
                pos <= sorted.len(),
                forall|k: int| 0 <= k < pos ==> path_le((#[trigger] sorted@[k]).path@, next.path@),
                forall|k: int| 0 <= k < pos ==> (#[trigger] sorted@[k]).path@ != next.path@,
            decreases sorted.len() - pos,
        {
            proof {
                lemma_path_order_total(sorted@[pos as int].path@, next.path@);
            }
            pos += 1;
        }
        let ghost old_sorted = sorted@;
        proof {
            if pos < old_sorted.len() {
                assert forall|k: int| pos <= k < old_sorted.len() implies path_le(
                    next.path@,
                    (#[trigger] old_sorted[k]).path@,
                ) by {
                    assert(path_le(
                        views(old_sorted)[pos as int].path,
                        views(old_sorted)[k].path,
                    ));
                    lemma_path_order_transitive(
                        next.path@,
                        old_sorted[pos as int].path@,
                        old_sorted[k].path@,
                    );
                }
            }
            lemma_path_order_total(next.path@, next.path@);
        }
        sorted.insert(pos, next);
        proof {
            let now = sorted@;
            assert forall|i: int, j: int| 0 <= i <= j < now.len() implies path_le(
                (#[trigger] views(now)[i]).path,
                (#[trigger] views(now)[j]).path,
            ) by {
                let oi = if i < pos {
                    i
                } else {
                    i - 1
                };
                let oj = if j < pos {
                    j
                } else {
                    j - 1
                };
                if i != pos && j != pos {
                    assert(now[i] == old_sorted[oi] && now[j] == old_sorted[oj]);
                    assert(path_le(views(old_sorted)[oi].path, views(old_sorted)[oj].path));
                } else if i == pos && j != pos {
                    assert(now[j] == old_sorted[oj]);
                } else if j == pos && i != pos {
                    assert(now[i] == old_sorted[oi]);
                }
            }
            assert(views(now) =~= views(old_sorted).insert(pos as int, next@));
            assert forall|path: Seq<char>|
                #[trigger] with_path(views(rest@), path) + with_path(views(now), path)
                    == with_path(views(entries@), path) by {
                assert forall|k: int| 0 <= k < pos implies (#[trigger] views(old_sorted)[k]).path
                    != next@.path by {
                    assert(old_sorted[k].path@ != next.path@);
                }
                lemma_with_path_insert(views(old_sorted), pos as int, next@, path);
                assert(views(before).drop_last() =~= views(rest@));
                assert(with_path(views(before), path) + with_path(views(old_sorted), path)
                    == with_path(views(entries@), path));
                assert(with_path(views(rest@), path) + with_path(views(now), path) =~= with_path(
                    views(before),
                    path,
                ) + with_path(views(old_sorted), path));
            }
            vstd::seq_lib::to_multiset_insert(views(old_sorted), pos as int, next@);
            assert(views(now).to_multiset().add(views(rest@).to_multiset()) =~= views(
                old_sorted,
            ).to_multiset().add(views(before).to_multiset()));
        }
    }
    proof {
        views(rest@).to_multiset_ensures();
        assert(views(rest@).to_multiset() =~= Multiset::<EntryView>::empty()) by {
            assert(views(rest@).to_multiset().len() == 0);
        }
        assert(views(sorted@).to_multiset() =~= views(entries@).to_multiset());
        assert(views(rest@) =~= Seq::<EntryView>::empty());
        assert forall|path: Seq<char>| #[trigger]
            with_path(views(sorted@), path) == with_path(views(entries@), path) by {
            assert(with_path(views(rest@), path) + with_path(views(sorted@), path) =~= with_path(
                views(sorted@),
                path,
            ));
        }
    }
    sorted
}

impl PartialEq for Entry {
    /// Two entries are the same entry where their paths are the same; the
    /// glyph and the category follow from the path.
    fn eq(&self, other: &Entry) -> (same: bool) {
        str_eq(self.path.as_str(), other.path.as_str())
    }
}

impl vstd::std_specs::cmp::PartialEqSpecImpl for Entry {
    open spec fn obeys_eq_spec() -> bool {
        true
    }

    open spec fn eq_spec(&self, other: &Entry) -> bool {
        self.path@ == other.path@
    }
}

impl Eq for Entry {

}

impl PartialOrd for Entry {
    /// Entries are ordered as their paths are.
    fn partial_cmp(&self, other: &Entry) -> (order: Option<Ordering>) {
        if str_eq(self.path.as_str(), other.path.as_str()) {
            Some(Ordering::Equal)
        } else if path_precedes(self.path.as_str(), other.path.as_str()) {
            Some(Ordering::Less)
        } else {
            Some(Ordering::Greater)
        }
    }
}

impl vstd::std_specs::cmp::PartialOrdSpecImpl for Entry {
    open spec fn obeys_partial_cmp_spec() -> bool {
        true
    }

    open spec fn partial_cmp_spec(&self, other: &Entry) -> Option<Ordering> {
        if self.path@ == other.path@ {
            Some(Ordering::Equal)
        } else if path_le(self.path@, other.path@) {
            Some(Ordering::Less)
        } else {
            Some(Ordering::Greater)
        }
    }
}

} // verus!
