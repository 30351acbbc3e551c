//! Ordering sibling entries.

use vstd::prelude::*;
use std::cmp::Ordering;
use crate::text::lex_lt;
use crate::text::lowercase;
use crate::text::owned;
use crate::text::text_order;
use crate::text::lemma_lex_trichotomy;
use crate::text::lemma_lex_transitive;
use crate::tree::EntryView;
use crate::tree::Timestamp;
use crate::tree::TreeEntry;
use crate::tree::forest_view;
use crate::tree::modified_of;
use crate::tree::size_of;

verus! {

/// The attribute by which siblings are ordered.
#[derive(Debug, Clone, Copy, PartialEq, Eq, Structural)]
pub enum SortKey {
    /// By name, letter case set aside.
    Name,
    /// By size in bytes.
    Size,
    /// By time of last modification.
    Time,
    /// In the order in which the entries were found.
    Unsorted,
}

impl Default for SortKey {
    fn default() -> (key: SortKey)
        ensures
            key == SortKey::Name,
    {
        SortKey::Name
    }
}

/// The key that a word in lower case stands for; `Name` for any other word.
pub open spec fn key_named(word: Seq<char>) -> SortKey {
    if word == "size"@ {
        SortKey::Size
    } else if word == "mtime"@ || word == "time"@ {
        SortKey::Time
    } else if word == "none"@ {
        SortKey::Unsorted
    } else {
        SortKey::Name
    }
}

impl SortKey {
    /// The key that `s` names, in any letter case: `name`, `size`, `mtime`
    /// or `time`, `none`. Any other word gives `Name`.
    pub fn from_str(s: &str) -> (key: SortKey)
        ensures
            key == key_named(lowercase(s@)),
    {
        let word = s.to_lowercase();
        if word == owned("size") {
            SortKey::Size
        } else if word == owned("mtime") || word == owned("time") {
            SortKey::Time
        } else if word == owned("none") {
            SortKey::Unsorted
        } else {
            SortKey::Name
        }
    }
}

/// Puts sibling entries in order: by `key`, turned round where `reverse` is
/// set, and with directories ahead of all else where `dirs_first` is set.
#[derive(Debug, Clone, Copy)]
pub struct Sorter {
    pub key: SortKey,
    pub reverse: bool,
    pub dirs_first: bool,
}

/// Whether the first point in time is the second or earlier.
pub open spec fn time_le(a: Timestamp, b: Timestamp) -> bool {
    a.secs < b.secs || (a.secs == b.secs && a.nanos <= b.nanos)
}

/// Whether `a` may stand before `b` by the key alone: `a` is not greater.
/// By time, an entry without a time comes after every entry that has one.
pub open spec fn key_in_order(key: SortKey, a: EntryView, b: EntryView) -> bool {
    match key {
        SortKey::Name => !lex_lt(lowercase(b.name), lowercase(a.name)),
        SortKey::Size => size_of(a) <= size_of(b),
        SortKey::Time => match (modified_of(a), modified_of(b)) {
            (Some(at), Some(bt)) => time_le(at, bt),
            (Some(_), None) => true,
            (None, Some(_)) => false,
            (None, None) => true,
        },
        SortKey::Unsorted => true,
    }
}

/// Whether `p` lists each index below `n` exactly once.
pub open spec fn is_rearrangement(p: Seq<int>, n: nat) -> bool {
    &&& p.len() == n
    &&& forall|i: int| 0 <= i < n ==> 0 <= #[trigger] p[i] < n
    &&& forall|i: int, j: int| 0 <= i < j < n ==> #[trigger] p[i] != #[trigger] p[j]
}

/// Compares two strings in the order of strings.
fn compare_text(a: &str, b: &str) -> (order: Ordering)
    ensures
        (order is Less) == lex_lt(a@, b@),
        (order is Equal) == (a@ == b@),
        (order is Greater) == lex_lt(b@, a@),
{
    let sign = text_order(a, b);
    if sign < 0 {
        Ordering::Less
    } else if sign > 0 {
        Ordering::Greater
    } else {
        Ordering::Equal
    }
}

/// Compares two points in time.
fn compare_time(a: &Timestamp, b: &Timestamp) -> (order: Ordering)
    ensures
        (order is Greater) == !time_le(*a, *b),
        (order is Less) == !time_le(*b, *a),
{
    if a.secs < b.secs {
        Ordering::Less
    } else if a.secs > b.secs {
        Ordering::Greater
    } else if a.nanos < b.nanos {
        Ordering::Less
    } else if a.nanos > b.nanos {
        Ordering::Greater
    } else {
        Ordering::Equal
    }
}

/// Compares two entries by the key alone.
fn compare_by_key(key: SortKey, a: &TreeEntry, b: &TreeEntry) -> (order: Ordering)
    ensures
        (order is Greater) == !key_in_order(key, a@, b@),
        (order is Less) == !key_in_order(key, b@, a@),
{
    match key {
        SortKey::Name => {
            let a_name = a.name.to_lowercase();
            let b_name = b.name.to_lowercase();
            proof {
                lemma_lex_trichotomy(a_name@, b_name@);
            }
            compare_text(a_name.as_str(), b_name.as_str())
        },
        SortKey::Size => {
            let a_size = a.size();
            let b_size = b.size();
            if a_size < b_size {
                Ordering::Less
            } else if a_size > b_size {
                Ordering::Greater
            } else {
                Ordering::Equal
            }
        },
        SortKey::Time => {
            match (a.modified(), b.modified()) {
                (Some(at), Some(bt)) => compare_time(&at, &bt),
                (Some(_), None) => Ordering::Less,
                (None, Some(_)) => Ordering::Greater,
                (None, None) => Ordering::Equal,
            }
        },
        SortKey::Unsorted => Ordering::Equal,
    }
}

/// `slice::sort_by` with `Sorter::compare` as the comparison. The sort is
/// stable: afterwards the slice holds the same entries in ascending order,
/// and entries that compare equal keep the order they had. The comparison is
/// a total order (`lemma_in_order_total`, `lemma_in_order_transitive`), as the
/// sort asks.
#[verifier::external_body]
fn sort_by_compare(entries: &mut Vec<TreeEntry>, sorter: &Sorter)
    ensures
        sorter.sorted(forest_view(old(entries)@), forest_view(final(entries)@)),
{
    entries.sort_by(|a, b| sorter.compare(a, b));
}

impl Sorter {
    /// Whether `a` may stand before `b`: `a` is not greater than `b`. Where
    /// directories come first and exactly one of the two is a directory, that
    /// alone decides; else the key decides, turned round where the order is
    /// reversed.
    pub open spec fn in_order(&self, a: EntryView, b: EntryView) -> bool {
        if self.dirs_first && a.is_dir != b.is_dir {
            a.is_dir
        } else if self.reverse {
            key_in_order(self.key, b, a)
        } else {
            key_in_order(self.key, a, b)
        }
    }

    /// Whether `after` holds the entries of `before` in ascending order, equal
    /// entries in the order they had, where `after[i]` is `before[p[i]]`.
    pub open spec fn sorts(&self, before: Seq<EntryView>, after: Seq<EntryView>, p: Seq<int>) -> bool {
        &&& after.len() == before.len()
        &&& is_rearrangement(p, before.len())
        &&& forall|i: int| 0 <= i < after.len() ==> #[trigger] after[i] == before[p[i]]
        &&& forall|i: int, j: int|
            0 <= i < j < after.len() ==> self.in_order(#[trigger] after[i], #[trigger] after[j])
        &&& forall|i: int, j: int|
            0 <= i < j < after.len() && self.in_order(after[j], after[i]) ==> #[trigger] p[i]
                < #[trigger] p[j]
    }

    /// Whether `after` is `before`, stably sorted.
    pub open spec fn sorted(&self, before: Seq<EntryView>, after: Seq<EntryView>) -> bool {
        exists|p: Seq<int>| self.sorts(before, after, p)
    }

    /// A sorter by `key`, in reverse where `reverse` is set, with directories
    /// ahead of all else where `dirs_first` is set.
    pub fn new(key: SortKey, reverse: bool, dirs_first: bool) -> (sorter: Sorter)
        ensures
            sorter == (Sorter { key, reverse, dirs_first }),
    {
        Sorter { key, reverse, dirs_first }
    }

    /// Compares two siblings: `Less` where `a` must stand before `b`,
    /// `Greater` where it must stand after, `Equal` where either order will
    /// do.
    pub fn compare(&self, a: &TreeEntry, b: &TreeEntry) -> (order: Ordering)
        ensures
            (order is Greater) == !self.in_order(a@, b@),
            (order is Less) == !self.in_order(b@, a@),
    {
        if self.dirs_first {
            if a.is_dir && !b.is_dir {
                return Ordering::Less;
            }
            if !a.is_dir && b.is_dir {
                return Ordering::Greater;
            }
        }
        let ordering = compare_by_key(self.key, a, b);
        if self.reverse {
            match ordering {
                Ordering::Less => Ordering::Greater,
                Ordering::Equal => Ordering::Equal,
                Ordering::Greater => Ordering::Less,
            }
        } else {
            ordering
        }
    }

    /// Sorts the siblings in place: stably, in ascending order. Without a
    /// key and without directories first, nothing is moved.
    pub fn sort(&self, entries: &mut Vec<TreeEntry>)
        ensures
            self.sorted(forest_view(old(entries)@), forest_view(final(entries)@)),
            self.key == SortKey::Unsorted && !self.dirs_first ==> *final(entries) == *old(entries),
    {
        if matches!(self.key, SortKey::Unsorted) && !self.dirs_first {
            proof {
                let v = forest_view(entries@);
                let p = Seq::new(v.len(), |i: int| i);
                assert(self.sorts(v, v, p));
            }
            return ;
        }
        sort_by_compare(entries, self);
    }
}

/// Of two entries, one may stand before the other.
pub proof fn lemma_in_order_total(sorter: Sorter, a: EntryView, b: EntryView)
    ensures
        sorter.in_order(a, b) || sorter.in_order(b, a),
{
    lemma_lex_trichotomy(lowercase(a.name), lowercase(b.name));
}

/// Where `a` may stand before `b`, and `b` before `c`, `a` may stand before
/// `c`.
pub proof fn lemma_in_order_transitive(sorter: Sorter, a: EntryView, b: EntryView, c: EntryView)
    requires
        sorter.in_order(a, b),
        sorter.in_order(b, c),
    ensures
        sorter.in_order(a, c),
{
    let la = lowercase(a.name);
    let lb = lowercase(b.name);
    let lc = lowercase(c.name);
    lemma_lex_trichotomy(la, lb);
    lemma_lex_trichotomy(lb, lc);
    lemma_lex_trichotomy(la, lc);
    if lex_lt(lc, lb) && lex_lt(lb, la) {
        lemma_lex_transitive(lc, lb, la);
    }
    if lex_lt(la, lb) && lex_lt(lb, lc) {
        lemma_lex_transitive(la, lb, lc);
    }
    if lex_lt(lc, la) && lex_lt(la, lb) {
        lemma_lex_transitive(lc, la, lb);
    }
    if lex_lt(lb, lc) && lex_lt(lc, la) {
        lemma_lex_transitive(lb, lc, la);
    }
    if lex_lt(la, lc) && lex_lt(lc, lb) {
        lemma_lex_transitive(la, lc, lb);
    }
    if lex_lt(lb, la) && lex_lt(la, lc) {
        lemma_lex_transitive(lb, la, lc);
    }
}

/// A rearrangement that keeps every pair in its order moves nothing.
pub proof fn lemma_increasing_is_identity(p: Seq<int>, n: nat)
    requires
        is_rearrangement(p, n),
        forall|i: int, j: int| 0 <= i < j < n ==> #[trigger] p[i] < #[trigger] p[j],
    ensures
        forall|i: int| 0 <= i < n ==> #[trigger] p[i] == i,
{
    assert forall|i: int| 0 <= i < n implies #[trigger] p[i] == i by {
        lemma_increasing_lower(p, n, i);
        lemma_increasing_upper(p, n, i);
    }
}

/// A rearrangement that keeps every pair in its order sends no index below
/// itself.
proof fn lemma_increasing_lower(p: Seq<int>, n: nat, i: int)
    requires
        is_rearrangement(p, n),
        forall|i: int, j: int| 0 <= i < j < n ==> #[trigger] p[i] < #[trigger] p[j],
        0 <= i < n,
    ensures
        p[i] >= i,
    decreases i,
{
    if i > 0 {
        lemma_increasing_lower(p, n, i - 1);
    }
}

/// A rearrangement that keeps every pair in its order sends no index above
/// itself.
proof fn lemma_increasing_upper(p: Seq<int>, n: nat, i: int)
    requires
        is_rearrangement(p, n),
        forall|i: int, j: int| 0 <= i < j < n ==> #[trigger] p[i] < #[trigger] p[j],
        0 <= i < n,
    ensures
        p[i] <= i,
    decreases n - i,
{
    if i < n - 1 {
        lemma_increasing_upper(p, n, i + 1);
    }
}

/// A sorter without a key, and without directories first, leaves the
/// siblings exactly as they were.
pub proof fn lemma_unsorted_keeps_order(sorter: Sorter, before: Seq<EntryView>, after: Seq<EntryView>)
    requires
        sorter.key == SortKey::Unsorted,
        !sorter.dirs_first,
        sorter.sorted(before, after),
    ensures
        after == before,
{
    let p = choose|p: Seq<int>| sorter.sorts(before, after, p);
    assert forall|i: int, j: int| 0 <= i < j < before.len() implies #[trigger] p[i] < #[trigger] p[j] by {
        assert(sorter.in_order(after[j], after[i]));
    }
    lemma_increasing_is_identity(p, before.len());
    assert(after =~= before);
}

/// With directories first, a directory stands before every sibling that is
/// not a directory, whatever the key and whether or not the order is
/// reversed.
pub proof fn lemma_directories_first(
    sorter: Sorter,
    before: Seq<EntryView>,
    after: Seq<EntryView>,
    i: int,
    j: int,
)
    requires
        sorter.dirs_first,
        sorter.sorted(before, after),
        0 <= i < after.len(),
        0 <= j < after.len(),
        after[i].is_dir,
        !after[j].is_dir,
    ensures
        i < j,
{
    let p = choose|p: Seq<int>| sorter.sorts(before, after, p);
    if j < i {
        assert(sorter.in_order(after[j], after[i]));
    }
}

/// The sum of `f` over the entries of `s`.
pub open spec fn total(s: Seq<EntryView>, f: spec_fn(EntryView) -> nat) -> nat
    decreases s.len(),
{
    if s.len() == 0 {
        0
    } else {
        total(s.drop_last(), f) + f(s.last())
    }
}

/// Taking one entry out lowers the sum by that entry's part.
pub proof fn lemma_total_remove(s: Seq<EntryView>, k: int, f: spec_fn(EntryView) -> nat)
    requires
        0 <= k < s.len(),
    ensures
        total(s, f) == total(s.remove(k), f) + f(s[k]),
    decreases s.len(),
{
    if k == s.len() - 1 {
        assert(s.remove(k) =~= s.drop_last());
    } else {
        lemma_total_remove(s.drop_last(), k, f);
        assert(s.drop_last().remove(k) =~= s.remove(k).drop_last());
        assert(s.remove(k).last() == s.last());
    }
}

/// A sum does not depend on the order of the entries.
pub proof fn lemma_total_rearranged(
    before: Seq<EntryView>,
    after: Seq<EntryView>,
    p: Seq<int>,
    f: spec_fn(EntryView) -> nat,
)
    requires
        after.len() == before.len(),
        is_rearrangement(p, before.len()),
        forall|i: int| 0 <= i < after.len() ==> #[trigger] after[i] == before[p[i]],
    ensures
        total(after, f) == total(before, f),
    decreases before.len(),
{
    let n = before.len() as int;
    if n > 0 {
        let k = p[n - 1];
        let before1 = before.remove(k);
        let after1 = after.drop_last();
        let pa = Seq::new((n - 1) as nat, |i: int| if p[i] > k { p[i] - 1 } else { p[i] });
        assert forall|i: int| 0 <= i < n - 1 implies 0 <= #[trigger] pa[i] < n - 1 by {
            assert(p[i] != p[n - 1]);
        }
        assert forall|i: int, j: int| 0 <= i < j < n - 1 implies #[trigger] pa[i] != #[trigger] pa[j] by {
            assert(p[i] != p[j]);
            assert(p[i] != p[n - 1]);
            assert(p[j] != p[n - 1]);
        }
        assert forall|i: int| 0 <= i < after1.len() implies #[trigger] after1[i] == before1[pa[i]] by {
            assert(after1[i] == after[i]);
            assert(p[i] != p[n - 1]);
        }
        lemma_total_rearranged(before1, after1, pa, f);
        lemma_total_remove(before, k, f);
        assert(after.last() == before[k]);
    }
}


/// The rearrangement that is left when its last place, and the index that
/// stood there, are taken out.
pub open spec fn without_last(p: Seq<int>) -> Seq<int> {
    let k = p.last();
    Seq::new((p.len() - 1) as nat, |i: int| if p[i] > k { p[i] - 1 } else { p[i] })
}

/// Taking the last place out of a rearrangement leaves a rearrangement.
pub proof fn lemma_without_last(p: Seq<int>, n: nat)
    requires
        n > 0,
        is_rearrangement(p, n),
    ensures
        is_rearrangement(without_last(p), (n - 1) as nat),
{
    let q = without_last(p);
    assert forall|i: int| 0 <= i < n - 1 implies 0 <= #[trigger] q[i] < n - 1 by {
        assert(p[i] != p[n - 1]);
    }
    assert forall|i: int, j: int| 0 <= i < j < n - 1 implies #[trigger] q[i] != #[trigger] q[j] by {
        assert(p[i] != p[j]);
        assert(p[i] != p[n - 1]);
        assert(p[j] != p[n - 1]);
    }
}

/// A rearrangement reaches every index.
pub proof fn lemma_rearrangement_reaches(p: Seq<int>, n: nat, x: int)
    requires
        is_rearrangement(p, n),
        0 <= x < n,
    ensures
        exists|i: int| 0 <= i < n && #[trigger] p[i] == x,
    decreases n,
{
    let k = p[n - 1];
    if k != x {
        let q = without_last(p);
        lemma_without_last(p, n);
        let y = if x > k { x - 1 } else { x };
        lemma_rearrangement_reaches(q, (n - 1) as nat, y);
        let i = choose|i: int| 0 <= i < n - 1 && #[trigger] q[i] == y;
        assert(p[i] != p[n - 1]);
        assert(p[i] == x);
    }
}

/// A sequence has one stable sorting only.
pub proof fn lemma_sorts_unique(
    sorter: Sorter,
    before: Seq<EntryView>,
    a1: Seq<EntryView>,
    pa: Seq<int>,
    a2: Seq<EntryView>,
    pb: Seq<int>,
)
    requires
        sorter.sorts(before, a1, pa),
        sorter.sorts(before, a2, pb),
    ensures
        a1 == a2,
    decreases before.len(),
{
    let n = before.len() as int;
    if n == 0 {
        assert(a1 =~= a2);
    } else {
        let k1 = pa[n - 1];
        let k2 = pb[n - 1];
        if k1 != k2 {
            lemma_rearrangement_reaches(pa, n as nat, k2);
            lemma_rearrangement_reaches(pb, n as nat, k1);
            let i = choose|i: int| 0 <= i < n && #[trigger] pa[i] == k2;
            let j = choose|j: int| 0 <= j < n && #[trigger] pb[j] == k1;
            assert(i < n - 1);
            assert(j < n - 1);
            assert(sorter.in_order(a1[i], a1[n - 1]));
            assert(sorter.in_order(a2[j], a2[n - 1]));
            assert(a1[i] == before[k2] && a1[n - 1] == before[k1]);
            assert(a2[j] == before[k1] && a2[n - 1] == before[k2]);
            assert(sorter.in_order(a1[n - 1], a1[i]));
            assert(sorter.in_order(a2[n - 1], a2[j]));
            assert(pa[i] < pa[n - 1]);
            assert(pb[j] < pb[n - 1]);
            assert(false);
        }
        let k = k1;
        let b = before.remove(k);
        let q1 = without_last(pa);
        let q2 = without_last(pb);
        lemma_without_last(pa, n as nat);
        lemma_without_last(pb, n as nat);
        let c1 = a1.drop_last();
        let c2 = a2.drop_last();
        assert forall|i: int| 0 <= i < c1.len() implies #[trigger] c1[i] == b[q1[i]] by {
            assert(c1[i] == a1[i]);
            assert(pa[i] != pa[n - 1]);
        }
        assert forall|i: int| 0 <= i < c2.len() implies #[trigger] c2[i] == b[q2[i]] by {
            assert(c2[i] == a2[i]);
            assert(pb[i] != pb[n - 1]);
        }
        assert forall|i: int, j: int| 0 <= i < j < c1.len() implies sorter.in_order(
            #[trigger] c1[i],
            #[trigger] c1[j],
        ) by {
            assert(sorter.in_order(a1[i], a1[j]));
        }
        assert forall|i: int, j: int| 0 <= i < j < c2.len() implies sorter.in_order(
            #[trigger] c2[i],
            #[trigger] c2[j],
        ) by {
            assert(sorter.in_order(a2[i], a2[j]));
        }
        assert forall|i: int, j: int|
            0 <= i < j < c1.len() && sorter.in_order(c1[j], c1[i]) implies #[trigger] q1[i]
            < #[trigger] q1[j] by {
            assert(sorter.in_order(a1[j], a1[i]));
            assert(pa[i] < pa[j]);
            assert(pa[i] != pa[n - 1]);
            assert(pa[j] != pa[n - 1]);
        }
        assert forall|i: int, j: int|
            0 <= i < j < c2.len() && sorter.in_order(c2[j], c2[i]) implies #[trigger] q2[i]
            < #[trigger] q2[j] by {
            assert(sorter.in_order(a2[j], a2[i]));
            assert(pb[i] < pb[j]);
            assert(pb[i] != pb[n - 1]);
            assert(pb[j] != pb[n - 1]);
        }
        lemma_sorts_unique(sorter, b, c1, q1, c2, q2);
        assert(a1.last() == a2.last());
        assert(a1 =~= c1.push(a1.last()));
        assert(a2 =~= c2.push(a2.last()));
    }
}

/// The first place in the sorted run `a` whose entry must stand after `x`;
/// the length of `a` where there is none.
pub open spec fn place_after(sorter: Sorter, a: Seq<EntryView>, x: EntryView) -> int
    decreases a.len(),
{
    if a.len() == 0 {
        0
    } else if sorter.in_order(a.last(), x) {
        a.len() as int
    } else {
        place_after(sorter, a.drop_last(), x)
    }
}

/// In a sorted run, all that may stand before `x` comes before the place
/// that `place_after` gives, and nothing from that place on may.
proof fn lemma_place_after(sorter: Sorter, a: Seq<EntryView>, x: EntryView)
    requires
        forall|i: int, j: int|
            0 <= i < j < a.len() ==> sorter.in_order(#[trigger] a[i], #[trigger] a[j]),
    ensures
        0 <= place_after(sorter, a, x) <= a.len(),
        forall|i: int| 0 <= i < place_after(sorter, a, x) ==> sorter.in_order(#[trigger] a[i], x),
        forall|i: int| place_after(sorter, a, x) <= i < a.len() ==> !sorter.in_order(#[trigger] a[i], x),
    decreases a.len(),
{
    if a.len() == 0 {
    } else if sorter.in_order(a.last(), x) {
        assert forall|i: int| 0 <= i < a.len() implies sorter.in_order(#[trigger] a[i], x) by {
            if i < a.len() - 1 {
                assert(sorter.in_order(a[i], a[a.len() - 1]));
                lemma_in_order_transitive(sorter, a[i], a.last(), x);
            }
        }
    } else {
        let b = a.drop_last();
        assert forall|i: int, j: int| 0 <= i < j < b.len() implies sorter.in_order(
            #[trigger] b[i],
            #[trigger] b[j],
        ) by {
            assert(sorter.in_order(a[i], a[j]));
        }
        lemma_place_after(sorter, b, x);
        assert forall|i: int| 0 <= i < place_after(sorter, a, x) implies sorter.in_order(
            #[trigger] a[i],
            x,
        ) by {
            assert(a[i] == b[i]);
        }
        assert forall|i: int| place_after(sorter, a, x) <= i < a.len() implies !sorter.in_order(
            #[trigger] a[i],
            x,
        ) by {
            if i < a.len() - 1 {
                assert(a[i] == b[i]);
            }
        }
    }
}

/// Every run of siblings has a stable sorting.
pub proof fn lemma_sorted_exists(sorter: Sorter, before: Seq<EntryView>)
    ensures
        sorter.sorted(before, ordered(sorter, before)),
    decreases before.len(),
{
    let n = before.len() as int;
    if n == 0 {
        assert(sorter.sorts(before, before, Seq::<int>::empty()));
        assert(sorter.sorted(before, before));
    } else {
        let b = before.drop_last();
        let x = before.last();
        lemma_sorted_exists(sorter, b);
        let a = ordered(sorter, b);
        let q = choose|q: Seq<int>| sorter.sorts(b, a, q);
        lemma_place_after(sorter, a, x);
        let m = place_after(sorter, a, x);
        let after = a.insert(m, x);
        let p = q.insert(m, n - 1);
        assert forall|i: int| 0 <= i < after.len() implies #[trigger] after[i] == before[p[i]] by {
            if i < m {
                assert(after[i] == a[i]);
                assert(p[i] == q[i]);
                assert(b[q[i]] == before[q[i]]);
            } else if i > m {
                assert(after[i] == a[i - 1]);
                assert(p[i] == q[i - 1]);
                assert(b[q[i - 1]] == before[q[i - 1]]);
            }
        }
        assert forall|i: int| 0 <= i < n implies 0 <= #[trigger] p[i] < n by {
            if i < m {
                assert(p[i] == q[i]);
            } else if i > m {
                assert(p[i] == q[i - 1]);
            }
        }
        assert forall|i: int, j: int| 0 <= i < j < n implies #[trigger] p[i] != #[trigger] p[j] by {
            let pi = if i < m { q[i] } else if i > m { q[i - 1] } else { n - 1 };
            let pj = if j < m { q[j] } else if j > m { q[j - 1] } else { n - 1 };
            assert(p[i] == pi);
            assert(p[j] == pj);
        }
        assert forall|i: int, j: int| 0 <= i < j < after.len() implies sorter.in_order(
            #[trigger] after[i],
            #[trigger] after[j],
        ) by {
            if j < m {
                assert(sorter.in_order(a[i], a[j]));
            } else if j == m {
                assert(sorter.in_order(a[i], x));
            } else if i == m {
                assert(!sorter.in_order(a[j - 1], x));
                lemma_in_order_total(sorter, a[j - 1], x);
            } else if i < m {
                assert(sorter.in_order(a[i], a[j - 1]));
            } else {
                assert(sorter.in_order(a[i - 1], a[j - 1]));
            }
        }
        assert forall|i: int, j: int|
            0 <= i < j < after.len() && sorter.in_order(after[j], after[i]) implies #[trigger] p[i]
            < #[trigger] p[j] by {
            if j < m {
                assert(sorter.in_order(a[j], a[i]));
                assert(q[i] < q[j]);
            } else if j == m {
                assert(p[i] == q[i]);
            } else if i == m {
                assert(!sorter.in_order(a[j - 1], x));
            } else if i < m {
                assert(sorter.in_order(a[j - 1], a[i]));
                assert(q[i] < q[j - 1]);
            } else {
                assert(sorter.in_order(a[j - 1], a[i - 1]));
                assert(q[i - 1] < q[j - 1]);
            }
        }
        assert(sorter.sorts(before, after, p));
        assert(sorter.sorted(before, after));
    }
}

/// The siblings `s` in the order that the sorter gives them.
pub open spec fn ordered(sorter: Sorter, s: Seq<EntryView>) -> Seq<EntryView> {
    choose|after: Seq<EntryView>| sorter.sorted(s, after)
}

/// Whatever is a stable sorting of `before` is `ordered(sorter, before)`.
pub proof fn lemma_sorted_is_ordered(sorter: Sorter, before: Seq<EntryView>, after: Seq<EntryView>)
    requires
        sorter.sorted(before, after),
    ensures
        after == ordered(sorter, before),
{
    let other = ordered(sorter, before);
    assert(sorter.sorted(before, other));
    let pa = choose|p: Seq<int>| sorter.sorts(before, after, p);
    let pb = choose|p: Seq<int>| sorter.sorts(before, other, p);
    lemma_sorts_unique(sorter, before, after, pa, other, pb);
}

/// Two siblings are put in the order in which the first may stand before
/// the second, if it may, and are swapped if it may not.
pub proof fn lemma_ordered_pair(sorter: Sorter, a: EntryView, b: EntryView)
    ensures
        ordered(sorter, seq![a, b]) == (if sorter.in_order(a, b) {
            seq![a, b]
        } else {
            seq![b, a]
        }),
{
    let before = seq![a, b];
    if sorter.in_order(a, b) {
        let p = seq![0int, 1int];
        assert(sorter.sorts(before, before, p));
        assert(sorter.sorted(before, before));
        lemma_sorted_is_ordered(sorter, before, before);
    } else {
        lemma_in_order_total(sorter, a, b);
        let after = seq![b, a];
        let p = seq![1int, 0int];
        assert(sorter.sorts(before, after, p));
        assert(sorter.sorted(before, after));
        lemma_sorted_is_ordered(sorter, before, after);
    }
}

} // verus!
