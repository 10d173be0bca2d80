//! Directory entries, their ordering, and the listing handed to the renderer.

use vstd::prelude::*;
use vstd::multiset::Multiset;
use vstd::relations::{sorted_by, total_ordering};

use vstd::string::StringExecFns;

use crate::order::{entry_le, lemma_entry_le_total_ordering, text_le_exec, EntryView};
use crate::paths::{child_path, child_path_of, parent_of, parent_path, root, root_path};

verus! {

broadcast use vstd::seq_lib::group_to_multiset_ensures;

/// One child of a directory: the name shown and the path followed when it is
/// selected.
pub struct DirEntry {
    pub name: String,
    pub nav_path: String,
}

impl View for DirEntry {
    type V = EntryView;

    open spec fn view(&self) -> EntryView {
        (self.name@, self.nav_path@)
    }
}

/// The views of a sequence of entries.
pub open spec fn entries_view(s: Seq<DirEntry>) -> Seq<EntryView> {
    s.map_values(|e: DirEntry| e@)
}

/// The order in which a listing shows its entries.
pub open spec fn entry_order() -> spec_fn(EntryView, EntryView) -> bool {
    |x: EntryView, y: EntryView| entry_le(x, y)
}

/// True when `r` holds the entries of `s`, each as often, in listing order.
pub open spec fn is_sorted_permutation(r: Seq<EntryView>, s: Seq<EntryView>) -> bool {
    &&& r.to_multiset() == s.to_multiset()
    &&& sorted_by(r, entry_order())
}

/// Compares two entries in listing order.
pub fn entry_le_exec(a: &DirEntry, b: &DirEntry) -> (r: bool)
    ensures
        r == entry_le(a@, b@),
{
    let same_name = a.name == b.name;
    if !same_name {
        text_le_exec(a.name.as_str(), b.name.as_str())
    } else {
        text_le_exec(a.nav_path.as_str(), b.nav_path.as_str())
    }
}

/// Puts entries in listing order: by display name, compared code point by
/// code point, and equal names by navigation path.
pub fn sort_entries(v: Vec<DirEntry>) -> (r: Vec<DirEntry>)
    ensures
        is_sorted_permutation(entries_view(r@), entries_view(v@)),
{
    proof {
        lemma_entry_le_total_ordering();
    }
    let ghost le = entry_order();
    let ghost input = entries_view(v@);
    let mut rest = v;
    let mut out: Vec<DirEntry> = Vec::new();
    assert(entries_view(out@).to_multiset() =~= Multiset::<EntryView>::empty());
    while rest.len() > 0
        invariant
            total_ordering(le),
            le == entry_order(),
            input.to_multiset() == entries_view(rest@).to_multiset().add(entries_view(out@).to_multiset()),
            sorted_by(entries_view(out@), le),
        decreases rest.len(),
    {
        let ghost before_rest = rest@;
        let e = rest.pop().unwrap();
        proof {
            assert(entries_view(before_rest) =~= entries_view(rest@).push(e@));
        }
        let mut k: usize = 0;
        while k < out.len() && entry_le_exec(&out[k], &e)
            invariant
                total_ordering(le),
                le == entry_order(),
                k <= out.len(),
                forall|j: int| 0 <= j < k ==> le(#[trigger] out@[j]@, e@),
            decreases out.len() - k,
        {
            k = k + 1;
        }
        let ghost old_out = entries_view(out@);
        proof {
            if k < out.len() {
                assert(le(e@, out@[k as int]@) || le(out@[k as int]@, e@));
                assert forall|j: int| k <= j < old_out.len() implies le(e@, #[trigger] old_out[j]) by {
                    if j > k {
                        assert(le(old_out[k as int], old_out[j]));
                    }
                }
            }
        }
        out.insert(k, e);
        proof {
            let new_out = entries_view(out@);
            assert(new_out =~= old_out.insert(k as int, e@));
            assert forall|i: int, j: int| 0 <= i < j < new_out.len() implies #[trigger] le(new_out[i], new_out[j]) by {
                if j < k {
                } else if j == k {
                } else if i < k {
                    assert(le(new_out[i], e@));
                    assert(le(e@, new_out[j]));
                } else if i == k {
                } else {
                    assert(le(old_out[i - 1], old_out[j - 1]));
                }
            }
            vstd::seq_lib::to_multiset_insert(old_out, k as int, e@);
        }
    }
    assert(entries_view(rest@).to_multiset() =~= Multiset::<EntryView>::empty());
    assert(input.to_multiset() =~= entries_view(out@).to_multiset());
    out
}

} // verus!

verus! {

/// One child of a directory as the file system reports it.
pub struct RawEntry {
    pub name: String,
    pub is_dir: bool,
}

/// The listing of one directory, as handed to the renderer.
pub struct Listing {
    pub directories: Vec<DirEntry>,
    pub files: Vec<DirEntry>,
    pub current_dir: String,
}

/// The name of the entry that leads to the parent directory.
pub open spec fn parent_name() -> Seq<char> {
    seq!['.', '.']
}

impl View for RawEntry {
    type V = (Seq<char>, bool);

    open spec fn view(&self) -> (Seq<char>, bool) {
        (self.name@, self.is_dir)
    }
}

/// The views of a sequence of children as read from the file system.
pub open spec fn raw_view(s: Seq<RawEntry>) -> Seq<(Seq<char>, bool)> {
    s.map_values(|e: RawEntry| e@)
}

/// The entries of `raw` that are directories (`want_dirs`) or that are not,
/// in the order given, each with its path under `dir`.
pub open spec fn bucket(dir: Seq<char>, raw: Seq<(Seq<char>, bool)>, want_dirs: bool) -> Seq<EntryView>
    decreases raw.len(),
{
    if raw.len() == 0 {
        seq![]
    } else {
        let rest = bucket(dir, raw.drop_last(), want_dirs);
        let e = raw.last();
        if e.1 == want_dirs {
            rest.push((e.0, child_path(dir, e.0)))
        } else {
            rest
        }
    }
}

/// The directory entries of a listing of `path` before sorting: the entry
/// to the parent is added except at the root.
pub open spec fn with_parent(path: Seq<char>, dirs: Seq<EntryView>) -> Seq<EntryView> {
    if path == root_path() {
        dirs
    } else {
        dirs.push((parent_name(), parent_path(path)))
    }
}

/// Splits the children of directory `dir` into directories and other
/// entries, keeping their order and giving each its navigation path.
pub fn classify_entries(dir: &str, raw: &Vec<RawEntry>) -> (r: (Vec<DirEntry>, Vec<DirEntry>))
    ensures
        entries_view(r.0@) == bucket(dir@, raw_view(raw@), true),
        entries_view(r.1@) == bucket(dir@, raw_view(raw@), false),
{
    let mut dirs: Vec<DirEntry> = Vec::new();
    let mut files: Vec<DirEntry> = Vec::new();
    let mut i: usize = 0;
    assert(raw_view(raw@.subrange(0, 0)) =~= Seq::<(Seq<char>, bool)>::empty());
    assert(entries_view(dirs@) =~= Seq::<EntryView>::empty());
    assert(entries_view(files@) =~= Seq::<EntryView>::empty());
    while i < raw.len()
        invariant
            i <= raw.len(),
            entries_view(dirs@) == bucket(dir@, raw_view(raw@.subrange(0, i as int)), true),
            entries_view(files@) == bucket(dir@, raw_view(raw@.subrange(0, i as int)), false),
        decreases raw.len() - i,
    {
        let e = &raw[i];
        let entry = DirEntry { name: e.name.clone(), nav_path: child_path_of(dir, e.name.as_str()) };
        let ghost d0 = entries_view(dirs@);
        let ghost f0 = entries_view(files@);
        if e.is_dir {
            dirs.push(entry);
        } else {
            files.push(entry);
        }
        proof {
            assert(raw_view(raw@.subrange(0, i + 1)).drop_last() =~= raw_view(raw@.subrange(0, i as int)));
            assert(raw_view(raw@.subrange(0, i + 1)).last() == raw@[i as int]@);
            assert(entries_view(dirs@) =~= if e.is_dir { d0.push(entry@) } else { d0 });
            assert(entries_view(files@) =~= if e.is_dir { f0 } else { f0.push(entry@) });
        }
        i = i + 1;
    }
    assert(raw@.subrange(0, raw.len() as int) =~= raw@);
    (dirs, files)
}

/// Builds the listing of `path` from its child directories and files: the
/// entry to the parent is added except at the root, and both sequences are
/// put in listing order.
pub fn assemble(path: &str, dirs: Vec<DirEntry>, files: Vec<DirEntry>) -> (r: Listing)
    ensures
        is_sorted_permutation(entries_view(r.directories@), with_parent(path@, entries_view(dirs@))),
        is_sorted_permutation(entries_view(r.files@), entries_view(files@)),
        r.current_dir@ == path@,
{
    let mut dirs = dirs;
    let ghost raw_dirs = entries_view(dirs@);
    let current = String::from_str(path);
    let is_root = current == root();
    if !is_root {
        proof {
            assert(path@ != root_path());
        }
        let up = DirEntry { name: String::from_str(".."), nav_path: parent_of(path) };
        proof {
            reveal_strlit("..");
            assert(up@.0 =~= parent_name());
        }
        dirs.push(up);
        assert(entries_view(dirs@) =~= raw_dirs.push(up@));
    }
    Listing {
        directories: sort_entries(dirs),
        files: sort_entries(files),
        current_dir: current,
    }
}

} // verus!

verus! {

/// A listing seen as its directories, its files and its current directory.
pub type ListingView = (Seq<EntryView>, Seq<EntryView>, Seq<char>);

impl View for Listing {
    type V = ListingView;

    open spec fn view(&self) -> ListingView {
        (entries_view(self.directories@), entries_view(self.files@), self.current_dir@)
    }
}

/// True when `l` is what `assemble` returns for `path` and the given
/// directories and files.
pub open spec fn is_listing_of(l: ListingView, path: Seq<char>, dirs: Seq<EntryView>, files: Seq<EntryView>) -> bool {
    &&& is_sorted_permutation(l.0, with_parent(path, dirs))
    &&& is_sorted_permutation(l.1, files)
    &&& l.2 == path
}

/// The same directory read twice, its entries coming in any order each time,
/// gives the same listing.
pub proof fn lemma_listing_deterministic(
    path: Seq<char>,
    dirs1: Seq<EntryView>,
    files1: Seq<EntryView>,
    dirs2: Seq<EntryView>,
    files2: Seq<EntryView>,
    l1: ListingView,
    l2: ListingView,
)
    requires
        dirs1.to_multiset() == dirs2.to_multiset(),
        files1.to_multiset() == files2.to_multiset(),
        is_listing_of(l1, path, dirs1, files1),
        is_listing_of(l2, path, dirs2, files2),
    ensures
        l1 == l2,
{
    lemma_entry_le_total_ordering();
    if path != root_path() {
        let up = (parent_name(), parent_path(path));
        assert(dirs1.push(up).to_multiset() == dirs2.push(up).to_multiset());
    }
    vstd::seq_lib::lemma_sorted_unique(l1.0, l2.0, entry_order());
    vstd::seq_lib::lemma_sorted_unique(l1.1, l2.1, entry_order());
}

proof fn lemma_count_two(s: Seq<EntryView>, i: int, j: int)
    requires
        0 <= i < j < s.len(),
        s[i] == s[j],
    ensures
        s.to_multiset().count(s[i]) >= 2,
{
    broadcast use vstd::multiset::group_multiset_axioms;

    let t = s.remove(j);
    assert(t[i] == s[i]);
    assert(t.contains(s[i]));
    assert(t.to_multiset().count(s[i]) > 0);
    assert(t.to_multiset() == s.to_multiset().remove(s[j]));
}

/// The listing of the root has no entry named `..`; the listing of any other
/// path has exactly one, and it leads to the parent path. Directories read
/// from the file system are never named `..`.
pub proof fn lemma_parent_entry(path: Seq<char>, dirs: Seq<EntryView>, files: Seq<EntryView>, l: ListingView)
    requires
        forall|i: int| 0 <= i < dirs.len() ==> (#[trigger] dirs[i]).0 != parent_name(),
        is_listing_of(l, path, dirs, files),
    ensures
        path == root_path() ==> forall|i: int| 0 <= i < l.0.len() ==> (#[trigger] l.0[i]).0 != parent_name(),
        path != root_path() ==> exists|i: int|
            0 <= i < l.0.len() && #[trigger] l.0[i] == (parent_name(), parent_path(path)),
        path != root_path() ==> forall|i: int, j: int|
            0 <= i < l.0.len() && 0 <= j < l.0.len() && (#[trigger] l.0[i]).0 == parent_name()
                && (#[trigger] l.0[j]).0 == parent_name() ==> i == j,
        forall|i: int| 0 <= i < l.0.len() && (#[trigger] l.0[i]).0 == parent_name()
            ==> l.0[i].1 == parent_path(path),
{
    let up = (parent_name(), parent_path(path));
    let all = with_parent(path, dirs);
    assert forall|i: int| 0 <= i < l.0.len() && (#[trigger] l.0[i]).0 == parent_name()
        implies path != root_path() && l.0[i] == up by {
        assert(l.0.to_multiset().count(l.0[i]) > 0);
        assert(all.contains(l.0[i]));
        let k = choose|k: int| 0 <= k < all.len() && all[k] == l.0[i];
        if k < dirs.len() {
            assert(all[k] == dirs[k]);
        }
    }
    if path != root_path() {
        assert(all.contains(up)) by {
            assert(all[dirs.len() as int] == up);
        }
        assert(all.to_multiset().count(up) > 0);
        assert(l.0.to_multiset().count(up) > 0);
        assert(l.0.contains(up));
        assert(!dirs.contains(up));
        assert(all.to_multiset().count(up) == 1);
        assert forall|i: int, j: int|
            0 <= i < l.0.len() && 0 <= j < l.0.len() && (#[trigger] l.0[i]).0 == parent_name()
                && (#[trigger] l.0[j]).0 == parent_name() implies i == j by {
            if i < j {
                lemma_count_two(l.0, i, j);
            } else if j < i {
                lemma_count_two(l.0, j, i);
            }
        }
    }
}

} // verus!

verus! {

/// What one child read from the file system adds to a bucket.
pub open spec fn bucket_item(dir: Seq<char>, e: (Seq<char>, bool), want_dirs: bool) -> Multiset<EntryView> {
    if e.1 == want_dirs {
        Multiset::singleton((e.0, child_path(dir, e.0)))
    } else {
        Multiset::empty()
    }
}

proof fn lemma_bucket_last(dir: Seq<char>, raw: Seq<(Seq<char>, bool)>, want_dirs: bool)
    requires
        raw.len() > 0,
    ensures
        bucket(dir, raw, want_dirs).to_multiset() == bucket(dir, raw.drop_last(), want_dirs).to_multiset().add(
            bucket_item(dir, raw.last(), want_dirs),
        ),
{
    broadcast use vstd::multiset::group_multiset_axioms;

    let rest = bucket(dir, raw.drop_last(), want_dirs);
    if raw.last().1 == want_dirs {
        let v = (raw.last().0, child_path(dir, raw.last().0));
        assert(rest.push(v).to_multiset() =~= rest.to_multiset().insert(v));
        assert(rest.to_multiset().insert(v) =~= rest.to_multiset().add(Multiset::singleton(v)));
    } else {
        assert(rest.to_multiset() =~= rest.to_multiset().add(Multiset::empty()));
    }
}

proof fn lemma_bucket_remove(dir: Seq<char>, raw: Seq<(Seq<char>, bool)>, k: int, want_dirs: bool)
    requires
        0 <= k < raw.len(),
    ensures
        bucket(dir, raw, want_dirs).to_multiset() == bucket(dir, raw.remove(k), want_dirs).to_multiset().add(
            bucket_item(dir, raw[k], want_dirs),
        ),
    decreases raw.len(),
{
    broadcast use vstd::multiset::group_multiset_axioms;

    lemma_bucket_last(dir, raw, want_dirs);
    if k == raw.len() - 1 {
        assert(raw.remove(k) =~= raw.drop_last());
    } else {
        let shorter = raw.remove(k);
        assert(shorter.drop_last() =~= raw.drop_last().remove(k));
        assert(shorter.last() == raw.last());
        lemma_bucket_remove(dir, raw.drop_last(), k, want_dirs);
        lemma_bucket_last(dir, shorter, want_dirs);
        let a = bucket(dir, raw.drop_last().remove(k), want_dirs).to_multiset();
        let x = bucket_item(dir, raw[k], want_dirs);
        let y = bucket_item(dir, raw.last(), want_dirs);
        assert(a.add(x).add(y) =~= a.add(y).add(x));
    }
}

/// Children read in two orders land in the same buckets, each as often.
pub proof fn lemma_bucket_permutation(
    dir: Seq<char>,
    raw1: Seq<(Seq<char>, bool)>,
    raw2: Seq<(Seq<char>, bool)>,
    want_dirs: bool,
)
    requires
        raw1.to_multiset() == raw2.to_multiset(),
    ensures
        bucket(dir, raw1, want_dirs).to_multiset() == bucket(dir, raw2, want_dirs).to_multiset(),
    decreases raw1.len(),
{
    broadcast use vstd::multiset::group_multiset_axioms;

    if raw1.len() == 0 {
        assert(raw1.to_multiset().len() == 0);
        assert(raw2.to_multiset().len() == raw2.len());
        assert(raw1 =~= raw2);
    } else {
        let x = raw1.last();
        assert(raw1.contains(x));
        assert(raw1.to_multiset().count(x) > 0);
        assert(raw2.contains(x));
        let k = choose|k: int| 0 <= k < raw2.len() && raw2[k] == x;
        assert(raw1.drop_last() =~= raw1.remove(raw1.len() - 1));
        assert(raw1.drop_last().to_multiset() == raw2.remove(k).to_multiset());
        lemma_bucket_permutation(dir, raw1.drop_last(), raw2.remove(k), want_dirs);
        lemma_bucket_last(dir, raw1, want_dirs);
        lemma_bucket_remove(dir, raw2, k, want_dirs);
    }
}

/// The same directory read twice, its children coming in any order each time,
/// gives the same listing.
pub proof fn lemma_listing_deterministic_reads(
    dir: Seq<char>,
    raw1: Seq<(Seq<char>, bool)>,
    raw2: Seq<(Seq<char>, bool)>,
    l1: ListingView,
    l2: ListingView,
)
    requires
        raw1.to_multiset() == raw2.to_multiset(),
        is_listing_of(l1, dir, bucket(dir, raw1, true), bucket(dir, raw1, false)),
        is_listing_of(l2, dir, bucket(dir, raw2, true), bucket(dir, raw2, false)),
    ensures
        l1 == l2,
{
    lemma_bucket_permutation(dir, raw1, raw2, true);
    lemma_bucket_permutation(dir, raw1, raw2, false);
    lemma_listing_deterministic(
        dir,
        bucket(dir, raw1, true),
        bucket(dir, raw1, false),
        bucket(dir, raw2, true),
        bucket(dir, raw2, false),
        l1,
        l2,
    );
}

} // verus!
