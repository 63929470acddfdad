//! The snapshots that lie in a directory, the latest first.

use crate::pack;
use crate::path;
use crate::text;
use vstd::prelude::*;

verus! {

/// What is told of a local snapshot.
#[derive(Clone, Debug)]
pub struct LocalSnapshotInfo {
    pub tag: String,
    /// The bytes of all its files.
    pub total_bytes: u64,
    /// The bytes of its memory, 0 where that is not there.
    pub memory_bytes: u64,
    pub has_rootfs: bool,
    /// When its directory was last changed, in seconds since 1970-01-01T00:00:00Z. 0 where that is not
    /// known.
    pub created_at_unix: u64,
}

/// What was found of an entry of the directory of snapshots.
#[derive(Clone, Debug)]
pub struct ObservedEntry {
    pub name: String,
    pub is_dir: bool,
    /// The sizes of the files at [`probe_paths`], `None` for those that are not there.
    pub sizes: Vec<Option<u64>>,
    /// When it was last changed, in seconds since 1970-01-01T00:00:00Z, where that is known.
    pub modified: Option<u64>,
}

/// Where to look for the files of a snapshot directory.
pub fn probe_paths(dir: &str) -> (paths: Vec<String>)
    ensures
        paths@.len() == 4,
        forall|i: int| 0 <= i < 4 ==> (#[trigger] paths@[i])@ == path::joined(dir@, pack::snapshot_files()[i]),
{
    let mut paths: Vec<String> = Vec::new();
    let mut i: usize = 0;
    while i < 4
        invariant
            i <= 4,
            paths@.len() == i,
            forall|j: int| 0 <= j < i ==> (#[trigger] paths@[j])@ == path::joined(dir@, pack::snapshot_files()[j]),
        decreases 4 - i,
    {
        paths.push(path::join(dir, pack::snapshot_file(i)));
        i = i + 1;
    }
    paths
}

/// A size, 0 where there is none.
pub open spec fn size_or_0(size: Option<u64>) -> nat {
    match size {
        Some(n) => n as nat,
        None => 0,
    }
}

/// The sizes together.
pub open spec fn total(sizes: Seq<Option<u64>>) -> nat
    decreases sizes.len(),
{
    if sizes.len() == 0 {
        0
    } else {
        total(sizes.drop_last()) + size_or_0(sizes.last())
    }
}

/// Whether `info` is what is told of an entry.
pub open spec fn describes(info: LocalSnapshotInfo, entry: ObservedEntry) -> bool {
    &&& info.tag@ == entry.name@
    &&& info.total_bytes == total(entry.sizes@)
    &&& info.memory_bytes == size_or_0(entry.sizes@[3])
    &&& info.has_rootfs == (entry.sizes@[2] is Some)
    &&& info.created_at_unix == size_or_0(entry.modified)
}

/// Whether `a` comes before `b` in the order of code points.
pub open spec fn text_less(a: Seq<char>, b: Seq<char>) -> bool
    decreases a.len(),
{
    if b.len() == 0 {
        false
    } else if a.len() == 0 {
        true
    } else if a[0] != b[0] {
        a[0] < b[0]
    } else {
        text_less(a.skip(1), b.skip(1))
    }
}

/// Whether `a` is to be listed before `b`: the later first, and by tag where they are equally late.
pub open spec fn listed_before(a: LocalSnapshotInfo, b: LocalSnapshotInfo) -> bool {
    a.created_at_unix > b.created_at_unix || (a.created_at_unix == b.created_at_unix && text_less(a.tag@, b.tag@))
}

/// Whether `order` holds each position of a directory once.
pub open spec fn is_arrangement(order: Seq<int>, entries: Seq<ObservedEntry>) -> bool {
    &&& order.no_duplicates()
    &&& forall|k: int| #[trigger] order.contains(k) <==> 0 <= k < entries.len() && entries[k].is_dir
}

/// Whether `list` tells of the directories among the entries, in that order.
pub open spec fn follows(list: Seq<LocalSnapshotInfo>, entries: Seq<ObservedEntry>, order: Seq<int>) -> bool {
    &&& list.len() == order.len()
    &&& forall|i: int| 0 <= i < list.len() ==> describes(#[trigger] list[i], entries[order[i]])
}

/// Whether `list` is in the order of listing, with what is equal in the order it came in.
pub open spec fn is_in_order(list: Seq<LocalSnapshotInfo>, order: Seq<int>) -> bool {
    forall|i: int, j: int|
        0 <= i < j < list.len() ==> listed_before(#[trigger] list[i], #[trigger] list[j]) || (!listed_before(
            list[j],
            list[i],
        ) && order[i] < order[j])
}

proof fn lemma_text_less_cotransitive(a: Seq<char>, b: Seq<char>, c: Seq<char>)
    requires
        text_less(a, c),
    ensures
        text_less(a, b) || text_less(b, c),
    decreases a.len(),
{
    if a.len() > 0 && b.len() > 0 && a[0] == b[0] && b[0] == c[0] {
        lemma_text_less_cotransitive(a.skip(1), b.skip(1), c.skip(1));
    }
}

proof fn lemma_text_less_asymmetric(a: Seq<char>, b: Seq<char>)
    requires
        text_less(a, b),
    ensures
        !text_less(b, a),
    decreases a.len(),
{
    if a.len() > 0 && b.len() > 0 && a[0] == b[0] {
        lemma_text_less_asymmetric(a.skip(1), b.skip(1));
    }
}

proof fn lemma_listed_before_cotransitive(a: LocalSnapshotInfo, b: LocalSnapshotInfo, c: LocalSnapshotInfo)
    requires
        listed_before(a, c),
    ensures
        listed_before(a, b) || listed_before(b, c),
{
    if a.created_at_unix == b.created_at_unix && b.created_at_unix == c.created_at_unix {
        lemma_text_less_cotransitive(a.tag@, b.tag@, c.tag@);
    }
}

/// Whether `a` comes before `b` in the order of code points.
fn is_text_less(a: &str, b: &str) -> (less: bool)
    ensures
        less == text_less(a@, b@),
{
    let x = text::chars_of(a);
    let y = text::chars_of(b);
    let mut i: usize = 0;
    assert(a@.skip(0) =~= a@);
    assert(b@.skip(0) =~= b@);
    while i < x.len() && i < y.len()
        invariant
            x@ == a@,
            y@ == b@,
            i <= x@.len(),
            i <= y@.len(),
            text_less(a@, b@) == text_less(a@.skip(i as int), b@.skip(i as int)),
        decreases x@.len() - i,
    {
        if x[i] != y[i] {
            return x[i] < y[i];
        }
        assert(a@.skip(i as int).skip(1) =~= a@.skip(i + 1));
        assert(b@.skip(i as int).skip(1) =~= b@.skip(i + 1));
        i = i + 1;
    }
    i < y.len()
}

/// Whether `a` is to be listed before `b`.
fn goes_before(a: &LocalSnapshotInfo, b: &LocalSnapshotInfo) -> (before: bool)
    ensures
        before == listed_before(*a, *b),
{
    a.created_at_unix > b.created_at_unix || (a.created_at_unix == b.created_at_unix && is_text_less(
        a.tag.as_str(),
        b.tag.as_str(),
    ))
}

proof fn lemma_total_grows(sizes: Seq<Option<u64>>, i: int)
    requires
        0 <= i <= sizes.len(),
    ensures
        total(sizes.take(i)) <= total(sizes),
    decreases sizes.len() - i,
{
    if i < sizes.len() {
        lemma_total_grows(sizes, i + 1);
        assert(sizes.take(i + 1).drop_last() =~= sizes.take(i));
    } else {
        assert(sizes.take(i) =~= sizes);
    }
}

/// What is told of an entry.
fn describe(entry: &ObservedEntry) -> (info: LocalSnapshotInfo)
    requires
        entry.sizes@.len() == 4,
        total(entry.sizes@) <= u64::MAX,
    ensures
        describes(info, *entry),
{
    let mut sum: u64 = 0;
    let mut i: usize = 0;
    let ghost sizes = entry.sizes@;
    while i < entry.sizes.len()
        invariant
            i <= sizes.len(),
            sizes == entry.sizes@,
            total(sizes) <= u64::MAX,
            sum == total(sizes.take(i as int)),
        decreases sizes.len() - i,
    {
        proof {
            lemma_total_grows(sizes, i + 1);
            assert(sizes.take(i + 1).drop_last() =~= sizes.take(i as int));
        }
        match entry.sizes[i] {
            Some(n) => {
                sum = sum + n;
            },
            None => {},
        }
        i = i + 1;
    }
    assert(sizes.take(i as int) =~= sizes);
    let memory: u64 = match entry.sizes[3] {
        Some(n) => n,
        None => 0,
    };
    let modified: u64 = match entry.modified {
        Some(t) => t,
        None => 0,
    };
    LocalSnapshotInfo {
        tag: entry.name.clone(),
        total_bytes: sum,
        memory_bytes: memory,
        has_rootfs: entry.sizes[2].is_some(),
        created_at_unix: modified,
    }
}

/// Lists the directories among the entries: the latest first, by tag where they are equally late.
pub fn list_local(entries: &Vec<ObservedEntry>) -> (list: Vec<LocalSnapshotInfo>)
    requires
        forall|i: int|
            0 <= i < entries@.len() && (#[trigger] entries@[i]).is_dir ==> entries@[i].sizes@.len() == 4 && total(
                entries@[i].sizes@,
            ) <= u64::MAX,
    ensures
        exists|order: Seq<int>| #[trigger]
            is_arrangement(order, entries@) && follows(list@, entries@, order) && is_in_order(list@, order),
{
    let mut list: Vec<LocalSnapshotInfo> = Vec::new();
    let ghost mut order: Seq<int> = Seq::empty();
    let mut i: usize = 0;
    assert(entries@.take(0) =~= Seq::<ObservedEntry>::empty());
    while i < entries.len()
        invariant
            forall|k: int|
                0 <= k < entries@.len() && (#[trigger] entries@[k]).is_dir ==> entries@[k].sizes@.len() == 4 && total(
                    entries@[k].sizes@,
                ) <= u64::MAX,
            i <= entries@.len(),
            is_arrangement(order, entries@.take(i as int)),
            follows(list@, entries@, order),
            is_in_order(list@, order),
        decreases entries@.len() - i,
    {
        let entry = &entries[i];
        let ghost done = entries@.take(i as int);
        let ghost next = entries@.take(i + 1);
        if entry.is_dir {
            let info = describe(entry);
            let mut at: usize = list.len();
            while at > 0 && goes_before(&info, &list[at - 1])
                invariant
                    at <= list@.len(),
                    forall|j: int| at <= j < list@.len() ==> listed_before(info, #[trigger] list@[j]),
                decreases at,
            {
                at = at - 1;
            }
            let ghost old_list = list@;
            let ghost old_order = order;
            list.insert(at, info);
            proof {
                order = order.insert(at as int, i as int);
                lemma_insert(entries@, i as int, old_list, old_order, at as int, info);
            }
        } else {
            proof {
                assert forall|k: int| #[trigger] order.contains(k) <==> 0 <= k < next.len() && next[k].is_dir by {
                    if 0 <= k < i {
                        assert(next[k] == done[k]);
                    }
                }
            }
        }
        i = i + 1;
    }
    assert(entries@.take(i as int) =~= entries@);
    list
}

proof fn lemma_insert(
    entries: Seq<ObservedEntry>,
    i: int,
    list: Seq<LocalSnapshotInfo>,
    order: Seq<int>,
    at: int,
    info: LocalSnapshotInfo,
)
    requires
        0 <= i < entries.len(),
        entries[i].is_dir,
        describes(info, entries[i]),
        is_arrangement(order, entries.take(i)),
        follows(list, entries, order),
        is_in_order(list, order),
        0 <= at <= list.len(),
        at > 0 ==> !listed_before(info, list[at - 1]),
        forall|j: int| at <= j < list.len() ==> listed_before(info, #[trigger] list[j]),
    ensures
        is_arrangement(order.insert(at, i), entries.take(i + 1)),
        follows(list.insert(at, info), entries, order.insert(at, i)),
        is_in_order(list.insert(at, info), order.insert(at, i)),
{
    let new_list = list.insert(at, info);
    let new_order = order.insert(at, i);
    let done = entries.take(i);
    let next = entries.take(i + 1);
    assert forall|k: int| 0 <= k < order.len() implies 0 <= #[trigger] order[k] < i by {
        assert(order.contains(order[k]));
    }
    assert forall|k: int| #[trigger] new_order.contains(k) <==> 0 <= k < next.len() && next[k].is_dir by {
        if new_order.contains(k) {
            let j = choose|j: int| 0 <= j < new_order.len() && new_order[j] == k;
            if j < at {
                assert(order[j] == k);
                assert(order.contains(k));
                assert(next[k] == done[k]);
            } else if j > at {
                assert(order[j - 1] == k);
                assert(order.contains(k));
                assert(next[k] == done[k]);
            }
        }
        if 0 <= k < next.len() && next[k].is_dir {
            if k == i {
                assert(new_order[at] == k);
            } else {
                assert(done[k] == next[k]);
                assert(order.contains(k));
                let j = choose|j: int| 0 <= j < order.len() && order[j] == k;
                if j < at {
                    assert(new_order[j] == k);
                } else {
                    assert(new_order[j + 1] == k);
                }
            }
        }
    }
    assert forall|a: int, b: int| 0 <= a < new_order.len() && 0 <= b < new_order.len() && a != b implies new_order[a]
        != new_order[b] by {
        let a2 = if a < at { a } else { a - 1 };
        let b2 = if b < at { b } else { b - 1 };
        if a != at {
            assert(new_order[a] == order[a2]);
        }
        if b != at {
            assert(new_order[b] == order[b2]);
        }
    }
    assert forall|k: int| 0 <= k < new_list.len() implies describes(#[trigger] new_list[k], entries[new_order[k]]) by {
        if k < at {
            assert(new_list[k] == list[k] && new_order[k] == order[k]);
        } else if k > at {
            assert(new_list[k] == list[k - 1] && new_order[k] == order[k - 1]);
        }
    }
    assert forall|a: int| 0 <= a < at implies !listed_before(info, #[trigger] list[a]) by {
        if listed_before(info, list[a]) && a < at - 1 {
            lemma_listed_before_cotransitive(info, list[at - 1], list[a]);
            let x = list[a];
            let y = list[at - 1];
            assert(listed_before(y, x));
            if listed_before(x, y) {
                lemma_listed_before_asymmetric(x, y);
            }
        }
    }
    assert forall|a: int, b: int| 0 <= a < b < new_list.len() implies listed_before(
        #[trigger] new_list[a],
        #[trigger] new_list[b],
    ) || (!listed_before(new_list[b], new_list[a]) && new_order[a] < new_order[b]) by {
        if a < at && b < at {
            assert(new_list[a] == list[a] && new_list[b] == list[b]);
        } else if a < at && b == at {
            assert(new_list[a] == list[a]);
        } else if a < at && b > at {
            assert(new_list[a] == list[a] && new_list[b] == list[b - 1]);
        } else if a == at {
            assert(new_list[b] == list[b - 1]);
        } else {
            assert(new_list[a] == list[a - 1] && new_list[b] == list[b - 1]);
        }
    }
}

proof fn lemma_listed_before_asymmetric(a: LocalSnapshotInfo, b: LocalSnapshotInfo)
    requires
        listed_before(a, b),
    ensures
        !listed_before(b, a),
{
    if a.created_at_unix == b.created_at_unix {
        lemma_text_less_asymmetric(a.tag@, b.tag@);
    }
}

/// In a list in order the later never comes after the earlier, and of two that are equally late the one
/// with the greater tag never comes first.
pub proof fn law_latest_first(list: Seq<LocalSnapshotInfo>, order: Seq<int>, i: int, j: int)
    requires
        is_in_order(list, order),
        0 <= i < j < list.len(),
    ensures
        list[i].created_at_unix >= list[j].created_at_unix,
        list[i].created_at_unix == list[j].created_at_unix ==> !text_less(list[j].tag@, list[i].tag@),
{
    let a = list[i];
    let b = list[j];
    if listed_before(a, b) {
        lemma_listed_before_asymmetric(a, b);
    }
}

/// Where to look for the files of a snapshot directory: its metadata, its state, its root file system and
/// its memory.
pub proof fn law_four_files_are_probed(dir: &str, paths: Vec<String>)
    requires
        call_ensures(probe_paths, (dir,), paths),
    ensures
        paths@.len() == 4,
        paths@[0]@ == path::joined(dir@, "snapshot.json"@),
        paths@[1]@ == path::joined(dir@, "vmstate"@),
        paths@[2]@ == path::joined(dir@, "rootfs.ext4"@),
        paths@[3]@ == path::joined(dir@, "memory.bin"@),
{
}

/// Whether `info` tells of an entry: its name; the bytes of its four files together, with 0 for those that
/// are not there; those of the fourth; whether the third is there; and when it was changed, with 0 where that
/// is not known.
pub open spec fn tells_of(info: LocalSnapshotInfo, entry: ObservedEntry) -> bool {
    let size = |i: int| match entry.sizes@[i] {
        Some(n) => n as int,
        None => 0,
    };
    &&& info.tag@ == entry.name@
    &&& info.total_bytes == size(0) + size(1) + size(2) + size(3)
    &&& info.memory_bytes == size(3)
    &&& info.has_rootfs <==> entry.sizes@[2] is Some
    &&& info.created_at_unix == (match entry.modified {
        Some(t) => t as int,
        None => 0,
    })
}

/// Whether `a` comes before `b` in a dictionary of code points: where they part, it ends or has the lesser
/// character.
pub open spec fn comes_before(a: Seq<char>, b: Seq<char>) -> bool {
    exists|k: int|
        {
            &&& 0 <= k <= a.len()
            &&& k < b.len()
            &&& #[trigger] a.take(k) == b.take(k)
            &&& k == a.len() || a[k] < b[k]
        }
}

proof fn lemma_dictionary(a: Seq<char>, b: Seq<char>)
    requires
        text_less(a, b),
    ensures
        comes_before(a, b),
    decreases a.len(),
{
    if a.len() == 0 || a[0] != b[0] {
        assert(a.take(0) =~= b.take(0));
    } else {
        let x = a.skip(1);
        let y = b.skip(1);
        lemma_dictionary(x, y);
        let k = choose|k: int|
            {
                &&& 0 <= k <= x.len()
                &&& k < y.len()
                &&& #[trigger] x.take(k) == y.take(k)
                &&& k == x.len() || x[k] < y[k]
            };
        assert forall|i: int| 0 <= i < k + 1 implies a[i] == b[i] by {
            if i > 0 {
                assert(x.take(k)[i - 1] == y.take(k)[i - 1]);
            }
        }
        assert(a.take(k + 1) =~= b.take(k + 1));
    }
}

proof fn lemma_dictionary_is_total(a: Seq<char>, b: Seq<char>)
    ensures
        text_less(a, b) || text_less(b, a) || a == b,
    decreases a.len(),
{
    if a.len() > 0 && b.len() > 0 && a[0] == b[0] {
        lemma_dictionary_is_total(a.skip(1), b.skip(1));
        if a.skip(1) == b.skip(1) {
            assert(a =~= seq![a[0]] + a.skip(1));
            assert(b =~= seq![b[0]] + b.skip(1));
        }
    } else if a.len() == 0 && b.len() == 0 {
        assert(a =~= b);
    }
}

/// Whether `order` gives, for each item of the list, the directory among the entries that it tells of, each
/// directory once.
pub open spec fn tells_of_each(list: Seq<LocalSnapshotInfo>, entries: Seq<ObservedEntry>, order: Seq<int>) -> bool {
    &&& order.len() == list.len()
    &&& forall|i: int|
        0 <= i < list.len() ==> {
            &&& 0 <= #[trigger] order[i] < entries.len()
            &&& entries[order[i]].is_dir
            &&& tells_of(list[i], entries[order[i]])
        }
    &&& forall|i: int, j: int| 0 <= i < j < order.len() ==> #[trigger] order[i] != #[trigger] order[j]
    &&& forall|k: int|
        0 <= k < entries.len() && (#[trigger] entries[k]).is_dir ==> exists|i: int|
            0 <= i < order.len() && #[trigger] order[i] == k
}

/// The list tells of each directory among the entries once, and of nothing else. The later come first; of
/// those that are equally late, the one whose tag is first in the dictionary; and of those with one tag, the
/// one that was found first.
pub proof fn law_each_directory_is_listed(entries: &Vec<ObservedEntry>, list: Vec<LocalSnapshotInfo>)
    requires
        call_ensures(list_local, (entries,), list),
        forall|i: int| 0 <= i < entries@.len() && (#[trigger] entries@[i]).is_dir ==> entries@[i].sizes@.len() == 4,
    ensures
        exists|order: Seq<int>|
            {
                &&& #[trigger] tells_of_each(list@, entries@, order)
                &&& forall|i: int, j: int|
                    0 <= i < j < list@.len() ==> {
                        let a = #[trigger] list@[i];
                        let b = #[trigger] list@[j];
                        ||| a.created_at_unix > b.created_at_unix
                        ||| a.created_at_unix == b.created_at_unix && comes_before(a.tag@, b.tag@)
                        ||| a.created_at_unix == b.created_at_unix && a.tag@ == b.tag@ && order[i] < order[j]
                    }
            },
{
    let order = choose|order: Seq<int>| #[trigger]
        is_arrangement(order, entries@) && follows(list@, entries@, order) && is_in_order(list@, order);
    assert(tells_of_each(list@, entries@, order)) by {
        assert forall|i: int| 0 <= i < list@.len() implies {
            &&& 0 <= #[trigger] order[i] < entries@.len()
            &&& entries@[order[i]].is_dir
            &&& tells_of(list@[i], entries@[order[i]])
        } by {
            assert(order.contains(order[i]));
            let entry = entries@[order[i]];
            assert(describes(list@[i], entry));
            lemma_four_sizes(entry.sizes@);
        }
        assert forall|k: int| 0 <= k < entries@.len() && (#[trigger] entries@[k]).is_dir implies exists|i: int|
            0 <= i < order.len() && #[trigger] order[i] == k by {
            assert(order.contains(k));
        }
    }
    assert forall|i: int, j: int| 0 <= i < j < list@.len() implies {
        let a = #[trigger] list@[i];
        let b = #[trigger] list@[j];
        ||| a.created_at_unix > b.created_at_unix
        ||| a.created_at_unix == b.created_at_unix && comes_before(a.tag@, b.tag@)
        ||| a.created_at_unix == b.created_at_unix && a.tag@ == b.tag@ && order[i] < order[j]
    } by {
        let a = list@[i];
        let b = list@[j];
        if listed_before(a, b) {
            if a.created_at_unix == b.created_at_unix {
                lemma_dictionary(a.tag@, b.tag@);
            }
        } else {
            lemma_dictionary_is_total(a.tag@, b.tag@);
        }
    }
}

proof fn lemma_four_sizes(sizes: Seq<Option<u64>>)
    requires
        sizes.len() == 4,
    ensures
        total(sizes) == size_or_0(sizes[0]) + size_or_0(sizes[1]) + size_or_0(sizes[2]) + size_or_0(sizes[3]),
{
    reveal_with_fuel(total, 5);
    let three = sizes.drop_last();
    let two = three.drop_last();
    let one = two.drop_last();
    assert(three.last() == sizes[2] && two.last() == sizes[1] && one.last() == sizes[0]);
    assert(one.drop_last() =~= Seq::<Option<u64>>::empty());
}

} // verus!
