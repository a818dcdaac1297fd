//! The files below a root against what is said of them: the counters of a node, and the
//! lists of blobs.

use vstd::prelude::*;

use crate::blob::{
    arranges, blob_bytes, blob_count, blob_key, counted_on, counts, disk_after, entries_sorted,
    entry_key, is_blob, is_hex, is_hex64, is_part, lemma_blob_keys, listed_blobs, sorted_by_name,
    store_atomic, temp_name, Disk, Entry, Listed, Node, StoreEvent, StorePlan,
};
use crate::json::{text_field, u64_field};
use crate::order::{
    key_lt, lemma_key_lt_total, lemma_keys_sorted_unique, lemma_same_members,
    lemma_text_lt_irreflexive, text_lt,
};
use crate::service::health_of;

verus! {

/// Where a file lies.
pub open spec fn key_of(l: Listed) -> (Seq<char>, Seq<char>) {
    (l.dir@, l.file@)
}

/// No file is listed twice.
pub open spec fn keys_apart(listing: Seq<Listed>) -> bool {
    forall|i: int, j: int|
        0 <= i < j < listing.len() ==> key_of(#[trigger] listing[i]) != key_of(
            #[trigger] listing[j],
        )
}

/// What lies there is listed.
pub open spec fn lists_key(listing: Seq<Listed>, key: (Seq<char>, Seq<char>)) -> bool {
    exists|i: int| 0 <= i < listing.len() && key_of(#[trigger] listing[i]) == key
}

/// The listing shows the files: each of them once and with its size, and nothing else with
/// a size.
pub open spec fn shows(listing: Seq<Listed>, disk: Disk) -> bool {
    &&& keys_apart(listing)
    &&& forall|i: int|
        0 <= i < listing.len() ==> match (#[trigger] listing[i]).size {
            Some(n) => disk.contains_key(key_of(listing[i])) && disk[key_of(listing[i])].len()
                == n,
            None => !disk.contains_key(key_of(listing[i])),
        }
    &&& forall|key: (Seq<char>, Seq<char>)| #[trigger]
        disk.contains_key(key) ==> lists_key(listing, key)
}

/// Two entries for the same file.
pub open spec fn twins(a: Listed, b: Listed) -> bool {
    key_of(a) == key_of(b) && a.size == b.size
}

pub open spec fn has_twin(a: Listed, listing: Seq<Listed>) -> bool {
    exists|j: int| 0 <= j < listing.len() && twins(a, #[trigger] listing[j])
}

/// Each file that counts in the one listing is in the other.
pub open spec fn covers(a: Seq<Listed>, b: Seq<Listed>) -> bool {
    forall|i: int| 0 <= i < a.len() && counts(#[trigger] a[i]) ==> has_twin(a[i], b)
}

proof fn lemma_totals_without(b: Seq<Listed>, k: int)
    requires
        0 <= k < b.len(),
    ensures
        blob_count(b) == blob_count(b.remove(k)) + if counts(b[k]) {
            1nat
        } else {
            0
        },
        blob_bytes(b) == blob_bytes(b.remove(k)) + if counts(b[k]) {
            b[k].size->0 as nat
        } else {
            0
        },
    decreases b.len(),
{
    if k == b.len() - 1 {
        assert(b.remove(k) =~= b.drop_last());
    } else {
        lemma_totals_without(b.drop_last(), k);
        assert(b.remove(k).drop_last() =~= b.drop_last().remove(k));
        assert(b.remove(k).last() == b.last());
        assert(b.drop_last()[k] == b[k]);
    }
}

proof fn lemma_nothing_counts(b: Seq<Listed>)
    requires
        forall|i: int| 0 <= i < b.len() ==> !counts(#[trigger] b[i]),
    ensures
        blob_count(b) == 0,
        blob_bytes(b) == 0,
    decreases b.len(),
{
    if b.len() > 0 {
        assert(!counts(b[b.len() - 1]));
        assert forall|i: int| 0 <= i < b.len() - 1 implies !counts(
            #[trigger] b.drop_last()[i],
        ) by {
            assert(b.drop_last()[i] == b[i]);
        }
        lemma_nothing_counts(b.drop_last());
    }
}

proof fn lemma_apart_without(b: Seq<Listed>, k: int)
    requires
        keys_apart(b),
        0 <= k < b.len(),
    ensures
        keys_apart(b.remove(k)),
        forall|i: int|
            0 <= i < b.len() - 1 ==> key_of(#[trigger] b.remove(k)[i]) != key_of(b[k]),
        forall|i: int|
            0 <= i < b.len() && i != k ==> has_twin(#[trigger] b[i], b.remove(k)),
{
    let r = b.remove(k);
    assert forall|i: int| 0 <= i < r.len() implies key_of(#[trigger] r[i]) != key_of(b[k]) by {
        if i < k {
            assert(r[i] == b[i]);
        } else {
            assert(r[i] == b[i + 1]);
        }
    }
    assert forall|i: int, j: int| 0 <= i < j < r.len() implies key_of(#[trigger] r[i]) != key_of(
        #[trigger] r[j],
    ) by {
        let i1 = if i < k {
            i
        } else {
            i + 1
        };
        let j1 = if j < k {
            j
        } else {
            j + 1
        };
        assert(r[i] == b[i1] && r[j] == b[j1]);
    }
    assert forall|i: int| 0 <= i < b.len() && i != k implies has_twin(#[trigger] b[i], r) by {
        let i1 = if i < k {
            i
        } else {
            i - 1
        };
        assert(twins(b[i], r[i1]));
    }
}

/// Listings in which the same files count have the same totals.
proof fn lemma_same_totals(a: Seq<Listed>, b: Seq<Listed>)
    requires
        keys_apart(a),
        keys_apart(b),
        covers(a, b),
        covers(b, a),
    ensures
        blob_count(a) == blob_count(b),
        blob_bytes(a) == blob_bytes(b),
    decreases a.len(),
{
    if a.len() == 0 {
        assert forall|i: int| 0 <= i < b.len() implies !counts(#[trigger] b[i]) by {
            if counts(b[i]) {
                assert(has_twin(b[i], a));
            }
        }
        lemma_nothing_counts(b);
    } else {
        let last = a.len() - 1;
        let x = a[last];
        let a1 = a.drop_last();
        assert(a1 =~= a.remove(last));
        lemma_apart_without(a, last);
        if !counts(x) {
            assert forall|i: int| 0 <= i < a1.len() && counts(#[trigger] a1[i]) implies has_twin(
                a1[i],
                b,
            ) by {
                assert(a1[i] == a[i]);
            }
            assert forall|i: int| 0 <= i < b.len() && counts(#[trigger] b[i]) implies has_twin(
                b[i],
                a1,
            ) by {
                assert(has_twin(b[i], a));
                let j = choose|j: int| 0 <= j < a.len() && twins(b[i], #[trigger] a[j]);
                assert(j != last);
                assert(twins(b[i], a1[j]));
            }
            lemma_same_totals(a1, b);
        } else {
            assert(has_twin(x, b));
            let k = choose|k: int| 0 <= k < b.len() && twins(x, #[trigger] b[k]);
            let b1 = b.remove(k);
            lemma_apart_without(b, k);
            lemma_totals_without(b, k);
            assert forall|i: int| 0 <= i < a1.len() && counts(#[trigger] a1[i]) implies has_twin(
                a1[i],
                b1,
            ) by {
                assert(a1[i] == a[i]);
                assert(has_twin(a[i], b));
                let j = choose|j: int| 0 <= j < b.len() && twins(a[i], #[trigger] b[j]);
                assert(key_of(a[i]) != key_of(x));
                assert(j != k);
                assert(has_twin(b[j], b1));
                let j1 = choose|j1: int| 0 <= j1 < b1.len() && twins(b[j], #[trigger] b1[j1]);
                assert(twins(a1[i], b1[j1]));
            }
            assert forall|i: int| 0 <= i < b1.len() && counts(#[trigger] b1[i]) implies has_twin(
                b1[i],
                a1,
            ) by {
                let i1 = if i < k {
                    i
                } else {
                    i + 1
                };
                assert(b1[i] == b[i1]);
                assert(has_twin(b[i1], a));
                let j = choose|j: int| 0 <= j < a.len() && twins(b[i1], #[trigger] a[j]);
                assert(key_of(b1[i]) != key_of(b[k]));
                assert(j != last);
                assert(twins(b1[i], a1[j]));
            }
            lemma_same_totals(a1, b1);
        }
    }
}

/// What lies in a file that both sets of files hold alike is listed alike.
proof fn lemma_shown_twin(a: Seq<Listed>, b: Seq<Listed>, disk: Disk, next: Disk, i: int)
    requires
        shows(a, disk),
        shows(b, next),
        0 <= i < a.len(),
        a[i].size is Some,
        next.contains_key(key_of(a[i])),
        next[key_of(a[i])] == disk[key_of(a[i])],
    ensures
        has_twin(a[i], b),
{
    let key = key_of(a[i]);
    assert(lists_key(b, key));
    let j = choose|j: int| 0 <= j < b.len() && key_of(#[trigger] b[j]) == key;
    assert(b[j].size is Some);
    assert(twins(a[i], b[j]));
}

/// The counters tell how many blobs are listed, and their bytes, as far as 64 bits go.
pub open spec fn counters_true(node: Node, listing: Seq<Listed>) -> bool {
    &&& node.blobs == blob_count(listing) % 0x1_0000_0000_0000_0000
    &&& node.bytes == blob_bytes(listing) % 0x1_0000_0000_0000_0000
}

/// The two sets of files agree but for the temporary file of a blob and, where it is
/// `fresh`, the blob itself, which only the later one has.
pub open spec fn differ_by_blob(
    disk: Disk,
    next: Disk,
    name: Seq<char>,
    data: Seq<u8>,
    fresh: bool,
) -> bool {
    let blob = blob_key(name);
    let temp = (blob.0, temp_name(blob.1));
    &&& forall|k: (Seq<char>, Seq<char>)|
        #![trigger disk.contains_key(k)]
        #![trigger next.contains_key(k)]
        k != blob && k != temp ==> disk.contains_key(k) == next.contains_key(k) && disk[k]
            == next[k]
    &&& fresh ==> !disk.contains_key(blob) && next.contains_key(blob) && next[blob] == data
    &&& !fresh ==> disk.contains_key(blob) == next.contains_key(blob) && disk[blob] == next[blob]
}

proof fn lemma_totals_gain(
    disk: Disk,
    next: Disk,
    name: Seq<char>,
    data: Seq<u8>,
    fresh: bool,
    now: Seq<Listed>,
    later: Seq<Listed>,
)
    requires
        is_hex64(name),
        differ_by_blob(disk, next, name, data, fresh),
        shows(now, disk),
        shows(later, next),
    ensures
        blob_count(later) == blob_count(now) + if fresh {
            1nat
        } else {
            0
        },
        blob_bytes(later) == blob_bytes(now) + if fresh {
            data.len()
        } else {
            0
        },
{
    let blob = blob_key(name);
    let temp = (blob.0, temp_name(blob.1));
    lemma_temp_does_not_count(name);
    if fresh {
        assert(lists_key(later, blob));
        let k = choose|k: int| 0 <= k < later.len() && key_of(#[trigger] later[k]) == blob;
        let rest = later.remove(k);
        lemma_apart_without(later, k);
        lemma_totals_without(later, k);
        assert(later[k].size is Some);
        lemma_blob_counts(name, later[k]);
        assert forall|i: int| 0 <= i < now.len() && counts(#[trigger] now[i]) implies has_twin(
            now[i],
            rest,
        ) by {
            let key = key_of(now[i]);
            assert(disk.contains_key(key));
            assert(key != blob);
            assert(key != temp);
            lemma_shown_twin(now, later, disk, next, i);
            let j = choose|j: int| 0 <= j < later.len() && twins(now[i], #[trigger] later[j]);
            assert(j != k);
            assert(has_twin(later[j], rest));
            let j1 = choose|j1: int| 0 <= j1 < rest.len() && twins(later[j], #[trigger] rest[j1]);
            assert(twins(now[i], rest[j1]));
        }
        assert forall|i: int| 0 <= i < rest.len() && counts(#[trigger] rest[i]) implies has_twin(
            rest[i],
            now,
        ) by {
            let i1 = if i < k {
                i
            } else {
                i + 1
            };
            assert(rest[i] == later[i1]);
            let key = key_of(later[i1]);
            assert(key != blob);
            assert(key != temp);
            assert(next.contains_key(key));
            lemma_shown_twin(later, now, next, disk, i1);
        }
        lemma_same_totals(now, rest);
    } else {
        assert forall|i: int| 0 <= i < now.len() && counts(#[trigger] now[i]) implies has_twin(
            now[i],
            later,
        ) by {
            assert(key_of(now[i]) != temp);
            assert(disk.contains_key(key_of(now[i])));
            lemma_shown_twin(now, later, disk, next, i);
        }
        assert forall|i: int| 0 <= i < later.len() && counts(#[trigger] later[i]) implies has_twin(
            later[i],
            now,
        ) by {
            assert(key_of(later[i]) != temp);
            assert(next.contains_key(key_of(later[i])));
            lemma_shown_twin(later, now, next, disk, i);
        }
        lemma_same_totals(now, later);
    }
}

/// The temporary file beside a blob does not count.
proof fn lemma_temp_does_not_count(name: Seq<char>)
    requires
        is_hex64(name),
    ensures
        is_part(temp_name(name.skip(2))),
        temp_name(name.skip(2)) != ".part"@,
{
    reveal_strlit(".part");
    let t = temp_name(name.skip(2));
    assert(t.subrange(t.len() - 5, t.len() as int) =~= ".part"@);
    assert(t.len() == 67);
}

/// A blob in its file counts.
proof fn lemma_blob_counts(name: Seq<char>, l: Listed)
    requires
        is_hex64(name),
        key_of(l) == blob_key(name),
        l.size is Some,
    ensures
        counts(l),
        is_blob(l),
{
    reveal_strlit(".part");
    let file = l.file@;
    assert(file.last() == name[63]);
    assert(is_hex(name[63]));
    if is_part(file) {
        assert(file.subrange(file.len() - 5, file.len() as int).last() == 't');
    }
}

/// The counters that a node shows stay true: where they tell what is listed below the
/// root, so they do after each step of a write, whatever came of it.
pub proof fn law_counters_stay_true(
    name: Seq<char>,
    before: Disk,
    disk: Disk,
    plan: StorePlan,
    data: Seq<u8>,
    event: StoreEvent,
    torn: Seq<u8>,
    now: Seq<Listed>,
    later: Seq<Listed>,
    node: Node,
    next: Node,
)
    requires
        plan.stores(name),
        store_atomic(before, disk, plan, data),
        shows(now, disk),
        shows(later, disk_after(disk, plan, data, event, torn)),
        counters_true(node, now),
        counted_on(node, next, plan, event, data.len()),
    ensures
        counters_true(next, later),
{
    let after = disk_after(disk, plan, data, event, torn);
    let fresh = plan.step is Rename && event is Done;
    lemma_blob_keys(name, name, (plan.path.dir@, plan.temp@));
    assert(differ_by_blob(disk, after, name, data, fresh));
    lemma_totals_gain(disk, after, name, data, fresh, now, later);
}

/// A node through its writes, one after the other: the files below the root, what is
/// listed of them and the counters, before the first write and after each; and the writes,
/// each as far as it came, with their data.
pub struct History {
    pub disks: Seq<Disk>,
    pub listings: Seq<Seq<Listed>>,
    pub nodes: Seq<Node>,
    pub names: Seq<Seq<char>>,
    pub plans: Seq<StorePlan>,
    pub datas: Seq<Seq<u8>>,
}

impl History {
    /// Each write did what a write does, to the files and to the counters.
    pub open spec fn holds(self) -> bool {
        let n = self.plans.len();
        &&& self.disks.len() == n + 1
        &&& self.listings.len() == n + 1
        &&& self.nodes.len() == n + 1
        &&& self.names.len() == n
        &&& self.datas.len() == n
        &&& forall|i: int| 0 <= i <= n ==> shows(#[trigger] self.listings[i], self.disks[i])
        &&& forall|i: int| 0 <= i < n ==> #[trigger] self.wrote(i)
    }

    pub open spec fn wrote(self, i: int) -> bool {
        let fresh = self.plans[i].step is Fresh;
        let (node, next) = (self.nodes[i], self.nodes[i + 1]);
        &&& self.plans[i].stores(self.names[i])
        &&& store_atomic(self.disks[i], self.disks[i + 1], self.plans[i], self.datas[i])
        &&& next.blobs == if fresh {
            (node.blobs + 1) % 0x1_0000_0000_0000_0000
        } else {
            node.blobs as int
        }
        &&& next.bytes == if fresh {
            (node.bytes + self.datas[i].len()) % 0x1_0000_0000_0000_0000
        } else {
            node.bytes as int
        }
    }
}

/// Through any number of writes, whatever came of each, the counters of a node tell how
/// many blobs lie below its root, and their bytes, as they did before the first.
pub proof fn law_counters_stay_true_throughout(h: History, n: int)
    requires
        h.holds(),
        counters_true(h.nodes[0], h.listings[0]),
        0 <= n <= h.plans.len(),
    ensures
        counters_true(h.nodes[n], h.listings[n]),
    decreases n,
{
    if n > 0 {
        let i = n - 1;
        law_counters_stay_true_throughout(h, i);
        assert(h.wrote(i));
        let (name, plan) = (h.names[i], h.plans[i]);
        let fresh = plan.step is Fresh;
        lemma_blob_keys(name, name, (plan.path.dir@, plan.temp@));
        assert(shows(h.listings[i], h.disks[i]));
        assert(shows(h.listings[i + 1], h.disks[i + 1]));
        assert(differ_by_blob(h.disks[i], h.disks[i + 1], name, h.datas[i], fresh));
        lemma_totals_gain(
            h.disks[i],
            h.disks[i + 1],
            name,
            h.datas[i],
            fresh,
            h.listings[i],
            h.listings[i + 1],
        );
    }
}

/// What a node says of its state is true where its counters are: the blobs below its
/// root, their bytes, and the root.
pub proof fn law_health_tells_the_truth(node: Node, listing: Seq<Listed>, version: Seq<char>)
    requires
        counters_true(node, listing),
        blob_count(listing) <= u64::MAX,
        blob_bytes(listing) <= u64::MAX,
    ensures
        u64_field(health_of(node, version), "blobs"@) == Some(blob_count(listing) as u64),
        u64_field(health_of(node, version), "bytes"@) == Some(blob_bytes(listing) as u64),
        text_field(health_of(node, version), "root"@) == Some(node.root@),
        text_field(health_of(node, version), "version"@) == Some(version),
{
    reveal_strlit("service");
    reveal_strlit("version");
    reveal_strlit("blobs");
    reveal_strlit("bytes");
    reveal_strlit("root");
    assert("service"@[0] == 's' && "version"@[0] == 'v' && "root"@[0] == 'r');
    assert("blobs"@[1] == 'l' && "bytes"@[1] == 'y' && "blobs"@[0] == 'b' && "bytes"@[0] == 'b');
}

/// The bytes of the blobs in a list.
pub open spec fn sizes_sum(entries: Seq<Entry>) -> nat
    decreases entries.len(),
{
    if entries.len() == 0 {
        0
    } else {
        sizes_sum(entries.drop_last()) + entries.last().1 as nat
    }
}

proof fn lemma_sum_without(s: Seq<Entry>, k: int)
    requires
        0 <= k < s.len(),
    ensures
        sizes_sum(s) == sizes_sum(s.remove(k)) + s[k].1,
    decreases s.len(),
{
    if k == s.len() - 1 {
        assert(s.remove(k) =~= s.drop_last());
    } else {
        lemma_sum_without(s.drop_last(), k);
        assert(s.remove(k).drop_last() =~= s.drop_last().remove(k));
        assert(s.remove(k).last() == s.last());
        assert(s.drop_last()[k] == s[k]);
    }
}

proof fn lemma_sum_multiset(s: Seq<Entry>, t: Seq<Entry>)
    requires
        s.to_multiset() == t.to_multiset(),
    ensures
        s.len() == t.len(),
        sizes_sum(s) == sizes_sum(t),
    decreases s.len(),
{
    broadcast use vstd::seq_lib::group_to_multiset_ensures;

    vstd::seq_lib::to_multiset_len(s);
    vstd::seq_lib::to_multiset_len(t);
    if s.len() > 0 {
        let x = s.last();
        assert(s.contains(x));
        assert(t.to_multiset().count(x) > 0);
        assert(t.contains(x));
        let k = choose|k: int| 0 <= k < t.len() && t[k] == x;
        assert(s.drop_last() =~= s.remove(s.len() - 1));
        lemma_sum_without(t, k);
        lemma_sum_multiset(s.drop_last(), t.remove(k));
    } else {
        assert(s =~= t);
    }
}

proof fn lemma_listed_totals(listing: Seq<Listed>)
    requires
        forall|i: int| 0 <= i < listing.len() ==> (#[trigger] listing[i]).file@ != ".part"@,
    ensures
        blob_count(listing) == listed_blobs(listing).len(),
        blob_bytes(listing) == sizes_sum(listed_blobs(listing)),
    decreases listing.len(),
{
    if listing.len() > 0 {
        let first = listing.drop_last();
        assert forall|i: int| 0 <= i < first.len() implies (#[trigger] first[i]).file@
            != ".part"@ by {
            assert(first[i] == listing[i]);
        }
        lemma_listed_totals(first);
        let l = listing[listing.len() - 1];
        assert(counts(l) == is_blob(l));
        if is_blob(l) {
            assert(listed_blobs(listing).drop_last() =~= listed_blobs(first));
        }
    }
}

/// What is counted when a node starts agrees with its list: as many blobs, with as many
/// bytes, unless a file has just the name `.part`, which counts and is not listed.
pub proof fn law_count_agrees_with_list(listing: Seq<Listed>, list: Seq<Entry>)
    requires
        forall|i: int| 0 <= i < listing.len() ==> (#[trigger] listing[i]).file@ != ".part"@,
        list.to_multiset() == listed_blobs(listing).to_multiset(),
    ensures
        blob_count(listing) == list.len(),
        blob_bytes(listing) == sizes_sum(list),
{
    lemma_listed_totals(listing);
    lemma_sum_multiset(list, listed_blobs(listing));
}

/// Nothing lies below the root but blobs and what is still being written.
pub open spec fn blobs_only(disk: Disk) -> bool {
    forall|key: (Seq<char>, Seq<char>)| #[trigger]
        disk.contains_key(key) ==> is_part(key.1) || (key.0.len() == 2 && is_hex64(
            key.0 + key.1,
        ))
}

/// The blob of this name lies below the root, and has this size.
pub open spec fn holds_blob(disk: Disk, e: Entry) -> bool {
    &&& is_hex64(e.0)
    &&& disk.contains_key(blob_key(e.0))
    &&& disk[blob_key(e.0)].len() == e.1
}

/// The names in a list ascend, so that none is there twice.
pub open spec fn names_ascend(list: Seq<Entry>) -> bool {
    forall|i: int, j: int|
        0 <= i < j < list.len() ==> text_lt((#[trigger] list[i]).0, (#[trigger] list[j]).0)
}

/// The list is that of what is listed below the root.
pub open spec fn is_list_of(list: Seq<Entry>, listing: Seq<Listed>) -> bool {
    entries_sorted(list) && list.to_multiset() == listed_blobs(listing).to_multiset()
}

proof fn lemma_listed_member(listing: Seq<Listed>, e: Entry)
    ensures
        listed_blobs(listing).contains(e) <==> exists|i: int|
            0 <= i < listing.len() && is_blob(#[trigger] listing[i]) && e == (
                listing[i].dir@ + listing[i].file@,
                listing[i].size->0,
            ),
    decreases listing.len(),
{
    if listing.len() > 0 {
        let first = listing.drop_last();
        let l = listing[listing.len() - 1];
        let all = listed_blobs(listing);
        lemma_listed_member(first, e);
        if all.contains(e) {
            let k = choose|k: int| 0 <= k < all.len() && all[k] == e;
            if is_blob(l) && k == all.len() - 1 {
                assert(listing[listing.len() - 1] == l);
            } else {
                assert(listed_blobs(first)[k] == e);
                assert(listed_blobs(first).contains(e));
                let i = choose|i: int|
                    0 <= i < first.len() && is_blob(#[trigger] first[i]) && e == (
                        first[i].dir@ + first[i].file@,
                        first[i].size->0,
                    );
                assert(listing[i] == first[i]);
            }
        }
        if exists|i: int|
            0 <= i < listing.len() && is_blob(#[trigger] listing[i]) && e == (
                listing[i].dir@ + listing[i].file@,
                listing[i].size->0,
            ) {
            let i = choose|i: int|
                0 <= i < listing.len() && is_blob(#[trigger] listing[i]) && e == (
                    listing[i].dir@ + listing[i].file@,
                    listing[i].size->0,
                );
            if i == listing.len() - 1 {
                assert(all[all.len() - 1] == e);
            } else {
                assert(first[i] == listing[i]);
                assert(listed_blobs(first).contains(e));
                let k = choose|k: int|
                    0 <= k < listed_blobs(first).len() && listed_blobs(first)[k] == e;
                assert(all[k] == e);
            }
        }
    }
}

proof fn lemma_listed_once(listing: Seq<Listed>)
    requires
        keys_apart(listing),
        forall|i: int|
            0 <= i < listing.len() && is_blob(#[trigger] listing[i]) ==> listing[i].dir@.len()
                == 2,
    ensures
        listed_blobs(listing).no_duplicates(),
    decreases listing.len(),
{
    if listing.len() > 0 {
        let first = listing.drop_last();
        let l = listing[listing.len() - 1];
        assert forall|i: int| 0 <= i < first.len() && is_blob(#[trigger] first[i]) implies first[
        i].dir@.len() == 2 by {
            assert(first[i] == listing[i]);
        }
        assert(keys_apart(first)) by {
            assert forall|i: int, j: int| 0 <= i < j < first.len() implies key_of(
                #[trigger] first[i],
            ) != key_of(#[trigger] first[j]) by {
                assert(first[i] == listing[i] && first[j] == listing[j]);
            }
        }
        lemma_listed_once(first);
        if is_blob(l) {
            let e = (l.dir@ + l.file@, l.size->0);
            lemma_listed_member(first, e);
            if listed_blobs(first).contains(e) {
                let i = choose|i: int|
                    0 <= i < first.len() && is_blob(#[trigger] first[i]) && e == (
                        first[i].dir@ + first[i].file@,
                        first[i].size->0,
                    );
                let x = listing[i];
                assert(x == first[i]);
                assert(x.dir@ =~= e.0.take(2) && l.dir@ =~= e.0.take(2));
                assert(x.file@ =~= e.0.skip(2) && l.file@ =~= e.0.skip(2));
                assert(key_of(x) != key_of(l));
            }
        }
    }
}

proof fn lemma_list_members(disk: Disk, listing: Seq<Listed>, list: Seq<Entry>)
    requires
        shows(listing, disk),
        blobs_only(disk),
        list.to_multiset() == listed_blobs(listing).to_multiset(),
    ensures
        list.no_duplicates(),
        forall|e: Entry| #[trigger] list.contains(e) <==> holds_blob(disk, e),
{
    broadcast use vstd::seq_lib::group_to_multiset_ensures;

    let all = listed_blobs(listing);
    assert forall|i: int| 0 <= i < listing.len() && is_blob(#[trigger] listing[i]) implies listing[
    i].dir@.len() == 2 by {
        assert(disk.contains_key(key_of(listing[i])));
    }
    lemma_listed_once(listing);
    all.lemma_multiset_has_no_duplicates();
    list.lemma_multiset_has_no_duplicates_conv();
    assert forall|e: Entry| #[trigger] list.contains(e) <==> holds_blob(disk, e) by {
        lemma_listed_member(listing, e);
        assert(list.contains(e) <==> all.contains(e)) by {
            assert(list.contains(e) <==> list.to_multiset().count(e) > 0);
            assert(all.contains(e) <==> all.to_multiset().count(e) > 0);
        }
        if all.contains(e) {
            let i = choose|i: int|
                0 <= i < listing.len() && is_blob(#[trigger] listing[i]) && e == (
                    listing[i].dir@ + listing[i].file@,
                    listing[i].size->0,
                );
            let l = listing[i];
            assert(disk.contains_key(key_of(l)));
            assert(blob_key(e.0).0 =~= l.dir@);
            assert(blob_key(e.0).1 =~= l.file@);
        }
        if holds_blob(disk, e) {
            let key = blob_key(e.0);
            assert(lists_key(listing, key));
            let i = choose|i: int| 0 <= i < listing.len() && key_of(#[trigger] listing[i]) == key;
            let l = listing[i];
            assert(l.size is Some);
            lemma_blob_counts(e.0, l);
            assert(l.dir@ + l.file@ =~= e.0);
        }
    }
}

/// The list of a store of blobs names exactly the blobs that lie below the root, each
/// once and with its size, in ascending order.
pub proof fn law_list_is_of_the_blobs(disk: Disk, listing: Seq<Listed>, list: Seq<Entry>)
    requires
        shows(listing, disk),
        blobs_only(disk),
        is_list_of(list, listing),
    ensures
        names_ascend(list),
        list.no_duplicates(),
        forall|e: Entry| #[trigger] list.contains(e) <==> holds_blob(disk, e),
{
    lemma_list_members(disk, listing, list);
    assert forall|i: int, j: int| 0 <= i < j < list.len() implies text_lt(
        (#[trigger] list[i]).0,
        (#[trigger] list[j]).0,
    ) by {
        let (x, y) = (list[i], list[j]);
        assert(!key_lt(entry_key(y), entry_key(x)));
        lemma_key_lt_total(entry_key(x), entry_key(y));
        lemma_text_lt_irreflexive(Seq::<char>::empty());
        assert(list.contains(x) && list.contains(y));
        if x.0 == y.0 {
            assert(x == y);
        }
    }
}

/// Two lists in ascending order with the same blobs are the same.
proof fn lemma_lists_equal(a: Seq<Entry>, b: Seq<Entry>)
    requires
        entries_sorted(a),
        entries_sorted(b),
        a.no_duplicates(),
        b.no_duplicates(),
        forall|e: Entry| a.contains(e) <==> b.contains(e),
    ensures
        a == b,
{
    lemma_same_members(a, b);
    lemma_keys_sorted_unique(a, b, |e: Entry| entry_key(e));
}

/// The list gains exactly the blob that has been written, in its place: after the last
/// step it is the one before with that blob put in, and after every other the same.
pub proof fn law_list_gains_the_written_blob(
    name: Seq<char>,
    before: Disk,
    disk: Disk,
    plan: StorePlan,
    data: Seq<u8>,
    event: StoreEvent,
    torn: Seq<u8>,
    now: Seq<Listed>,
    later: Seq<Listed>,
    old_list: Seq<Entry>,
    new_list: Seq<Entry>,
)
    requires
        plan.stores(name),
        store_atomic(before, disk, plan, data),
        blobs_only(disk),
        shows(now, disk),
        shows(later, disk_after(disk, plan, data, event, torn)),
        is_list_of(old_list, now),
        is_list_of(new_list, later),
    ensures
        plan.step is Rename && event is Done ==> exists|k: int|
            0 <= k <= old_list.len() && new_list == #[trigger] old_list.insert(
                k,
                (name, data.len() as u64),
            ),
        !(plan.step is Rename && event is Done) ==> new_list == old_list,
        blobs_only(disk_after(disk, plan, data, event, torn)),
{
    let next = disk_after(disk, plan, data, event, torn);
    let blob = blob_key(name);
    let temp = (plan.path.dir@, plan.temp@);
    assert(blob == (plan.path.dir@, plan.path.file@));
    lemma_temp_does_not_count(name);
    assert(blob.0 + blob.1 =~= name);
    assert(blobs_only(next));
    law_list_is_of_the_blobs(disk, now, old_list);
    law_list_is_of_the_blobs(next, later, new_list);
    assert forall|e: Entry| is_hex64(e.0) implies blob_key(e.0) != temp && (blob_key(e.0) == blob
        ==> e.0 == name) by {
        lemma_blob_keys(e.0, name, temp);
    }
    if plan.step is Rename && event is Done {
        assert(next.contains_key(blob) && next[blob] == data);
        assert(lists_key(later, blob));
        let i = choose|i: int| 0 <= i < later.len() && key_of(#[trigger] later[i]) == blob;
        assert(later[i].size is Some && later[i].size->0 == data.len());
        let e = (name, data.len() as u64);
        assert(holds_blob(next, e));
        assert(new_list.contains(e));
        let k = choose|k: int| 0 <= k < new_list.len() && new_list[k] == e;
        let rest = new_list.remove(k);
        assert forall|x: Entry| rest.contains(x) <==> old_list.contains(x) by {
            assert(rest.contains(x) <==> new_list.contains(x) && x != e) by {
                if rest.contains(x) {
                    let j = choose|j: int| 0 <= j < rest.len() && rest[j] == x;
                    let j1 = if j < k {
                        j
                    } else {
                        j + 1
                    };
                    assert(new_list[j1] == x);
                }
                if new_list.contains(x) && x != e {
                    let j = choose|j: int| 0 <= j < new_list.len() && new_list[j] == x;
                    let j1 = if j < k {
                        j
                    } else {
                        j - 1
                    };
                    assert(rest[j1] == x);
                }
            }
            if is_hex64(x.0) && x.0 != name {
                assert(blob_key(x.0) != blob);
                assert(holds_blob(next, x) == holds_blob(disk, x));
            }
        }
        assert forall|i: int, j: int| 0 <= i < j < rest.len() implies rest[i] != rest[j]
            && !key_lt(entry_key(#[trigger] rest[j]), entry_key(#[trigger] rest[i])) by {
            let i1 = if i < k {
                i
            } else {
                i + 1
            };
            let j1 = if j < k {
                j
            } else {
                j + 1
            };
            assert(rest[i] == new_list[i1] && rest[j] == new_list[j1]);
        }
        assert(rest.no_duplicates());
        lemma_lists_equal(rest, old_list);
        assert(new_list =~= old_list.insert(k, e));
    } else {
        assert forall|x: Entry| new_list.contains(x) <==> old_list.contains(x) by {
            assert(holds_blob(next, x) == holds_blob(disk, x));
        }
        lemma_lists_equal(new_list, old_list);
    }
}

/// The list that a node shows, by name, names exactly the blobs that lie below its root,
/// each once and with its size, in ascending order.
pub proof fn law_shown_list_is_of_the_blobs(disk: Disk, listing: Seq<Listed>, list: Seq<Entry>)
    requires
        shows(listing, disk),
        blobs_only(disk),
        sorted_by_name(listed_blobs(listing), list),
        list.to_multiset() == listed_blobs(listing).to_multiset(),
    ensures
        names_ascend(list),
        list.no_duplicates(),
        forall|e: Entry| #[trigger] list.contains(e) <==> holds_blob(disk, e),
{
    lemma_list_members(disk, listing, list);
    let src = listed_blobs(listing);
    let p = choose|p: Seq<usize>| arranges(src, list, p);
    assert forall|i: int, j: int| 0 <= i < j < list.len() implies text_lt(
        (#[trigger] list[i]).0,
        (#[trigger] list[j]).0,
    ) by {
        assert(list[i] == src[p[i] as int] && list[j] == src[p[j] as int]);
        if list[i].0 == list[j].0 {
            assert(list.contains(list[i]) && list.contains(list[j]));
            assert(list[i] == list[j]);
        }
    }
}

/// A list by name leaves blobs of one name in the order in which they were read, and all
/// others by their names; each blob that was read is in it.
pub proof fn law_list_by_name(src: Seq<Entry>, list: Seq<Entry>)
    requires
        sorted_by_name(src, list),
    ensures
        list.len() == src.len(),
        forall|i: int, j: int|
            0 <= i < j < list.len() ==> !text_lt((#[trigger] list[j]).0, (#[trigger] list[i]).0),
        exists|p: Seq<usize>|
            #![trigger p.len()]
            {
                &&& p.len() == src.len()
                &&& forall|i: int| 0 <= i < p.len() ==> list[i] == src[#[trigger] p[i] as int]
                &&& forall|i: int, j: int|
                    0 <= i < j < p.len() && list[i].0 == list[j].0 ==> #[trigger] p[i]
                        < #[trigger] p[j]
            },
{
    let p = choose|p: Seq<usize>| arranges(src, list, p);
    assert(p.len() == src.len());
    assert forall|i: int, j: int| 0 <= i < j < list.len() implies !text_lt(
        (#[trigger] list[j]).0,
        (#[trigger] list[i]).0,
    ) by {
        assert(list[i] == src[p[i] as int] && list[j] == src[p[j] as int]);
        if text_lt(list[j].0, list[i].0) {
            lemma_text_lt_irreflexive(list[i].0);
            if text_lt(list[i].0, list[j].0) {
                crate::order::lemma_text_lt_transitive(list[i].0, list[j].0, list[i].0);
            }
        }
    }
    assert forall|i: int, j: int|
        0 <= i < j < p.len() && list[i].0 == list[j].0 implies #[trigger] p[i]
        < #[trigger] p[j] by {
        lemma_text_lt_irreflexive(list[i].0);
    }
}

} // verus!
