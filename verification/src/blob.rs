//! Blobs on disk: their names, the two-level fan-out of their paths, how one is
//! written, and the list of those that are there.

use vstd::prelude::*;
use vstd::string::*;
use vstd::utf8::*;

use crate::digest::{is_digest_name, is_lower_hex, sha256_text};
use crate::order::{
    key_lt, keys_sorted, lemma_keys_sorted_unique, lemma_order_keeps, lemma_order_sorts,
    positions, stable_order, text_before, text_lt, Ranked, SortKey,
};
use crate::text::{cat, chars_of, digit_value, ends_with, same, scalar_len};

verus! {

/// A hexadecimal character, in either case.
pub open spec fn is_hex(c: char) -> bool {
    '0' <= c <= '9' || 'a' <= c <= 'f' || 'A' <= c <= 'F'
}

/// 64 hexadecimal characters.
pub open spec fn is_hex64(s: Seq<char>) -> bool {
    &&& s.len() == 64
    &&& forall|i: int| 0 <= i < s.len() ==> is_hex(#[trigger] s[i])
}

/// A name that a digest can have is one that a blob can have.
pub proof fn lemma_digest_is_hex(name: Seq<char>)
    requires
        is_digest_name(name),
    ensures
        is_hex64(name),
{
    assert forall|i: int| 0 <= i < name.len() implies is_hex(#[trigger] name[i]) by {
        assert(is_lower_hex(name[i]));
    }
}

/// Whether a text can name a blob.
pub fn hex_ok(s: &str) -> (r: bool)
    ensures
        r == is_hex64(s@),
{
    let v = chars_of(s);
    if v.len() != 64 {
        return false;
    }
    let mut i: usize = 0;
    while i < v.len()
        invariant
            v@ == s@,
            i <= v@.len(),
            forall|k: int| 0 <= k < i ==> is_hex(#[trigger] v@[k]),
        decreases v@.len() - i,
    {
        let c = v[i];
        if !(('0' <= c && c <= '9') || ('a' <= c && c <= 'f') || ('A' <= c && c <= 'F')) {
            return false;
        }
        i += 1;
    }
    true
}

/// Where a blob lies below the root: a directory and a file in it.
pub struct BlobPath {
    pub dir: String,
    pub file: String,
}

/// How many bytes a character takes.
pub open spec fn width(c: char) -> nat {
    encode_scalar(c as u32).len()
}

/// The name cut after its second byte; none where no character ends there.
pub open spec fn fanout(name: Seq<char>) -> Option<(Seq<char>, Seq<char>)> {
    if name.len() >= 1 && width(name[0]) == 2 {
        Some((name.take(1), name.skip(1)))
    } else if name.len() >= 2 && width(name[0]) == 1 && width(name[1]) == 1 {
        Some((name.take(2), name.skip(2)))
    } else {
        None
    }
}

pub proof fn lemma_fanout_hex(name: Seq<char>)
    requires
        is_hex64(name),
    ensures
        fanout(name) == Some((name.take(2), name.skip(2))),
{
    assert(is_hex(name[0]));
    assert(is_hex(name[1]));
}

/// Where the blob of this name lies; none for a name that cannot be cut after
/// its second byte.
pub fn blob_path(name: &str) -> (r: Option<BlobPath>)
    ensures
        match r {
            Some(p) => fanout(name@) == Some((p.dir@, p.file@)),
            None => fanout(name@) is None,
        },
{
    let v = chars_of(name);
    let n: usize = if v.len() >= 1 && scalar_len(v[0]) == 2 {
        1
    } else if v.len() >= 2 && scalar_len(v[0]) == 1 && scalar_len(v[1]) == 1 {
        2
    } else {
        return None;
    };
    Some(
        BlobPath {
            dir: name.substring_char(0, n).to_owned(),
            file: name.substring_char(n, v.len()).to_owned(),
        },
    )
}

/// What is left to do to write a blob.
pub enum StoreStep {
    /// Look whether the blob is there.
    Probe,
    /// Make its directory.
    MakeDir,
    /// Write the data to the temporary file beside it.
    WriteTemp,
    /// Give the temporary file the name of the blob.
    Rename,
    /// Nothing: the blob was there already.
    Kept,
    /// Nothing: the blob has been written.
    Fresh,
    /// Nothing: a step failed.
    Failed(String),
}

/// What came of a step.
pub enum StoreEvent {
    Exists(bool),
    Done,
    Error(String),
}

/// The writing of one blob.
pub struct StorePlan {
    pub path: BlobPath,
    pub temp: String,
    pub step: StoreStep,
}

/// The name of the temporary file beside a blob.
pub open spec fn temp_name(file: Seq<char>) -> Seq<char> {
    file + ".part"@
}

/// The step after this one.
pub open spec fn store_next(step: StoreStep, event: StoreEvent) -> StoreStep {
    match (step, event) {
        (StoreStep::Probe, StoreEvent::Exists(there)) => if there {
            StoreStep::Kept
        } else {
            StoreStep::MakeDir
        },
        (StoreStep::MakeDir, StoreEvent::Done) => StoreStep::WriteTemp,
        (StoreStep::WriteTemp, StoreEvent::Done) => StoreStep::Rename,
        (StoreStep::Rename, StoreEvent::Done) => StoreStep::Fresh,
        (StoreStep::MakeDir, StoreEvent::Error(e)) => StoreStep::Failed(e),
        (StoreStep::WriteTemp, StoreEvent::Error(e)) => StoreStep::Failed(e),
        (StoreStep::Rename, StoreEvent::Error(e)) => StoreStep::Failed(e),
        (step, _) => step,
    }
}

/// Whether the blob was written or there already, or why it could not be
/// written; none while a step is left.
pub open spec fn store_outcome(step: StoreStep) -> Option<Result<bool, String>> {
    match step {
        StoreStep::Kept => Some(Ok(false)),
        StoreStep::Fresh => Some(Ok(true)),
        StoreStep::Failed(e) => Some(Err(e)),
        _ => None,
    }
}

impl StorePlan {
    /// The plan writes the blob of this name.
    pub open spec fn stores(self, name: Seq<char>) -> bool {
        &&& is_hex64(name)
        &&& self.path.dir@ == name.take(2)
        &&& self.path.file@ == name.skip(2)
        &&& self.temp@ == temp_name(name.skip(2))
    }

    /// The plan for the blob of this name.
    pub fn new(name: &str) -> (r: StorePlan)
        requires
            is_hex64(name@),
        ensures
            r.stores(name@),
            r.step == StoreStep::Probe,
    {
        let n = name.unicode_len();
        let file = name.substring_char(2, n).to_owned();
        let temp = cat(&file, ".part");
        assert(file@ == name@.skip(2));
        assert(name@.subrange(0, 2) == name@.take(2));
        StorePlan {
            path: BlobPath { dir: name.substring_char(0, 2).to_owned(), file },
            temp,
            step: StoreStep::Probe,
        }
    }

    /// Goes on after a step.
    pub fn advance(&mut self, event: StoreEvent)
        ensures
            final(self).step == store_next(old(self).step, event),
            final(self).path == old(self).path,
            final(self).temp == old(self).temp,
    {
        let mut step = StoreStep::Probe;
        core::mem::swap(&mut step, &mut self.step);
        self.step = match (step, event) {
            (StoreStep::Probe, StoreEvent::Exists(there)) => if there {
                StoreStep::Kept
            } else {
                StoreStep::MakeDir
            },
            (StoreStep::MakeDir, StoreEvent::Done) => StoreStep::WriteTemp,
            (StoreStep::WriteTemp, StoreEvent::Done) => StoreStep::Rename,
            (StoreStep::Rename, StoreEvent::Done) => StoreStep::Fresh,
            (StoreStep::MakeDir, StoreEvent::Error(e)) => StoreStep::Failed(e),
            (StoreStep::WriteTemp, StoreEvent::Error(e)) => StoreStep::Failed(e),
            (StoreStep::Rename, StoreEvent::Error(e)) => StoreStep::Failed(e),
            (step, _) => step,
        };
    }

    /// What came of it, once no step is left.
    pub fn outcome(&self) -> (r: Option<Result<bool, String>>)
        ensures
            r == store_outcome(self.step),
    {
        match &self.step {
            StoreStep::Kept => Some(Ok(false)),
            StoreStep::Fresh => Some(Ok(true)),
            StoreStep::Failed(e) => Some(Err(e.clone())),
            _ => None,
        }
    }
}

/// One entry of a directory below the root; the size only of a plain file whose
/// metadata can be read.
pub struct Listed {
    pub dir: String,
    pub file: String,
    pub size: Option<u64>,
}

/// A blob in a list: its name and its size.
pub type Entry = (Seq<char>, u64);

/// Blobs by name.
pub type Blobs = Map<Seq<char>, Seq<u8>>;

/// The name of a file that is still being written.
pub open spec fn is_part(file: Seq<char>) -> bool {
    ".part"@.is_suffix_of(file)
}

/// A file in the fan-out that is a whole blob.
pub open spec fn is_blob(l: Listed) -> bool {
    l.size is Some && !is_part(l.file@)
}

/// The blobs among the entries, each under its whole name.
pub open spec fn listed_blobs(listing: Seq<Listed>) -> Seq<Entry>
    decreases listing.len(),
{
    if listing.len() == 0 {
        Seq::empty()
    } else {
        let rest = listed_blobs(listing.drop_last());
        let l = listing.last();
        if is_blob(l) {
            rest.push((l.dir@ + l.file@, l.size->0))
        } else {
            rest
        }
    }
}

/// The list as mathematics.
pub open spec fn entries_of(v: Seq<(String, u64)>) -> Seq<Entry> {
    v.map_values(|e: (String, u64)| (e.0@, e.1))
}

fn collect_blobs(listing: &[Listed]) -> (r: Vec<(String, u64)>)
    ensures
        entries_of(r@) == listed_blobs(listing@),
{
    let mut out: Vec<(String, u64)> = Vec::new();
    let mut i: usize = 0;
    assert(entries_of(out@) == listed_blobs(listing@.take(0)));
    while i < listing.len()
        invariant
            i <= listing@.len(),
            entries_of(out@) == listed_blobs(listing@.take(i as int)),
        decreases listing@.len() - i,
    {
        let l = &listing[i];
        let ghost before = out@;
        assert(listing@.take(i + 1).drop_last() == listing@.take(i as int));
        if !ends_with(&l.file, ".part") {
            if let Some(size) = l.size {
                out.push((cat(&l.dir, &l.file), size));
                assert(entries_of(out@) == entries_of(before).push((l.dir@ + l.file@, size)));
            }
        }
        i += 1;
    }
    assert(listing@.take(i as int) == listing@);
    out
}

/// The place of a blob in a list: by its name, then by its size.
pub open spec fn entry_key(e: Entry) -> SortKey {
    SortKey { first: e.0, second: Seq::empty(), third: e.1 as nat }
}

/// A list of blobs in order.
pub open spec fn entries_sorted(s: Seq<Entry>) -> bool {
    keys_sorted(s, |e: Entry| entry_key(e))
}

impl Ranked for (String, u64) {
    open spec fn key(&self) -> SortKey {
        entry_key((self.0@, self.1))
    }

    fn before(&self, other: &Self) -> (r: bool) {
        proof {
            crate::order::lemma_text_lt_irreflexive(Seq::<char>::empty());
        }
        text_before(&self.0, &other.0) || (same(&self.0, &other.0) && self.1 < other.1)
    }
}

/// A blob that is placed by its name alone.
struct ByName {
    name: String,
    size: u64,
}

impl Ranked for ByName {
    closed spec fn key(&self) -> SortKey {
        SortKey { first: self.name@, second: Seq::empty(), third: 0 }
    }

    fn before(&self, other: &Self) -> (r: bool) {
        proof {
            crate::order::lemma_text_lt_irreflexive(Seq::<char>::empty());
        }
        text_before(&self.name, &other.name)
    }
}

/// `p` says from which position of `src` each item of `dst` comes: by name, and
/// of two blobs with one name the one that stood first.
pub open spec fn arranges(src: Seq<Entry>, dst: Seq<Entry>, p: Seq<usize>) -> bool {
    &&& p.to_multiset() == positions(0, src.len() as int).to_multiset()
    &&& p.len() == src.len()
    &&& dst.len() == src.len()
    &&& forall|i: int|
        0 <= i < p.len() ==> #[trigger] p[i] < src.len() && dst[i] == src[p[i] as int]
    &&& forall|i: int, j: int|
        0 <= i < j < p.len() ==> text_lt(
            src[#[trigger] p[i] as int].0,
            src[#[trigger] p[j] as int].0,
        ) || (src[p[i] as int].0 == src[p[j] as int].0 && p[i] < p[j])
}

/// `dst` is `src` sorted by name, with blobs of one name left in their order.
pub open spec fn sorted_by_name(src: Seq<Entry>, dst: Seq<Entry>) -> bool {
    exists|p: Seq<usize>| arranges(src, dst, p)
}

/// The blobs among the entries, by name: what the list of a node shows.
pub fn list_by_name(listing: &[Listed]) -> (r: Vec<(String, u64)>)
    ensures
        sorted_by_name(listed_blobs(listing@), entries_of(r@)),
        entries_of(r@).to_multiset() == listed_blobs(listing@).to_multiset(),
{
    let found = collect_blobs(listing);
    let ghost src = entries_of(found@);
    let mut items: Vec<ByName> = Vec::new();
    for e in it: found
        invariant
            it.seq() == found@,
            items@.len() == it.index(),
            forall|k: int|
                0 <= k < items@.len() ==> (#[trigger] items@[k]).name@ == found@[k].0@
                    && items@[k].size == found@[k].1,
    {
        items.push(ByName { name: e.0, size: e.1 });
    }
    let p = stable_order(&items);
    let mut out: Vec<(String, u64)> = Vec::new();
    let mut i: usize = 0;
    while i < p.len()
        invariant
            i <= p@.len(),
            p@.len() == items@.len(),
            forall|k: int| 0 <= k < p@.len() ==> #[trigger] p@[k] < items@.len(),
            out@.len() == i,
            forall|k: int|
                0 <= k < i ==> (#[trigger] out@[k]).0@ == items@[p@[k] as int].name@ && out@[k].1
                    == items@[p@[k] as int].size,
        decreases p@.len() - i,
    {
        let e = &items[p[i]];
        out.push((e.name.clone(), e.size));
        i += 1;
    }
    proof {
        assert forall|i: int, j: int| 0 <= i < j < p@.len() implies text_lt(
            src[#[trigger] p@[i] as int].0,
            src[#[trigger] p@[j] as int].0,
        ) || (src[p@[i] as int].0 == src[p@[j] as int].0 && p@[i] < p@[j]) by {
            crate::order::lemma_text_lt_irreflexive(Seq::<char>::empty());
            assert(crate::order::place_lt(items@, p@[i] as int, p@[j] as int));
        }
        assert(arranges(src, entries_of(out@), p@));
        let view = |e: ByName| (e.name@, e.size);
        lemma_order_keeps(items@, p@, view);
        assert(entries_of(out@) =~= p@.map_values(|i: usize| view(items@[i as int])));
        assert(items@.map_values(view) =~= src);
    }
    out
}

/// The files that count as blobs when a node starts: each one but those with
/// the extension `part`.
pub open spec fn counts(l: Listed) -> bool {
    l.size is Some && !(is_part(l.file@) && l.file@ != ".part"@)
}

/// How many files count as blobs.
pub open spec fn blob_count(listing: Seq<Listed>) -> nat
    decreases listing.len(),
{
    if listing.len() == 0 {
        0
    } else {
        blob_count(listing.drop_last()) + if counts(listing.last()) {
            1nat
        } else {
            0
        }
    }
}

/// How many bytes the files that count as blobs hold.
pub open spec fn blob_bytes(listing: Seq<Listed>) -> nat
    decreases listing.len(),
{
    if listing.len() == 0 {
        0
    } else {
        blob_bytes(listing.drop_last()) + if counts(listing.last()) {
            listing.last().size->0 as nat
        } else {
            0
        }
    }
}

pub proof fn lemma_blob_totals(listing: Seq<Listed>, n: int)
    requires
        0 <= n <= listing.len(),
    ensures
        blob_count(listing) <= listing.len(),
        blob_bytes(listing.take(n)) <= blob_bytes(listing),
    decreases listing.len(),
{
    if n == listing.len() {
        assert(listing.take(n) == listing);
    }
    if listing.len() > 0 {
        let m = if n == listing.len() {
            n - 1
        } else {
            n
        };
        lemma_blob_totals(listing.drop_last(), m);
        assert(n < listing.len() ==> listing.drop_last().take(n) == listing.take(n));
    }
}

/// Counts the blobs below a root, and their bytes.
pub fn count_existing(listing: &[Listed]) -> (r: (u64, u64))
    requires
        blob_bytes(listing@) <= u64::MAX,
    ensures
        r.0 == blob_count(listing@),
        r.1 == blob_bytes(listing@),
{
    let mut blobs: u64 = 0;
    let mut bytes: u64 = 0;
    let mut i: usize = 0;
    let n = listing.len();
    while i < n
        invariant
            n == listing@.len(),
            i <= n,
            blob_bytes(listing@) <= u64::MAX,
            blobs == blob_count(listing@.take(i as int)),
            blobs <= i,
            bytes == blob_bytes(listing@.take(i as int)),
        decreases n - i,
    {
        let l = &listing[i];
        proof {
            assert(listing@.take(i + 1).drop_last() == listing@.take(i as int));
            lemma_blob_totals(listing@, i + 1);
        }
        if let Some(size) = l.size {
            if !ends_with(&l.file, ".part") || same(&l.file, ".part") {
                blobs += 1;
                bytes += size;
            }
        }
        i += 1;
    }
    assert(listing@.take(i as int) == listing@);
    (blobs, bytes)
}

/// The blobs below a root.
#[derive(Clone)]
pub struct BlobStore {
    pub root: String,
}

impl BlobStore {
    /// Where the blob of this name lies below the root.
    pub fn path(&self, hex: &str) -> (r: Option<BlobPath>)
        ensures
            match r {
                Some(p) => fanout(hex@) == Some((p.dir@, p.file@)),
                None => fanout(hex@) is None,
            },
    {
        blob_path(hex)
    }

    /// The blobs among the entries below the root, in order.
    pub fn manifest(&self, listing: &[Listed]) -> (r: Vec<(String, u64)>)
        ensures
            entries_sorted(entries_of(r@)),
            entries_of(r@).to_multiset() == listed_blobs(listing@).to_multiset(),
    {
        let found = collect_blobs(listing);
        let p = stable_order(&found);
        let mut out: Vec<(String, u64)> = Vec::new();
        let mut i: usize = 0;
        let ghost view = |e: (String, u64)| (e.0@, e.1);
        while i < p.len()
            invariant
                i <= p@.len(),
                p@.len() == found@.len(),
                forall|k: int| 0 <= k < p@.len() ==> #[trigger] p@[k] < found@.len(),
                out@.len() == i,
                forall|k: int|
                    0 <= k < i ==> (#[trigger] out@[k]).0@ == found@[p@[k] as int].0@ && out@[k].1
                        == found@[p@[k] as int].1,
            decreases p@.len() - i,
        {
            let e = &found[p[i]];
            out.push((e.0.clone(), e.1));
            i += 1;
        }
        proof {
            lemma_order_keeps(found@, p@, view);
            assert(entries_of(out@) =~= p@.map_values(|i: usize| view(found@[i as int])));
            assert(found@.map_values(view) =~= entries_of(found@));
            let s = entries_of(out@);
            assert forall|i: int, j: int| 0 <= i < j < s.len() implies !key_lt(
                entry_key(#[trigger] s[j]),
                entry_key(#[trigger] s[i]),
            ) by {
                lemma_order_sorts(found@, p@, i, j);
            }
        }
        out
    }
}

/// A node: its root, and how many blobs and bytes it has seen there.
pub struct Node {
    pub root: String,
    pub blobs: u64,
    pub bytes: u64,
}

/// What a node's counters are after what came of a step.
pub open spec fn counted_on(
    node: Node,
    next: Node,
    plan: StorePlan,
    event: StoreEvent,
    len: nat,
) -> bool {
    if plan.step is Rename && event is Done {
        &&& next.blobs == (node.blobs + 1) % 0x1_0000_0000_0000_0000
        &&& next.bytes == (node.bytes + len) % 0x1_0000_0000_0000_0000
    } else {
        next.blobs == node.blobs && next.bytes == node.bytes
    }
}

impl Node {
    /// Where the blob of this name lies below the root.
    pub fn path(&self, hex: &str) -> (r: Option<BlobPath>)
        ensures
            match r {
                Some(p) => fanout(hex@) == Some((p.dir@, p.file@)),
                None => fanout(hex@) is None,
            },
    {
        blob_path(hex)
    }

    /// Goes on with the writing of a blob of `len` bytes: once it has been
    /// written, it counts.
    pub fn store(&mut self, plan: &mut StorePlan, len: u64, event: StoreEvent)
        ensures
            final(plan).step == store_next(old(plan).step, event),
            final(plan).path == old(plan).path,
            final(plan).temp == old(plan).temp,
            final(self).root == old(self).root,
            counted_on(*old(self), *final(self), *old(plan), event, len as nat),
    {
        let written = matches!(plan.step, StoreStep::Rename) && matches!(event, StoreEvent::Done);
        plan.advance(event);
        if written {
            self.blobs = self.blobs.wrapping_add(1);
            self.bytes = self.bytes.wrapping_add(len);
        }
    }
}

/// The two parts of a path make up the name: a list that joins a directory and
/// a file shows the name that the blob was written under, and two blobs with
/// different names have different paths.
pub proof fn law_fanout_joins(name: Seq<char>)
    ensures
        match fanout(name) {
            Some((dir, file)) => dir + file == name,
            None => !is_hex64(name),
        },
{
    if is_hex64(name) {
        lemma_fanout_hex(name);
    }
    assert(name.take(1) + name.skip(1) == name || name.len() < 1);
    assert(name.take(2) + name.skip(2) == name || name.len() < 2);
}

/// Each blob that was written is in the list, under its name and with its size;
/// the temporary file beside it never is, and does not count.
pub proof fn law_written_blobs_are_listed(name: Seq<char>, blob: Listed, temp: Listed)
    requires
        is_hex64(name),
        fanout(name) == Some((blob.dir@, blob.file@)),
        temp.file@ == temp_name(blob.file@),
        blob.size is Some,
    ensures
        is_blob(blob),
        counts(blob),
        blob.dir@ + blob.file@ == name,
        !is_blob(temp),
        !counts(temp),
{
    law_fanout_joins(name);
    lemma_fanout_hex(name);
    reveal_strlit(".part");
    let file = blob.file@;
    assert(file.last() == name[63]);
    assert(is_hex(name[63]));
    if is_part(file) {
        assert(file.subrange(file.len() - 5, file.len() as int).last() == 't');
    }
    let t = temp.file@;
    assert(t.subrange(t.len() - 5, t.len() as int) =~= ".part"@);
}

proof fn lemma_listed_multiset(a: Seq<Listed>, b: Seq<Listed>)
    requires
        a.to_multiset() == b.to_multiset(),
    ensures
        listed_blobs(a).to_multiset() == listed_blobs(b).to_multiset(),
    decreases a.len(),
{
    broadcast use vstd::seq_lib::group_to_multiset_ensures;

    vstd::seq_lib::to_multiset_len(a);
    vstd::seq_lib::to_multiset_len(b);
    if a.len() == 0 {
        assert(a =~= b);
    } else {
        let x = a.last();
        assert(a.contains(x));
        assert(b.to_multiset().count(x) > 0);
        assert(b.contains(x));
        let k = choose|k: int| 0 <= k < b.len() && b[k] == x;
        let a1 = a.drop_last();
        let b1 = b.remove(k);
        assert(a1 =~= a.remove(a.len() - 1));
        lemma_listed_multiset(a1, b1);
        lemma_listed_without(b, k);
        assert(listed_blobs(a) == if is_blob(x) {
            listed_blobs(a1).push((x.dir@ + x.file@, x.size->0))
        } else {
            listed_blobs(a1)
        });
    }
}

proof fn lemma_listed_without(b: Seq<Listed>, k: int)
    requires
        0 <= k < b.len(),
    ensures
        is_blob(b[k]) ==> listed_blobs(b).to_multiset() == listed_blobs(
            b.remove(k),
        ).to_multiset().insert((b[k].dir@ + b[k].file@, b[k].size->0)),
        !is_blob(b[k]) ==> listed_blobs(b) == listed_blobs(b.remove(k)),
    decreases b.len(),
{
    broadcast use vstd::seq_lib::group_to_multiset_ensures;

    if k == b.len() - 1 {
        assert(b.remove(k) =~= b.drop_last());
    } else {
        lemma_listed_without(b.drop_last(), k);
        assert(b.remove(k).drop_last() =~= b.drop_last().remove(k));
        assert(b.remove(k).last() == b.last());
        assert(b.drop_last()[k] == b[k]);
        assert(listed_blobs(b).to_multiset() =~= if is_blob(b.last()) {
            listed_blobs(b.drop_last()).to_multiset().insert(
                (b.last().dir@ + b.last().file@, b.last().size->0),
            )
        } else {
            listed_blobs(b.drop_last()).to_multiset()
        });
        if is_blob(b[k]) {
            assert(listed_blobs(b).to_multiset() =~= listed_blobs(b.remove(k)).to_multiset().insert(
                (b[k].dir@ + b[k].file@, b[k].size->0),
            ));
        }
    }
}

/// The list of a store does not depend on the order in which its directories
/// were read.
pub proof fn law_manifest_ignores_reading_order(
    a: Seq<Listed>,
    b: Seq<Listed>,
    from_a: Seq<Entry>,
    from_b: Seq<Entry>,
)
    requires
        a.to_multiset() == b.to_multiset(),
        entries_sorted(from_a),
        from_a.to_multiset() == listed_blobs(a).to_multiset(),
        entries_sorted(from_b),
        from_b.to_multiset() == listed_blobs(b).to_multiset(),
    ensures
        from_a == from_b,
{
    lemma_listed_multiset(a, b);
    lemma_keys_sorted_unique(from_a, from_b, |e: Entry| entry_key(e));
}

/// The files below a root: directory and file name to contents.
pub type Disk = Map<(Seq<char>, Seq<char>), Seq<u8>>;

/// What the files are after the plan's step has come to `event`. A write that
/// fails may leave any bytes, `torn`, in the temporary file.
pub open spec fn disk_after(
    disk: Disk,
    plan: StorePlan,
    data: Seq<u8>,
    event: StoreEvent,
    torn: Seq<u8>,
) -> Disk {
    let blob = (plan.path.dir@, plan.path.file@);
    let temp = (plan.path.dir@, plan.temp@);
    match (plan.step, event) {
        (StoreStep::WriteTemp, StoreEvent::Done) => disk.insert(temp, data),
        (StoreStep::WriteTemp, StoreEvent::Error(_)) => disk.insert(temp, torn),
        (StoreStep::Rename, StoreEvent::Done) => disk.remove(temp).insert(blob, disk[temp]),
        _ => disk,
    }
}

/// What a step can come to: looking tells the truth.
pub open spec fn can_come(disk: Disk, plan: StorePlan, event: StoreEvent) -> bool {
    event matches StoreEvent::Exists(there) ==> there == disk.contains_key(
        (plan.path.dir@, plan.path.file@),
    )
}

/// While a blob is being written no file but its temporary one has changed;
/// once it has been written, the blob holds the whole data and the temporary
/// file is gone.
pub open spec fn store_atomic(before: Disk, disk: Disk, plan: StorePlan, data: Seq<u8>) -> bool {
    let blob = (plan.path.dir@, plan.path.file@);
    let temp = (plan.path.dir@, plan.temp@);
    &&& forall|k: (Seq<char>, Seq<char>)|
        k != blob && k != temp ==> (#[trigger] disk.contains_key(k) == before.contains_key(k)
            && disk[k] == before[k])
    &&& plan.step is Fresh ==> {
        &&& !before.contains_key(blob)
        &&& disk.contains_key(blob)
        &&& disk[blob] == data
        &&& !disk.contains_key(temp)
    }
    &&& !(plan.step is Fresh) ==> {
        &&& disk.contains_key(blob) == before.contains_key(blob)
        &&& disk[blob] == before[blob]
    }
    &&& plan.step is Rename ==> disk.contains_key(temp) && disk[temp] == data
    &&& plan.step is MakeDir || plan.step is WriteTemp || plan.step is Rename
        ==> !before.contains_key(blob)
    &&& plan.step is Probe || plan.step is Kept ==> disk == before
    &&& plan.step is Kept ==> before.contains_key(blob)
}

/// A blob appears whole or not at all, and writing one that is there changes
/// nothing: what [`store_atomic`] says holds when a plan is made, and each step
/// keeps it, whatever comes of the step.
pub proof fn law_store_is_atomic(
    name: Seq<char>,
    before: Disk,
    disk: Disk,
    plan: StorePlan,
    next: StorePlan,
    data: Seq<u8>,
    event: StoreEvent,
    torn: Seq<u8>,
)
    requires
        plan.stores(name),
        next.path == plan.path,
        next.temp == plan.temp,
        next.step == store_next(plan.step, event),
        can_come(disk, plan, event),
    ensures
        plan.step is Probe ==> store_atomic(disk, disk, plan, data),
        store_atomic(before, disk, plan, data) ==> store_atomic(
            before,
            disk_after(disk, plan, data, event, torn),
            next,
            data,
        ),
{
    reveal_strlit(".part");
    assert(plan.temp@.len() != plan.path.file@.len());
}

/// The key of a blob among the files.
pub open spec fn blob_key(name: Seq<char>) -> (Seq<char>, Seq<char>) {
    (name.take(2), name.skip(2))
}

pub proof fn lemma_blob_keys(name: Seq<char>, other: Seq<char>, temp: (Seq<char>, Seq<char>))
    requires
        is_hex64(name),
        is_hex64(other),
        temp == (other.take(2), temp_name(other.skip(2))),
    ensures
        blob_key(name) != temp,
        blob_key(name) == blob_key(other) ==> name == other,
{
    reveal_strlit(".part");
    assert(blob_key(name).1.len() == 62);
    assert(temp.1.len() == 67);
    assert(name.take(2) + name.skip(2) =~= name);
    assert(other.take(2) + other.skip(2) =~= other);
}

/// A blob that is there stays there, and stays as it is, whatever is written.
pub proof fn law_blobs_stay(
    name: Seq<char>,
    other: Seq<char>,
    before: Disk,
    disk: Disk,
    plan: StorePlan,
    data: Seq<u8>,
)
    requires
        is_hex64(name),
        plan.stores(other),
        store_atomic(before, disk, plan, data),
        before.contains_key(blob_key(name)),
    ensures
        disk.contains_key(blob_key(name)),
        disk[blob_key(name)] == before[blob_key(name)],
{
    let (key, blob) = (blob_key(name), blob_key(other));
    let temp = (plan.path.dir@, plan.temp@);
    lemma_blob_keys(name, other, temp);
    assert(blob == (plan.path.dir@, plan.path.file@));
    assert(key != temp);
    if key == blob {
        assert(!(plan.step is Fresh));
        assert(disk.contains_key(blob) == before.contains_key(blob));
        assert(disk[blob] == before[blob]);
    } else {
        assert(disk.contains_key(key) == before.contains_key(key));
        assert(disk[key] == before[key]);
    }
}

/// Each blob among the files has its digest for a name.
pub open spec fn names_true(disk: Disk) -> bool {
    forall|name: Seq<char>|
        is_hex64(name) && #[trigger] disk.contains_key(blob_key(name)) ==> sha256_text(
            disk[blob_key(name)],
        ) == name
}

/// Where each blob has its digest for a name, so it stays while data is written under
/// its own digest, at each step and whatever comes of it.
pub proof fn law_names_stay_true(before: Disk, disk: Disk, plan: StorePlan, data: Seq<u8>)
    requires
        names_true(before),
        plan.stores(sha256_text(data)),
        store_atomic(before, disk, plan, data),
    ensures
        names_true(disk),
{
    let own = sha256_text(data);
    assert forall|name: Seq<char>|
        is_hex64(name) && #[trigger] disk.contains_key(blob_key(name)) implies sha256_text(
        disk[blob_key(name)],
    ) == name by {
        lemma_blob_keys(name, own, (plan.path.dir@, plan.temp@));
        assert(blob_key(own) == (plan.path.dir@, plan.path.file@));
        if blob_key(name) != blob_key(own) {
            assert(before.contains_key(blob_key(name)));
        } else if !(plan.step is Fresh) {
            assert(before.contains_key(blob_key(name)));
        }
    }
}

/// A plan ends: after at most four events that fit their steps nothing is left
/// to do, and from then on no event changes what came of it.
pub proof fn law_store_ends(step: StoreStep, event: StoreEvent)
    ensures
        store_outcome(step) is Some ==> store_next(step, event) == step,
        store_outcome(step) is None && (event is Exists <==> step is Probe) ==> steps_left(
            store_next(step, event),
        ) < steps_left(step) <= 4,
{
}

/// How many steps are left at most.
pub open spec fn steps_left(step: StoreStep) -> nat {
    match step {
        StoreStep::Probe => 4,
        StoreStep::MakeDir => 3,
        StoreStep::WriteTemp => 2,
        StoreStep::Rename => 1,
        _ => 0,
    }
}

proof fn lemma_hex_is_digit(c: char)
    ensures
        is_hex(c) <==> digit_value(c, 16) is Some,
{
}

/// A name has 64 characters, each a digit of base 16, in either case; whatever has that can
/// name a blob.
pub proof fn law_names_are_hexadecimal(s: Seq<char>)
    ensures
        is_hex64(s) <==> s.len() == 64 && forall|i: int|
            0 <= i < s.len() ==> digit_value(#[trigger] s[i], 16) is Some,
{
    if is_hex64(s) {
        assert forall|i: int| 0 <= i < s.len() implies digit_value(
            #[trigger] s[i],
            16,
        ) is Some by {
            assert(is_hex(s[i]));
            lemma_hex_is_digit(s[i]);
        }
    }
    if s.len() == 64 && forall|i: int|
        0 <= i < s.len() ==> digit_value(#[trigger] s[i], 16) is Some {
        assert forall|i: int| 0 <= i < s.len() implies is_hex(#[trigger] s[i]) by {
            lemma_hex_is_digit(s[i]);
        }
    }
}

proof fn lemma_bytes_of_characters(s: Seq<char>)
    ensures
        encode_utf8(s).len() >= s.len(),
        s.len() == 1 ==> encode_utf8(s).len() == width(s[0]),
        s.len() == 2 ==> encode_utf8(s).len() == width(s[0]) + width(s[1]),
        forall|i: int| 0 <= i < s.len() ==> width(#[trigger] s[i]) >= 1,
    decreases s.len(),
{
    assert(encode_utf8(Seq::<char>::empty()).len() == 0);
    if s.len() > 0 {
        let rest = s.drop_first();
        char_is_scalar(s[0]);
        lemma_bytes_of_characters(rest);
        assert(encode_utf8(s) == encode_scalar(s[0] as u32) + encode_utf8(rest));
        if s.len() == 1 {
            assert(rest =~= Seq::<char>::empty());
        }
        assert forall|i: int| 0 <= i < s.len() implies width(#[trigger] s[i]) >= 1 by {
            if i > 0 {
                assert(rest[i - 1] == s[i]);
            }
        }
    }
}

/// The directory of a blob takes the first two bytes of its name, and the file the rest:
/// however a name is put together so, it is cut there again.
pub proof fn law_fanout_cuts_after_two_bytes(dir: Seq<char>, file: Seq<char>)
    ensures
        encode_utf8(dir).len() == 2 <==> fanout(dir + file) == Some((dir, file)),
{
    let name = dir + file;
    lemma_bytes_of_characters(dir);
    lemma_bytes_of_characters(name);
    if encode_utf8(dir).len() == 2 {
        assert(dir.len() == 1 || dir.len() == 2) by {
            if dir.len() == 0 {
                assert(dir =~= Seq::<char>::empty());
            }
        }
        if dir.len() == 1 {
            assert(name[0] == dir[0]);
        } else {
            assert(name[0] == dir[0] && name[1] == dir[1]);
            assert(width(dir[0]) >= 1 && width(dir[1]) >= 1);
        }
        assert(name.take(dir.len() as int) =~= dir);
        assert(name.skip(dir.len() as int) =~= file);
    }
    if fanout(name) == Some((dir, file)) {
        lemma_bytes_of_characters(name.take(1));
        if name.len() >= 2 {
            lemma_bytes_of_characters(name.take(2));
        }
    }
}

/// What is listed of two listings put together is what is listed of the one and then what
/// is listed of the other, and so are the totals.
pub proof fn law_listings_join(a: Seq<Listed>, b: Seq<Listed>)
    ensures
        listed_blobs(a + b) == listed_blobs(a) + listed_blobs(b),
        blob_count(a + b) == blob_count(a) + blob_count(b),
        blob_bytes(a + b) == blob_bytes(a) + blob_bytes(b),
    decreases b.len(),
{
    if b.len() == 0 {
        assert(a + b =~= a);
        assert(listed_blobs(a) + listed_blobs(b) =~= listed_blobs(a));
    } else {
        law_listings_join(a, b.drop_last());
        assert((a + b).drop_last() =~= a + b.drop_last());
        assert((a + b).last() == b.last());
        assert(listed_blobs(a + b) =~= listed_blobs(a) + listed_blobs(b));
    }
}

/// A file is listed under its whole name and with its size unless its name ends with
/// `.part`; what is no file is not listed. A file counts, with all its bytes, unless it has
/// the extension `part`: a name that is `.part` and nothing more has none.
pub proof fn law_files_are_listed(l: Listed)
    ensures
        l.size is Some && !".part"@.is_suffix_of(l.file@) ==> listed_blobs(seq![l]) == seq![
            (l.dir@ + l.file@, l.size->0),
        ],
        l.size is None || ".part"@.is_suffix_of(l.file@) ==> listed_blobs(seq![l]).len() == 0,
        l.size is Some && (!".part"@.is_suffix_of(l.file@) || l.file@ == ".part"@) ==> blob_count(
            seq![l],
        ) == 1 && blob_bytes(seq![l]) == l.size->0,
        l.size is None || (".part"@.is_suffix_of(l.file@) && l.file@ != ".part"@) ==> blob_count(
            seq![l],
        ) == 0 && blob_bytes(seq![l]) == 0,
{
    let one = seq![l];
    assert(one.drop_last() =~= Seq::<Listed>::empty());
    assert(listed_blobs(one.drop_last()) == Seq::<Entry>::empty());
    assert(blob_count(one.drop_last()) == 0);
    assert(blob_bytes(one.drop_last()) == 0);
    assert(listed_blobs(one) =~= if is_blob(l) {
        seq![(l.dir@ + l.file@, l.size->0)]
    } else {
        Seq::empty()
    });
}

/// Of a list each entry is seen, in its place.
pub proof fn law_entries_are_seen(v: Seq<(String, u64)>)
    ensures
        entries_of(v).len() == v.len(),
        forall|i: int| 0 <= i < v.len() ==> #[trigger] entries_of(v)[i] == (v[i].0@, v[i].1),
{
}

/// A blob that is not there is written: a directory is made, the data goes to a temporary
/// file, and that gets the name of the blob. One that is there is kept. What fails, fails
/// with its own error.
pub proof fn law_missing_blob_is_written(e: String)
    ensures
        ({
            let made = store_next(StoreStep::Probe, StoreEvent::Exists(false));
            let wrote = store_next(made, StoreEvent::Done);
            let named = store_next(wrote, StoreEvent::Done);
            let end = store_next(named, StoreEvent::Done);
            &&& made is MakeDir
            &&& wrote is WriteTemp
            &&& named is Rename
            &&& store_outcome(end) == Some(Ok::<bool, String>(true))
            &&& store_outcome(store_next(made, StoreEvent::Error(e))) == Some(
                Err::<bool, String>(e),
            )
            &&& store_outcome(store_next(wrote, StoreEvent::Error(e))) == Some(
                Err::<bool, String>(e),
            )
            &&& store_outcome(store_next(named, StoreEvent::Error(e))) == Some(
                Err::<bool, String>(e),
            )
        }),
        store_outcome(store_next(StoreStep::Probe, StoreEvent::Exists(true))) == Some(
            Ok::<bool, String>(false),
        ),
{
}

/// The temporary file of a blob has the name of its file with `.part` behind it.
pub proof fn law_temporary_file(name: Seq<char>, plan: StorePlan)
    requires
        plan.stores(name),
    ensures
        plan.path.dir@ + plan.path.file@ == name,
        plan.path.dir@.len() == 2,
        plan.temp@ == plan.path.file@ + ".part"@,
{
    assert(name.take(2) + name.skip(2) =~= name);
}

/// A blob is on disk in full once its plan has gone through: where it was missing, the
/// steps one after the other leave exactly its data under its name, and no temporary file.
pub proof fn law_plan_stores_all_the_data(
    name: Seq<char>,
    plan: StorePlan,
    disk: Disk,
    data: Seq<u8>,
    torn: Seq<u8>,
)
    requires
        plan.stores(name),
        plan.step is WriteTemp,
    ensures
        ({
            let written = disk_after(disk, plan, data, StoreEvent::Done, torn);
            let next = StorePlan { step: store_next(plan.step, StoreEvent::Done), ..plan };
            let end = disk_after(written, next, data, StoreEvent::Done, torn);
            &&& end.contains_key((name.take(2), name.skip(2)))
            &&& end[(name.take(2), name.skip(2))] == data
            &&& !end.contains_key((name.take(2), name.skip(2) + ".part"@))
        }),
{
    reveal_strlit(".part");
    assert(plan.temp@.len() != plan.path.file@.len());
}

/// A list in order has its names ascending, and under one name its sizes.
pub proof fn law_lists_are_in_order(list: Seq<Entry>, i: int, j: int)
    requires
        entries_sorted(list),
        0 <= i < j < list.len(),
    ensures
        text_lt(list[i].0, list[j].0) || (list[i].0 == list[j].0 && list[i].1 <= list[j].1),
{
    let (a, b) = (list[i], list[j]);
    assert(!key_lt(entry_key(b), entry_key(a)));
    crate::order::lemma_text_lt_total(a.0, b.0);
}

/// What does not fit a step of a plan changes nothing.
pub proof fn law_what_does_not_fit_a_plan(step: StoreStep, event: StoreEvent)
    ensures
        step is Probe && !(event is Exists) ==> store_next(step, event) == step,
        (step is MakeDir || step is WriteTemp || step is Rename) && event is Exists ==> store_next(
            step,
            event,
        ) == step,
        step is Kept || step is Fresh || step is Failed ==> store_next(step, event) == step,
{
}

/// A blob counts once it has got its name, with all its bytes, and no step before does.
pub proof fn law_written_blob_counts(
    node: Node,
    next: Node,
    plan: StorePlan,
    event: StoreEvent,
    len: nat,
)
    requires
        counted_on(node, next, plan, event, len),
    ensures
        plan.step is Rename && event is Done && node.blobs < u64::MAX && node.bytes + len
            <= u64::MAX ==> next.blobs == node.blobs + 1 && next.bytes == node.bytes + len,
        !(plan.step is Rename && event is Done) ==> next.blobs == node.blobs && next.bytes
            == node.bytes,
{
}

} // verus!
