//! The answers of a node over HTTP: storing and fetching a blob, the list of
//! blobs, and the state of the node.

use vstd::prelude::*;
use vstd::string::*;
use vstd::utf8::*;

use crate::blob::{
    blob_key, blob_path, can_come, disk_after, entries_of, fanout, hex_ok, is_hex, is_hex64,
    lemma_digest_is_hex, lemma_fanout_hex, store_atomic, store_next, store_outcome, BlobPath, Disk,
    Entry, Node, StoreEvent, StorePlan,
};
use crate::digest::{is_digest_name, is_lower_hex, sha256_hex, sha256_text};
use crate::json::{array_model, lemma_array_model, Json, JsonModel, JsonNumber};
use crate::text::{cat3, decimal, decimal_text, lower, lower_char, lowered, same};

verus! {

/// What is sent back: the status and the text.
pub struct Reply {
    pub status: u16,
    pub text: String,
}

/// A reply as mathematics.
pub struct ReplyModel {
    pub status: u16,
    pub text: Seq<char>,
}

impl View for Reply {
    type V = ReplyModel;

    open spec fn view(&self) -> ReplyModel {
        ReplyModel { status: self.status, text: self.text@ }
    }
}

/// What a request to store comes to before the disk is asked: a refusal, or the
/// name to store the body under.
pub enum PutStep {
    Refuse(Reply),
    Store(String),
}

/// A [`PutStep`] as mathematics.
pub enum PutModel {
    Refuse(ReplyModel),
    Store(Seq<char>),
}

impl View for PutStep {
    type V = PutModel;

    open spec fn view(&self) -> PutModel {
        match self {
            PutStep::Refuse(r) => PutModel::Refuse(r@),
            PutStep::Store(name) => PutModel::Store(name@),
        }
    }
}

/// What a request to store under `hash` a body with the digest `got` comes to.
pub open spec fn put_step(hash: Seq<char>, got: Seq<char>) -> PutModel {
    if !is_hex64(hash) {
        PutModel::Refuse(ReplyModel { status: 400, text: "hash: need 64 hex chars\n"@ })
    } else if lowered(hash) != got {
        PutModel::Refuse(
            ReplyModel { status: 400, text: "hash mismatch: sha256(body)="@ + got + "\n"@ },
        )
    } else {
        PutModel::Store(got)
    }
}

/// Checks a request to store against the digest of its body.
pub fn put_check(hash: &str, got: &str) -> (r: PutStep)
    ensures
        r@ == put_step(hash@, got@),
{
    if !hex_ok(hash) {
        return PutStep::Refuse(
            Reply { status: 400, text: "hash: need 64 hex chars\n".to_owned() },
        );
    }
    let want = lower(hash);
    if !same(&want, got) {
        return PutStep::Refuse(
            Reply { status: 400, text: cat3("hash mismatch: sha256(body)=", got, "\n") },
        );
    }
    PutStep::Store(want)
}

/// Checks a request to store a body under a name: only the body's own digest,
/// in either case, will do.
pub fn put_cache(hash: &str, body: &[u8]) -> (r: PutStep)
    ensures
        r@ == put_step(hash@, sha256_text(body@)),
        r matches PutStep::Store(name) ==> name@ == sha256_text(body@) && is_digest_name(name@)
            && is_hex64(name@),
{
    let got = sha256_hex(body);
    let r = put_check(hash, &got);
    proof {
        lemma_digest_is_hex(got@);
    }
    r
}

/// What is sent back once the disk has been asked.
pub open spec fn put_reply_of(len: nat, outcome: Result<bool, String>) -> ReplyModel {
    match outcome {
        Ok(true) => ReplyModel {
            status: 201,
            text: "stored "@ + decimal_text(len) + " bytes\n"@,
        },
        Ok(false) => ReplyModel { status: 200, text: "dedup (already exists)\n"@ },
        Err(e) => ReplyModel { status: 500, text: "io: "@ + e@ + "\n"@ },
    }
}

/// Answers a request to store a body of `len` bytes.
pub fn put_reply(len: usize, outcome: &Result<bool, String>) -> (r: Reply)
    ensures
        r@ == put_reply_of(len as nat, *outcome),
{
    match outcome {
        Ok(true) => Reply {
            status: 201,
            text: cat3("stored ", &decimal(len as u64), " bytes\n"),
        },
        Ok(false) => Reply { status: 200, text: "dedup (already exists)\n".to_owned() },
        Err(e) => Reply { status: 500, text: cat3("io: ", e, "\n") },
    }
}

/// What a request to fetch comes to before the disk is asked: a refusal, or the
/// file to read.
pub enum GetStep {
    Refuse(Reply),
    Read(BlobPath),
}

/// Checks a request to fetch a blob, whose name may be in either case.
pub fn get_cache(hash: &str) -> (r: GetStep)
    ensures
        match r {
            GetStep::Refuse(reply) => !is_hex64(hash@) && reply@ == (ReplyModel {
                status: 400,
                text: "hash: need 64 hex chars\n"@,
            }),
            GetStep::Read(p) => is_hex64(hash@) && fanout(lowered(hash@)) == Some(
                (p.dir@, p.file@),
            ),
        },
{
    if hex_ok(hash) {
        let name = lower(hash);
        proof {
            lemma_lowered_hex(hash@);
            lemma_fanout_hex(name@);
        }
        if let Some(p) = blob_path(&name) {
            return GetStep::Read(p);
        }
    }
    GetStep::Refuse(Reply { status: 400, text: "hash: need 64 hex chars\n".to_owned() })
}

/// Answers a request to fetch with what was read.
pub fn get_reply(read: Option<Vec<u8>>) -> (r: (u16, Vec<u8>))
    ensures
        match read {
            Some(data) => r.0 == 200 && r.1@ == data@,
            None => r.0 == 404 && r.1@ == encode_utf8("not found\n"@),
        },
{
    match read {
        Some(data) => (200, data),
        None => (404, "not found\n".as_bytes_vec()),
    }
}

/// What a node says of its state.
pub open spec fn health_of(node: Node, version: Seq<char>) -> JsonModel {
    JsonModel::Object(
        map![
            "service"@ => JsonModel::Text("cache-node"@),
            "version"@ => JsonModel::Text(version),
            "blobs"@ => JsonModel::Number(JsonNumber::Pos(node.blobs)),
            "bytes"@ => JsonModel::Number(JsonNumber::Pos(node.bytes)),
            "root"@ => JsonModel::Text(node.root@),
        ],
    )
}

/// The state of a node.
pub fn healthz(node: &Node, version: &str) -> (r: Json)
    ensures
        r.model() == health_of(*node, version@),
{
    Json::object().with("service", Json::text("cache-node")).with(
        "version",
        Json::text(version),
    ).with("blobs", Json::number(node.blobs)).with("bytes", Json::number(node.bytes)).with(
        "root",
        Json::text(&node.root),
    )
}

/// A blob in a list of blobs.
pub open spec fn entry_json(e: Entry) -> JsonModel {
    JsonModel::Object(
        map![
            "hash"@ => JsonModel::Text(e.0),
            "size"@ => JsonModel::Number(JsonNumber::Pos(e.1)),
        ],
    )
}

/// A list of blobs.
pub open spec fn entries_json(entries: Seq<Entry>) -> JsonModel {
    JsonModel::Array(entries.map_values(|e: Entry| entry_json(e)))
}

/// Builds the list of these blobs.
pub fn blob_list(entries: &[(String, u64)]) -> (r: Json)
    ensures
        r.model() == entries_json(entries_of(entries@)),
{
    let mut items: Vec<Json> = Vec::new();
    let mut i: usize = 0;
    while i < entries.len()
        invariant
            i <= entries@.len(),
            items@.len() == i,
            forall|k: int|
                0 <= k < i ==> (#[trigger] items@[k]).model() == entry_json(
                    entries_of(entries@)[k],
                ),
        decreases entries@.len() - i,
    {
        let e = &entries[i];
        let item = Json::object().with("hash", Json::text(&e.0)).with("size", Json::number(e.1));
        items.push(item);
        i += 1;
    }
    proof {
        lemma_array_model(items@);
        assert(array_model(items@) =~= entries_of(entries@).map_values(|e: Entry| entry_json(e)));
    }
    Json::array(items)
}

/// The list of a node's blobs, with their number.
pub open spec fn manifest_of(entries: Seq<Entry>) -> JsonModel {
    JsonModel::Object(
        map![
            "count"@ => JsonModel::Number(JsonNumber::Pos(entries.len() as u64)),
            "blobs"@ => entries_json(entries),
        ],
    )
}

/// Builds the list of a node's blobs.
pub fn manifest(entries: &[(String, u64)]) -> (r: Json)
    ensures
        r.model() == manifest_of(entries_of(entries@)),
        r.model() matches JsonModel::Object(fields) && fields.contains_key("blobs"@) && (
        fields["blobs"@] matches JsonModel::Array(items) && items.len() == entries@.len() && forall|
            i: int,
        |
            0 <= i < items.len() ==> {
                &&& (#[trigger] items[i]) matches JsonModel::Object(item)
                &&& item["hash"@] == JsonModel::Text(entries@[i].0@)
                &&& item["size"@] == JsonModel::Number(JsonNumber::Pos(entries@[i].1))
            }),
{
    proof {
        let n = entries.len();
        let all = entries_of(entries@);
        law_manifest_holds_every_blob(all);
        assert(manifest_of(all)->Object_0.dom().contains("blobs"@));
        assert forall|i: int| 0 <= i < all.len() implies #[trigger] all[i] == (
            entries@[i].0@,
            entries@[i].1,
        ) by {}
    }
    Json::object().with("count", Json::number(entries.len() as u64)).with(
        "blobs",
        blob_list(entries),
    )
}

pub proof fn lemma_lowered_hex(hash: Seq<char>)
    requires
        is_hex64(hash),
    ensures
        is_hex64(lowered(hash)),
        is_digest_name(lowered(hash)),
{
    let s = lowered(hash);
    assert forall|i: int| 0 <= i < s.len() implies is_hex(#[trigger] s[i]) && is_lower_hex(
        s[i],
    ) by {
        assert(is_hex(hash[i]));
        assert(s[i] == lower_char(hash[i]));
    }
}

/// A fetch under a name, in either case, goes to the file that a body was stored
/// in under that name, in either case: what is read is what was written.
pub proof fn law_fetch_finds_what_was_stored(put: Seq<char>, got: Seq<char>, fetch: Seq<char>)
    requires
        put_step(put, got) is Store,
        is_hex64(fetch),
        lowered(fetch) == lowered(put),
    ensures
        fanout(lowered(fetch)) == fanout(put_step(put, got)->Store_0),
        put_step(put, got)->Store_0 == got,
{
}

/// What a read gives back of a write: once a body has been stored, a fetch under its
/// name, in either case, reads the file that holds exactly the body.
pub proof fn law_read_gives_back_write(
    put: Seq<char>,
    body: Seq<u8>,
    fetch: Seq<char>,
    before: Disk,
    disk: Disk,
    plan: StorePlan,
)
    requires
        put_step(put, sha256_text(body)) is Store,
        plan.stores(put_step(put, sha256_text(body))->Store_0),
        plan.step is Fresh,
        store_atomic(before, disk, plan, body),
        is_hex64(fetch),
        lowered(fetch) == lowered(put),
    ensures
        fanout(lowered(fetch)) is Some,
        disk.contains_key(fanout(lowered(fetch))->0),
        disk[fanout(lowered(fetch))->0] == body,
{
    lemma_lowered_hex(fetch);
    lemma_fanout_hex(lowered(fetch));
}

/// Storing a body once more changes nothing: no file changes, and the answer is that it
/// is there already.
pub proof fn law_storing_twice_changes_nothing(
    name: Seq<char>,
    disk: Disk,
    plan: StorePlan,
    event: StoreEvent,
    data: Seq<u8>,
    torn: Seq<u8>,
)
    requires
        plan.stores(name),
        plan.step is Probe,
        disk.contains_key(blob_key(name)),
        event is Exists,
        can_come(disk, plan, event),
    ensures
        disk_after(disk, plan, data, event, torn) == disk,
        store_outcome(store_next(plan.step, event)) == Some(Ok::<bool, String>(false)),
        put_reply_of(data.len(), Ok(false)).status == 200,
{
    assert(blob_key(name) == (plan.path.dir@, plan.path.file@));
}

/// Nothing is stored under a name but a body whose digest it is: a body with
/// another digest is refused under every name that is not its own.
pub proof fn law_only_its_own_name(hash: Seq<char>, got: Seq<char>)
    requires
        is_hex64(hash),
    ensures
        put_step(hash, got) is Store <==> lowered(hash) == got,
        put_step(hash, got) is Refuse ==> put_step(hash, got)->Refuse_0.status == 400,
{
}

/// The fields of an object, and nothing else.
pub open spec fn has_just(m: JsonModel, keys: Set<Seq<char>>) -> bool {
    m matches JsonModel::Object(fields) && fields.dom() == keys
}

/// A list of blobs holds every one of them, in its place: under `hash` its name and under
/// `size` its size.
pub proof fn law_list_holds_every_blob(entries: Seq<Entry>)
    ensures
        entries_json(entries) matches JsonModel::Array(items) && items.len() == entries.len()
            && forall|i: int|
            0 <= i < entries.len() ==> {
                &&& has_just(#[trigger] items[i], set!["hash"@, "size"@])
                &&& items[i]->Object_0["hash"@] == JsonModel::Text(entries[i].0)
                &&& items[i]->Object_0["size"@] == JsonModel::Number(JsonNumber::Pos(entries[i].1))
            },
{
    reveal_strlit("hash");
    reveal_strlit("size");
    assert("hash"@[0] != "size"@[0]);
    let items = entries_json(entries)->Array_0;
    assert forall|i: int| 0 <= i < entries.len() implies {
        &&& has_just(#[trigger] items[i], set!["hash"@, "size"@])
        &&& items[i]->Object_0["hash"@] == JsonModel::Text(entries[i].0)
        &&& items[i]->Object_0["size"@] == JsonModel::Number(JsonNumber::Pos(entries[i].1))
    } by {
        assert(items[i] == entry_json(entries[i]));
        assert(items[i]->Object_0.dom() =~= set!["hash"@, "size"@]);
    }
}

/// What a node answers to a request for its list holds every blob: `blobs` is a list of as
/// many items as there are blobs, which is what `count` says, and item by item it gives
/// the name of the blob and its size.
pub proof fn law_manifest_holds_every_blob(entries: Seq<Entry>)
    requires
        entries.len() <= u64::MAX,
    ensures
        has_just(manifest_of(entries), set!["count"@, "blobs"@]),
        ({
            let fields = manifest_of(entries)->Object_0;
            &&& fields["count"@] == JsonModel::Number(JsonNumber::Pos(entries.len() as u64))
            &&& fields["blobs"@] matches JsonModel::Array(items)
            &&& items.len() == entries.len()
            &&& forall|i: int|
                0 <= i < entries.len() ==> {
                    &&& has_just(#[trigger] items[i], set!["hash"@, "size"@])
                    &&& items[i]->Object_0["hash"@] == JsonModel::Text(entries[i].0)
                    &&& items[i]->Object_0["size"@] == JsonModel::Number(
                        JsonNumber::Pos(entries[i].1),
                    )
                }
        }),
{
    reveal_strlit("count");
    reveal_strlit("blobs");
    assert("count"@[0] != "blobs"@[0]);
    law_list_holds_every_blob(entries);
    assert(manifest_of(entries)->Object_0.dom() =~= set!["count"@, "blobs"@]);
}

/// What is answered to a request to store: under a name that is no digest at all, that it
/// has to be one; under one that is not the body's own, what the body's is; otherwise the
/// body is stored under its own. Then 201 and how many bytes were stored, 200 where it was
/// there, and 500 with the error where it could not be.
pub proof fn law_requests_to_store_are_answered(
    hash: Seq<char>,
    got: Seq<char>,
    len: nat,
    e: String,
)
    ensures
        !is_hex64(hash) ==> put_step(hash, got) == PutModel::Refuse(
            ReplyModel { status: 400, text: "hash: need 64 hex chars\n"@ },
        ),
        is_hex64(hash) && lowered(hash) != got ==> put_step(hash, got) == PutModel::Refuse(
            ReplyModel { status: 400, text: "hash mismatch: sha256(body)="@ + got + "\n"@ },
        ),
        is_hex64(hash) && lowered(hash) == got ==> put_step(hash, got) == PutModel::Store(got),
        put_reply_of(len, Ok(true)) == (ReplyModel {
            status: 201,
            text: "stored "@ + decimal_text(len) + " bytes\n"@,
        }),
        put_reply_of(len, Ok(false)) == (ReplyModel {
            status: 200,
            text: "dedup (already exists)\n"@,
        }),
        put_reply_of(len, Err(e)) == (ReplyModel { status: 500, text: "io: "@ + e@ + "\n"@ }),
{
}

/// A body can be stored under its digest in either case: every way to write it is taken,
/// and comes to the same name.
pub proof fn law_names_are_taken_in_either_case(hash: Seq<char>, body: Seq<u8>)
    requires
        hash.len() == 64,
        forall|i: int| 0 <= i < 64 ==> lower_char(#[trigger] hash[i]) == sha256_text(body)[i],
    ensures
        put_step(hash, sha256_text(body)) == PutModel::Store(sha256_text(body)),
{
    let name = sha256_text(body);
    crate::digest::lemma_digest_name(body);
    assert forall|i: int| 0 <= i < hash.len() implies is_hex(#[trigger] hash[i]) by {
        assert(lower_char(hash[i]) == name[i]);
        assert(is_lower_hex(name[i]));
        lemma_hex_in_either_case(hash[i]);
    }
    assert(lowered(hash) =~= name);
}

proof fn lemma_hex_in_either_case(c: char)
    requires
        is_lower_hex(lower_char(c)),
    ensures
        is_hex(c),
{
}

/// What a node says of its state: what it is, its version, how many blobs and bytes it
/// counts, and its root; nothing else.
pub proof fn law_health_holds_the_state(node: Node, version: Seq<char>)
    ensures
        has_just(
            health_of(node, version),
            set!["service"@, "version"@, "blobs"@, "bytes"@, "root"@],
        ),
        ({
            let fields = health_of(node, version)->Object_0;
            &&& fields["service"@] == JsonModel::Text("cache-node"@)
            &&& fields["version"@] == JsonModel::Text(version)
            &&& fields["blobs"@] == JsonModel::Number(JsonNumber::Pos(node.blobs))
            &&& fields["bytes"@] == JsonModel::Number(JsonNumber::Pos(node.bytes))
            &&& fields["root"@] == JsonModel::Text(node.root@)
        }),
{
    reveal_strlit("service");
    reveal_strlit("version");
    reveal_strlit("blobs");
    reveal_strlit("bytes");
    reveal_strlit("root");
    assert("service"@[0] == 's' && "version"@[0] == 'v' && "root"@[0] == 'r');
    assert("blobs"@[1] == 'l' && "bytes"@[1] == 'y' && "blobs"@[0] == 'b' && "bytes"@[0] == 'b');
    assert(health_of(node, version)->Object_0.dom() =~= set![
        "service"@,
        "version"@,
        "blobs"@,
        "bytes"@,
        "root"@,
    ]);
}

} // verus!
