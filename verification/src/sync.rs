//! Pulling the blobs that a peer has and this node lacks, one after the other.

use vstd::prelude::*;
use vstd::string::*;

use crate::blob::{
    blob_path, fanout, hex_ok, is_hex64, lemma_fanout_hex, BlobPath, Blobs, Entry,
};
use crate::digest::{sha256_hex, sha256_text};
use crate::json::{
    array_model, json_parse, lemma_array_model, list_field, parse_json, text_field,
    texts_of, Json, JsonModel, JsonNumber,
};
use crate::service::{law_manifest_holds_every_blob, manifest_of};
use crate::text::{cat, cat3, same, strip_end, strip_start, stripped_end, stripped_start};
use crate::text_laws::{law_strip_end, law_strip_start};

verus! {

/// A peer as it is written, without `http://` before it and `/` behind it.
pub open spec fn peer_of(text: Seq<char>) -> Seq<char> {
    stripped_end(stripped_start(text, "http://"@), '/')
}

/// An error as it is sent back.
pub open spec fn error_json(e: Seq<char>) -> JsonModel {
    JsonModel::Object(map!["error"@ => JsonModel::Text(e)])
}

/// Builds an error as it is sent back.
pub fn error_reply(e: &str) -> (r: Json)
    ensures
        r.model() == error_json(e@),
{
    Json::object().with("error", Json::text(e))
}

/// The peer that a request names, or the error to send back.
pub fn sync_peer(req: &Json) -> (r: Result<String, Json>)
    ensures
        match r {
            Ok(peer) => text_field(req.model(), "peer"@) is Some && peer@ == peer_of(
                text_field(req.model(), "peer"@)->0,
            ),
            Err(e) => text_field(req.model(), "peer"@) is None && e.model() == error_json(
                "body must be {\"peer\":\"host:port\"}"@,
            ),
        },
{
    match req.get_text("peer") {
        Some(text) => Ok(strip_end(&strip_start(&text, "http://"), '/')),
        None => Err(error_reply("body must be {\"peer\":\"host:port\"}")),
    }
}

/// The names in a peer's list that can name a blob.
pub open spec fn names_in(items: Seq<JsonModel>) -> Seq<Seq<char>>
    decreases items.len(),
{
    if items.len() == 0 {
        Seq::empty()
    } else {
        let rest = names_in(items.drop_last());
        match text_field(items.last(), "hash"@) {
            Some(name) => if is_hex64(name) {
                rest.push(name)
            } else {
                rest
            },
            None => rest,
        }
    }
}

/// The names that a peer lists.
pub open spec fn listed_names(manifest: JsonModel) -> Seq<Seq<char>> {
    match list_field(manifest, "blobs"@) {
        Some(items) => names_in(items),
        None => Seq::empty(),
    }
}

/// What is to be done about a name.
pub enum SyncStep {
    /// Look whether its blob is there.
    Probe,
    /// Fetch the blob from the peer.
    Fetch,
    /// Store what the peer sent.
    Store,
}

/// What is to be done next.
pub enum SyncAction {
    /// Look whether this file is there.
    Probe(BlobPath),
    /// Fetch this path from the peer.
    Fetch(String),
    /// Store the data that was sent under this name.
    Store(String),
    /// Send the report back.
    Report,
}

/// What came of it.
pub enum SyncEvent {
    /// The file is there, or not.
    Exists(bool),
    /// The peer sent these bytes.
    Fetched(Vec<u8>),
    /// What was to be stored is.
    Stored,
    /// The fetching or storing failed.
    Failed(String),
}

/// The state of a pull: the names, how many of them have been dealt with, the data
/// that is to be stored, and what came of the names.
pub struct Sync {
    pub peer: String,
    pub names: Vec<String>,
    pub at: usize,
    pub step: SyncStep,
    pub data: Vec<u8>,
    pub pulled: u64,
    pub skipped: u64,
    pub bytes: u64,
    pub errors: Vec<String>,
}

/// A [`Sync`] as mathematics.
pub struct SyncModel {
    pub peer: Seq<char>,
    pub names: Seq<Seq<char>>,
    pub at: nat,
    pub step: SyncStep,
    pub data: Seq<u8>,
    pub pulled: nat,
    pub skipped: nat,
    pub bytes: nat,
    pub errors: Seq<Seq<char>>,
}

impl View for Sync {
    type V = SyncModel;

    open spec fn view(&self) -> SyncModel {
        SyncModel {
            peer: self.peer@,
            names: texts_of(self.names@),
            at: self.at as nat,
            step: self.step,
            data: self.data@,
            pulled: self.pulled as nat,
            skipped: self.skipped as nat,
            bytes: self.bytes as nat,
            errors: texts_of(self.errors@),
        }
    }
}

/// A pull of these names that has not begun.
pub open spec fn sync_start(peer: Seq<char>, names: Seq<Seq<char>>) -> SyncModel {
    SyncModel {
        peer,
        names,
        at: 0,
        step: SyncStep::Probe,
        data: Seq::empty(),
        pulled: 0,
        skipped: 0,
        bytes: 0,
        errors: Seq::empty(),
    }
}

impl SyncModel {
    /// Each name that has been dealt with was pulled, skipped or reported; data to be
    /// stored has the name at hand for digest.
    pub open spec fn wf(self) -> bool {
        &&& self.at <= self.names.len()
        &&& self.pulled + self.skipped + self.errors.len() == self.at
        &&& forall|i: int| 0 <= i < self.names.len() ==> is_hex64(#[trigger] self.names[i])
        &&& self.busy() && self.step is Store ==> sha256_text(self.data) == self.name()
    }

    /// There is a name to deal with.
    pub open spec fn busy(self) -> bool {
        self.at < self.names.len()
    }

    /// The name to deal with.
    pub open spec fn name(self) -> Seq<char> {
        self.names[self.at as int]
    }

    pub open spec fn with_step(self, step: SyncStep) -> SyncModel {
        SyncModel { step, ..self }
    }

    /// The blob is there already.
    pub open spec fn present(self) -> SyncModel {
        SyncModel {
            at: self.at + 1,
            step: SyncStep::Probe,
            data: Seq::empty(),
            skipped: self.skipped + 1,
            ..self
        }
    }

    /// Something went wrong with the blob.
    pub open spec fn failed(self, e: Seq<char>) -> SyncModel {
        SyncModel {
            at: self.at + 1,
            step: SyncStep::Probe,
            data: Seq::empty(),
            errors: self.errors.push(self.name() + ": "@ + e),
            ..self
        }
    }

    /// The blob is stored, and its bytes count.
    pub open spec fn stored(self) -> SyncModel {
        SyncModel {
            at: self.at + 1,
            step: SyncStep::Probe,
            data: Seq::empty(),
            pulled: self.pulled + 1,
            bytes: self.bytes + self.data.len(),
            ..self
        }
    }

    /// The peer sent this data.
    pub open spec fn sent(self, data: Seq<u8>) -> SyncModel {
        SyncModel { data, ..self }
    }

    /// What the peer sent has the digest `got`: it is stored under its own name only.
    pub open spec fn judged(self, got: Seq<char>) -> SyncModel {
        if got == self.name() {
            self.with_step(SyncStep::Store)
        } else {
            self.failed("digest mismatch on pull"@)
        }
    }

    /// How a pull goes on after what came of its step: a blob that is there is skipped;
    /// one that is not is fetched, and stored if its digest is its name; what fails is
    /// reported. An event that does not fit changes nothing.
    pub open spec fn next(self, event: SyncEvent) -> SyncModel {
        if !self.busy() {
            self
        } else {
            match (self.step, event) {
                (SyncStep::Probe, SyncEvent::Exists(there)) => if there {
                    self.present()
                } else {
                    self.with_step(SyncStep::Fetch)
                },
                (SyncStep::Fetch, SyncEvent::Fetched(data)) => self.sent(data@).judged(
                    sha256_text(data@),
                ),
                (SyncStep::Store, SyncEvent::Stored) => self.stored(),
                (SyncStep::Fetch, SyncEvent::Failed(e)) => self.failed(e@),
                (SyncStep::Store, SyncEvent::Failed(e)) => self.failed(e@),
                _ => self,
            }
        }
    }
}

impl Sync {
    /// Starts to pull what a peer lists.
    pub fn from_list(peer: &str, manifest: &Json) -> (r: Sync)
        ensures
            r@ == sync_start(peer@, listed_names(manifest.model())),
            r@.wf(),
            forall|items: Seq<JsonModel>, names: Seq<Seq<char>>|
                list_field(manifest.model(), "blobs"@) == Some(items) && #[trigger] items_name(
                    items,
                    names,
                ) ==> r@.names == names,
    {
        let mut names: Vec<String> = Vec::new();
        if let Some(items) = manifest.get_list("blobs") {
            let mut i: usize = 0;
            proof {
                lemma_array_model(items@);
            }
            let ghost all = array_model(items@);
            assert(texts_of(names@) == names_in(all.take(0)));
            while i < items.len()
                invariant
                    i <= items@.len(),
                    all == array_model(items@),
                    all.len() == items@.len(),
                    forall|k: int| 0 <= k < all.len() ==> #[trigger] all[k] == items@[k].model(),
                    texts_of(names@) == names_in(all.take(i as int)),
                    forall|k: int| 0 <= k < names@.len() ==> is_hex64((#[trigger] names@[k])@),
                decreases items@.len() - i,
            {
                let ghost before = names@;
                assert(all.take(i + 1).drop_last() == all.take(i as int));
                assert(all.take(i + 1).last() == items@[i as int].model());
                if let Some(name) = items[i].get_text("hash") {
                    if hex_ok(&name) {
                        names.push(name);
                        assert(texts_of(names@) == texts_of(before).push(name@));
                    }
                }
                i += 1;
            }
            assert(all.take(i as int) == all);
        }
        assert(texts_of(names@) == listed_names(manifest.model()));
        let r = Sync {
            peer: peer.to_owned(),
            names,
            at: 0,
            step: SyncStep::Probe,
            data: Vec::new(),
            pulled: 0,
            skipped: 0,
            bytes: 0,
            errors: Vec::new(),
        };
        assert(r@.errors =~= Seq::empty());
        assert(r@.data =~= Seq::empty());
        assert forall|items: Seq<JsonModel>, names: Seq<Seq<char>>|
            list_field(manifest.model(), "blobs"@) == Some(items) && #[trigger] items_name(
                items,
                names,
            ) implies r@.names == names by {
            lemma_items_name(items, names);
        }
        r
    }

    /// Starts to pull from what a peer sent for its list. A list that does not
    /// read is an empty one.
    pub fn start(peer: &str, sent: &[u8]) -> (r: Sync)
        ensures
            r@ == sync_start(
                peer@,
                match json_parse(sent@) {
                    Ok(manifest) => listed_names(manifest),
                    Err(_) => Seq::empty(),
                },
            ),
            r@.wf(),
    {
        match parse_json(sent) {
            Ok(manifest) => Sync::from_list(peer, &manifest),
            Err(_) => {
                let r = Sync::from_list(peer, &Json::object());
                assert(r@.names =~= Seq::empty());
                r
            },
        }
    }

    fn go_on(&mut self)
        requires
            old(self).at < old(self).names@.len(),
        ensures
            final(self)@ == (SyncModel {
                at: old(self)@.at + 1,
                step: SyncStep::Probe,
                data: Seq::empty(),
                ..old(self)@
            }),
    {
        let n = self.names.len();
        assert(self.at < n);
        self.at += 1;
        self.step = SyncStep::Probe;
        self.data = Vec::new();
        assert(self@.data =~= Seq::empty());
    }

    fn failed(&mut self, e: &str)
        requires
            old(self)@.busy(),
        ensures
            final(self)@ == old(self)@.failed(e@),
    {
        let line = cat3(&self.names[self.at], ": ", e);
        self.errors.push(line);
        assert(self@.errors =~= old(self)@.errors.push(line@));
        self.go_on();
    }

    /// Judges what the peer sent by its digest.
    pub fn judge(&mut self, got: &str)
        requires
            old(self)@.busy(),
        ensures
            final(self)@ == old(self)@.judged(got@),
    {
        if same(got, &self.names[self.at]) {
            self.step = SyncStep::Store;
        } else {
            self.failed("digest mismatch on pull");
        }
    }

    /// What is to be done next.
    pub fn action(&self) -> (r: SyncAction)
        requires
            self@.wf(),
        ensures
            !self@.busy() ==> r is Report,
            self@.busy() ==> match self.step {
                SyncStep::Probe => r matches SyncAction::Probe(p) && fanout(self@.name()) == Some(
                    (p.dir@, p.file@),
                ),
                SyncStep::Fetch => r matches SyncAction::Fetch(path) && path@ == "/cache/"@
                    + self@.name(),
                SyncStep::Store => r matches SyncAction::Store(name) && name@ == self@.name()
                    && is_hex64(name@) && name@ == sha256_text(self.data@),
            },
    {
        if self.at >= self.names.len() {
            return SyncAction::Report;
        }
        let name = &self.names[self.at];
        assert(self@.name() == name@);
        match self.step {
            SyncStep::Probe => {
                proof {
                    lemma_fanout_hex(name@);
                }
                match blob_path(name) {
                    Some(p) => SyncAction::Probe(p),
                    None => SyncAction::Report,
                }
            },
            SyncStep::Fetch => SyncAction::Fetch(cat("/cache/", name)),
            SyncStep::Store => SyncAction::Store(name.clone()),
        }
    }

    /// Goes on after what came of the last action.
    pub fn advance(&mut self, event: SyncEvent)
        requires
            old(self)@.wf(),
            old(self)@.busy() && old(self).step is Store && event is Stored ==> old(self).bytes
                + old(self).data@.len() <= u64::MAX,
        ensures
            final(self)@ == old(self)@.next(event),
            final(self)@.wf(),
    {
        proof {
            law_sync_stays_in_order(self@, event);
        }
        if self.at >= self.names.len() {
            return;
        }
        match (&self.step, event) {
            (SyncStep::Probe, SyncEvent::Exists(there)) => if there {
                let n = self.names.len();
                assert(self.at < n);
                self.skipped += 1;
                self.go_on();
            } else {
                self.step = SyncStep::Fetch;
            },
            (SyncStep::Fetch, SyncEvent::Fetched(data)) => {
                let got = sha256_hex(&data);
                self.data = data;
                self.judge(&got);
            },
            (SyncStep::Store, SyncEvent::Stored) => {
                let n = self.names.len();
                assert(self.at < n);
                let len = self.data.len();
                self.pulled += 1;
                self.bytes += len as u64;
                self.go_on();
            },
            (SyncStep::Fetch, SyncEvent::Failed(e)) => {
                self.failed(&e);
            },
            (SyncStep::Store, SyncEvent::Failed(e)) => {
                self.failed(&e);
            },
            _ => {},
        }
    }

    /// What came of it, as it is sent back.
    pub open spec fn report_of(self) -> JsonModel {
        JsonModel::Object(
            map![
                "peer"@ => JsonModel::Text(self.peer@),
                "pulled"@ => JsonModel::Number(JsonNumber::Pos(self.pulled)),
                "skipped"@ => JsonModel::Number(JsonNumber::Pos(self.skipped)),
                "bytes"@ => JsonModel::Number(JsonNumber::Pos(self.bytes)),
                "errors"@ => JsonModel::Array(
                    texts_of(self.errors@).map_values(|s: Seq<char>| JsonModel::Text(s)),
                ),
            ],
        )
    }

    /// Builds what is sent back.
    pub fn report(&self) -> (r: Json)
        ensures
            r.model() == self.report_of(),
    {
        Json::object().with("peer", Json::text(&self.peer)).with(
            "pulled",
            Json::number(self.pulled),
        ).with("skipped", Json::number(self.skipped)).with("bytes", Json::number(self.bytes)).with(
            "errors",
            Json::texts(&self.errors),
        )
    }
}

/// Whatever comes, a pull stays in order: each name is dealt with once, the names stay,
/// and only the data that the peer has sent, whose digest is the name at hand, comes to
/// be stored.
pub proof fn law_sync_stays_in_order(m: SyncModel, event: SyncEvent)
    requires
        m.wf(),
    ensures
        m.next(event).wf(),
        m.next(event).names == m.names,
        m.at <= m.next(event).at <= m.at + 1,
        m.next(event).step is Store && !(m.step is Store) ==> (event matches SyncEvent::Fetched(
            data,
        ) && m.next(event).data == data@ && sha256_text(data@) == m.name()),
        m.next(event).step is Store && m.step is Store ==> m.next(event).data == m.data,
{
}

/// Once a pull is over, each name that the peer listed was pulled, was there
/// already or is reported, and none twice.
pub proof fn law_every_name_is_accounted_for(m: SyncModel)
    requires
        m.wf(),
        !m.busy(),
    ensures
        m.pulled + m.skipped + m.errors.len() == m.names.len(),
{
}

/// What a pull and the blobs of this node come to after the turn of the name at hand,
/// where the peer sends `sent` for it and what is to be stored is.
pub open spec fn after_name(m: SyncModel, have: Blobs, sent: Vec<u8>) -> (SyncModel, Blobs) {
    let probed = m.next(SyncEvent::Exists(have.contains_key(m.name())));
    let fetched = probed.next(SyncEvent::Fetched(sent));
    if !(probed.step is Fetch) {
        (probed, have)
    } else if fetched.step is Store {
        (fetched.next(SyncEvent::Stored), have.insert(m.name(), fetched.data))
    } else {
        (fetched, have)
    }
}

/// What they come to after the turns of as many names as the peer sends bytes for.
pub open spec fn after_names(m: SyncModel, have: Blobs, sent: Seq<Vec<u8>>) -> (
    SyncModel,
    Blobs,
)
    decreases sent.len(),
{
    if sent.len() == 0 {
        (m, have)
    } else {
        let (m1, have1) = after_name(m, have, sent[0]);
        after_names(m1, have1, sent.drop_first())
    }
}

/// A pull from an honest peer brings all: where the peer sends for each name the bytes
/// that have it for digest, this node then has every one of them, no error is reported,
/// and what it had before is as it was.
pub proof fn law_sync_brings_all(m: SyncModel, have: Blobs, sent: Seq<Vec<u8>>)
    requires
        m.wf(),
        m.step is Probe,
        sent.len() == m.names.len() - m.at,
        forall|i: int|
            0 <= i < sent.len() ==> sha256_text((#[trigger] sent[i])@) == m.names[m.at + i],
    ensures
        ({
            let (end, got) = after_names(m, have, sent);
            &&& !end.busy()
            &&& end.errors == m.errors
            &&& forall|name: Seq<char>| #[trigger]
                have.contains_key(name) ==> got.contains_key(name) && got[name] == have[name]
            &&& forall|i: int|
                m.at <= i < m.names.len() ==> got.contains_key(#[trigger] m.names[i]) && (
                have.contains_key(m.names[i]) || sha256_text(got[m.names[i]]) == m.names[i])
        }),
    decreases sent.len(),
{
    if sent.len() > 0 {
        let (m1, have1) = after_name(m, have, sent[0]);
        let rest = sent.drop_first();
        assert(sha256_text(sent[0]@) == m.names[m.at as int]);
        assert(m1.at == m.at + 1 && m1.names == m.names && m1.errors == m.errors);
        assert forall|i: int| 0 <= i < rest.len() implies sha256_text((#[trigger] rest[i])@)
            == m1.names[m1.at + i] by {
            assert(rest[i] == sent[i + 1]);
        }
        law_sync_brings_all(m1, have1, rest);
        let (end, got) = after_names(m, have, sent);
        assert forall|name: Seq<char>| #[trigger]
            have.contains_key(name) implies got.contains_key(name) && got[name] == have[name] by {
            assert(have1.contains_key(name));
        }
        assert forall|i: int| m.at <= i < m.names.len() implies got.contains_key(
            #[trigger] m.names[i],
        ) && (have.contains_key(m.names[i]) || sha256_text(got[m.names[i]]) == m.names[i]) by {
            let name = m.names[i];
            assert(m1.names[i] == name);
            if have1.contains_key(name) {
                assert(got[name] == have1[name]);
            }
        }
    }
}

/// A pull stores nothing false: whatever a peer sends, each blob that this node has
/// afterwards and had not before has its digest for a name.
pub proof fn law_sync_stores_nothing_false(m: SyncModel, have: Blobs, sent: Seq<Vec<u8>>)
    requires
        m.wf(),
        m.step is Probe,
        sent.len() <= m.names.len() - m.at,
    ensures
        ({
            let got = after_names(m, have, sent).1;
            forall|name: Seq<char>| #[trigger]
                got.contains_key(name) && !have.contains_key(name) ==> sha256_text(got[name])
                    == name
        }),
    decreases sent.len(),
{
    if sent.len() > 0 {
        let (m1, have1) = after_name(m, have, sent[0]);
        let rest = sent.drop_first();
        law_sync_stores_nothing_false(m1, have1, rest);
        lemma_sync_keeps(m1, have1, rest);
        let probed = m.next(SyncEvent::Exists(have.contains_key(m.name())));
        law_sync_stays_in_order(m, SyncEvent::Exists(have.contains_key(m.name())));
        law_sync_stays_in_order(probed, SyncEvent::Fetched(sent[0]));
        let got = after_names(m, have, sent).1;
        assert forall|name: Seq<char>| #[trigger]
            got.contains_key(name) && !have.contains_key(name) implies sha256_text(got[name])
            == name by {
            if have1.contains_key(name) {
                let fetched = probed.next(SyncEvent::Fetched(sent[0]));
                assert(fetched.data == sent[0]@);
                assert(got[name] == have1[name]);
            } else {
                assert(got == after_names(m1, have1, rest).1);
                assert(after_names(m1, have1, rest).1.contains_key(name));
            }
        }
    }
}

proof fn lemma_sync_keeps(m: SyncModel, have: Blobs, sent: Seq<Vec<u8>>)
    requires
        m.wf(),
        m.step is Probe,
        sent.len() <= m.names.len() - m.at,
    ensures
        ({
            let got = after_names(m, have, sent).1;
            forall|name: Seq<char>| #[trigger]
                have.contains_key(name) ==> got.contains_key(name) && got[name] == have[name]
        }),
    decreases sent.len(),
{
    if sent.len() > 0 {
        let (m1, have1) = after_name(m, have, sent[0]);
        lemma_sync_keeps(m1, have1, sent.drop_first());
        let got = after_names(m, have, sent).1;
        assert forall|name: Seq<char>| #[trigger]
            have.contains_key(name) implies got.contains_key(name) && got[name] == have[name] by {
            assert(have1.contains_key(name));
        }
    }
}

/// The names in two lists put together are those in the one and then those in the other.
pub proof fn law_names_of_lists_join(a: Seq<JsonModel>, b: Seq<JsonModel>)
    ensures
        names_in(a + b) == names_in(a) + names_in(b),
    decreases b.len(),
{
    if b.len() == 0 {
        assert(a + b =~= a);
        assert(names_in(a) + names_in(b) =~= names_in(a));
    } else {
        law_names_of_lists_join(a, b.drop_last());
        assert((a + b).drop_last() =~= a + b.drop_last());
        assert((a + b).last() == b.last());
        assert(names_in(a + b) =~= names_in(a) + names_in(b));
    }
}

/// An item of a list gives its name where under `hash` it has a text of 64 hexadecimal
/// characters, and none otherwise.
pub proof fn law_item_gives_its_name(fields: Map<Seq<char>, JsonModel>, m: JsonModel)
    ensures
        fields.contains_key("hash"@) ==> match fields["hash"@] {
            JsonModel::Text(name) => names_in(seq![JsonModel::Object(fields)]) == if is_hex64(
                name,
            ) {
                seq![name]
            } else {
                Seq::<Seq<char>>::empty()
            },
            _ => names_in(seq![JsonModel::Object(fields)]) == Seq::<Seq<char>>::empty(),
        },
        !fields.contains_key("hash"@) ==> names_in(seq![JsonModel::Object(fields)]) == Seq::<
            Seq<char>,
        >::empty(),
        !(m is Object) ==> names_in(seq![m]) == Seq::<Seq<char>>::empty(),
{
    let one = seq![JsonModel::Object(fields)];
    assert(one.drop_last() =~= Seq::<JsonModel>::empty());
    assert(seq![m].drop_last() =~= Seq::<JsonModel>::empty());
    assert(names_in(Seq::<JsonModel>::empty()) == Seq::<Seq<char>>::empty());
    match text_field(one.last(), "hash"@) {
        Some(name) => {
            assert(Seq::<Seq<char>>::empty().push(name) =~= seq![name]);
        },
        None => {},
    }
}

/// Item by item, the list gives the name of a blob under `hash`.
pub open spec fn items_name(items: Seq<JsonModel>, names: Seq<Seq<char>>) -> bool {
    &&& items.len() == names.len()
    &&& forall|i: int|
        0 <= i < items.len() ==> {
            &&& (#[trigger] items[i]) matches JsonModel::Object(fields)
            &&& fields.contains_key("hash"@)
            &&& fields["hash"@] == JsonModel::Text(names[i])
            &&& is_hex64(names[i])
        }
}

proof fn lemma_items_name(items: Seq<JsonModel>, names: Seq<Seq<char>>)
    requires
        items_name(items, names),
    ensures
        names_in(items) == names,
    decreases items.len(),
{
    if items.len() > 0 {
        let first = items.drop_last();
        assert forall|i: int| 0 <= i < first.len() implies {
            &&& (#[trigger] first[i]) matches JsonModel::Object(fields)
            &&& fields.contains_key("hash"@)
            &&& fields["hash"@] == JsonModel::Text(names.drop_last()[i])
            &&& is_hex64(names.drop_last()[i])
        } by {
            assert(first[i] == items[i]);
        }
        lemma_items_name(first, names.drop_last());
        assert(items[items.len() - 1] is Object);
        assert(names_in(items) =~= names);
    } else {
        assert(names_in(items) =~= names);
    }
}

/// Each name that a peer lists is dealt with: where the items of its list give these names,
/// the pull that starts has exactly these, all of them and in order, and none of them has
/// been dealt with.
pub proof fn law_sync_takes_every_name(
    peer: Seq<char>,
    fields: Map<Seq<char>, JsonModel>,
    items: Seq<JsonModel>,
    names: Seq<Seq<char>>,
)
    requires
        fields.contains_key("blobs"@),
        fields["blobs"@] == JsonModel::Array(items),
        items_name(items, names),
    ensures
        ({
            let m = sync_start(peer, listed_names(JsonModel::Object(fields)));
            &&& m.names == names
            &&& m.peer == peer
            &&& m.at == 0
            &&& m.step is Probe
            &&& m.pulled == 0
            &&& m.skipped == 0
            &&& m.bytes == 0
            &&& m.errors.len() == 0
        }),
{
    lemma_items_name(items, names);
}

/// Where there is no list of blobs, there is nothing to pull.
pub proof fn law_sync_without_a_list(m: JsonModel)
    requires
        m matches JsonModel::Object(fields) ==> !fields.contains_key("blobs"@)
            || !(fields["blobs"@] is Array),
    ensures
        listed_names(m).len() == 0,
{
}

/// The names in what a node answers to a request for its list are those of all its blobs.
pub proof fn law_sync_reads_the_manifest(entries: Seq<Entry>)
    requires
        entries.len() <= u64::MAX,
        forall|i: int| 0 <= i < entries.len() ==> is_hex64((#[trigger] entries[i]).0),
    ensures
        listed_names(manifest_of(entries)).len() == entries.len(),
        forall|i: int|
            0 <= i < entries.len() ==> #[trigger] listed_names(manifest_of(entries))[i]
                == entries[i].0,
{
    law_manifest_holds_every_blob(entries);
    let fields = manifest_of(entries)->Object_0;
    let items = fields["blobs"@]->Array_0;
    let names = Seq::new(entries.len(), |i: int| entries[i].0);
    assert(fields.dom().contains("blobs"@));
    assert forall|i: int| 0 <= i < items.len() implies {
        &&& (#[trigger] items[i]) matches JsonModel::Object(item)
        &&& item.contains_key("hash"@)
        &&& item["hash"@] == JsonModel::Text(names[i])
        &&& is_hex64(names[i])
    } by {
        assert(is_hex64(entries[i].0));
        assert(items[i]->Object_0.dom().contains("hash"@));
    }
    law_sync_takes_every_name(Seq::empty(), fields, items, names);
}

/// A node that pulls from another what it lists has afterwards every one of its blobs,
/// where the other sends them, and reports no error.
pub proof fn law_node_pulls_all_of_another(
    peer: Seq<char>,
    entries: Seq<Entry>,
    have: Blobs,
    sent: Seq<Vec<u8>>,
)
    requires
        entries.len() <= u64::MAX,
        sent.len() == entries.len(),
        forall|i: int| 0 <= i < entries.len() ==> is_hex64((#[trigger] entries[i]).0),
        forall|i: int| 0 <= i < sent.len() ==> sha256_text((#[trigger] sent[i])@) == entries[i].0,
    ensures
        ({
            let m = sync_start(peer, listed_names(manifest_of(entries)));
            let (end, got) = after_names(m, have, sent);
            &&& !end.busy()
            &&& end.errors.len() == 0
            &&& end.pulled + end.skipped == entries.len()
            &&& forall|i: int|
                0 <= i < entries.len() ==> got.contains_key((#[trigger] entries[i]).0)
        }),
{
    law_sync_reads_the_manifest(entries);
    let names = listed_names(manifest_of(entries));
    let m = sync_start(peer, names);
    assert forall|i: int| 0 <= i < names.len() implies is_hex64(#[trigger] names[i]) by {
        assert(names[i] == entries[i].0);
    }
    assert(m.wf());
    assert forall|i: int| 0 <= i < sent.len() implies sha256_text((#[trigger] sent[i])@)
        == m.names[m.at + i] by {
        assert(names[i] == entries[i].0);
    }
    law_sync_brings_all(m, have, sent);
    lemma_names_done(m, have, sent);
    let (end, got) = after_names(m, have, sent);
    assert forall|i: int| 0 <= i < entries.len() implies got.contains_key(
        (#[trigger] entries[i]).0,
    ) by {
        assert(names[i] == entries[i].0);
        assert(got.contains_key(m.names[i]));
    }
}

proof fn lemma_names_done(m: SyncModel, have: Blobs, sent: Seq<Vec<u8>>)
    requires
        m.wf(),
        m.step is Probe,
        sent.len() <= m.names.len() - m.at,
    ensures
        after_names(m, have, sent).0.wf(),
        after_names(m, have, sent).0.names == m.names,
        after_names(m, have, sent).0.at == m.at + sent.len(),
    decreases sent.len(),
{
    if sent.len() > 0 {
        let there = SyncEvent::Exists(have.contains_key(m.name()));
        let probed = m.next(there);
        law_sync_stays_in_order(m, there);
        law_sync_stays_in_order(probed, SyncEvent::Fetched(sent[0]));
        law_sync_stays_in_order(probed.next(SyncEvent::Fetched(sent[0])), SyncEvent::Stored);
        let (m1, have1) = after_name(m, have, sent[0]);
        lemma_names_done(m1, have1, sent.drop_first());
    }
}

/// The turn of a name: where its blob is there it is skipped; otherwise it is fetched, and
/// what the peer sent is stored where the name is its digest. Each blob that is stored
/// counts with all its bytes, and whatever fails is reported with the name and the error.
pub proof fn law_turn_of_a_name(m: SyncModel, data: Vec<u8>, e: String)
    requires
        m.at < m.names.len(),
    ensures
        m.step is Probe ==> {
            &&& m.next(SyncEvent::Exists(true)) == (SyncModel {
                at: m.at + 1,
                data: Seq::empty(),
                skipped: m.skipped + 1,
                ..m
            })
            &&& m.next(SyncEvent::Exists(false)) == (SyncModel { step: SyncStep::Fetch, ..m })
        },
        m.step is Fetch ==> {
            &&& sha256_text(data@) == m.names[m.at as int] ==> m.next(SyncEvent::Fetched(data))
                == (SyncModel { step: SyncStep::Store, data: data@, ..m })
            &&& sha256_text(data@) != m.names[m.at as int] ==> m.next(SyncEvent::Fetched(data))
                == (SyncModel {
                at: m.at + 1,
                step: SyncStep::Probe,
                data: Seq::empty(),
                errors: m.errors.push(m.names[m.at as int] + ": "@ + "digest mismatch on pull"@),
                ..m
            })
        },
        m.step is Store ==> m.next(SyncEvent::Stored) == (SyncModel {
            at: m.at + 1,
            step: SyncStep::Probe,
            data: Seq::empty(),
            pulled: m.pulled + 1,
            bytes: m.bytes + m.data.len(),
            ..m
        }),
        m.step is Fetch || m.step is Store ==> m.next(SyncEvent::Failed(e)) == (SyncModel {
            at: m.at + 1,
            step: SyncStep::Probe,
            data: Seq::empty(),
            errors: m.errors.push(m.names[m.at as int] + ": "@ + e@),
            ..m
        }),
{
}

/// The report holds what came of the pull: the peer, how many blobs were pulled and
/// skipped, how many bytes, and every error in its place.
pub proof fn law_report_holds_everything(s: Sync)
    ensures
        s.report_of() matches JsonModel::Object(fields) && {
            &&& fields.dom() == set!["peer"@, "pulled"@, "skipped"@, "bytes"@, "errors"@]
            &&& fields["peer"@] == JsonModel::Text(s.peer@)
            &&& fields["pulled"@] == JsonModel::Number(JsonNumber::Pos(s.pulled))
            &&& fields["skipped"@] == JsonModel::Number(JsonNumber::Pos(s.skipped))
            &&& fields["bytes"@] == JsonModel::Number(JsonNumber::Pos(s.bytes))
            &&& fields["errors"@] matches JsonModel::Array(errors)
            &&& errors.len() == s.errors@.len()
            &&& forall|i: int|
                0 <= i < errors.len() ==> #[trigger] errors[i] == JsonModel::Text(s.errors@[i]@)
        },
{
    reveal_strlit("peer");
    reveal_strlit("pulled");
    reveal_strlit("skipped");
    reveal_strlit("bytes");
    reveal_strlit("errors");
    assert("peer"@.len() == 4 && "pulled"@.len() == 6 && "skipped"@.len() == 7);
    assert("bytes"@.len() == 5 && "errors"@.len() == 6);
    assert("pulled"@[0] == 'p' && "errors"@[0] == 'e');
    assert(s.report_of()->Object_0.dom() =~= set![
        "peer"@,
        "pulled"@,
        "skipped"@,
        "bytes"@,
        "errors"@,
    ]);
}

/// An error is sent back as it is, and nothing beside it.
pub proof fn law_error_is_sent_back(e: Seq<char>)
    ensures
        error_json(e) == JsonModel::Object(
            Map::<Seq<char>, JsonModel>::empty().insert("error"@, JsonModel::Text(e)),
        ),
{
    assert(error_json(e)->Object_0 =~= Map::<Seq<char>, JsonModel>::empty().insert(
        "error"@,
        JsonModel::Text(e),
    ));
}

/// A peer is known with and without `http://` before it and `/` behind it.
pub proof fn law_peer_is_known(peer: Seq<char>)
    requires
        peer.len() > 0,
        peer.last() != '/',
        !"http://"@.is_prefix_of(peer),
        !"http://"@.is_prefix_of(peer.push('/')),
    ensures
        peer_of(peer) == peer,
        peer_of("http://"@ + peer) == peer,
        peer_of(peer.push('/')) == peer,
        peer_of("http://"@ + peer.push('/')) == peer,
{
    reveal_strlit("http://");
    law_strip_start("http://"@, peer);
    law_strip_start("http://"@, peer.push('/'));
    law_strip_end(peer, '/');
}

/// What the peer sent is judged by its digest, whatever that is: it is stored only under
/// the name that is its digest, and otherwise reported.
pub proof fn law_sent_data_is_judged(m: SyncModel, got: Seq<char>)
    requires
        m.at < m.names.len(),
    ensures
        got == m.names[m.at as int] ==> m.judged(got) == (SyncModel {
            step: SyncStep::Store,
            ..m
        }),
        got != m.names[m.at as int] ==> m.judged(got) == (SyncModel {
            at: m.at + 1,
            step: SyncStep::Probe,
            data: Seq::empty(),
            errors: m.errors.push(m.names[m.at as int] + ": "@ + "digest mismatch on pull"@),
            ..m
        }),
{
}

/// What does not fit the step of a pull changes nothing, and nothing does once all names
/// have been dealt with.
pub proof fn law_what_does_not_fit_a_sync(m: SyncModel, event: SyncEvent)
    ensures
        m.step is Probe && !(event is Exists) ==> m.next(event) == m,
        m.step is Fetch && !(event is Fetched) && !(event is Failed) ==> m.next(event) == m,
        m.step is Store && !(event is Stored) && !(event is Failed) ==> m.next(event) == m,
        m.at >= m.names.len() ==> m.next(event) == m,
{
}

/// The names of a list are those among all its items, and nothing else in it matters.
pub proof fn law_names_are_those_of_the_items(
    fields: Map<Seq<char>, JsonModel>,
    items: Seq<JsonModel>,
)
    requires
        fields.contains_key("blobs"@),
        fields["blobs"@] == JsonModel::Array(items),
    ensures
        listed_names(JsonModel::Object(fields)) == names_in(items),
{
}

/// A pull is seen as it is.
pub proof fn law_sync_is_seen(s: Sync)
    ensures
        s@.peer == s.peer@,
        s@.names.len() == s.names@.len(),
        forall|i: int| 0 <= i < s.names@.len() ==> #[trigger] s@.names[i] == s.names@[i]@,
        s@.at == s.at,
        s@.step == s.step,
        s@.data == s.data@,
        s@.pulled == s.pulled,
        s@.skipped == s.skipped,
        s@.bytes == s.bytes,
        s@.errors.len() == s.errors@.len(),
        forall|i: int| 0 <= i < s.errors@.len() ==> #[trigger] s@.errors[i] == s.errors@[i]@,
{
}

} // verus!
