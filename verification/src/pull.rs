//! The side of a mesh that pulls: it asks for the list, then for each blob that
//! it lacks, puts the frames together and stores what has the right digest.

use vstd::prelude::*;
use vstd::slice::*;
use vstd::string::*;
use vstd::utf8::*;

use crate::blob::{
    blob_path, entries_of, fanout, is_hex64, law_fanout_cuts_after_two_bytes, lemma_digest_is_hex,
    BlobPath, Entry,
};
use crate::digest::{lemma_digest_name, sha256_hex, sha256_text};
use crate::frames::HEADER;
use crate::json::{
    array_model, json_parse, lemma_array_model, list_field, parse_json, text_field, u64_field,
    Json, JsonModel, JsonNumber,
};
use crate::text::{
    byte_prefix, bytes_text, cat, cut, lossy, same, same_bytes, starts_with,
    trim, trimmed,
};

verus! {

/// A blob that a list names: what stands for its name, and for its size.
pub open spec fn wanted_of(item: JsonModel) -> Entry {
    (
        match text_field(item, "hash"@) {
            Some(name) => name,
            None => Seq::empty(),
        },
        match u64_field(item, "size"@) {
            Some(size) => size,
            None => 0,
        },
    )
}

/// The blobs that a list names.
pub open spec fn wanted_in(list: JsonModel) -> Seq<Entry> {
    match list_field(list, "blobs"@) {
        Some(items) => items.map_values(|item: JsonModel| wanted_of(item)),
        None => Seq::empty(),
    }
}

/// What the first message of the other side tells: the blobs that it has, or
/// why it cannot be used.
pub open spec fn list_told(text: Seq<char>) -> Result<Seq<Entry>, Seq<char>> {
    if !"MANIFEST "@.is_prefix_of(text) {
        Err("unexpected first message: "@ + byte_prefix(text, 40))
    } else {
        match json_parse(encode_utf8(trimmed(text.skip("MANIFEST "@.len() as int)))) {
            Ok(list) => Ok(wanted_in(list)),
            Err(e) => Err(e),
        }
    }
}

/// What is to be done next.
pub enum PullStep {
    /// Ask for the list.
    Hello,
    /// Wait for the list.
    List,
    /// Look whether the blob is there.
    Probe,
    /// Ask for the blob.
    Ask,
    /// Wait for a frame of the blob.
    Receive,
    /// Store the blob.
    Store,
    /// Say that all is done.
    Finish,
    /// Nothing: the pull is over.
    Over,
    /// Nothing: the pull failed.
    Failed(String),
}

/// A [`PullStep`] as mathematics.
pub enum StepModel {
    Hello,
    List,
    Probe,
    Ask,
    Receive,
    Store,
    Finish,
    Over,
    Failed(Seq<char>),
}

/// What came of it.
pub enum PullEvent {
    /// A message: whether it was sent as text, and its bytes.
    Message(bool, Vec<u8>),
    /// No message in time.
    Timeout,
    /// The channel is closed.
    Closed,
    /// The blob is there, or not.
    Exists(bool),
    /// What was to be sent or stored is.
    Done,
    /// It could not be sent or stored.
    Error(String),
}

/// A pull: the blobs of the list, which of them is at hand, and the data of it
/// that has come.
pub struct Pull {
    pub blobs: Vec<(String, u64)>,
    pub at: usize,
    pub step: PullStep,
    pub buf: Vec<u8>,
    pub pulled: u64,
    pub skipped: u64,
}

/// A [`Pull`] as mathematics.
pub struct PullModel {
    pub blobs: Seq<Entry>,
    pub at: nat,
    pub step: StepModel,
    pub buf: Seq<u8>,
    pub pulled: nat,
    pub skipped: nat,
}

impl View for PullStep {
    type V = StepModel;

    open spec fn view(&self) -> StepModel {
        match self {
            PullStep::Hello => StepModel::Hello,
            PullStep::List => StepModel::List,
            PullStep::Probe => StepModel::Probe,
            PullStep::Ask => StepModel::Ask,
            PullStep::Receive => StepModel::Receive,
            PullStep::Store => StepModel::Store,
            PullStep::Finish => StepModel::Finish,
            PullStep::Over => StepModel::Over,
            PullStep::Failed(e) => StepModel::Failed(e@),
        }
    }
}

impl View for Pull {
    type V = PullModel;

    open spec fn view(&self) -> PullModel {
        PullModel {
            blobs: entries_of(self.blobs@),
            at: self.at as nat,
            step: self.step@,
            buf: self.buf@,
            pulled: self.pulled as nat,
            skipped: self.skipped as nat,
        }
    }
}

/// A name that can be asked for: 64 bytes that make a path.
pub open spec fn askable(name: Seq<char>) -> bool {
    encode_utf8(name).len() == 64 && fanout(name) is Some
}

/// The first blob from `at` on whose name can be asked for.
pub open spec fn next_askable(blobs: Seq<Entry>, at: nat) -> nat
    decreases blobs.len() - at,
{
    if at >= blobs.len() || askable(blobs[at as int].0) {
        at
    } else {
        next_askable(blobs, at + 1)
    }
}

/// The message that the blob of this name is missing.
pub open spec fn miss_message(name: Seq<char>) -> Seq<u8> {
    encode_utf8("MISS "@ + name)
}

impl PullModel {
    /// What the other side has to be asked for next; names that cannot be asked
    /// for are skipped.
    pub open spec fn settled(self) -> PullModel {
        let next = next_askable(self.blobs, self.at);
        PullModel {
            at: next,
            step: if next < self.blobs.len() {
                StepModel::Probe
            } else {
                StepModel::Finish
            },
            buf: Seq::empty(),
            skipped: (self.skipped + next - self.at) as nat,
            ..self
        }
    }

    pub open spec fn with_step(self, step: StepModel) -> PullModel {
        PullModel { step, ..self }
    }

    pub open spec fn failed(self, e: Seq<char>) -> PullModel {
        self.with_step(StepModel::Failed(e))
    }

    /// The blob at hand is done with: it was not needed, or is not to be had.
    pub open spec fn skip_blob(self) -> PullModel {
        PullModel { at: self.at + 1, skipped: self.skipped + 1, ..self }.settled()
    }

    /// The blob at hand is done with: it has been stored.
    pub open spec fn keep_blob(self) -> PullModel {
        PullModel { at: self.at + 1, pulled: self.pulled + 1, ..self }.settled()
    }

    /// The name of the blob at hand.
    pub open spec fn name(self) -> Seq<char> {
        self.blobs[self.at as int].0
    }

    /// The data that has come, whose digest is `got`, is enough: it is stored
    /// under its own name only. Of a blob that is empty there is nothing to
    /// store.
    pub open spec fn judged(self, got: Seq<char>) -> PullModel {
        if self.buf.len() < self.blobs[self.at as int].1 {
            self.with_step(StepModel::Receive)
        } else if self.buf.len() == 0 {
            self.skip_blob()
        } else if got == self.name() {
            self.with_step(StepModel::Store)
        } else {
            self.failed("integrity FAIL: got "@ + got)
        }
    }

    /// A message while a blob is coming. That the blob is missing is known by what the
    /// message says, however it was sent; of a text, how it begins is enough.
    pub open spec fn received(self, is_text: bool, data: Seq<u8>) -> PullModel {
        if data == miss_message(self.name()) {
            self.skip_blob()
        } else if is_text {
            if "MISS"@.is_prefix_of(bytes_text(data)) {
                self.skip_blob()
            } else {
                self.failed("control msg mid-transfer: "@ + byte_prefix(bytes_text(data), 40))
            }
        } else if data.len() < HEADER {
            self.failed("short chunk header"@)
        } else {
            let more = PullModel { buf: self.buf + data.skip(HEADER as int), ..self };
            more.judged(sha256_text(more.buf))
        }
    }

    /// How a pull goes on after what came of its step.
    pub open spec fn next(self, event: PullEvent) -> PullModel {
        match (self.step, event) {
            (StepModel::Hello, PullEvent::Done) => self.with_step(StepModel::List),
            (StepModel::Hello, PullEvent::Error(e)) => self.failed(e@),
            (StepModel::List, PullEvent::Message(_, data)) => match list_told(bytes_text(data@)) {
                Ok(blobs) => PullModel { blobs, at: 0, ..self }.settled(),
                Err(e) => self.failed(e),
            },
            (StepModel::List, PullEvent::Timeout) => self.failed("timeout waiting MANIFEST"@),
            (StepModel::List, PullEvent::Closed) => self.failed("channel closed"@),
            (StepModel::Probe, PullEvent::Exists(there)) => if there {
                self.skip_blob()
            } else {
                self.with_step(StepModel::Ask)
            },
            (StepModel::Ask, PullEvent::Done) => self.judged(sha256_text(self.buf)),
            (StepModel::Ask, PullEvent::Error(e)) => self.failed(e@),
            (StepModel::Receive, PullEvent::Message(is_text, data)) => self.received(
                is_text,
                data@,
            ),
            (StepModel::Receive, PullEvent::Timeout) => self.failed("timeout waiting chunk"@),
            (StepModel::Receive, PullEvent::Closed) => self.failed("channel closed"@),
            (StepModel::Store, PullEvent::Done) => self.keep_blob(),
            (StepModel::Store, PullEvent::Error(e)) => self.failed(e@),
            (StepModel::Finish, PullEvent::Done) => self.with_step(StepModel::Over),
            (StepModel::Finish, PullEvent::Error(_)) => self.with_step(StepModel::Over),
            _ => self,
        }
    }

    /// Each blob before the one at hand was stored or skipped; the one at hand
    /// has a name that can be asked for; data to be stored has it for digest.
    pub open spec fn wf(self) -> bool {
        &&& self.at <= self.blobs.len()
        &&& self.pulled + self.skipped == self.at
        &&& self.step is Probe || self.step is Ask || self.step is Receive || self.step is Store
            ==> self.at < self.blobs.len() && askable(self.name())
        &&& self.step is Probe || self.step is Ask ==> self.buf.len() == 0
        &&& self.step is Store ==> sha256_text(self.buf) == self.name() && self.buf.len() > 0
            && is_hex64(self.name())
        &&& self.step is Finish || self.step is Over ==> self.at == self.blobs.len()
        &&& self.step is Hello || self.step is List ==> self.at == 0 && self.buf.len() == 0
    }
}

proof fn lemma_next_askable(blobs: Seq<Entry>, at: nat)
    requires
        at <= blobs.len(),
    ensures
        at <= next_askable(blobs, at) <= blobs.len(),
        next_askable(blobs, at) < blobs.len() ==> askable(
            blobs[next_askable(blobs, at) as int].0,
        ),
    decreases blobs.len() - at,
{
    if at < blobs.len() && !askable(blobs[at as int].0) {
        lemma_next_askable(blobs, at + 1);
    }
}

/// Whatever comes, a pull stays in order: each blob is dealt with once, and only
/// data whose digest is its name comes to be stored.
pub proof fn law_pull_stays_in_order(m: PullModel, event: PullEvent)
    requires
        m.wf(),
    ensures
        m.next(event).wf(),
{
    lemma_digest_name(m.buf);
    lemma_digest_is_hex(sha256_text(m.buf));
    match (m.step, event) {
        (StepModel::Receive, PullEvent::Message(_, data)) => {
            let more = m.buf + data@.skip(HEADER as int);
            lemma_digest_name(more);
            lemma_digest_is_hex(sha256_text(more));
            lemma_next_askable(m.blobs, m.at + 1);
        },
        (StepModel::List, PullEvent::Message(_, data)) => match list_told(bytes_text(data@)) {
            Ok(blobs) => {
                lemma_next_askable(blobs, 0);
            },
            Err(_) => {},
        },
        _ => {
            if m.at < m.blobs.len() {
                lemma_next_askable(m.blobs, m.at + 1);
            }
        },
    }
}

/// Once a pull is over, each blob of the list was stored or skipped, and none twice.
pub proof fn law_every_blob_is_accounted_for(m: PullModel)
    requires
        m.wf(),
        m.step is Over,
    ensures
        m.pulled + m.skipped == m.blobs.len(),
{
}

/// Reads the blobs that a list names.
pub fn read_list(list: &Json) -> (r: Vec<(String, u64)>)
    ensures
        entries_of(r@) == wanted_in(list.model()),
{
    let mut out: Vec<(String, u64)> = Vec::new();
    if let Some(items) = list.get_list("blobs") {
        proof {
            lemma_array_model(items@);
        }
        let ghost all = array_model(items@);
        let mut i: usize = 0;
        while i < items.len()
            invariant
                i <= items@.len(),
                all == array_model(items@),
                all.len() == items@.len(),
                forall|k: int| 0 <= k < all.len() ==> #[trigger] all[k] == items@[k].model(),
                out@.len() == i,
                forall|k: int|
                    0 <= k < i ==> wanted_of(all[k]) == ((#[trigger] out@[k]).0@, out@[k].1),
            decreases items@.len() - i,
        {
            assert(all[i as int] == items@[i as int].model());
            let name = match items[i].get_text("hash") {
                Some(name) => name,
                None => String::new(),
            };
            let size: u64 = match items[i].get_u64("size") {
                Some(size) => size,
                None => 0,
            };
            out.push((name, size));
            i += 1;
        }
        assert(entries_of(out@) =~= all.map_values(|item: JsonModel| wanted_of(item)));
    }
    assert(entries_of(out@) =~= wanted_in(list.model()));
    out
}

/// Reads the first message of the other side.
pub fn read_told(text: &str) -> (r: Result<Vec<(String, u64)>, String>)
    ensures
        match r {
            Ok(blobs) => list_told(text@) == Ok::<Seq<Entry>, Seq<char>>(entries_of(blobs@)),
            Err(e) => list_told(text@) == Err::<Seq<Entry>, Seq<char>>(e@),
        },
{
    if !starts_with(text, "MANIFEST ") {
        return Err(cat("unexpected first message: ", &cut(text, 40)));
    }
    let from = "MANIFEST ".unicode_len();
    let n = text.unicode_len();
    let rest = text.substring_char(from, n);
    assert(rest@ == text@.skip("MANIFEST "@.len() as int));
    match parse_json(trim(rest).as_str().as_bytes()) {
        Ok(list) => Ok(read_list(&list)),
        Err(e) => Err(e),
    }
}

/// What is to be done next.
pub enum PullAction {
    /// Wait for a message.
    Receive,
    /// Look whether this file is there.
    Probe(BlobPath),
    /// Send this text.
    Say(String),
    /// Store the data that has come under this name.
    Store(String),
    /// Nothing: the pull is over.
    Over,
    /// Nothing: the pull failed.
    Failed(String),
}

/// Whether a name can be asked for.
pub fn can_ask(name: &str) -> (r: bool)
    ensures
        r == askable(name@),
{
    name.as_bytes().len() == 64 && blob_path(name).is_some()
}

impl Pull {
    /// A pull that has not begun.
    pub fn new() -> (r: Pull)
        ensures
            r@.wf(),
            r.step is Hello,
            r.blobs@.len() == 0,
            r.pulled == 0,
            r.skipped == 0,
    {
        let r = Pull {
            blobs: Vec::new(),
            at: 0,
            step: PullStep::Hello,
            buf: Vec::new(),
            pulled: 0,
            skipped: 0,
        };
        r
    }

    /// What is to be done next.
    pub fn action(&self) -> (r: PullAction)
        requires
            self@.wf(),
        ensures
            match self.step {
                PullStep::Hello => r matches PullAction::Say(t) && t@ == "PULL"@,
                PullStep::List => r is Receive,
                PullStep::Probe => r matches PullAction::Probe(p) && fanout(self@.name()) == Some(
                    (p.dir@, p.file@),
                ),
                PullStep::Ask => r matches PullAction::Say(t) && t@ == "GET "@ + self@.name(),
                PullStep::Receive => r is Receive,
                PullStep::Store => r matches PullAction::Store(name) && name@ == self@.name()
                    && is_hex64(name@) && name@ == sha256_text(self.buf@),
                PullStep::Finish => r matches PullAction::Say(t) && t@ == "DONE"@,
                PullStep::Over => r is Over,
                PullStep::Failed(e) => r == PullAction::Failed(e),
            },
    {
        match &self.step {
            PullStep::Hello => PullAction::Say("PULL".to_owned()),
            PullStep::List => PullAction::Receive,
            PullStep::Probe => {
                assert(self@.name() == self.blobs@[self.at as int].0@);
                match blob_path(&self.blobs[self.at].0) {
                    Some(p) => PullAction::Probe(p),
                    None => PullAction::Over,
                }
            },
            PullStep::Ask => PullAction::Say(cat("GET ", &self.blobs[self.at].0)),
            PullStep::Receive => PullAction::Receive,
            PullStep::Store => PullAction::Store(self.blobs[self.at].0.clone()),
            PullStep::Finish => PullAction::Say("DONE".to_owned()),
            PullStep::Over => PullAction::Over,
            PullStep::Failed(e) => PullAction::Failed(e.clone()),
        }
    }

    fn settle(&mut self)
        requires
            old(self)@.at <= old(self)@.blobs.len(),
            old(self)@.pulled + old(self)@.skipped == old(self)@.at,
        ensures
            final(self)@ == old(self)@.settled(),
    {
        let n = self.blobs.len();
        while self.at < n && !can_ask(&self.blobs[self.at].0)
            invariant
                n == self.blobs@.len(),
                self.blobs == old(self).blobs,
                self.pulled == old(self).pulled,
                self.step == old(self).step,
                old(self)@.at <= self.at <= n,
                self.skipped == old(self).skipped + (self.at - old(self).at),
                self.pulled + self.skipped == self.at,
                next_askable(old(self)@.blobs, old(self)@.at) == next_askable(
                    self@.blobs,
                    self@.at,
                ),
            decreases n - self.at,
        {
            self.at += 1;
            self.skipped += 1;
        }
        self.buf = Vec::new();
        self.step = if self.at < n {
            PullStep::Probe
        } else {
            PullStep::Finish
        };
    }

    fn skip_blob(&mut self)
        requires
            old(self)@.at < old(self)@.blobs.len(),
            old(self)@.pulled + old(self)@.skipped == old(self)@.at,
        ensures
            final(self)@ == old(self)@.skip_blob(),
    {
        let n = self.blobs.len();
        assert(self.at < n);
        self.at += 1;
        self.skipped += 1;
        self.settle();
    }

    /// Judges the data that has come by its digest.
    pub fn judge(&mut self, got: &str)
        requires
            old(self)@.at < old(self)@.blobs.len(),
            old(self)@.pulled + old(self)@.skipped == old(self)@.at,
        ensures
            final(self)@ == old(self)@.judged(got@),
    {
        assert(self@.blobs[self.at as int] == (
            self.blobs@[self.at as int].0@,
            self.blobs@[self.at as int].1,
        ));
        if (self.buf.len() as u64) < self.blobs[self.at].1 {
            self.step = PullStep::Receive;
        } else if self.buf.len() == 0 {
            self.skip_blob();
        } else if same(got, &self.blobs[self.at].0) {
            self.step = PullStep::Store;
        } else {
            self.step = PullStep::Failed(cat("integrity FAIL: got ", got));
        }
    }

    fn judge_data(&mut self)
        requires
            old(self)@.at < old(self)@.blobs.len(),
            old(self)@.pulled + old(self)@.skipped == old(self)@.at,
        ensures
            final(self)@ == old(self)@.judged(sha256_text(old(self)@.buf)),
    {
        assert(self@.blobs[self.at as int].1 == self.blobs@[self.at as int].1);
        if (self.buf.len() as u64) < self.blobs[self.at].1 {
            self.step = PullStep::Receive;
        } else {
            let got = sha256_hex(&self.buf);
            self.judge(&got);
        }
    }

    fn receive(&mut self, is_text: bool, data: &[u8])
        requires
            old(self)@.at < old(self)@.blobs.len(),
            old(self)@.pulled + old(self)@.skipped == old(self)@.at,
        ensures
            final(self)@ == old(self)@.received(is_text, data@),
    {
        let message = cat("MISS ", &self.blobs[self.at].0);
        assert(self@.name() == self.blobs@[self.at as int].0@);
        if same_bytes(data, message.as_str().as_bytes()) {
            self.skip_blob();
        } else if is_text {
            let text = lossy(data);
            if starts_with(&text, "MISS") {
                self.skip_blob();
            } else {
                self.step = PullStep::Failed(cat("control msg mid-transfer: ", &cut(&text, 40)));
            }
        } else if data.len() < HEADER {
            self.step = PullStep::Failed("short chunk header".to_owned());
        } else {
            let n = data.len();
            let part = slice_subrange(data, HEADER, n);
            assert(part@ == data@.skip(HEADER as int));
            self.buf.extend_from_slice(part);
            assert(self.buf@ == old(self).buf@ + part@);
            self.judge_data();
        }
    }

    /// Goes on after what came of the last action.
    pub fn advance(&mut self, event: PullEvent)
        requires
            old(self)@.wf(),
        ensures
            final(self)@ == old(self)@.next(event),
            final(self)@.wf(),
            old(self).step is List && event is Message ==> match list_told(
                bytes_text(event->Message_1@),
            ) {
                Ok(blobs) => final(self)@.blobs == blobs && final(self).blobs@.len()
                    == blobs.len(),
                Err(e) => final(self)@.step == StepModel::Failed(e),
            },
    {
        proof {
            law_pull_stays_in_order(self@, event);
        }
        match (&self.step, event) {
            (PullStep::Hello, PullEvent::Done) => {
                self.step = PullStep::List;
            },
            (PullStep::Hello, PullEvent::Error(e)) => {
                self.step = PullStep::Failed(e);
            },
            (PullStep::List, PullEvent::Message(_, data)) => match read_told(&lossy(&data)) {
                Ok(blobs) => {
                    self.blobs = blobs;
                    self.at = 0;
                    self.settle();
                },
                Err(e) => {
                    self.step = PullStep::Failed(e);
                },
            },
            (PullStep::List, PullEvent::Timeout) => {
                self.step = PullStep::Failed("timeout waiting MANIFEST".to_owned());
            },
            (PullStep::List, PullEvent::Closed) => {
                self.step = PullStep::Failed("channel closed".to_owned());
            },
            (PullStep::Probe, PullEvent::Exists(there)) => if there {
                self.skip_blob();
            } else {
                self.step = PullStep::Ask;
            },
            (PullStep::Ask, PullEvent::Done) => {
                self.judge_data();
            },
            (PullStep::Ask, PullEvent::Error(e)) => {
                self.step = PullStep::Failed(e);
            },
            (PullStep::Receive, PullEvent::Message(is_text, data)) => {
                self.receive(is_text, &data);
            },
            (PullStep::Receive, PullEvent::Timeout) => {
                self.step = PullStep::Failed("timeout waiting chunk".to_owned());
            },
            (PullStep::Receive, PullEvent::Closed) => {
                self.step = PullStep::Failed("channel closed".to_owned());
            },
            (PullStep::Store, PullEvent::Done) => {
                let n = self.blobs.len();
                assert(self.at < n);
                self.at += 1;
                self.pulled += 1;
                self.settle();
            },
            (PullStep::Store, PullEvent::Error(e)) => {
                self.step = PullStep::Failed(e);
            },
            (PullStep::Finish, PullEvent::Done) => {
                self.step = PullStep::Over;
            },
            (PullStep::Finish, PullEvent::Error(_)) => {
                self.step = PullStep::Over;
            },
            _ => {},
        }
    }
}

/// What an item of a list gives: under `hash` the name, under `size` the size; where there
/// is no text the name is empty, and where there is no natural number the size is zero.
pub proof fn law_item_gives_name_and_size(fields: Map<Seq<char>, JsonModel>, m: JsonModel)
    ensures
        ({
            let (name, size) = wanted_of(JsonModel::Object(fields));
            &&& name == if fields.contains_key("hash"@) {
                match fields["hash"@] {
                    JsonModel::Text(s) => s,
                    _ => Seq::<char>::empty(),
                }
            } else {
                Seq::<char>::empty()
            }
            &&& size == if fields.contains_key("size"@) {
                match fields["size"@] {
                    JsonModel::Number(JsonNumber::Pos(u)) => u as int,
                    _ => 0,
                }
            } else {
                0
            }
        }),
        !(m is Object) ==> wanted_of(m) == (Seq::<char>::empty(), 0u64),
{
}

/// Each item of a list is wanted, in its place; without a list nothing is.
pub proof fn law_every_item_is_wanted(
    fields: Map<Seq<char>, JsonModel>,
    items: Seq<JsonModel>,
    m: JsonModel,
)
    ensures
        fields.contains_key("blobs"@) && fields["blobs"@] == JsonModel::Array(items) ==> {
            let blobs = wanted_in(JsonModel::Object(fields));
            &&& blobs.len() == items.len()
            &&& forall|i: int| 0 <= i < items.len() ==> #[trigger] blobs[i] == wanted_of(items[i])
        },
        (m matches JsonModel::Object(f) ==> !f.contains_key("blobs"@) || !(f["blobs"@] is Array))
            ==> wanted_in(m).len() == 0,
{
}

/// The first message tells the list behind `MANIFEST `, with white space around it or not;
/// one that begins otherwise is refused with its start, and one that does not read with
/// the reason.
pub proof fn law_first_message_is_read(
    body: Seq<char>,
    list: JsonModel,
    e: Seq<char>,
    text: Seq<char>,
)
    ensures
        json_parse(encode_utf8(trimmed(body))) == Ok::<JsonModel, Seq<char>>(list) ==> list_told(
            "MANIFEST "@ + body,
        ) == Ok::<Seq<Entry>, Seq<char>>(wanted_in(list)),
        json_parse(encode_utf8(trimmed(body))) == Err::<JsonModel, Seq<char>>(e) ==> list_told(
            "MANIFEST "@ + body,
        ) == Err::<Seq<Entry>, Seq<char>>(e),
        !"MANIFEST "@.is_prefix_of(text) ==> list_told(text) == Err::<Seq<Entry>, Seq<char>>(
            "unexpected first message: "@ + byte_prefix(text, 40),
        ),
{
    let whole = "MANIFEST "@ + body;
    let n = "MANIFEST "@.len() as int;
    assert(whole.subrange(0, n) =~= "MANIFEST "@);
    assert(whole.skip(n) =~= body);
}

/// A name can be asked for where it has 64 bytes and a character ends after the second.
pub proof fn law_names_that_can_be_asked_for(name: Seq<char>, dir: Seq<char>, file: Seq<char>)
    ensures
        encode_utf8(dir).len() == 2 && encode_utf8(dir + file).len() == 64 ==> askable(dir + file),
        encode_utf8(name).len() != 64 ==> !askable(name),
        askable(name) ==> exists|d: Seq<char>, f: Seq<char>|
            encode_utf8(d).len() == 2 && name == #[trigger] (d + f),
{
    law_fanout_cuts_after_two_bytes(dir, file);
    if askable(name) {
        let (d, f) = fanout(name)->0;
        crate::blob::law_fanout_joins(name);
        assert(name == d + f);
        law_fanout_cuts_after_two_bytes(d, f);
    }
}

/// What is taken up next is the first blob whose name can be asked for: each one before it
/// cannot be, and is skipped.
pub proof fn law_none_is_passed_over(m: PullModel)
    requires
        m.at <= m.blobs.len(),
    ensures
        ({
            let next = m.settled();
            &&& m.at <= next.at <= m.blobs.len()
            &&& next.blobs == m.blobs
            &&& next.pulled == m.pulled
            &&& next.skipped == m.skipped + (next.at - m.at)
            &&& next.buf.len() == 0
            &&& next.step is Probe <==> next.at < m.blobs.len()
            &&& next.step is Finish <==> next.at == m.blobs.len()
            &&& next.at < m.blobs.len() ==> askable(m.blobs[next.at as int].0)
            &&& forall|k: int| m.at <= k < next.at ==> !askable((#[trigger] m.blobs[k]).0)
        }),
{
    lemma_next_askable(m.blobs, m.at);
    lemma_none_between(m.blobs, m.at);
}

proof fn lemma_none_between(blobs: Seq<Entry>, at: nat)
    requires
        at <= blobs.len(),
    ensures
        forall|k: int| at <= k < next_askable(blobs, at) ==> !askable((#[trigger] blobs[k]).0),
    decreases blobs.len() - at,
{
    if at < blobs.len() && !askable(blobs[at as int].0) {
        lemma_none_between(blobs, at + 1);
    }
}

/// A pull that hears the list takes all of it: it then has exactly the blobs that the list
/// names, item by item, and stands at the first of them that can be asked for.
pub proof fn law_pull_takes_the_whole_list(
    m: PullModel,
    is_text: bool,
    data: Vec<u8>,
    body: Seq<char>,
    fields: Map<Seq<char>, JsonModel>,
    items: Seq<JsonModel>,
)
    requires
        m.wf(),
        m.step is List,
        bytes_text(data@) == "MANIFEST "@ + body,
        json_parse(encode_utf8(trimmed(body))) == Ok::<JsonModel, Seq<char>>(
            JsonModel::Object(fields),
        ),
        fields.contains_key("blobs"@),
        fields["blobs"@] == JsonModel::Array(items),
    ensures
        ({
            let next = m.next(PullEvent::Message(is_text, data));
            &&& next.blobs.len() == items.len()
            &&& forall|i: int|
                0 <= i < items.len() ==> #[trigger] next.blobs[i] == wanted_of(items[i])
            &&& forall|k: int| 0 <= k < next.at ==> !askable((#[trigger] next.blobs[k]).0)
            &&& next.at < items.len() ==> next.step is Probe && askable(
                next.blobs[next.at as int].0,
            )
            &&& next.at == items.len() ==> next.step is Finish
            &&& next.at <= items.len()
            &&& next.skipped == next.at
            &&& next.pulled == 0
        }),
{
    law_first_message_is_read(body, JsonModel::Object(fields), Seq::empty(), Seq::empty());
    law_every_item_is_wanted(fields, items, JsonModel::Null);
    let blobs = wanted_in(JsonModel::Object(fields));
    law_none_is_passed_over(PullModel { blobs, at: 0, ..m });
}

/// Where the list cannot be read, or does not come, the pull fails and says why.
pub proof fn law_pull_without_a_list_fails(
    m: PullModel,
    is_text: bool,
    data: Vec<u8>,
    e: Seq<char>,
    word: String,
)
    requires
        m.step is List,
    ensures
        list_told(bytes_text(data@)) == Err::<Seq<Entry>, Seq<char>>(e) ==> m.next(
            PullEvent::Message(is_text, data),
        ) == (PullModel { step: StepModel::Failed(e), ..m }),
        m.next(PullEvent::Timeout) == (PullModel {
            step: StepModel::Failed("timeout waiting MANIFEST"@),
            ..m
        }),
        m.next(PullEvent::Closed) == (PullModel {
            step: StepModel::Failed("channel closed"@),
            ..m
        }),
        ({
            let hello = PullModel { step: StepModel::Hello, ..m };
            &&& hello.next(PullEvent::Done) == m
            &&& hello.next(PullEvent::Error(word)) == (PullModel {
                step: StepModel::Failed(word@),
                ..m
            })
        }),
{
}

/// The turn of a blob: one that is there is skipped, and only that; any other is asked for.
/// A frame adds what stands behind its header to what has come; once as much has come as
/// was told, it is stored where the name is its digest, and otherwise the pull fails. A
/// blob that is stored counts as pulled.
pub proof fn law_turn_of_a_blob(m: PullModel, frame: Vec<u8>)
    requires
        m.wf(),
        m.at < m.blobs.len(),
    ensures
        ({
            let (name, size) = m.blobs[m.at as int];
            let got = m.buf + frame@.skip(8);
            let heard = m.next(PullEvent::Message(false, frame));
            &&& m.step is Probe ==> {
                let next = m.next(PullEvent::Exists(true));
                &&& next.pulled == m.pulled
                &&& next.at > m.at
                &&& next.skipped - m.skipped == next.at - m.at
                &&& forall|k: int| m.at < k < next.at ==> !askable((#[trigger] m.blobs[k]).0)
                &&& next.blobs == m.blobs
                &&& next.step is Probe <==> next.at < m.blobs.len()
                &&& next.step is Finish <==> next.at == m.blobs.len()
                &&& next.at < m.blobs.len() ==> askable(m.blobs[next.at as int].0)
                &&& m.next(PullEvent::Exists(false)) == (PullModel { step: StepModel::Ask, ..m })
            }
            &&& m.step is Ask && size > 0 ==> m.next(PullEvent::Done) == (PullModel {
                step: StepModel::Receive,
                ..m
            })
            &&& m.step is Ask && size == 0 ==> m.next(PullEvent::Done) == (PullModel {
                step: StepModel::Probe,
                ..m
            }).next(PullEvent::Exists(true))
            &&& m.step is Receive && frame@.len() >= 8 && frame@ != miss_message(name) ==> {
                &&& got.len() < size ==> heard == (PullModel { buf: got, ..m })
                &&& got.len() >= size && got.len() > 0 && sha256_text(got) == name ==> heard == (
                PullModel { buf: got, step: StepModel::Store, ..m })
                &&& got.len() >= size && got.len() > 0 && sha256_text(got) != name ==> heard == (
                PullModel {
                    buf: got,
                    step: StepModel::Failed("integrity FAIL: got "@ + sha256_text(got)),
                    ..m
                })
            }
            &&& m.step is Store ==> {
                let next = m.next(PullEvent::Done);
                &&& next.pulled == m.pulled + 1
                &&& next.at > m.at
                &&& next.skipped - m.skipped == next.at - m.at - 1
                &&& forall|k: int| m.at < k < next.at ==> !askable((#[trigger] m.blobs[k]).0)
                &&& next.blobs == m.blobs
                &&& next.step is Probe <==> next.at < m.blobs.len()
                &&& next.step is Finish <==> next.at == m.blobs.len()
                &&& next.at < m.blobs.len() ==> askable(m.blobs[next.at as int].0)
            }
        }),
{
    let beyond = PullModel { at: m.at + 1, skipped: m.skipped + 1, ..m };
    law_none_is_passed_over(beyond);
    let stored = PullModel { at: m.at + 1, pulled: m.pulled + 1, ..m };
    law_none_is_passed_over(stored);
}

/// While a blob is awaited, a text that begins with `MISS` skips it, and any other fails
/// the pull with its start; so does a message too short for a header, none in time, and
/// the end of the channel. What could not be sent or stored fails it with its error.
pub proof fn law_pull_tells_why_it_fails(m: PullModel, data: Vec<u8>, e: String)
    requires
        m.at < m.blobs.len(),
        data@ != miss_message(m.blobs[m.at as int].0),
    ensures
        m.step is Receive ==> {
            &&& "MISS"@.is_prefix_of(bytes_text(data@)) ==> m.next(PullEvent::Message(true, data))
                == m.skip_blob()
            &&& !"MISS"@.is_prefix_of(bytes_text(data@)) ==> m.next(
                PullEvent::Message(true, data),
            ) == (PullModel {
                step: StepModel::Failed(
                    "control msg mid-transfer: "@ + byte_prefix(bytes_text(data@), 40),
                ),
                ..m
            })
            &&& data@.len() < 8 ==> m.next(PullEvent::Message(false, data)) == (PullModel {
                step: StepModel::Failed("short chunk header"@),
                ..m
            })
            &&& m.next(PullEvent::Timeout) == (PullModel {
                step: StepModel::Failed("timeout waiting chunk"@),
                ..m
            })
            &&& m.next(PullEvent::Closed) == (PullModel {
                step: StepModel::Failed("channel closed"@),
                ..m
            })
        },
        m.step is Ask || m.step is Store ==> m.next(PullEvent::Error(e)) == (PullModel {
            step: StepModel::Failed(e@),
            ..m
        }),
        miss_message(m.blobs[m.at as int].0) == encode_utf8("MISS "@ + m.blobs[m.at as int].0),
{
}

/// Once all is dealt with the pull ends, whether the last word could be sent or not.
pub proof fn law_pull_ends(m: PullModel, e: String)
    requires
        m.step is Finish,
    ensures
        m.next(PullEvent::Done) == (PullModel { step: StepModel::Over, ..m }),
        m.next(PullEvent::Error(e)) == (PullModel { step: StepModel::Over, ..m }),
{
}

/// Data is judged by its digest, whatever that is: until as much has come as was told more
/// is awaited; an empty blob is skipped; and any other is stored only under the name that
/// is its digest, character by character.
pub proof fn law_data_is_judged(m: PullModel, got: Seq<char>)
    requires
        m.at < m.blobs.len(),
    ensures
        ({
            let (name, size) = m.blobs[m.at as int];
            &&& m.buf.len() < size ==> m.judged(got) == (PullModel {
                step: StepModel::Receive,
                ..m
            })
            &&& m.buf.len() >= size && m.buf.len() > 0 && got == name ==> m.judged(got) == (
            PullModel { step: StepModel::Store, ..m })
            &&& m.buf.len() >= size && m.buf.len() > 0 && got != name ==> m.judged(got) == (
            PullModel { step: StepModel::Failed("integrity FAIL: got "@ + got), ..m })
            &&& size == 0 && m.buf.len() == 0 ==> m.judged(got) == m.skip_blob()
        }),
{
}

/// What does not fit the step of a pull changes nothing.
pub proof fn law_what_does_not_fit_a_pull(m: PullModel, event: PullEvent)
    ensures
        m.step is Probe && !(event is Exists) ==> m.next(event) == m,
        (m.step is Hello || m.step is Ask || m.step is Store || m.step is Finish) && !(
        event is Done) && !(event is Error) ==> m.next(event) == m,
        (m.step is List || m.step is Receive) && !(event is Message) && !(event is Timeout) && !(
        event is Closed) ==> m.next(event) == m,
        m.step is Over || m.step is Failed ==> m.next(event) == m,
{
}

/// A pull is seen as it is.
pub proof fn law_pull_is_seen(p: Pull)
    ensures
        p@.blobs.len() == p.blobs@.len(),
        forall|i: int|
            0 <= i < p.blobs@.len() ==> #[trigger] p@.blobs[i] == (p.blobs@[i].0@, p.blobs@[i].1),
        p@.at == p.at,
        p@.buf == p.buf@,
        p@.pulled == p.pulled,
        p@.skipped == p.skipped,
        p.step matches PullStep::Failed(e) ==> p@.step == StepModel::Failed(e@),
        p@.step is Hello <==> p.step is Hello,
        p@.step is List <==> p.step is List,
        p@.step is Probe <==> p.step is Probe,
        p@.step is Ask <==> p.step is Ask,
        p@.step is Receive <==> p.step is Receive,
        p@.step is Store <==> p.step is Store,
        p@.step is Finish <==> p.step is Finish,
        p@.step is Over <==> p.step is Over,
        p@.step is Failed <==> p.step is Failed,
{
}

} // verus!
