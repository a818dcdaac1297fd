//! The side of a mesh that serves: it tells what it has, and sends the blobs
//! that it is asked for.

use vstd::prelude::*;
use vstd::string::*;
use vstd::utf8::*;

use crate::blob::{
    blob_path, entries_of, fanout, is_hex, is_hex64, law_fanout_cuts_after_two_bytes,
    law_fanout_joins, lemma_fanout_hex, BlobPath, Blobs, Entry,
};
use crate::digest::sha256_text;
use crate::frames::{
    be32, frame_count, frames, frames_of, joined, law_frames_give_blob_back, lemma_joined_part,
    payload, HEADER,
};
use crate::json::{
    canon, json_text, readable_within, reserved_key, Json, JsonModel, JsonNumber, MAX_DEPTH,
};
use crate::pull::{
    askable, can_ask, law_none_is_passed_over, law_pull_stays_in_order, list_told, miss_message,
    next_askable, wanted_in, wanted_of, PullEvent, PullModel, StepModel,
};
use crate::service::{
    blob_list, entries_json, entry_json, has_just, law_list_holds_every_blob,
};
use crate::text::{
    bytes_text, cat, lemma_encode_concat, lossy, same, starts_with, trim, trimmed,
};
use crate::text_laws::{all_white, law_trim};

verus! {

/// What goes over the channel: control messages as text, frames as bytes.
pub enum Outgoing {
    Text(String),
    Binary(Vec<u8>),
}

/// An [`Outgoing`] as mathematics.
pub enum OutModel {
    Text(Seq<char>),
    Binary(Seq<u8>),
}

impl View for Outgoing {
    type V = OutModel;

    open spec fn view(&self) -> OutModel {
        match self {
            Outgoing::Text(t) => OutModel::Text(t@),
            Outgoing::Binary(b) => OutModel::Binary(b@),
        }
    }
}

/// Where the serving stands.
pub enum ServeStep {
    /// There is no channel yet.
    Channel,
    /// Nothing has been heard yet.
    First,
    /// Blobs are asked for.
    Serving,
    /// The other side is done, or gone.
    Over,
    /// The serving failed.
    Failed(String),
}

/// What was heard.
pub enum ServeEvent {
    /// The channel is open.
    Opened,
    /// A message.
    Message(Vec<u8>),
    /// Nothing in time.
    Timeout,
    /// Nothing more can come.
    Closed,
    /// Something could not be sent: whether it was a frame, and why.
    Unsent(bool, String),
}

/// What is to be done about it.
pub enum ServeAction {
    /// Wait for the next message.
    Listen,
    /// Tell what blobs there are.
    SendList,
    /// Send the blob of this name, which lies there.
    Send(String, BlobPath),
    /// Nothing: the serving is over.
    Stop,
}

/// The name that a message asks for.
pub open spec fn asked_for(text: Seq<char>) -> Option<Seq<char>> {
    if "GET "@.is_prefix_of(text) {
        Some(trimmed(text.skip("GET "@.len() as int)))
    } else {
        None
    }
}

/// The step after an event, with the error of one that fails. Only a frame has to be
/// sent: without another message the serving goes on.
pub open spec fn serve_next(step: ServeStep, event: ServeEvent, next: ServeStep) -> bool {
    match (step, event) {
        (ServeStep::Channel, ServeEvent::Opened) => next is First,
        (ServeStep::Channel, ServeEvent::Timeout) => next matches ServeStep::Failed(e) && e@
            == "timeout waiting data channel"@,
        (ServeStep::Channel, ServeEvent::Closed) => next matches ServeStep::Failed(e) && e@
            == "no data channel"@,
        (ServeStep::First, ServeEvent::Message(_)) => next is Serving,
        (ServeStep::First, ServeEvent::Timeout) => next matches ServeStep::Failed(e) && e@
            == "timeout waiting PULL"@,
        (ServeStep::First, ServeEvent::Closed) => next matches ServeStep::Failed(e) && e@
            == "channel closed"@,
        (ServeStep::Serving, ServeEvent::Message(data)) => if bytes_text(data@) == "DONE"@ {
            next is Over
        } else {
            next is Serving
        },
        (ServeStep::Serving, ServeEvent::Closed) => next is Over,
        (ServeStep::Serving, ServeEvent::Unsent(true, e)) => next == ServeStep::Failed(e),
        (step, _) => next == step,
    }
}

/// What is to be done after an event. Control messages are known by what they
/// say, however they were sent.
pub open spec fn serve_action(step: ServeStep, event: ServeEvent, action: ServeAction) -> bool {
    match (step, event) {
        (ServeStep::First, ServeEvent::Message(data)) => if bytes_text(data@) == "PULL"@ {
            action is SendList
        } else {
            action is Listen
        },
        (ServeStep::Serving, ServeEvent::Message(data)) => {
            let text = bytes_text(data@);
            if text == "DONE"@ {
                action is Stop
            } else {
                match asked_for(text) {
                    Some(name) => if askable(name) {
                        &&& action matches ServeAction::Send(n, p)
                        &&& n@ == name
                        &&& fanout(name) == Some((p.dir@, p.file@))
                    } else {
                        action is Listen
                    },
                    None => action is Listen,
                }
            }
        },
        (ServeStep::Channel, ServeEvent::Timeout) => action is Stop,
        (ServeStep::Channel, ServeEvent::Closed) => action is Stop,
        (ServeStep::First, ServeEvent::Timeout) => action is Stop,
        (ServeStep::First, ServeEvent::Closed) => action is Stop,
        (ServeStep::Serving, ServeEvent::Closed) => action is Stop,
        (ServeStep::Serving, ServeEvent::Unsent(true, _)) => action is Stop,
        (ServeStep::Over, _) => action is Stop,
        (ServeStep::Failed(_), _) => action is Stop,
        _ => action is Listen,
    }
}

/// Hears a message of the other side, or that none came.
pub fn serve(step: &mut ServeStep, event: ServeEvent) -> (r: ServeAction)
    ensures
        serve_next(*old(step), event, *final(step)),
        serve_action(*old(step), event, r),
{
    match (&*step, event) {
        (ServeStep::Channel, ServeEvent::Opened) => {
            *step = ServeStep::First;
            ServeAction::Listen
        },
        (ServeStep::Channel, ServeEvent::Timeout) => {
            *step = ServeStep::Failed("timeout waiting data channel".to_owned());
            ServeAction::Stop
        },
        (ServeStep::Channel, ServeEvent::Closed) => {
            *step = ServeStep::Failed("no data channel".to_owned());
            ServeAction::Stop
        },
        (ServeStep::First, ServeEvent::Message(data)) => {
            *step = ServeStep::Serving;
            if same(&lossy(&data), "PULL") {
                ServeAction::SendList
            } else {
                ServeAction::Listen
            }
        },
        (ServeStep::First, ServeEvent::Timeout) => {
            *step = ServeStep::Failed("timeout waiting PULL".to_owned());
            ServeAction::Stop
        },
        (ServeStep::First, ServeEvent::Closed) => {
            *step = ServeStep::Failed("channel closed".to_owned());
            ServeAction::Stop
        },
        (ServeStep::Serving, ServeEvent::Message(data)) => {
            let text = lossy(&data);
            if same(&text, "DONE") {
                *step = ServeStep::Over;
                return ServeAction::Stop;
            }
            if starts_with(&text, "GET ") {
                let from = "GET ".unicode_len();
                let n = text.as_str().unicode_len();
                let rest = text.as_str().substring_char(from, n);
                assert(rest@ == text@.skip("GET "@.len() as int));
                let name = trim(rest);
                if can_ask(&name) {
                    if let Some(p) = blob_path(&name) {
                        return ServeAction::Send(name, p);
                    }
                }
            }
            ServeAction::Listen
        },
        (ServeStep::Serving, ServeEvent::Closed) => {
            *step = ServeStep::Over;
            ServeAction::Stop
        },
        (ServeStep::Serving, ServeEvent::Unsent(true, e)) => {
            *step = ServeStep::Failed(e);
            ServeAction::Stop
        },
        (ServeStep::Over, _) => ServeAction::Stop,
        (ServeStep::Failed(_), _) => ServeAction::Stop,
        _ => ServeAction::Listen,
    }
}

/// The list of the blobs that there are, as it is told.
pub open spec fn told_json(entries: Seq<Entry>) -> JsonModel {
    JsonModel::Object(map!["blobs"@ => entries_json(entries)])
}

proof fn lemma_told_list(entries: Seq<Entry>)
    ensures
        wanted_in(told_json(entries)) == entries,
        readable_within(told_json(entries), MAX_DEPTH as nat),
{
    reveal_strlit("hash");
    reveal_strlit("size");
    reveal_strlit("blobs");
    reveal_strlit("$serde_json::private::RawValue");
    assert(reserved_key().len() == 30);
    assert("hash"@ != "size"@) by {
        assert("hash"@[0] != "size"@[0]);
    }
    let list = entries_json(entries)->Array_0;
    assert forall|i: int| 0 <= i < entries.len() implies wanted_of(#[trigger] list[i])
        == entries[i] && readable_within(list[i], 125) by {
        assert(list[i] == entry_json(entries[i]));
        let fields = list[i]->Object_0;
        assert forall|k: Seq<char>| #[trigger] fields.contains_key(k) implies readable_within(
            fields[k],
            124,
        ) by {
            assert(k == "hash"@ || k == "size"@);
        }
    }
    assert(wanted_in(told_json(entries)) =~= entries);
    assert(readable_within(entries_json(entries), 126));
    let whole = told_json(entries)->Object_0;
    assert forall|k: Seq<char>| #[trigger] whole.contains_key(k) implies readable_within(
        whole[k],
        126,
    ) by {
        assert(k == "blobs"@);
    }
}

/// Tells what blobs there are. The other side reads the same list from it.
pub fn list_message(entries: &[(String, u64)]) -> (r: String)
    ensures
        r@ == "MANIFEST "@ + json_text(told_json(entries_of(entries@))),
        list_told(r@) == Ok::<Seq<Entry>, Seq<char>>(entries_of(entries@)),
{
    let list = Json::object().with("blobs", blob_list(entries));
    let ghost all = entries_of(entries@);
    assert(list.model() == told_json(all));
    proof {
        lemma_told_list(all);
    }
    let text = canon(&list);
    let r = cat("MANIFEST ", &text);
    assert(r@.subrange(0, "MANIFEST "@.len() as int) =~= "MANIFEST "@);
    assert(r@.skip("MANIFEST "@.len() as int) =~= text@);
    r
}

/// What is sent for a blob: its frames, or that there is none. An empty blob
/// counts as none.
pub open spec fn blob_messages(name: Seq<char>, data: Seq<u8>) -> Seq<OutModel> {
    if data.len() == 0 {
        seq![OutModel::Text("MISS "@ + name)]
    } else {
        frames_of(data).map_values(|f: Seq<u8>| OutModel::Binary(f))
    }
}

/// What is sent for a blob that was asked for.
pub fn send_blob(name: &str, data: &[u8]) -> (r: Vec<Outgoing>)
    ensures
        r@.map_values(|m: Outgoing| m@) == blob_messages(name@, data@),
{
    let mut out: Vec<Outgoing> = Vec::new();
    if data.len() == 0 {
        out.push(Outgoing::Text(cat("MISS ", name)));
        assert(out@.map_values(|m: Outgoing| m@) =~= blob_messages(name@, data@));
        return out;
    }
    let parts = frames(data);
    let ghost all = frames_of(data@);
    assert(forall|k: int| 0 <= k < parts@.len() ==> (#[trigger] parts@[k])@ == all[k]) by {
        assert forall|k: int| 0 <= k < parts@.len() implies (#[trigger] parts@[k])@ == all[k] by {
            assert(parts@.map_values(|f: Vec<u8>| f@)[k] == parts@[k]@);
        }
    }
    for f in it: parts
        invariant
            it.seq() == parts@,
            out@.len() == it.index(),
            forall|k: int|
                0 <= k < out@.len() ==> (#[trigger] out@[k])@ == OutModel::Binary(parts@[k]@),
    {
        out.push(Outgoing::Binary(f));
    }
    assert(out@.map_values(|m: Outgoing| m@) =~= blob_messages(name@, data@));
    out
}

/// What the pulling side makes of a message while a blob is awaited.
pub open spec fn hears(m: PullModel, message: OutModel) -> PullModel {
    match message {
        OutModel::Text(t) => m.received(true, encode_utf8(t)),
        OutModel::Binary(b) => m.received(false, b),
    }
}

/// What the pulling side makes of the messages that come, one after the other, while a
/// blob is awaited, and the messages that are then left.
pub open spec fn hears_all(m: PullModel, messages: Seq<OutModel>) -> (PullModel, Seq<OutModel>)
    decreases messages.len(),
{
    if m.step is Receive && messages.len() > 0 {
        hears_all(hears(m, messages[0]), messages.drop_first())
    } else {
        (m, messages)
    }
}

/// A text that is sent arrives as it is.
pub proof fn law_text_arrives(text: Seq<char>)
    ensures
        bytes_text(encode_utf8(text)) == text,
{
    encode_utf8_valid_utf8(text);
    encode_utf8_decode_utf8(text);
}

/// The request for a blob is understood: the serving side hears the name that
/// the pulling side asked for.
pub proof fn law_request_is_understood(name: Seq<char>)
    requires
        is_hex64(name),
    ensures
        asked_for(bytes_text(encode_utf8("GET "@ + name))) == Some(name),
        bytes_text(encode_utf8("GET "@ + name)) != "DONE"@,
        askable(name),
{
    let text = "GET "@ + name;
    law_text_arrives(text);
    reveal_strlit("GET ");
    reveal_strlit("DONE");
    assert(text.subrange(0, 4) =~= "GET "@);
    assert(text.skip(4) =~= name);
    assert(is_hex(name[0]));
    assert(is_hex(name.last()));
    assert(trimmed(name) == name);
    assert(text[0] != "DONE"@[0]);
    assert(is_ascii_chars(name)) by {
        assert forall|i: int| 0 <= i < name.len() implies '\0' <= #[trigger] name[i]
            <= '\u{7f}' by {
            assert(is_hex(name[i]));
        }
    }
    is_ascii_chars_encode_utf8(name);
    lemma_fanout_hex(name);
}

proof fn lemma_hex_bytes(name: Seq<char>)
    requires
        is_hex64(name),
    ensures
        encode_utf8(name).len() == 64,
{
    assert(is_ascii_chars(name)) by {
        assert forall|i: int| 0 <= i < name.len() implies '\0' <= #[trigger] name[i]
            <= '\u{7f}' by {
            assert(is_hex(name[i]));
        }
    }
    is_ascii_chars_encode_utf8(name);
}

/// No frame can be taken for the message that the blob is missing: one as short as that
/// is the last, and the numbers in its header follow on each other.
pub proof fn law_frames_say_nothing_else(data: Seq<u8>, i: int, name: Seq<char>)
    requires
        0 <= i < frames_of(data).len(),
        encode_utf8(name).len() == 64,
    ensures
        frames_of(data)[i] != miss_message(name),
{
    let f = frames_of(data)[i];
    reveal_strlit("MISS ");
    is_ascii_chars_encode_utf8("MISS "@);
    lemma_encode_concat("MISS "@, name);
    let head = encode_utf8("MISS "@);
    assert(miss_message(name) == head + encode_utf8(name));
    assert(head.len() == 5 && head[0] == 0x4d && head[4] == 0x20);
    if f == miss_message(name) {
        assert(payload(data, i).len() == 61);
        assert(i + 1 == frame_count(data.len()));
        let low = (i % 0x1_0000_0000) as u32;
        let next = ((i + 1) % 0x1_0000_0000) as u32;
        assert(f[0] == be32(low)[0]);
        assert(f[4] == be32(next)[0]);
        assert((low / 0x100_0000) as u8 == 0x4d);
        assert((next / 0x100_0000) as u8 == 0x20);
        assert(next == low + 1 || next == 0);
    }
}

/// Frames as they are sent.
pub open spec fn as_messages(frames: Seq<Seq<u8>>) -> Seq<OutModel> {
    frames.map_values(|f: Seq<u8>| OutModel::Binary(f))
}

/// The frames carry the data of the blob of this name, however it is cut: each has room
/// for its header, none says that the blob is missing, and only the last makes the data
/// complete.
pub open spec fn carries(frames: Seq<Seq<u8>>, name: Seq<char>, data: Seq<u8>) -> bool {
    &&& joined(frames) == data
    &&& forall|i: int|
        0 <= i < frames.len() ==> (#[trigger] frames[i]).len() >= HEADER && frames[i]
            != miss_message(name)
    &&& forall|i: int|
        0 <= i < frames.len() ==> (#[trigger] joined(frames.take(i))).len() < data.len()
}

/// The frames that this side sends carry the blob.
pub proof fn law_frames_carry_the_blob(name: Seq<char>, data: Seq<u8>)
    requires
        encode_utf8(name).len() == 64,
    ensures
        carries(frames_of(data), name, data),
        data.len() > 0 ==> blob_messages(name, data) == as_messages(frames_of(data)),
{
    let fs = frames_of(data);
    law_frames_give_blob_back(data);
    assert forall|i: int| 0 <= i < fs.len() implies (#[trigger] fs[i]).len() >= HEADER && fs[i]
        != miss_message(name) by {
        law_frames_say_nothing_else(data, i, name);
    }
    assert forall|i: int| 0 <= i < fs.len() implies (#[trigger] joined(fs.take(i))).len()
        < data.len() by {
        lemma_joined_part(data, i as nat);
    }
}

proof fn lemma_frame_heard(m: PullModel, frames: Seq<Seq<u8>>, data: Seq<u8>, n: int)
    requires
        m.step is Receive,
        m.wf(),
        0 < data.len() <= u64::MAX,
        m.blobs[m.at as int] == (sha256_text(data), data.len() as u64),
        carries(frames, m.name(), data),
        0 <= n < frames.len(),
        m.buf == joined(frames.take(n)),
    ensures
        hears(m, OutModel::Binary(frames[n])) == if n + 1 < frames.len() {
            PullModel { buf: joined(frames.take(n + 1)), ..m }
        } else {
            PullModel { buf: data, step: StepModel::Store, ..m }
        },
{
    let f = frames[n];
    assert(frames.take(n + 1).drop_last() =~= frames.take(n));
    assert(frames.take(n + 1).last() == f);
    let more = PullModel { buf: m.buf + f.skip(HEADER as int), ..m };
    assert(more.buf == joined(frames.take(n + 1)));
    assert(hears(m, OutModel::Binary(f)) == more.judged(sha256_text(more.buf)));
    if n + 1 == frames.len() {
        assert(frames.take(n + 1) =~= frames);
        assert(more.buf == data);
    } else {
        assert(joined(frames.take(n + 1)).len() < data.len());
    }
}

proof fn lemma_frames_heard(
    m: PullModel,
    frames: Seq<Seq<u8>>,
    data: Seq<u8>,
    n: int,
    rest: Seq<OutModel>,
)
    requires
        m.step is Receive,
        m.wf(),
        0 < data.len() <= u64::MAX,
        m.blobs[m.at as int] == (sha256_text(data), data.len() as u64),
        carries(frames, m.name(), data),
        0 <= n < frames.len(),
        m.buf == joined(frames.take(n)),
    ensures
        hears_all(m, as_messages(frames).skip(n) + rest) == (
            PullModel { buf: data, step: StepModel::Store, ..m },
            rest,
        ),
    decreases frames.len() - n,
{
    let ms = as_messages(frames);
    let messages = ms.skip(n) + rest;
    lemma_frame_heard(m, frames, data, n);
    let heard = hears(m, messages[0]);
    assert(messages[0] == OutModel::Binary(frames[n]));
    assert(messages.drop_first() =~= ms.skip(n + 1) + rest);
    assert(hears_all(m, messages) == hears_all(heard, ms.skip(n + 1) + rest));
    if n + 1 == frames.len() {
        assert(ms.skip(n + 1) + rest =~= rest);
        assert(hears_all(heard, rest) == (heard, rest));
    } else {
        assert(heard.wf());
        lemma_frames_heard(heard, frames, data, n + 1, rest);
    }
}

/// A blob that is asked for and is there arrives whole, however the other side cuts it:
/// after its frames the pulling side holds exactly its data, to be stored under its name,
/// and no message behind them has been touched.
pub proof fn law_blob_arrives_whole(
    m: PullModel,
    data: Seq<u8>,
    frames: Seq<Seq<u8>>,
    rest: Seq<OutModel>,
)
    requires
        m.wf(),
        m.step is Ask,
        0 < data.len() <= u64::MAX,
        m.blobs[m.at as int] == (sha256_text(data), data.len() as u64),
        carries(frames, m.name(), data),
    ensures
        hears_all(m.next(PullEvent::Done), as_messages(frames) + rest) == (
            PullModel { buf: data, step: StepModel::Store, ..m },
            rest,
        ),
{
    let asked = m.next(PullEvent::Done);
    law_pull_stays_in_order(m, PullEvent::Done);
    assert(frames.len() > 0) by {
        if frames.len() == 0 {
            assert(joined(frames).len() == 0);
        }
    }
    assert(frames.take(0) =~= Seq::<Seq<u8>>::empty());
    assert(asked.buf =~= joined(frames.take(0)));
    lemma_frames_heard(asked, frames, data, 0, rest);
    assert(as_messages(frames).skip(0) =~= as_messages(frames));
}

/// A blob that is asked for and is not there is skipped, and no message behind the one
/// that says so has been touched.
pub proof fn law_missing_blob_is_skipped(m: PullModel, rest: Seq<OutModel>)
    requires
        m.step is Receive,
    ensures
        hears_all(m, blob_messages(m.name(), Seq::empty()) + rest) == (m.skip_blob(), rest),
        hears(m, OutModel::Binary(miss_message(m.name()))) == m.skip_blob(),
{
    let messages = blob_messages(m.name(), Seq::empty()) + rest;
    assert(messages[0] == OutModel::Text("MISS "@ + m.name()));
    assert(messages.drop_first() =~= rest);
    assert(hears_all(m.skip_blob(), rest) == (m.skip_blob(), rest));
}

/// Two sides that meet: the pull, the blobs that its side has, and the messages that are
/// on their way to it.
pub struct Meeting {
    pub pull: PullModel,
    pub have: Blobs,
    pub pending: Seq<OutModel>,
}

/// The other side: the blobs that it has, and the frames into which it cuts each.
pub struct Source {
    pub blobs: Blobs,
    pub cuts: Map<Seq<char>, Seq<Seq<u8>>>,
}

impl Source {
    /// What is sent for the blob of this name.
    pub open spec fn answer(self, name: Seq<char>) -> Seq<OutModel> {
        if self.blobs.contains_key(name) && self.blobs[name].len() > 0 {
            as_messages(self.cuts[name])
        } else {
            seq![OutModel::Text("MISS "@ + name)]
        }
    }

    /// The list from `at` on names blobs that are there, each with its digest for a name
    /// and with its size, and cut so that its frames carry it.
    pub open spec fn keeps(self, blobs: Seq<Entry>, at: nat) -> bool {
        forall|i: int|
            at <= i < blobs.len() ==> {
                let name = (#[trigger] blobs[i]).0;
                &&& is_hex64(name)
                &&& self.blobs.contains_key(name)
                &&& sha256_text(self.blobs[name]) == name
                &&& self.blobs[name].len() == blobs[i].1
                &&& blobs[i].1 > 0 ==> carries(self.cuts[name], name, self.blobs[name])
            }
    }
}

/// What comes of the turn of the blob at hand: one that is there already is skipped, any
/// other is asked for and, once it has come, kept.
pub open spec fn after_turn(t: Meeting, source: Source) -> Meeting {
    let name = t.pull.name();
    if t.have.contains_key(name) {
        Meeting { pull: t.pull.next(PullEvent::Exists(true)), ..t }
    } else {
        let asked = t.pull.next(PullEvent::Exists(false)).next(PullEvent::Done);
        let (heard, pending) = hears_all(asked, t.pending + source.answer(name));
        if heard.step is Store {
            Meeting {
                pull: heard.next(PullEvent::Done),
                have: t.have.insert(name, heard.buf),
                pending,
            }
        } else {
            Meeting { pull: heard, pending, ..t }
        }
    }
}

/// What comes of `turns` turns.
pub open spec fn after_turns(t: Meeting, source: Source, turns: nat) -> Meeting
    decreases turns,
{
    if turns == 0 {
        t
    } else {
        after_turns(after_turn(t, source), source, (turns - 1) as nat)
    }
}

/// No blob has to wait behind the answer to an empty one. An empty blob is asked for
/// without waiting, so that the word that it is missing would be heard in place of the
/// next blob; `late` says that such a word is on its way.
pub open spec fn undisturbed(blobs: Seq<Entry>, at: nat, have: Set<Seq<char>>, late: bool) -> bool
    decreases blobs.len() - at,
{
    if at >= blobs.len() {
        true
    } else {
        let (name, size) = blobs[at as int];
        if have.contains(name) {
            undisturbed(blobs, at + 1, have, late)
        } else if size == 0 {
            undisturbed(blobs, at + 1, have, true)
        } else {
            !late && undisturbed(blobs, at + 1, have.insert(name), late)
        }
    }
}

proof fn lemma_turn(t: Meeting, source: Source)
    requires
        t.pull.wf(),
        t.pull.step is Probe,
        source.keeps(t.pull.blobs, t.pull.at),
        undisturbed(t.pull.blobs, t.pull.at, t.have.dom(), t.pending.len() > 0),
    ensures
        ({
            let next = after_turn(t, source);
            let name = t.pull.name();
            &&& next.pull.wf()
            &&& next.pull.blobs == t.pull.blobs
            &&& next.pull.at == t.pull.at + 1
            &&& next.pull.step is Probe <==> next.pull.at < t.pull.blobs.len()
            &&& next.pull.step is Finish <==> next.pull.at == t.pull.blobs.len()
            &&& undisturbed(
                next.pull.blobs,
                next.pull.at,
                next.have.dom(),
                next.pending.len() > 0,
            )
            &&& next.have == if t.have.contains_key(name) || source.blobs[name].len() == 0 {
                t.have
            } else {
                t.have.insert(name, source.blobs[name])
            }
        }),
{
    let m = t.pull;
    let name = m.name();
    let data = source.blobs[name];
    assert(m.blobs[m.at as int].0 == name);
    if m.at + 1 < m.blobs.len() {
        law_request_is_understood(m.blobs[m.at as int + 1].0);
    }
    assert(next_askable(m.blobs, m.at + 1) == m.at + 1);
    let probed = m.next(PullEvent::Exists(false));
    law_pull_stays_in_order(m, PullEvent::Exists(true));
    law_pull_stays_in_order(m, PullEvent::Exists(false));
    law_pull_stays_in_order(probed, PullEvent::Done);
    if !t.have.contains_key(name) {
        let asked = probed.next(PullEvent::Done);
        let messages = t.pending + source.answer(name);
        if data.len() == 0 {
            assert(!(asked.step is Receive));
            assert(hears_all(asked, messages) == (asked, messages));
        } else {
            let frames = source.cuts[name];
            law_blob_arrives_whole(probed, data, frames, Seq::empty());
            assert(messages =~= as_messages(frames) + Seq::<OutModel>::empty());
            let heard = PullModel { buf: data, step: StepModel::Store, ..probed };
            assert(heard.wf());
            law_pull_stays_in_order(heard, PullEvent::Done);
            assert(t.have.insert(name, data).dom() =~= t.have.dom().insert(name));
        }
    }
}

/// A pull brings all, however the other side cuts its blobs: after a turn for each blob of
/// the list the pulling side has every one of them that is not empty, as the other side
/// has it where it was missing, and what it had before is as it was.
pub proof fn law_pull_brings_all(t: Meeting, source: Source)
    requires
        t.pull.wf(),
        t.pull.step is Probe || t.pull.step is Finish,
        source.keeps(t.pull.blobs, t.pull.at),
        undisturbed(t.pull.blobs, t.pull.at, t.have.dom(), t.pending.len() > 0),
    ensures
        ({
            let m = t.pull;
            let end = after_turns(t, source, (m.blobs.len() - m.at) as nat);
            &&& end.pull.step is Finish
            &&& forall|name: Seq<char>| #[trigger]
                t.have.contains_key(name) ==> end.have.contains_key(name) && end.have[name]
                    == t.have[name]
            &&& forall|i: int|
                m.at <= i < m.blobs.len() && (#[trigger] m.blobs[i]).1 > 0
                    ==> end.have.contains_key(m.blobs[i].0) && (!t.have.contains_key(
                    m.blobs[i].0,
                ) ==> end.have[m.blobs[i].0] == source.blobs[m.blobs[i].0])
        }),
    decreases t.pull.blobs.len() - t.pull.at,
{
    let m = t.pull;
    if m.step is Probe {
        lemma_turn(t, source);
        let next = after_turn(t, source);
        law_pull_brings_all(next, source);
        let left = (m.blobs.len() - m.at) as nat;
        let end = after_turns(t, source, left);
        assert(end == after_turns(next, source, (left - 1) as nat));
        assert forall|name: Seq<char>| #[trigger]
            t.have.contains_key(name) implies end.have.contains_key(name) && end.have[name]
            == t.have[name] by {
            assert(next.have.contains_key(name));
        }
        assert forall|i: int|
            m.at <= i < m.blobs.len() && (#[trigger] m.blobs[i]).1 > 0
            implies end.have.contains_key(m.blobs[i].0) && (!t.have.contains_key(m.blobs[i].0)
            ==> end.have[m.blobs[i].0] == source.blobs[m.blobs[i].0]) by {
            if i > m.at {
                assert(next.pull.blobs[i] == m.blobs[i]);
            }
            if next.have.contains_key(m.blobs[i].0) {
                assert(end.have[m.blobs[i].0] == next.have[m.blobs[i].0]);
            }
        }
    }
}

/// A side that serves as [`serve`] and [`send_blob`] do is such another side: it answers
/// for each blob with what [`Source::answer`] gives, and its frames carry the blob.
pub proof fn law_this_side_serves(blobs: Blobs, list: Seq<Entry>)
    requires
        forall|i: int|
            0 <= i < list.len() ==> is_hex64((#[trigger] list[i]).0) && blobs.contains_key(
                list[i].0,
            ) && sha256_text(blobs[list[i].0]) == list[i].0 && blobs[list[i].0].len()
                == list[i].1,
    ensures
        ({
            let source = Source { blobs, cuts: blobs.map_values(|d: Seq<u8>| frames_of(d)) };
            &&& source.keeps(list, 0)
            &&& forall|name: Seq<char>| #[trigger]
                blobs.contains_key(name) ==> source.answer(name) == blob_messages(
                    name,
                    blobs[name],
                )
        }),
{
    let source = Source { blobs, cuts: blobs.map_values(|d: Seq<u8>| frames_of(d)) };
    assert forall|i: int| 0 <= i < list.len() && (#[trigger] list[i]).1 > 0 implies carries(
        source.cuts[list[i].0],
        list[i].0,
        blobs[list[i].0],
    ) by {
        lemma_hex_bytes(list[i].0);
        law_frames_carry_the_blob(list[i].0, blobs[list[i].0]);
    }
}

/// The list that is told holds every blob, in its place, with its name and its size.
pub proof fn law_told_list_holds_every_blob(entries: Seq<Entry>)
    ensures
        told_json(entries) matches JsonModel::Object(fields) && {
            &&& fields.dom() == set!["blobs"@]
            &&& fields["blobs"@] matches JsonModel::Array(items)
            &&& items.len() == entries.len()
            &&& forall|i: int|
                0 <= i < entries.len() ==> {
                    &&& has_just(#[trigger] items[i], set!["hash"@, "size"@])
                    &&& items[i]->Object_0["hash"@] == JsonModel::Text(entries[i].0)
                    &&& items[i]->Object_0["size"@] == JsonModel::Number(
                        JsonNumber::Pos(entries[i].1),
                    )
                }
        },
{
    law_list_holds_every_blob(entries);
    assert(told_json(entries)->Object_0.dom() =~= set!["blobs"@]);
}

/// What is answered to the words of the other side, as text or as bytes: to `PULL` the
/// list, to `GET` and a name the blob of that name, and to `DONE` nothing more.
pub proof fn law_words_are_answered(
    data: Vec<u8>,
    name: Seq<char>,
    next: ServeStep,
    action: ServeAction,
)
    requires
        is_hex64(name),
    ensures
        data@ == encode_utf8("PULL"@) && serve_next(
            ServeStep::First,
            ServeEvent::Message(data),
            next,
        ) && serve_action(ServeStep::First, ServeEvent::Message(data), action) ==> next is Serving
            && action is SendList,
        data@ == encode_utf8("GET "@ + name) && serve_next(
            ServeStep::Serving,
            ServeEvent::Message(data),
            next,
        ) && serve_action(ServeStep::Serving, ServeEvent::Message(data), action) ==> {
            &&& next is Serving
            &&& action matches ServeAction::Send(n, p)
            &&& n@ == name
            &&& p.dir@ + p.file@ == name
            &&& p.dir@.len() == 2
        },
        data@ == encode_utf8("DONE"@) && serve_next(
            ServeStep::Serving,
            ServeEvent::Message(data),
            next,
        ) && serve_action(ServeStep::Serving, ServeEvent::Message(data), action) ==> next is Over
            && action is Stop,
{
    law_text_arrives("PULL"@);
    law_text_arrives("DONE"@);
    law_request_is_understood(name);
    law_fanout_joins(name);
    lemma_fanout_hex(name);
}

/// A name with white space around it is heard without it; a message that does not begin
/// with `GET ` asks for nothing.
pub proof fn law_request_is_heard(
    before: Seq<char>,
    name: Seq<char>,
    behind: Seq<char>,
    text: Seq<char>,
)
    requires
        all_white(before),
        all_white(behind),
        is_hex64(name),
    ensures
        asked_for("GET "@ + (before + name + behind)) == Some(name),
        !"GET "@.is_prefix_of(text) ==> asked_for(text) is None,
{
    let rest = before + name + behind;
    let whole = "GET "@ + rest;
    let n = "GET "@.len() as int;
    assert(whole.subrange(0, n) =~= "GET "@);
    assert(whole.skip(n) =~= rest);
    assert(is_hex(name[0]) && is_hex(name.last()));
    law_trim(before, name, behind);
}

/// The serving begins with a channel, fails with its own words where none comes or nothing
/// is heard on it, and ends where the other side goes. A frame that cannot be sent fails
/// it; of anything else it makes nothing.
pub proof fn law_serving_ends(event: ServeEvent, next: ServeStep, e: String)
    ensures
        serve_next(ServeStep::Channel, ServeEvent::Opened, next) ==> next is First,
        serve_next(ServeStep::Channel, ServeEvent::Timeout, next) ==> (next matches
            ServeStep::Failed(w) && w@ == "timeout waiting data channel"@),
        serve_next(ServeStep::Channel, ServeEvent::Closed, next) ==> (next matches
            ServeStep::Failed(w) && w@ == "no data channel"@),
        serve_next(ServeStep::First, ServeEvent::Timeout, next) ==> (next matches
            ServeStep::Failed(w) && w@ == "timeout waiting PULL"@),
        serve_next(ServeStep::First, ServeEvent::Closed, next) ==> (next matches
            ServeStep::Failed(w) && w@ == "channel closed"@),
        serve_next(ServeStep::Serving, ServeEvent::Closed, next) ==> next is Over,
        serve_next(ServeStep::Serving, ServeEvent::Unsent(true, e), next) ==> next
            == ServeStep::Failed(e),
        serve_next(ServeStep::Serving, ServeEvent::Unsent(false, e), next) ==> next is Serving,
        serve_next(ServeStep::Serving, ServeEvent::Timeout, next) ==> next is Serving,
        serve_next(ServeStep::Serving, ServeEvent::Opened, next) ==> next is Serving,
        serve_next(ServeStep::First, event, next) && event is Message ==> next is Serving,
        serve_next(ServeStep::First, event, next) && (event is Opened || event is Unsent)
            ==> next is First,
        serve_next(ServeStep::Channel, event, next) && (event is Message || event is Unsent)
            ==> next is Channel,
        serve_next(ServeStep::Over, event, next) ==> next is Over,
        serve_next(ServeStep::Failed(e), event, next) ==> next == ServeStep::Failed(e),
{
}

/// For a blob that is there its frames are sent, every one and in order, as bytes; for one
/// that is not, the word that it is missing.
pub proof fn law_every_frame_is_sent(name: Seq<char>, data: Seq<u8>)
    ensures
        data.len() == 0 ==> blob_messages(name, data) == seq![OutModel::Text("MISS "@ + name)],
        data.len() > 0 ==> {
            &&& blob_messages(name, data).len() == frames_of(data).len()
            &&& forall|i: int|
                0 <= i < frames_of(data).len() ==> #[trigger] blob_messages(name, data)[i]
                    == OutModel::Binary(frames_of(data)[i])
        },
{
}

/// A whole pull: where the other side has told the list of its blobs, the pulling side has
/// after a turn for each of them every one that is not empty.
pub proof fn law_pull_of_a_told_list(
    m: PullModel,
    is_text: bool,
    data: Vec<u8>,
    list: Seq<Entry>,
    have: Blobs,
    source: Source,
)
    requires
        m.wf(),
        m.step is List,
        list_told(bytes_text(data@)) == Ok::<Seq<Entry>, Seq<char>>(list),
        source.keeps(list, 0),
        undisturbed(list, 0, have.dom(), false),
    ensures
        ({
            let pull = m.next(PullEvent::Message(is_text, data));
            let end = after_turns(
                Meeting { pull, have, pending: Seq::empty() },
                source,
                list.len(),
            );
            &&& pull.blobs == list
            &&& pull.at == 0
            &&& end.pull.step is Finish
            &&& forall|i: int|
                0 <= i < list.len() && (#[trigger] list[i]).1 > 0 ==> end.have.contains_key(
                    list[i].0,
                ) && (!have.contains_key(list[i].0) ==> end.have[list[i].0]
                    == source.blobs[list[i].0])
        }),
{
    let pull = m.next(PullEvent::Message(is_text, data));
    law_pull_stays_in_order(m, PullEvent::Message(is_text, data));
    law_none_is_passed_over(PullModel { blobs: list, at: 0, ..m });
    if list.len() > 0 {
        assert(is_hex64(list[0].0));
        law_request_is_understood(list[0].0);
        assert(askable(list[0].0));
        if pull.at > 0 {
            assert(!askable(pull.blobs[0].0));
        }
    }
    let t = Meeting { pull, have, pending: Seq::empty() };
    law_pull_brings_all(t, source);
    let end = after_turns(t, source, list.len());
    assert forall|i: int| 0 <= i < list.len() && (#[trigger] list[i]).1 > 0 implies (
    end.have.contains_key(list[i].0) && (!have.contains_key(list[i].0) ==> end.have[list[i].0]
        == source.blobs[list[i].0])) by {
        assert(pull.blobs[i] == list[i]);
    }
}

/// What is done about a message: the list is sent to `PULL` alone, and only as the first
/// word; a blob to whoever asks for one by a name that can be asked for, with that name and
/// where it lies; nothing more after `DONE`; and to anything else it is listened on.
pub proof fn law_what_is_done_about_a_message(data: Vec<u8>, action: ServeAction)
    ensures
        serve_action(ServeStep::First, ServeEvent::Message(data), action) ==> {
            &&& bytes_text(data@) == "PULL"@ ==> action is SendList
            &&& bytes_text(data@) != "PULL"@ ==> action is Listen
        },
        serve_action(ServeStep::Serving, ServeEvent::Message(data), action) ==> {
            let text = bytes_text(data@);
            let name = trimmed(text.skip(4));
            &&& text == "DONE"@ ==> action is Stop
            &&& text != "DONE"@ && !"GET "@.is_prefix_of(text) ==> action is Listen
            &&& text != "DONE"@ && "GET "@.is_prefix_of(text) && askable(name) ==> {
                &&& action matches ServeAction::Send(n, p)
                &&& n@ == name
                &&& p.dir@ + p.file@ == name
                &&& encode_utf8(p.dir@).len() == 2
            }
            &&& text != "DONE"@ && "GET "@.is_prefix_of(text) && !askable(name)
                ==> action is Listen
        },
        serve_action(ServeStep::Channel, ServeEvent::Opened, action) ==> action is Listen,
        serve_action(ServeStep::Channel, ServeEvent::Timeout, action) ==> action is Stop,
        serve_action(ServeStep::Channel, ServeEvent::Closed, action) ==> action is Stop,
        serve_action(ServeStep::First, ServeEvent::Timeout, action) ==> action is Stop,
        serve_action(ServeStep::First, ServeEvent::Closed, action) ==> action is Stop,
        serve_action(ServeStep::Serving, ServeEvent::Closed, action) ==> action is Stop,
        serve_action(ServeStep::Serving, ServeEvent::Timeout, action) ==> action is Listen,
        serve_action(ServeStep::Over, ServeEvent::Message(data), action) ==> action is Stop,
{
    reveal_strlit("GET ");
    let name = trimmed(bytes_text(data@).skip(4));
    law_fanout_joins(name);
    if askable(name) {
        let (d, f) = fanout(name)->0;
        law_fanout_cuts_after_two_bytes(d, f);
    }
}

/// A message asks for whatever stands behind `GET `, without the white space around it.
pub proof fn law_what_a_message_asks_for(rest: Seq<char>)
    ensures
        asked_for("GET "@ + rest) == Some(trimmed(rest)),
{
    let whole = "GET "@ + rest;
    let n = "GET "@.len() as int;
    assert(whole.subrange(0, n) =~= "GET "@);
    assert(whole.skip(n) =~= rest);
}

} // verus!
