//! Meeting through the signal server: where messages are left and looked for,
//! and the session descriptions in them.

use vstd::prelude::*;
use vstd::string::*;
use vstd::utf8::*;

use crate::json::{json_parse, parse_json, reads_as, text_field, Json, JsonModel};
use crate::text::{cat, cat3, decimal, decimal_text, same, strip_end, stripped_end};
use crate::text_laws::law_strip_end;

verus! {

/// How often a message is posted before giving up.
pub const POST_TRIES: u64 = 10;

/// How many seconds are waited for the other side.
pub const SIGNAL_TIMEOUT: u64 = 180;

/// The address of a path on the signal server.
pub open spec fn signal_url_of(base: Seq<char>, path: Seq<char>) -> Seq<char> {
    stripped_end(base, '/') + "/"@ + path
}

/// The address of a path on the signal server.
pub fn signal_url(base: &str, path: &str) -> (r: String)
    ensures
        r@ == signal_url_of(base@, path@),
{
    cat3(&strip_end(base, '/'), "/", path)
}

/// Where the two sides of a session leave their messages.
pub open spec fn session_path(session: Seq<char>, role: Seq<char>) -> Seq<char> {
    "s/mesh-"@ + session + "-"@ + role
}

/// What to do after a message could not be posted.
pub enum PostStep {
    /// Say this, wait, and try again.
    Again(String),
    /// Say this, and give up.
    GiveUp(String),
}

/// A failed try in words.
pub open spec fn post_words(path: Seq<char>, attempt: nat, e: Seq<char>) -> Seq<char> {
    "signal POST "@ + path + " (try "@ + decimal_text(attempt) + "): "@ + e
}

/// Decides what to do after a try, counted from one, has failed.
pub fn sig_post(path: &str, attempt: u64, e: &str) -> (r: PostStep)
    ensures
        match r {
            PostStep::Again(words) => attempt < POST_TRIES && words@ == post_words(
                path@,
                attempt as nat,
                e@,
            ),
            PostStep::GiveUp(words) => attempt >= POST_TRIES && words@ == post_words(
                path@,
                attempt as nat,
                e@,
            ),
        },
        r is Again <==> attempt < 10,
{
    let head = cat3("signal POST ", path, " (try ");
    let words = cat3(&cat(&head, &decimal(attempt)), "): ", e);
    if attempt < POST_TRIES {
        PostStep::Again(words)
    } else {
        PostStep::GiveUp(words)
    }
}

/// What the signal server answered.
pub enum SignalReply {
    /// A body.
    Body(String),
    /// A body that could not be read.
    Unreadable(String),
    /// A status that stands for an error, and that error in words.
    Status(u16, String),
    /// No answer.
    Failed(String),
}

/// What an answer of the signal server gives: a value, none, or an error.
pub open spec fn signal_got(
    path: Seq<char>,
    reply: SignalReply,
) -> Result<Option<JsonModel>, Seq<char>> {
    match reply {
        SignalReply::Body(body) => match json_parse(encode_utf8(body@)) {
            Ok(v) => Ok(Some(v)),
            Err(_) => Ok(None),
        },
        SignalReply::Unreadable(e) => Err(e@),
        SignalReply::Status(status, e) => if status == 404 {
            Ok(None)
        } else {
            Err("signal GET "@ + path + ": "@ + e@)
        },
        SignalReply::Failed(e) => Err("signal GET "@ + path + ": "@ + e@),
    }
}

/// Reads an answer of the signal server.
pub fn sig_get(path: &str, reply: SignalReply) -> (r: Result<Option<Json>, String>)
    ensures
        match r {
            Ok(Some(v)) => signal_got(path@, reply) == Ok::<Option<JsonModel>, Seq<char>>(
                Some(v.model()),
            ),
            Ok(None) => signal_got(path@, reply) == Ok::<Option<JsonModel>, Seq<char>>(None),
            Err(e) => signal_got(path@, reply) == Err::<Option<JsonModel>, Seq<char>>(e@),
        },
{
    match reply {
        SignalReply::Body(body) => match parse_json(body.as_str().as_bytes()) {
            Ok(v) => Ok(Some(v)),
            Err(_) => Ok(None),
        },
        SignalReply::Unreadable(e) => Err(e),
        SignalReply::Status(status, e) => if status == 404 {
            Ok(None)
        } else {
            Err(cat3(&cat("signal GET ", path), ": ", &e))
        },
        SignalReply::Failed(e) => Err(cat3(&cat("signal GET ", path), ": ", &e)),
    }
}

/// Where the waiting for a message stands.
pub enum WaitStep {
    /// The message is there.
    Ready(String),
    /// Look again in a while.
    Again,
    /// Stop waiting.
    Failed(String),
}

/// Decides whether a message has come. It is looked for once more after the time
/// is over.
pub fn sig_wait_msg(path: &str, got: &Result<Option<Json>, String>, late: bool) -> (r: WaitStep)
    ensures
        match *got {
            Err(e) => r == WaitStep::Failed(e),
            Ok(v) => {
                let msg = match v {
                    Some(j) => text_field(j.model(), "msg"@),
                    None => None,
                };
                match msg {
                    Some(m) => r matches WaitStep::Ready(t) && t@ == m,
                    None => if late {
                        r matches WaitStep::Failed(e) && e@ == "signal timeout waiting "@ + path@
                    } else {
                        r is Again
                    },
                }
            },
        },
{
    match got {
        Err(e) => {
            return WaitStep::Failed(e.clone());
        },
        Ok(Some(v)) => {
            if let Some(m) = v.get_text("msg") {
                return WaitStep::Ready(m);
            }
        },
        Ok(None) => {},
    }
    if late {
        WaitStep::Failed(cat("signal timeout waiting ", path))
    } else {
        WaitStep::Again
    }
}

/// Which of the two descriptions of a session.
pub enum SdpKind {
    Offer,
    Answer,
}

/// The kind in words.
pub open spec fn kind_word(kind: SdpKind) -> Seq<char> {
    match kind {
        SdpKind::Offer => "offer"@,
        SdpKind::Answer => "answer"@,
    }
}

/// A description as it is posted.
pub open spec fn sdp_json(kind: SdpKind, sdp: Seq<char>) -> JsonModel {
    JsonModel::Object(
        map!["type"@ => JsonModel::Text(kind_word(kind)), "sdp"@ => JsonModel::Text(sdp)],
    )
}

/// Builds a description as it is posted.
pub fn sdp_message(kind: SdpKind, sdp: &str) -> (r: Json)
    ensures
        r.model() == sdp_json(kind, sdp@),
{
    let word = match kind {
        SdpKind::Offer => "offer",
        SdpKind::Answer => "answer",
    };
    Json::object().with("type", Json::text(word)).with("sdp", Json::text(sdp))
}

/// How a text looks with `{:?}`: in quotes, with escapes.
pub uninterp spec fn str_debug(s: Seq<char>) -> Seq<char>;

/// `format!` with `{:?}` of a text, named by [`str_debug`].
#[verifier::external_body]
fn debug_text(s: &str) -> (r: String)
    ensures
        r@ == str_debug(s@),
{
    format!("{:?}", s)
}

/// The kind that a description gives, in the words of an error.
pub open spec fn kind_debug(kind: Option<Seq<char>>) -> Seq<char> {
    match kind {
        Some(s) => "Some("@ + str_debug(s) + ")"@,
        None => "None"@,
    }
}

/// The description in a value.
pub open spec fn sdp_in(v: JsonModel) -> Result<(SdpKind, Seq<char>), Seq<char>> {
    match text_field(v, "sdp"@) {
        None => Err("sdp body missing"@),
        Some(sdp) => {
            let kind = text_field(v, "type"@);
            if kind == Some("offer"@) {
                Ok((SdpKind::Offer, sdp))
            } else if kind == Some("answer"@) {
                Ok((SdpKind::Answer, sdp))
            } else {
                Err("unknown sdp type: "@ + kind_debug(kind))
            }
        },
    }
}

/// Reads the description in a value.
pub fn read_sdp(v: &Json) -> (r: Result<(SdpKind, String), String>)
    ensures
        match r {
            Ok(d) => sdp_in(v.model()) == Ok::<(SdpKind, Seq<char>), Seq<char>>((d.0, d.1@)),
            Err(e) => sdp_in(v.model()) == Err::<(SdpKind, Seq<char>), Seq<char>>(e@),
        },
{
    let sdp = match v.get_text("sdp") {
        Some(sdp) => sdp,
        None => {
            return Err("sdp body missing".to_owned());
        },
    };
    proof {
        reveal_strlit("offer");
        reveal_strlit("answer");
        assert("offer"@[0] != "answer"@[0]);
    }
    match v.get_text("type") {
        Some(kind) => if same(&kind, "offer") {
            Ok((SdpKind::Offer, sdp))
        } else if same(&kind, "answer") {
            Ok((SdpKind::Answer, sdp))
        } else {
            let shown = cat3("Some(", &debug_text(&kind), ")");
            Err(cat("unknown sdp type: ", &shown))
        },
        None => Err(cat("unknown sdp type: ", "None")),
    }
}

/// Why `RTCSessionDescription::offer` refuses a description; none where it takes it.
pub uninterp spec fn offer_error(sdp: Seq<char>) -> Option<Seq<char>>;

/// Why `RTCSessionDescription::answer` refuses a description; none where it takes it.
pub uninterp spec fn answer_error(sdp: Seq<char>) -> Option<Seq<char>>;

/// `webrtc`'s `RTCSessionDescription::offer`: an offer that holds this description,
/// or, where it does not parse, an error, whose text [`offer_error`] names.
#[verifier::external_body]
fn offer_of(sdp: String) -> (r: Result<String, String>)
    ensures
        match r {
            Ok(held) => offer_error(sdp@) is None && held@ == sdp@,
            Err(e) => offer_error(sdp@) == Some(e@),
        },
{
    match webrtc::peer_connection::sdp::session_description::RTCSessionDescription::offer(sdp) {
        Ok(d) => Ok(d.sdp),
        Err(e) => Err(e.to_string()),
    }
}

/// `webrtc`'s `RTCSessionDescription::answer`: an answer that holds this description,
/// or, where it does not parse, an error, whose text [`answer_error`] names.
#[verifier::external_body]
fn answer_of(sdp: String) -> (r: Result<String, String>)
    ensures
        match r {
            Ok(held) => answer_error(sdp@) is None && held@ == sdp@,
            Err(e) => answer_error(sdp@) == Some(e@),
        },
{
    match webrtc::peer_connection::sdp::session_description::RTCSessionDescription::answer(sdp) {
        Ok(d) => Ok(d.sdp),
        Err(e) => Err(e.to_string()),
    }
}

/// Why a description is refused; none where it is taken.
pub open spec fn sdp_error(kind: SdpKind, sdp: Seq<char>) -> Option<Seq<char>> {
    match kind {
        SdpKind::Offer => offer_error(sdp),
        SdpKind::Answer => answer_error(sdp),
    }
}

/// The description in the text of a message, where it is taken.
pub open spec fn sdp_of(msg: Seq<char>) -> Result<(SdpKind, Seq<char>), Seq<char>> {
    match json_parse(encode_utf8(msg)) {
        Ok(v) => match sdp_in(v) {
            Ok((kind, sdp)) => match sdp_error(kind, sdp) {
                None => Ok((kind, sdp)),
                Some(e) => Err(e),
            },
            Err(e) => Err(e),
        },
        Err(e) => Err(e),
    }
}

/// Reads the description in the text of a message.
pub fn parse_sdp(msg: &str) -> (r: Result<(SdpKind, String), String>)
    ensures
        match r {
            Ok(d) => sdp_of(msg@) == Ok::<(SdpKind, Seq<char>), Seq<char>>((d.0, d.1@)),
            Err(e) => sdp_of(msg@) == Err::<(SdpKind, Seq<char>), Seq<char>>(e@),
        },
{
    match parse_json(msg.as_bytes()) {
        Ok(v) => match read_sdp(&v) {
            Ok((SdpKind::Offer, sdp)) => match offer_of(sdp) {
                Ok(sdp) => Ok((SdpKind::Offer, sdp)),
                Err(e) => Err(e),
            },
            Ok((SdpKind::Answer, sdp)) => match answer_of(sdp) {
                Ok(sdp) => Ok((SdpKind::Answer, sdp)),
                Err(e) => Err(e),
            },
            Err(e) => Err(e),
        },
        Err(e) => Err(e),
    }
}

/// A description that is posted is read as it was, from each text that reads back as
/// what was posted, unless the description itself is refused.
pub proof fn law_description_is_read_back(kind: SdpKind, sdp: Seq<char>, msg: Seq<char>)
    requires
        reads_as(msg, sdp_json(kind, sdp)),
    ensures
        sdp_of(msg) == match sdp_error(kind, sdp) {
            None => Ok::<(SdpKind, Seq<char>), Seq<char>>((kind, sdp)),
            Some(e) => Err(e),
        },
{
    reveal_strlit("offer");
    reveal_strlit("answer");
    reveal_strlit("type");
    reveal_strlit("sdp");
    assert("offer"@[0] != "answer"@[0]);
    assert("type"@[0] != "sdp"@[0]);
}

/// A path lies below the address of the signal server, with one `/` between them however
/// many the address ends with.
pub proof fn law_paths_lie_below_the_server(base: Seq<char>, path: Seq<char>)
    ensures
        signal_url_of(base.push('/'), path) == signal_url_of(base, path),
        base.len() == 0 || base.last() != '/' ==> signal_url_of(base, path) == base + "/"@ + path,
{
    law_strip_end(base, '/');
}

/// Where the sides of a session leave their descriptions, and what a try to post that
/// failed comes to in words.
pub proof fn law_words_of_a_session(
    session: Seq<char>,
    path: Seq<char>,
    attempt: nat,
    e: Seq<char>,
)
    ensures
        session_path(session, kind_word(SdpKind::Offer)) == "s/mesh-"@ + session + "-"@ + "offer"@,
        session_path(session, kind_word(SdpKind::Answer)) == "s/mesh-"@ + session + "-"@
            + "answer"@,
        post_words(path, attempt, e) == "signal POST "@ + path + " (try "@ + decimal_text(attempt)
            + "): "@ + e,
{
}

/// What the signal server answered: a body that reads is its value, one that does not and
/// the status 404 are nothing, and all else is an error that names the path.
pub proof fn law_answers_of_the_server(
    path: Seq<char>,
    body: String,
    v: JsonModel,
    status: u16,
    e: String,
)
    ensures
        reads_as(body@, v) ==> signal_got(path, SignalReply::Body(body)) == Ok::<
            Option<JsonModel>,
            Seq<char>,
        >(Some(v)),
        json_parse(encode_utf8(body@)) is Err ==> signal_got(path, SignalReply::Body(body)) == Ok::<
            Option<JsonModel>,
            Seq<char>,
        >(None),
        signal_got(path, SignalReply::Unreadable(e)) == Err::<Option<JsonModel>, Seq<char>>(e@),
        signal_got(path, SignalReply::Status(404, e)) == Ok::<Option<JsonModel>, Seq<char>>(None),
        status != 404 ==> signal_got(path, SignalReply::Status(status, e)) == Err::<
            Option<JsonModel>,
            Seq<char>,
        >("signal GET "@ + path + ": "@ + e@),
        signal_got(path, SignalReply::Failed(e)) == Err::<Option<JsonModel>, Seq<char>>(
            "signal GET "@ + path + ": "@ + e@,
        ),
{
}

/// A value gives a description where it has a text for it and for its kind, and the kind is
/// one of the two; otherwise it is told what is missing or not known.
pub proof fn law_value_gives_a_description(fields: Map<Seq<char>, JsonModel>)
    ensures
        !(fields.contains_key("sdp"@) && fields["sdp"@] is Text) ==> sdp_in(
            JsonModel::Object(fields),
        ) == Err::<(SdpKind, Seq<char>), Seq<char>>("sdp body missing"@),
        fields.contains_key("sdp"@) && fields["sdp"@] is Text ==> {
            let sdp = fields["sdp"@]->Text_0;
            let got = sdp_in(JsonModel::Object(fields));
            if fields.contains_key("type"@) && fields["type"@] is Text {
                let kind = fields["type"@]->Text_0;
                &&& kind == "offer"@ ==> got == Ok::<(SdpKind, Seq<char>), Seq<char>>(
                    (SdpKind::Offer, sdp),
                )
                &&& kind == "answer"@ ==> got == Ok::<(SdpKind, Seq<char>), Seq<char>>(
                    (SdpKind::Answer, sdp),
                )
                &&& kind != "offer"@ && kind != "answer"@ ==> got == Err::<
                    (SdpKind, Seq<char>),
                    Seq<char>,
                >("unknown sdp type: "@ + ("Some("@ + str_debug(kind) + ")"@))
            } else {
                got == Err::<(SdpKind, Seq<char>), Seq<char>>("unknown sdp type: "@ + "None"@)
            }
        },
{
    reveal_strlit("offer");
    reveal_strlit("answer");
    assert("offer"@[0] != "answer"@[0]);
}

/// What is posted of a description: its kind and the whole of it, and nothing else.
pub proof fn law_description_is_posted(kind: SdpKind, sdp: Seq<char>)
    ensures
        sdp_json(kind, sdp) matches JsonModel::Object(fields) && {
            &&& fields.dom() == set!["type"@, "sdp"@]
            &&& fields["sdp"@] == JsonModel::Text(sdp)
            &&& fields["type"@] == JsonModel::Text(
                match kind {
                    SdpKind::Offer => "offer"@,
                    SdpKind::Answer => "answer"@,
                },
            )
        },
{
    reveal_strlit("type");
    reveal_strlit("sdp");
    assert("type"@[0] != "sdp"@[0]);
    assert(sdp_json(kind, sdp)->Object_0.dom() =~= set!["type"@, "sdp"@]);
}

/// A message gives the description in it, unless that is refused, or the message does not
/// read, or there is none in it: then it gives the reason.
pub proof fn law_message_gives_its_description(
    msg: Seq<char>,
    v: JsonModel,
    kind: SdpKind,
    sdp: Seq<char>,
    e: Seq<char>,
)
    ensures
        json_parse(encode_utf8(msg)) == Err::<JsonModel, Seq<char>>(e) ==> sdp_of(msg) == Err::<
            (SdpKind, Seq<char>),
            Seq<char>,
        >(e),
        reads_as(msg, v) && sdp_in(v) == Err::<(SdpKind, Seq<char>), Seq<char>>(e) ==> sdp_of(msg)
            == Err::<(SdpKind, Seq<char>), Seq<char>>(e),
        reads_as(msg, v) && sdp_in(v) == Ok::<(SdpKind, Seq<char>), Seq<char>>((kind, sdp)) ==> {
            let refused = match kind {
                SdpKind::Offer => offer_error(sdp),
                SdpKind::Answer => answer_error(sdp),
            };
            sdp_of(msg) == match refused {
                None => Ok::<(SdpKind, Seq<char>), Seq<char>>((kind, sdp)),
                Some(e) => Err(e),
            }
        },
{
}

} // verus!
