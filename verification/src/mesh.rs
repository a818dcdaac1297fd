//! One side of a mesh from start to end: the two nodes swap their descriptions through
//! the signal server, connect, and the one that made the offer pulls from the other.

use vstd::prelude::*;
use vstd::string::*;

use crate::json::Json;
use crate::signal::{
    kind_word, parse_sdp, sdp_json, sdp_message, sdp_of, session_path, SdpKind,
};
use crate::text::{cat, cat3, same, strip_end, stripped_end};

verus! {

/// How often it is looked whether a description has been gathered.
pub const GATHER_TRIES: u32 = 100;

/// How often it is looked whether the channel is open.
pub const OPEN_TRIES: u32 = 120;

/// What a mesh is started with.
pub struct MeshArgs {
    pub role: String,
    pub signal: String,
    pub session: String,
    pub root: String,
}

/// What is to be done next.
pub enum MeshStep {
    /// Make this side's description.
    Describe,
    /// Post it.
    Post(String),
    /// Wait for the other side's description.
    Wait,
    /// Take the other side's description.
    Accept(SdpKind, String),
    /// Wait until the channel is open.
    Open,
    /// Pull, or let the other side pull.
    Transfer,
    /// Nothing: the connection can be closed.
    Over,
    /// Nothing: a step failed.
    Failed(String),
}

/// What came of it.
pub enum MeshEvent {
    /// The description that this side has by now, if any.
    Described(Option<String>),
    /// The other side's message.
    Message(String),
    /// What was to be done is.
    Done,
    /// It could not be done.
    Error(String),
}

/// One side of a mesh.
pub struct Mesh {
    pub role: SdpKind,
    pub base: String,
    pub offer_path: String,
    pub answer_path: String,
    pub step: MeshStep,
}

/// A [`MeshStep`] as mathematics.
pub enum MeshStepModel {
    Describe,
    Post(Seq<char>),
    Wait,
    Accept(SdpKind, Seq<char>),
    Open,
    Transfer,
    Over,
    Failed(Seq<char>),
}

impl View for MeshStep {
    type V = MeshStepModel;

    open spec fn view(&self) -> MeshStepModel {
        match self {
            MeshStep::Describe => MeshStepModel::Describe,
            MeshStep::Post(sdp) => MeshStepModel::Post(sdp@),
            MeshStep::Wait => MeshStepModel::Wait,
            MeshStep::Accept(kind, sdp) => MeshStepModel::Accept(*kind, sdp@),
            MeshStep::Open => MeshStepModel::Open,
            MeshStep::Transfer => MeshStepModel::Transfer,
            MeshStep::Over => MeshStepModel::Over,
            MeshStep::Failed(e) => MeshStepModel::Failed(e@),
        }
    }
}

/// The step that a side begins with: the one that offers describes itself, the other
/// waits.
pub open spec fn first_step(role: SdpKind) -> MeshStepModel {
    match role {
        SdpKind::Offer => MeshStepModel::Describe,
        SdpKind::Answer => MeshStepModel::Wait,
    }
}

/// The step after this one.
pub open spec fn mesh_next(role: SdpKind, step: MeshStepModel, event: MeshEvent) -> MeshStepModel {
    match (step, event) {
        (MeshStepModel::Describe, MeshEvent::Described(sdp)) => match sdp {
            Some(sdp) => MeshStepModel::Post(sdp@),
            None => MeshStepModel::Failed("no local description"@),
        },
        (MeshStepModel::Post(_), MeshEvent::Done) => match role {
            SdpKind::Offer => MeshStepModel::Wait,
            SdpKind::Answer => MeshStepModel::Transfer,
        },
        (MeshStepModel::Wait, MeshEvent::Message(msg)) => match sdp_of(msg@) {
            Ok((kind, sdp)) => MeshStepModel::Accept(kind, sdp),
            Err(e) => MeshStepModel::Failed(e),
        },
        (MeshStepModel::Accept(_, _), MeshEvent::Done) => match role {
            SdpKind::Offer => MeshStepModel::Open,
            SdpKind::Answer => MeshStepModel::Describe,
        },
        (MeshStepModel::Open, MeshEvent::Done) => MeshStepModel::Transfer,
        (MeshStepModel::Transfer, MeshEvent::Done) => MeshStepModel::Over,
        (MeshStepModel::Over, _) => MeshStepModel::Over,
        (MeshStepModel::Failed(e), _) => MeshStepModel::Failed(e),
        (_, MeshEvent::Error(e)) => MeshStepModel::Failed(e@),
        (step, _) => step,
    }
}

/// What is to be done next, in full.
pub enum MeshAction {
    /// Make a description of this kind, take it for this side's, and gather it.
    Describe(SdpKind),
    /// Post this value at this path.
    Post(String, Json),
    /// Wait for a message at this path.
    Wait(String),
    /// Take this description for the other side's.
    Accept(SdpKind, String),
    /// Wait until the channel is open.
    Open,
    /// Pull.
    Pull,
    /// Let the other side pull.
    Serve,
    /// Nothing: the connection can be closed.
    Over,
    /// Nothing: a step failed.
    Failed(String),
}

/// The kind that the other side has.
pub open spec fn other_kind(kind: SdpKind) -> SdpKind {
    match kind {
        SdpKind::Offer => SdpKind::Answer,
        SdpKind::Answer => SdpKind::Offer,
    }
}

impl Mesh {
    /// The side that these arguments start, at its first step.
    pub open spec fn starts(self, role: SdpKind, signal: Seq<char>, session: Seq<char>) -> bool {
        &&& self.role == role
        &&& self.base@ == stripped_end(signal, '/')
        &&& self.wf(session)
        &&& self.step@ == first_step(role)
    }

    /// The paths are those of the session.
    pub open spec fn wf(self, session: Seq<char>) -> bool {
        &&& self.offer_path@ == session_path(session, "offer"@)
        &&& self.answer_path@ == session_path(session, "answer"@)
    }

    /// The path where a description of this kind is left.
    pub open spec fn path_of(self, kind: SdpKind) -> Seq<char> {
        match kind {
            SdpKind::Offer => self.offer_path@,
            SdpKind::Answer => self.answer_path@,
        }
    }

    /// What is to be done next. Each side posts at the path of its own kind, and waits
    /// at the path of the other.
    pub fn action(&self) -> (r: MeshAction)
        ensures
            match self.step {
                MeshStep::Describe => r == MeshAction::Describe(self.role),
                MeshStep::Post(sdp) => r matches MeshAction::Post(path, body) && path@
                    == self.path_of(self.role) && body.model() == sdp_json(self.role, sdp@),
                MeshStep::Wait => r matches MeshAction::Wait(path) && path@ == self.path_of(
                    other_kind(self.role),
                ),
                MeshStep::Accept(kind, sdp) => r == MeshAction::Accept(kind, sdp),
                MeshStep::Open => r is Open,
                MeshStep::Transfer => match self.role {
                    SdpKind::Offer => r is Pull,
                    SdpKind::Answer => r is Serve,
                },
                MeshStep::Over => r is Over,
                MeshStep::Failed(e) => r == MeshAction::Failed(e),
            },
    {
        let offers = matches!(self.role, SdpKind::Offer);
        match &self.step {
            MeshStep::Describe => MeshAction::Describe(
                if offers {
                    SdpKind::Offer
                } else {
                    SdpKind::Answer
                },
            ),
            MeshStep::Post(sdp) => if offers {
                MeshAction::Post(self.offer_path.clone(), sdp_message(SdpKind::Offer, sdp))
            } else {
                MeshAction::Post(self.answer_path.clone(), sdp_message(SdpKind::Answer, sdp))
            },
            MeshStep::Wait => if offers {
                MeshAction::Wait(self.answer_path.clone())
            } else {
                MeshAction::Wait(self.offer_path.clone())
            },
            MeshStep::Accept(SdpKind::Offer, sdp) => MeshAction::Accept(
                SdpKind::Offer,
                sdp.clone(),
            ),
            MeshStep::Accept(SdpKind::Answer, sdp) => MeshAction::Accept(
                SdpKind::Answer,
                sdp.clone(),
            ),
            MeshStep::Open => MeshAction::Open,
            MeshStep::Transfer => if offers {
                MeshAction::Pull
            } else {
                MeshAction::Serve
            },
            MeshStep::Over => MeshAction::Over,
            MeshStep::Failed(e) => MeshAction::Failed(e.clone()),
        }
    }

    /// Goes on after what came of the last action.
    pub fn advance(&mut self, event: MeshEvent)
        ensures
            final(self).step@ == mesh_next(old(self).role, old(self).step@, event),
            final(self).role == old(self).role,
            final(self).base == old(self).base,
            final(self).offer_path == old(self).offer_path,
            final(self).answer_path == old(self).answer_path,
    {
        let offers = matches!(self.role, SdpKind::Offer);
        match (&self.step, event) {
            (MeshStep::Describe, MeshEvent::Described(Some(sdp))) => {
                self.step = MeshStep::Post(sdp);
            },
            (MeshStep::Describe, MeshEvent::Described(None)) => {
                self.step = MeshStep::Failed("no local description".to_owned());
            },
            (MeshStep::Post(_), MeshEvent::Done) => {
                self.step = if offers {
                    MeshStep::Wait
                } else {
                    MeshStep::Transfer
                };
            },
            (MeshStep::Wait, MeshEvent::Message(msg)) => {
                self.step = match parse_sdp(&msg) {
                    Ok((kind, sdp)) => MeshStep::Accept(kind, sdp),
                    Err(e) => MeshStep::Failed(e),
                };
            },
            (MeshStep::Accept(_, _), MeshEvent::Done) => {
                self.step = if offers {
                    MeshStep::Open
                } else {
                    MeshStep::Describe
                };
            },
            (MeshStep::Open, MeshEvent::Done) => {
                self.step = MeshStep::Transfer;
            },
            (MeshStep::Transfer, MeshEvent::Done) => {
                self.step = MeshStep::Over;
            },
            (MeshStep::Over, _) => {},
            (MeshStep::Failed(_), _) => {},
            (_, MeshEvent::Error(e)) => {
                self.step = MeshStep::Failed(e);
            },
            _ => {},
        }
    }
}

/// Starts one side of a mesh: the one that offers or the one that answers.
pub fn run(args: &MeshArgs) -> (r: Result<Mesh, String>)
    ensures
        match r {
            Ok(m) => {
                ||| args.role@ == "offer"@ && m.starts(
                    SdpKind::Offer,
                    args.signal@,
                    args.session@,
                )
                ||| args.role@ == "answer"@ && m.starts(
                    SdpKind::Answer,
                    args.signal@,
                    args.session@,
                )
            },
            Err(e) => {
                &&& args.role@ != "offer"@
                &&& args.role@ != "answer"@
                &&& e@ == "unknown role: "@ + args.role@ + " (offer|answer)"@
            },
        },
{
    let base = strip_end(&args.signal, '/');
    let head = cat3("s/mesh-", &args.session, "-");
    let offer_path = cat(&head, "offer");
    let answer_path = cat(&head, "answer");
    if same(&args.role, "offer") {
        Ok(
            Mesh {
                role: SdpKind::Offer,
                base,
                offer_path,
                answer_path,
                step: MeshStep::Describe,
            },
        )
    } else if same(&args.role, "answer") {
        Ok(Mesh { role: SdpKind::Answer, base, offer_path, answer_path, step: MeshStep::Wait })
    } else {
        Err(cat3("unknown role: ", &args.role, " (offer|answer)"))
    }
}

/// Whether to look once more: not when it is ready, and not more often than the limit
/// says.
pub fn look_again(tries: u32, limit: u32, ready: bool) -> (r: bool)
    ensures
        r == (tries < limit && !ready),
{
    tries < limit && !ready
}

/// The two sides of a session meet: each waits where the other posts, and neither finds
/// its own description there.
pub proof fn law_sides_meet(
    offers: Mesh,
    answers: Mesh,
    signal: Seq<char>,
    session: Seq<char>,
)
    requires
        offers.starts(SdpKind::Offer, signal, session),
        answers.starts(SdpKind::Answer, signal, session),
    ensures
        offers.base@ == answers.base@,
        offers.path_of(other_kind(offers.role)) == answers.path_of(answers.role),
        answers.path_of(other_kind(answers.role)) == offers.path_of(offers.role),
        offers.path_of(offers.role) != offers.path_of(other_kind(offers.role)),
{
    reveal_strlit("offer");
    reveal_strlit("answer");
    assert(offers.offer_path@.len() != offers.answer_path@.len());
}

/// Two sessions with different names do not meet.
pub proof fn law_sessions_are_apart(a: Seq<char>, b: Seq<char>, kind: SdpKind, other: SdpKind)
    ensures
        session_path(a, kind_word(kind)) == session_path(b, kind_word(other)) ==> a == b && kind
            == other,
{
    reveal_strlit("offer");
    reveal_strlit("answer");
    reveal_strlit("-");
    reveal_strlit("s/mesh-");
    let p = session_path(a, kind_word(kind));
    let q = session_path(b, kind_word(other));
    assert(p.last() == 'r');
    assert(q.last() == 'r');
    assert(p[p.len() - 2] == 'e');
    assert(kind is Offer ==> p[p.len() - 3] == 'f');
    assert(kind is Answer ==> p[p.len() - 3] == 'w');
    assert(other is Offer ==> q[q.len() - 3] == 'f');
    assert(other is Answer ==> q[q.len() - 3] == 'w');
    if p == q {
        assert(kind == other);
        assert(a.len() == b.len());
        assert(a =~= p.subrange(7, 7 + a.len() as int));
        assert(b =~= q.subrange(7, 7 + b.len() as int));
    }
}

/// How far a side has come.
pub open spec fn mesh_left(role: SdpKind, step: MeshStepModel) -> nat {
    match (role, step) {
        (SdpKind::Offer, MeshStepModel::Describe) => 6,
        (SdpKind::Offer, MeshStepModel::Post(_)) => 5,
        (SdpKind::Offer, MeshStepModel::Wait) => 4,
        (SdpKind::Offer, MeshStepModel::Accept(_, _)) => 3,
        (SdpKind::Answer, MeshStepModel::Wait) => 6,
        (SdpKind::Answer, MeshStepModel::Accept(_, _)) => 5,
        (SdpKind::Answer, MeshStepModel::Describe) => 4,
        (SdpKind::Answer, MeshStepModel::Post(_)) => 3,
        (_, MeshStepModel::Open) => 2,
        (_, MeshStepModel::Transfer) => 1,
        (_, _) => 0,
    }
}

/// A side never goes back: each event leaves it where it is, takes it on, or ends it,
/// and once it has ended nothing changes it.
pub proof fn law_mesh_goes_on(role: SdpKind, step: MeshStepModel, event: MeshEvent)
    ensures
        mesh_next(role, step, event) == step || mesh_left(role, mesh_next(role, step, event))
            < mesh_left(role, step),
        mesh_left(role, step) == 0 ==> mesh_next(role, step, event) == step,
        event is Error ==> mesh_left(role, mesh_next(role, step, event)) == 0,
{
}

/// The side that offers describes itself, posts that description, waits for the other's,
/// takes it, waits for the channel, and pulls; then it is over.
pub proof fn law_offering_side(sdp: String, msg: String, kind: SdpKind, other: Seq<char>)
    requires
        sdp_of(msg@) == Ok::<(SdpKind, Seq<char>), Seq<char>>((kind, other)),
    ensures
        ({
            let role = SdpKind::Offer;
            let posts = mesh_next(role, first_step(role), MeshEvent::Described(Some(sdp)));
            let waits = mesh_next(role, posts, MeshEvent::Done);
            let takes = mesh_next(role, waits, MeshEvent::Message(msg));
            let opens = mesh_next(role, takes, MeshEvent::Done);
            let pulls = mesh_next(role, opens, MeshEvent::Done);
            let ends = mesh_next(role, pulls, MeshEvent::Done);
            &&& first_step(role) is Describe
            &&& posts == MeshStepModel::Post(sdp@)
            &&& waits is Wait
            &&& takes == MeshStepModel::Accept(kind, other)
            &&& opens is Open
            &&& pulls is Transfer
            &&& ends is Over
        }),
{
}

/// The side that answers waits for the other's description, takes it, describes itself,
/// posts that description, and serves; then it is over.
pub proof fn law_answering_side(sdp: String, msg: String, kind: SdpKind, other: Seq<char>)
    requires
        sdp_of(msg@) == Ok::<(SdpKind, Seq<char>), Seq<char>>((kind, other)),
    ensures
        ({
            let role = SdpKind::Answer;
            let takes = mesh_next(role, first_step(role), MeshEvent::Message(msg));
            let describes = mesh_next(role, takes, MeshEvent::Done);
            let posts = mesh_next(role, describes, MeshEvent::Described(Some(sdp)));
            let serves = mesh_next(role, posts, MeshEvent::Done);
            let ends = mesh_next(role, serves, MeshEvent::Done);
            &&& first_step(role) is Wait
            &&& takes == MeshStepModel::Accept(kind, other)
            &&& describes is Describe
            &&& posts == MeshStepModel::Post(sdp@)
            &&& serves is Transfer
            &&& ends is Over
        }),
{
}

/// A side fails with its own error wherever it stands, with the reason where the other's
/// description cannot be used, and where it has none of its own.
pub proof fn law_mesh_tells_why_it_fails(
    role: SdpKind,
    step: MeshStepModel,
    msg: String,
    e: String,
    reason: Seq<char>,
)
    ensures
        !(step is Over) && !(step is Failed) ==> mesh_next(role, step, MeshEvent::Error(e))
            == MeshStepModel::Failed(e@),
        sdp_of(msg@) == Err::<(SdpKind, Seq<char>), Seq<char>>(reason) ==> mesh_next(
            role,
            MeshStepModel::Wait,
            MeshEvent::Message(msg),
        ) == MeshStepModel::Failed(reason),
        mesh_next(role, MeshStepModel::Describe, MeshEvent::Described(None))
            == MeshStepModel::Failed("no local description"@),
{
}

/// What does not fit a step changes nothing, unless it is an error; and each side has the
/// other for its other.
pub proof fn law_what_does_not_fit_a_mesh(role: SdpKind, step: MeshStepModel, event: MeshEvent)
    ensures
        step is Describe && !(event is Described) && !(event is Error) ==> mesh_next(
            role,
            step,
            event,
        ) == step,
        step is Wait && !(event is Message) && !(event is Error) ==> mesh_next(role, step, event)
            == step,
        (step is Post || step is Accept || step is Open || step is Transfer) && !(event is Done)
            && !(event is Error) ==> mesh_next(role, step, event) == step,
        step is Over || step is Failed ==> mesh_next(role, step, event) == step,
        other_kind(role) != role,
{
}

} // verus!
