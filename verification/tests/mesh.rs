use cache_node::cli::{command, find_flag, mesh_args, settings, Command};
use cache_node::ice::{ice_files, ice_servers, read_servers};
use cache_node::json::{canon, parse_json, Json};
use cache_node::mesh::{look_again, run, Mesh, MeshAction, MeshArgs, MeshEvent, MeshStep};
use cache_node::signal::{
    parse_sdp, read_sdp, sdp_message, sig_get, sig_post, sig_wait_msg, signal_url, PostStep,
    SdpKind, SignalReply, WaitStep, POST_TRIES,
};

const SDP: &str = "v=0\r\no=- 1 1 IN IP4 0.0.0.0\r\ns=-\r\nt=0 0\r\n";

fn words(list: &[&str]) -> Vec<String> {
    list.iter().map(|s| s.to_string()).collect()
}

fn args(role: &str) -> MeshArgs {
    MeshArgs {
        role: role.to_string(),
        signal: "https://example.org/signal//".to_string(),
        session: "s1".to_string(),
        root: "blobs".to_string(),
    }
}

fn side(role: &str) -> Mesh {
    match run(&args(role)) {
        Ok(m) => m,
        Err(e) => panic!("{e}"),
    }
}

#[test]
fn addresses_are_joined() {
    assert_eq!(signal_url("https://h/signal/", "s/x"), "https://h/signal/s/x");
    assert_eq!(signal_url("https://h", "s/x"), "https://h/s/x");
}

#[test]
fn posting_is_tried_ten_times() {
    for n in 1..=10u64 {
        let expected = format!("signal POST s/x (try {n}): down");
        match sig_post("s/x", n, "down") {
            PostStep::Again(w) => {
                assert!(n < POST_TRIES);
                assert_eq!(w, expected);
            }
            PostStep::GiveUp(w) => {
                assert_eq!(n, 10);
                assert_eq!(w, expected);
            }
        }
    }
}

#[test]
fn answers_of_the_signal_server_are_read() {
    let body = SignalReply::Body("{\"msg\":\"hi\"}".to_string());
    let got = sig_get("s/x", body);
    assert!(matches!(sig_wait_msg("s/x", &got, true), WaitStep::Ready(m) if m == "hi"));
    assert!(matches!(sig_get("s/x", SignalReply::Body("nope".to_string())), Ok(None)));
    assert!(matches!(sig_get("s/x", SignalReply::Status(404, "e".to_string())), Ok(None)));
    let err = |r| match sig_get("s/x", r) {
        Err(e) => e,
        Ok(_) => panic!("read"),
    };
    assert_eq!(err(SignalReply::Status(500, "oops".to_string())), "signal GET s/x: oops");
    assert_eq!(err(SignalReply::Failed("dns".to_string())), "signal GET s/x: dns");
    assert_eq!(err(SignalReply::Unreadable("too long".to_string())), "too long");
}

#[test]
fn waiting_ends_in_time() {
    let none: Result<Option<Json>, String> = Ok(None);
    assert!(matches!(sig_wait_msg("s/x", &none, false), WaitStep::Again));
    assert!(
        matches!(sig_wait_msg("s/x", &none, true), WaitStep::Failed(e) if e == "signal timeout waiting s/x")
    );
    let odd = Ok(Some(Json::object().with("msg", Json::number(1))));
    assert!(matches!(sig_wait_msg("s/x", &odd, false), WaitStep::Again));
    let bad: Result<Option<Json>, String> = Err("down".to_string());
    assert!(matches!(sig_wait_msg("s/x", &bad, false), WaitStep::Failed(e) if e == "down"));
}

#[test]
fn descriptions_are_read_back() {
    let offer = canon(&sdp_message(SdpKind::Offer, SDP));
    match parse_sdp(&offer) {
        Ok((kind, sdp)) => {
            assert!(matches!(kind, SdpKind::Offer));
            assert_eq!(sdp, SDP);
        }
        Err(e) => panic!("{e}"),
    }
    match parse_sdp(&canon(&sdp_message(SdpKind::Answer, SDP))) {
        Ok((kind, sdp)) => {
            assert!(matches!(kind, SdpKind::Answer));
            assert_eq!(sdp, SDP);
        }
        Err(e) => panic!("{e}"),
    }
    assert_eq!(canon(&sdp_message(SdpKind::Offer, "x")), "{\"sdp\":\"x\",\"type\":\"offer\"}");
}

#[test]
fn odd_descriptions_are_refused() {
    let err = |text: &str| match parse_sdp(text) {
        Err(e) => e,
        Ok(_) => panic!("read"),
    };
    assert_eq!(err("{\"type\":\"offer\"}"), "sdp body missing");
    assert_eq!(
        err("{\"type\":\"pr\\\"answer\",\"sdp\":\"x\"}"),
        "unknown sdp type: Some(\"pr\\\"answer\")"
    );
    assert_eq!(err("{\"sdp\":\"x\"}"), "unknown sdp type: None");
    assert!(err("{").contains("EOF"));
    assert!(!err("{\"type\":\"offer\",\"sdp\":\"x\"}").is_empty());
    assert!(!err("{\"type\":\"answer\",\"sdp\":\"x\"}").is_empty());
}

#[test]
fn description_in_a_value_is_read() {
    let v = parse_json(b"{\"type\":\"answer\",\"sdp\":\"x\"}").ok().unwrap();
    assert!(matches!(read_sdp(&v), Ok((SdpKind::Answer, s)) if s == "x"));
}

#[test]
fn unknown_role_is_refused() {
    match run(&args("both")) {
        Err(e) => assert_eq!(e, "unknown role: both (offer|answer)"),
        Ok(_) => panic!("started"),
    }
}

#[test]
fn sides_meet_at_their_paths() {
    let offers = side("offer");
    let answers = side("answer");
    assert_eq!(offers.base, "https://example.org/signal");
    assert_eq!(offers.offer_path, "s/mesh-s1-offer");
    assert_eq!(offers.answer_path, "s/mesh-s1-answer");
    assert_eq!(offers.answer_path, answers.answer_path);
    assert!(matches!(answers.action(), MeshAction::Wait(p) if p == offers.offer_path));
}

#[test]
fn offering_side_runs_to_its_end() {
    let mut m = side("offer");
    assert!(matches!(m.action(), MeshAction::Describe(SdpKind::Offer)));
    m.advance(MeshEvent::Described(Some(SDP.to_string())));
    match m.action() {
        MeshAction::Post(path, body) => {
            assert_eq!(path, "s/mesh-s1-offer");
            assert_eq!(canon(&body), canon(&sdp_message(SdpKind::Offer, SDP)));
        }
        _ => panic!("no post"),
    }
    m.advance(MeshEvent::Done);
    assert!(matches!(m.action(), MeshAction::Wait(p) if p == "s/mesh-s1-answer"));
    m.advance(MeshEvent::Message(canon(&sdp_message(SdpKind::Answer, SDP))));
    assert!(matches!(m.action(), MeshAction::Accept(SdpKind::Answer, s) if s == SDP));
    m.advance(MeshEvent::Done);
    assert!(matches!(m.action(), MeshAction::Open));
    m.advance(MeshEvent::Done);
    assert!(matches!(m.action(), MeshAction::Pull));
    m.advance(MeshEvent::Done);
    assert!(matches!(m.action(), MeshAction::Over));
}

#[test]
fn answering_side_runs_to_its_end() {
    let mut m = side("answer");
    m.advance(MeshEvent::Message(canon(&sdp_message(SdpKind::Offer, SDP))));
    m.advance(MeshEvent::Done);
    assert!(matches!(m.action(), MeshAction::Describe(SdpKind::Answer)));
    m.advance(MeshEvent::Described(Some(SDP.to_string())));
    assert!(matches!(m.action(), MeshAction::Post(p, _) if p == "s/mesh-s1-answer"));
    m.advance(MeshEvent::Done);
    assert!(matches!(m.action(), MeshAction::Serve));
    m.advance(MeshEvent::Done);
    assert!(matches!(m.action(), MeshAction::Over));
    m.advance(MeshEvent::Error("late".to_string()));
    assert!(matches!(m.step, MeshStep::Over));
}

#[test]
fn failures_end_a_side() {
    let mut m = side("offer");
    m.advance(MeshEvent::Described(None));
    assert!(matches!(m.action(), MeshAction::Failed(e) if e == "no local description"));
    let mut m = side("answer");
    m.advance(MeshEvent::Message("{}".to_string()));
    assert!(matches!(m.action(), MeshAction::Failed(e) if e == "sdp body missing"));
    let mut m = side("answer");
    m.advance(MeshEvent::Error("timeout".to_string()));
    assert!(matches!(m.action(), MeshAction::Failed(e) if e == "timeout"));
}

#[test]
fn looking_has_a_limit() {
    assert!(look_again(0, 100, false));
    assert!(!look_again(100, 100, false));
    assert!(!look_again(3, 100, true));
}

#[test]
fn list_beside_the_program_comes_first() {
    assert_eq!(
        ice_files(Some("/opt/ice-servers.json".to_string())),
        words(&["/opt/ice-servers.json", "ice-servers.json", "/home/radxa/ice-servers.json"])
    );
    assert_eq!(ice_files(None), words(&["ice-servers.json", "/home/radxa/ice-servers.json"]));
}

#[test]
fn servers_come_from_the_first_list_with_any() {
    let list = "{\"primary\":[{\"urls\":\"turn:a\",\"username\":\"u\",\"credential\":\"c\"},{\"urls\":[\"x\"]},{\"urls\":\"stun:b\"}]}";
    let files =
        [None, Some("broken".to_string()), Some("{\"primary\":[]}".to_string()), Some(list.to_string())];
    let got = ice_servers(&files);
    assert_eq!(got.len(), 2);
    assert_eq!(
        (got[0].url.as_str(), got[0].username.as_str(), got[0].credential.as_str()),
        ("turn:a", "u", "c")
    );
    assert_eq!(
        (got[1].url.as_str(), got[1].username.as_str(), got[1].credential.as_str()),
        ("stun:b", "", "")
    );
    assert_eq!(read_servers(&Json::object()).len(), 0);
}

#[test]
fn default_server_without_a_list() {
    let got = ice_servers(&[None]);
    assert_eq!(got.len(), 1);
    assert_eq!(got[0].url, "stun:stun.l.google.com:19302");
    assert_eq!(got[0].username, "");
}

#[test]
fn commands_are_told_apart() {
    assert!(matches!(command(&[]), Command::Serve));
    assert!(matches!(command(&words(&["serve"])), Command::Serve));
    assert!(matches!(command(&words(&["verify", "x"])), Command::Verify));
    match command(&words(&["mesh", "--role", "offer", "--session", "s1", "--signal"])) {
        Command::Mesh(m) => {
            assert_eq!(m.role, "offer");
            assert_eq!(m.session, "s1");
            assert_eq!(m.signal, "");
            assert_eq!(m.root, "blobs");
        }
        _ => panic!("no mesh"),
    }
    assert_eq!(mesh_args(&words(&["mesh", "--root", "my"])).root, "my");
}

#[test]
fn flags_take_the_next_word() {
    let argv = words(&["a", "--x", "1", "--x", "2", "--y"]);
    assert_eq!(find_flag(&argv, "--x"), Some("1".to_string()));
    assert_eq!(find_flag(&argv, "--y"), None);
    assert_eq!(find_flag(&argv, "--z"), None);
}

#[test]
fn settings_have_defaults() {
    let s = settings(None, None);
    assert_eq!((s.root.as_str(), s.addr.as_str()), ("blobs", "0.0.0.0:9910"));
    let s = settings(Some("r".to_string()), Some("127.0.0.1:1".to_string()));
    assert_eq!((s.root.as_str(), s.addr.as_str()), ("r", "127.0.0.1:1"));
}

#[test]
fn sessions_are_apart() {
    let mut other = args("offer");
    other.session = "s2".to_string();
    match run(&other) {
        Ok(m) => {
            assert_ne!(m.offer_path, side("offer").offer_path);
            assert_ne!(m.answer_path, side("offer").answer_path);
        }
        Err(e) => panic!("{e}"),
    }
}
