use cache_node::blob::Node;
use cache_node::json::{canon, parse_json};
use cache_node::service::{
    get_cache, get_reply, healthz, manifest, put_cache, put_check, put_reply, GetStep, PutStep,
};
use cache_node::sync::{error_reply, sync_peer, Sync, SyncAction, SyncEvent};

const ABC: &str = "ba7816bf8f01cfea414140de5dae2223b00361a396177a9cb410ff61f20015ad";
const EMPTY: &str = "e3b0c44298fc1c149afbf4c8996fb92427ae41e4649b934ca495991b7852b855";

#[test]
fn body_is_stored_under_its_digest() {
    for hash in [ABC.to_string(), ABC.to_uppercase()] {
        match put_cache(&hash, b"abc") {
            PutStep::Store(name) => assert_eq!(name, ABC),
            PutStep::Refuse(r) => panic!("{}", r.text),
        }
    }
}

#[test]
fn other_body_is_refused() {
    match put_cache(ABC, b"") {
        PutStep::Refuse(r) => {
            assert_eq!(r.status, 400);
            assert_eq!(r.text, format!("hash mismatch: sha256(body)={EMPTY}\n"));
        }
        PutStep::Store(_) => panic!("stored"),
    }
    match put_check(ABC, "other") {
        PutStep::Refuse(r) => assert_eq!(r.text, "hash mismatch: sha256(body)=other\n"),
        PutStep::Store(_) => panic!("stored"),
    }
}

#[test]
fn bad_names_are_refused() {
    match put_cache("xyz", b"abc") {
        PutStep::Refuse(r) => {
            assert_eq!((r.status, r.text.as_str()), (400, "hash: need 64 hex chars\n"))
        }
        PutStep::Store(_) => panic!("stored"),
    }
    match get_cache("xyz") {
        GetStep::Refuse(r) => {
            assert_eq!((r.status, r.text.as_str()), (400, "hash: need 64 hex chars\n"))
        }
        GetStep::Read(_) => panic!("read"),
    }
}

#[test]
fn fetch_goes_where_the_body_was_stored() {
    for hash in [ABC.to_string(), ABC.to_uppercase()] {
        match get_cache(&hash) {
            GetStep::Read(p) => assert_eq!(format!("{}{}", p.dir, p.file), ABC),
            GetStep::Refuse(r) => panic!("{}", r.text),
        }
    }
    assert_eq!(get_reply(Some(b"abc".to_vec())), (200, b"abc".to_vec()));
    assert_eq!(get_reply(None), (404, b"not found\n".to_vec()));
}

#[test]
fn storing_is_answered() {
    let r = put_reply(12, &Ok(true));
    assert_eq!((r.status, r.text.as_str()), (201, "stored 12 bytes\n"));
    let r = put_reply(12, &Ok(false));
    assert_eq!((r.status, r.text.as_str()), (200, "dedup (already exists)\n"));
    let r = put_reply(12, &Err("no space".to_string()));
    assert_eq!((r.status, r.text.as_str()), (500, "io: no space\n"));
}

#[test]
fn health_and_list_are_written() {
    let node = Node { root: "blobs".to_string(), blobs: 2, bytes: 14 };
    assert_eq!(
        canon(&healthz(&node, "0.1.0")),
        "{\"blobs\":2,\"bytes\":14,\"root\":\"blobs\",\"service\":\"cache-node\",\"version\":\"0.1.0\"}"
    );
    assert_eq!(
        canon(&manifest(&[("aa01".to_string(), 5), ("ff02".to_string(), 9)])),
        "{\"blobs\":[{\"hash\":\"aa01\",\"size\":5},{\"hash\":\"ff02\",\"size\":9}],\"count\":2}"
    );
    assert_eq!(canon(&manifest(&[])), "{\"blobs\":[],\"count\":0}");
}

#[test]
fn peer_is_taken_from_the_request() {
    let req = parse_json(b"{\"peer\":\"http://10.0.0.1:9910/\"}").ok().unwrap();
    match sync_peer(&req) {
        Ok(peer) => assert_eq!(peer, "10.0.0.1:9910"),
        Err(_) => panic!("refused"),
    }
    let req = parse_json(b"{\"peer\":5}").ok().unwrap();
    match sync_peer(&req) {
        Ok(_) => panic!("taken"),
        Err(e) => assert_eq!(
            canon(&e),
            "{\"error\":\"body must be {\\\"peer\\\":\\\"host:port\\\"}\"}"
        ),
    }
    assert_eq!(canon(&error_reply("x")), "{\"error\":\"x\"}");
}

#[test]
fn sync_pulls_what_is_missing() {
    let list = format!(
        "{{\"count\":4,\"blobs\":[{{\"hash\":\"{ABC}\",\"size\":3}},{{\"hash\":\"nope\"}},{{\"hash\":\"{EMPTY}\"}},{{}}]}}"
    );
    let mut s = Sync::start("h:1", list.as_bytes());
    assert_eq!(s.names, vec![ABC.to_string(), EMPTY.to_string()]);
    assert!(matches!(s.action(), SyncAction::Probe(p) if p.dir == "ba"));
    s.advance(SyncEvent::Exists(false));
    assert!(matches!(s.action(), SyncAction::Fetch(path) if path == format!("/cache/{ABC}")));
    s.advance(SyncEvent::Fetched(b"abc".to_vec()));
    assert!(matches!(s.action(), SyncAction::Store(name) if name == ABC));
    assert_eq!(s.data, b"abc");
    s.advance(SyncEvent::Stored);
    s.advance(SyncEvent::Exists(true));
    assert!(matches!(s.action(), SyncAction::Report));
    assert_eq!(
        canon(&s.report()),
        "{\"bytes\":3,\"errors\":[],\"peer\":\"h:1\",\"pulled\":1,\"skipped\":1}"
    );
}

#[test]
fn sync_reports_what_goes_wrong() {
    let list = format!(
        "{{\"blobs\":[{{\"hash\":\"{ABC}\"}},{{\"hash\":\"{EMPTY}\"}},{{\"hash\":\"{ABC}\"}}]}}"
    );
    let mut s = Sync::start("h:1", list.as_bytes());
    s.advance(SyncEvent::Exists(false));
    s.advance(SyncEvent::Fetched(b"tampered".to_vec()));
    s.advance(SyncEvent::Exists(false));
    s.advance(SyncEvent::Failed("peer http 404".to_string()));
    s.advance(SyncEvent::Exists(false));
    s.advance(SyncEvent::Fetched(b"abc".to_vec()));
    s.advance(SyncEvent::Failed("disk full".to_string()));
    assert_eq!(
        s.errors,
        vec![
            format!("{ABC}: digest mismatch on pull"),
            format!("{EMPTY}: peer http 404"),
            format!("{ABC}: disk full"),
        ]
    );
    assert_eq!(s.pulled + s.skipped + s.errors.len() as u64, s.names.len() as u64);
    s.advance(SyncEvent::Exists(true));
    assert_eq!(s.skipped, 0);
}

#[test]
fn sync_takes_a_bad_list_for_an_empty_one() {
    let s = Sync::start("h:1", b"not json");
    assert!(s.names.is_empty());
    let s = Sync::start("h:1", b"[]");
    assert!(matches!(s.action(), SyncAction::Report));
}

#[test]
fn sync_does_not_take_capitals_for_a_digest() {
    let list = format!("{{\"blobs\":[{{\"hash\":\"{}\"}}]}}", ABC.to_uppercase());
    let mut s = Sync::start("h:1", list.as_bytes());
    s.advance(SyncEvent::Exists(false));
    s.advance(SyncEvent::Fetched(b"abc".to_vec()));
    assert_eq!(s.errors, vec![format!("{}: digest mismatch on pull", ABC.to_uppercase())]);
}

#[test]
fn sync_judges_by_the_digest_given() {
    let list = format!("{{\"blobs\":[{{\"hash\":\"{ABC}\"}},{{\"hash\":\"{EMPTY}\"}}]}}");
    let manifest = parse_json(list.as_bytes()).ok().unwrap();
    let mut s = Sync::from_list("h:1", &manifest);
    s.judge("other");
    assert_eq!(s.errors, vec![format!("{ABC}: digest mismatch on pull")]);
    s.judge(EMPTY);
    assert!(matches!(s.action(), SyncAction::Store(name) if name == EMPTY));
    s.advance(SyncEvent::Fetched(b"ignored".to_vec()));
    assert!(s.data.is_empty());
    assert!(matches!(s.action(), SyncAction::Store(_)));
}
