use cache_node::digest::sha256_hex;
use cache_node::frames::{frames, CHUNK};
use cache_node::pull::{can_ask, read_told, Pull, PullAction, PullEvent, PullStep};
use cache_node::serve::{list_message, send_blob, serve, Outgoing, ServeAction, ServeEvent, ServeStep};

fn blob(n: usize) -> Vec<u8> {
    (0..n).map(|i| (i % 251) as u8).collect()
}

#[test]
fn frames_have_headers() {
    let data = blob(CHUNK + 1);
    let fs = frames(&data);
    assert_eq!(fs.len(), 2);
    assert_eq!(&fs[0][..8], &[0, 0, 0, 0, 0, 0, 0, 2]);
    assert_eq!(&fs[1][..8], &[0, 0, 0, 1, 0, 0, 0, 2]);
    assert_eq!(fs[0].len(), CHUNK + 8);
    assert_eq!(fs[1], vec![0, 0, 0, 1, 0, 0, 0, 2, data[CHUNK]]);
}

#[test]
fn headers_count_the_frames() {
    let fs = frames(&blob(CHUNK));
    assert_eq!(fs.len(), 1);
    assert_eq!(&fs[0][..8], &[0, 0, 0, 0, 0, 0, 0, 1]);
    let fs = frames(&blob(3 * CHUNK));
    assert_eq!(fs.len(), 3);
    assert_eq!(&fs[2][..8], &[0, 0, 0, 2, 0, 0, 0, 3]);
    assert!(frames(&[]).is_empty());
}

#[test]
fn frames_joined_give_the_blob_back() {
    for n in [0, 1, CHUNK - 1, CHUNK, CHUNK + 1, 3 * CHUNK, 3 * CHUNK + 7] {
        let data = blob(n);
        let mut out = Vec::new();
        for f in frames(&data) {
            assert!(f.len() > 8 && f.len() <= 8 + CHUNK);
            out.extend_from_slice(&f[8..]);
        }
        assert_eq!(out, data);
    }
}

#[test]
fn list_is_told_and_read() {
    let entries = vec![("aa01".to_string(), 5), ("ff02".to_string(), 9)];
    let text = list_message(&entries);
    assert_eq!(
        text,
        "MANIFEST {\"blobs\":[{\"hash\":\"aa01\",\"size\":5},{\"hash\":\"ff02\",\"size\":9}]}"
    );
    assert_eq!(read_told(&text), Ok(entries));
}

#[test]
fn odd_first_messages_are_refused() {
    assert_eq!(read_told("HELLO"), Err("unexpected first message: HELLO".to_string()));
    assert_eq!(
        read_told(&"x".repeat(50)),
        Err(format!("unexpected first message: {}", "x".repeat(40)))
    );
    assert!(read_told("MANIFEST {").is_err());
    assert_eq!(read_told("MANIFEST  {} "), Ok(vec![]));
    assert_eq!(
        read_told("MANIFEST {\"blobs\":[{\"hash\":1,\"size\":-2}]}"),
        Ok(vec![(String::new(), 0)])
    );
}

/// Runs a pull against a side that serves these blobs, and gives what was stored.
fn pull_all(served: &[Vec<u8>], there: &[String]) -> (Pull, Vec<(String, Vec<u8>)>) {
    let mut entries: Vec<(String, u64)> =
        served.iter().map(|d| (sha256_hex(d), d.len() as u64)).collect();
    entries.sort();
    let mut pull = Pull::new();
    let mut side = ServeStep::First;
    let mut waiting: Vec<PullEvent> = Vec::new();
    let mut stored = Vec::new();
    for _ in 0..10_000 {
        let event = match pull.action() {
            PullAction::Say(text) => {
                match serve(&mut side, ServeEvent::Message(text.into_bytes())) {
                    ServeAction::SendList => waiting
                        .push(PullEvent::Message(true, list_message(&entries).into_bytes())),
                    ServeAction::Send(name, path) => {
                        assert_eq!(format!("{}{}", path.dir, path.file), name);
                        let data = served.iter().find(|d| sha256_hex(d) == name).cloned();
                        for m in send_blob(&name, &data.unwrap_or_default()) {
                            waiting.push(match m {
                                Outgoing::Text(t) => PullEvent::Message(true, t.into_bytes()),
                                Outgoing::Binary(b) => PullEvent::Message(false, b),
                            });
                        }
                    }
                    ServeAction::Listen | ServeAction::Stop => {}
                }
                PullEvent::Done
            }
            PullAction::Receive => waiting.remove(0),
            PullAction::Probe(p) => PullEvent::Exists(there.contains(&format!("{}{}", p.dir, p.file))),
            PullAction::Store(name) => {
                stored.push((name, pull.buf.clone()));
                PullEvent::Done
            }
            PullAction::Over => {
                assert!(matches!(side, ServeStep::Over));
                return (pull, stored);
            }
            PullAction::Failed(e) => panic!("{e}"),
        };
        pull.advance(event);
    }
    panic!("no end");
}

#[test]
fn blobs_arrive_whole() {
    let served = vec![b"abc".to_vec(), blob(CHUNK), blob(5 * CHUNK + 3)];
    let (pull, mut stored) = pull_all(&served, &[]);
    assert_eq!((pull.pulled, pull.skipped), (3, 0));
    stored.sort();
    let mut want: Vec<(String, Vec<u8>)> =
        served.iter().map(|d| (sha256_hex(d), d.clone())).collect();
    want.sort();
    assert_eq!(stored, want);
}

#[test]
fn blobs_that_are_there_are_skipped() {
    let served = vec![b"abc".to_vec(), b"def".to_vec()];
    let (pull, stored) = pull_all(&served, &[sha256_hex(b"abc")]);
    assert_eq!((pull.pulled, pull.skipped), (1, 1));
    assert_eq!(stored, vec![(sha256_hex(b"def"), b"def".to_vec())]);
    assert_eq!(pull.pulled + pull.skipped, pull.blobs.len() as u64);
}

#[test]
fn empty_blob_behind_the_others_is_skipped() {
    let served = vec![b"abc".to_vec(), Vec::new(), b"x".to_vec(), b"1".to_vec()];
    let (pull, stored) = pull_all(&served, &[]);
    assert_eq!(pull.blobs[3].0, sha256_hex(b""));
    assert_eq!((pull.pulled, pull.skipped), (3, 1));
    assert_eq!(stored.len(), 3);
    for (name, data) in stored {
        assert_eq!(name, sha256_hex(&data));
    }
}

#[test]
fn empty_blob_costs_the_next_one() {
    let served = vec![Vec::new(), b"bar".to_vec()];
    let (pull, stored) = pull_all(&served, &[]);
    assert_eq!(pull.blobs[0].0, sha256_hex(b""));
    assert_eq!((pull.pulled, pull.skipped), (0, 2));
    assert!(stored.is_empty());
    let (pull, stored) = pull_all(&served, &[sha256_hex(b"")]);
    assert_eq!((pull.pulled, pull.skipped), (1, 1));
    assert_eq!(stored, vec![(sha256_hex(b"bar"), b"bar".to_vec())]);
}

#[test]
fn any_text_that_begins_with_miss_skips_the_blob() {
    let own = format!("MISS {}", sha256_hex(b"abc"));
    let other = format!("MISS {}", sha256_hex(b""));
    for text in [own.as_str(), other.as_str(), "MISS", "MISSING"] {
        let mut p = receiving();
        p.advance(PullEvent::Message(true, text.as_bytes().to_vec()));
        assert_eq!((p.pulled, p.skipped), (0, 1));
        assert!(matches!(p.step, PullStep::Finish));
    }
    let mut p = receiving();
    p.advance(PullEvent::Message(false, own.into_bytes()));
    assert_eq!((p.pulled, p.skipped), (0, 1));
    let said = failure(receiving(), PullEvent::Message(false, other.into_bytes()));
    assert!(said.starts_with("integrity FAIL: got "), "{said}");
}

#[test]
fn blobs_arrive_however_they_are_cut() {
    let header = [9, 9, 9, 9, 9, 9, 9, 9];
    for cut in [vec!["abc"], vec!["a", "b", "c"], vec!["", "ab", "", "c"]] {
        let mut p = receiving();
        for (i, part) in cut.iter().enumerate() {
            assert!(matches!(p.step, PullStep::Receive), "{i}");
            let mut message = header.to_vec();
            message.extend_from_slice(part.as_bytes());
            p.advance(PullEvent::Message(false, message));
        }
        assert!(matches!(p.step, PullStep::Store));
        assert_eq!(p.buf, b"abc");
    }
}

#[test]
fn nothing_served_is_nothing_pulled() {
    let (pull, stored) = pull_all(&[], &[]);
    assert_eq!((pull.pulled, pull.skipped), (0, 0));
    assert!(stored.is_empty());
}

/// A pull that has asked for one blob of three bytes.
fn asking() -> Pull {
    let mut pull = Pull::new();
    pull.advance(PullEvent::Done);
    let list = list_message(&[(sha256_hex(b"abc"), 3)]);
    pull.advance(PullEvent::Message(false, list.into_bytes()));
    pull.advance(PullEvent::Exists(false));
    assert!(matches!(pull.step, PullStep::Ask));
    pull
}

fn failure(mut pull: Pull, event: PullEvent) -> String {
    pull.advance(event);
    match pull.action() {
        PullAction::Failed(e) => e,
        _ => panic!("no failure"),
    }
}

fn receiving() -> Pull {
    let mut pull = asking();
    pull.advance(PullEvent::Done);
    pull
}

#[test]
fn pull_tells_its_failures() {
    assert_eq!(failure(Pull::new(), PullEvent::Error("closed".to_string())), "closed");
    let listening = || {
        let mut p = Pull::new();
        p.advance(PullEvent::Done);
        p
    };
    assert_eq!(failure(listening(), PullEvent::Timeout), "timeout waiting MANIFEST");
    assert_eq!(failure(listening(), PullEvent::Closed), "channel closed");
    assert_eq!(
        failure(listening(), PullEvent::Message(true, b"HI".to_vec())),
        "unexpected first message: HI"
    );
    assert_eq!(failure(asking(), PullEvent::Error("gone".to_string())), "gone");
    assert_eq!(failure(receiving(), PullEvent::Timeout), "timeout waiting chunk");
    assert_eq!(failure(receiving(), PullEvent::Closed), "channel closed");
    assert_eq!(
        failure(receiving(), PullEvent::Message(true, b"WAIT".to_vec())),
        "control msg mid-transfer: WAIT"
    );
    assert_eq!(
        failure(receiving(), PullEvent::Message(false, vec![0; 7])),
        "short chunk header"
    );
    assert_eq!(
        failure(receiving(), PullEvent::Message(false, b"00000000abd".to_vec())),
        format!("integrity FAIL: got {}", sha256_hex(b"abd"))
    );
    let mut p = receiving();
    p.advance(PullEvent::Message(false, b"00000000abc".to_vec()));
    assert!(matches!(p.action(), PullAction::Store(name) if name == sha256_hex(b"abc")));
    assert_eq!(failure(p, PullEvent::Error("disk full".to_string())), "disk full");
}

#[test]
fn missing_blob_is_skipped() {
    let mut p = receiving();
    for m in send_blob(&sha256_hex(b"abc"), b"") {
        match m {
            Outgoing::Text(t) => {
                assert_eq!(t, format!("MISS {}", sha256_hex(b"abc")));
                p.advance(PullEvent::Message(true, t.into_bytes()));
            }
            Outgoing::Binary(_) => panic!("a frame"),
        }
    }
    assert_eq!((p.pulled, p.skipped), (0, 1));
    assert!(matches!(p.action(), PullAction::Say(t) if t == "DONE"));
    p.advance(PullEvent::Error("closed".to_string()));
    assert!(matches!(p.action(), PullAction::Over));
}

#[test]
fn judged_by_the_digest_given() {
    let mut p = receiving();
    p.advance(PullEvent::Message(false, b"00000000ab".to_vec()));
    assert!(matches!(p.step, PullStep::Receive));
    p.buf.push(b'c');
    p.judge("other");
    assert!(matches!(&p.step, PullStep::Failed(e) if e == "integrity FAIL: got other"));
    p.judge(&sha256_hex(b"abc"));
    assert!(matches!(p.step, PullStep::Store));
}

#[test]
fn names_that_make_no_path_are_skipped() {
    assert!(can_ask(&"a".repeat(64)));
    assert!(!can_ask("abc"));
    assert!(!can_ask(&"你".repeat(64)));
    let mut pull = Pull::new();
    pull.advance(PullEvent::Done);
    let list = list_message(&[("short".to_string(), 3), (sha256_hex(b""), 0)]);
    pull.advance(PullEvent::Message(true, list.into_bytes()));
    assert_eq!((pull.at, pull.skipped), (1, 1));
    pull.advance(PullEvent::Exists(false));
    pull.advance(PullEvent::Done);
    assert_eq!((pull.at, pull.skipped), (2, 2));
    assert!(matches!(pull.step, PullStep::Finish));
}

#[test]
fn serving_starts_with_a_channel() {
    let mut s = ServeStep::Channel;
    assert!(matches!(serve(&mut s, ServeEvent::Opened), ServeAction::Listen));
    assert!(matches!(s, ServeStep::First));
    let mut s = ServeStep::Channel;
    assert!(matches!(serve(&mut s, ServeEvent::Timeout), ServeAction::Stop));
    assert!(matches!(&s, ServeStep::Failed(e) if e == "timeout waiting data channel"));
    let mut s = ServeStep::Channel;
    serve(&mut s, ServeEvent::Closed);
    assert!(matches!(&s, ServeStep::Failed(e) if e == "no data channel"));
}

#[test]
fn serving_hears_what_messages_say() {
    let mut s = ServeStep::First;
    assert!(matches!(serve(&mut s, ServeEvent::Message(b"PUSH".to_vec())), ServeAction::Listen));
    assert!(matches!(s, ServeStep::Serving));
    let name = sha256_hex(b"abc");
    let ask = format!("GET  {name}\n").into_bytes();
    assert!(matches!(serve(&mut s, ServeEvent::Message(ask)), ServeAction::Send(n, _) if n == name));
    assert!(matches!(serve(&mut s, ServeEvent::Message(b"GET x".to_vec())), ServeAction::Listen));
    assert!(matches!(serve(&mut s, ServeEvent::Message(b"\xff".to_vec())), ServeAction::Listen));
    assert!(matches!(
        serve(&mut s, ServeEvent::Unsent(false, "x".to_string())),
        ServeAction::Listen
    ));
    assert!(matches!(serve(&mut s, ServeEvent::Message(b"DONE".to_vec())), ServeAction::Stop));
    assert!(matches!(s, ServeStep::Over));
}

#[test]
fn serving_ends_with_the_channel() {
    let mut s = ServeStep::First;
    serve(&mut s, ServeEvent::Timeout);
    assert!(matches!(&s, ServeStep::Failed(e) if e == "timeout waiting PULL"));
    let mut s = ServeStep::First;
    serve(&mut s, ServeEvent::Closed);
    assert!(matches!(&s, ServeStep::Failed(e) if e == "channel closed"));
    let mut s = ServeStep::Serving;
    serve(&mut s, ServeEvent::Closed);
    assert!(matches!(s, ServeStep::Over));
    let mut s = ServeStep::Serving;
    serve(&mut s, ServeEvent::Unsent(true, "gone".to_string()));
    assert!(matches!(&s, ServeStep::Failed(e) if e == "gone"));
}
