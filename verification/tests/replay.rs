use cache_node::digest::sha256_hex;
use cache_node::json::{canon, parse_json, pretty, Json};
use cache_node::package::{
    list_files, package_blob, package_id, read_parts, read_zip, validate, ZipEntry, ZipPart,
};
use cache_node::replay::{
    begin, clock_text, ending, exe_names, find_shell, handle, run_cmd,
    search_order, slashed, subst, time_str, time_text,
    verify, which, CommandEnd, Host, Probe, Replay, ReplayAction, ReplayEvent, STEP_TIMEOUT,
};
use std::io::Write;

const MANIFEST: &str = "{\"mpkg\": \"0.1\", \"name\": \"demo\", \"version\": \"1\", \"intent\": \"say 你好\", \"steps\": [{\"run\": \"echo {{pkg}}\"}, {\"run\": \"exit 3\", \"expect\": {\"exit\": 3}}], \"verify\": [\"test -d {{work}}\"], \"requirements\": {\"tools\": [{\"name\": \"sh\"}]}}";

const ID: &str = "sha256:d4fd05c7ec1d1035bbd90c42e9ba8d1cc7f85bb784de6250928dc7f5e90602fb";

fn value(text: &str) -> Json {
    match parse_json(text.as_bytes()) {
        Ok(v) => v,
        Err(e) => panic!("{e}"),
    }
}

fn zip_of(files: &[(&str, &[u8])]) -> Vec<u8> {
    let mut w = zip::ZipWriter::new(std::io::Cursor::new(Vec::new()));
    for (name, data) in files {
        w.start_file(*name, zip::write::SimpleFileOptions::default()).unwrap();
        w.write_all(data).unwrap();
    }
    w.finish().unwrap().into_inner()
}

fn demo() -> Replay {
    match verify(zip_of(&[("mpkg.json", MANIFEST.as_bytes()), ("a.txt", b"abc")])) {
        Ok(r) => r,
        Err(e) => panic!("{e}"),
    }
}

fn exited(code: i32) -> ReplayEvent {
    ReplayEvent::Ran(run_cmd(CommandEnd::Exited(Some(code)), b"", b""))
}

fn host() -> Host {
    Host { os: "linux".to_string(), arch: "x86_64".to_string(), version: "0.1.0".to_string() }
}

/// A replay that is ready to run its first step.
fn unpacked() -> Replay {
    let mut r = demo();
    r.advance(ReplayEvent::Tool(true));
    r.advance(ReplayEvent::Shell(Ok(vec!["/bin/bash".to_string(), "-c".to_string()])));
    r.advance(ReplayEvent::Unpacked("/t/pkg".to_string(), "/t/work".to_string()));
    r
}

#[test]
fn package_is_read() {
    let bytes = zip_of(&[("a.txt", b"abc"), ("mpkg.json", MANIFEST.as_bytes())]);
    match read_zip(bytes) {
        Ok((m, entries)) => {
            assert_eq!(canon(&m), canon(&value(MANIFEST)));
            assert_eq!(entries.len(), 2);
            assert_eq!((entries[0].name.as_str(), entries[0].data.as_slice()), ("a.txt", &b"abc"[..]));
        }
        Err(e) => panic!("{e}"),
    }
}

#[test]
fn broken_packages_are_refused() {
    let err = |bytes: Vec<u8>| match read_zip(bytes) {
        Err(e) => e,
        Ok(_) => panic!("read"),
    };
    assert!(err(b"no zip".to_vec()).starts_with("zip: "));
    assert_eq!(err(zip_of(&[("a.txt", b"abc")])), "zip missing mpkg.json");
    assert!(err(zip_of(&[("mpkg.json", b"{")])).starts_with("manifest parse: EOF"));
    let mut torn = zip_of(&[("mpkg.json", MANIFEST.as_bytes())]);
    torn[45] ^= 0xff;
    let e = err(torn);
    assert!(e.starts_with("read mpkg.json: "), "{e}");
}

#[test]
fn parts_that_do_not_read_end_it() {
    let err = |parts: Vec<ZipPart>| match read_parts(parts) {
        Err(e) => e,
        Ok(_) => panic!("read"),
    };
    let file = || ZipPart::File("a".to_string(), vec![]);
    assert_eq!(err(vec![file(), ZipPart::Closed("locked".to_string())]), "zip entry 1: locked");
    assert_eq!(
        err(vec![ZipPart::Unreadable("b".to_string(), "crc".to_string()), file()]),
        "read b: crc"
    );
    assert_eq!(err(vec![]), "zip missing mpkg.json");
}

#[test]
fn last_manifest_counts() {
    let part = |text: &str| ZipPart::File("mpkg.json".to_string(), text.as_bytes().to_vec());
    match read_parts(vec![part("1"), part("2")]) {
        Ok((m, entries)) => {
            assert_eq!(canon(&m), "2");
            assert_eq!(entries.len(), 2);
        }
        Err(e) => panic!("{e}"),
    }
}

#[test]
fn good_manifest_is_taken() {
    assert_eq!(validate(&value(MANIFEST)), Ok(()));
}

#[test]
fn manifests_with_gaps_are_refused() {
    for key in ["mpkg", "name", "version", "intent", "steps", "verify"] {
        let text = MANIFEST.replace(&format!("\"{key}\":"), "\"other\":");
        assert_eq!(validate(&value(&text)), Err(format!("manifest missing: {key}")));
    }
    assert_eq!(validate(&value("[]")), Err("manifest missing: mpkg".to_string()));
    let changed = |from: &str, to: &str| validate(&value(&MANIFEST.replace(from, to)));
    assert_eq!(
        changed("\"0.1\"", "[ 1 , \"x\" ]"),
        Err("unsupported mpkg version: [1,\"x\"]".to_string())
    );
    assert_eq!(changed("\"0.1\"", "\"0.2\""), Err("unsupported mpkg version: \"0.2\"".to_string()));
    let steps = Err("steps must be non-empty list of {run}".to_string());
    assert_eq!(changed("\"run\": \"exit 3\"", "\"do\": 1"), steps);
    assert_eq!(changed("[{\"run\": \"echo {{pkg}}\"}, {\"run\": \"exit 3\", \"expect\": {\"exit\": 3}}]", "[]"), steps);
    assert_eq!(changed("[{\"run\": \"echo {{pkg}}\"}, {\"run\": \"exit 3\", \"expect\": {\"exit\": 3}}]", "{}"), steps);
    let checks = Err("verify must be non-empty".to_string());
    assert_eq!(changed("[\"test -d {{work}}\"]", "[]"), checks);
    assert_eq!(changed("[\"test -d {{work}}\"]", "\"x\""), checks);
}

#[test]
fn identity_is_the_digest_of_the_canonical_text() {
    assert_eq!(demo().id, ID);
    let files = vec![
        ("a.txt".to_string(), sha256_hex(b"abc")),
        ("mpkg.json".to_string(), sha256_hex(MANIFEST.as_bytes())),
    ];
    let m = value(MANIFEST);
    assert_eq!(package_id(&m, &files), ID);
    let blob = canon(&package_blob(&m, &files));
    assert!(blob.starts_with("{\"files\":{\"a.txt\":\"ba7816bf"), "{blob}");
    assert_eq!(format!("sha256:{}", sha256_hex(blob.as_bytes())), ID);
}

#[test]
fn identity_ignores_the_order_of_the_files() {
    let r = verify(zip_of(&[("a.txt", b"abc"), ("mpkg.json", MANIFEST.as_bytes())]));
    assert!(matches!(r, Ok(r) if r.id == ID));
    let r = verify(zip_of(&[("a.txt", b"abd"), ("mpkg.json", MANIFEST.as_bytes())]));
    assert!(matches!(r, Ok(r) if r.id != ID));
}

#[test]
fn identity_ignores_the_order_of_the_list() {
    let m = value(MANIFEST);
    let a = ("a".to_string(), "1".to_string());
    let b = ("b".to_string(), "2".to_string());
    let one = package_id(&m, &[a.clone(), b.clone()]);
    assert_eq!(one, package_id(&m, &[b.clone(), a.clone()]));
    assert_ne!(one, package_id(&m, &[a]));
}

#[test]
fn files_are_listed_in_order() {
    let entry = |name: &str, data: &[u8]| ZipEntry { name: name.to_string(), data: data.to_vec() };
    let got = list_files(&[entry("b", b"2"), entry("a", b"1"), entry("b", b"1")]);
    let mut want = vec![
        ("a".to_string(), sha256_hex(b"1")),
        ("b".to_string(), sha256_hex(b"1")),
        ("b".to_string(), sha256_hex(b"2")),
    ];
    want.sort();
    assert_eq!(got, want);
}

#[test]
fn bad_package_is_not_replayed() {
    let text = MANIFEST.replace("\"intent\":", "\"other\":");
    assert!(
        matches!(verify(zip_of(&[("mpkg.json", text.as_bytes())])), Err(e) if e == "manifest missing: intent")
    );
    assert!(matches!(verify(b"x".to_vec()), Err(e) if e.starts_with("zip: ")));
    assert!(matches!(begin(&Json::object(), &[]), Err(e) if e == "manifest missing: mpkg"));
}

#[test]
fn good_replay_is_attested() {
    let mut r = demo();
    assert!(matches!(r.action(), ReplayAction::FindTool(t) if t == "sh"));
    r.advance(ReplayEvent::Tool(true));
    assert!(matches!(r.action(), ReplayAction::FindShell));
    r.advance(ReplayEvent::Shell(Ok(vec!["/bin/bash".to_string(), "-c".to_string()])));
    assert!(matches!(r.action(), ReplayAction::Unpack(d) if d == "mpkg-rs-d4fd05c7ec1d"));
    r.advance(ReplayEvent::Unpacked("/t/pkg".to_string(), "/t/work".to_string()));
    assert!(matches!(r.action(), ReplayAction::Run(c) if c == "echo /t/pkg"));
    r.advance(exited(0));
    assert!(matches!(r.action(), ReplayAction::Run(c) if c == "exit 3"));
    r.advance(exited(3));
    assert!(matches!(r.action(), ReplayAction::Run(c) if c == "test -d /t/work"));
    r.advance(exited(0));
    assert!(matches!(r.action(), ReplayAction::Over));
    let att = r.attestation(&host(), "17s");
    let text = format!(
        "{{\"host\":{{\"arch\":\"x86_64\",\"impl\":\"cache-node-rs 0.1.0\",\"os\":\"linux\",\"shell\":\"/bin/bash\"}},\"mpkg_id\":\"{ID}\",\"name\":\"demo\",\"ok\":true,\"replayed_at\":\"17s\",\"steps\":[{{\"cmd\":\"echo {{{{pkg}}}}\",\"exit\":0,\"n\":1,\"ok\":true}},{{\"cmd\":\"exit 3\",\"exit\":3,\"n\":2,\"ok\":true}}],\"verify\":[{{\"cmd\":\"test -d {{{{work}}}}\",\"exit\":0}}]}}"
    );
    assert_eq!(canon(&att), text);
    let words = pretty(&att);
    let e = ending(&Ok(att));
    assert_eq!((e.words, e.is_error, e.code), (words, false, 0));
}

#[test]
fn failed_step_ends_the_replay() {
    let mut r = unpacked();
    let ran = run_cmd(CommandEnd::Exited(Some(1)), b"", "坏了 \n".as_bytes());
    assert_eq!(
        r.complaint(&ran),
        Some("mpkg-rs: step 1 FAIL exit 1 != 0\n  stderr: 坏了".to_string())
    );
    r.advance(ReplayEvent::Ran(ran));
    assert!(matches!(r.action(), ReplayAction::Over));
    assert_eq!(r.ran, vec![(1, false)]);
    assert!(!r.ok && r.checked.is_empty());
    let e = ending(&Ok(r.attestation(&host(), "1s")));
    assert_eq!((e.is_error, e.code), (false, 2));
}

#[test]
fn failed_check_ends_the_replay() {
    let mut r = unpacked();
    r.advance(exited(0));
    r.advance(exited(3));
    let ran = run_cmd(CommandEnd::Exited(None), b"", &[b'x'; 300]);
    assert_eq!(
        r.complaint(&ran),
        Some(format!("mpkg-rs: verify FAIL: test -d {{{{work}}}}\n  stderr: {}", "x".repeat(200)))
    );
    r.advance(ReplayEvent::Ran(ran));
    assert_eq!(r.checked, vec![-1]);
    assert!(!r.ok);
    assert!(matches!(r.action(), ReplayAction::Over));
}

#[test]
fn late_step_fails() {
    assert_eq!(STEP_TIMEOUT, 120);
    let text = MANIFEST.replace("\"exit\": 3", "\"exit\": -1");
    let mut r = match begin(&value(&text), &[]) {
        Ok(r) => r,
        Err(e) => panic!("{e}"),
    };
    r.advance(ReplayEvent::Tool(true));
    r.advance(ReplayEvent::Shell(Ok(vec!["sh".to_string()])));
    r.advance(ReplayEvent::Unpacked("p".to_string(), "w".to_string()));
    r.advance(exited(0));
    let late = run_cmd(CommandEnd::TimedOut, b"", b"");
    assert_eq!(late.exit, -1);
    assert_eq!(
        r.complaint(&late),
        Some("mpkg-rs: step 2 FAIL exit -1 != -1\n  stderr: ".to_string())
    );
    assert_eq!(r.complaint(&run_cmd(CommandEnd::Exited(None), b"", b"")), None);
    r.advance(ReplayEvent::Ran(late));
    assert_eq!(r.ran, vec![(0, true), (-1, false)]);
    assert!(!r.ok);
}

#[test]
fn wanted_codes_are_not_cut() {
    let text = MANIFEST.replace("\"exit\": 3", "\"exit\": 4294967299");
    let mut r = match begin(&value(&text), &[]) {
        Ok(r) => r,
        Err(e) => panic!("{e}"),
    };
    r.advance(ReplayEvent::Tool(true));
    r.advance(ReplayEvent::Shell(Ok(vec!["sh".to_string()])));
    r.advance(ReplayEvent::Unpacked("p".to_string(), "w".to_string()));
    r.advance(exited(0));
    let ran = run_cmd(CommandEnd::Exited(Some(3)), b"", b"");
    assert_eq!(
        r.complaint(&ran),
        Some("mpkg-rs: step 2 FAIL exit 3 != 4294967299\n  stderr: ".to_string())
    );
    r.advance(ReplayEvent::Ran(ran));
    assert_eq!(r.ran, vec![(0, true), (3, false)]);
    assert!(!r.ok && r.checked.is_empty());
    let text = "{\"mpkg\":\"0.1\",\"name\":\"n\",\"version\":\"1\",\"intent\":\"i\",\"steps\":[{\"run\":\"true\",\"expect\":{\"exit\":4294967296}}],\"verify\":[\"true\"]}";
    let mut r = match verify(zip_of(&[("mpkg.json", text.as_bytes())])) {
        Ok(r) => r,
        Err(e) => panic!("{e}"),
    };
    r.advance(ReplayEvent::Shell(Ok(vec!["sh".to_string()])));
    r.advance(ReplayEvent::Unpacked("p".to_string(), "w".to_string()));
    r.advance(exited(0));
    let att = r.attestation(&host(), "1s");
    assert!(matches!(att.get("ok"), Some(Json::Bool(false))));
    assert!(canon(&att).contains(
        "\"steps\":[{\"cmd\":\"true\",\"exit\":0,\"n\":1,\"ok\":false}],\"verify\":[]"
    ));
}

#[test]
fn replay_that_cannot_be_done_is_told() {
    let failed = |mut r: Replay, event: ReplayEvent| {
        r.advance(event);
        match r.action() {
            ReplayAction::Failed(e) => e,
            _ => panic!("no failure"),
        }
    };
    assert_eq!(failed(demo(), ReplayEvent::Tool(false)), "tool missing on PATH: sh");
    let mut r = demo();
    r.advance(ReplayEvent::Tool(true));
    assert_eq!(failed(r, ReplayEvent::Shell(Err("no shell".to_string()))), "no shell");
    let spawn = || ReplayEvent::Error("spawn: no".to_string());
    assert_eq!(failed(unpacked(), spawn()), "spawn: no");
    let mut r = unpacked();
    r.advance(exited(0));
    r.advance(exited(3));
    assert_eq!(failed(r, spawn()), "spawn: no");
    let e = ending(&Err("spawn: no".to_string()));
    assert_eq!(
        (e.words.as_str(), e.is_error, e.code),
        ("mpkg-rs: error: spawn: no", true, 1)
    );
}

#[test]
fn tools_are_looked_for_in_turn() {
    let text = MANIFEST.replace("[{\"name\": \"sh\"}]", "[{\"name\": \"a\"}, {}, \"b\"]");
    let mut r = match begin(&value(&text), &[]) {
        Ok(r) => r,
        Err(e) => panic!("{e}"),
    };
    assert_eq!(r.tools, vec!["a".to_string(), String::new(), String::new()]);
    r.advance(ReplayEvent::Tool(true));
    assert!(matches!(r.action(), ReplayAction::FindTool(t) if t.is_empty()));
    r.advance(ReplayEvent::Tool(false));
    assert!(matches!(r.action(), ReplayAction::Failed(e) if e == "tool missing on PATH: "));
    let text = MANIFEST.replace("\"requirements\"", "\"other\"");
    assert!(matches!(begin(&value(&text), &[]), Ok(r) if r.tools.is_empty()
        && matches!(r.action(), ReplayAction::FindShell)));
}

fn probe(path: &str, is_file: bool) -> Probe {
    Probe { path: path.to_string(), is_file }
}

#[test]
fn programs_are_found_in_order() {
    assert_eq!(exe_names("sh", false), vec!["sh".to_string()]);
    assert_eq!(exe_names("sh", true), vec!["sh", "sh.exe", "sh.cmd", "sh.bat"]);
    assert_eq!(
        search_order("sh", false, 2),
        vec![(0, "sh".to_string()), (1, "sh".to_string())]
    );
    let order = search_order("sh", true, 2);
    assert_eq!(order.len(), 8);
    assert_eq!((order[3].0, order[3].1.as_str()), (0, "sh.bat"));
    assert_eq!((order[4].0, order[4].1.as_str()), (1, "sh"));
    let places = [probe("/a/sh", false), probe("/b/sh", true), probe("/c/sh", true)];
    assert_eq!(which("sh", &places), Ok("/b/sh".to_string()));
    assert_eq!(which("sh", &[probe("/a/sh", false)]), Err("not found: sh".to_string()));
}

#[test]
fn bash_comes_before_sh() {
    let bash = [probe("/b/bash", true)];
    let sh = [probe("/b/sh", true)];
    assert_eq!(find_shell(&bash, &sh), Ok(vec!["/b/bash".to_string(), "-c".to_string()]));
    assert_eq!(find_shell(&[], &sh), Ok(vec!["/b/sh".to_string(), "-c".to_string()]));
    assert_eq!(
        find_shell(&[], &[]),
        Err("replay requires POSIX shell (bash/sh); Windows 请用 Git Bash".to_string())
    );
}

#[test]
fn commands_are_filled_in() {
    assert_eq!(subst("ls {{pkg}} > {{work}}/x", "/p", "/w"), "ls /p > /w/x");
    assert_eq!(subst("{{pkg}}", "{{work}}", "/w"), "/w");
    assert_eq!(subst("echo {pkg}", "/p", "/w"), "echo {pkg}");
    let once = subst("{{wo{{pkg}}rk}} {{work}}", "/p", "/w");
    assert_eq!(once, "{{wo/prk}} /w");
    assert_eq!(subst(&once, "/x", "/y"), once);
    assert_eq!(slashed("C:\\t\\pkg"), "C:/t/pkg");
}

#[test]
fn output_is_read_and_trimmed() {
    let r = run_cmd(CommandEnd::Exited(Some(7)), b"a\xff b \n\n", b" e\t");
    assert_eq!((r.exit, r.late), (7, false));
    assert_eq!((r.out.as_str(), r.err.as_str()), ("a\u{fffd} b", " e"));
}

#[test]
fn times_are_written_in_seconds() {
    assert_eq!(time_text(0), "0s");
    assert_eq!(time_text(1700000000), "1700000000s");
    assert_eq!(clock_text(Some(17)), "17s");
    assert_eq!(clock_text(None), "0s");
    let now = time_str();
    let secs: u64 = now.strip_suffix('s').unwrap().parse().unwrap();
    assert!(secs > 1_600_000_000);
}

#[test]
fn verification_is_asked_for() {
    let argv: Vec<String> =
        ["f.mpkg", "--out", "a.json", "--root", "w"].iter().map(|s| s.to_string()).collect();
    match handle(&argv) {
        Ok(a) => {
            assert_eq!(a.file, "f.mpkg");
            assert_eq!(a.out, Some("a.json".to_string()));
            assert_eq!(a.root, Some("w".to_string()));
        }
        Err(e) => panic!("{e}"),
    }
    assert!(matches!(handle(&argv[..1]), Ok(a) if a.out.is_none() && a.root.is_none()));
    let usage = "usage: cache-node verify <file.mpkg> [--out att.json]";
    assert!(matches!(handle(&[]), Err(e) if e == usage));
    assert!(matches!(handle(&[String::new()]), Err(e) if e == usage));
}
