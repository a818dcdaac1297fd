use cache_node::blob::{
    blob_path, count_existing, hex_ok, list_by_name, BlobStore, Listed, Node, StoreEvent,
    StorePlan, StoreStep,
};

const NAME: &str = "ba7816bf8f01cfea414140de5dae2223b00361a396177a9cb410ff61f20015ad";

fn listed(dir: &str, file: &str, size: Option<u64>) -> Listed {
    Listed { dir: dir.to_string(), file: file.to_string(), size }
}

#[test]
fn names_have_64_hex_characters() {
    assert!(hex_ok(NAME));
    assert!(hex_ok(&NAME.to_uppercase()));
    assert!(!hex_ok(&NAME[1..]));
    assert!(!hex_ok(&format!("{NAME}0")));
    assert!(!hex_ok(&NAME.replace('b', "g")));
    assert!(!hex_ok(""));
    assert!(!hex_ok(&"é".repeat(32)));
}

#[test]
fn paths_fan_out_after_two_bytes() {
    let p = blob_path(NAME).unwrap();
    assert_eq!(p.dir, "ba");
    assert_eq!(p.file, &NAME[2..]);
    assert_eq!(format!("{}{}", p.dir, p.file), NAME);
    let q = blob_path("é1").unwrap();
    assert_eq!((q.dir.as_str(), q.file.as_str()), ("é", "1"));
    assert!(blob_path("a").is_none());
    assert!(blob_path("aé").is_none());
    assert!(blob_path("你").is_none());
}

#[test]
fn fresh_blob_goes_through_a_temporary_file() {
    let mut node = Node { root: "r".to_string(), blobs: 4, bytes: 10 };
    let mut plan = StorePlan::new(NAME);
    assert_eq!(plan.temp, format!("{}.part", &NAME[2..]));
    node.store(&mut plan, 3, StoreEvent::Exists(false));
    assert!(matches!(plan.step, StoreStep::MakeDir));
    node.store(&mut plan, 3, StoreEvent::Done);
    assert!(matches!(plan.step, StoreStep::WriteTemp));
    node.store(&mut plan, 3, StoreEvent::Done);
    assert!(matches!(plan.step, StoreStep::Rename));
    assert_eq!((node.blobs, node.bytes), (4, 10));
    assert_eq!(plan.outcome(), None);
    node.store(&mut plan, 3, StoreEvent::Done);
    assert_eq!(plan.outcome(), Some(Ok(true)));
    assert_eq!((node.blobs, node.bytes), (5, 13));
    node.store(&mut plan, 3, StoreEvent::Done);
    assert_eq!((node.blobs, node.bytes), (5, 13));
}

#[test]
fn blob_that_is_there_is_kept() {
    let mut node = Node { root: "r".to_string(), blobs: 1, bytes: 3 };
    let mut plan = StorePlan::new(NAME);
    node.store(&mut plan, 3, StoreEvent::Exists(true));
    assert_eq!(plan.outcome(), Some(Ok(false)));
    assert_eq!((node.blobs, node.bytes), (1, 3));
}

#[test]
fn failed_write_is_told() {
    for n in 0..3 {
        let mut plan = StorePlan::new(NAME);
        plan.advance(StoreEvent::Exists(false));
        for _ in 0..n {
            plan.advance(StoreEvent::Done);
        }
        plan.advance(StoreEvent::Error("disk full".to_string()));
        assert_eq!(plan.outcome(), Some(Err("disk full".to_string())));
    }
}

#[test]
fn lists_leave_temporary_files_out() {
    let files = [
        listed("ff", "02", Some(9)),
        listed("aa", "01.part", Some(7)),
        listed("aa", "01", Some(5)),
        listed("aa", "sub", None),
    ];
    let expected = vec![("aa01".to_string(), 5), ("ff02".to_string(), 9)];
    assert_eq!(list_by_name(&files), expected);
    assert_eq!(BlobStore { root: "r".to_string() }.manifest(&files), expected);
    assert_eq!(count_existing(&files), (2, 14));
}

#[test]
fn manifest_ignores_reading_order() {
    let store = BlobStore { root: "r".to_string() };
    let a = [listed("b", "x", Some(1)), listed("a", "y", Some(2)), listed("a", "y", Some(1))];
    let b = [listed("a", "y", Some(1)), listed("b", "x", Some(1)), listed("a", "y", Some(2))];
    let expected =
        vec![("ay".to_string(), 1), ("ay".to_string(), 2), ("bx".to_string(), 1)];
    assert_eq!(store.manifest(&a), expected);
    assert_eq!(store.manifest(&b), expected);
    assert!(store.manifest(&[]).is_empty());
}

#[test]
fn list_by_name_is_stable() {
    let a = [listed("b", "x", Some(1)), listed("a", "y", Some(2)), listed("a", "y", Some(1))];
    assert_eq!(
        list_by_name(&a),
        vec![("ay".to_string(), 2), ("ay".to_string(), 1), ("bx".to_string(), 1)]
    );
}

#[test]
fn long_lists_are_sorted() {
    let mut files = Vec::new();
    for i in 0..200u64 {
        files.push(listed(&format!("{:02x}", (i * 37) % 200), "f", Some(i)));
    }
    let got = BlobStore { root: String::new() }.manifest(&files);
    let mut want: Vec<(String, u64)> =
        files.iter().map(|l| (format!("{}{}", l.dir, l.file), l.size.unwrap())).collect();
    want.sort();
    assert_eq!(got, want);
}

#[test]
fn hidden_part_file_counts() {
    let files = [listed("aa", ".part", Some(2)), listed("aa", "x.part", Some(4))];
    assert_eq!(count_existing(&files), (1, 2));
    assert!(list_by_name(&files).is_empty());
}

#[test]
fn stores_and_nodes_agree_on_paths() {
    let node = Node { root: "r".to_string(), blobs: 0, bytes: 0 };
    let store = BlobStore { root: "r".to_string() };
    assert_eq!(node.path(NAME).unwrap().file, store.path(NAME).unwrap().file);
    assert!(node.path("x").is_none());
}

/// Writes a blob to files in memory; the event of step `fails` is an error.
fn write_to(
    files: &mut std::collections::HashMap<String, Vec<u8>>,
    name: &str,
    data: &[u8],
    fails: Option<usize>,
) -> Result<bool, String> {
    let mut plan = StorePlan::new(name);
    let blob = format!("{}/{}", plan.path.dir, plan.path.file);
    let temp = format!("{}/{}", plan.path.dir, plan.temp);
    for n in 0.. {
        if let Some(outcome) = plan.outcome() {
            return outcome;
        }
        let event = if fails == Some(n) {
            StoreEvent::Error("torn".to_string())
        } else {
            match plan.step {
                StoreStep::Probe => StoreEvent::Exists(files.contains_key(&blob)),
                StoreStep::WriteTemp => {
                    files.insert(temp.clone(), data.to_vec());
                    StoreEvent::Done
                }
                StoreStep::Rename => {
                    let moved = files.remove(&temp).unwrap();
                    files.insert(blob.clone(), moved);
                    StoreEvent::Done
                }
                _ => StoreEvent::Done,
            }
        };
        plan.advance(event);
    }
    unreachable!()
}

#[test]
fn written_blob_is_read_back_and_stays() {
    let mut files = std::collections::HashMap::new();
    let blob = format!("ba/{}", &NAME[2..]);
    assert_eq!(write_to(&mut files, NAME, b"abc", None), Ok(true));
    assert_eq!(files.get(&blob), Some(&b"abc".to_vec()));
    assert_eq!(files.len(), 1);
    let before = files.clone();
    assert_eq!(write_to(&mut files, NAME, b"abc", None), Ok(false));
    assert_eq!(files, before);
    let other = "00".repeat(32);
    assert_eq!(write_to(&mut files, &other, b"x", None), Ok(true));
    assert_eq!(files.get(&blob), Some(&b"abc".to_vec()));
}

#[test]
fn torn_write_leaves_no_blob() {
    for n in 1..4 {
        let mut files = std::collections::HashMap::new();
        assert_eq!(write_to(&mut files, NAME, b"abc", Some(n)), Err("torn".to_string()));
        assert!(!files.contains_key(&format!("ba/{}", &NAME[2..])));
        assert_eq!(write_to(&mut files, NAME, b"abc", None), Ok(true));
        assert_eq!(files.len(), 1);
    }
}

#[test]
fn count_and_list_agree() {
    let files = [
        listed("aa", "02", Some(9)),
        listed("aa", "01.part", Some(7)),
        listed("bb", "01", Some(5)),
        listed("bb", "sub", None),
    ];
    let (blobs, bytes) = count_existing(&files);
    for list in [list_by_name(&files), BlobStore { root: String::new() }.manifest(&files)] {
        assert_eq!(blobs, list.len() as u64);
        assert_eq!(bytes, list.iter().map(|e| e.1).sum::<u64>());
    }
}

#[test]
fn counters_and_list_follow_the_writes() {
    let store = BlobStore { root: "r".to_string() };
    let mut files: Vec<Listed> = Vec::new();
    let mut node = Node { root: "r".to_string(), blobs: 0, bytes: 0 };
    let mut list = store.manifest(&files);
    for (n, len) in [(7u8, 3u64), (1, 0), (9, 5), (4, 2)] {
        let name = format!("{n:02x}").repeat(32);
        let mut plan = StorePlan::new(&name);
        node.store(&mut plan, len, StoreEvent::Exists(false));
        for _ in 0..3 {
            node.store(&mut plan, len, StoreEvent::Done);
        }
        files.push(listed(&plan.path.dir, &plan.path.file, Some(len)));
        assert_eq!((node.blobs, node.bytes), count_existing(&files));
        list.push((name, len));
        list.sort();
        assert_eq!(store.manifest(&files), list);
        assert!(list.windows(2).all(|w| w[0].0 < w[1].0));
    }
}
