use fd_handoff::{FileDescriptorsMap, WireError, MAX_FDS, NAME_CAPACITY};

fn registry(n: usize) -> FileDescriptorsMap {
    let mut r = FileDescriptorsMap::new();
    for i in 0..n {
        r.add(format!("0.0.0.0:{}", 8000 + i), 100 + i as i32);
    }
    r
}

fn same_map(a: &FileDescriptorsMap, b: &FileDescriptorsMap) -> bool {
    let (names, fds) = a.serialize();
    let (other, _) = b.serialize();
    names.len() == other.len()
        && names.iter().zip(fds.iter()).all(|(k, v)| b.get(k) == Some(v))
}

#[test]
fn new_registry_is_empty() {
    let r = FileDescriptorsMap::new();
    assert_eq!(r.get("0.0.0.0:80"), None);
    assert_eq!(r.serialize(), (vec![], vec![]));
}

#[test]
fn add_then_get() {
    let mut r = FileDescriptorsMap::new();
    r.add("0.0.0.0:80".to_string(), 3);
    r.add("0.0.0.0:443".to_string(), 4);
    assert_eq!(r.get("0.0.0.0:80"), Some(&3));
    assert_eq!(r.get("0.0.0.0:443"), Some(&4));
    assert_eq!(r.get("0.0.0.0:8080"), None);
}

#[test]
fn add_same_key_replaces() {
    let mut r = FileDescriptorsMap::new();
    r.add("k".to_string(), 3);
    r.add("k".to_string(), 9);
    assert_eq!(r.get("k"), Some(&9));
    assert_eq!(r.serialize(), (vec!["k".to_string()], vec![9]));
}

#[test]
fn serialize_pairs_by_position() {
    let r = registry(5);
    let (names, fds) = r.serialize();
    assert_eq!(names.len(), 5);
    assert_eq!(fds.len(), 5);
    for (k, v) in names.iter().zip(fds.iter()) {
        assert_eq!(r.get(k), Some(v));
    }
}

#[test]
fn wire_round_trip_for_every_size_up_to_capacity() {
    for n in 0..=MAX_FDS {
        let r = registry(n);
        let (names, fds) = r.serialize();
        let mut back = FileDescriptorsMap::new();
        back.deserialize(names, fds);
        assert!(same_map(&r, &back), "size {}", n);
    }
}

#[test]
fn deserialize_later_pair_wins() {
    let mut r = FileDescriptorsMap::new();
    r.add("a".to_string(), 1);
    r.deserialize(
        vec!["a".to_string(), "b".to_string(), "a".to_string()],
        vec![5, 6, 7],
    );
    assert_eq!(r.get("a"), Some(&7));
    assert_eq!(r.get("b"), Some(&6));
}

#[test]
fn handoff_message_round_trip() {
    let r = registry(32);
    let (payload, fds) = r.handoff_message();
    assert!(payload.len() <= NAME_CAPACITY);
    let mut back = FileDescriptorsMap::new();
    assert_eq!(back.load_handoff(&payload, fds), Ok(()));
    assert!(same_map(&r, &back));
}

#[test]
fn handoff_message_of_empty_registry() {
    let (payload, fds) = FileDescriptorsMap::new().handoff_message();
    assert!(payload.is_empty());
    assert!(fds.is_empty());
}

#[test]
fn handoff_message_is_cut_at_capacity() {
    let mut r = FileDescriptorsMap::new();
    for i in 0..200 {
        r.add(format!("name-{:010}", i), i);
    }
    let (payload, fds) = r.handoff_message();
    assert_eq!(payload.len(), NAME_CAPACITY);
    assert_eq!(fds.len(), 200);
    let mut back = FileDescriptorsMap::new();
    assert_eq!(back.load_handoff(&payload, fds), Err(WireError::CountMismatch));
}

#[test]
fn load_handoff_rejects_count_mismatch() {
    let mut r = FileDescriptorsMap::new();
    assert_eq!(r.load_handoff(b"a b", vec![3]), Err(WireError::CountMismatch));
    assert_eq!(r.get("a"), None);
}

#[test]
fn load_handoff_rejects_non_utf8() {
    let mut r = FileDescriptorsMap::new();
    assert_eq!(r.load_handoff(b"a \xff", vec![3, 4]), Err(WireError::NotText));
    assert_eq!(r.get("a"), None);
}

#[test]
fn load_handoff_pairs_by_position() {
    let mut r = FileDescriptorsMap::new();
    assert_eq!(r.load_handoff(b"x:1 y:2", vec![10, 11]), Ok(()));
    assert_eq!(r.get("x:1"), Some(&10));
    assert_eq!(r.get("y:2"), Some(&11));
}
