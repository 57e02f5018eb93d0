use fd_handoff::codec::join_names;
use fd_handoff::{deserialize_vec_string, serialize_vec_string};

fn names(v: &[&str]) -> Vec<String> {
    v.iter().map(|s| s.to_string()).collect()
}

#[test]
fn encode_joins_with_single_spaces() {
    let mut buf = [0xAAu8; 32];
    let n = serialize_vec_string(&names(&["0.0.0.0:80", "[::]:443"]), &mut buf);
    assert_eq!(n, 19);
    assert_eq!(&buf[..n], b"0.0.0.0:80 [::]:443");
    assert!(buf[n..].iter().all(|b| *b == 0xAA));
}

#[test]
fn encode_empty_list_writes_nothing() {
    let mut buf = [7u8; 4];
    assert_eq!(serialize_vec_string(&[], &mut buf), 0);
    assert_eq!(buf, [7u8; 4]);
}

#[test]
fn encode_single_name_has_no_separator() {
    let mut buf = [0u8; 8];
    let n = serialize_vec_string(&names(&["a:1"]), &mut buf);
    assert_eq!(&buf[..n], b"a:1");
}

#[test]
fn encode_truncates_at_buffer_end() {
    let mut buf = [0u8; 5];
    let n = serialize_vec_string(&names(&["abc", "defg"]), &mut buf);
    assert_eq!(n, 5);
    assert_eq!(&buf, b"abc d");
}

#[test]
fn encode_over_capacity_stops_at_2048_bytes() {
    let long: Vec<String> = (0..300).map(|i| format!("10.0.0.1:{:05}", i)).collect();
    let joined = join_names(&long);
    assert!(joined.len() > 2048);
    let mut buf = [0u8; 2048];
    let n = serialize_vec_string(&long, &mut buf);
    assert_eq!(n, 2048);
    assert_eq!(&buf[..], &joined[..2048]);
}

#[test]
fn encode_exactly_at_capacity_fits() {
    let name = "x".repeat(2048);
    let mut buf = [0u8; 2048];
    let n = serialize_vec_string(&[name.clone()], &mut buf);
    assert_eq!(n, 2048);
    assert_eq!(&buf[..], name.as_bytes());
}

#[test]
fn join_names_matches_wire_form() {
    assert_eq!(join_names(&names(&["a", "b", "c"])), b"a b c".to_vec());
    assert_eq!(join_names(&[]), Vec::<u8>::new());
}

#[test]
fn decode_splits_on_runs_of_ascii_whitespace() {
    let got = deserialize_vec_string(b"  a  b\tc\r\nd\x0ce ").unwrap();
    assert_eq!(got, names(&["a", "b", "c", "d", "e"]));
}

#[test]
fn decode_empty_payload_gives_no_names() {
    assert_eq!(deserialize_vec_string(b""), Some(vec![]));
    assert_eq!(deserialize_vec_string(b" \t\n "), Some(vec![]));
}

#[test]
fn decode_reads_utf8_names() {
    let got = deserialize_vec_string("héllo wörld".as_bytes()).unwrap();
    assert_eq!(got, names(&["héllo", "wörld"]));
}

#[test]
fn decode_rejects_invalid_utf8() {
    assert_eq!(deserialize_vec_string(b"ok \xff\xfe"), None);
    assert_eq!(deserialize_vec_string(b"\xc3"), None);
}

#[test]
fn encode_then_decode_gives_back_names() {
    let list = names(&["127.0.0.1:8080", "0.0.0.0:443", "unix:/run/p.sock", "ünï:1"]);
    let mut buf = [0u8; 2048];
    let n = serialize_vec_string(&list, &mut buf);
    assert_eq!(deserialize_vec_string(&buf[..n]), Some(list));
}

#[test]
fn name_with_space_is_split_on_decode() {
    let list = names(&["a b", "c"]);
    let mut buf = [0u8; 16];
    let n = serialize_vec_string(&list, &mut buf);
    assert_eq!(deserialize_vec_string(&buf[..n]), Some(names(&["a", "b", "c"])));
}
