use libcraft::net::{
    get_packet, parse_packet, parse_would_panic, send_packet, Packet, PacketError, PacketReader,
};

fn field<'a>(p: &'a Packet, name: &str) -> Option<&'a str> {
    p.get(name).map(|s| s.as_str())
}

#[test]
fn get_packet_reads_fields_up_to_empty_line() {
    let stream = b"name:value\nother:x:y\n\nrest";
    let (p, n) = get_packet(stream).unwrap();
    assert_eq!(n, 22);
    assert_eq!(p.len(), 2);
    assert_eq!(field(&p, "name"), Some("value"));
    assert_eq!(field(&p, "other"), Some("x:y"));
    assert_eq!(field(&p, "rest"), None);
}

#[test]
fn get_packet_without_empty_line_is_broken_pipe() {
    assert_eq!(get_packet(b"a:b\n").err(), Some(PacketError::BrokenPipe));
    assert_eq!(get_packet(b"").err(), Some(PacketError::BrokenPipe));
    assert_eq!(get_packet(b"\n").err(), Some(PacketError::BrokenPipe));
}

#[test]
fn get_packet_of_bare_empty_line() {
    let (p, n) = get_packet(b"\n\nmore").unwrap();
    assert_eq!(n, 2);
    assert_eq!(p.len(), 0);
}

#[test]
fn lines_without_colon_are_skipped() {
    let (p, n) = get_packet(b"junk\na:1\n\n").unwrap();
    assert_eq!(n, 10);
    assert_eq!(p.len(), 1);
    assert_eq!(field(&p, "a"), Some("1"));
}

#[test]
fn later_field_wins() {
    let (p, _) = get_packet(b"a:1\nb:2\na:3\n\n").unwrap();
    assert_eq!(p.len(), 2);
    assert_eq!(field(&p, "a"), Some("3"));
    assert_eq!(field(&p, "b"), Some("2"));
}

#[test]
fn empty_name_and_value() {
    let (p, _) = get_packet(b":v\nk:\n\n").unwrap();
    assert_eq!(field(&p, ""), Some("v"));
    assert_eq!(field(&p, "k"), Some(""));
}

#[test]
fn name_not_utf8_stops_reading() {
    let (p, n) = get_packet(b"a:1\n\xff:2\nb:3\n\n").unwrap();
    assert_eq!(n, 13);
    assert_eq!(p.len(), 1);
    assert_eq!(field(&p, "a"), Some("1"));
    assert_eq!(field(&p, "b"), None);
}

#[test]
fn value_not_utf8_is_detected() {
    assert!(parse_would_panic(b"a:\xff\n\n"));
    assert!(!parse_would_panic(b"a:1\n\n"));
    // reading stops at a bad name before it reaches the bad value
    assert!(!parse_would_panic(b"\xfe:1\na:\xff\n\n"));
    // a bad value after the last newline is never read
    assert!(!parse_would_panic(b"a:1\nb:\xff"));
}

#[test]
fn parse_ignores_unended_line() {
    let p = parse_packet(b"a:1\nb:2");
    assert_eq!(p.len(), 1);
    assert_eq!(field(&p, "a"), Some("1"));
}

#[test]
fn utf8_fields_are_decoded() {
    let (p, _) = get_packet("név:érték\n\n".as_bytes()).unwrap();
    assert_eq!(field(&p, "név"), Some("érték"));
}

#[test]
fn send_packet_writes_lines_then_empty_line() {
    let mut p = Packet::new();
    p.insert("a".to_string(), "1".to_string());
    p.insert("b".to_string(), "x:y".to_string());
    assert_eq!(send_packet(&p), b"a:1\nb:x:y\n\n".to_vec());
}

#[test]
fn send_empty_packet_is_one_newline() {
    let p = Packet::new();
    assert_eq!(send_packet(&p), b"\n".to_vec());
}

#[test]
fn send_then_get_gives_back_fields() {
    let mut p = Packet::new();
    p.insert("id".to_string(), "survival".to_string());
    p.insert("cmd".to_string(), "say hello: world".to_string());
    p.insert("empty".to_string(), "".to_string());
    let mut bytes = send_packet(&p);
    let sent = bytes.len();
    bytes.extend_from_slice(b"next:packet\n\n");
    let (q, n) = get_packet(&bytes).unwrap();
    assert_eq!(n, sent);
    assert_eq!(q.len(), 3);
    assert_eq!(field(&q, "id"), Some("survival"));
    assert_eq!(field(&q, "cmd"), Some("say hello: world"));
    assert_eq!(field(&q, "empty"), Some(""));
}

#[test]
fn insert_replaces_in_place() {
    let mut p = Packet::new();
    p.insert("a".to_string(), "1".to_string());
    p.insert("b".to_string(), "2".to_string());
    p.insert("a".to_string(), "3".to_string());
    assert_eq!(p.len(), 2);
    let fields = p.into_fields();
    assert_eq!(
        fields,
        vec![
            ("a".to_string(), "3".to_string()),
            ("b".to_string(), "2".to_string())
        ]
    );
}

#[test]
fn reader_completes_where_get_packet_ends() {
    let stream = b"x:1\ny\n\nz:2\n\n";
    let (_, n) = get_packet(stream).unwrap();
    let mut reader = PacketReader::new();
    let mut taken = 0;
    while !reader.is_complete() {
        reader.push(stream[taken]);
        taken += 1;
    }
    assert_eq!(taken, n);
    assert_eq!(taken, 7);
    let bytes = reader.into_bytes();
    assert_eq!(bytes, stream[..7].to_vec());
    let (p, m) = get_packet(&bytes).unwrap();
    assert_eq!(m, 7);
    assert_eq!(p.get("x").map(|s| s.as_str()), Some("1"));
}

#[test]
fn reader_starts_incomplete() {
    let mut reader = PacketReader::new();
    assert!(!reader.is_complete());
    reader.push(b'\n');
    assert!(!reader.is_complete());
    reader.push(b'\n');
    assert!(reader.is_complete());
}

#[test]
fn parse_of_joined_runs_merges_fields() {
    let x: &[u8] = b"a:1\nb:2\njunk\n";
    let y: &[u8] = b"b:3\nc:4\n\n";
    let mut joined = x.to_vec();
    joined.extend_from_slice(y);
    let whole = parse_packet(&joined);
    let mut merged: std::collections::HashMap<String, String> =
        parse_packet(x).into_fields().into_iter().collect();
    merged.extend(parse_packet(y).into_fields());
    let whole: std::collections::HashMap<String, String> =
        whole.into_fields().into_iter().collect();
    assert_eq!(whole, merged);
    assert_eq!(whole.get("b").map(|s| s.as_str()), Some("3"));
    assert_eq!(whole.len(), 3);
}
