use sugar_wifi_conf::protocol::{
    chunk_message, parse_wifi_input, split_chunks, InputBuffer, InputRejection, CHUNK_SIZE,
    CONCAT_TAG, END_TAG,
};

#[test]
fn chunk_message_short() {
    let chunks = chunk_message("hello");
    assert_eq!(chunks, vec![b"hello&#&".to_vec()]);
}

#[test]
fn chunk_message_splits_in_twenty_bytes() {
    let msg = "abcdefghijklmnopqrstuvwxyz";
    let chunks = chunk_message(msg);
    assert_eq!(chunks.len(), 2);
    assert_eq!(chunks[0], b"abcdefghijklmnopqrst".to_vec());
    assert_eq!(chunks[1], b"uvwxyz&#&".to_vec());
    for c in chunks.iter() {
        assert!(c.len() <= CHUNK_SIZE && !c.is_empty());
    }
    let joined: Vec<u8> = chunks.concat();
    assert_eq!(joined, format!("{}{}", msg, END_TAG).into_bytes());
}

#[test]
fn chunk_message_exact_multiple() {
    let msg = "12345678901234567";
    let chunks = chunk_message(msg);
    assert_eq!(chunks, vec![b"12345678901234567&#&".to_vec()]);
    assert_eq!(chunk_message("").len(), 1);
    assert_eq!(chunk_message(""), vec![b"&#&".to_vec()]);
}

#[test]
fn split_chunks_of_empty_is_empty() {
    assert!(split_chunks(&[], 20).is_empty());
    assert_eq!(split_chunks(&[1, 2, 3], 2), vec![vec![1, 2], vec![3]]);
}

#[test]
fn input_buffer_reassembles_chunked_credentials() {
    let msg = format!("pisugar{}home_wifi{}12345678", CONCAT_TAG, CONCAT_TAG);
    let mut buf = InputBuffer::new();
    let chunks = chunk_message(&msg);
    assert!(chunks.len() > 1);
    let mut outs = Vec::new();
    for c in chunks.iter() {
        outs.push(buf.push_chunk(c));
    }
    for o in outs[..outs.len() - 1].iter() {
        assert!(o.is_none());
    }
    assert_eq!(outs.last().unwrap().as_deref(), Some(msg.as_str()));
    assert!(buf.is_empty());
    let creds = parse_wifi_input(&msg, "pisugar").unwrap();
    assert_eq!(creds.ssid, "home_wifi");
    assert_eq!(creds.password, "12345678");
}

#[test]
fn input_buffer_keeps_partial_and_clears() {
    let mut buf = InputBuffer::new();
    assert!(buf.is_empty());
    assert_eq!(buf.push_chunk(b"pisugar%&%"), None);
    assert!(!buf.is_empty());
    buf.clear();
    assert!(buf.is_empty());
    assert_eq!(buf.push_chunk(b"a&#&"), Some("a".to_string()));
}

#[test]
fn input_buffer_removes_every_end_tag() {
    let mut buf = InputBuffer::new();
    assert_eq!(buf.push_chunk(b"x&#&y&#&"), Some("xy".to_string()));
}

#[test]
fn parse_wifi_input_rejections() {
    assert_eq!(parse_wifi_input("pisugar%&%ssid", "pisugar").err(), Some(InputRejection::Syntax));
    assert_eq!(parse_wifi_input("wrong%&%ssid%&%pw", "pisugar").err(), Some(InputRejection::Key));
    let ok = parse_wifi_input("k%&%s%&%p%&%extra", "k").unwrap();
    assert_eq!((ok.ssid.as_str(), ok.password.as_str()), ("s", "p"));
    assert_eq!(InputRejection::Syntax.notice(), "Invalid syntax.");
    assert_eq!(InputRejection::Key.notice(), "Invalid key.");
    assert_eq!(InputRejection::Syntax.legacy_notice(), "Wrong input syntax.");
    assert_eq!(InputRejection::Key.legacy_notice(), "Wrong input key.");
}

#[test]
fn empty_fields_are_kept() {
    let ok = parse_wifi_input("k%&%%&%", "k").unwrap();
    assert_eq!(ok.ssid, "");
    assert_eq!(ok.password, "");
}
