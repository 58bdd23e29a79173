use in_memory_cache::frame::{parse_frame, Cursor, Frame, FrameError};

#[test]
fn test_simple_string() {
    let mut cursor = Cursor::new(&b"+OK\r\n"[..]);
    assert!(Frame::check(&mut cursor).is_ok());
    cursor.set_position(0);
    assert_eq!(Frame::parse(&mut cursor).unwrap(), Frame::Simple("OK".to_string()));
}

#[test]
fn test_error() {
    let mut cursor = Cursor::new(&b"-ERR unknown command\r\n"[..]);
    assert!(Frame::check(&mut cursor).is_ok());
    cursor.set_position(0);
    assert_eq!(
        Frame::parse(&mut cursor).unwrap(),
        Frame::Error("ERR unknown command".to_string())
    );
}

#[test]
fn test_integer() {
    let mut cursor = Cursor::new(&b":1000\r\n"[..]);
    assert!(Frame::check(&mut cursor).is_ok());
    cursor.set_position(0);
    assert_eq!(Frame::parse(&mut cursor).unwrap(), Frame::Integer(1000));

    let mut neg_cursor = Cursor::new(&b":-42\r\n"[..]);
    assert!(Frame::check(&mut neg_cursor).is_ok());
    neg_cursor.set_position(0);
    assert_eq!(Frame::parse(&mut neg_cursor).unwrap(), Frame::Integer(-42));
}

#[test]
fn test_bulk_string() {
    let mut cursor = Cursor::new(&b"$5\r\nhello\r\n"[..]);
    assert!(Frame::check(&mut cursor).is_ok());
    cursor.set_position(0);
    assert_eq!(Frame::parse(&mut cursor).unwrap(), Frame::Bulk(b"hello".to_vec()));
}

#[test]
fn test_null_bulk_string() {
    let mut cursor = Cursor::new(&b"$-1\r\n"[..]);
    assert!(Frame::check(&mut cursor).is_ok());
    cursor.set_position(0);
    assert_eq!(Frame::parse(&mut cursor).unwrap(), Frame::Null);
}

#[test]
fn test_array() {
    let mut cursor = Cursor::new(&b"*2\r\n$3\r\nGET\r\n$3\r\nkey\r\n"[..]);
    assert!(Frame::check(&mut cursor).is_ok());
    cursor.set_position(0);
    assert_eq!(
        Frame::parse(&mut cursor).unwrap(),
        Frame::Array(vec![Frame::Bulk(b"GET".to_vec()), Frame::Bulk(b"key".to_vec())])
    );
}

#[test]
fn test_incomplete_frame() {
    let mut cursor = Cursor::new(&b"*2\r\n$3\r\nGET\r\n"[..]);
    assert_eq!(Frame::check(&mut cursor).unwrap_err(), FrameError::Incomplete);
}

#[test]
fn test_serialization() {
    let frame = Frame::Array(vec![
        Frame::Bulk(b"SET".to_vec()),
        Frame::Bulk(b"name".to_vec()),
        Frame::Bulk(b"antigravity".to_vec()),
    ]);
    let mut buf = Vec::new();
    frame.write_to_buf(&mut buf);
    assert_eq!(buf, b"*3\r\n$3\r\nSET\r\n$4\r\nname\r\n$11\r\nantigravity\r\n");
}

#[test]
fn frame_test_inline_command() {
    let mut cursor = Cursor::new(&b"PING\r\n"[..]);
    assert!(Frame::check(&mut cursor).is_ok());
    cursor.set_position(0);
    assert_eq!(
        Frame::parse(&mut cursor).unwrap(),
        Frame::Array(vec![Frame::Bulk(b"PING".to_vec())])
    );

    let mut cursor2 = Cursor::new(&b"SET key val\r\n"[..]);
    assert!(Frame::check(&mut cursor2).is_ok());
    cursor2.set_position(0);
    assert_eq!(
        Frame::parse(&mut cursor2).unwrap(),
        Frame::Array(vec![
            Frame::Bulk(b"SET".to_vec()),
            Frame::Bulk(b"key".to_vec()),
            Frame::Bulk(b"val".to_vec()),
        ])
    );
}

#[test]
fn frame_round_trip_through_write_and_parse() {
    let frame = Frame::Array(vec![
        Frame::Simple("OK".to_string()),
        Frame::Error("ERR boom".to_string()),
        Frame::Integer(-7),
        Frame::Null,
        Frame::Bulk(vec![0, 13, 10, 255]),
        Frame::Array(vec![]),
    ]);
    let mut buf = Vec::new();
    frame.write_to_buf(&mut buf);
    buf.extend_from_slice(b"+trailing\r\n");
    let mut cursor = Cursor::new(&buf[..]);
    assert!(Frame::check(&mut cursor).is_ok());
    let end = cursor.position();
    cursor.set_position(0);
    assert_eq!(Frame::parse(&mut cursor).unwrap(), frame);
    assert_eq!(cursor.position(), end);
}

#[test]
fn frame_errors_for_malformed_input() {
    let mut cursor = Cursor::new(&b"*-1\r\n"[..]);
    assert_eq!(
        Frame::check(&mut cursor).unwrap_err(),
        FrameError::Other("negative array length".to_string())
    );
    let mut cursor = Cursor::new(&b"$-5\r\n"[..]);
    assert!(matches!(Frame::check(&mut cursor), Err(FrameError::Other(_))));
    let mut cursor = Cursor::new(&b":12x\r\n"[..]);
    assert!(matches!(Frame::check(&mut cursor), Err(FrameError::Other(_))));
    let mut cursor = Cursor::new(&b""[..]);
    assert_eq!(Frame::check(&mut cursor).unwrap_err(), FrameError::Incomplete);
}

#[test]
fn frame_parse_frame_reports_length_and_incomplete() {
    let buf = b"*1\r\n$4\r\nPING\r\n*3\r\n$3\r\nSET\r\n";
    let (frame, len) = parse_frame(&buf[..]).unwrap().unwrap();
    assert_eq!(frame, Frame::Array(vec![Frame::Bulk(b"PING".to_vec())]));
    assert_eq!(len, 14);
    assert_eq!(parse_frame(&buf[len..]).unwrap(), None);
}

#[test]
fn frame_to_error_reads_message() {
    assert_eq!(Frame::Error("ERR x".to_string()).to_error(), Some("ERR x"));
    assert_eq!(Frame::Null.to_error(), None);
}

#[test]
fn frame_display_text_renders_like_a_client() {
    assert_eq!(Frame::Simple("OK".to_string()).display_text(), "\"OK\"");
    assert_eq!(Frame::Error("bad".to_string()).display_text(), "ERR: bad");
    assert_eq!(Frame::Integer(-5).display_text(), "-5");
    assert_eq!(Frame::Bulk(b"hi".to_vec()).display_text(), "\"hi\"");
    assert_eq!(Frame::Bulk(vec![255, 0]).display_text(), "[255, 0]");
    assert_eq!(Frame::Null.display_text(), "(nil)");
    assert_eq!(
        Frame::Array(vec![Frame::Integer(1), Frame::Null, Frame::Array(vec![])]).display_text(),
        "[1, (nil), []]"
    );
}

#[test]
fn frame_debug_text_matches_derived_debug() {
    let frames = vec![
        Frame::Simple("a \"quoted\" \\ line\n".to_string()),
        Frame::Error("tab\there".to_string()),
        Frame::Integer(i64::MIN),
        Frame::Bulk(vec![]),
        Frame::Bulk(vec![0, 7, 255]),
        Frame::Null,
        Frame::Array(vec![Frame::Null, Frame::Array(vec![Frame::Integer(3)]), Frame::Bulk(vec![1])]),
    ];
    for f in &frames {
        assert_eq!(f.debug_text(), format!("{:?}", f));
    }
}

#[test]
fn frame_error_from_message() {
    assert_eq!(
        FrameError::from("protocol error; bad".to_string()),
        FrameError::Other("protocol error; bad".to_string())
    );
}

#[test]
fn every_prefix_of_a_frame_is_incomplete() {
    let frames = vec![
        Frame::Array(vec![
            Frame::Bulk(b"SET".to_vec()),
            Frame::Bulk(b"k\r\nx".to_vec()),
            Frame::Integer(-42),
            Frame::Null,
            Frame::Simple("OK".to_string()),
            Frame::Array(vec![]),
        ]),
        Frame::Error("ERR x".to_string()),
        Frame::Bulk(Vec::new()),
    ];
    for f in frames {
        let mut enc = Vec::new();
        f.write_to_buf(&mut enc);
        for k in 0..enc.len() {
            assert_eq!(parse_frame(&enc[..k]), Ok(None), "prefix of length {}", k);
            let mut cursor = Cursor::new(&enc[..k]);
            assert_eq!(Frame::check(&mut cursor), Err(FrameError::Incomplete));
        }
        assert!(matches!(parse_frame(&enc), Ok(Some((_, n))) if n == enc.len()));
    }
}
