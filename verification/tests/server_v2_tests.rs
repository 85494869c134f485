use arch_mirror::server_v2::{stream_item, FileResponse, Server, StreamBufReader, READ_CHUNK_SIZE};

#[test]
fn server_v2_new() {
    let _s = Server::new();
}

#[test]
fn content_disposition_names_the_file() {
    let r = FileResponse::new(vec![1u8, 2, 3], "test");
    assert!(r.has_valid_disposition());
    let v = r.content_disposition();
    assert_eq!(v.as_bytes(), b"attachment; filename=test");
    let (stream, name) = r.into_parts();
    assert_eq!(stream, vec![1u8, 2, 3]);
    assert_eq!(name, "test");
}

#[test]
fn content_disposition_allows_tab_and_non_ascii() {
    let r = FileResponse::new((), "a\tb\u{e9}.db");
    assert!(r.has_valid_disposition());
    let v = r.content_disposition();
    assert_eq!(v.as_bytes(), "attachment; filename=a\tb\u{e9}.db".as_bytes());
}

#[test]
fn content_disposition_rejects_control_bytes() {
    assert!(!FileResponse::new((), "bad\nname").has_valid_disposition());
    assert!(!FileResponse::new((), "del\u{7f}").has_valid_disposition());
    assert!(!FileResponse::new((), "nul\u{0}").has_valid_disposition());
}

#[test]
fn stream_buf_reader_keeps_reader() {
    let s = StreamBufReader::new(7u32);
    assert_eq!(s.into_inner(), 7);
    assert_eq!(READ_CHUNK_SIZE, 1024);
}

#[test]
fn stream_item_for_read_outcomes() {
    let data = [5u8, 6, 7];
    match stream_item::<&str>(Ok(&data[..])) {
        Some(Ok(b)) => assert_eq!(&b[..], &data[..]),
        _ => panic!("expected a chunk"),
    }
    assert!(stream_item::<&str>(Ok(&[][..])).is_none());
    match stream_item::<&str>(Err("io")) {
        Some(Err(e)) => assert_eq!(e, "io"),
        _ => panic!("expected the error"),
    }
}

#[test]
fn stream_items_of_successive_reads_concatenate() {
    let data: Vec<u8> = (0..2500u32).map(|i| (i % 251) as u8).collect();
    let mut out = Vec::new();
    let mut count = 0;
    for piece in data.chunks(READ_CHUNK_SIZE) {
        match stream_item::<()>(Ok(piece)) {
            Some(Ok(b)) => {
                assert!(1 <= b.len() && b.len() <= READ_CHUNK_SIZE);
                out.extend_from_slice(&b);
                count += 1;
            }
            _ => panic!("expected a chunk"),
        }
    }
    assert!(stream_item::<()>(Ok(&[][..])).is_none());
    assert_eq!(count, 3);
    assert_eq!(out, data);
}
