use arch_mirror::download::{
    download_step, download_url, DownloadAction, DownloadEvent, PackageDownloadManager,
    PackageDownloader, CHANNEL_CAPACITY, USER_AGENT,
};
use bytes::Bytes;

fn downloader() -> (tokio::sync::mpsc::Sender<Bytes>, PackageDownloader) {
    let (tx, rx) = tokio::sync::mpsc::channel::<Bytes>(CHANNEL_CAPACITY);
    (tx, PackageDownloader::new(rx))
}

#[test]
fn download_url_follows_mirror_layout() {
    assert_eq!(
        download_url("core", "x86_64", "core.db"),
        "https://mirrors.tuna.tsinghua.edu.cn/archlinux/core/os/x86_64/core.db"
    );
    assert_eq!(
        download_url("extra", "aarch64", "vim-9.1.tar.zst"),
        "https://mirrors.tuna.tsinghua.edu.cn/archlinux/extra/os/aarch64/vim-9.1.tar.zst"
    );
}

#[test]
fn download_constants() {
    assert_eq!(CHANNEL_CAPACITY, 10);
    assert!(USER_AGENT.starts_with("Mozilla/5.0"));
}

#[test]
fn manager_new() {
    let _m = PackageDownloadManager::new();
}

#[test]
fn fresh_downloader_is_empty_and_needs_data() {
    let (_tx, d) = downloader();
    assert_eq!(d.remaining(), 0);
    assert!(d.fill_buf().is_none());
}

#[test]
fn received_chunk_is_read_in_order() {
    let (_tx, mut d) = downloader();
    assert!(d.receive(Some(Bytes::from_static(b"hello"))));
    assert_eq!(d.remaining(), 5);
    assert_eq!(d.fill_buf().unwrap(), b"hello");
    assert_eq!(d.read(3), b"hel".to_vec());
    assert_eq!(d.remaining(), 2);
    assert_eq!(d.fill_buf().unwrap(), b"lo");
    assert_eq!(d.read(10), b"lo".to_vec());
    assert_eq!(d.remaining(), 0);
    assert!(d.fill_buf().is_none());
}

#[test]
fn consume_drops_front_bytes() {
    let (_tx, mut d) = downloader();
    d.receive(Some(Bytes::from_static(b"abcdef")));
    d.consume(0);
    assert_eq!(d.remaining(), 6);
    d.consume(4);
    assert_eq!(d.fill_buf().unwrap(), b"ef");
    d.consume(2);
    assert_eq!(d.remaining(), 0);
}

#[test]
fn consume_zero_on_empty_downloader() {
    let (_tx, mut d) = downloader();
    d.consume(0);
    assert_eq!(d.remaining(), 0);
}

#[test]
fn end_of_channel_leaves_downloader_empty() {
    let (_tx, mut d) = downloader();
    assert!(!d.receive(None));
    assert_eq!(d.remaining(), 0);
    assert_eq!(d.read(16), Vec::<u8>::new());
}

#[test]
fn empty_chunk_still_needs_data() {
    let (_tx, mut d) = downloader();
    assert!(d.receive(Some(Bytes::new())));
    assert!(d.fill_buf().is_none());
}

#[test]
fn read_with_zero_capacity_keeps_buffer() {
    let (_tx, mut d) = downloader();
    d.receive(Some(Bytes::from_static(b"xyz")));
    assert_eq!(d.read(0), Vec::<u8>::new());
    assert_eq!(d.remaining(), 3);
}

#[test]
fn chunks_from_channel_come_out_whole_and_in_order() {
    let (tx, mut d) = downloader();
    tx.try_send(Bytes::from_static(b"first-")).unwrap();
    tx.try_send(Bytes::from_static(b"second")).unwrap();
    drop(tx);
    let mut out = Vec::new();
    loop {
        if d.fill_buf().is_none() {
            let msg = d.receiver_mut().try_recv().ok();
            if !d.receive(msg) {
                break;
            }
            continue;
        }
        out.extend(d.read(4));
    }
    assert_eq!(out, b"first-second".to_vec());
}

#[test]
fn download_step_decisions() {
    let b = Bytes::from_static(b"chunk");
    match download_step::<String>(DownloadEvent::Chunk(Ok(Some(b.clone())))) {
        DownloadAction::Send(x) => assert_eq!(x, b),
        _ => panic!("expected Send"),
    }
    assert!(matches!(
        download_step::<String>(DownloadEvent::Chunk(Ok(None))),
        DownloadAction::AwaitClosed
    ));
    match download_step::<String>(DownloadEvent::Chunk(Err("boom".to_string()))) {
        DownloadAction::Fail(e) => assert_eq!(e, "boom"),
        _ => panic!("expected Fail"),
    }
    assert!(matches!(download_step::<String>(DownloadEvent::Sent(true)), DownloadAction::FetchNext));
    assert!(matches!(download_step::<String>(DownloadEvent::Sent(false)), DownloadAction::Finish));
}

#[test]
fn downloader_keeps_its_channel_across_reads() {
    let (tx, mut d) = downloader();
    d.receive(Some(Bytes::from_static(b"ab")));
    d.consume(1);
    assert_eq!(d.read(5), b"b".to_vec());
    tx.try_send(Bytes::from_static(b"next")).unwrap();
    let msg = d.receiver_mut().try_recv().ok();
    assert_eq!(msg, Some(Bytes::from_static(b"next")));
}

#[test]
fn download_run_hands_on_every_body_chunk() {
    let body = [Bytes::from_static(b"one"), Bytes::from_static(b"two")];
    let mut sent = Vec::new();
    let mut event = DownloadEvent::<String>::Chunk(Ok(Some(body[0].clone())));
    let mut next = 1;
    let end = loop {
        match download_step(event) {
            DownloadAction::Send(b) => {
                sent.push(b);
                event = DownloadEvent::Sent(true);
            }
            DownloadAction::FetchNext => {
                event = DownloadEvent::Chunk(Ok(body.get(next).cloned()));
                next += 1;
            }
            other => break other,
        }
    };
    assert!(matches!(end, DownloadAction::AwaitClosed));
    assert_eq!(sent, body.to_vec());
}

#[test]
fn fill_ends_only_after_channel_end() {
    let (tx, mut d) = downloader();
    tx.try_send(Bytes::new()).unwrap();
    drop(tx);
    // An empty chunk is taken and the fill goes on; then the channel ends.
    assert!(d.fill_buf().is_none());
    let msg = d.receiver_mut().try_recv().ok();
    assert!(d.receive(msg));
    assert!(d.fill_buf().is_none());
    let msg = d.receiver_mut().try_recv().ok();
    assert!(!d.receive(msg));
    assert_eq!(d.remaining(), 0);
}
