//! Package downloads from the mirror: the download URL, the decisions of the
//! download loop, and the buffered reader over the chunks it receives.
use crate::byte_buf::{bytes_advance, bytes_chunk, bytes_contents, bytes_remaining};
use bytes::Bytes;
use tokio::sync::mpsc::Receiver;
use vstd::prelude::*;

verus! {

/// How many chunks the download channel holds before the sender waits.
pub const CHANNEL_CAPACITY: usize = 10;

/// The `User-Agent` header sent with every download request.
pub const USER_AGENT: &'static str = "Mozilla/5.0 (Windows NT 10.0; Win64; x64) AppleWebKit/537.36 (KHTML, like Gecko) Chrome/132.0.0.0 Safari/537.36";

/// The mirror that packages are fetched from.
pub open spec fn mirror_url(repo: Seq<char>, arch: Seq<char>, file_name: Seq<char>) -> Seq<char> {
    "https://mirrors.tuna.tsinghua.edu.cn/archlinux/"@ + repo + "/os/"@ + arch + "/"@ + file_name
}

/// A mirror URL starts with the mirror's address and the repository, and
/// ends with a slash and the whole file name; so two files of one repository
/// and architecture never share a URL.
pub proof fn mirror_url_names_the_file(
    repo: Seq<char>,
    arch: Seq<char>,
    file_name: Seq<char>,
    other: Seq<char>,
)
    ensures
        ({
            let url = mirror_url(repo, arch, file_name);
            let base = "https://mirrors.tuna.tsinghua.edu.cn/archlinux/"@;
            &&& url.len() == base.len() + repo.len() + 4 + arch.len() + 1 + file_name.len()
            &&& url.subrange(0, (base.len() + repo.len()) as int) == base + repo
            &&& url.subrange(url.len() - file_name.len() - 1, url.len() as int) == "/"@ + file_name
        }),
        file_name != other ==> mirror_url(repo, arch, file_name) != mirror_url(repo, arch, other),
{
    reveal_strlit("https://mirrors.tuna.tsinghua.edu.cn/archlinux/");
    reveal_strlit("/os/");
    reveal_strlit("/");
    let base = "https://mirrors.tuna.tsinghua.edu.cn/archlinux/"@;
    let head = base + repo + "/os/"@ + arch;
    let url = mirror_url(repo, arch, file_name);
    assert(url == head + ("/"@ + file_name));
    assert(url.subrange(0, (base.len() + repo.len()) as int) =~= base + repo);
    assert(url.subrange(url.len() - file_name.len() - 1, url.len() as int) =~= "/"@ + file_name);
    let url2 = mirror_url(repo, arch, other);
    assert(url2 == head + ("/"@ + other));
    if url == url2 {
        assert(file_name.len() == other.len());
        assert forall|i: int| 0 <= i < file_name.len() implies file_name[i] == other[i] by {
            assert(url[head.len() + 1 + i] == file_name[i]);
            assert(url2[head.len() + 1 + i] == other[i]);
        }
        assert(file_name =~= other);
    }
}

/// The URL of `file_name` in repository `repo` for architecture `arch`.
pub fn download_url(repo: &str, arch: &str, file_name: &str) -> (url: String)
    ensures
        url@ == mirror_url(repo@, arch@, file_name@),
        url@ == "https://mirrors.tuna.tsinghua.edu.cn/archlinux/"@ + repo@ + "/os/"@ + arch@ + "/"@
            + file_name@,
{
    let mut url = String::from_str("https://mirrors.tuna.tsinghua.edu.cn/archlinux/");
    url.append(repo);
    url.append("/os/");
    url.append(arch);
    url.append("/");
    url.append(file_name);
    url
}


/// `tokio::sync::mpsc::Receiver`, carried as it is; the caller polls it.
#[verifier::external_type_specification]
#[verifier::external_body]
#[verifier::reject_recursive_types(T)]
pub struct ExReceiver<T>(tokio::sync::mpsc::Receiver<T>);

/// Starts package downloads; it holds no state of its own.
pub struct PackageDownloadManager {}

impl PackageDownloadManager {
    pub fn new() -> (m: PackageDownloadManager)
        ensures
            m == (PackageDownloadManager {}),
    {
        PackageDownloadManager {}
    }
}

/// A reader over the chunks of a download, which arrive on a channel.
///
/// At most one chunk is buffered at a time; reads take bytes from its front,
/// and a new chunk is taken from the channel only once the buffered one is
/// used up.  The ghost fields record every byte taken from the channel and
/// every byte handed out, so that the contracts can say that the bytes come
/// out exactly as they went in.
pub struct PackageDownloader {
    receiver: Receiver<Bytes>,
    buf: Option<Bytes>,
    received: Ghost<Seq<u8>>,
    delivered: Ghost<Seq<u8>>,
}

impl PackageDownloader {
    /// The bytes buffered and not yet handed out.
    pub closed spec fn buffered(&self) -> Seq<u8> {
        match self.buf {
            Some(b) => bytes_contents(b),
            None => Seq::empty(),
        }
    }

    /// The channel the chunks arrive on.
    pub closed spec fn receiver(&self) -> Receiver<Bytes> {
        self.receiver
    }

    /// All bytes taken from the channel so far, in order.
    pub closed spec fn received(&self) -> Seq<u8> {
        self.received@
    }

    /// All bytes handed out so far, in order.
    pub closed spec fn delivered(&self) -> Seq<u8> {
        self.delivered@
    }

    /// What was handed out, followed by what is buffered, is what was received.
    pub open spec fn wf(&self) -> bool {
        self.delivered() + self.buffered() == self.received()
    }

    pub fn new(receiver: Receiver<Bytes>) -> (d: PackageDownloader)
        ensures
            d.wf(),
            d.receiver() == receiver,
            d.buffered() == Seq::<u8>::empty(),
            d.received() == Seq::<u8>::empty(),
            d.delivered() == Seq::<u8>::empty(),
    {
        PackageDownloader {
            receiver,
            buf: None,
            received: Ghost(Seq::empty()),
            delivered: Ghost(Seq::empty()),
        }
    }

    /// The number of buffered bytes.
    pub fn remaining(&self) -> (n: usize)
        ensures
            n == self.buffered().len(),
    {
        match &self.buf {
            Some(buf) => bytes_remaining(buf),
            None => 0,
        }
    }

    /// The buffered bytes when there are any; `None` when the channel has to
    /// be polled for the next chunk.
    pub fn fill_buf(&self) -> (chunk: Option<&[u8]>)
        ensures
            chunk is Some <==> self.buffered().len() > 0,
            chunk matches Some(c) ==> c@ == self.buffered(),
    {
        if self.remaining() > 0 {
            match &self.buf {
                Some(buf) => Some(bytes_chunk(buf)),
                None => None,
            }
        } else {
            None
        }
    }

    /// The channel the chunks arrive on, for the caller to poll.
    pub fn receiver_mut(&mut self) -> (r: &mut Receiver<Bytes>)
        ensures
            *r == old(self).receiver(),
            final(self).receiver() == *final(r),
            final(self).buffered() == old(self).buffered(),
            final(self).received() == old(self).received(),
            final(self).delivered() == old(self).delivered(),
    {
        &mut self.receiver
    }

    /// Takes what the channel yielded once the buffer is used up: a chunk is
    /// buffered (`true`), and the end of the channel leaves all unchanged
    /// (`false`, the end of the download).
    pub fn receive(&mut self, msg: Option<Bytes>) -> (got: bool)
        requires
            old(self).wf(),
            old(self).buffered().len() == 0,
        ensures
            final(self).wf(),
            final(self).receiver() == old(self).receiver(),
            final(self).delivered() == old(self).delivered(),
            got == msg is Some,
            match msg {
                Some(b) => {
                    &&& final(self).buffered() == bytes_contents(b)
                    &&& final(self).received() == old(self).received() + bytes_contents(b)
                },
                None => {
                    &&& final(self).buffered() == old(self).buffered()
                    &&& final(self).received() == old(self).received()
                },
            },
    {
        match msg {
            Some(b) => {
                proof {
                    assert(old(self).buffered() =~= Seq::<u8>::empty());
                    assert(old(self).delivered() =~= old(self).received());
                }
                self.received = Ghost(self.received@ + bytes_contents(b));
                self.buf = Some(b);
                true
            },
            None => false,
        }
    }

    /// Marks the first `amt` buffered bytes as handed out.
    pub fn consume(&mut self, amt: usize)
        requires
            old(self).wf(),
            amt <= old(self).buffered().len(),
        ensures
            final(self).wf(),
            final(self).receiver() == old(self).receiver(),
            final(self).buffered() == old(self).buffered().skip(amt as int),
            final(self).delivered() == old(self).delivered() + old(self).buffered().take(amt as int),
            final(self).received() == old(self).received(),
    {
        if amt > 0 {
            let ghost before = self.buffered();
            match &mut self.buf {
                Some(buf) => {
                    bytes_advance(buf, amt);
                },
                None => {},
            }
            proof {
                assert(before =~= before.take(amt as int) + before.skip(amt as int));
                let ghost d = self.delivered@;
                self.delivered = Ghost(d + before.take(amt as int));
                assert(self.buffered() == before.skip(amt as int));
                assert(d + before.take(amt as int) + before.skip(amt as int) =~= d + before);
            }
        } else {
            proof {
                assert(self.buffered().skip(0) =~= self.buffered());
                assert(self.delivered() + self.buffered().take(0) =~= self.delivered());
            }
        }
    }

    /// Hands out the front of the buffer, at most `capacity` bytes of it.
    pub fn read(&mut self, capacity: usize) -> (out: Vec<u8>)
        requires
            old(self).wf(),
        ensures
            final(self).wf(),
            final(self).receiver() == old(self).receiver(),
            out@.len() == if old(self).buffered().len() < capacity {
                old(self).buffered().len()
            } else {
                capacity as nat
            },
            out@ == old(self).buffered().take(out@.len() as int),
            final(self).buffered() == old(self).buffered().skip(out@.len() as int),
            final(self).delivered() == old(self).delivered() + out@,
            final(self).received() == old(self).received(),
    {
        let mut out: Vec<u8> = Vec::new();
        let len = match self.fill_buf() {
            Some(inner) => {
                let len = if inner.len() < capacity { inner.len() } else { capacity };
                let mut i: usize = 0;
                while i < len
                    invariant
                        len <= inner@.len(),
                        i <= len,
                        out@ == inner@.take(i as int),
                    decreases len - i,
                {
                    out.push(inner[i]);
                    i = i + 1;
                    assert(out@ =~= inner@.take(i as int));
                }
                len
            },
            None => 0,
        };
        self.consume(len);
        out
    }
}

/// Whatever the downloader has handed out is, byte for byte, the front of
/// what it took from the channel.
pub proof fn delivered_is_prefix_of_received(d: &PackageDownloader)
    requires
        d.wf(),
    ensures
        d.delivered().len() <= d.received().len(),
        d.delivered() == d.received().take(d.delivered().len() as int),
{
    assert((d.delivered() + d.buffered()).take(d.delivered().len() as int) =~= d.delivered());
}

/// Once the buffer is used up, everything taken from the channel has been
/// handed out, in the order it arrived.
pub proof fn drained_downloader_delivered_all(d: &PackageDownloader)
    requires
        d.wf(),
        d.buffered().len() == 0,
    ensures
        d.delivered() == d.received(),
{
    assert(d.delivered() + d.buffered() =~= d.delivered());
}

/// What the download loop learns: the next chunk of the response (`None` at
/// its end), or whether the last chunk could be handed to the reader
/// (`false` when the reader has gone away).
pub enum DownloadEvent<E> {
    Chunk(Result<Option<Bytes>, E>),
    Sent(bool),
}

/// What the download loop does next.
pub enum DownloadAction<E> {
    /// Hand this chunk to the reader, then report whether that worked.
    Send(Bytes),
    /// Fetch the next chunk of the response.
    FetchNext,
    /// The response is complete: wait until the reader closes the channel,
    /// then end successfully.
    AwaitClosed,
    /// End successfully now: the reader is gone.
    Finish,
    /// End with this error.
    Fail(E),
}

/// The decision the download loop makes on `event`: a chunk is handed on,
/// the end of the response waits for the reader to close, an error ends the
/// download with it, a delivered chunk leads to the next fetch, and a failed
/// delivery (the reader is gone) ends the download successfully.
pub open spec fn download_decision<E>(event: DownloadEvent<E>) -> DownloadAction<E> {
    match event {
        DownloadEvent::Chunk(Ok(Some(b))) => DownloadAction::Send(b),
        DownloadEvent::Chunk(Ok(None)) => DownloadAction::AwaitClosed,
        DownloadEvent::Chunk(Err(e)) => DownloadAction::Fail(e),
        DownloadEvent::Sent(true) => DownloadAction::FetchNext,
        DownloadEvent::Sent(false) => DownloadAction::Finish,
    }
}

/// One decision of the download loop.
pub fn download_step<E>(event: DownloadEvent<E>) -> (action: DownloadAction<E>)
    ensures
        action == download_decision(event),
{
    match event {
        DownloadEvent::Chunk(Ok(Some(b))) => DownloadAction::Send(b),
        DownloadEvent::Chunk(Ok(None)) => DownloadAction::AwaitClosed,
        DownloadEvent::Chunk(Err(e)) => DownloadAction::Fail(e),
        DownloadEvent::Sent(true) => DownloadAction::FetchNext,
        DownloadEvent::Sent(false) => DownloadAction::Finish,
    }
}

/// Whether `event` is what `action` asks the loop to learn next; the actions
/// that end the loop ask for nothing.
pub open spec fn asks_for<E>(action: DownloadAction<E>, event: DownloadEvent<E>) -> bool {
    match action {
        DownloadAction::Send(_) => event is Sent,
        DownloadAction::FetchNext => event is Chunk,
        _ => false,
    }
}

/// The events of one run of the download loop: it starts with the first
/// chunk of the response, and each event after that is what the decision on
/// the one before asked for.
pub open spec fn is_download_run<E>(events: Seq<DownloadEvent<E>>) -> bool {
    &&& events.len() > 0
    &&& events[0] is Chunk
    &&& forall|i: int|
        0 <= i < events.len() - 1 ==> asks_for(download_decision(#[trigger] events[i]), events[i + 1])
}

/// The chunks of the response body among `events`, in order.
pub open spec fn body_chunks<E>(events: Seq<DownloadEvent<E>>) -> Seq<Bytes>
    decreases events.len(),
{
    if events.len() == 0 {
        Seq::empty()
    } else {
        body_chunks(events.drop_last()) + match events.last() {
            DownloadEvent::Chunk(Ok(Some(b))) => seq![b],
            _ => Seq::empty(),
        }
    }
}

/// The chunks the loop hands to the reader on `events`, in order.
pub open spec fn sent_chunks<E>(events: Seq<DownloadEvent<E>>) -> Seq<Bytes>
    decreases events.len(),
{
    if events.len() == 0 {
        Seq::empty()
    } else {
        sent_chunks(events.drop_last()) + match download_decision(events.last()) {
            DownloadAction::Send(b) => seq![b],
            _ => Seq::empty(),
        }
    }
}

proof fn lemma_sent_is_body<E>(events: Seq<DownloadEvent<E>>)
    ensures
        sent_chunks(events) == body_chunks(events),
    decreases events.len(),
{
    if events.len() > 0 {
        lemma_sent_is_body(events.drop_last());
    }
}

/// In a run of the download loop, no decision but the last ends it; the run
/// ends successfully only on the end of the response (and then waits for the
/// reader to close) or on a chunk the reader could not take (the reader is
/// gone), and with an error only on an error of the response; and every
/// chunk of the body is handed to the reader, once and in order.
pub proof fn download_run_law<E>(events: Seq<DownloadEvent<E>>)
    requires
        is_download_run(events),
    ensures
        forall|i: int|
            0 <= i < events.len() - 1 ==> {
                let a = download_decision(#[trigger] events[i]);
                a is Send || a is FetchNext
            },
        download_decision(events.last()) is AwaitClosed ==> events.last() matches DownloadEvent::Chunk(Ok(None)),
        download_decision(events.last()) is Finish ==> events.last() matches DownloadEvent::Sent(false),
        download_decision(events.last()) is Fail ==> events.last() matches DownloadEvent::Chunk(Err(_)),
        sent_chunks(events) == body_chunks(events),
{
    assert forall|i: int| 0 <= i < events.len() - 1 implies {
        let a = download_decision(#[trigger] events[i]);
        a is Send || a is FetchNext
    } by {
        assert(asks_for(download_decision(events[i]), events[i + 1]));
    }
    lemma_sent_is_body(events);
}

/// What a fill of the downloader yields when `buffered` bytes are buffered
/// and the channel then yields `msgs` (`None` once it has ended): the
/// buffered bytes when there are any, and otherwise the fill takes the next
/// message, buffering a chunk and going on, or yielding no bytes at the end
/// of the channel.  `None` here means the fill is still waiting for messages.
/// `fill_buf`, `receive` and `remaining` are the steps of this.
pub open spec fn fill_outcome(buffered: Seq<u8>, msgs: Seq<Option<Seq<u8>>>) -> Option<Seq<u8>>
    decreases msgs.len(),
{
    if buffered.len() > 0 {
        Some(buffered)
    } else if msgs.len() == 0 {
        None
    } else {
        match msgs[0] {
            None => Some(Seq::empty()),
            Some(c) => fill_outcome(c, msgs.drop_first()),
        }
    }
}

/// A fill never fails, and it yields no bytes (the end of the input) only
/// with nothing buffered, once the channel has ended after messages that
/// held no bytes; otherwise it yields the buffered bytes or the first
/// non-empty chunk.
pub proof fn fill_ends_only_when_channel_ends(buffered: Seq<u8>, msgs: Seq<Option<Seq<u8>>>)
    ensures
        fill_outcome(buffered, msgs) == Some(Seq::<u8>::empty()) ==> {
            &&& buffered.len() == 0
            &&& exists|k: int|
                0 <= k < msgs.len() && msgs[k] is None && forall|j: int|
                    0 <= j < k ==> #[trigger] msgs[j] == Some(Seq::<u8>::empty())
        },
        fill_outcome(buffered, msgs) matches Some(x) ==> (x.len() > 0 ==> (x == buffered
            || exists|k: int| 0 <= k < msgs.len() && #[trigger] msgs[k] == Some(x))),
    decreases msgs.len(),
{
    if buffered.len() == 0 && msgs.len() > 0 {
        match msgs[0] {
            None => {
                assert(msgs[0] is None);
            },
            Some(c) => {
                let rest = msgs.drop_first();
                fill_ends_only_when_channel_ends(c, rest);
                if fill_outcome(buffered, msgs) == Some(Seq::<u8>::empty()) {
                    let k = choose|k: int|
                        0 <= k < rest.len() && rest[k] is None && forall|j: int|
                            0 <= j < k ==> #[trigger] rest[j] == Some(Seq::<u8>::empty());
                    assert(msgs[k + 1] is None);
                    assert forall|j: int| 0 <= j < k + 1 implies #[trigger] msgs[j] == Some(
                        Seq::<u8>::empty(),
                    ) by {
                        if j > 0 {
                            assert(msgs[j] == rest[j - 1]);
                        }
                    }
                }
                match fill_outcome(buffered, msgs) {
                    Some(x) => {
                        if x.len() > 0 {
                            if x == c {
                                assert(msgs[0] == Some(x));
                            } else {
                                let k = choose|k: int|
                                    0 <= k < rest.len() && #[trigger] rest[k] == Some(x);
                                assert(msgs[k + 1] == Some(x));
                            }
                        }
                    },
                    None => {},
                }
            },
        }
    }
}

} // verus!
