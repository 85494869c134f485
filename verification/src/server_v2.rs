//! The file-serving route: its response with a download file name, and the
//! stream of chunks read from the served file.
use crate::byte_buf::{bytes_contents, bytes_copy_from_slice};
use bytes::Bytes;
use http::header::{HeaderValue, InvalidHeaderValue};
use vstd::prelude::*;
use vstd::utf8::encode_utf8;

verus! {

/// `http::header::HeaderValue`; its bytes are `header_value_bytes`.
#[verifier::external_type_specification]
#[verifier::external_body]
pub struct ExHeaderValue(http::header::HeaderValue);

/// `http::header::InvalidHeaderValue`, the error of `HeaderValue::from_str`.
#[verifier::external_type_specification]
#[verifier::external_body]
pub struct ExInvalidHeaderValue(http::header::InvalidHeaderValue);

/// The bytes a `http::HeaderValue` holds.
pub uninterp spec fn header_value_bytes(v: HeaderValue) -> Seq<u8>;

/// The bytes that `http` allows in a header value: 32 to 255 except 127,
/// and the tab.
pub open spec fn is_header_value_byte(b: u8) -> bool {
    (b >= 32 && b != 127) || b == 9
}

/// `HeaderValue::from_str`: checks every byte of `src` with
/// `is_valid` (`b >= 32 && b != 127 || b == b'\t'`), fails when one is not,
/// and otherwise holds a copy of the bytes.
#[verifier::external_body]
fn header_value_from_str(src: &str) -> (r: Result<HeaderValue, InvalidHeaderValue>)
    ensures
        r is Ok <==> is_header_value_text(src@),
        r matches Ok(v) ==> header_value_bytes(v) == encode_utf8(src@),
{
    HeaderValue::from_str(src)
}

/// The mirror's HTTP server; it holds no state of its own.
pub struct Server {}

impl Server {
    pub fn new() -> (s: Server)
        ensures
            s == (Server {}),
    {
        Server {}
    }
}

/// Whether every byte of the UTF-8 encoding of `text` may stand in a header
/// value.
pub open spec fn is_header_value_text(text: Seq<char>) -> bool {
    forall|i: int|
        0 <= i < encode_utf8(text).len() ==> is_header_value_byte(#[trigger] encode_utf8(text)[i])
}

/// The text of the `Content-Disposition` header for a download named `file_name`.
pub open spec fn content_disposition_text(file_name: Seq<char>) -> Seq<char> {
    "attachment; filename="@ + file_name
}

/// The header text ends with the whole file name, after the fixed
/// `attachment; filename=`; so two file names never share a header text.
pub proof fn content_disposition_names_the_file(file_name: Seq<char>, other: Seq<char>)
    ensures
        ({
            let t = content_disposition_text(file_name);
            let p = "attachment; filename="@;
            &&& t.len() == p.len() + file_name.len()
            &&& t.subrange(0, p.len() as int) == p
            &&& t.subrange(p.len() as int, t.len() as int) == file_name
        }),
        file_name != other ==> content_disposition_text(file_name) != content_disposition_text(other),
{
    reveal_strlit("attachment; filename=");
    let p = "attachment; filename="@;
    let t = content_disposition_text(file_name);
    assert(t.subrange(0, p.len() as int) =~= p);
    assert(t.subrange(p.len() as int, t.len() as int) =~= file_name);
    let o = content_disposition_text(other);
    if t == o {
        assert(o.subrange(p.len() as int, o.len() as int) =~= other);
    }
}

/// A response that streams a file as an attachment named `file_name`.
pub struct FileResponse<S> {
    stream: S,
    file_name: String,
}

impl<S> FileResponse<S> {
    pub closed spec fn stream(&self) -> S {
        self.stream
    }

    pub closed spec fn file_name(&self) -> Seq<char> {
        self.file_name@
    }

    pub fn new(stream: S, file_name: &str) -> (r: FileResponse<S>)
        ensures
            r.stream() == stream,
            r.file_name() == file_name@,
    {
        FileResponse { stream, file_name: String::from_str(file_name) }
    }

    /// Builds the text of the `Content-Disposition` header.
    fn disposition_text(&self) -> (text: String)
        ensures
            text@ == content_disposition_text(self.file_name()),
    {
        let mut text = String::from_str("attachment; filename=");
        text.append(self.file_name.as_str());
        text
    }

    /// Whether the `Content-Disposition` header for this file name is a
    /// valid header value.
    pub fn has_valid_disposition(&self) -> (b: bool)
        ensures
            b == is_header_value_text(content_disposition_text(self.file_name())),
            b == is_header_value_text("attachment; filename="@ + self.file_name()),
    {
        let text = self.disposition_text();
        let bytes = text.as_str().as_bytes();
        let ghost enc = encode_utf8(content_disposition_text(self.file_name()));
        assert(bytes@ == enc);
        let n = bytes.len();
        let mut i: usize = 0;
        while i < n
            invariant
                n == bytes@.len(),
                bytes@ == enc,
                enc == encode_utf8(content_disposition_text(self.file_name())),
                i <= n,
                forall|j: int| 0 <= j < i ==> is_header_value_byte(#[trigger] enc[j]),
            decreases n - i,
        {
            let b = bytes[i];
            if !((b >= 32 && b != 127) || b == 9) {
                assert(!is_header_value_byte(enc[i as int]));
                return false;
            }
            i = i + 1;
        }
        true
    }

    /// The `Content-Disposition` header value; the file name must make a
    /// valid header value.
    pub fn content_disposition(&self) -> (v: HeaderValue)
        requires
            is_header_value_text(content_disposition_text(self.file_name())),
        ensures
            header_value_bytes(v) == encode_utf8(content_disposition_text(self.file_name())),
            header_value_bytes(v) == encode_utf8("attachment; filename="@ + self.file_name()),
    {
        let text = self.disposition_text();
        match header_value_from_str(text.as_str()) {
            Ok(v) => v,
            Err(_) => vstd::pervasive::unreached(),
        }
    }

    /// The stream and the file name.
    pub fn into_parts(self) -> (parts: (S, String))
        ensures
            parts.0 == self.stream(),
            parts.1@ == self.file_name(),
    {
        (self.stream, self.file_name)
    }
}

/// How many bytes one read of the served file asks for.
pub const READ_CHUNK_SIZE: usize = 1024;

/// A stream of the chunks read from `reader`.
pub struct StreamBufReader<T> {
    reader: T,
}

impl<T> StreamBufReader<T> {
    pub closed spec fn reader(&self) -> T {
        self.reader
    }

    pub fn new(reader: T) -> (r: StreamBufReader<T>)
        ensures
            r.reader() == reader,
    {
        StreamBufReader { reader }
    }

    pub fn into_inner(self) -> (reader: T)
        ensures
            reader == self.reader(),
    {
        self.reader
    }
}

/// The stream item for the outcome of one read: the error, the end of the
/// stream when nothing was read, or a chunk holding the bytes read.
pub fn stream_item<E>(read: Result<&[u8], E>) -> (item: Option<Result<Bytes, E>>)
    ensures
        match read {
            Err(e) => item == Some(Err::<Bytes, E>(e)),
            Ok(filled) => if filled@.len() == 0 {
                item is None
            } else {
                item matches Some(Ok(b)) && bytes_contents(b) == filled@
            },
        },
{
    match read {
        Err(e) => Some(Err(e)),
        Ok(filled) => {
            if filled.len() == 0 {
                None
            } else {
                Some(Ok(bytes_copy_from_slice(filled)))
            }
        },
    }
}

/// Chunks made by `stream_item` from a run of reads into a buffer of
/// `READ_CHUNK_SIZE` bytes, each read filling some of it, hold 1 to
/// `READ_CHUNK_SIZE` bytes each and, together and in order, exactly the bytes
/// read: nothing is lost, repeated or reordered.
pub proof fn stream_chunks_hold_the_reads(fills: Seq<Seq<u8>>, chunks: Seq<Bytes>)
    requires
        fills.len() == chunks.len(),
        forall|i: int| 0 <= i < fills.len() ==> 0 < (#[trigger] fills[i]).len() <= READ_CHUNK_SIZE,
        forall|i: int| 0 <= i < chunks.len() ==> bytes_contents(#[trigger] chunks[i]) == fills[i],
    ensures
        forall|i: int|
            0 <= i < chunks.len() ==> 1 <= bytes_contents(#[trigger] chunks[i]).len()
                <= READ_CHUNK_SIZE,
        chunks.map_values(|b: Bytes| bytes_contents(b)).flatten() == fills.flatten(),
{
    assert(chunks.map_values(|b: Bytes| bytes_contents(b)) =~= fills);
}

} // verus!
