//! The abstract seekable byte source, an in-memory realization of it, the
//! bounded pull-streamer used for full-body and single-range responses, and
//! the response assembler that decides between them.

use crate::multipart::MultipartReader;
use crate::ranges::{
    dedup_ranges, distinct_ranges, sort_ranges, sorted_ranges, spec_any_invalid, spec_valid_units,
    validate_units, ByteRange,
};
use vstd::prelude::*;
use vstd::string::StringSliceAdditionalSpecFns;

verus! {

/// A seek or read against the underlying byte source failed. Surfaced to the
/// caller as a fatal outcome for the response; never retried.
#[derive(Clone, Copy, PartialEq, Eq, Structural, Debug)]
pub struct StreamError;

/// A readable, seekable byte source with a fixed content.
///
/// `data()` is the full content of the source and never changes; `pos()` is
/// the current read offset, which may point past the end. Reads return a
/// prefix of the bytes at the current position and only return an empty
/// chunk when nothing was asked for or the position is at or past the end.
///
/// The two model functions carry arbitrary defaults so that host code can
/// implement the trait for real sources (a file, say) by supplying only the
/// four operations; what is proved here holds of such a source exactly as
/// far as it honours the operations' contracts.
pub trait ReadSeek: Sized {
    open spec fn data(&self) -> Seq<u8> {
        arbitrary()
    }

    open spec fn pos(&self) -> nat {
        arbitrary()
    }

    fn stream_position(&mut self) -> (r: Result<u64, StreamError>)
        ensures
            final(self).data() == old(self).data(),
            final(self).pos() == old(self).pos(),
            r matches Ok(p) ==> p as nat == old(self).pos(),
    ;

    fn seek_to(&mut self, pos: u64) -> (r: Result<(), StreamError>)
        ensures
            final(self).data() == old(self).data(),
            r is Ok ==> final(self).pos() == pos as nat,
    ;

    fn seek_end(&mut self) -> (r: Result<u64, StreamError>)
        ensures
            final(self).data() == old(self).data(),
            r matches Ok(n) ==> n as int == old(self).data().len() && final(self).pos() == old(
                self,
            ).data().len(),
    ;

    fn read_some(&mut self, n: usize) -> (r: Result<Vec<u8>, StreamError>)
        ensures
            final(self).data() == old(self).data(),
            r matches Ok(v) ==> {
                &&& v@.len() <= n
                &&& final(self).pos() == old(self).pos() + v@.len()
                &&& (v@.len() > 0 ==> old(self).pos() + v@.len() <= old(self).data().len()
                    && v@ == old(self).data().subrange(
                    old(self).pos() as int,
                    old(self).pos() + v@.len() as int,
                ))
                &&& (v@.len() == 0 ==> n == 0 || old(self).pos() >= old(self).data().len())
            },
    ;
}

/// An in-memory byte source: the whole content is a vector and the cursor
/// is an offset into it.
pub struct MemoryStream {
    pub bytes: Vec<u8>,
    pub cursor: u64,
}

impl MemoryStream {
    pub fn new(bytes: Vec<u8>) -> (s: MemoryStream)
        ensures
            s.data() == bytes@,
            s.pos() == 0,
    {
        MemoryStream { bytes, cursor: 0 }
    }
}

impl ReadSeek for MemoryStream {
    open spec fn data(&self) -> Seq<u8> {
        self.bytes@
    }

    open spec fn pos(&self) -> nat {
        self.cursor as nat
    }

    fn stream_position(&mut self) -> (r: Result<u64, StreamError>) {
        Ok(self.cursor)
    }

    fn seek_to(&mut self, pos: u64) -> (r: Result<(), StreamError>) {
        self.cursor = pos;
        Ok(())
    }

    fn seek_end(&mut self) -> (r: Result<u64, StreamError>) {
        let len = self.bytes.len() as u64;
        self.cursor = len;
        Ok(len)
    }

    fn read_some(&mut self, n: usize) -> (r: Result<Vec<u8>, StreamError>) {
        let mut v: Vec<u8> = Vec::new();
        let len = self.bytes.len();
        if self.cursor >= len as u64 {
            return Ok(v);
        }
        let start = self.cursor as usize;
        let avail = len - start;
        let count = if avail < n {
            avail
        } else {
            n
        };
        let mut k: usize = 0;
        while k < count
            invariant
                k <= count,
                start + count <= len,
                len == self.bytes@.len(),
                v@ == self.bytes@.subrange(start as int, start + k),
                self == old(self),
            decreases count - k,
        {
            v.push(self.bytes[start + k]);
            k = k + 1;
            assert(v@ =~= self.bytes@.subrange(start as int, start + k));
        }
        self.cursor = self.cursor + count as u64;
        Ok(v)
    }
}

/// A pull-based streamer that yields the bytes of its source from the
/// current position up to (exclusive) a fixed limit. Serves both the
/// full-body response (position 0, limit = length) and the single-range
/// response (position `start`, limit just past the range).
pub struct RangeStreamer<S: ReadSeek> {
    pub stream: S,
    pub limit: u64,
}

impl<S: ReadSeek> RangeStreamer<S> {
    pub open spec fn wf(self) -> bool {
        self.stream.pos() <= self.limit as nat <= self.stream.data().len()
    }

    pub open spec fn data(self) -> Seq<u8> {
        self.stream.data()
    }

    pub open spec fn pos(self) -> nat {
        self.stream.pos()
    }

    /// The bytes this streamer has yet to emit: from the current position
    /// up to its limit.
    pub open spec fn remaining_output(self) -> Seq<u8> {
        self.stream.data().subrange(self.pos() as int, self.limit as int)
    }

    /// Positions the source at `start`; the streamer will then emit exactly
    /// the bytes `start .. limit` of the source, in order, across pulls.
    pub fn new(stream: S, start: u64, limit: u64) -> (r: Result<RangeStreamer<S>, StreamError>)
        requires
            start <= limit <= stream.data().len(),
        ensures
            r matches Ok(s) ==> s.wf() && s.data() == stream.data() && s.pos() == start as nat
                && s.limit == limit,
    {
        let mut stream = stream;
        match stream.seek_to(start) {
            Ok(_) => Ok(RangeStreamer { stream, limit }),
            Err(e) => Err(e),
        }
    }

    /// One pull: up to `capacity` bytes. The chunk returned is exactly the
    /// next slice of the source after the bytes already emitted, and an
    /// empty chunk means either `capacity == 0` or permanent exhaustion.
    pub fn pull(&mut self, capacity: usize) -> (r: Result<Vec<u8>, StreamError>)
        requires
            old(self).wf(),
        ensures
            final(self).data() == old(self).data(),
            final(self).limit == old(self).limit,
            r matches Ok(v) ==> {
                &&& final(self).wf()
                &&& v@.len() <= capacity
                &&& final(self).pos() == old(self).pos() + v@.len()
                &&& v@ == old(self).data().subrange(
                    old(self).pos() as int,
                    old(self).pos() + v@.len() as int,
                )
                &&& (v@.len() == 0 <==> capacity == 0 || old(self).pos() == old(self).limit as nat)
            },
    {
        let pos = match self.stream.stream_position() {
            Ok(p) => p,
            Err(e) => return Err(e),
        };
        let remaining = self.limit - pos;
        let want: usize = if remaining < capacity as u64 {
            remaining as usize
        } else {
            capacity
        };
        match self.stream.read_some(want) {
            Ok(chunk) => {
                proof {
                    if chunk@.len() == 0 {
                        assert(chunk@ =~= old(self).data().subrange(
                            old(self).pos() as int,
                            old(self).pos() as int,
                        ));
                    }
                }
                Ok(chunk)
            },
            Err(e) => Err(e),
        }
    }
}

/// A single-range request for the whole stream (`0 ..= length - 1`) is
/// served by a streamer that produces byte-for-byte the same output as the
/// full-body streamer: the entire source. Only the status differs (206
/// against 200).
pub proof fn lemma_single_full_equiv<S: ReadSeek>(
    single: RangeStreamer<S>,
    full: RangeStreamer<S>,
    length: u64,
)
    requires
        single.data() == full.data(),
        single.data().len() == length as int,
        length > 0,
        single.pos() == 0,
        single.limit == vstd::math::min((length - 1) as int + 1, length as int),
        full.pos() == 0,
        full.limit == length,
    ensures
        single.remaining_output() == full.remaining_output(),
        full.remaining_output() == full.data(),
{
    assert(single.remaining_output() =~= full.remaining_output());
    assert(full.remaining_output() =~= full.data());
}

/// Relies on tree_magic::from_u8: a best-guess MIME type for the given
/// content prefix, matched against the platform's media-type database, so
/// nothing is assumed of the returned bytes.
#[verifier::external_body]
fn infer_mime_type(prelude: &[u8]) -> (r: Vec<u8>)
{
    tree_magic::from_u8(prelude).into_bytes()
}

/// Why a response could not be produced: the requested ranges cannot be
/// satisfied (416), or the underlying source failed (500).
#[derive(Clone, Copy, PartialEq, Eq, Structural, Debug)]
pub enum RespondError {
    RangeNotSatisfiable,
    Io,
}

/// The decided response: which streamer serves the body, with the headers'
/// ingredients. `Full` answers with status 200, the other two with 206.
pub enum SeekResponse<S: ReadSeek> {
    /// The entire source, with its length as `Content-Length`.
    Full { body: RangeStreamer<S>, length: u64, content_type: Vec<u8> },
    /// One range: `Content-Range: bytes {start}-{end}/{length}` and
    /// `Content-Length: {end + 1 - start}`.
    Single { body: RangeStreamer<S>, start: u64, end: u64, length: u64, content_type: Vec<u8> },
    /// Several ranges as `multipart/byterange` with the reader's boundary;
    /// no `Content-Length` is known in advance.
    Multi { body: MultipartReader<S>, length: u64 },
}

/// A bare decimal header value: the `Content-Length` of a full-body
/// response is `decimal_value(length)`.
pub fn decimal_value(n: u64) -> (v: Vec<u8>)
    ensures
        v@ == crate::bytes::dec_bytes(n as nat),
{
    let mut v: Vec<u8> = Vec::new();
    crate::bytes::push_dec(&mut v, n);
    v
}

/// The `Content-Length` value of a single-range response: the decimal
/// rendering of `end + 1 - start` (which, under the clamp that admits
/// `end == length`, may name one byte more than the source can serve).
pub fn content_length_value(start: u64, end: u64) -> (v: Vec<u8>)
    requires
        start <= end,
        end < u64::MAX,
    ensures
        v@ == crate::bytes::dec_bytes((end + 1 - start) as nat),
{
    decimal_value(end + 1 - start)
}

/// The requested units of a raw `Range` header value.
pub open spec fn spec_header_units(h: &str) -> Seq<(Option<u64>, Option<u64>)> {
    crate::header::spec_parse_range_header(h.spec_bytes())
}

/// A present `Range` header that the whole request must fail for: some unit
/// is unsatisfiable, or no unit survives parsing and validation.
pub open spec fn spec_bad_request(h: &str, length: u64) -> bool {
    spec_any_invalid(spec_header_units(h), length) || spec_valid_units(
        spec_header_units(h),
        length,
    ).len() == 0
}

/// Serves a readable and seekable source: the stream, an optional known
/// length (probed by seeking when absent) and an optional content type
/// (sniffed from the first bytes when absent).
pub struct SeekStream<'a, S: ReadSeek> {
    pub stream: S,
    pub length: Option<u64>,
    pub content_type: Option<&'a str>,
}

impl<'a, S: ReadSeek> SeekStream<'a, S> {
    pub fn new(s: S) -> (r: SeekStream<'a, S>)
        ensures
            r.stream == s,
            r.length is None,
            r.content_type is None,
    {
        Self::with_opts(s, None, None)
    }

    pub fn with_opts(stream: S, stream_len: Option<u64>, content_type: Option<&'a str>) -> (r:
        SeekStream<'a, S>)
        ensures
            r.stream == stream,
            r.length == stream_len,
            r.content_type == content_type,
    {
        SeekStream { stream, length: stream_len, content_type }
    }

    /// Decides the response for a request with the given raw `Range` header
    /// value, if one was present.
    ///
    /// Without a `Range` header the whole source is served. With one, every
    /// parsed unit is validated against the length; if any unit is invalid
    /// or none survives, the request fails as unsatisfiable, with no
    /// further access to the stream. One surviving range (after sorting and
    /// dropping exact duplicates) is served alone; several are served as a
    /// multipart body. The content type is resolved first in every case:
    /// taken as given, or sniffed from at most 256 bytes read at the
    /// current position, after which the stream is re-seeked to the start.
    ///
    /// With both the length and the content type declared, negotiation
    /// reaches no fallible probe or sniff: an unsatisfiable request then
    /// yields exactly the unsatisfiable error, and a request for two or
    /// more distinct ranges — whose streamer needs no repositioning up
    /// front — always succeeds.
    #[verifier::rlimit(100)]
    #[verifier::spinoff_prover]
    pub fn respond_to(self, range: Option<&str>) -> (r: Result<SeekResponse<S>, RespondError>)
        requires
            self.length matches Some(l) ==> l as int == self.stream.data().len(),
            self.stream.data().len() < u64::MAX as int,
        ensures
            ({
                let data = self.stream.data();
                let glen = data.len() as u64;
                &&& (r matches Err(e) && e == RespondError::RangeNotSatisfiable ==> (
                    range matches Some(h) && spec_bad_request(h, glen)))
                &&& ((range is None || (range matches Some(h) && !spec_bad_request(h, glen)))
                    ==> !(r matches Err(e) && e == RespondError::RangeNotSatisfiable))
                &&& ((range matches Some(h) && self.length is Some && self.content_type is Some
                    && spec_bad_request(h, glen)) ==> (r matches Err(e) && e
                    == RespondError::RangeNotSatisfiable))
                &&& ((range matches Some(h) && self.length is Some && self.content_type is Some
                    && !spec_bad_request(h, glen) && (exists|a: int, b: int|
                    0 <= a < b < spec_valid_units(spec_header_units(h), glen).len()
                        && spec_valid_units(spec_header_units(h), glen)[a] != spec_valid_units(
                        spec_header_units(h),
                        glen,
                    )[b])) ==> r is Ok)
                &&& (r matches Ok(resp) ==> match resp {
                    SeekResponse::Full { body, length, content_type } => {
                        &&& range is None
                        &&& length == glen
                        &&& body.wf()
                        &&& body.data() == data
                        &&& body.pos() == 0
                        &&& body.limit == glen
                        &&& (self.content_type matches Some(c) ==> content_type@
                            == c.spec_bytes())
                    },
                    SeekResponse::Single { body, start, end, length, content_type } => {
                        let vu = spec_valid_units(spec_header_units(range.unwrap()), glen);
                        &&& range is Some
                        &&& !spec_bad_request(range.unwrap(), glen)
                        &&& length == glen
                        &&& vu.len() > 0
                        &&& forall|k: int|
                            0 <= k < vu.len() ==> vu[k] == (ByteRange { start, end })
                        &&& start <= end <= glen
                        &&& body.wf()
                        &&& body.data() == data
                        &&& body.pos() == start as nat
                        &&& body.limit == vstd::math::min(end as int + 1, glen as int)
                        &&& (self.content_type matches Some(c) ==> content_type@
                            == c.spec_bytes())
                    },
                    SeekResponse::Multi { body, length } => {
                        let vu = spec_valid_units(spec_header_units(range.unwrap()), glen);
                        &&& range is Some
                        &&& !spec_bad_request(range.unwrap(), glen)
                        &&& length == glen
                        &&& body.wf()
                        &&& body.emitted() == 0
                        &&& body.stream.data() == data
                        &&& body.stream_len == glen
                        &&& body.ranges@.len() > 1
                        &&& sorted_ranges(body.ranges@)
                        &&& distinct_ranges(body.ranges@)
                        &&& (forall|x: ByteRange| body.ranges@.contains(x) <==> vu.contains(x))
                        &&& (self.content_type matches Some(c) ==> body.content_type@
                            == c.spec_bytes())
                    },
                })
            }),
    {
        let SeekStream { stream, length, content_type } = self;
        let mut stream = stream;

        // Resolve the total length: as declared, or by probing the end and
        // seeking back.
        let stream_len: u64 = match length {
            Some(x) => x,
            None => {
                let old_pos = match stream.stream_position() {
                    Ok(p) => p,
                    Err(_) => return Err(RespondError::Io),
                };
                let len = match stream.seek_end() {
                    Ok(l) => l,
                    Err(_) => return Err(RespondError::Io),
                };
                match stream.seek_to(old_pos) {
                    Ok(_) => (),
                    Err(_) => return Err(RespondError::Io),
                }
                len
            },
        };

        // Resolve the content type: as declared, or sniffed from at most
        // 256 bytes, after which the stream is re-seeked to the start.
        let mime: Vec<u8> = match content_type {
            Some(x) => vstd::slice::slice_to_vec(x.as_bytes()),
            None => {
                let prelude = match stream.read_some(256) {
                    Ok(v) => v,
                    Err(_) => return Err(RespondError::Io),
                };
                match stream.seek_to(0) {
                    Ok(_) => (),
                    Err(_) => return Err(RespondError::Io),
                }
                infer_mime_type(prelude.as_slice())
            },
        };

        match range {
            None => {
                let body = match RangeStreamer::new(stream, 0, stream_len) {
                    Ok(b) => b,
                    Err(_) => return Err(RespondError::Io),
                };
                Ok(SeekResponse::Full { body, length: stream_len, content_type: mime })
            },
            Some(h) => {
                let units = crate::header::parse_range_header(h.as_bytes());
                let (oks, had_err) = validate_units(&units, stream_len);
                if had_err || oks.len() == 0 {
                    return Err(RespondError::RangeNotSatisfiable);
                }
                let mut oks = oks;
                let ghost vu = oks@;
                sort_ranges(&mut oks);
                let ranges = dedup_ranges(&oks);
                proof {
                    assert forall|k: int| 0 <= k < ranges@.len() implies (
                    #[trigger] ranges@[k]).valid(stream_len) by {
                        assert(ranges@.contains(ranges@[k]));
                        let j = choose|j: int| 0 <= j < vu.len() && vu[j] == ranges@[k];
                    }
                }
                if ranges.len() > 1 {
                    let body = MultipartReader::new(stream, stream_len, mime, ranges);
                    Ok(SeekResponse::Multi { body, length: stream_len })
                } else {
                    let rg = ranges[0];
                    proof {
                        assert(ranges@.contains(rg)) by {
                            assert(ranges@[0] == rg);
                        }
                        assert forall|k: int| 0 <= k < vu.len() implies vu[k] == rg by {
                            assert(vu.contains(vu[k]));
                            assert(ranges@.contains(vu[k]));
                        }
                    }
                    let limit = if rg.end + 1 < stream_len {
                        rg.end + 1
                    } else {
                        stream_len
                    };
                    let body = match RangeStreamer::new(stream, rg.start, limit) {
                        Ok(b) => b,
                        Err(_) => return Err(RespondError::Io),
                    };
                    Ok(
                        SeekResponse::Single {
                            body,
                            start: rg.start,
                            end: rg.end,
                            length: stream_len,
                            content_type: mime,
                        },
                    )
                }
            },
        }
    }
}

} // verus!
