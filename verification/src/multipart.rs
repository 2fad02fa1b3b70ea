//! The `multipart/byteranges` framer: a pull-based producer that interleaves
//! per-range boundary header blocks with the raw bytes of each range,
//! followed by one closing boundary, without materializing the response.

use crate::bytes::{dec_bytes, push_all, push_dec};
use crate::ranges::ByteRange;
use crate::seekstream::{ReadSeek, StreamError};
use vstd::prelude::*;

verus! {

// ---------------------------------------------------------------------------
// The wire format, as specification-level byte sequences.
// ---------------------------------------------------------------------------

pub open spec fn crlf() -> Seq<u8> {
    seq![13u8, 10u8]
}

/// `": "`, separating a header name from its value.
pub open spec fn header_sep() -> Seq<u8> {
    seq![58u8, 32u8]
}

/// `"--"`, the dashes before (and after) a boundary token.
pub open spec fn dashes() -> Seq<u8> {
    seq![45u8, 45u8]
}

/// `"Content-Type"`.
pub open spec fn content_type_name() -> Seq<u8> {
    seq![67u8, 111u8, 110u8, 116u8, 101u8, 110u8, 116u8, 45u8, 84u8, 121u8, 112u8, 101u8]
}

/// `"Content-Range"`.
pub open spec fn content_range_name() -> Seq<u8> {
    seq![67u8, 111u8, 110u8, 116u8, 101u8, 110u8, 116u8, 45u8, 82u8, 97u8, 110u8, 103u8, 101u8]
}

/// `"bytes "`.
pub open spec fn bytes_unit() -> Seq<u8> {
    seq![98u8, 121u8, 116u8, 101u8, 115u8, 32u8]
}

/// `"bytes {start}-{end}/{total}"`, the value of a `Content-Range` header.
pub open spec fn content_range_text(start: u64, end: u64, total: u64) -> Seq<u8> {
    bytes_unit() + dec_bytes(start as nat) + seq![45u8] + dec_bytes(end as nat) + seq![47u8]
        + dec_bytes(total as nat)
}

/// `"{name}: {value}\r\n"`.
pub open spec fn header_line(name: Seq<u8>, value: Seq<u8>) -> Seq<u8> {
    name + header_sep() + value + crlf()
}

/// `"\r\n--{boundary}\r\n"`, the line that opens a part.
pub open spec fn boundary_open(boundary: Seq<u8>) -> Seq<u8> {
    crlf() + dashes() + boundary + crlf()
}

/// `"\r\n--{boundary}--\r\n\r\n"`, the closing boundary of the body.
pub open spec fn boundary_closer(boundary: Seq<u8>) -> Seq<u8> {
    crlf() + dashes() + boundary + dashes() + crlf() + crlf()
}

/// The header block that precedes the raw bytes of one range.
pub open spec fn part_header(boundary: Seq<u8>, ct: Seq<u8>, r: ByteRange, total: u64) -> Seq<
    u8,
> {
    boundary_open(boundary) + header_line(content_type_name(), ct) + header_line(
        content_range_name(),
        content_range_text(r.start, r.end, total),
    ) + crlf()
}

/// The bytes of the source a range can actually deliver: from `start` up to
/// just past `end`, cut off at the end of the source (the validator's clamp
/// admits `end == length`, where the source runs out one byte early).
pub open spec fn part_payload(data: Seq<u8>, r: ByteRange) -> Seq<u8> {
    data.subrange(r.start as int, vstd::math::min(r.end as int + 1, data.len() as int))
}

/// One part: its header block followed by its payload.
pub open spec fn part(data: Seq<u8>, boundary: Seq<u8>, ct: Seq<u8>, total: u64, r: ByteRange) -> Seq<
    u8,
> {
    part_header(boundary, ct, r, total) + part_payload(data, r)
}

/// The first `i` parts, concatenated in range order.
pub open spec fn parts_prefix(
    data: Seq<u8>,
    boundary: Seq<u8>,
    ct: Seq<u8>,
    total: u64,
    ranges: Seq<ByteRange>,
    i: int,
) -> Seq<u8>
    decreases i,
{
    if i <= 0 {
        Seq::empty()
    } else {
        parts_prefix(data, boundary, ct, total, ranges, i - 1) + part(
            data,
            boundary,
            ct,
            total,
            ranges[i - 1],
        )
    }
}

/// The whole `multipart/byteranges` body: every part in order, then the
/// closing boundary.
pub open spec fn multipart_body(
    data: Seq<u8>,
    boundary: Seq<u8>,
    ct: Seq<u8>,
    total: u64,
    ranges: Seq<ByteRange>,
) -> Seq<u8> {
    parts_prefix(data, boundary, ct, total, ranges, ranges.len() as int) + boundary_closer(
        boundary,
    )
}

/// Prefix lengths grow monotonically, each step by exactly one part, and
/// the bytes of part `i` sit at offset `parts_prefix(.., i).len()` of every
/// longer prefix.
pub proof fn lemma_parts_prefix_index(
    data: Seq<u8>,
    boundary: Seq<u8>,
    ct: Seq<u8>,
    total: u64,
    ranges: Seq<ByteRange>,
    i: int,
    j: int,
)
    requires
        0 <= i < j <= ranges.len(),
    ensures
        parts_prefix(data, boundary, ct, total, ranges, i).len() + part(
            data,
            boundary,
            ct,
            total,
            ranges[i],
        ).len() <= parts_prefix(data, boundary, ct, total, ranges, j).len(),
        forall|k: int|
            0 <= k < part(data, boundary, ct, total, ranges[i]).len() ==> parts_prefix(
                data,
                boundary,
                ct,
                total,
                ranges,
                j,
            )[parts_prefix(data, boundary, ct, total, ranges, i).len() + k] == part(
                data,
                boundary,
                ct,
                total,
                ranges[i],
            )[k],
    decreases j,
{
    if j == i + 1 {
        assert(parts_prefix(data, boundary, ct, total, ranges, j) == parts_prefix(
            data,
            boundary,
            ct,
            total,
            ranges,
            i,
        ) + part(data, boundary, ct, total, ranges[i]));
    } else {
        lemma_parts_prefix_index(data, boundary, ct, total, ranges, i, j - 1);
        assert(parts_prefix(data, boundary, ct, total, ranges, j) == parts_prefix(
            data,
            boundary,
            ct,
            total,
            ranges,
            j - 1,
        ) + part(data, boundary, ct, total, ranges[j - 1]));
    }
}

/// The shape of the whole multipart body. Its total length is the sum, over
/// the ranges in order, of that range's boundary header block plus its
/// payload, plus the closing boundary; and part `i`'s bytes within the body
/// are exactly its header block followed by the source bytes of range `i`.
pub proof fn lemma_multipart_part_bytes(
    data: Seq<u8>,
    boundary: Seq<u8>,
    ct: Seq<u8>,
    total: u64,
    ranges: Seq<ByteRange>,
    i: int,
)
    requires
        0 <= i < ranges.len(),
    ensures
        ({
            let body = multipart_body(data, boundary, ct, total, ranges);
            let at = parts_prefix(data, boundary, ct, total, ranges, i).len() as int;
            let hd = part_header(boundary, ct, ranges[i], total);
            let pay = part_payload(data, ranges[i]);
            &&& parts_prefix(data, boundary, ct, total, ranges, i + 1).len() == at + hd.len()
                + pay.len()
            &&& at + hd.len() + pay.len() <= body.len()
            &&& body.len() == parts_prefix(data, boundary, ct, total, ranges, ranges.len() as int)
                .len() + boundary_closer(boundary).len()
            &&& body.subrange(at, at + hd.len()) == hd
            &&& body.subrange(at + hd.len(), at + hd.len() + pay.len()) == pay
        }),
{
    let body = multipart_body(data, boundary, ct, total, ranges);
    let at = parts_prefix(data, boundary, ct, total, ranges, i).len() as int;
    let hd = part_header(boundary, ct, ranges[i], total);
    let pay = part_payload(data, ranges[i]);
    lemma_parts_prefix_index(data, boundary, ct, total, ranges, i, ranges.len() as int);
    assert(parts_prefix(data, boundary, ct, total, ranges, i + 1) == parts_prefix(
        data,
        boundary,
        ct,
        total,
        ranges,
        i,
    ) + part(data, boundary, ct, total, ranges[i]));
    let pp_all = parts_prefix(data, boundary, ct, total, ranges, ranges.len() as int);
    assert forall|k: int| 0 <= k < hd.len() implies body[at + k] == hd[k] by {
        assert(pp_all[at + k] == part(data, boundary, ct, total, ranges[i])[k]);
    }
    assert forall|k: int| 0 <= k < pay.len() implies body[at + hd.len() + k] == pay[k] by {
        assert(pp_all[at + (hd.len() + k)] == part(data, boundary, ct, total, ranges[i])[hd.len()
            + k]);
    }
    assert(body.subrange(at, at + hd.len()) =~= hd);
    assert(body.subrange(at + hd.len(), at + hd.len() + pay.len()) =~= pay);
}

// ---------------------------------------------------------------------------
// Executable builders for the framing text.
// ---------------------------------------------------------------------------

/// `"multipart/byterange; boundary="`.
pub open spec fn multipart_content_type_prefix() -> Seq<u8> {
    seq![
        109u8, 117u8, 108u8, 116u8, 105u8, 112u8, 97u8, 114u8, 116u8, 47u8, 98u8, 121u8, 116u8,
        101u8, 114u8, 97u8, 110u8, 103u8, 101u8, 59u8, 32u8, 98u8, 111u8, 117u8, 110u8, 100u8,
        97u8, 114u8, 121u8, 61u8,
    ]
}

/// The `Content-Type` value of a multipart response:
/// `"multipart/byterange; boundary={boundary}"`.
pub fn multipart_content_type(boundary: &[u8]) -> (v: Vec<u8>)
    ensures
        v@ == multipart_content_type_prefix() + boundary@,
{
    let mut v: Vec<u8> = Vec::new();
    v.push(109);
    v.push(117);
    v.push(108);
    v.push(116);
    v.push(105);
    v.push(112);
    v.push(97);
    v.push(114);
    v.push(116);
    v.push(47);
    v.push(98);
    v.push(121);
    v.push(116);
    v.push(101);
    v.push(114);
    v.push(97);
    v.push(110);
    v.push(103);
    v.push(101);
    v.push(59);
    v.push(32);
    v.push(98);
    v.push(111);
    v.push(117);
    v.push(110);
    v.push(100);
    v.push(97);
    v.push(114);
    v.push(121);
    v.push(61);
    assert(v@ =~= multipart_content_type_prefix());
    push_all(&mut v, boundary);
    v
}

fn push_crlf(out: &mut Vec<u8>)
    ensures
        final(out)@ == old(out)@ + crlf(),
{
    out.push(13);
    out.push(10);
    assert(final(out)@ =~= old(out)@ + crlf());
}

fn push_dashes(out: &mut Vec<u8>)
    ensures
        final(out)@ == old(out)@ + dashes(),
{
    out.push(45);
    out.push(45);
    assert(final(out)@ =~= old(out)@ + dashes());
}

fn push_content_type_name(out: &mut Vec<u8>)
    ensures
        final(out)@ == old(out)@ + content_type_name(),
{
    out.push(67);
    out.push(111);
    out.push(110);
    out.push(116);
    out.push(101);
    out.push(110);
    out.push(116);
    out.push(45);
    out.push(84);
    out.push(121);
    out.push(112);
    out.push(101);
    assert(final(out)@ =~= old(out)@ + content_type_name());
}

fn push_content_range_name(out: &mut Vec<u8>)
    ensures
        final(out)@ == old(out)@ + content_range_name(),
{
    out.push(67);
    out.push(111);
    out.push(110);
    out.push(116);
    out.push(101);
    out.push(110);
    out.push(116);
    out.push(45);
    out.push(82);
    out.push(97);
    out.push(110);
    out.push(103);
    out.push(101);
    assert(final(out)@ =~= old(out)@ + content_range_name());
}

/// Builds `"bytes {start}-{end}/{total}"`, the `Content-Range` header value
/// shared by the single-range response and each multipart part.
pub fn content_range_value(start: u64, end: u64, total: u64) -> (v: Vec<u8>)
    ensures
        v@ == content_range_text(start, end, total),
{
    let mut v: Vec<u8> = Vec::new();
    v.push(98);
    v.push(121);
    v.push(116);
    v.push(101);
    v.push(115);
    v.push(32);
    assert(v@ =~= bytes_unit());
    push_dec(&mut v, start);
    v.push(45);
    assert(v@ =~= bytes_unit() + dec_bytes(start as nat) + seq![45u8]);
    push_dec(&mut v, end);
    v.push(47);
    push_dec(&mut v, total);
    assert(v@ =~= content_range_text(start, end, total));
    v
}

/// Appends `"\r\n--{boundary}\r\n"` to the buffer.
fn write_boundary(buffer: &mut Vec<u8>, boundary: &[u8])
    ensures
        final(buffer)@ == old(buffer)@ + boundary_open(boundary@),
{
    push_crlf(buffer);
    push_dashes(buffer);
    push_all(buffer, boundary);
    push_crlf(buffer);
    assert(final(buffer)@ =~= old(buffer)@ + boundary_open(boundary@));
}

/// Appends `"{name}: {value}\r\n"` to the buffer.
fn write_boundary_header(buffer: &mut Vec<u8>, name: &[u8], value: &[u8])
    ensures
        final(buffer)@ == old(buffer)@ + header_line(name@, value@),
{
    push_all(buffer, name);
    buffer.push(58);
    buffer.push(32);
    push_all(buffer, value);
    push_crlf(buffer);
    assert(final(buffer)@ =~= old(buffer)@ + header_line(name@, value@));
}

/// Appends the blank `"\r\n"` line that ends a header block.
fn write_boundary_end(buffer: &mut Vec<u8>)
    ensures
        final(buffer)@ == old(buffer)@ + crlf(),
{
    push_crlf(buffer);
}

/// Appends `"\r\n--{boundary}--\r\n\r\n"`, the closing boundary.
fn write_boundary_closer(buffer: &mut Vec<u8>, boundary: &[u8])
    ensures
        final(buffer)@ == old(buffer)@ + boundary_closer(boundary@),
{
    push_crlf(buffer);
    push_dashes(buffer);
    push_all(buffer, boundary);
    push_dashes(buffer);
    push_crlf(buffer);
    push_crlf(buffer);
    assert(final(buffer)@ =~= old(buffer)@ + boundary_closer(boundary@));
}

// ---------------------------------------------------------------------------
// Boundary generation.
// ---------------------------------------------------------------------------

/// Relies on rand::RngCore::fill_bytes through rand::thread_rng: fills the
/// array with 30 bytes of randomness. Nothing is assumed of their values.
#[verifier::external_body]
fn random_bytes_30() -> (r: Vec<u8>)
    ensures
        r@.len() == 30,
{
    let mut x = [0u8; 30];
    rand::RngCore::fill_bytes(&mut rand::thread_rng(), &mut x);
    x.to_vec()
}

/// A lowercase hexadecimal digit: `'0'..='9'` or `'a'..='f'`.
pub open spec fn is_lower_hex(c: u8) -> bool {
    (48 <= c <= 57) || (97 <= c <= 102)
}

/// A fresh boundary token: 30 random bytes rendered as pairs of lowercase
/// hex digits, so exactly 60 characters — within the 70-character bound
/// that MIME multipart places on boundaries.
pub fn random_boundary() -> (b: Vec<u8>)
    ensures
        b@.len() == 60,
        forall|i: int| 0 <= i < b@.len() ==> is_lower_hex(#[trigger] b@[i]),
{
    let bytes = random_bytes_30();
    let mut b: Vec<u8> = Vec::new();
    let mut i: usize = 0;
    while i < bytes.len()
        invariant
            bytes@.len() == 30,
            i <= 30,
            b@.len() == 2 * i,
            forall|k: int| 0 <= k < b@.len() ==> is_lower_hex(#[trigger] b@[k]),
        decreases bytes@.len() - i,
    {
        let x = bytes[i];
        let hi = x >> 4u8;
        let lo = x & 15u8;
        assert(hi < 16 && lo < 16) by (bit_vector)
            requires
                hi == x >> 4u8 && lo == x & 15u8,
        ;
        b.push(hex_digit(hi));
        b.push(hex_digit(lo));
        i = i + 1;
    }
    b
}

/// The lowercase hex digit for a nibble.
fn hex_digit(n: u8) -> (d: u8)
    requires
        n < 16,
    ensures
        d == if n < 10 {
            (48 + n) as u8
        } else {
            (87 + n) as u8
        },
{
    if n < 10 {
        48 + n
    } else {
        87 + n
    }
}

// ---------------------------------------------------------------------------
// The pull-based multipart reader.
// ---------------------------------------------------------------------------

/// An adapter over a seekable source that streams the requested byte ranges
/// framed as a `multipart/byteranges` body: for each range, one boundary
/// header block and then the raw bytes, and after the last range one closing
/// boundary. Pull-based: each `pull` yields at most the asked-for number of
/// bytes, and an empty chunk only ever means permanent exhaustion.
pub struct MultipartReader<S: ReadSeek> {
    pub stream: S,
    pub stream_len: u64,
    pub ranges: Vec<ByteRange>,
    /// Index of the range currently being served; one past the count while
    /// the closing boundary is pending or being drained, two past once done.
    pub idx: usize,
    pub boundary: Vec<u8>,
    pub content_type: Vec<u8>,
    /// Buffered framing text (header block or closing boundary) not yet
    /// handed out, from offset `buf_pos` on.
    pub buffer: Vec<u8>,
    pub buf_pos: usize,
    pub wrote_boundary_header: bool,
}

impl<S: ReadSeek> MultipartReader<S> {
    /// The whole body this reader produces over its lifetime.
    pub open spec fn body(self) -> Seq<u8> {
        multipart_body(
            self.stream.data(),
            self.boundary@,
            self.content_type@,
            self.stream_len,
            self.ranges@,
        )
    }

    pub open spec fn spec_part(self, i: int) -> Seq<u8> {
        part(self.stream.data(), self.boundary@, self.content_type@, self.stream_len, self.ranges@[i])
    }

    pub open spec fn spec_header(self, i: int) -> Seq<u8> {
        part_header(self.boundary@, self.content_type@, self.ranges@[i], self.stream_len)
    }

    /// Length of the first `i` parts together.
    pub open spec fn ppl(self, i: int) -> int {
        parts_prefix(
            self.stream.data(),
            self.boundary@,
            self.content_type@,
            self.stream_len,
            self.ranges@,
            i,
        ).len() as int
    }

    /// The configuration of the reader: everything a pull must not change.
    pub open spec fn config(self) -> (Seq<u8>, u64, Seq<ByteRange>, Seq<u8>, Seq<u8>) {
        (self.stream.data(), self.stream_len, self.ranges@, self.boundary@, self.content_type@)
    }

    /// Where a range's payload really stops: just past `end`, or at the end
    /// of the source if the clamp admitted `end == length`.
    pub open spec fn end_limit(self, i: int) -> int {
        vstd::math::min(self.ranges@[i].end as int + 1, self.stream.data().len() as int)
    }

    /// Well-formed progress state. Once `idx` reaches the range count the
    /// reader is closing: `wrote_boundary_header` then records whether the
    /// closing boundary has been composed, and the reader is done when it
    /// has been composed and fully drained.
    pub open spec fn wf(self) -> bool {
        &&& self.stream.data().len() == self.stream_len as int
        &&& forall|i: int|
            0 <= i < self.ranges@.len() ==> (#[trigger] self.ranges@[i]).valid(self.stream_len)
        &&& self.idx as int <= self.ranges@.len()
        &&& self.buf_pos as int <= self.buffer@.len()
        &&& (self.buffer@.len() == 0 ==> self.buf_pos == 0)
        &&& (self.buffer@.len() > 0 ==> self.buf_pos < self.buffer@.len())
        &&& if (self.idx as int) < self.ranges@.len() {
            if self.wrote_boundary_header {
                (self.buffer@ == self.spec_header(self.idx as int) && self.stream.pos()
                    == self.ranges@[self.idx as int].start as nat) || (self.buffer@.len() == 0
                    && self.ranges@[self.idx as int].start as nat <= self.stream.pos()
                    && self.stream.pos() <= self.ranges@[self.idx as int].end as nat
                    && self.stream.pos() <= self.stream.data().len())
            } else {
                self.buffer@.len() == 0
            }
        } else {
            if self.wrote_boundary_header {
                self.buffer@ == boundary_closer(self.boundary@) || self.buffer@.len() == 0
            } else {
                self.buffer@.len() == 0
            }
        }
    }

    /// How many bytes of `body()` have been handed out so far.
    pub open spec fn emitted(self) -> int {
        if (self.idx as int) < self.ranges@.len() {
            self.ppl(self.idx as int) + if self.wrote_boundary_header {
                if self.buffer@.len() > 0 {
                    self.buf_pos as int
                } else {
                    self.spec_header(self.idx as int).len() + self.stream.pos()
                        - self.ranges@[self.idx as int].start
                }
            } else {
                0
            }
        } else {
            self.ppl(self.ranges@.len() as int) + if self.wrote_boundary_header {
                if self.buffer@.len() > 0 {
                    self.buf_pos as int
                } else {
                    boundary_closer(self.boundary@).len() as int
                }
            } else {
                0
            }
        }
    }

    /// Builds a reader over `stream` for the given ranges, with a freshly
    /// generated random boundary. Nothing has been emitted yet.
    pub fn new(stream: S, stream_len: u64, content_type: Vec<u8>, ranges: Vec<ByteRange>) -> (r:
        MultipartReader<S>)
        requires
            stream.data().len() == stream_len as int,
            forall|i: int| 0 <= i < ranges@.len() ==> (#[trigger] ranges@[i]).valid(stream_len),
        ensures
            r.wf(),
            r.emitted() == 0,
            r.stream == stream,
            r.stream_len == stream_len,
            r.ranges == ranges,
            r.content_type == content_type,
            r.idx == 0,
            !r.wrote_boundary_header,
            r.buffer@.len() == 0,
            r.buf_pos == 0,
            r.boundary@.len() == 60,
            forall|i: int| 0 <= i < r.boundary@.len() ==> is_lower_hex(#[trigger] r.boundary@[i]),
    {
        MultipartReader {
            stream,
            stream_len,
            ranges,
            idx: 0,
            boundary: random_boundary(),
            content_type,
            buffer: Vec::new(),
            buf_pos: 0,
            wrote_boundary_header: false,
        }
    }

    /// Empties the framing buffer for reuse.
    fn clear_buffer(&mut self)
        ensures
            final(self).buffer@.len() == 0,
            final(self).buf_pos == 0,
            final(self).stream == old(self).stream,
            final(self).stream_len == old(self).stream_len,
            final(self).ranges == old(self).ranges,
            final(self).idx == old(self).idx,
            final(self).boundary == old(self).boundary,
            final(self).content_type == old(self).content_type,
            final(self).wrote_boundary_header == old(self).wrote_boundary_header,
    {
        self.buffer.clear();
        self.buf_pos = 0;
    }

    /// Moves as much of the unread buffered framing text into `out` as its
    /// capacity allows; clears the buffer once it is fully drained.
    fn drain_buffer(&mut self, out: &mut Vec<u8>, capacity: usize)
        requires
            old(self).buf_pos as int <= old(self).buffer@.len(),
            old(out)@.len() <= capacity,
        ensures
            ({
                let k = vstd::math::min(
                    capacity - old(out)@.len(),
                    old(self).buffer@.len() - old(self).buf_pos,
                );
                &&& final(out)@ == old(out)@ + old(self).buffer@.subrange(
                    old(self).buf_pos as int,
                    old(self).buf_pos + k,
                )
                &&& final(out)@.len() == old(out)@.len() + k
                &&& final(out)@.len() <= capacity
                &&& (final(out)@.len() < capacity ==> old(self).buf_pos + k == old(
                    self,
                ).buffer@.len())
                &&& (if old(self).buf_pos + k == old(self).buffer@.len() {
                    final(self).buffer@.len() == 0 && final(self).buf_pos == 0
                } else {
                    final(self).buffer@ == old(self).buffer@ && final(self).buf_pos as int == old(
                        self,
                    ).buf_pos + k
                })
                &&& final(self).stream == old(self).stream
                &&& final(self).stream_len == old(self).stream_len
                &&& final(self).ranges == old(self).ranges
                &&& final(self).idx == old(self).idx
                &&& final(self).boundary == old(self).boundary
                &&& final(self).content_type == old(self).content_type
                &&& final(self).wrote_boundary_header == old(self).wrote_boundary_header
            }),
    {
        let ghost p0 = old(self).buf_pos as int;
        while self.buf_pos < self.buffer.len() && out.len() < capacity
            invariant
                p0 == old(self).buf_pos as int,
                p0 <= self.buf_pos as int <= self.buffer@.len(),
                out@.len() <= capacity,
                out@ == old(out)@ + self.buffer@.subrange(p0, self.buf_pos as int),
                out@.len() - old(out)@.len() == self.buf_pos - p0,
                self.buffer@ == old(self).buffer@,
                self.stream == old(self).stream,
                self.stream_len == old(self).stream_len,
                self.ranges == old(self).ranges,
                self.idx == old(self).idx,
                self.boundary == old(self).boundary,
                self.content_type == old(self).content_type,
                self.wrote_boundary_header == old(self).wrote_boundary_header,
            decreases self.buffer@.len() - self.buf_pos,
        {
            let b = self.buffer[self.buf_pos];
            let ghost prev = out@;
            out.push(b);
            self.buf_pos = self.buf_pos + 1;
            proof {
                assert(out@ == prev.push(b));
                assert(self.buffer@.subrange(p0, self.buf_pos as int) =~= self.buffer@.subrange(
                    p0,
                    self.buf_pos - 1,
                ).push(self.buffer@[self.buf_pos - 1]));
                assert(out@ =~= old(out)@ + self.buffer@.subrange(p0, self.buf_pos as int));
            }
        }
        if self.buf_pos == self.buffer.len() {
            self.clear_buffer();
        }
    }

    /// The bytes of part `i` sit in the body at offset `ppl(i)`, and every
    /// prefix length stays within the body.
    pub proof fn lemma_body_at_part(self, i: int)
        requires
            0 <= i < self.ranges@.len(),
        ensures
            self.ppl(i) + self.spec_part(i).len() == self.ppl(i + 1),
            self.ppl(i + 1) <= self.ppl(self.ranges@.len() as int),
            self.body().len() == self.ppl(self.ranges@.len() as int) + boundary_closer(
                self.boundary@,
            ).len(),
            forall|k: int|
                0 <= k < self.spec_part(i).len() ==> self.body()[self.ppl(i) + k]
                    == self.spec_part(i)[k],
            self.spec_part(i).len() == self.spec_header(i).len() + part_payload(
                self.stream.data(),
                self.ranges@[i],
            ).len(),
    {
        let n = self.ranges@.len() as int;
        lemma_parts_prefix_index(
            self.stream.data(),
            self.boundary@,
            self.content_type@,
            self.stream_len,
            self.ranges@,
            i,
            n,
        );
        assert(parts_prefix(
            self.stream.data(),
            self.boundary@,
            self.content_type@,
            self.stream_len,
            self.ranges@,
            i + 1,
        ) == parts_prefix(
            self.stream.data(),
            self.boundary@,
            self.content_type@,
            self.stream_len,
            self.ranges@,
            i,
        ) + self.spec_part(i));
        if i + 1 < n {
            lemma_parts_prefix_index(
                self.stream.data(),
                self.boundary@,
                self.content_type@,
                self.stream_len,
                self.ranges@,
                i + 1 - 1,
                n,
            );
        }
        assert forall|k: int| 0 <= k < self.spec_part(i).len() implies self.body()[self.ppl(i)
            + k] == self.spec_part(i)[k] by {
            assert(self.ppl(i) + k < self.ppl(n));
        }
    }

    /// Prefix lengths are monotone in the number of parts.
    pub proof fn lemma_ppl_monotone(self, i: int, j: int)
        requires
            0 <= i <= j <= self.ranges@.len(),
        ensures
            self.ppl(i) <= self.ppl(j),
    {
        if i < j {
            lemma_parts_prefix_index(
                self.stream.data(),
                self.boundary@,
                self.content_type@,
                self.stream_len,
                self.ranges@,
                i,
                j,
            );
        }
    }

    /// What has been emitted never exceeds the whole body, and while a
    /// range is still current some of the body is still owed.
    pub proof fn lemma_emitted_bounds(self)
        requires
            self.wf(),
        ensures
            0 <= self.emitted() <= self.body().len(),
            self.body().len() == self.ppl(self.ranges@.len() as int) + boundary_closer(
                self.boundary@,
            ).len(),
            (self.idx as int) < self.ranges@.len() ==> self.emitted() < self.body().len(),
    {
        let n = self.ranges@.len() as int;
        let i = self.idx as int;
        if i < n {
            self.lemma_body_at_part(i);
            self.lemma_ppl_monotone(i + 1, n);
            if self.wrote_boundary_header && self.buffer@.len() == 0 {
                assert(self.stream.pos() <= vstd::math::min(
                    self.ranges@[i].end as int + 1,
                    self.stream.data().len() as int,
                ));
            }
        }
    }


    /// Composes the closing boundary into the (empty) buffer.
    fn compose_closer(&mut self)
        requires
            old(self).wf(),
            old(self).idx as int == old(self).ranges@.len(),
            !old(self).wrote_boundary_header,
        ensures
            final(self).wf(),
            final(self).config() == old(self).config(),
            final(self).emitted() == old(self).emitted(),
            final(self).idx == old(self).idx,
            final(self).wrote_boundary_header,
            final(self).buffer@ == boundary_closer(old(self).boundary@),
            final(self).buf_pos == 0,
            final(self).stream == old(self).stream,
    {
        write_boundary_closer(&mut self.buffer, self.boundary.as_slice());
        self.wrote_boundary_header = true;
        proof {
            assert(self.buffer@ =~= boundary_closer(self.boundary@));
        }
    }

    /// Seeks the source to the current range's start and composes its
    /// boundary header block into the (empty) buffer.
    fn compose_header(&mut self) -> (r: Result<(), StreamError>)
        requires
            old(self).wf(),
            (old(self).idx as int) < old(self).ranges@.len(),
            !old(self).wrote_boundary_header,
        ensures
            final(self).config() == old(self).config(),
            final(self).idx == old(self).idx,
            final(self).ranges == old(self).ranges,
            r is Err ==> final(self).wrote_boundary_header == old(self).wrote_boundary_header
                && final(self).buffer == old(self).buffer && final(self).buf_pos == old(
                self,
            ).buf_pos,
            r is Ok ==> {
                &&& final(self).wf()
                &&& final(self).emitted() == old(self).emitted()
                &&& final(self).wrote_boundary_header
                &&& final(self).buffer@ == final(self).spec_header(final(self).idx as int)
                &&& final(self).buf_pos == 0
            },
    {
        let rg = self.ranges[self.idx];
        match self.stream.seek_to(rg.start) {
            Ok(_) => (),
            Err(e) => {
                return Err(e);
            },
        }
        write_boundary(&mut self.buffer, self.boundary.as_slice());
        let ct_name = content_type_header_name();
        write_boundary_header(&mut self.buffer, ct_name.as_slice(), self.content_type.as_slice());
        let cr_name = content_range_header_name();
        let cr_value = content_range_value(rg.start, rg.end, self.stream_len);
        write_boundary_header(&mut self.buffer, cr_name.as_slice(), cr_value.as_slice());
        write_boundary_end(&mut self.buffer);
        self.wrote_boundary_header = true;
        proof {
            assert(self.buffer@ =~= self.spec_header(self.idx as int));
        }
        Ok(())
    }

    /// Reads raw bytes of the current range from the source into `out`:
    /// as many as fit the remaining capacity, never past the range. When
    /// the range is completed, advances to the next one.
    #[verifier::rlimit(60)]
    #[verifier::spinoff_prover]
    fn read_range_chunk(&mut self, out: &mut Vec<u8>, capacity: usize) -> (r: Result<
        (),
        StreamError,
    >)
        requires
            old(self).wf(),
            (old(self).idx as int) < old(self).ranges@.len(),
            old(self).wrote_boundary_header,
            old(self).buffer@.len() == 0,
            old(out)@.len() < capacity,
        ensures
            final(self).config() == old(self).config(),
            final(self).idx >= old(self).idx,
            r is Err ==> final(self).idx == old(self).idx && final(self).wrote_boundary_header
                == old(self).wrote_boundary_header,
            r is Ok ==> ({
                let added = final(out)@.len() - old(out)@.len();
                &&& final(self).wf()
                &&& final(out)@.len() <= capacity
                &&& old(out)@.len() < final(out)@.len()
                &&& final(self).emitted() == old(self).emitted() + added
                &&& final(out)@ == old(out)@ + old(self).body().subrange(
                    old(self).emitted(),
                    old(self).emitted() + added,
                )
            }),
    {
        let rg = self.ranges[self.idx];
        proof {
            assert(self.spec_header(self.idx as int).len() > 0);
        }
        let pos = match self.stream.stream_position() {
            Ok(p) => p,
            Err(e) => {
                return Err(e);
            },
        };
        let room = capacity - out.len();
        let want: usize = if rg.end - pos >= (room - 1) as u64 {
            room
        } else {
            (rg.end - pos) as usize + 1
        };
        let ghost mid = *self;
        proof {
            assert(mid.emitted() == old(self).emitted());
            assert(mid.body() == old(self).body());
        }
        let chunk = match self.stream.read_some(want) {
            Ok(c) => c,
            Err(e) => {
                return Err(e);
            },
        };
        if chunk.len() == 0 {
            // The clamp admitted a range past the end of the source and the
            // source has run out: surface it as a read failure.
            return Err(StreamError);
        }
        proof {
            mid.lemma_body_at_part(mid.idx as int);
            let i = mid.idx as int;
            let hd = mid.spec_header(i).len() as int;
            let off = mid.stream.pos() - mid.ranges@[i].start;
            assert(mid.emitted() == mid.ppl(i) + hd + off);
            assert forall|t: int| 0 <= t < chunk@.len() implies chunk@[t] == mid.body()[
                mid.emitted() + t] by {
                assert(chunk@[t] == mid.stream.data()[mid.stream.pos() + t]);
                assert(part_payload(mid.stream.data(), mid.ranges@[i])[off + t]
                    == mid.stream.data()[mid.ranges@[i].start + (off + t)]);
                assert(mid.spec_part(i)[hd + (off + t)] == part_payload(
                    mid.stream.data(),
                    mid.ranges@[i],
                )[off + t]);
                assert(mid.body()[mid.ppl(i) + (hd + (off + t))] == mid.spec_part(i)[hd + (off
                    + t)]);
            }
        }
        let ghost out_mid = out@;
        push_all(out, chunk.as_slice());
        let rlen = self.ranges.len();
        if rg.end - pos == (chunk.len() - 1) as u64 {
            // This range is complete: move on; the next pull opens the next
            // boundary block (or the closing boundary).
            assert(self.idx < rlen);
            self.idx = self.idx + 1;
            self.wrote_boundary_header = false;
        }
        proof {
            let c = chunk@.len() as int;
            if mid.idx == self.idx {
                assert(self.emitted() == mid.emitted() + c);
            } else {
                mid.lemma_body_at_part(mid.idx as int);
                assert(self.ppl(self.idx as int) == mid.ppl(mid.idx as int) + mid.spec_part(
                    mid.idx as int,
                ).len());
                assert(self.emitted() == mid.emitted() + c);
            }
            assert(self.wf());
            assert(out@ =~= out_mid + mid.body().subrange(mid.emitted(), mid.emitted() + c));
        }
        Ok(())
    }

    /// One pull: up to `capacity` bytes of the multipart body, in order.
    ///
    /// On success the chunk is exactly the next slice of the body after
    /// what earlier pulls already delivered, so concatenating the chunks of
    /// any sequence of pulls, with any capacities, reproduces the body;
    /// an empty chunk means either `capacity == 0` or that the body,
    /// closing boundary included, has been delivered in full — after which
    /// every later pull succeeds with an empty chunk again, never an error.
    /// A pull that can be answered without touching the source — nothing
    /// asked for, enough framing text already buffered, or every range
    /// already served — always succeeds. A seek or read failure, or a
    /// range whose clamped `end` reaches past the end of the source, aborts
    /// the pull with an error, leaving the range index where it was; the
    /// reader is not to be pulled again.
    #[verifier::rlimit(100)]
    #[verifier::spinoff_prover]
    pub fn pull(&mut self, capacity: usize) -> (r: Result<Vec<u8>, StreamError>)
        requires
            old(self).wf(),
        ensures
            final(self).config() == old(self).config(),
            final(self).idx >= old(self).idx,
            r is Err ==> final(self).idx == old(self).idx,
            capacity == 0 ==> r is Ok,
            old(self).emitted() == old(self).body().len() ==> r is Ok,
            old(self).idx as int == old(self).ranges@.len() ==> r is Ok,
            old(self).buffer@.len() - old(self).buf_pos >= capacity ==> r is Ok,
            r matches Ok(v) ==> {
                &&& final(self).wf()
                &&& v@.len() <= capacity
                &&& final(self).emitted() == old(self).emitted() + v@.len()
                &&& v@ == old(self).body().subrange(
                    old(self).emitted(),
                    old(self).emitted() + v@.len(),
                )
                &&& (v@.len() == 0 <==> (capacity == 0 || old(self).emitted() == old(
                    self,
                ).body().len()))
            },
    {
        let ghost s0 = *self;
        proof {
            s0.lemma_emitted_bounds();
        }
        let mut out: Vec<u8> = Vec::new();

        // Step 1: drain framing text still sitting in the buffer.
        self.drain_buffer(&mut out, capacity);
        proof {
            if s0.buffer@.len() > 0 && (s0.idx as int) < s0.ranges@.len() {
                s0.lemma_body_at_part(s0.idx as int);
            }
            assert forall|t: int| 0 <= t < out@.len() implies out@[t] == s0.body()[s0.emitted() + t]
                by {
                if (s0.idx as int) < s0.ranges@.len() {
                    assert(s0.body()[s0.ppl(s0.idx as int) + (s0.buf_pos + t)] == s0.spec_part(
                        s0.idx as int,
                    )[s0.buf_pos + t]);
                } else {
                    assert(s0.body()[s0.ppl(s0.ranges@.len() as int) + (s0.buf_pos + t)]
                        == boundary_closer(s0.boundary@)[s0.buf_pos + t]);
                }
            }
            assert(out@ =~= s0.body().subrange(s0.emitted(), s0.emitted() + out@.len()));
            assert(self.emitted() == s0.emitted() + out@.len());
            assert(self.wf());
        }
        if out.len() >= capacity {
            proof {
                if out@.len() == 0 {
                    assert(capacity == 0);
                }
            }
            return Ok(out);
        }
        // The buffer is now empty and cleared; `out` holds what it gave and
        // still has room left.
        proof {
            assert(s0.buffer@.len() - s0.buf_pos < capacity);
        }
        if self.idx >= self.ranges.len() {
            if !self.wrote_boundary_header {
                // Step 3: all ranges served; compose and deliver the closer.
                proof {
                    assert(s0.idx as int == s0.ranges@.len());
                    assert(!s0.wrote_boundary_header);
                    assert(s0.buffer@.len() == 0);
                    assert(out@.len() == 0);
                }
                self.compose_closer();
                self.drain_buffer(&mut out, capacity);
                proof {
                    assert forall|t: int| 0 <= t < out@.len() implies out@[t] == s0.body()[
                        s0.emitted() + t] by {
                        assert(s0.body()[s0.ppl(s0.ranges@.len() as int) + t] == boundary_closer(
                            s0.boundary@,
                        )[t]);
                    }
                    assert(out@ =~= s0.body().subrange(s0.emitted(), s0.emitted() + out@.len()));
                    assert(self.emitted() == s0.emitted() + out@.len());
                    assert(out@.len() > 0);
                }
                return Ok(out);
            }
            // Step 3b: the closing boundary was already composed; deliver
            // any remnant of it, after which every pull signals exhaustion
            // with an empty chunk.
            proof {
                if out@.len() == 0 {
                    assert(s0.buffer@.len() == 0);
                    assert(s0.emitted() == s0.body().len());
                } else {
                    assert(s0.buffer@.len() > 0);
                    assert(s0.emitted() < s0.body().len());
                }
            }
            return Ok(out);
        }

        // Step 4: a range is current; open its boundary block if needed.
        if !self.wrote_boundary_header {
            proof {
                assert(out@.len() == 0);
            }
            match self.compose_header() {
                Ok(_) => (),
                Err(e) => {
                    return Err(e);
                },
            }
            let ghost hd = *self;
            self.drain_buffer(&mut out, capacity);
            proof {
                hd.lemma_body_at_part(hd.idx as int);
                assert forall|t: int| 0 <= t < out@.len() implies out@[t] == s0.body()[s0.emitted()
                    + t] by {
                    assert(s0.body()[hd.ppl(hd.idx as int) + t] == hd.spec_part(hd.idx as int)[t]);
                }
                assert(out@ =~= s0.body().subrange(s0.emitted(), s0.emitted() + out@.len()));
                assert(self.emitted() == s0.emitted() + out@.len());
                assert(self.wf());
            }
            if out.len() >= capacity {
                proof {
                    assert(out@.len() > 0);
                }
                return Ok(out);
            }
        }

        // Step 5: the header block is out; deliver raw range bytes.
        let ghost out_mid = out@;
        match self.read_range_chunk(&mut out, capacity) {
            Ok(_) => (),
            Err(e) => {
                return Err(e);
            },
        }
        proof {
            self.lemma_emitted_bounds();
            assert(s0.emitted() + out@.len() <= s0.body().len());
            assert(out@ =~= s0.body().subrange(s0.emitted(), s0.emitted() + out@.len()));
        }
        Ok(out)
    }

}

/// `"Content-Type"` as bytes, for a boundary header line.
fn content_type_header_name() -> (v: Vec<u8>)
    ensures
        v@ == content_type_name(),
{
    let mut v: Vec<u8> = Vec::new();
    push_content_type_name(&mut v);
    assert(v@ =~= content_type_name());
    v
}

/// `"Content-Range"` as bytes, for a boundary header line.
fn content_range_header_name() -> (v: Vec<u8>)
    ensures
        v@ == content_range_name(),
{
    let mut v: Vec<u8> = Vec::new();
    push_content_range_name(&mut v);
    assert(v@ =~= content_range_name());
    v
}

} // verus!
