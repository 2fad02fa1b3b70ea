use rocket_seek_stream::{
    multipart_content_type, MemoryStream, MultipartReader, SeekResponse, SeekStream, StreamError,
};

fn source(n: u8) -> Vec<u8> {
    (0..n).collect()
}

/// The expected multipart body for the given boundary, content type and
/// (start, end) pairs over `data`, framed exactly as the reader promises.
fn expected_body(data: &[u8], boundary: &[u8], ct: &[u8], total: u64, ranges: &[(u64, u64)]) -> Vec<u8> {
    let mut v = Vec::new();
    for &(s, e) in ranges {
        v.extend_from_slice(b"\r\n--");
        v.extend_from_slice(boundary);
        v.extend_from_slice(b"\r\n");
        v.extend_from_slice(b"Content-Type: ");
        v.extend_from_slice(ct);
        v.extend_from_slice(b"\r\n");
        v.extend_from_slice(format!("Content-Range: bytes {}-{}/{}\r\n", s, e, total).as_bytes());
        v.extend_from_slice(b"\r\n");
        v.extend_from_slice(&data[s as usize..=(e as usize)]);
    }
    v.extend_from_slice(b"\r\n--");
    v.extend_from_slice(boundary);
    v.extend_from_slice(b"--\r\n\r\n");
    v
}

fn pull_all(reader: &mut MultipartReader<MemoryStream>, chunk: usize) -> Vec<u8> {
    let mut out = Vec::new();
    loop {
        let piece = reader.pull(chunk).unwrap();
        if piece.is_empty() {
            return out;
        }
        out.extend_from_slice(&piece);
    }
}

fn multi_response(data: Vec<u8>, header: &str) -> MultipartReader<MemoryStream> {
    let len = data.len() as u64;
    let s = SeekStream::with_opts(MemoryStream::new(data), Some(len), Some("text/plain"));
    match s.respond_to(Some(header)).unwrap() {
        SeekResponse::Multi { body, length } => {
            assert_eq!(length, len);
            body
        }
        _ => panic!("expected a multipart response"),
    }
}

#[test]
fn boundary_is_sixty_lowercase_hex_digits() {
    // Two hex digits for each of the 30 random bytes, within the MIME
    // bound of 70 characters.
    let reader = multi_response(source(40), "bytes=0-4,10-14");
    assert_eq!(reader.boundary.len(), 60);
    assert!(reader
        .boundary
        .iter()
        .all(|b| b.is_ascii_hexdigit() && !b.is_ascii_uppercase()));
}

#[test]
fn two_ranges_frame_exactly() {
    let data = source(40);
    let mut reader = multi_response(data.clone(), "bytes=0-4,10-14");
    let boundary = reader.boundary.clone();
    let body = pull_all(&mut reader, 4096);
    let expected = expected_body(&data, &boundary, b"text/plain", 40, &[(0, 4), (10, 14)]);
    assert_eq!(body, expected);
}

#[test]
fn total_length_is_sum_of_parts_plus_closer() {
    let data = source(100);
    let mut reader = multi_response(data.clone(), "bytes=3-9,50-59");
    let boundary_len = reader.boundary.len();
    let body = pull_all(&mut reader, 1024);
    // Each part: "\r\n--{b}\r\n" + "Content-Type: text/plain\r\n"
    // + "Content-Range: bytes {s}-{e}/100\r\n" + "\r\n" + payload.
    let cr_line = |s: u64, e: u64| format!("Content-Range: bytes {}-{}/100\r\n", s, e).len();
    let part_len =
        |s: u64, e: u64| (4 + boundary_len + 2) + 26 + cr_line(s, e) + 2 + (e - s + 1) as usize;
    let closer = 4 + boundary_len + 4 + 2;
    assert_eq!(body.len(), part_len(3, 9) + part_len(50, 59) + closer);
}

#[test]
fn ranges_are_served_sorted() {
    let data = source(60);
    let mut reader = multi_response(data.clone(), "bytes=30-34,1-5");
    let boundary = reader.boundary.clone();
    let body = pull_all(&mut reader, 512);
    let expected = expected_body(&data, &boundary, b"text/plain", 60, &[(1, 5), (30, 34)]);
    assert_eq!(body, expected);
}

#[test]
fn output_is_invariant_to_pull_chunking() {
    // Byte-for-byte the same body whether pulled in one large buffer or in
    // many tiny ones; boundaries are random, so each reader is compared to
    // its own expected framing.
    let data = source(80);
    for chunk in [1usize, 2, 3, 7, 4096] {
        let mut reader = multi_response(data.clone(), "bytes=5-25,40-41,60-79");
        let boundary = reader.boundary.clone();
        let body = pull_all(&mut reader, chunk);
        let expected = expected_body(
            &data,
            &boundary,
            b"text/plain",
            80,
            &[(5, 25), (40, 41), (60, 79)],
        );
        assert_eq!(body, expected, "chunk size {chunk}");
    }
}

#[test]
fn exhaustion_is_permanent() {
    let mut reader = multi_response(source(50), "bytes=0-9,20-29");
    let _ = pull_all(&mut reader, 128);
    for _ in 0..5 {
        assert_eq!(reader.pull(64).unwrap(), Vec::<u8>::new());
    }
}

#[test]
fn zero_capacity_pull_returns_empty_without_progress() {
    let data = source(30);
    let mut reader = multi_response(data.clone(), "bytes=0-4,10-14");
    let boundary = reader.boundary.clone();
    assert_eq!(reader.pull(0).unwrap(), Vec::<u8>::new());
    let body = pull_all(&mut reader, 256);
    assert_eq!(
        body,
        expected_body(&data, &boundary, b"text/plain", 30, &[(0, 4), (10, 14)])
    );
}

#[test]
fn range_clamped_past_source_end_fails_mid_stream() {
    // "bytes=0-4,10-200" against length 100: the second range is clamped to
    // (10, 100), one byte past what the source holds; the reader serves
    // what exists and then surfaces a read failure.
    let data = source(100);
    let mut reader = multi_response(data.clone(), "bytes=0-4,10-200");
    let mut got = Vec::new();
    let err = loop {
        match reader.pull(64) {
            Ok(piece) => {
                assert!(!piece.is_empty(), "exhaustion before the failure");
                got.extend_from_slice(&piece);
            }
            Err(e) => break e,
        }
    };
    assert_eq!(err, StreamError);
    // Everything of the second range that exists was delivered first.
    let tail: Vec<u8> = data[10..100].to_vec();
    assert!(got.ends_with(&tail));
}

#[test]
fn multipart_content_type_carries_boundary() {
    let v = multipart_content_type(b"abc123");
    assert_eq!(v, b"multipart/byterange; boundary=abc123".to_vec());
}

#[test]
fn direct_reader_over_empty_range_list_sends_closer_only() {
    let reader_data = source(10);
    let mut reader = MultipartReader::new(
        MemoryStream::new(reader_data),
        10,
        b"text/plain".to_vec(),
        Vec::new(),
    );
    let boundary = reader.boundary.clone();
    let body = pull_all(&mut reader, 16);
    let mut expected = Vec::new();
    expected.extend_from_slice(b"\r\n--");
    expected.extend_from_slice(&boundary);
    expected.extend_from_slice(b"--\r\n\r\n");
    assert_eq!(body, expected);
}
