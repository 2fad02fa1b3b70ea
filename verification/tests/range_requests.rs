use rocket_seek_stream::{
    parse_range_header, to_satisfiable_range, ByteRange, MemoryStream, RespondError, SeekResponse,
    SeekStream,
};

#[test]
fn resolve_explicit_pair_within_length() {
    assert_eq!(to_satisfiable_range(Some(0), Some(99), 1000), Ok((0, 99)));
}

#[test]
fn resolve_explicit_pair_clamps_to_length() {
    // The clamp target is the length itself, not length - 1.
    assert_eq!(to_satisfiable_range(Some(0), Some(99), 50), Ok((0, 50)));
}

#[test]
fn resolve_suffix_form() {
    assert_eq!(to_satisfiable_range(None, Some(100), 1000), Ok((900, 999)));
}

#[test]
fn resolve_start_only() {
    assert_eq!(to_satisfiable_range(Some(10), None, 100), Ok((10, 99)));
}

#[test]
fn resolve_no_bounds_is_error() {
    assert!(to_satisfiable_range(None, None, 1000).is_err());
}

#[test]
fn resolve_end_before_start_is_error() {
    assert!(to_satisfiable_range(Some(5), Some(2), 1000).is_err());
}

#[test]
fn resolve_zero_suffix_is_error() {
    assert!(to_satisfiable_range(None, Some(0), 100).is_err());
}

#[test]
fn resolve_oversized_suffix_is_error() {
    assert!(to_satisfiable_range(None, Some(200), 100).is_err());
}

#[test]
fn resolve_start_past_length_is_error() {
    assert!(to_satisfiable_range(Some(500), Some(600), 100).is_err());
}

#[test]
fn resolved_ranges_satisfy_bounds() {
    // start <= end <= length for every accepted combination.
    for length in [1u64, 2, 50, 1000] {
        for from in [None, Some(0u64), Some(10), Some(49), Some(100)] {
            for to in [None, Some(0u64), Some(10), Some(49), Some(100)] {
                if let Ok((s, e)) = to_satisfiable_range(from, to, length) {
                    assert!(s <= e, "{from:?} {to:?} {length}");
                    assert!(e <= length, "{from:?} {to:?} {length}");
                }
            }
        }
    }
}

#[test]
fn parse_single_explicit_range() {
    assert_eq!(parse_range_header(b"bytes=0-99"), vec![(Some(0), Some(99))]);
}

#[test]
fn parse_suffix_range() {
    assert_eq!(parse_range_header(b"bytes=-100"), vec![(None, Some(100))]);
}

#[test]
fn parse_start_only_range() {
    assert_eq!(parse_range_header(b"bytes=10-"), vec![(Some(10), None)]);
}

#[test]
fn parse_empty_set_is_invalid() {
    assert_eq!(parse_range_header(b"bytes="), vec![]);
}

#[test]
fn parse_multiple_ranges() {
    assert_eq!(
        parse_range_header(b"bytes=0-99,200-"),
        vec![(Some(0), Some(99)), (Some(200), None)]
    );
}

#[test]
fn parse_garbage_is_invalid() {
    assert_eq!(parse_range_header(b"invalid input"), vec![]);
    assert_eq!(parse_range_header(b""), vec![]);
    assert_eq!(parse_range_header(b"bytes=,"), vec![]);
    assert_eq!(parse_range_header(b"bytes=0-99x"), vec![]);
    assert_eq!(parse_range_header(b"bytes=--1"), vec![]);
}

#[test]
fn parse_allows_spaces_between_tokens() {
    assert_eq!(
        parse_range_header(b" bytes=0 - 99 , -5 "),
        vec![(Some(0), Some(99)), (None, Some(5))]
    );
}

#[test]
fn parse_rejects_space_inside_digits() {
    assert_eq!(parse_range_header(b"bytes=1 2-"), vec![]);
}

#[test]
fn parse_trailing_comma_is_allowed() {
    assert_eq!(parse_range_header(b"bytes=0-99,"), vec![(Some(0), Some(99))]);
}

#[test]
fn parse_drops_descending_explicit_pair() {
    assert_eq!(parse_range_header(b"bytes=5-2"), vec![]);
    assert_eq!(parse_range_header(b"bytes=5-2,10-20"), vec![(Some(10), Some(20))]);
}

#[test]
fn parse_oversized_number_is_invalid() {
    assert_eq!(parse_range_header(b"bytes=99999999999999999999999-"), vec![]);
    assert_eq!(parse_range_header(b"bytes=0-18446744073709551616"), vec![]);
    // The largest u64 still parses.
    assert_eq!(
        parse_range_header(b"bytes=18446744073709551615-"),
        vec![(Some(u64::MAX), None)]
    );
}

#[test]
fn parse_agrees_with_range_header_crate() {
    // The same grammar as range_header::ByteRange::parse, unit for unit.
    for header in [
        "bytes=10-100",
        "bytes=10-",
        "bytes=-100",
        "invalid input",
        "bytes=0-0,5-9,20-",
        "bytes=9-2,4-4",
        "bytes=",
        " bytes=1 - 2 , - 7 ",
        "bytes=1-2-3",
        "bytes=1-2,",
        "bytes=,1-2",
        "bytes=\t1-2",
        "BYTES=1-2",
        "bytes =1-2",
        "bytes= 1-2",
        "bytes=1-2 ,3-4,,",
        "bytes=0x1f-",
    ] {
        let theirs: Vec<(Option<u64>, Option<u64>)> = range_header::ByteRange::parse(header)
            .iter()
            .map(|r| match *r {
                range_header::ByteRange::FromTo(x) => (Some(x), None),
                range_header::ByteRange::FromToAll(x, y) => (Some(x), Some(y)),
                range_header::ByteRange::Last(x) => (None, Some(x)),
            })
            .collect();
        assert_eq!(parse_range_header(header.as_bytes()), theirs, "{header}");
    }
}

fn source(n: u8) -> Vec<u8> {
    (0..n).collect()
}

fn drain_all<S: rocket_seek_stream::ReadSeek>(
    body: &mut rocket_seek_stream::RangeStreamer<S>,
    chunk: usize,
) -> Vec<u8> {
    let mut out = Vec::new();
    loop {
        let piece = body.pull(chunk).unwrap();
        if piece.is_empty() {
            return out;
        }
        out.extend_from_slice(&piece);
    }
}

#[test]
fn full_body_without_range_header() {
    let data = source(40);
    let stream = MemoryStream::new(data.clone());
    let s = SeekStream::with_opts(stream, Some(40), Some("text/plain"));
    match s.respond_to(None).unwrap() {
        SeekResponse::Full {
            mut body,
            length,
            content_type,
        } => {
            assert_eq!(length, 40);
            assert_eq!(content_type, b"text/plain".to_vec());
            assert_eq!(drain_all(&mut body, 7), data);
        }
        _ => panic!("expected a full-body response"),
    }
}

#[test]
fn probed_length_matches_source() {
    let data = source(33);
    let stream = MemoryStream::new(data.clone());
    let s = SeekStream::with_opts(stream, None, Some("text/plain"));
    match s.respond_to(None).unwrap() {
        SeekResponse::Full {
            mut body, length, ..
        } => {
            assert_eq!(length, 33);
            assert_eq!(drain_all(&mut body, 100), data);
        }
        _ => panic!("expected a full-body response"),
    }
}

#[test]
fn single_range_request() {
    let data = source(100);
    let stream = MemoryStream::new(data.clone());
    let s = SeekStream::with_opts(stream, Some(100), Some("text/plain"));
    match s.respond_to(Some("bytes=10-19")).unwrap() {
        SeekResponse::Single {
            mut body,
            start,
            end,
            length,
            ..
        } => {
            assert_eq!((start, end, length), (10, 19, 100));
            assert_eq!(drain_all(&mut body, 3), data[10..20].to_vec());
        }
        _ => panic!("expected a single-range response"),
    }
}

#[test]
fn single_range_clamped_past_end_sends_what_exists() {
    // "bytes=10-200" against length 100 clamps to (10, 100); the stream can
    // serve bytes 10..100 only.
    let data = source(100);
    let stream = MemoryStream::new(data.clone());
    let s = SeekStream::with_opts(stream, Some(100), Some("text/plain"));
    match s.respond_to(Some("bytes=10-200")).unwrap() {
        SeekResponse::Single {
            mut body,
            start,
            end,
            ..
        } => {
            assert_eq!((start, end), (10, 100));
            assert_eq!(drain_all(&mut body, 32), data[10..100].to_vec());
        }
        _ => panic!("expected a single-range response"),
    }
}

#[test]
fn identical_ranges_dedup_to_single_response() {
    // Two byte-identical ranges collapse to one served range.
    let data = source(100);
    let stream = MemoryStream::new(data.clone());
    let s = SeekStream::with_opts(stream, Some(100), Some("text/plain"));
    match s.respond_to(Some("bytes=10-20,10-20")).unwrap() {
        SeekResponse::Single {
            mut body,
            start,
            end,
            ..
        } => {
            assert_eq!((start, end), (10, 20));
            assert_eq!(drain_all(&mut body, 100), data[10..21].to_vec());
        }
        _ => panic!("expected the duplicates to collapse to a single range"),
    }
}

#[test]
fn single_whole_range_equals_full_body() {
    // A request for 0..=length-1 sends exactly the full-body bytes, with
    // only the status line differing.
    let data = source(64);
    let full = {
        let s = SeekStream::with_opts(MemoryStream::new(data.clone()), Some(64), Some("x/y"));
        match s.respond_to(None).unwrap() {
            SeekResponse::Full { mut body, .. } => drain_all(&mut body, 9),
            _ => panic!("expected full"),
        }
    };
    let single = {
        let s = SeekStream::with_opts(MemoryStream::new(data.clone()), Some(64), Some("x/y"));
        match s.respond_to(Some("bytes=0-63")).unwrap() {
            SeekResponse::Single { mut body, .. } => drain_all(&mut body, 9),
            _ => panic!("expected single"),
        }
    };
    assert_eq!(full, single);
    assert_eq!(full, data);
}

#[test]
fn unsatisfiable_requests_are_rejected() {
    for header in ["bytes=", "bytes=abc", "bytes=-0", "bytes=5-2", "nonsense", "bytes=-200"] {
        let s = SeekStream::with_opts(MemoryStream::new(source(100)), Some(100), Some("x/y"));
        match s.respond_to(Some(header)) {
            Err(RespondError::RangeNotSatisfiable) => (),
            other => panic!("{header}: expected 416, got {other:?}", other = other.is_ok()),
        }
    }
}

#[test]
fn mixed_valid_and_invalid_units_fail_whole_request() {
    // One unsatisfiable unit poisons the request even beside valid ones.
    let s = SeekStream::with_opts(MemoryStream::new(source(100)), Some(100), Some("x/y"));
    assert!(matches!(
        s.respond_to(Some("bytes=0-5,-0")),
        Err(RespondError::RangeNotSatisfiable)
    ));
}

#[test]
fn content_range_value_renders_decimal() {
    assert_eq!(
        rocket_seek_stream::content_range_value(0, 99, 1000),
        b"bytes 0-99/1000".to_vec()
    );
    assert_eq!(
        rocket_seek_stream::content_range_value(0, 0, 0),
        b"bytes 0-0/0".to_vec()
    );
    assert_eq!(
        rocket_seek_stream::content_range_value(10, u64::MAX, u64::MAX),
        b"bytes 10-18446744073709551615/18446744073709551615".to_vec()
    );
}

#[test]
fn content_length_values_render_decimal() {
    assert_eq!(rocket_seek_stream::decimal_value(0), b"0".to_vec());
    assert_eq!(rocket_seek_stream::decimal_value(1000), b"1000".to_vec());
    assert_eq!(
        rocket_seek_stream::content_length_value(10, 19),
        b"10".to_vec()
    );
    assert_eq!(
        rocket_seek_stream::content_length_value(0, 0),
        b"1".to_vec()
    );
}

#[test]
fn parse_accepts_leading_zeros() {
    assert_eq!(parse_range_header(b"bytes=007-009"), vec![(Some(7), Some(9))]);
}

#[test]
fn sniffed_content_type_leaves_stream_at_start() {
    // No declared content type: up to 256 bytes are sampled for sniffing
    // and the stream is re-seeked to the start, so the full body is intact.
    let mut data = vec![0x89u8, 0x50, 0x4e, 0x47, 0x0d, 0x0a, 0x1a, 0x0a];
    data.extend_from_slice(&[0u8; 64]);
    let s = SeekStream::with_opts(MemoryStream::new(data.clone()), Some(data.len() as u64), None);
    match s.respond_to(None).unwrap() {
        SeekResponse::Full {
            mut body,
            content_type,
            ..
        } => {
            assert!(!content_type.is_empty());
            assert_eq!(drain_all(&mut body, 11), data);
        }
        _ => panic!("expected a full-body response"),
    }
}

#[test]
fn default_options_probe_and_sniff() {
    // `new` declares neither length nor content type: the length comes from
    // an end-seek probe and the type from sniffing.
    let data = source(25);
    let s = SeekStream::new(MemoryStream::new(data.clone()));
    match s.respond_to(None).unwrap() {
        SeekResponse::Full {
            mut body,
            length,
            content_type,
        } => {
            assert_eq!(length, 25);
            assert!(!content_type.is_empty());
            assert_eq!(drain_all(&mut body, 8), data);
        }
        _ => panic!("expected a full-body response"),
    }
}

#[test]
fn single_range_exhaustion_is_permanent() {
    let s = SeekStream::with_opts(MemoryStream::new(source(30)), Some(30), Some("x/y"));
    match s.respond_to(Some("bytes=5-9")).unwrap() {
        SeekResponse::Single { mut body, .. } => {
            assert_eq!(drain_all(&mut body, 2), source(30)[5..10].to_vec());
            for _ in 0..4 {
                assert_eq!(body.pull(16).unwrap(), Vec::<u8>::new());
            }
        }
        _ => panic!("expected a single-range response"),
    }
}

#[test]
fn byte_range_is_plain_data() {
    let r = ByteRange { start: 3, end: 9 };
    assert_eq!(r, ByteRange { start: 3, end: 9 });
    assert!(r != ByteRange { start: 3, end: 10 });
}
