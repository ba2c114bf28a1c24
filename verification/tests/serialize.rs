use constmap::layout::{
    Array, FormatError, Kind, Span, IO_CHUNK_WORDS, MAGIC, VERIFIED_HEADER_SIZE, VERIFIED_MAGIC,
};
use constmap::serialize::{LengthMismatch, ReadError, VerifiedWriteError};
use constmap::stream::{Recorder, Sink, Source, WriteError};
use constmap::{ConstMap, VerifiedConstMap, NOT_FOUND};

fn build_data(n: usize) -> (Vec<String>, Vec<u64>) {
    let keys: Vec<String> = (0..n).map(|i| format!("key-{}", i)).collect();
    let values: Vec<u64> = (0..n).map(|i| (i * 7) as u64).collect();
    (keys, values)
}

fn refs(keys: &[String]) -> Vec<&str> {
    keys.iter().map(|s| s.as_str()).collect()
}

fn told(error: ReadError<()>) -> FormatError {
    match error {
        ReadError::Format(e) => e,
        ReadError::Source { .. } => panic!("the source does not fail"),
    }
}

/// The last eight bytes.
fn checksum_of(buf: &[u8]) -> u64 {
    let mut last = [0u8; 8];
    last.copy_from_slice(&buf[buf.len() - 8..]);
    u64::from_le_bytes(last)
}

#[test]
fn test_serialize_deserialize() {
    let keys = vec!["apple", "banana", "cherry", "date", "elderberry"];
    let values = vec![100u64, 200, 300, 400, 500];

    let cm = ConstMap::new(&keys, &values).unwrap();

    let mut buf = Vec::new();
    cm.write_to(&mut buf).unwrap();

    let cm2 = ConstMap::read_from(&mut &buf[..]).unwrap();

    for (i, &k) in keys.iter().enumerate() {
        assert_eq!(
            cm2.map(k),
            values[i],
            "after deserialize: map({}) mismatch",
            k
        );
    }
}

#[test]
fn test_serialize_large() {
    let (keys, values) = build_data(100_000);
    let cm = ConstMap::new(&refs(&keys), &values).unwrap();

    let mut buf = Vec::new();
    let written = cm.write_to(&mut buf).unwrap();
    assert_eq!(written as usize, buf.len());

    let cm2 = ConstMap::read_from(&mut &buf[..]).unwrap();

    for (i, k) in keys.iter().enumerate() {
        assert_eq!(
            cm2.map(k),
            values[i],
            "after deserialize: map({}) mismatch",
            k
        );
    }
}

/// The data array is moved in chunks of `IO_CHUNK_WORDS`; sizes just below,
/// at, and just above a chunk boundary all have to round-trip.
#[test]
fn test_serialize_chunk_boundaries() {
    for n in [
        1usize,
        2,
        IO_CHUNK_WORDS - 1,
        IO_CHUNK_WORDS,
        IO_CHUNK_WORDS + 1,
    ] {
        let (keys, values) = build_data(n);
        let cm = ConstMap::new(&refs(&keys), &values).unwrap();

        let mut buf = Vec::new();
        let written = cm.write_to(&mut buf).unwrap();
        assert_eq!(written as usize, buf.len(), "n={}", n);

        let cm2 = ConstMap::read_from(&mut &buf[..]).unwrap();
        assert_eq!(cm2.data, cm.data, "n={}", n);
        for (i, k) in keys.iter().enumerate() {
            assert_eq!(cm2.map(k), values[i], "n={}: map({}) mismatch", n, k);
        }
    }
}

/// A reader that hands back one byte at a time still has to be read to
/// completion: a chunk need not arrive in one read.
#[test]
fn test_read_from_short_reads() {
    let (keys, values) = build_data(20_000);
    let cm = ConstMap::new(&refs(&keys), &values).unwrap();

    let mut buf = Vec::new();
    cm.write_to(&mut buf).unwrap();

    let mut r = OneByteAtATime(&buf[..]);
    let cm2 = ConstMap::read_from(&mut r).unwrap();
    assert_eq!(cm2.data, cm.data);
}

#[test]
fn test_read_from_truncated() {
    let (keys, values) = build_data(10_000);
    let cm = ConstMap::new(&refs(&keys), &values).unwrap();

    let mut buf = Vec::new();
    cm.write_to(&mut buf).unwrap();

    for cut in [0usize, 4, 8, 20, 24, buf.len() / 2, buf.len() - 1] {
        let err = ConstMap::read_from(&mut &buf[..cut]);
        assert!(err.is_err(), "truncating to {} bytes should fail", cut);
    }
}

#[test]
fn test_write_to_short_writer() {
    let (keys, values) = build_data(20_000);
    let cm = ConstMap::new(&refs(&keys), &values).unwrap();

    // Fails partway through the data array, not in the header.
    let mut w = ShortWriter { left: 1024 };
    assert!(cm.write_to(&mut w).is_err());
}

#[test]
fn test_serialize_corrupted() {
    let keys = vec!["apple", "banana", "cherry"];
    let values = vec![10u64, 20, 30];

    let cm = ConstMap::new(&keys, &values).unwrap();

    let mut buf = Vec::new();
    cm.write_to(&mut buf).unwrap();

    // Flip a byte in the middle.
    let mid = buf.len() / 2;
    buf[mid] ^= 0xff;

    assert!(ConstMap::read_from(&mut &buf[..]).is_err());
}

#[test]
fn test_serialize_empty() {
    let cm = ConstMap::new(&[], &[]).unwrap();

    let mut buf = Vec::new();
    cm.write_to(&mut buf).unwrap();

    let cm2 = ConstMap::read_from(&mut &buf[..]).unwrap();
    assert!(cm2.data.is_empty());
}

#[test]
fn test_verified_serialize_deserialize() {
    let keys = vec!["apple", "banana", "cherry", "date", "elderberry"];
    let values = vec![100u64, 200, 300, 400, 500];

    let vm = VerifiedConstMap::new(&keys, &values).unwrap();

    let mut buf = Vec::new();
    let written = vm.write_to(&mut buf).unwrap();
    assert_eq!(written as usize, buf.len());

    let vm2 = VerifiedConstMap::read_from(&mut &buf[..]).unwrap();

    for (i, &k) in keys.iter().enumerate() {
        assert_eq!(
            vm2.map(k),
            values[i],
            "after deserialize: map({}) mismatch",
            k
        );
    }
    for k in ["grape", "kiwi", "mango"] {
        assert_eq!(vm2.map(k), NOT_FOUND, "after deserialize: map({})", k);
    }
}

/// Both `u64` arrays must begin on a 64-bit boundary within the file.
#[test]
fn test_verified_serialize_alignment() {
    let (keys, values) = build_data(1000);
    let vm = VerifiedConstMap::new(&refs(&keys), &values).unwrap();

    let mut buf = Vec::new();
    vm.write_to(&mut buf).unwrap();

    assert_eq!(VERIFIED_HEADER_SIZE % 8, 0, "data must start aligned");
    let checks_offset = VERIFIED_HEADER_SIZE + 8 * vm.data.len() as u64;
    assert_eq!(checks_offset % 8, 0, "checks must start aligned");
    assert_eq!(
        buf.len() as u64,
        checks_offset + 8 * vm.data.len() as u64 + 8
    );

    // The padding word itself is zero.
    assert_eq!(&buf[28..32], &[0, 0, 0, 0]);
}

#[test]
fn test_verified_serialize_chunk_boundaries() {
    for n in [
        1usize,
        2,
        IO_CHUNK_WORDS - 1,
        IO_CHUNK_WORDS,
        IO_CHUNK_WORDS + 1,
    ] {
        let (keys, values) = build_data(n);
        let vm = VerifiedConstMap::new(&refs(&keys), &values).unwrap();

        let mut buf = Vec::new();
        let written = vm.write_to(&mut buf).unwrap();
        assert_eq!(written as usize, buf.len(), "n={}", n);

        let vm2 = VerifiedConstMap::read_from(&mut &buf[..]).unwrap();
        assert_eq!(vm2.data, vm.data, "n={}", n);
        assert_eq!(vm2.checks, vm.checks, "n={}", n);
    }
}

#[test]
fn test_verified_round_trip_lookups() {
    let (keys, values) = build_data(50_000);
    let vm = VerifiedConstMap::new(&refs(&keys), &values).unwrap();

    let mut buf = Vec::new();
    vm.write_to(&mut buf).unwrap();
    let vm2 = VerifiedConstMap::read_from(&mut &buf[..]).unwrap();

    for (i, k) in keys.iter().enumerate() {
        assert_eq!(vm2.map(k), values[i], "after load: map({}) mismatch", k);
    }
    for i in 0..1000 {
        let k = format!("missing-{}", i);
        assert_eq!(vm2.map(&k), NOT_FOUND, "after load: map({})", k);
    }
}

#[test]
fn test_verified_serialize_empty() {
    let vm = VerifiedConstMap::new(&[], &[]).unwrap();

    let mut buf = Vec::new();
    vm.write_to(&mut buf).unwrap();

    let vm2 = VerifiedConstMap::read_from(&mut &buf[..]).unwrap();
    assert!(vm2.data.is_empty());
    assert_eq!(vm2.map("anything"), NOT_FOUND);
}

#[test]
fn test_verified_read_from_short_reads() {
    let (keys, values) = build_data(20_000);
    let vm = VerifiedConstMap::new(&refs(&keys), &values).unwrap();

    let mut buf = Vec::new();
    vm.write_to(&mut buf).unwrap();

    let mut r = OneByteAtATime(&buf[..]);
    let vm2 = VerifiedConstMap::read_from(&mut r).unwrap();
    assert_eq!(vm2.data, vm.data);
    assert_eq!(vm2.checks, vm.checks);
}

#[test]
fn test_verified_read_from_truncated() {
    let (keys, values) = build_data(10_000);
    let vm = VerifiedConstMap::new(&refs(&keys), &values).unwrap();

    let mut buf = Vec::new();
    vm.write_to(&mut buf).unwrap();

    for cut in [0usize, 4, 8, 28, 32, buf.len() / 2, buf.len() - 1] {
        assert!(
            VerifiedConstMap::read_from(&mut &buf[..cut]).is_err(),
            "truncating to {} bytes should fail",
            cut
        );
    }
}

#[test]
fn test_verified_serialize_corrupted() {
    let (keys, values) = build_data(1000);
    let vm = VerifiedConstMap::new(&refs(&keys), &values).unwrap();

    let mut buf = Vec::new();
    vm.write_to(&mut buf).unwrap();

    // A flip in the checks array must be caught too, not just in data.
    let last = buf.len() - 16;
    buf[last] ^= 0xff;

    assert!(VerifiedConstMap::read_from(&mut &buf[..]).is_err());
}

#[test]
fn test_verified_write_to_short_writer() {
    let (keys, values) = build_data(20_000);
    let vm = VerifiedConstMap::new(&refs(&keys), &values).unwrap();

    let mut w = ShortWriter { left: 1024 };
    assert!(vm.write_to(&mut w).is_err());
}

#[test]
fn test_verified_mismatched_arrays() {
    let (keys, values) = build_data(100);
    let mut vm = VerifiedConstMap::new(&refs(&keys), &values).unwrap();
    vm.checks.pop();

    let mut buf = Vec::new();
    assert!(vm.write_to(&mut buf).is_err());
}

/// The two formats must not be interchangeable: each reader reports the
/// other's file rather than silently misinterpreting it.
#[test]
fn test_serialize_formats_are_distinct() {
    let (keys, values) = build_data(100);
    let cm = ConstMap::new(&refs(&keys), &values).unwrap();
    let vm = VerifiedConstMap::new(&refs(&keys), &values).unwrap();

    let mut cbuf = Vec::new();
    cm.write_to(&mut cbuf).unwrap();
    let mut vbuf = Vec::new();
    vm.write_to(&mut vbuf).unwrap();

    assert_eq!(&cbuf[..8], &MAGIC);
    assert_eq!(&vbuf[..8], &VERIFIED_MAGIC);
    assert_eq!(&MAGIC, b"CMAP0001");
    assert_eq!(&VERIFIED_MAGIC, b"VMAP0001");

    let err = told(VerifiedConstMap::read_from(&mut &cbuf[..]).err().unwrap()).message();
    assert!(err.contains("ConstMap file"), "unexpected error: {}", err);

    let err = told(ConstMap::read_from(&mut &vbuf[..]).err().unwrap()).message();
    assert!(
        err.contains("VerifiedConstMap file"),
        "unexpected error: {}",
        err
    );

    let err = told(ConstMap::read_from(&mut &b"NOTAMAP!12345678"[..]).err().unwrap()).message();
    assert!(err.contains("invalid magic"), "unexpected error: {}", err);
}

#[test]
fn the_whole_message_of_each_error() {
    let mut cbuf = Vec::new();
    let (keys, values) = build_data(3);
    let cm = ConstMap::new(&refs(&keys), &values).unwrap();
    cm.write_to(&mut cbuf).unwrap();
    let vm = VerifiedConstMap::new(&refs(&keys), &values).unwrap();
    let mut vbuf = Vec::new();
    vm.write_to(&mut vbuf).unwrap();

    let foreign = told(VerifiedConstMap::read_from(&mut &cbuf[..]).err().unwrap());
    assert_eq!(foreign, FormatError::Foreign(Kind::Plain));
    assert_eq!(
        foreign.message(),
        "constmap: this is a ConstMap file, use ConstMap::load_from_file"
    );
    let foreign = told(ConstMap::read_from(&mut &vbuf[..]).err().unwrap());
    assert_eq!(foreign, FormatError::Foreign(Kind::Verified));
    assert_eq!(
        foreign.message(),
        "constmap: this is a VerifiedConstMap file, use VerifiedConstMap::load_from_file"
    );
    let bad = told(VerifiedConstMap::read_from(&mut &b"NOTAMAP!"[..]).err().unwrap());
    assert_eq!(bad, FormatError::BadMagic);
    assert_eq!(bad.message(), "constmap: invalid magic bytes");

    let expected = checksum_of(&cbuf);
    let at = cbuf.len() - 8;
    cbuf[at..].copy_from_slice(&[0xef, 0, 0, 0, 0, 0, 0xcd, 0x0a]);
    let mismatch = told(ConstMap::read_from(&mut &cbuf[..]).err().unwrap());
    assert_eq!(
        mismatch,
        FormatError::ChecksumMismatch {
            got: 0x0acd0000000000ef,
            expected
        }
    );
    assert_eq!(
        mismatch.message(),
        format!(
            "constmap: checksum mismatch (got 0acd0000000000ef, expected {:016x})",
            expected
        )
    );

    let short = told(ConstMap::read_from(&mut &cbuf[..at + 7]).err().unwrap());
    assert_eq!(short, FormatError::UnexpectedEof(None));
    assert_eq!(short.message(), "failed to fill whole buffer");
    let short = told(VerifiedConstMap::read_from(&mut &vbuf[..31]).err().unwrap());
    assert_eq!(short, FormatError::UnexpectedEof(None));
    let n = vm.data.len();
    let short = told(VerifiedConstMap::read_from(&mut &vbuf[..32 + 8 * n + 3]).err().unwrap());
    assert_eq!(
        short,
        FormatError::UnexpectedEof(Some(Span {
            array: Array::Checks,
            from: 0,
            to: n
        }))
    );
    assert_eq!(
        short.message(),
        format!(
            "constmap: reading checks[0:{}]: failed to fill whole buffer",
            n
        )
    );
}

#[test]
fn the_chunk_that_breaks_off_is_named() {
    let (keys, values) = build_data(8193);
    let cm = ConstMap::new(&refs(&keys), &values).unwrap();
    let mut buf = Vec::new();
    cm.write_to(&mut buf).unwrap();
    assert_eq!(cm.data.len(), 10752);

    let said = |cut: usize| told(ConstMap::read_from(&mut &buf[..cut]).err().unwrap()).message();
    assert_eq!(
        said(28),
        "constmap: reading data[0:8192]: failed to fill whole buffer"
    );
    assert_eq!(
        said(28 + 8 * 8192 - 1),
        "constmap: reading data[0:8192]: failed to fill whole buffer"
    );
    assert_eq!(
        said(28 + 8 * 8192),
        "constmap: reading data[8192:10752]: failed to fill whole buffer"
    );
    assert_eq!(said(28 + 8 * 10752), "failed to fill whole buffer");
}

#[test]
fn every_cut_is_told() {
    let (keys, values) = build_data(5);
    let cm = ConstMap::new(&refs(&keys), &values).unwrap();
    let vm = VerifiedConstMap::new(&refs(&keys), &values).unwrap();
    let mut cbuf = Vec::new();
    let mut vbuf = Vec::new();
    cm.write_to(&mut cbuf).unwrap();
    vm.write_to(&mut vbuf).unwrap();
    for cut in 0..cbuf.len() {
        let e = told(ConstMap::read_from(&mut &cbuf[..cut]).err().unwrap());
        assert!(matches!(e, FormatError::UnexpectedEof(_)));
    }
    for cut in 0..vbuf.len() {
        let e = told(VerifiedConstMap::read_from(&mut &vbuf[..cut]).err().unwrap());
        assert!(matches!(e, FormatError::UnexpectedEof(_)));
    }
}

#[test]
fn every_changed_byte_is_told() {
    let (keys, values) = build_data(5);
    let cm = ConstMap::new(&refs(&keys), &values).unwrap();
    let vm = VerifiedConstMap::new(&refs(&keys), &values).unwrap();
    let mut cbuf = Vec::new();
    let mut vbuf = Vec::new();
    cm.write_to(&mut cbuf).unwrap();
    vm.write_to(&mut vbuf).unwrap();
    let expected = |i: usize, e: FormatError| {
        if i < 8 {
            assert!(matches!(e, FormatError::Foreign(_) | FormatError::BadMagic));
        } else if (24..28).contains(&i) {
            assert!(matches!(e, FormatError::UnexpectedEof(_)));
        } else {
            assert!(matches!(e, FormatError::ChecksumMismatch { .. }));
        }
    };
    for i in 0..cbuf.len() {
        let was = cbuf[i];
        cbuf[i] = was.wrapping_add(1);
        expected(i, told(ConstMap::read_from(&mut &cbuf[..]).err().unwrap()));
        cbuf[i] = was;
    }
    for i in 0..vbuf.len() {
        let was = vbuf[i];
        vbuf[i] = was.wrapping_add(1);
        expected(i, told(VerifiedConstMap::read_from(&mut &vbuf[..]).err().unwrap()));
        vbuf[i] = was;
    }
}

#[test]
fn what_follows_a_map_is_left_alone() {
    let (keys, values) = build_data(20);
    let cm = ConstMap::new(&refs(&keys), &values).unwrap();
    let vm = VerifiedConstMap::new(&refs(&keys), &values).unwrap();
    let mut buf: Vec<u8> = b"before".to_vec();
    let a = cm.write_to(&mut buf).unwrap();
    let b = vm.write_to(&mut buf).unwrap();
    buf.extend_from_slice(b"after");
    assert_eq!(buf.len() as u64, 6 + a + b + 5);
    let mut rest = &buf[6..];
    let cm2 = ConstMap::read_from(&mut rest).unwrap();
    let vm2 = VerifiedConstMap::read_from(&mut rest).unwrap();
    assert_eq!(rest, b"after");
    assert_eq!(cm2.map("key-19"), 133);
    assert_eq!(vm2.map("key-19"), 133);
    assert_eq!(vm2.map("key-20"), NOT_FOUND);
    assert_eq!(cm2.geometry.segment_length_mask, cm.geometry.segment_length_mask);
    assert_eq!(cm2.geometry.segment_count_length, cm.geometry.segment_count_length);
}

/// Maps whose keys fit at the first attempt: size, checksum of the plain and of the verified
/// file.
#[test]
fn files_of_maps_built_at_once() {
    for (n, plain, plain_len, verified, verified_len) in [
        (1usize, 0x8c3798089db9c0dcu64, 132u64, 0x948604c5f9400c32u64, 232u64),
        (2, 0xe9740a04371ef1bc, 132, 0x5ea7c0bc54218ace, 232),
        (5, 0x346b1cdde3f78a84, 228, 0xfbacd0049a8497b5, 424),
        (200, 0x69b530f0240bcb31, 2596, 0x2539f3aa7083fb47, 5160),
        (1000, 0xf7d6b8a350a1eef4, 11300, 0x0d0ac3c478a8bb04, 22568),
        (8193, 0x39a0eddc06c88398, 86052, 0x3f27fa1e1e708679, 172072),
        (50000, 0x50367794772f6fde, 491556, 0x21e862dbc454035a, 983080),
    ] {
        let (keys, values) = build_data(n);
        let mut buf = Vec::new();
        let cm = ConstMap::new(&refs(&keys), &values).unwrap();
        assert_eq!(cm.seed, 0x910a2dec89025cc1);
        assert_eq!(cm.write_to(&mut buf).unwrap(), plain_len);
        assert_eq!(checksum_of(&buf), plain, "n={}", n);
        buf.clear();
        let vm = VerifiedConstMap::new(&refs(&keys), &values).unwrap();
        assert_eq!(vm.write_to(&mut buf).unwrap(), verified_len);
        assert_eq!(checksum_of(&buf), verified, "n={}", n);
    }
}

/// Maps whose keys fit only after some attempts, two of them in segments of half the length.
#[test]
fn files_of_maps_built_after_some_attempts() {
    for (n, prefix, seed, segment_length, segment_count, plain, verified) in [
        (3u64, 25, 0xbeeb8da1658eec67u64, 8, 1, 0x9167aff3b103e1c9u64, 0xc8d451fd33c27deeu64),
        (5, 1602, 0xf893a2eefb32555e, 4, 4, 0x4ce635889582fedc, 0x5aa1b3f04f0e8aed),
        (5, 2009, 0xf893a2eefb32555e, 4, 4, 0x6dc8b396458ef960, 0x1346d38fdf653635),
        (8, 167, 0x71c18690ee42c90b, 8, 1, 0xc5cc3edb1ee9bf01, 0x8533f3b018b350e5),
        (6, 1255, 0xc34d0bff90150280, 8, 1, 0xfa5475d03d85d47e, 0x96566500ce57c5f5),
    ] {
        let keys: Vec<String> = (0..n).map(|i| format!("{}-{}", prefix, i)).collect();
        let values: Vec<u64> = (0..n).map(|i| 7 * i).collect();
        let mut buf = Vec::new();
        let cm = ConstMap::new(&refs(&keys), &values).unwrap();
        assert_eq!(cm.seed, seed);
        assert_eq!(cm.geometry.segment_length, segment_length);
        assert_eq!(cm.geometry.segment_count, segment_count);
        assert_eq!(cm.map_many(&keys), values);
        cm.write_to(&mut buf).unwrap();
        assert_eq!(checksum_of(&buf), plain);
        buf.clear();
        let vm = VerifiedConstMap::new(&refs(&keys), &values).unwrap();
        vm.write_to(&mut buf).unwrap();
        assert_eq!(checksum_of(&buf), verified);
    }
}

#[test]
fn a_sink_that_takes_little_gets_all() {
    let (keys, values) = build_data(50);
    let cm = ConstMap::new(&refs(&keys), &values).unwrap();
    let mut all = Vec::new();
    cm.write_to(&mut all).unwrap();
    let mut few = ThreeAtATime(Vec::new());
    assert_eq!(cm.write_to(&mut few).unwrap(), all.len() as u64);
    assert_eq!(few.0, all);
}

#[test]
fn a_sink_that_takes_nothing_is_told() {
    let cm = ConstMap::new(&["a"], &[1]).unwrap();
    assert!(matches!(cm.write_to(&mut Full), Err(WriteError::WriteZero)));
    let mut w = ShortWriter { left: 0 };
    assert!(matches!(
        cm.write_to(&mut w),
        Err(WriteError::Sink("no space left"))
    ));
    let vm = VerifiedConstMap::new(&["a"], &[1]).unwrap();
    assert!(matches!(
        vm.write_to(&mut Full),
        Err(VerifiedWriteError::Write(WriteError::WriteZero))
    ));
}

#[test]
fn unequal_arrays_are_put_in_words() {
    let (keys, values) = build_data(100);
    let mut vm = VerifiedConstMap::new(&refs(&keys), &values).unwrap();
    vm.checks.pop();
    let n = vm.data.len();
    let mut buf = Vec::new();
    match vm.write_to(&mut buf) {
        Err(VerifiedWriteError::Lengths(e)) => {
            assert_eq!(
                e,
                LengthMismatch {
                    data: n,
                    checks: n - 1
                }
            );
            assert_eq!(
                e.message(),
                format!("constmap: {} data words but {} check words", n, n - 1)
            );
        }
        _ => panic!("the arrays are of different lengths"),
    }
    assert!(buf.is_empty());
}

#[test]
fn a_source_that_fails_is_told() {
    let (keys, values) = build_data(5);
    let cm = ConstMap::new(&refs(&keys), &values).unwrap();
    let mut buf = Vec::new();
    cm.write_to(&mut buf).unwrap();
    let mut r = FailsAfter(&buf[..40]);
    match ConstMap::read_from(&mut r) {
        Err(ReadError::Source { error, at }) => {
            assert_eq!(error, "gone");
            let span = at.unwrap();
            assert_eq!(span.message(), "constmap: reading data[0:24]: ");
        }
        _ => panic!("the source fails"),
    }
    let mut r = FailsAfter(&buf[..10]);
    assert!(matches!(
        ConstMap::read_from(&mut r),
        Err(ReadError::Source {
            error: "gone",
            at: None
        })
    ));
}

/// The header goes a field at a time, the arrays in chunks, and the checksum last.
#[test]
fn the_calls_on_a_writer_and_a_reader() {
    let (keys, values) = build_data(8193);
    let cm = ConstMap::new(&refs(&keys), &values).unwrap();
    let vm = VerifiedConstMap::new(&refs(&keys), &values).unwrap();
    assert_eq!(cm.data.len(), 10752);
    let plain = vec![8usize, 8, 4, 4, 4, 65536, 8 * 2560, 8];
    let verified = vec![8usize, 8, 4, 4, 4, 4, 65536, 8 * 2560, 65536, 8 * 2560, 8];

    let mut w = Recorder::new(Vec::new());
    cm.write_to(&mut w).unwrap();
    assert_eq!(w.lengths, plain);
    let mut r = Recorder::new(&w.inner[..]);
    ConstMap::read_from(&mut r).ok().unwrap();
    assert_eq!(r.lengths, plain);
    let mut r = Recorder::new(&w.inner[..]);
    VerifiedConstMap::read_from(&mut r).err().unwrap();
    assert_eq!(r.lengths, vec![8]);
    let mut r = Recorder::new(&w.inner[..28 + 65536 + 100]);
    ConstMap::read_from(&mut r).err().unwrap();
    assert_eq!(r.lengths, vec![8, 8, 4, 4, 4, 65536, 8 * 2560, 8 * 2560 - 100]);
    let mut r = Recorder::new(&w.inner[..18]);
    ConstMap::read_from(&mut r).err().unwrap();
    assert_eq!(r.lengths, vec![8, 8, 4, 2]);
    let mut r = Recorder::new(&w.inner[..16]);
    ConstMap::read_from(&mut r).err().unwrap();
    assert_eq!(r.lengths, vec![8, 8, 4]);

    let mut w = Recorder::new(Vec::new());
    vm.write_to(&mut w).unwrap();
    assert_eq!(w.lengths, verified);
    let mut r = Recorder::new(&w.inner[..]);
    VerifiedConstMap::read_from(&mut r).ok().unwrap();
    assert_eq!(r.lengths, verified);

    let empty = ConstMap::new(&[], &[]).unwrap();
    let mut w = Recorder::new(Vec::new());
    empty.write_to(&mut w).unwrap();
    assert_eq!(w.lengths, vec![8, 8, 4, 4, 4, 8]);
}

/// Behind the call that fails no other is made, and the bytes before it have been moved.
#[test]
fn no_call_follows_one_that_fails() {
    let (keys, values) = build_data(8193);
    let cm = ConstMap::new(&refs(&keys), &values).unwrap();
    let vm = VerifiedConstMap::new(&refs(&keys), &values).unwrap();
    let mut plain = Recorder::new(Vec::new());
    cm.write_to(&mut plain).unwrap();
    let mut verified = Recorder::new(Vec::new());
    vm.write_to(&mut verified).unwrap();
    assert_eq!((plain.lengths.len(), verified.lengths.len()), (8, 11));

    for j in 1..=plain.lengths.len() {
        let moved: usize = plain.lengths[..j - 1].iter().sum();
        let mut w = Recorder::new(WholeUntil { left: j - 1, taken: Vec::new() });
        assert!(matches!(cm.write_to(&mut w), Err(WriteError::Sink("broken"))));
        assert_eq!(w.lengths, plain.lengths[..j]);
        assert_eq!(w.inner.taken, plain.inner[..moved]);
        let mut r = Recorder::new(FailsAfter(&plain.inner[..moved]));
        assert!(matches!(
            ConstMap::read_from(&mut r),
            Err(ReadError::Source { error: "gone", .. })
        ));
        assert_eq!(r.lengths, plain.lengths[..j]);
    }
    for j in 1..=verified.lengths.len() {
        let moved: usize = verified.lengths[..j - 1].iter().sum();
        let mut w = Recorder::new(WholeUntil { left: j - 1, taken: Vec::new() });
        assert!(matches!(
            vm.write_to(&mut w),
            Err(VerifiedWriteError::Write(WriteError::Sink("broken")))
        ));
        assert_eq!(w.lengths, verified.lengths[..j]);
        assert_eq!(w.inner.taken, verified.inner[..moved]);
        let mut r = Recorder::new(FailsAfter(&verified.inner[..moved]));
        assert!(matches!(
            VerifiedConstMap::read_from(&mut r),
            Err(ReadError::Source { error: "gone", .. })
        ));
        assert_eq!(r.lengths, verified.lengths[..j]);
    }

    let mut r = Recorder::new(FailsAfter(&plain.inner[..18]));
    assert!(ConstMap::read_from(&mut r).is_err());
    assert_eq!(r.lengths, vec![8, 8, 4, 2]);
}

/// Whether the writer fails or stops taking anything is told apart, wherever it happens.
#[test]
fn the_error_is_that_of_the_last_call() {
    let (keys, values) = build_data(5);
    let cm = ConstMap::new(&refs(&keys), &values).unwrap();
    let mut all = Vec::new();
    cm.write_to(&mut all).unwrap();
    for left in 0..all.len() {
        let mut w = Recorder::new(ShortWriter { left });
        assert!(matches!(
            cm.write_to(&mut w),
            Err(WriteError::Sink("no space left"))
        ));
        let mut w = FillsUp { left, taken: Vec::new() };
        assert!(matches!(cm.write_to(&mut w), Err(WriteError::WriteZero)));
        assert_eq!(w.taken, all[..left]);
    }
}

#[test]
fn what_is_read_is_written_again() {
    let (keys, values) = build_data(300);
    let cm = ConstMap::new(&refs(&keys), &values).unwrap();
    let vm = VerifiedConstMap::new(&refs(&keys), &values).unwrap();
    let (mut cbuf, mut vbuf) = (Vec::new(), Vec::new());
    cm.write_to(&mut cbuf).unwrap();
    vm.write_to(&mut vbuf).unwrap();
    let (mut cbuf2, mut vbuf2) = (Vec::new(), Vec::new());
    let cm2 = ConstMap::read_from(&mut &cbuf[..]).ok().unwrap();
    cm2.write_to(&mut cbuf2).unwrap();
    let vm2 = VerifiedConstMap::read_from(&mut &vbuf[..]).ok().unwrap();
    vm2.write_to(&mut vbuf2).unwrap();
    assert_eq!(cbuf2, cbuf);
    assert_eq!(vbuf2, vbuf);
}

/// A reader that returns at most one byte per call.
struct OneByteAtATime<'a>(&'a [u8]);

impl Source for OneByteAtATime<'_> {
    type Error = ();

    fn read(&mut self, buf: &mut [u8]) -> Result<usize, ()> {
        if buf.is_empty() || self.0.is_empty() {
            return Ok(0);
        }
        buf[0] = self.0[0];
        self.0 = &self.0[1..];
        Ok(1)
    }
}

/// A reader that fails where its bytes end.
struct FailsAfter<'a>(&'a [u8]);

impl Source for FailsAfter<'_> {
    type Error = &'static str;

    fn read(&mut self, buf: &mut [u8]) -> Result<usize, &'static str> {
        if self.0.is_empty() {
            return Err("gone");
        }
        let n = buf.len().min(self.0.len());
        buf[..n].copy_from_slice(&self.0[..n]);
        self.0 = &self.0[n..];
        Ok(n)
    }
}

/// A writer that accepts a fixed number of bytes and then fails.
struct ShortWriter {
    left: usize,
}

impl Sink for ShortWriter {
    type Error = &'static str;

    fn write(&mut self, buf: &[u8]) -> Result<usize, &'static str> {
        if self.left == 0 {
            return Err("no space left");
        }
        let n = buf.len().min(self.left);
        self.left -= n;
        Ok(n)
    }
}

/// A writer that accepts three bytes per call.
struct ThreeAtATime(Vec<u8>);

impl Sink for ThreeAtATime {
    type Error = ();

    fn write(&mut self, buf: &[u8]) -> Result<usize, ()> {
        let n = buf.len().min(3);
        self.0.extend_from_slice(&buf[..n]);
        Ok(n)
    }
}

/// A writer that accepts nothing.
struct Full;

impl Sink for Full {
    type Error = ();

    fn write(&mut self, _buf: &[u8]) -> Result<usize, ()> {
        Ok(0)
    }
}

/// A writer that accepts whole buffers, a fixed number of them, and then fails.
struct WholeUntil {
    left: usize,
    taken: Vec<u8>,
}

impl Sink for WholeUntil {
    type Error = &'static str;

    fn write(&mut self, buf: &[u8]) -> Result<usize, &'static str> {
        if self.left == 0 {
            return Err("broken");
        }
        self.left -= 1;
        self.taken.extend_from_slice(buf);
        Ok(buf.len())
    }
}

/// A writer that accepts a fixed number of bytes and then nothing.
struct FillsUp {
    left: usize,
    taken: Vec<u8>,
}

impl Sink for FillsUp {
    type Error = ();

    fn write(&mut self, buf: &[u8]) -> Result<usize, ()> {
        let n = buf.len().min(self.left);
        self.left -= n;
        self.taken.extend_from_slice(&buf[..n]);
        Ok(n)
    }
}
