use h264_rbsp::{decode_nal, ByteReader, CollectingHandler, FillStep, NalHandler, RbspDecoder};
use std::borrow::Cow;
use std::io::BufRead;
use std::io::Read;

const ESCAPED: [u8; 25] = [
    0x67, 0x64, 0x00, 0x0A, 0xAC, 0x72, 0x84, 0x44, 0x26, 0x84, 0x00, 0x00, 0x03, 0x00, 0x04,
    0x00, 0x00, 0x03, 0x00, 0xCA, 0x3C, 0x48, 0x96, 0x11, 0x80,
];

/// Runs a pull-style decoder over a buffered source to its end.
fn pull_all<R: BufRead>(mut inner: R) -> Vec<u8> {
    let mut r = ByteReader::new();
    let mut rbsp = Vec::new();
    loop {
        if r.available() == 0 {
            let chunk = inner.fill_buf().unwrap();
            match r.fill_buf(chunk) {
                FillStep::End => break,
                FillStep::DropOne => inner.consume(1),
                FillStep::Scanned => {}
            }
        } else {
            let n = r.available();
            rbsp.extend_from_slice(&inner.fill_buf().unwrap()[..n]);
            inner.consume(n);
            r.consume(n);
        }
    }
    rbsp
}

fn push_all(chunks: &[&[u8]]) -> Vec<u8> {
    let mut r = RbspDecoder::new(CollectingHandler::new());
    for c in chunks {
        r.push(c);
    }
    r.into_handler().data().to_vec()
}

#[test]
fn push_decoder() {
    let data = ESCAPED;
    for i in 1..data.len() - 1 {
        let mut r = RbspDecoder::new(CollectingHandler::new());
        let (head, tail) = data.split_at(i);
        r.push(head);
        r.push(tail);
        let expected = [
            0x67, 0x64, 0x00, 0x0A, 0xAC, 0x72, 0x84, 0x44, 0x26, 0x84, 0x00, 0x00, 0x00, 0x04,
            0x00, 0x00, 0x00, 0xCA, 0x3C, 0x48, 0x96, 0x11, 0x80,
        ];
        assert_eq!(r.handler_ref().data(), &expected[..], "on split_at({})", i);
    }
}

#[test]
fn byte_reader() {
    let data = ESCAPED;
    for i in 1..data.len() - 1 {
        let (head, tail) = data.split_at(i);
        let r = head.chain(tail);
        let rbsp = pull_all(r);
        let expected = [
            0x64, 0x00, 0x0A, 0xAC, 0x72, 0x84, 0x44, 0x26, 0x84, 0x00, 0x00, 0x00, 0x04, 0x00,
            0x00, 0x00, 0xCA, 0x3C, 0x48, 0x96, 0x11, 0x80,
        ];
        assert!(
            rbsp == &expected[..],
            "Mismatch with on split_at({}):\nrbsp     {:02x?}\nexpected {:02x?}",
            i,
            rbsp,
            expected
        );
    }
}

#[test]
fn decode_single_nal() {
    let data = [
        0x67, 0x42, 0xc0, 0x15, 0xd9, 0x01, 0x41, 0xfb, 0x01, 0x6a, 0x0c, 0x02, 0x0b, 0x4a, 0x00,
        0x00, 0x03, 0x00, 0x02, 0x00, 0x00, 0x03, 0x00, 0x79, 0x1e, 0x2c, 0x5c, 0x90,
    ];
    let expected = [
        0x67, 0x42, 0xc0, 0x15, 0xd9, 0x01, 0x41, 0xfb, 0x01, 0x6a, 0x0c, 0x02, 0x0b, 0x4a, 0x00,
        0x00, 0x00, 0x02, 0x00, 0x00, 0x00, 0x79, 0x1e, 0x2c, 0x5c, 0x90,
    ];

    let decoded = decode_nal(&data);

    assert_eq!(decoded, &expected[..]);
    assert!(matches!(decoded, Cow::Owned(..)));
}

#[test]
fn decode_single_nal_no_emulation() {
    let data = [
        0x64, 0x00, 0x0A, 0xAC, 0x72, 0x84, 0x44, 0x26, 0x84, 0x00, 0x00, 0x00, 0x04, 0x00, 0x00,
        0x00, 0xCA, 0x3C, 0x48, 0x96, 0x11, 0x80,
    ];
    let expected = data;

    let decoded = decode_nal(&data);

    assert_eq!(decoded, &expected[..]);
    assert!(matches!(decoded, Cow::Borrowed(..)));
}

#[test]
fn push_whole_unit_matches_every_split() {
    let whole = push_all(&[&ESCAPED[..]]);
    for i in 0..=ESCAPED.len() {
        let (head, tail) = ESCAPED.split_at(i);
        assert_eq!(push_all(&[head, tail]), whole, "on split_at({})", i);
    }
    for i in 0..=ESCAPED.len() {
        for j in i..=ESCAPED.len() {
            let parts = [&ESCAPED[..i], &ESCAPED[i..j], &ESCAPED[j..]];
            assert_eq!(push_all(&parts), whole, "on split at {} and {}", i, j);
        }
    }
}

#[test]
fn pull_one_byte_at_a_time() {
    let reader = std::io::BufReader::with_capacity(1, &ESCAPED[..]);
    let expected = [
        0x64, 0x00, 0x0A, 0xAC, 0x72, 0x84, 0x44, 0x26, 0x84, 0x00, 0x00, 0x00, 0x04, 0x00, 0x00,
        0x00, 0xCA, 0x3C, 0x48, 0x96, 0x11, 0x80,
    ];
    assert_eq!(pull_all(reader), expected.to_vec());
}

#[test]
fn pull_matches_push_without_header() {
    for i in 0..=ESCAPED.len() {
        let (head, tail) = ESCAPED.split_at(i);
        let pulled = pull_all(head.chain(tail));
        assert_eq!(pulled, push_all(&[&ESCAPED[1..]]), "on split_at({})", i);
    }
}

#[test]
fn pull_empty_source() {
    assert_eq!(pull_all(&[][..]), Vec::<u8>::new());
    assert_eq!(pull_all(&[0x65][..]), Vec::<u8>::new());
}

#[test]
fn escape_at_chunk_start_is_dropped() {
    // the `03` is the first byte of the second chunk
    assert_eq!(push_all(&[&[0x00, 0x00], &[0x03, 0x01]]), vec![0x00, 0x00, 0x01]);
    assert_eq!(push_all(&[&[0x00], &[0x00, 0x03], &[0x03]]), vec![0x00, 0x00, 0x03]);
}

#[test]
fn three_zero_bytes_resynchronise() {
    // `00 00 00` is not a valid escaped sequence: the scan starts over, so
    // the `03` that follows is kept
    assert_eq!(push_all(&[&[0x00, 0x00, 0x00, 0x03, 0x01]]), vec![0x00, 0x00, 0x00, 0x03, 0x01]);
    // `00 00 XX` with XX other than 0 and 3 simply resumes
    assert_eq!(push_all(&[&[0x00, 0x00, 0x01, 0x00, 0x00, 0x03, 0x02]]), vec![
        0x00, 0x00, 0x01, 0x00, 0x00, 0x02,
    ]);
}

#[test]
fn escape_byte_after_escape() {
    // `00 00 03 03`: the first `03` is the escape, the second is data
    assert_eq!(push_all(&[&[0x00, 0x00, 0x03, 0x03]]), vec![0x00, 0x00, 0x03]);
}

#[test]
fn decode_nal_trailing_escape_is_owned() {
    let data = [0x11, 0x00, 0x00, 0x03];
    let decoded = decode_nal(&data);
    assert_eq!(decoded, &[0x11, 0x00, 0x00][..]);
    assert!(matches!(decoded, Cow::Owned(..)));
    let data = [0x00, 0x00, 0x03, 0x03, 0x03];
    let decoded = decode_nal(&data);
    assert_eq!(decoded, &[0x00, 0x00, 0x03, 0x03][..]);
    assert!(matches!(decoded, Cow::Owned(..)));
}

#[test]
fn pull_escape_then_three() {
    // `00 00 03 01` after the header reads as `00 00 01`; `00 00 03 03`
    // keeps the second `03`
    assert_eq!(pull_all(&[0x65, 0x00, 0x00, 0x03, 0x01][..]), vec![0x00, 0x00, 0x01]);
    assert_eq!(pull_all(&[0x65, 0x00, 0x00, 0x03, 0x03][..]), vec![0x00, 0x00, 0x03]);
}

#[test]
fn pull_steps_are_exact() {
    let mut r = ByteReader::new();
    // the header is dropped first
    assert_eq!(r.fill_buf(&[0x65, 0x00]), FillStep::DropOne);
    // then the longest run before the escape byte is confirmed
    assert_eq!(r.fill_buf(&[0x00, 0x00, 0x03, 0x01]), FillStep::Scanned);
    assert_eq!(r.available(), 2);
    r.consume(2);
    // the escape byte is dropped, and the rest is confirmed whole
    assert_eq!(r.fill_buf(&[0x03, 0x01]), FillStep::DropOne);
    assert_eq!(r.fill_buf(&[0x01]), FillStep::Scanned);
    assert_eq!(r.available(), 1);
    r.consume(1);
    assert_eq!(r.fill_buf(&[]), FillStep::End);
}

#[test]
fn decode_nal_empty() {
    let decoded = decode_nal(&[]);
    assert_eq!(decoded.len(), 0);
    assert!(matches!(decoded, Cow::Borrowed(..)));
}

#[test]
fn decode_nal_matches_push() {
    let decoded = decode_nal(&ESCAPED);
    assert_eq!(decoded.to_vec(), push_all(&[&ESCAPED[..]]));
    assert!(matches!(decoded, Cow::Owned(..)));
    assert_eq!(decoded.len(), ESCAPED.len() - 2);
}

#[test]
fn collecting_handler_lifecycle() {
    let mut r = RbspDecoder::new(CollectingHandler::new());
    r.start(0x67);
    r.push(&[0x01, 0x00, 0x00]);
    r.push(&[0x03, 0x02]);
    r.end();
    let h = r.into_handler();
    assert!(h.started());
    assert!(h.ended());
    assert_eq!(h.data(), &[0x01, 0x00, 0x00, 0x02][..]);
}

#[test]
fn start_resets_the_scan() {
    let mut r = RbspDecoder::new(CollectingHandler::new());
    r.push(&[0x00, 0x00]);
    r.start(0x67);
    // a new unit: the earlier zeros do not make this `03` an escape
    r.push(&[0x03]);
    assert_eq!(r.handler_ref().data(), &[0x00, 0x00, 0x03][..]);
}

#[test]
fn std_read_chain_is_unchanged() {
    // the source a pull decoder reads is left where the caller put it
    let mut src = &ESCAPED[..];
    let _ = pull_all(&mut src);
    let mut rest = Vec::new();
    src.read_to_end(&mut rest).unwrap();
    assert!(rest.is_empty());
}

#[test]
fn three_zero_bytes_are_counted() {
    let mut r = RbspDecoder::new(CollectingHandler::new());
    r.push(&[0x00, 0x00, 0x00, 0x03, 0x01]);
    assert_eq!(r.anomaly_count(), 1);
    // a sequence split across pushes is still counted
    r.push(&[0x00, 0x00]);
    r.push(&[0x00, 0x00, 0x00, 0x00]);
    assert_eq!(r.anomaly_count(), 3);
    // an escape is no anomaly
    r.push(&[0x05, 0x00, 0x00, 0x03, 0x00]);
    assert_eq!(r.anomaly_count(), 3);

    let mut p = ByteReader::new();
    assert_eq!(p.fill_buf(&[0x65]), FillStep::DropOne);
    assert_eq!(p.fill_buf(&[0x00, 0x00, 0x00, 0x00, 0x00, 0x00]), FillStep::Scanned);
    assert_eq!(p.anomaly_count(), 2);
}
