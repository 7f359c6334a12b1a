use bytes::BytesMut;
use mononoke_core::buffer::{buffer_len, drain_i32_be, peek_i32_be, peek_u32_be};
use mononoke_core::part_header::decode_header;
use mononoke_core::{
    get_decompressor_type, CompressionType, DecodeFault, ErrorKind, OuterDecoder, OuterFrame,
    OuterState, PartHeaderType,
};

fn header_bytes(name: &[u8], id: u32, mparams: &[(&[u8], &[u8])], aparams: &[(&[u8], &[u8])]) -> Vec<u8> {
    let mut h = vec![name.len() as u8];
    h.extend_from_slice(name);
    h.extend_from_slice(&id.to_be_bytes());
    h.push(mparams.len() as u8);
    h.push(aparams.len() as u8);
    for (k, v) in mparams.iter().chain(aparams.iter()) {
        h.push(k.len() as u8);
        h.extend_from_slice(&(v.len() as u32).to_be_bytes());
    }
    for (k, v) in mparams.iter().chain(aparams.iter()) {
        h.extend_from_slice(k);
        h.extend_from_slice(v);
    }
    h
}

fn framed_header(h: &[u8]) -> Vec<u8> {
    let mut out = (h.len() as u32).to_be_bytes().to_vec();
    out.extend_from_slice(h);
    out
}

fn chunk(data: &[u8]) -> Vec<u8> {
    let mut out = (data.len() as i32).to_be_bytes().to_vec();
    out.extend_from_slice(data);
    out
}

/// Calls the decoder until it asks for more data, collecting what it yields.
fn drain(dec: &mut OuterDecoder, buf: &mut BytesMut, limit: usize) -> Vec<Result<OuterFrame, ErrorKind>> {
    let mut out = Vec::new();
    for _ in 0..limit {
        match dec.decode(buf) {
            Ok(None) => break,
            Ok(Some(f)) => out.push(Ok(f)),
            Err(e) => out.push(Err(e)),
        }
    }
    out
}

fn describe(ev: &Result<OuterFrame, ErrorKind>) -> String {
    match ev {
        Ok(OuterFrame::Header(h)) => format!("header {:?} {}", h.part_type, h.part_id),
        Ok(OuterFrame::Payload { part_type, part_id, payload }) => {
            format!("payload {:?} {} {:?}", part_type, part_id, &payload[..])
        }
        Ok(OuterFrame::PartEnd { part_type, part_id }) => format!("end {:?} {}", part_type, part_id),
        Ok(OuterFrame::PartInterrupted { part_type, part_id }) => {
            format!("interrupted {:?} {}", part_type, part_id)
        }
        Ok(OuterFrame::Discard) => "discard".to_string(),
        Ok(OuterFrame::StreamEnd) => "streamend".to_string(),
        Err(e) => format!("error {:?}", e),
    }
}

fn s3_stream() -> Vec<u8> {
    let mut s = framed_header(&header_bytes(b"changegroup", 1, &[], &[]));
    s.extend(chunk(b"abc"));
    s.extend(chunk(b"defgh"));
    s.extend(chunk(b""));
    s.extend_from_slice(&[0, 0, 0, 0]);
    s
}

#[test]
fn empty_stream_ends() {
    let mut dec = OuterDecoder::new();
    let mut buf = BytesMut::from(&[0u8, 0, 0, 0][..]);
    let frames = drain(&mut dec, &mut buf, 1);
    assert_eq!(frames.len(), 1);
    assert!(matches!(frames[0], Ok(OuterFrame::StreamEnd)));
    assert_eq!(dec.current_state(), OuterState::StreamEnd);
    assert!(buf.is_empty());
}

#[test]
fn advisory_unknown_part_is_discarded() {
    // Header of type "x", id 7, no parameters: eight bytes.
    let mut bytes = vec![0u8, 0, 0, 8, 1, b'x', 0, 0, 0, 7, 0, 0];
    bytes.extend_from_slice(&[0, 0, 0, 0]);
    bytes.extend_from_slice(&[0, 0, 0, 0]);
    let mut dec = OuterDecoder::new();
    let mut buf = BytesMut::from(&bytes[..]);
    let frames: Vec<String> = drain(&mut dec, &mut buf, 3).iter().map(describe).collect();
    assert_eq!(frames, vec!["discard", "discard", "streamend"]);
}

#[test]
fn known_part_with_two_chunks() {
    let mut dec = OuterDecoder::new();
    let mut buf = BytesMut::from(&s3_stream()[..]);
    let frames: Vec<String> = drain(&mut dec, &mut buf, 5).iter().map(describe).collect();
    assert_eq!(
        frames,
        vec![
            "header Changegroup 1",
            "payload Changegroup 1 [97, 98, 99]",
            "payload Changegroup 1 [100, 101, 102, 103, 104]",
            "end Changegroup 1",
            "streamend",
        ]
    );
}

#[test]
fn payload_frame_carries_bytes() {
    let mut dec = OuterDecoder::new();
    let mut buf = BytesMut::from(&s3_stream()[..]);
    let _ = dec.decode(&mut buf).unwrap();
    let f = dec.decode(&mut buf).unwrap().unwrap();
    assert!(f.is_payload());
    assert_eq!(&f.get_payload()[..], b"abc");
}

#[test]
fn unknown_mandatory_part_then_resync() {
    let mut bytes = framed_header(&header_bytes(b"X", 3, &[], &[]));
    bytes.extend(chunk(b""));
    let mut dec = OuterDecoder::new();
    let mut buf = BytesMut::from(&bytes[..]);
    assert!(matches!(dec.decode(&mut buf), Err(ErrorKind::UnknownMandatoryPart)));
    assert_eq!(dec.current_state(), OuterState::DiscardPayload);
    assert!(matches!(dec.decode(&mut buf), Ok(Some(OuterFrame::Discard))));
    assert_eq!(dec.current_state(), OuterState::Header);
}

#[test]
fn byte_by_byte_feeding_matches_whole() {
    let stream = s3_stream();
    let mut whole_dec = OuterDecoder::new();
    let mut whole = BytesMut::from(&stream[..]);
    let expected: Vec<String> = drain(&mut whole_dec, &mut whole, 5).iter().map(describe).collect();

    let mut dec = OuterDecoder::new();
    let mut buf = BytesMut::new();
    let mut got = Vec::new();
    for b in &stream {
        buf.extend_from_slice(&[*b]);
        let mut evs: Vec<String> = drain(&mut dec, &mut buf, 5).iter().map(describe).collect();
        got.append(&mut evs);
        if got.len() >= expected.len() {
            break;
        }
    }
    // After the end of the stream the decoder keeps reporting it.
    got.truncate(expected.len());
    assert_eq!(got, expected);
}

#[test]
fn stream_end_repeats_whatever_follows() {
    let mut dec = OuterDecoder::new();
    let mut buf = BytesMut::from(&[0u8, 0, 0, 0, 9, 9, 9][..]);
    assert!(matches!(dec.decode(&mut buf), Ok(Some(OuterFrame::StreamEnd))));
    for _ in 0..3 {
        assert!(matches!(dec.decode(&mut buf), Ok(Some(OuterFrame::StreamEnd))));
    }
    assert_eq!(&buf[..], &[9u8, 9, 9][..]);
}

#[test]
fn corrupt_chunk_length_poisons_decoder() {
    let mut bytes = framed_header(&header_bytes(b"listkeys", 2, &[], &[]));
    bytes.extend_from_slice(&(-5i32).to_be_bytes());
    let mut dec = OuterDecoder::new();
    let mut buf = BytesMut::from(&bytes[..]);
    assert!(matches!(dec.decode(&mut buf), Ok(Some(OuterFrame::Header(_)))));
    assert!(matches!(
        dec.decode(&mut buf),
        Err(ErrorKind::Bundle2Decode(DecodeFault::BadChunkLength))
    ));
    assert_eq!(dec.current_state(), OuterState::Invalid);
    buf.extend_from_slice(&[0, 0, 0, 0]);
    for _ in 0..2 {
        assert!(matches!(
            dec.decode(&mut buf),
            Err(ErrorKind::Bundle2Decode(DecodeFault::StreamCorrupt))
        ));
    }
}

#[test]
fn interrupt_marker_is_reported() {
    let mut bytes = framed_header(&header_bytes(b"pushkey", 4, &[], &[]));
    bytes.extend_from_slice(&(-1i32).to_be_bytes());
    let mut dec = OuterDecoder::new();
    let mut buf = BytesMut::from(&bytes[..]);
    let _ = dec.decode(&mut buf).unwrap();
    match dec.decode(&mut buf) {
        Ok(Some(OuterFrame::PartInterrupted { part_type, part_id })) => {
            assert_eq!(part_type, PartHeaderType::Pushkey);
            assert_eq!(part_id, 4);
        }
        other => panic!("unexpected {:?}", other),
    }
    assert!(buf.is_empty());
}

#[test]
fn incomplete_input_asks_for_more() {
    let stream = s3_stream();
    let mut dec = OuterDecoder::new();
    let mut buf = BytesMut::from(&stream[..6]);
    assert!(matches!(dec.decode(&mut buf), Ok(None)));
    assert_eq!(&buf[..], &stream[..6]);
    assert_eq!(dec.current_state(), OuterState::Header);
    let mut buf = BytesMut::from(&[0u8, 0][..]);
    assert!(matches!(dec.decode(&mut buf), Ok(None)));
}

#[test]
fn duplicate_param_key_is_an_app_error() {
    let h = header_bytes(b"replycaps", 1, &[(b"k", b"1"), (b"k", b"2")], &[]);
    let mut bytes = framed_header(&h);
    bytes.extend(chunk(b""));
    let mut dec = OuterDecoder::new();
    let mut buf = BytesMut::from(&bytes[..]);
    assert!(matches!(dec.decode(&mut buf), Err(ErrorKind::DuplicateParamKey)));
    assert_eq!(dec.current_state(), OuterState::DiscardPayload);
    assert!(matches!(dec.decode(&mut buf), Ok(Some(OuterFrame::Discard))));
}

#[test]
fn same_key_in_both_groups_is_accepted() {
    let h = header_bytes(b"Pushvars", 9, &[(b"k", b"m")], &[(b"k", b"aa")]);
    let r = decode_header(&h, 100).unwrap().unwrap();
    assert_eq!(r.part_type, PartHeaderType::Pushvars);
    assert!(r.mandatory);
    assert_eq!(r.part_id, 9);
    assert_eq!(r.mparams, vec![(b"k".to_vec(), b"m".to_vec())]);
    assert_eq!(r.aparams, vec![(b"k".to_vec(), b"aa".to_vec())]);
}

#[test]
fn bad_type_name_is_refused() {
    let h = header_bytes(b"x1", 1, &[], &[]);
    assert!(matches!(decode_header(&h, 100), Err(ErrorKind::InvalidPartType)));
    let h = header_bytes(b"", 1, &[], &[]);
    assert!(matches!(decode_header(&h, 100), Err(ErrorKind::InvalidPartType)));
}

#[test]
fn truncated_and_trailing_headers_are_framing_errors() {
    let h = vec![5u8, b'a', b'b'];
    assert!(matches!(
        decode_header(&h, 100),
        Err(ErrorKind::Bundle2Decode(DecodeFault::TruncatedHeader))
    ));
    let mut h = header_bytes(b"listkeys", 1, &[], &[]);
    h.push(0);
    assert!(matches!(
        decode_header(&h, 100),
        Err(ErrorKind::Bundle2Decode(DecodeFault::TrailingHeaderBytes))
    ));
    let mut dec = OuterDecoder::new();
    let mut buf = BytesMut::from(&framed_header(&[5u8, b'a', b'b'])[..]);
    assert!(dec.decode(&mut buf).is_err());
    assert_eq!(dec.current_state(), OuterState::Invalid);
}

#[test]
fn oversize_param_value_is_refused() {
    let h = header_bytes(b"listkeys", 1, &[], &[(b"k", b"abc")]);
    let mut dec = OuterDecoder::with_value_cap(2);
    let mut buf = BytesMut::from(&framed_header(&h)[..]);
    assert!(matches!(
        dec.decode(&mut buf),
        Err(ErrorKind::Bundle2Decode(DecodeFault::OversizeParamValue))
    ));
    assert_eq!(dec.current_state(), OuterState::Invalid);
    assert!(decode_header(&h, 3).unwrap().is_some());
}

#[test]
fn part_type_case_is_ignored_when_recognizing() {
    let h = header_bytes(b"CHANGEGROUP", 5, &[], &[]);
    let r = decode_header(&h, 100).unwrap().unwrap();
    assert_eq!(r.part_type(), PartHeaderType::Changegroup);
    assert_eq!(r.part_id(), 5);
    assert!(r.mandatory);
}

#[test]
fn big_endian_reads() {
    let mut b = BytesMut::from(&[0xffu8, 0xff, 0xff, 0xfe, 7][..]);
    assert_eq!(peek_u32_be(&b), 0xffff_fffe);
    assert_eq!(peek_i32_be(&b), -2);
    assert_eq!(drain_i32_be(&mut b), -2);
    assert_eq!(&b[..], &[7u8][..]);
    assert_eq!(buffer_len(&b), 1);
}

#[test]
fn state_helpers() {
    let mut s = OuterState::Payload { part_type: PartHeaderType::Listkeys, part_id: 3 };
    let t = s.take();
    assert_eq!(s, OuterState::Invalid);
    assert!(matches!(
        t.part_end_frame(),
        OuterFrame::PartEnd { part_type: PartHeaderType::Listkeys, part_id: 3 }
    ));
    assert!(matches!(OuterState::DiscardPayload.part_end_frame(), OuterFrame::Discard));
    let f = t.payload_frame(BytesMut::from(&b"zz"[..]));
    assert_eq!(&f.get_payload()[..], b"zz");
}

#[test]
fn compression_parameter() {
    assert_eq!(get_decompressor_type(None), Ok(None));
    assert_eq!(get_decompressor_type(Some(b"")), Ok(None));
    assert_eq!(get_decompressor_type(Some(b"GZ")), Ok(Some(CompressionType::Gzip)));
    assert_eq!(get_decompressor_type(Some(b"BZ")), Ok(Some(CompressionType::Bzip2)));
    assert_eq!(get_decompressor_type(Some(b"ZS")), Ok(Some(CompressionType::Zstd)));
    assert_eq!(get_decompressor_type(Some(b"gz")), Err(ErrorKind::UnknownCompression));
}
