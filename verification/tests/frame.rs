use duplex_talk::message::{encode_frame, FrameError, FrameReader, ReadAction, ReadState, RequestResponse};
use duplex_talk::wire::{u32_from_be, u32_to_be, utf8_text};

fn read_one(reader: &mut FrameReader, stream: &[u8], pos: &mut usize) -> ReadAction {
    loop {
        let n = reader.wanted();
        let chunk = &stream[*pos..*pos + n];
        *pos += n;
        match reader.feed(chunk) {
            ReadAction::Read(k) => assert_eq!(k, reader.wanted()),
            other => return other,
        }
    }
}

#[test]
fn encode_frame_ascii_payload() {
    let r = RequestResponse { serial: 7, payload: "hi".to_string() };
    assert_eq!(encode_frame(&r), vec![0, 0, 0, 6, 0, 0, 0, 7, b'h', b'i']);
}

#[test]
fn encode_frame_multibyte_payload() {
    let r = RequestResponse { serial: 0x01020304, payload: "刚吃。".to_string() };
    let bytes = encode_frame(&r);
    let mut expected = vec![0, 0, 0, 13, 1, 2, 3, 4];
    expected.extend_from_slice("刚吃。".as_bytes());
    assert_eq!(bytes, expected);
}

#[test]
fn encode_frame_empty_payload() {
    let r = RequestResponse { serial: 0xffff_ffff, payload: String::new() };
    assert_eq!(encode_frame(&r), vec![0, 0, 0, 4, 0xff, 0xff, 0xff, 0xff]);
}

#[test]
fn big_endian_helpers() {
    assert_eq!(u32_to_be(0x0102_0304), [1, 2, 3, 4]);
    assert_eq!(u32_to_be(300), [0, 0, 1, 44]);
    assert_eq!(u32_from_be(&[1, 2, 3, 4, 9, 9]), 0x0102_0304);
    assert_eq!(u32_from_be(&[0, 0, 1, 44]), 300);
}

#[test]
fn utf8_text_accepts_and_refuses() {
    assert_eq!(utf8_text("您这，嘛去？".as_bytes()), Some("您这，嘛去？".to_string()));
    assert_eq!(utf8_text(&[]), Some(String::new()));
    assert_eq!(utf8_text(&[0xff, 0x41]), None);
    assert_eq!(utf8_text(&[0xe5, 0x88]), None);
}

#[test]
fn reader_asks_for_header_then_payload() {
    let mut reader = FrameReader::new();
    assert_eq!(reader.state, ReadState::AwaitLength);
    assert_eq!(reader.wanted(), 4);
    match reader.feed(&[0, 0, 0, 9]) {
        ReadAction::Read(n) => assert_eq!(n, 4),
        _ => panic!("expected a read"),
    }
    assert_eq!(reader.state, ReadState::AwaitSerial { length: 9 });
    match reader.feed(&[0, 0, 0, 42]) {
        ReadAction::Read(n) => assert_eq!(n, 5),
        _ => panic!("expected a read"),
    }
    assert_eq!(reader.state, ReadState::AwaitPayload { serial: 42, size: 5 });
    match reader.feed(b"hello") {
        ReadAction::Deliver(r) => {
            assert_eq!(r.serial, 42);
            assert_eq!(r.payload, "hello");
        }
        _ => panic!("expected a message"),
    }
    assert_eq!(reader.state, ReadState::AwaitLength);
}

#[test]
fn reader_gives_back_what_was_written() {
    let r = RequestResponse { serial: 123456, payload: "嗨！吃饱了溜溜弯儿。".to_string() };
    let bytes = encode_frame(&r);
    let mut reader = FrameReader::new();
    let mut pos = 0;
    match read_one(&mut reader, &bytes, &mut pos) {
        ReadAction::Deliver(m) => {
            assert_eq!(m.serial, r.serial);
            assert_eq!(m.payload, r.payload);
        }
        _ => panic!("expected a message"),
    }
    assert_eq!(pos, bytes.len());
}

#[test]
fn reader_reads_frames_in_sequence() {
    let msgs = vec![
        RequestResponse { serial: 1, payload: "吃了没，您吶?".to_string() },
        RequestResponse { serial: 2, payload: String::new() },
        RequestResponse { serial: 3, payload: "有空家里坐坐啊。".to_string() },
    ];
    let mut stream = Vec::new();
    for m in &msgs {
        stream.extend(encode_frame(m));
    }
    let mut reader = FrameReader::new();
    let mut pos = 0;
    for m in &msgs {
        match read_one(&mut reader, &stream, &mut pos) {
            ReadAction::Deliver(got) => {
                assert_eq!(got.serial, m.serial);
                assert_eq!(got.payload, m.payload);
            }
            _ => panic!("expected a message"),
        }
    }
    assert_eq!(pos, stream.len());
}

#[test]
fn reader_refuses_short_length_after_serial() {
    let mut reader = FrameReader::new();
    assert!(matches!(reader.feed(&[0, 0, 0, 3]), ReadAction::Read(4)));
    match reader.feed(&[0, 0, 0, 1]) {
        ReadAction::Abort(e) => assert_eq!(e, FrameError::LengthTooShort { length: 3 }),
        _ => panic!("expected a refusal"),
    }
    assert_eq!(reader.state, ReadState::AwaitLength);
}

#[test]
fn reader_refuses_invalid_utf8() {
    let mut reader = FrameReader::new();
    assert!(matches!(reader.feed(&[0, 0, 0, 6]), ReadAction::Read(4)));
    assert!(matches!(reader.feed(&[0, 0, 0, 1]), ReadAction::Read(2)));
    match reader.feed(&[0xc3, 0x28]) {
        ReadAction::Abort(e) => assert_eq!(e, FrameError::InvalidUtf8),
        _ => panic!("expected a refusal"),
    }
}

#[test]
fn default_message_is_empty() {
    let r = RequestResponse::default();
    assert_eq!(r.serial, 0);
    assert_eq!(r.payload, "");
}

#[test]
fn a_read_frame_reencodes_to_the_same_bytes() {
    let stream: Vec<u8> = vec![0, 0, 0, 7, 0, 0, 1, 0, b'a', b'b', b'c', 0xaa, 0xbb];
    let mut reader = FrameReader::new();
    let mut pos = 0;
    match read_one(&mut reader, &stream, &mut pos) {
        ReadAction::Deliver(m) => {
            assert_eq!(m.serial, 256);
            assert_eq!(m.payload, "abc");
            assert_eq!(encode_frame(&m), stream[..pos].to_vec());
        }
        _ => panic!("expected a message"),
    }
    assert_eq!(pos, 11);
}

#[test]
fn debug_shows_fields() {
    let r = RequestResponse { serial: 1, payload: "x".to_string() };
    assert_eq!(format!("{:?}", r), "RequestResponse { serial: 1, payload: \"x\" }");
}
