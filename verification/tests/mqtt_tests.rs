use planty::mqtt::{
    check_connack, check_suback, connect_packet, decode_packet, decode_variable_length, encode_variable_length,
    ping_packet, publish_packet, subscribe_packet, ArrayBuf, MqttError, MqttEvent, MqttRx, MqttStatus, PollStep,
};

fn encode(len: usize) -> Vec<u8> {
    let mut buf = [0u8; 8];
    let n = encode_variable_length(len, &mut buf);
    buf[..n].to_vec()
}

#[test]
fn remaining_length_encodings() {
    assert_eq!(encode(0), vec![0x00]);
    assert_eq!(encode(127), vec![0x7F]);
    assert_eq!(encode(128), vec![0x80, 0x01]);
    assert_eq!(encode(321), vec![0xC1, 0x02]);
    assert_eq!(encode(16_383), vec![0xFF, 0x7F]);
    assert_eq!(encode(16_384), vec![0x80, 0x80, 0x01]);
    assert_eq!(encode(268_435_455), vec![0xFF, 0xFF, 0xFF, 0x7F]);
}

#[test]
fn remaining_length_write_keeps_the_rest_of_the_buffer() {
    let mut buf = [0xAAu8; 4];
    assert_eq!(encode_variable_length(200, &mut buf), 2);
    assert_eq!(buf, [0xC8, 0x01, 0xAA, 0xAA]);
}

#[test]
fn remaining_length_roundtrip() {
    for len in [0usize, 1, 127, 128, 300, 16_383, 16_384, 2_097_151, 2_097_152, 268_435_455] {
        let mut bytes = encode(len);
        let n = bytes.len();
        bytes.extend_from_slice(&[0x42, 0x43]);
        assert_eq!(decode_variable_length(&bytes).ok(), Some((len, n)));
    }
}

#[test]
fn remaining_length_errors() {
    assert!(matches!(decode_variable_length(&[]), Err(MqttError::ProtocolError)));
    assert!(matches!(decode_variable_length(&[0x80, 0x80]), Err(MqttError::ProtocolError)));
    assert!(matches!(decode_variable_length(&[0xFF, 0xFF, 0xFF, 0xFF, 0x01]), Err(MqttError::ProtocolError)));
    assert_eq!(decode_variable_length(&[0x05, 0xFF]).ok(), Some((5, 1)));
}

#[test]
fn connect_packet_bytes() {
    let p = connect_packet("planty-esp32", 60);
    let mut expected = vec![0x10, 24, 0x00, 0x04, b'M', b'Q', b'T', b'T', 0x04, 0x02, 0x00, 60, 0x00, 12];
    expected.extend_from_slice(b"planty-esp32");
    assert_eq!(p, expected);
    let p = connect_packet("", 0x1234);
    assert_eq!(p, vec![0x10, 12, 0, 4, b'M', b'Q', b'T', b'T', 4, 2, 0x12, 0x34, 0, 0]);
}

#[test]
fn subscribe_packet_bytes() {
    let p = subscribe_packet("a/b", 0x0102);
    assert_eq!(p, vec![0x82, 8, 0x01, 0x02, 0x00, 0x03, b'a', b'/', b'b', 0x00]);
}

#[test]
fn publish_packet_bytes() {
    let p = publish_packet("t", b"open").ok().unwrap();
    assert_eq!(p, vec![0x30, 7, 0x00, 0x01, b't', b'o', b'p', b'e', b'n']);
}

#[test]
fn publish_packet_too_large_payload() {
    let payload = [7u8; 250];
    assert!(matches!(publish_packet("planty/sensor/soil", &payload), Err(MqttError::ProtocolError)));
    // 1 + 2 (length) + 2 + 18 + 233 = 256: just fits.
    let payload = [7u8; 233];
    assert_eq!(publish_packet("planty/sensor/soil", &payload).ok().unwrap().len(), 256);
    let payload = [7u8; 234];
    assert!(publish_packet("planty/sensor/soil", &payload).is_err());
}

#[test]
fn ping_packet_bytes() {
    assert_eq!(ping_packet(), vec![0xC0, 0x00]);
}

#[test]
fn connack_checks() {
    assert!(check_connack(&[0x20, 0x02, 0x00, 0x00]).is_ok());
    assert!(matches!(check_connack(&[0x20, 0x02, 0x00, 0x05]), Err(MqttError::ConnectionFailed)));
    assert!(matches!(check_connack(&[0x20, 0x02, 0x00]), Err(MqttError::ConnectionFailed)));
    assert!(matches!(check_connack(&[0x90, 0x02, 0x00, 0x00]), Err(MqttError::ConnectionFailed)));
}

#[test]
fn suback_checks() {
    assert!(check_suback(&[0x90, 0x03, 0x00, 0x01, 0x00]).is_ok());
    assert!(check_suback(&[0x90, 0x03, 0x00, 0x01]).is_ok());
    assert!(matches!(check_suback(&[0x90, 0x03, 0x00]), Err(MqttError::ProtocolError)));
    assert!(matches!(check_suback(&[0x20, 0x03, 0x00, 0x01]), Err(MqttError::ProtocolError)));
}

fn publish_of(event: &MqttEvent) -> (Vec<u8>, Vec<u8>) {
    match event {
        MqttEvent::Publish { topic, payload } => (topic.as_slice().to_vec(), payload.as_slice().to_vec()),
        _ => panic!("not a publish"),
    }
}

#[test]
fn publish_roundtrip_through_decoder() {
    let mut bytes = publish_packet("planty/mecha/motor", b"close").ok().unwrap();
    let n = bytes.len();
    bytes.extend_from_slice(&[0xD0, 0x00]);
    let (event, consumed) = decode_packet(&bytes).unwrap();
    assert_eq!(consumed, n);
    let (t, p) = publish_of(&event);
    assert_eq!(t, b"planty/mecha/motor".to_vec());
    assert_eq!(p, b"close".to_vec());
}

#[test]
fn decode_truncates_long_topic_and_payload() {
    let topic = [b'x'; 70];
    let payload = [b'y'; 100];
    let mut body = vec![0x00, 70];
    body.extend_from_slice(&topic);
    body.extend_from_slice(&payload);
    let mut data = vec![0x30];
    data.extend(encode(body.len()));
    data.extend_from_slice(&body);
    let (event, consumed) = decode_packet(&data).unwrap();
    assert_eq!(consumed, data.len());
    let (t, p) = publish_of(&event);
    assert_eq!(t.len(), 64);
    assert_eq!(p, payload.to_vec());
}

#[test]
fn decode_pingresp_and_unknown() {
    let (event, consumed) = decode_packet(&[0xD0, 0x00, 0x99]).unwrap();
    assert!(matches!(event, MqttEvent::PingResp));
    assert_eq!(consumed, 2);
    assert!(decode_packet(&[]).is_none());
    // PUBACK (type 4) is not handled.
    assert!(decode_packet(&[0x40, 0x02, 0x00, 0x01]).is_none());
}

#[test]
fn decode_acks() {
    let (event, consumed) = decode_packet(&[0x20, 0x02, 0x00, 0x00, 0x30]).unwrap();
    assert!(matches!(event, MqttEvent::ConnAck));
    assert_eq!(consumed, 4);
    let (event, consumed) = decode_packet(&[0x90, 0x03, 0x00, 0x01, 0x00]).unwrap();
    assert!(matches!(event, MqttEvent::SubAck));
    assert_eq!(consumed, 5);
    assert!(decode_packet(&[0x90, 0x03, 0x00, 0x01]).is_none());
}

#[test]
fn decode_incomplete_packet_waits() {
    let bytes = publish_packet("topic", b"payload").ok().unwrap();
    for k in 0..bytes.len() {
        assert!(decode_packet(&bytes[..k]).is_none());
    }
    assert!(decode_packet(&bytes).is_some());
}

#[test]
fn decode_publish_with_bad_topic_length() {
    // Topic length 9 but only 3 body bytes left.
    assert!(decode_packet(&[0x30, 0x05, 0x00, 0x09, b'a', b'b', b'c']).is_none());
    // Body shorter than the topic length field.
    assert!(decode_packet(&[0x30, 0x01, 0x00]).is_none());
}

#[test]
fn array_buf_text() {
    let mut bytes = vec![0x30, 0x00];
    let body = [0x00, 0x01, b't', 0xFF, 0xFE];
    bytes[1] = body.len() as u8;
    bytes.extend_from_slice(&body);
    let (event, _) = decode_packet(&bytes).unwrap();
    match event {
        MqttEvent::Publish { topic, payload } => {
            assert_eq!(topic.as_str(), Some("t"));
            assert_eq!(payload.as_str(), None);
        }
        _ => panic!("not a publish"),
    }
    let empty: ArrayBuf<4> = ArrayBuf::new();
    assert_eq!(empty.as_slice().len(), 0);
    assert_eq!(empty.as_str(), Some(""));
}

#[test]
fn array_buf_copy_truncates() {
    let mut b: ArrayBuf<4> = ArrayBuf::new();
    b.copy_from(b"abcdef");
    assert_eq!(b.as_slice(), b"abcd");
    b.copy_from(b"xy");
    assert_eq!(b.as_slice(), b"xy");
}

fn read_step(rx: &mut MqttRx) -> usize {
    match rx.poll_buffered() {
        PollStep::Read(n) => n,
        PollStep::Done(_) => panic!("expected a read request"),
    }
}

#[test]
fn rx_packet_split_across_reads() {
    let mut rx = MqttRx::new(vec![0u8; 64]);
    let bytes = publish_packet("a", b"open").ok().unwrap();
    assert_eq!(read_step(&mut rx), 64);
    assert!(matches!(rx.poll_received(Some(&bytes[..3])), MqttStatus::NoData));
    assert_eq!(rx.pending(), 3);
    assert_eq!(read_step(&mut rx), 61);
    match rx.poll_received(Some(&bytes[3..])) {
        MqttStatus::Event(e) => assert_eq!(publish_of(&e), (b"a".to_vec(), b"open".to_vec())),
        _ => panic!("expected an event"),
    }
    assert_eq!(rx.pending(), 0);
    // The buffer was reset: all the room is back.
    assert_eq!(read_step(&mut rx), 64);
}

#[test]
fn rx_coalesced_packets_one_per_poll() {
    let mut rx = MqttRx::new(vec![0u8; 64]);
    let mut bytes = vec![0xD0, 0x00];
    bytes.extend(publish_packet("a", b"x").ok().unwrap());
    assert_eq!(read_step(&mut rx), 64);
    assert!(matches!(rx.poll_received(Some(&bytes)), MqttStatus::Event(MqttEvent::PingResp)));
    assert_eq!(rx.pending(), bytes.len() - 2);
    match rx.poll_buffered() {
        PollStep::Done(MqttStatus::Event(e)) => assert_eq!(publish_of(&e), (b"a".to_vec(), b"x".to_vec())),
        _ => panic!("expected the buffered event"),
    }
    assert_eq!(rx.pending(), 0);
}

#[test]
fn rx_read_error_and_empty_read() {
    let mut rx = MqttRx::new(vec![0u8; 8]);
    assert_eq!(read_step(&mut rx), 8);
    assert!(matches!(rx.poll_received(None), MqttStatus::Disconnected));
    // An empty read means the peer closed the connection.
    assert!(matches!(rx.poll_received(Some(&[])), MqttStatus::Disconnected));
    assert_eq!(rx.pending(), 0);
}

#[test]
fn rx_full_buffer_is_dropped() {
    let mut rx = MqttRx::new(vec![0u8; 4]);
    assert_eq!(read_step(&mut rx), 4);
    // An unhandled packet type that never decodes fills the buffer.
    assert!(matches!(rx.poll_received(Some(&[0x40, 0x02, 0x00, 0x01])), MqttStatus::NoData));
    assert_eq!(rx.pending(), 4);
    // Out of sync: everything is dropped and the whole buffer offered again.
    assert_eq!(read_step(&mut rx), 4);
    assert_eq!(rx.pending(), 0);
    rx.poll_received(Some(&[0x01]));
    rx.clear();
    assert_eq!(rx.pending(), 0);
}

#[test]
fn rx_new_starts_empty() {
    let rx = MqttRx::new(vec![1u8, 2, 3]);
    assert_eq!(rx.pending(), 0);
}

#[test]
fn rx_zero_capacity_reports_no_data() {
    let mut rx = MqttRx::new(Vec::new());
    assert!(matches!(rx.poll_buffered(), PollStep::Done(MqttStatus::NoData)));
}
