use citp::caex::{EnterShow, Header, LaserFeedFrame, LaserFeedList, LaserPoint, Message, CAEX_TAG};
use citp::protocol::COOKIE;
use citp::{read_frame, CaexBody, CodecError, ReadFromBytes, SizeBytes, Ucs2, WriteToBytes};

fn bytes_of<T: WriteToBytes>(v: &T) -> Vec<u8> {
    let mut out = Vec::new();
    v.write_to_bytes(&mut out);
    out
}

#[test]
fn enter_show_demo_message_is_34_bytes() {
    let body = EnterShow { name: Ucs2::from_str("Demo").unwrap() };
    let body_bytes = bytes_of(&body);
    assert_eq!(body_bytes, vec![0x44, 0, 0x65, 0, 0x6D, 0, 0x6F, 0, 0, 0]);
    assert_eq!(body.size_bytes(), 10);

    let msg = Message::new(EnterShow::CONTENT_TYPE, body);
    assert_eq!(msg.caex_header.content_type, 0x00020100);
    assert_eq!(msg.caex_header.citp_header.message_size, 34);
    assert_eq!(msg.caex_header.citp_header.cookie, COOKIE);
    assert_eq!(msg.caex_header.citp_header.content_type, CAEX_TAG);
    let all = bytes_of(&msg);
    assert_eq!(all.len(), 34);
    assert_eq!(msg.size_bytes(), 34);
    assert_eq!(&all[0..4], b"CITP");
    assert_eq!(&all[8..12], &[34, 0, 0, 0]);
    assert_eq!(&all[16..20], b"CAEX");
    assert_eq!(&all[20..24], &[0x00, 0x01, 0x02, 0x00]);
    assert_eq!(&all[24..], &body_bytes[..]);
}

#[test]
fn empty_laser_feed_list_is_five_bytes() {
    let list = LaserFeedList { source_key: 1, feed_count: 0, feed_names: vec![] };
    let bytes = bytes_of(&list);
    assert_eq!(bytes, vec![1, 0, 0, 0, 0]);
    assert_eq!(list.size_bytes(), 5);
}

#[test]
fn point_packing_of_x_4093_red_31() {
    let p = LaserPoint::new(4093, 0, 31, 0, 0);
    assert_eq!(p.x_low_byte, (4093u16 & 0xFF) as u8);
    assert_eq!(p.xy_high_nibbles & 0x0F, ((4093u16 >> 8) & 0xF) as u8);
    assert_eq!(p.y_low_byte, 0);
    assert_eq!(p.xy_high_nibbles >> 4, 0);
    assert_eq!(p.color, 31);
    assert_eq!((p.x(), p.y(), p.red(), p.green(), p.blue()), (4093, 0, 31, 0, 0));
}

#[test]
fn point_packing_of_every_channel() {
    let p = LaserPoint::new(0x123, 0xABC, 17, 42, 9);
    assert_eq!(p.x_low_byte, 0x23);
    assert_eq!(p.y_low_byte, 0xBC);
    assert_eq!(p.xy_high_nibbles, 0xA1);
    assert_eq!(p.color, 17 | (42 << 5) | (9 << 11));
    assert_eq!((p.x(), p.y(), p.red(), p.green(), p.blue()), (0x123, 0xABC, 17, 42, 9));
    assert_eq!(bytes_of(&p), vec![0x23, 0xBC, 0xA1, (p.color & 0xFF) as u8, (p.color >> 8) as u8]);
}

#[test]
fn two_concatenated_messages_are_framed_by_declared_size() {
    let a = Message::from_body(CaexBody::EnterShow(EnterShow {
        name: Ucs2::from_str("Show").unwrap(),
    }));
    let frame = LaserFeedFrame {
        source_key: 7,
        feed_index: 1,
        frame_sequence: 99,
        point_count: 2,
        points: vec![LaserPoint::new(1, 2, 3, 4, 5), LaserPoint::new(4095, 4095, 31, 63, 31)],
    };
    let b = Message::from_body(CaexBody::LaserFeedFrame(frame.clone()));
    let mut buf = bytes_of(&a);
    let size_a = buf.len();
    buf.extend_from_slice(&bytes_of(&b));

    let (first, used) = read_frame(&buf).unwrap();
    assert_eq!(used, size_a);
    assert_eq!(first, a);
    let (second, used_b) = read_frame(&buf[used..]).unwrap();
    assert_eq!(second, b);
    assert_eq!(used + used_b, buf.len());
    assert_eq!(second.message, CaexBody::LaserFeedFrame(frame));
}

#[test]
fn frame_trusts_declared_size_over_body_length() {
    let mut msg = Message::from_body(CaexBody::LaserFeedControl(citp::caex::LaserFeedControl {
        feed_index: 2,
        frame_rate: 30,
    }));
    msg.caex_header.citp_header.message_size = 28;
    let mut buf = bytes_of(&msg);
    buf.extend_from_slice(&[9, 9]);
    let (decoded, used) = read_frame(&buf).unwrap();
    assert_eq!(used, 28);
    assert_eq!(decoded.message, msg.message);
}

#[test]
fn truncated_fixed_size_buffers_underrun() {
    let header = Header::for_body(EnterShow::CONTENT_TYPE, 10);
    let bytes = bytes_of(&header);
    assert_eq!(bytes.len(), 24);
    for n in 0..24 {
        assert_eq!(Header::read_from_bytes(&bytes[..n]), Err(CodecError::Underrun));
    }
    for n in 0..20 {
        assert_eq!(citp::protocol::Header::read_from_bytes(&bytes[..n]), Err(CodecError::Underrun));
    }
    let p = bytes_of(&LaserPoint::new(1, 2, 3, 4, 5));
    for n in 0..5 {
        assert_eq!(LaserPoint::read_from_bytes(&p[..n]), Err(CodecError::Underrun));
    }
    assert_eq!(
        citp::caex::LaserFeedControl::read_from_bytes(&[1]),
        Err(CodecError::Underrun)
    );
    assert_eq!(read_frame(&bytes[..23]), Err(CodecError::Underrun));
}

#[test]
fn backlog_of_three_messages_is_drained() {
    let a = Message::from_body(CaexBody::GetLaserFeedList(citp::caex::GetLaserFeedList {}));
    let b = Message::from_body(CaexBody::LaserFeedList(LaserFeedList {
        source_key: 3,
        feed_count: 2,
        feed_names: vec![Ucs2::from_str("one").unwrap(), Ucs2::from_str("two").unwrap()],
    }));
    let c = Message::from_body(CaexBody::FixtureRemove(citp::caex::FixtureRemove {
        fixture_count: 1,
        fixture_identifiers: vec![4294967295],
    }));
    let mut buf = bytes_of(&a);
    buf.extend_from_slice(&bytes_of(&b));
    buf.extend_from_slice(&bytes_of(&c));
    let all = citp::read_frames(&buf).unwrap();
    assert_eq!(all, vec![a, b, c]);
    assert_eq!(citp::read_frames(&[]).unwrap(), vec![]);
}

#[test]
fn backlog_stops_at_a_bad_message() {
    let a = Message::from_body(CaexBody::LeaveShow(citp::caex::LeaveShow {}));
    let mut buf = bytes_of(&a);
    buf.extend_from_slice(&bytes_of(&a)[..10]);
    assert_eq!(citp::read_frames(&buf), Err(CodecError::Underrun));
}
