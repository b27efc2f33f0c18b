use citp::caex::{
    EnterShow, FixtureConsoleStatus, FixtureListMessageType, FixtureRemove, LaserFeedFrame,
    LaserFeedList, LeaveShow, Message,
};
use citp::{read_frame, CaexBody, CodecError, ReadFromBytes, Ucs2, WriteToBytes};

fn bytes_of<T: WriteToBytes>(v: &T) -> Vec<u8> {
    let mut out = Vec::new();
    v.write_to_bytes(&mut out);
    out
}

#[test]
fn text_above_bmp_is_malformed() {
    assert_eq!(Ucs2::from_str("smile 😀"), Err(CodecError::MalformedString));
}

#[test]
fn surrogate_units_do_not_decode_to_text() {
    assert_eq!(Ucs2::from_units(vec![0x41, 0xD800]).to_str(), Err(CodecError::MalformedString));
    assert_eq!(Ucs2::from_units(vec![0xDFFF]).to_str(), Err(CodecError::MalformedString));
}

#[test]
fn string_without_terminator_is_malformed() {
    assert_eq!(Ucs2::read_from_bytes(&[0x41, 0, 0x42, 0]), Err(CodecError::MalformedString));
    assert_eq!(Ucs2::read_from_bytes(&[0x41, 0, 0]), Err(CodecError::MalformedString));
    assert_eq!(EnterShow::read_from_bytes(&[]), Err(CodecError::MalformedString));
    let u = Ucs2::read_from_bytes(&[0x41, 0, 0, 0, 0x42]).unwrap();
    assert_eq!(u.units(), &[0x41]);
}

#[test]
fn feed_list_errors() {
    assert_eq!(LaserFeedList::read_from_bytes(&[1, 0, 0, 0]), Err(CodecError::Underrun));
    assert_eq!(
        LaserFeedList::read_from_bytes(&[1, 0, 0, 0, 1, 0x41, 0]),
        Err(CodecError::MalformedString)
    );
}

#[test]
fn declared_counts_beyond_the_buffer_underrun() {
    let frame = LaserFeedFrame {
        source_key: 1,
        feed_index: 0,
        frame_sequence: 2,
        point_count: 1,
        points: vec![citp::caex::LaserPoint::new(1, 1, 1, 1, 1)],
    };
    let bytes = bytes_of(&frame);
    assert_eq!(LaserFeedFrame::read_from_bytes(&bytes[..bytes.len() - 1]), Err(CodecError::Underrun));
    assert_eq!(LaserFeedFrame::read_from_bytes(&bytes[..10]), Err(CodecError::Underrun));
    assert_eq!(FixtureRemove::read_from_bytes(&[2, 0, 1, 0, 0, 0]), Err(CodecError::Underrun));
    assert_eq!(FixtureConsoleStatus::read_from_bytes(&[1, 0, 1, 2, 3]), Err(CodecError::Underrun));
}

#[test]
fn unknown_fixture_list_type_is_unrecognized() {
    assert_eq!(FixtureListMessageType::read_from_bytes(&[3]), Err(CodecError::UnrecognizedDiscriminant));
    assert_eq!(FixtureListMessageType::read_from_bytes(&[]), Err(CodecError::Underrun));
}

#[test]
fn unknown_tags_are_unrecognized() {
    assert_eq!(CaexBody::read_from_bytes(0x00020202, &[0, 0]), Err(CodecError::UnrecognizedDiscriminant));

    let msg = Message::from_body(CaexBody::LeaveShow(LeaveShow {}));
    let good = bytes_of(&msg);
    assert_eq!(good.len(), 24);

    let mut other_module = good.clone();
    other_module[16..20].copy_from_slice(b"PINF");
    assert_eq!(read_frame(&other_module), Err(CodecError::UnrecognizedDiscriminant));

    let mut other_kind = good.clone();
    other_kind[20..24].copy_from_slice(&0x00099999u32.to_le_bytes());
    assert_eq!(read_frame(&other_kind), Err(CodecError::UnrecognizedDiscriminant));
}

#[test]
fn declared_size_outside_the_buffer_underruns() {
    let msg = Message::from_body(CaexBody::LeaveShow(LeaveShow {}));
    let mut bytes = bytes_of(&msg);
    bytes[8] = 25;
    assert_eq!(read_frame(&bytes), Err(CodecError::Underrun));
    bytes[8] = 23;
    assert_eq!(read_frame(&bytes), Err(CodecError::Underrun));
}

#[test]
fn body_error_inside_frame_is_reported() {
    let mut msg = Message::from_body(CaexBody::EnterShow(EnterShow { name: Ucs2::from_str("ab").unwrap() }));
    msg.caex_header.citp_header.message_size -= 2;
    let bytes = bytes_of(&msg);
    assert_eq!(read_frame(&bytes), Err(CodecError::MalformedString));
}
