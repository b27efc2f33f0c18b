use citp::caex::{
    EnterShow, FixtureConsoleStatus, FixtureListMessageType, FixtureListRequest, FixtureModify,
    FixtureRemove, FixtureState, GetLaserFeedList, Header, LaserFeedControl, LaserFeedFrame,
    LaserFeedList, LaserPoint, LeaveShow, Message,
};
use citp::protocol::{Header as BaseHeader, Kind};
use citp::caex::FixtureInfo;
use citp::{CaexBody, CodecError, ReadFromBytes, SizeBytes, Ucs2, WriteToBytes};

fn bytes_of<T: WriteToBytes>(v: &T) -> Vec<u8> {
    let mut out = Vec::new();
    v.write_to_bytes(&mut out);
    out
}

fn check<T: ReadFromBytes + SizeBytes + PartialEq + std::fmt::Debug>(v: T) {
    let mut bytes = bytes_of(&v);
    assert_eq!(bytes.len(), v.size_bytes());
    bytes.extend_from_slice(&[0xEE, 0x01, 0x02]);
    let back = T::read_from_bytes(&bytes).unwrap();
    assert_eq!(back, v);
}

#[test]
fn round_trip_base_header() {
    check(BaseHeader {
        cookie: 0x50544943,
        version_major: 1,
        version_minor: 2,
        kind: Kind { request_index: 0xBEEF },
        message_size: 0x01020304,
        message_part_count: 3,
        message_part: 2,
        content_type: 0x58454143,
    });
}

#[test]
fn base_header_layout_is_little_endian() {
    let h = BaseHeader {
        cookie: 0x50544943,
        version_major: 1,
        version_minor: 2,
        kind: Kind { request_index: 0x0A0B },
        message_size: 0x01020304,
        message_part_count: 0x0506,
        message_part: 0x0708,
        content_type: 0x58454143,
    };
    assert_eq!(
        bytes_of(&h),
        vec![
            b'C', b'I', b'T', b'P', 1, 2, 0x0B, 0x0A, 4, 3, 2, 1, 6, 5, 8, 7, b'C', b'A', b'E',
            b'X'
        ]
    );
    assert_eq!(h.size_bytes(), 20);
}

#[test]
fn round_trip_caex_header() {
    check(Header::for_body(LaserFeedFrame::CONTENT_TYPE, 100));
}

#[test]
fn round_trip_empty_bodies() {
    check(LeaveShow {});
    check(FixtureListRequest {});
    check(GetLaserFeedList {});
    assert_eq!(bytes_of(&LeaveShow {}).len(), 0);
}

#[test]
fn round_trip_enter_show() {
    check(EnterShow { name: Ucs2::from_str("My Show – Ünïcode").unwrap() });
    check(EnterShow { name: Ucs2::from_str("").unwrap() });
}

#[test]
fn round_trip_laser_feed_control() {
    check(LaserFeedControl { feed_index: 3, frame_rate: 60 });
    assert_eq!(bytes_of(&LaserFeedControl { feed_index: 3, frame_rate: 60 }), vec![3, 60]);
}

#[test]
fn round_trip_laser_point() {
    check(LaserPoint::new(4093, 17, 31, 63, 0));
}

#[test]
fn round_trip_laser_feed_frame() {
    let points: Vec<LaserPoint> = (0..40u16).map(|i| LaserPoint::new(i * 100, 4095 - i * 100, i % 32, i % 64, 31 - i % 32)).collect();
    let frame = LaserFeedFrame {
        source_key: 0xDEADBEEF,
        feed_index: 2,
        frame_sequence: 12345,
        point_count: 40,
        points,
    };
    assert_eq!(frame.size_bytes(), 11 + 5 * 40);
    check(frame);
    check(LaserFeedFrame { source_key: 0, feed_index: 0, frame_sequence: 0, point_count: 0, points: vec![] });
}

#[test]
fn round_trip_laser_feed_list() {
    let names = vec![
        Ucs2::from_str("rusty_laser 0").unwrap(),
        Ucs2::from_str("").unwrap(),
        Ucs2::from_str("Ωmega").unwrap(),
    ];
    let list = LaserFeedList { source_key: 42, feed_count: 3, feed_names: names };
    assert_eq!(list.size_bytes(), 5 + 2 * 14 + 2 + 2 * 6);
    check(list);
}

#[test]
fn round_trip_fixture_messages() {
    check(FixtureRemove { fixture_count: 2, fixture_identifiers: vec![4294967295, 7] });
    check(FixtureModify { fixture_count: 1, fixture_identifiers: vec![0x01020304] });
    check(FixtureConsoleStatus {
        fixture_count: 2,
        fixtures_state: vec![
            FixtureState { fixture_identifier: 9, locked: 1, clearable: 0 },
            FixtureState { fixture_identifier: 10, locked: 0, clearable: 1 },
        ],
    });
    check(FixtureState { fixture_identifier: 0xAABBCCDD, locked: 1, clearable: 1 });
    assert_eq!(
        bytes_of(&FixtureRemove { fixture_count: 1, fixture_identifiers: vec![0x01020304] }),
        vec![1, 0, 4, 3, 2, 1]
    );
}

#[test]
fn round_trip_fixture_list_message_type() {
    check(FixtureListMessageType::ExistingPatchList);
    check(FixtureListMessageType::NewFixture);
    check(FixtureListMessageType::ExchangeFixture);
    assert_eq!(bytes_of(&FixtureListMessageType::ExchangeFixture), vec![2]);
}

#[test]
fn round_trip_ucs2_wire() {
    check(Ucs2::from_str("Hello").unwrap());
    assert_eq!(bytes_of(&Ucs2::from_str("A").unwrap()), vec![0x41, 0, 0, 0]);
}

#[test]
fn ucs2_text_round_trip() {
    for s in ["", "Demo", "héllo wörld", "日本語テキスト", "€ and ©", "a\u{0}b", "\u{FFFF}"] {
        let u = Ucs2::from_str(s).unwrap();
        assert_eq!(u.len(), s.chars().count());
        assert_eq!(u.to_str().unwrap(), s);
    }
}

#[test]
fn ucs2_units_hold_code_points() {
    let u = Ucs2::from_str("Aé€").unwrap();
    assert_eq!(u.units(), &[0x41, 0xE9, 0x20AC]);
    assert_eq!(Ucs2::from_units(vec![0x44, 0x65, 0x6D, 0x6F]).to_str().unwrap(), "Demo");
}

#[test]
fn message_round_trip_through_body_dispatch() {
    let body = CaexBody::LaserFeedList(LaserFeedList {
        source_key: 5,
        feed_count: 1,
        feed_names: vec![Ucs2::from_str("feed").unwrap()],
    });
    let msg = Message::from_body(body.clone());
    let bytes = bytes_of(&msg);
    assert_eq!(bytes.len(), msg.size_bytes());
    assert_eq!(msg.caex_header.citp_header.message_size as usize, bytes.len());
    let back = CaexBody::read_from_bytes(LaserFeedList::CONTENT_TYPE, &bytes[24..]).unwrap();
    assert_eq!(back, body);
}

#[test]
fn fixture_info_layout_and_size() {
    let info = citp::caex::FixtureInfo {
        patched: 1,
        universe: 2,
        universe_channel: 0x0304,
        unit: Ucs2::from_str("U").unwrap(),
        channel: 7,
        circuit: Ucs2::from_str("").unwrap(),
        note: Ucs2::from_str("hi").unwrap(),
        position: [(-0.6716977f32).to_bits(), (-0.33584884f32).to_bits(), 0.0f32.to_bits()],
        angles: [(-0.0f32).to_bits(), 0, 1.0f32.to_bits()],
    };
    let bytes = bytes_of(&info);
    assert_eq!(bytes.len(), info.size_bytes());
    assert_eq!(bytes.len(), 4 + 4 + 2 + 2 + 6 + 24);
    assert_eq!(&bytes[0..4], &[1, 2, 4, 3]);
    assert_eq!(&bytes[4..8], &[0x55, 0, 0, 0]);
    assert_eq!(&bytes[8..10], &[7, 0]);
    assert_eq!(&bytes[10..12], &[0, 0]);
    assert_eq!(&bytes[12..18], &[0x68, 0, 0x69, 0, 0, 0]);
    assert_eq!(&bytes[18..22], &(-0.6716977f32).to_le_bytes());
    assert_eq!(&bytes[38..42], &1.0f32.to_le_bytes());
}

fn sample_fixture_info() -> citp::caex::FixtureInfo {
    citp::caex::FixtureInfo {
        patched: 1,
        universe: 0,
        universe_channel: 511,
        unit: Ucs2::from_str("101").unwrap(),
        channel: 12,
        circuit: Ucs2::from_str("C-7").unwrap(),
        note: Ucs2::from_str("front wash").unwrap(),
        position: [1.5f32.to_bits(), (-2.25f32).to_bits(), 3.0f32.to_bits()],
        angles: [0, 90.0f32.to_bits(), (-45.0f32).to_bits()],
    }
}

#[test]
fn round_trip_fixture_info() {
    check(sample_fixture_info());
}

#[test]
fn fixture_info_errors_name_the_missing_part() {
    let bytes = bytes_of(&sample_fixture_info());
    assert_eq!(FixtureInfo::read_from_bytes(&bytes[..3]), Err(CodecError::Underrun));
    assert_eq!(FixtureInfo::read_from_bytes(&bytes[..8]), Err(CodecError::MalformedString));
    let unit_end = 4 + 8;
    assert_eq!(FixtureInfo::read_from_bytes(&bytes[..unit_end + 1]), Err(CodecError::Underrun));
    assert_eq!(FixtureInfo::read_from_bytes(&bytes[..unit_end + 4]), Err(CodecError::MalformedString));
    assert_eq!(FixtureInfo::read_from_bytes(&bytes[..bytes.len() - 30]), Err(CodecError::MalformedString));
    assert_eq!(FixtureInfo::read_from_bytes(&bytes[..bytes.len() - 1]), Err(CodecError::Underrun));
}
