use bytes::{Bytes, BytesMut};
use rumq_broker::codec::{
    decode_variable_byte, encode_variable_byte, mqtt_read, mqtt_write, parse_fixed_header,
    ConnAck, Connect, ConnectFlags, ConnectPayload, Error, Packet, Protocol, PubAck, Publish,
    QoS, ReasonCode, SubAck, Subscribe, SubscribeReturnCodes, SubscribeTopic,
};

#[test]
fn connect_read_works_correctly() {
    let packet_stream = &[
        0x10, 0x16, 0x00, 0x04, 0x4d, 0x51, 0x54, 0x54, 0x05, 0x02, 0x00, 0x3c, 0x00, 0x00, 0x09,
        0x63, 0x6c, 0x69, 0x65, 0x6e, 0x74, 0x2d, 0x69, 0x64,
    ];

    let mut stream = BytesMut::from(&packet_stream[..]);
    let packet = mqtt_read(&mut stream, 100).unwrap();
    let packet = match packet {
        Packet::Connect(connect) => connect,
        packet => panic!("Invalid packet = {:?}", packet),
    };

    assert_eq!(packet.protocol, Protocol::MQTT(5));
    assert_eq!(packet.proto_name, "MQTT");
    assert_eq!(packet.keep_alive, 60);
    assert_eq!(packet.payload.client_id, "client-id");
    assert_eq!(packet.flags.username, false);
    assert_eq!(packet.flags.password, false);
    assert_eq!(packet.flags.will_retain, false);
    assert_eq!(packet.flags.will_flag, false);
    assert_eq!(packet.flags.will_qos, 0);
    assert_eq!(packet.flags.clean_session, true);
    assert_eq!(packet.flags.reserved, 0);
}

#[test]
fn connect_write_works_correctly() -> Result<(), Error> {
    let conn = Connect {
        protocol: Protocol::MQTT(5),
        proto_name: String::from("MQTT"),
        keep_alive: 60,
        flags: ConnectFlags {
            username: false,
            password: false,
            will_retain: false,
            will_flag: false,
            will_qos: 0,
            clean_session: true,
            reserved: 0,
        },
        properties: None,
        payload: ConnectPayload {
            client_id: String::from("client-id"),
            will_props: None,
            will_topic: None,
            will_payload: None,
            username: None,
            password: None,
        },
    };

    let conn_stream = mqtt_write(Packet::Connect(conn))?;

    let packet_stream = &[
        0x10, 0x16, 0x00, 0x04, 0x4d, 0x51, 0x54, 0x54, 0x05, 0x02, 0x00, 0x3c, 0x00, 0x00, 0x09,
        0x63, 0x6c, 0x69, 0x65, 0x6e, 0x74, 0x2d, 0x69, 0x64,
    ];

    assert_eq!(packet_stream.to_vec(), conn_stream.to_vec());
    Ok(())
}

#[test]
fn decode_variable_byte_int() {
    let vbi = &[0x7F, 0x7F];
    let mut stream = Bytes::from(&vbi[..]);
    let (res, len) = decode_variable_byte(&mut stream);
    assert_eq!(len, 1);
    match res {
        Ok(val) => assert_eq!(val, 127),
        _ => panic!("a single byte below 128 is a value"),
    }
    assert_eq!(stream.to_vec(), vec![0x7F]);
}

#[test]
fn encode_variable_byte_int() {
    let res = encode_variable_byte(912);
    match res {
        Ok(raw) => {
            assert_eq!(raw, Bytes::from(vec![0x90, 0x07]));
        }
        _ => panic!("912 is within the range of a variable byte integer"),
    }
}

#[test]
fn puback_stitching_works_correctly() {
    let stream = &[
        0b0100_0000,
        0x02, // packet type, flags and remaining len
        0x00,
        0x0A, // fixed header. packet identifier = 10
        0xDE,
        0xAD,
        0xBE,
        0xEF, // extra control in the stream
    ];
    let mut stream = BytesMut::from(&stream[..]);

    let packet = mqtt_read(&mut stream, 100).unwrap();
    let packet = match packet {
        Packet::PubAck(packet) => packet,
        packet => panic!("Invalid packet = {:?}", packet),
    };

    assert_eq!(packet, PubAck { pkid: 10, reason_code: ReasonCode::SUCCESS, properties: None });
    assert_eq!(stream.to_vec(), vec![0xDE, 0xAD, 0xBE, 0xEF]);
}

#[test]
fn qos1_publish_stitching_works_correctly() {
    let stream = &[
        0b0011_0010,
        12, // packet type, flags and remaining len
        0x00,
        0x03,
        b'a',
        b'/',
        b'b', // variable header. topic name = 'a/b'
        0x00,
        0x0a, // variable header. pkid = 10
        0x00, // variable header. no properties
        0xF1,
        0xF2,
        0xF3,
        0xF4, // publish payload
        0xDE,
        0xAD,
        0xBE,
        0xEF, // extra control in the stream
    ];

    let bytes = &[
        0b0011_0010,
        12, // packet type, flags and remaining len
        0x00,
        0x03,
        b'a',
        b'/',
        b'b', // variable header. topic name = 'a/b'
        0x00,
        0x0a, // variable header. pkid = 10
        0x00, // variable header. no properties
        0xF1,
        0xF2,
        0xF3,
        0xF4, // publish payload
    ];

    let mut stream = BytesMut::from(&stream[..]);
    let bytes = Bytes::from(&bytes[..]);

    let packet = mqtt_read(&mut stream, 100).unwrap();
    let packet = match packet {
        Packet::Publish(packet) => packet,
        packet => panic!("Invalid packet = {:?}", packet),
    };

    let payload = &[0xF1, 0xF2, 0xF3, 0xF4];
    assert_eq!(
        packet,
        Publish {
            dup: false,
            qos: QoS::AtLeastOnce,
            retain: false,
            topic: "a/b".to_owned(),
            pkid: 10,
            payload: Bytes::from(&payload[..]),
            bytes,
            properties: None,
        }
    );
}

#[test]
fn qos0_publish_stitching_works_correctly() {
    let stream = &[
        0b0011_0000,
        8, // packet type, flags and remaining len
        0x00,
        0x03,
        b'a',
        b'/',
        b'b', // variable header. topic name = 'a/b'
        0x00, // variable header. no properties
        0x01,
        0x02, // payload
        0xDE,
        0xAD,
        0xBE,
        0xEF, // extra control in the stream
    ];
    let bytes = &[
        0b0011_0000,
        8, // packet type, flags and remaining len
        0x00,
        0x03,
        b'a',
        b'/',
        b'b', // variable header. topic name = 'a/b'
        0x00, // variable header. no properties
        0x01,
        0x02, // payload
    ];
    let mut stream = BytesMut::from(&stream[..]);
    let bytes = Bytes::from(&bytes[..]);

    let packet = mqtt_read(&mut stream, 100).unwrap();
    let packet = match packet {
        Packet::Publish(packet) => packet,
        packet => panic!("Invalid packet = {:?}", packet),
    };

    assert_eq!(
        packet,
        Publish {
            dup: false,
            qos: QoS::AtMostOnce,
            retain: false,
            topic: "a/b".to_owned(),
            pkid: 0,
            payload: Bytes::from(&[0x01, 0x02][..]),
            bytes,
            properties: None,
        }
    );
}

#[test]
fn suback_stitching_works_correctly() {
    let stream = vec![
        0x90, 5, // packet type, flags and remaining len
        0x00, 0x0F, // variable header. pkid = 15
        0x00, // variable header. no properties
        0x01, 0x80, // payload. return codes [success qos1, failure]
        0xDE, 0xAD, 0xBE, 0xEF, // extra control in the stream
    ];
    let mut stream = BytesMut::from(&stream[..]);

    let packet = mqtt_read(&mut stream, 100).unwrap();
    let packet = match packet {
        Packet::SubAck(packet) => packet,
        packet => panic!("Invalid packet = {:?}", packet),
    };

    assert_eq!(
        packet,
        SubAck {
            pkid: 15,
            return_codes: vec![
                SubscribeReturnCodes::Success(QoS::AtLeastOnce),
                SubscribeReturnCodes::Failure
            ],
            properties: None,
        }
    );
}

#[test]
fn subscribe_stitching_works_correctly() {
    let stream = &[
        0b1000_0010,
        21, // packet type, flags and remaining len
        0x01,
        0x04, // variable header. pkid = 260
        0x00, // variable header. no properties
        0x00,
        0x03,
        b'a',
        b'/',
        b'+', // payload. topic filter = 'a/+'
        0x00, // payload. qos = 0
        0x00,
        0x01,
        b'#', // payload. topic filter = '#'
        0x01, // payload. qos = 1
        0x00,
        0x05,
        b'a',
        b'/',
        b'b',
        b'/',
        b'c', // payload. topic filter = 'a/b/c'
        0x02, // payload. qos = 2
        0xDE,
        0xAD,
        0xBE,
        0xEF, // extra control in the stream
    ];
    let mut stream = BytesMut::from(&stream[..]);

    let packet = mqtt_read(&mut stream, 100).unwrap();
    let packet = match packet {
        Packet::Subscribe(packet) => packet,
        packet => panic!("Invalid packet = {:?}", packet),
    };

    assert_eq!(
        packet,
        Subscribe {
            pkid: 260,
            topics: vec![
                SubscribeTopic { topic_path: "a/+".to_owned(), qos: QoS::AtMostOnce },
                SubscribeTopic { topic_path: "#".to_owned(), qos: QoS::AtLeastOnce },
                SubscribeTopic { topic_path: "a/b/c".to_owned(), qos: QoS::ExactlyOnce }
            ],
            properties: None
        }
    );
}

#[test]
fn fixed_header_is_parsed_as_expected() {
    let mut data = BytesMut::new();

    let (_, remaining_len) = parse_fixed_header(BytesMut::from("\x10\x00")).unwrap();
    assert_eq!(remaining_len, 0);
    data.clear();

    let (_, remaining_len) = parse_fixed_header(BytesMut::from("\x10\x7f")).unwrap();
    assert_eq!(remaining_len, 127);
    data.clear();

    data.extend_from_slice(b"\x10\x80\x01");
    let (_, remaining_len) = parse_fixed_header(data.clone()).unwrap();
    assert_eq!(remaining_len, 128);
    data.clear();

    data.extend_from_slice(b"\x10\xff\x7f");
    let (_, remaining_len) = parse_fixed_header(data.clone()).unwrap();
    assert_eq!(remaining_len, 16383);
    data.clear();

    data.extend_from_slice(b"\x10\x80\x80\x01");
    let (_, remaining_len) = parse_fixed_header(data.clone()).unwrap();
    assert_eq!(remaining_len, 16384);
    data.clear();

    data.extend_from_slice(b"\x10\xff\xff\x7f");
    let (_, remaining_len) = parse_fixed_header(data.clone()).unwrap();
    assert_eq!(remaining_len, 2_097_151);
    data.clear();

    data.extend_from_slice(b"\x10\x80\x80\x80\x01");
    let (_, remaining_len) = parse_fixed_header(data.clone()).unwrap();
    assert_eq!(remaining_len, 2_097_152);
    data.clear();

    data.extend_from_slice(b"\x10\xff\xff\xff\x7f");
    let (_, remaining_len) = parse_fixed_header(data.clone()).unwrap();
    assert_eq!(remaining_len, 268_435_455);
    data.clear();
}

#[test]
fn reason_code_assertion() {
    let value1: u8 = 159;
    assert_eq!(value1, ReasonCode::CONNECTION_RATE_EXCEEDED);
    assert_ne!(value1, ReasonCode::WILDCARD_SUBSCRIPTION_NOT_SUPPORTED);
}

#[test]
fn connack_reads_both_shapes() {
    let mut short = BytesMut::from(&[0x20u8, 0x02, 0x01, 0x00][..]);
    let packet = mqtt_read(&mut short, 100).unwrap();
    assert_eq!(packet, Packet::ConnAck(ConnAck::new(ReasonCode::SUCCESS, true, None)));

    let mut long = BytesMut::from(&[0x20u8, 0x03, 0x00, 0x87, 0x00][..]);
    let packet = mqtt_read(&mut long, 100).unwrap();
    assert_eq!(packet, Packet::ConnAck(ConnAck::new(ReasonCode::NOT_AUTHORIZED, false, None)));

    let mut tiny = BytesMut::from(&[0x20u8, 0x01, 0x00][..]);
    assert_eq!(mqtt_read(&mut tiny, 100), Err(Error::PayloadSizeIncorrect));
}
