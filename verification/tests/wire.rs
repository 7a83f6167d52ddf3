use bytes::{Bytes, BytesMut};
use rumq_broker::codec::{
    decode_binary_data, decode_utf_string, decode_utf_string_pair, decode_variable_byte,
    encode_binary_data, encode_utf_string, encode_utf_string_pair, encode_variable_byte,
    extract_mqtt_string, extract_properties, has_wildcards, header_len, mqtt_read, mqtt_write,
    packet_type, qos, Auth, AuthProperties, ConnAck, Connect, ConnectFlags, ConnectPayload,
    ConnectProperties, ConnackProperties, Disconnect, DisconnectProperties, Error, LastWill,
    Packet, PacketType, Protocol, PubAck, PubAckProperties, PubComp, PubRec, PubRel, Publish,
    PublishProperties, QoS, SubAck, SubAckProperties, Subscribe, SubscribeProperties,
    SubscribeReturnCodes, UnsubAck, UnsubAckProperties, Unsubscribe, UnsubscribeProperties,
    WillProperties,
};

fn topic_matches(topic: &str, filter: &str) -> bool {
    rumq_broker::codec::topic::matches(topic, filter) == Some(true)
}

fn read_all(bytes: &[u8]) -> Result<Packet, Error> {
    let mut stream = BytesMut::from(bytes);
    let packet = mqtt_read(&mut stream, 1_000_000)?;
    assert!(stream.is_empty());
    Ok(packet)
}

fn round_trip(packet: Packet) {
    let frame = mqtt_write(packet.clone()).unwrap();
    let back = read_all(&frame).unwrap();
    match (&back, &packet) {
        (Packet::Publish(got), Packet::Publish(sent)) => {
            let mut expected = sent.clone();
            expected.bytes = frame.clone();
            assert_eq!(*got, expected);
        }
        _ => assert_eq!(back, packet),
    }
}

#[test]
fn variable_byte_integer_boundaries() {
    let cases: Vec<(u32, Vec<u8>)> = vec![
        (0, vec![0x00]),
        (127, vec![0x7F]),
        (128, vec![0x80, 0x01]),
        (16_383, vec![0xFF, 0x7F]),
        (16_384, vec![0x80, 0x80, 0x01]),
        (2_097_151, vec![0xFF, 0xFF, 0x7F]),
        (2_097_152, vec![0x80, 0x80, 0x80, 0x01]),
        (268_435_455, vec![0xFF, 0xFF, 0xFF, 0x7F]),
    ];
    for (value, bytes) in cases {
        assert_eq!(encode_variable_byte(value).unwrap().to_vec(), bytes);
        let mut longer = bytes.clone();
        longer.push(0x55);
        let mut stream = Bytes::from(longer);
        let (decoded, used) = decode_variable_byte(&mut stream);
        assert_eq!(decoded, Ok(value));
        assert_eq!(used as usize, bytes.len());
        assert_eq!(stream.to_vec(), vec![0x55]);
    }
    assert_eq!(encode_variable_byte(268_435_456), Err(Error::MalformedVariableByteInteger));
    assert_eq!(encode_variable_byte(u32::MAX), Err(Error::MalformedVariableByteInteger));
}

#[test]
fn variable_byte_integer_round_trips_in_the_fewest_bytes() {
    let mut samples: Vec<u32> = (0..40_000).step_by(7).collect();
    samples.extend((2_000_000..2_200_000).step_by(997));
    samples.extend((268_000_000..=268_435_455).step_by(4_999));
    for value in samples {
        let bytes = encode_variable_byte(value).unwrap();
        let size = if value < 128 {
            1
        } else if value < 16_384 {
            2
        } else if value < 2_097_152 {
            3
        } else {
            4
        };
        assert_eq!(bytes.len(), size);
        assert_eq!(header_len(value as usize), 1 + size);
        let mut stream = bytes.clone();
        assert_eq!(decode_variable_byte(&mut stream), (Ok(value), size as u32));
        assert!(stream.is_empty());
    }
}

#[test]
fn variable_byte_integer_that_cannot_be_read() {
    let mut five = Bytes::from(vec![0xFF, 0xFF, 0xFF, 0xFF, 0x01]);
    assert_eq!(decode_variable_byte(&mut five), (Err(Error::MalformedVariableByteInteger), 0));
    assert_eq!(five.len(), 5);

    let mut short = Bytes::from(vec![0x80, 0x80]);
    assert_eq!(decode_variable_byte(&mut short), (Err(Error::UnexpectedEof), 0));
    assert_eq!(short.len(), 2);

    let mut empty = Bytes::new();
    assert_eq!(decode_variable_byte(&mut empty), (Err(Error::UnexpectedEof), 0));

    // a value in more bytes than it takes is read as it stands
    let mut wide = Bytes::from(vec![0x81, 0x00]);
    assert_eq!(decode_variable_byte(&mut wide), (Ok(1), 2));
}

#[test]
fn header_length_follows_the_remaining_length() {
    assert_eq!(header_len(0), 2);
    assert_eq!(header_len(127), 2);
    assert_eq!(header_len(128), 3);
    assert_eq!(header_len(16_383), 3);
    assert_eq!(header_len(16_384), 4);
    assert_eq!(header_len(2_097_151), 4);
    assert_eq!(header_len(2_097_152), 5);
    assert_eq!(header_len(268_435_455), 5);
}

#[test]
fn packet_types_and_levels_of_service_by_number() {
    let types = [
        PacketType::Connect,
        PacketType::ConnAck,
        PacketType::Publish,
        PacketType::PubAck,
        PacketType::PubRec,
        PacketType::PubRel,
        PacketType::PubComp,
        PacketType::Subscribe,
        PacketType::SubAck,
        PacketType::Unsubscribe,
        PacketType::UnsubAck,
        PacketType::PingReq,
        PacketType::PingResp,
        PacketType::Disconnect,
        PacketType::Auth,
    ];
    for (i, t) in types.iter().enumerate() {
        assert_eq!(packet_type(i as u8 + 1), Ok(*t));
    }
    assert_eq!(packet_type(0), Err(Error::InvalidPacketType(0)));
    assert_eq!(packet_type(16), Err(Error::InvalidPacketType(16)));
    assert_eq!(packet_type(255), Err(Error::InvalidPacketType(255)));

    assert_eq!(qos(0), Ok(QoS::AtMostOnce));
    assert_eq!(qos(1), Ok(QoS::AtLeastOnce));
    assert_eq!(qos(2), Ok(QoS::ExactlyOnce));
    assert_eq!(qos(3), Err(Error::InvalidQoS(3)));
    assert_eq!(qos(200), Err(Error::InvalidQoS(200)));
    assert_eq!(QoS::ExactlyOnce.code(), 2);
    assert_eq!(QoS::AtMostOnce.highest(QoS::AtLeastOnce), QoS::AtLeastOnce);
    assert_eq!(QoS::ExactlyOnce.highest(QoS::AtLeastOnce), QoS::ExactlyOnce);
}

#[test]
fn strings_are_length_prefixed_utf8() {
    let bytes = encode_utf_string("a/b".to_owned()).unwrap();
    assert_eq!(bytes.to_vec(), vec![0x00, 0x03, b'a', b'/', b'b']);
    let accented = encode_utf_string("h\u{e9}".to_owned()).unwrap();
    assert_eq!(accented.to_vec(), vec![0x00, 0x03, b'h', 0xC3, 0xA9]);

    let mut stream = Bytes::from(vec![0x00, 0x03, b'h', 0xC3, 0xA9, 0x07]);
    let (text, used) = decode_utf_string(&mut stream);
    assert_eq!(text, Ok("h\u{e9}".to_owned()));
    assert_eq!(used, 5);
    assert_eq!(stream.to_vec(), vec![0x07]);

    let mut stream = Bytes::from(vec![0x00, 0x00, 0x09]);
    assert_eq!(extract_mqtt_string(&mut stream), Ok(String::new()));
    assert_eq!(stream.to_vec(), vec![0x09]);
}

#[test]
fn strings_that_cannot_be_read() {
    let mut not_utf8 = Bytes::from(vec![0x00, 0x02, 0xC3, 0x28]);
    assert_eq!(extract_mqtt_string(&mut not_utf8), Err(Error::TopicNotUtf8));
    assert_eq!(not_utf8.len(), 4);

    let mut beyond = Bytes::from(vec![0x00, 0x05, b'a', b'b']);
    assert_eq!(decode_utf_string(&mut beyond), (Err(Error::BoundaryCrossed), 0));
    assert_eq!(beyond.len(), 4);

    let mut no_length = Bytes::from(vec![0x00]);
    assert_eq!(extract_mqtt_string(&mut no_length), Err(Error::BoundaryCrossed));

    let long: String = std::iter::repeat('x').take(65_536).collect();
    assert_eq!(encode_utf_string(long), Err(Error::PayloadTooLong));
    let longest: String = std::iter::repeat('x').take(65_535).collect();
    let bytes = encode_utf_string(longest).unwrap();
    assert_eq!(bytes.len(), 65_537);
    assert_eq!(&bytes[..2], &[0xFF, 0xFF]);
}

#[test]
fn pairs_and_binary_data() {
    let pair = encode_utf_string_pair(("k".to_owned(), "vw".to_owned())).unwrap();
    assert_eq!(pair.to_vec(), vec![0, 1, b'k', 0, 2, b'v', b'w']);
    let mut stream = Bytes::from(vec![0, 1, b'k', 0, 2, b'v', b'w', 1]);
    let (got, used) = decode_utf_string_pair(&mut stream);
    assert_eq!(got, Ok(("k".to_owned(), "vw".to_owned())));
    assert_eq!(used, 7);
    assert_eq!(stream.to_vec(), vec![1]);
    let mut half = Bytes::from(vec![0, 1, b'k', 0, 2, b'v']);
    assert_eq!(decode_utf_string_pair(&mut half), (Err(Error::BoundaryCrossed), 0));
    assert_eq!(half.len(), 6);

    let blob = encode_binary_data(Bytes::from(vec![0xFF, 0x00, 0x80])).unwrap();
    assert_eq!(blob.to_vec(), vec![0, 3, 0xFF, 0x00, 0x80]);
    let mut stream = Bytes::from(vec![0, 3, 0xFF, 0x00, 0x80, 9, 9]);
    let (got, used) = decode_binary_data(&mut stream);
    assert_eq!(got, Ok(Bytes::from(vec![0xFF, 0x00, 0x80])));
    assert_eq!(used, 5);
    assert_eq!(stream.to_vec(), vec![9, 9]);
    assert_eq!(encode_binary_data(Bytes::from(vec![0u8; 65_536])), Err(Error::PayloadTooLong));
}

#[test]
fn property_block_is_read_into_a_record() {
    let block = vec![
        21, // length
        0x01, 0x01, // payload format indicator
        0x02, 0x00, 0x00, 0x01, 0x00, // message expiry interval = 256
        0x0B, 0x80, 0x01, // subscription identifier = 128
        0x23, 0x01, 0x02, // topic alias = 258
        0x09, 0x00, 0x02, 0xAA, 0xBB, // correlation data
        0x13, 0x00, 0x3C, // server keep alive = 60
        0x77, // what follows the block
    ];
    let mut stream = Bytes::from(block);
    let props = extract_properties(&mut stream).unwrap().unwrap();
    assert_eq!(stream.to_vec(), vec![0x77]);
    assert_eq!(props.payload_format_indicator, Some(1));
    assert_eq!(props.message_expiry_interval, Some(256));
    assert_eq!(props.subscription_identifier, Some(128));
    assert_eq!(props.topic_alias, Some(258));
    assert_eq!(props.correlation_data, Some(vec![0xAA, 0xBB]));
    assert_eq!(props.server_keep_alive, Some(60));
    assert_eq!(props.content_type, None);
    assert_eq!(props.user_property, None);

    let mut empty = Bytes::from(vec![0x00, 0x05]);
    assert_eq!(extract_properties(&mut empty), Ok(None));
    assert_eq!(empty.to_vec(), vec![0x05]);
}

#[test]
fn every_identifier_of_the_table_is_read_with_its_type() {
    let mut body: Vec<u8> = Vec::new();
    for id in [1u8, 23, 25, 36, 37, 40, 41, 42] {
        body.extend([id, id + 100]);
    }
    for id in [19u8, 33, 34, 35] {
        body.extend([id, 0x01, id]);
    }
    for id in [2u8, 17, 24, 39] {
        body.extend([id, 0x00, 0x00, 0x02, id]);
    }
    body.extend([11, 0xFF, 0x7F]);
    for id in [3u8, 8, 18, 21, 26, 28, 31] {
        body.extend([id, 0x00, 0x01, b'A' + id]);
    }
    for id in [9u8, 22] {
        body.extend([id, 0x00, 0x01, id]);
    }
    body.extend([38, 0, 1, b'k', 0, 1, b'v']);
    assert_eq!(body.len(), 94);
    let mut block = vec![94u8];
    block.extend(body);
    let mut stream = Bytes::from(block);
    let p = extract_properties(&mut stream).unwrap().unwrap();
    assert!(stream.is_empty());
    assert_eq!(p.payload_format_indicator, Some(101));
    assert_eq!(p.request_problem_info, Some(123));
    assert_eq!(p.request_response_info, Some(125));
    assert_eq!(p.maximum_qos, Some(136));
    assert_eq!(p.retain_available, Some(137));
    assert_eq!(p.wildcard_subscription_available, Some(140));
    assert_eq!(p.subscription_identifier_available, Some(141));
    assert_eq!(p.shared_subscription_available, Some(142));
    assert_eq!(p.server_keep_alive, Some(256 + 19));
    assert_eq!(p.receive_maximum, Some(256 + 33));
    assert_eq!(p.topic_alias_maximum, Some(256 + 34));
    assert_eq!(p.topic_alias, Some(256 + 35));
    assert_eq!(p.message_expiry_interval, Some(512 + 2));
    assert_eq!(p.session_expiry_interval, Some(512 + 17));
    assert_eq!(p.will_delay_interval, Some(512 + 24));
    assert_eq!(p.maximum_packet_size, Some(512 + 39));
    assert_eq!(p.subscription_identifier, Some(16_383));
    assert_eq!(p.content_type, Some("D".to_owned()));
    assert_eq!(p.response_topic, Some("I".to_owned()));
    assert_eq!(p.assigned_client_identifier, Some("S".to_owned()));
    assert_eq!(p.authentication_method, Some("V".to_owned()));
    assert_eq!(p.response_info, Some("[".to_owned()));
    assert_eq!(p.server_info, Some("]".to_owned()));
    assert_eq!(p.reason_string, Some("`".to_owned()));
    assert_eq!(p.correlation_data, Some(vec![9]));
    assert_eq!(p.authentication_data, Some(vec![22]));
    assert_eq!(p.user_property, Some(("k".to_owned(), "v".to_owned())));
}

#[test]
fn property_blocks_that_cannot_be_read() {
    // an identifier outside the table
    let mut unknown = Bytes::from(vec![0x02, 0x04, 0x01]);
    assert_eq!(extract_properties(&mut unknown), Err(Error::InvalidProperty));
    assert_eq!(unknown.len(), 3);
    let mut zero = Bytes::from(vec![0x02, 0x00, 0x01]);
    assert_eq!(extract_properties(&mut zero), Err(Error::InvalidProperty));
    // the same identifier twice
    let mut twice = Bytes::from(vec![0x04, 0x01, 0x00, 0x01, 0x01]);
    assert_eq!(extract_properties(&mut twice), Err(Error::InvalidProperty));
    // a value that runs past the block
    let mut overrun = Bytes::from(vec![0x03, 0x02, 0x00, 0x00, 0x00, 0x05]);
    assert_eq!(extract_properties(&mut overrun), Err(Error::BoundaryCrossed));
    assert_eq!(overrun.len(), 6);
    // a block that runs past the buffer
    let mut beyond = Bytes::from(vec![0x05, 0x01, 0x00]);
    assert_eq!(extract_properties(&mut beyond), Err(Error::BoundaryCrossed));
    // no length at all, and a length that never ends
    let mut nothing = Bytes::new();
    assert_eq!(extract_properties(&mut nothing), Err(Error::BoundaryCrossed));
    let mut endless = Bytes::from(vec![0x80, 0x80, 0x80, 0x80, 0x01]);
    assert_eq!(extract_properties(&mut endless), Err(Error::MalformedVariableByteInteger));
    // a string that is not UTF-8
    let mut bad_text = Bytes::from(vec![0x04, 0x03, 0x00, 0x01, 0xFF]);
    assert_eq!(extract_properties(&mut bad_text), Err(Error::TopicNotUtf8));
}

#[test]
fn of_several_user_properties_the_first_one_counts() {
    let mut stream = Bytes::from(vec![
        14, 38, 0, 1, b'a', 0, 1, b'1', 38, 0, 1, b'b', 0, 1, b'2',
    ]);
    let props = extract_properties(&mut stream).unwrap().unwrap();
    assert_eq!(props.user_property, Some(("a".to_owned(), "1".to_owned())));
    assert!(stream.is_empty());
}

#[test]
fn properties_are_written_in_the_order_of_their_identifiers() {
    let mut publish = Publish::new("t", QoS::AtMostOnce, vec![0xAA]);
    publish.properties = Some(PublishProperties {
        payload_format_indicator: Some(1),
        message_expiry_interval: None,
        topic_alias: Some(7),
        response_topic: None,
        correlation_data: None,
        user_property: Some(("k".to_owned(), "v".to_owned())),
        subscription_identifier: Some(5),
        content_type: Some("x".to_owned()),
    });
    let frame = mqtt_write(Packet::Publish(publish)).unwrap();
    assert_eq!(
        frame.to_vec(),
        vec![
            0x30, 23, // publish, remaining length
            0x00, 0x01, b't', // topic
            18,   // length of the properties
            0x01, 0x01, // payload format indicator
            0x03, 0x00, 0x01, b'x', // content type
            0x0B, 0x05, // subscription identifier
            0x23, 0x00, 0x07, // topic alias
            0x26, 0x00, 0x01, b'k', 0x00, 0x01, b'v', // user property
            0xAA, // payload
        ]
    );
}

#[test]
fn properties_of_another_packet_type_are_dropped() {
    // a PUBACK with a reason string and a topic alias, which it has no field for
    let packet = read_all(&[0x40, 10, 0x00, 0x01, 0x10, 6, 0x1F, 0x00, 0x00, 0x23, 0x00, 0x07])
        .unwrap();
    assert_eq!(
        packet,
        Packet::PubAck(PubAck {
            pkid: 1,
            reason_code: 0x10,
            properties: Some(PubAckProperties {
                reason_string: Some(String::new()),
                user_property: None
            }),
        })
    );
}

fn connect_with_everything() -> Connect {
    Connect {
        protocol: Protocol::MQTT(5),
        proto_name: "MQTT".to_owned(),
        keep_alive: 300,
        flags: ConnectFlags {
            username: true,
            password: true,
            will_retain: true,
            will_qos: 2,
            will_flag: true,
            clean_session: false,
            reserved: 0,
        },
        properties: Some(ConnectProperties {
            session_expiry_interval: Some(3600),
            receive_maximum: Some(20),
            maximum_packet_size: Some(1 << 20),
            topic_alias_maximum: Some(5),
            request_response_information: Some(1),
            request_problem_information: Some(0),
            user_property: Some(("a".to_owned(), "b".to_owned())),
            authentication_methods: Some("plain".to_owned()),
            authentication_data: Some(vec![1, 2, 3]),
        }),
        payload: ConnectPayload {
            client_id: "client".to_owned(),
            will_props: Some(WillProperties {
                will_delay_interval: Some(10),
                payload_format_indicator: Some(1),
                message_expiry_interval: Some(60),
                content_type: Some("text".to_owned()),
                response_topic: Some("answers".to_owned()),
                correlation_data: Some(vec![9, 8]),
                user_property: None,
            }),
            will_topic: Some("dead".to_owned()),
            will_payload: Some("bye".to_owned()),
            username: Some("user".to_owned()),
            password: Some("secret".to_owned()),
        },
    }
}

#[test]
fn every_packet_type_reads_back_as_it_was_written() {
    round_trip(Packet::Connect(Connect::new("plain-client")));
    round_trip(Packet::Connect(connect_with_everything()));
    let mut version_4 = Connect::new("old");
    version_4.protocol = Protocol::MQTT(4);
    version_4.flags.will_flag = true;
    version_4.flags.will_qos = 1;
    version_4.payload.will_topic = Some("w".to_owned());
    version_4.payload.will_payload = Some(String::new());
    round_trip(Packet::Connect(version_4));

    round_trip(Packet::ConnAck(ConnAck::new(0, true, None)));
    round_trip(Packet::ConnAck(ConnAck::new(
        0x85,
        false,
        Some(ConnackProperties {
            session_expiry_interval: Some(1),
            assigned_client_identifier: Some("given".to_owned()),
            server_keep_alive: Some(30),
            authentication_method: None,
            authentication_data: None,
            response_info: Some("r".to_owned()),
            server_info: Some("elsewhere".to_owned()),
            reason_string: Some("no".to_owned()),
            user_property: Some(("k".to_owned(), "v".to_owned())),
            receive_maximum: Some(10),
            topic_alias_maximum: Some(0),
            maximum_qos: Some(1),
            retain_available: Some(1),
            maximum_packet_size: Some(4096),
            wildcard_subscription_available: Some(1),
            subscription_identifier_available: Some(0),
            shared_subscription_available: Some(0),
        }),
    )));

    round_trip(Packet::Publish(Publish::new("a/b", QoS::AtMostOnce, vec![])));
    let mut publish = Publish::new("a/b/c", QoS::ExactlyOnce, vec![0; 300]);
    publish.set_pkid(65_535);
    publish.dup = true;
    publish.retain = true;
    publish.properties = Some(PublishProperties {
        payload_format_indicator: None,
        message_expiry_interval: Some(u32::MAX),
        topic_alias: None,
        response_topic: Some("r".to_owned()),
        correlation_data: Some(vec![]),
        user_property: None,
        subscription_identifier: Some(268_435_455),
        content_type: None,
    });
    round_trip(Packet::Publish(publish));

    let reason = Some(PubAckProperties {
        reason_string: Some("why".to_owned()),
        user_property: None,
    });
    round_trip(Packet::PubAck(PubAck::new(1, None)));
    round_trip(Packet::PubAck(PubAck { pkid: 2, reason_code: 0x80, properties: None }));
    round_trip(Packet::PubAck(PubAck { pkid: 3, reason_code: 0, properties: reason }));
    round_trip(Packet::PubRec(PubRec::new(4)));
    round_trip(Packet::PubRec(PubRec { pkid: 5, reason_code: 0x91, properties: None }));
    round_trip(Packet::PubRel(PubRel::new(6, None)));
    round_trip(Packet::PubComp(PubComp::new(7, None)));

    let mut subscribe = Subscribe::new("a/+", QoS::AtLeastOnce);
    subscribe.add("#".to_owned(), QoS::ExactlyOnce);
    subscribe.pkid = 11;
    subscribe.properties = Some(SubscribeProperties {
        subscription_identifier: Some(1),
        user_property: None,
    });
    round_trip(Packet::Subscribe(subscribe));
    round_trip(Packet::SubAck(SubAck::new(
        11,
        vec![
            SubscribeReturnCodes::Success(QoS::AtMostOnce),
            SubscribeReturnCodes::Failure,
            SubscribeReturnCodes::Success(QoS::ExactlyOnce),
        ],
        Some(SubAckProperties { reason_string: None, user_property: Some((String::new(), String::new())) }),
    )));
    round_trip(Packet::SubAck(SubAck::new(12, vec![], None)));
    round_trip(Packet::Unsubscribe(Unsubscribe {
        pkid: 13,
        topics: vec!["a".to_owned(), "b/#".to_owned()],
        properties: Some(UnsubscribeProperties {
            user_property: Some(("k".to_owned(), "v".to_owned())),
        }),
    }));
    round_trip(Packet::UnsubAck(UnsubAck { pkid: 13, reason_codes: vec![], properties: None }));
    round_trip(Packet::UnsubAck(UnsubAck {
        pkid: 14,
        reason_codes: vec![0x00, 0x11],
        properties: Some(UnsubAckProperties { reason_string: Some("r".to_owned()), user_property: None }),
    }));
    round_trip(Packet::PingReq);
    round_trip(Packet::PingResp);
    round_trip(Packet::Disconnect(Disconnect { reason_code: 0x04, properties: None }));
    round_trip(Packet::Disconnect(Disconnect {
        reason_code: 0x8E,
        properties: Some(DisconnectProperties {
            session_expiry_interval: Some(0),
            reason_string: Some("taken over".to_owned()),
            user_property: None,
            server_reference: Some("other".to_owned()),
        }),
    }));
    round_trip(Packet::Auth(Auth {
        reason_code: 0x18,
        properties: Some(AuthProperties {
            authentication_method: Some("scram".to_owned()),
            authentication_data: Some(vec![0xDE, 0xAD]),
            reason_string: None,
            user_property: None,
        }),
    }));
}

#[test]
fn first_bytes_and_short_forms() {
    assert_eq!(mqtt_write(Packet::PingReq).unwrap().to_vec(), vec![0xC0, 0x00]);
    assert_eq!(mqtt_write(Packet::PingResp).unwrap().to_vec(), vec![0xD0, 0x00]);
    assert_eq!(
        mqtt_write(Packet::PubAck(PubAck::new(258, None))).unwrap().to_vec(),
        vec![0x40, 0x02, 0x01, 0x02]
    );
    assert_eq!(
        mqtt_write(Packet::PubRel(PubRel { pkid: 1, reason_code: 0x92, properties: None }))
            .unwrap()
            .to_vec(),
        vec![0x62, 0x04, 0x00, 0x01, 0x92, 0x00]
    );
    assert_eq!(
        mqtt_write(Packet::Subscribe(Subscribe::new("a", QoS::ExactlyOnce))).unwrap().to_vec(),
        vec![0x82, 0x07, 0x00, 0x00, 0x00, 0x00, 0x01, b'a', 0x02]
    );
    assert_eq!(
        mqtt_write(Packet::Unsubscribe(Unsubscribe {
            pkid: 3,
            topics: vec!["a".to_owned()],
            properties: None
        }))
        .unwrap()
        .to_vec(),
        vec![0xA2, 0x06, 0x00, 0x03, 0x00, 0x00, 0x01, b'a']
    );
    assert_eq!(
        mqtt_write(Packet::Disconnect(Disconnect { reason_code: 0, properties: None }))
            .unwrap()
            .to_vec(),
        vec![0xE0, 0x02, 0x00, 0x00]
    );
    let mut publish = Publish::new("t", QoS::ExactlyOnce, vec![1]);
    publish.set_pkid(2);
    publish.dup = true;
    publish.retain = true;
    assert_eq!(
        mqtt_write(Packet::Publish(publish)).unwrap().to_vec(),
        vec![0x3D, 0x07, 0x00, 0x01, b't', 0x00, 0x02, 0x00, 0x01]
    );
    // a remaining length of 128 takes two bytes
    let long = mqtt_write(Packet::Publish(Publish::new("t", QoS::AtMostOnce, vec![0; 124]))).unwrap();
    assert_eq!(&long[..3], &[0x30, 0x80, 0x01]);
    assert_eq!(long.len(), 131);
}

#[test]
fn a_buffer_that_ends_inside_a_packet_needs_more_bytes() {
    let mut publish = Publish::new("some/topic", QoS::AtLeastOnce, vec![7; 200]);
    publish.set_pkid(9);
    let frames = vec![
        mqtt_write(Packet::Connect(connect_with_everything())).unwrap(),
        mqtt_write(Packet::Publish(publish)).unwrap(),
        mqtt_write(Packet::PubAck(PubAck::new(1, None))).unwrap(),
        mqtt_write(Packet::PingReq).unwrap(),
        mqtt_write(Packet::Subscribe(Subscribe::new("a/#", QoS::AtMostOnce))).unwrap(),
    ];
    for frame in frames {
        for cut in 0..frame.len() {
            let mut stream = BytesMut::from(&frame[..cut]);
            assert_eq!(mqtt_read(&mut stream, 1_000), Err(Error::UnexpectedEof));
            assert_eq!(&stream[..], &frame[..cut]);
        }
        let mut whole = BytesMut::from(&frame[..]);
        assert!(mqtt_read(&mut whole, 1_000).is_ok());
    }
}

#[test]
fn packets_are_read_one_after_the_other() {
    let mut stream = BytesMut::new();
    stream.extend_from_slice(&mqtt_write(Packet::PingReq).unwrap());
    stream.extend_from_slice(&mqtt_write(Packet::PubAck(PubAck::new(5, None))).unwrap());
    stream.extend_from_slice(&mqtt_write(Packet::PingResp).unwrap());
    stream.extend_from_slice(&[0x40]);
    assert_eq!(mqtt_read(&mut stream, 10), Ok(Packet::PingReq));
    assert_eq!(mqtt_read(&mut stream, 10), Ok(Packet::PubAck(PubAck::new(5, None))));
    assert_eq!(mqtt_read(&mut stream, 10), Ok(Packet::PingResp));
    assert_eq!(mqtt_read(&mut stream, 10), Err(Error::UnexpectedEof));
    assert_eq!(&stream[..], &[0x40]);
    stream.extend_from_slice(&[0x02, 0x00, 0x06]);
    assert_eq!(mqtt_read(&mut stream, 10), Ok(Packet::PubAck(PubAck::new(6, None))));
    assert!(stream.is_empty());
    assert_eq!(mqtt_read(&mut stream, 10), Err(Error::UnexpectedEof));
}

#[test]
fn packet_identifier_zero_belongs_to_quality_of_service_zero() {
    // on the wire
    assert_eq!(
        read_all(&[0x32, 0x07, 0x00, 0x01, b't', 0x00, 0x00, 0x00, 0x01]),
        Err(Error::PacketIdZero)
    );
    assert_eq!(
        read_all(&[0x34, 0x06, 0x00, 0x01, b't', 0x00, 0x00, 0x00]),
        Err(Error::PacketIdZero)
    );
    match read_all(&[0x30, 0x05, 0x00, 0x01, b't', 0x00, 0x09]).unwrap() {
        Packet::Publish(p) => {
            assert_eq!(p.pkid, 0);
            assert_eq!(p.payload, Bytes::from(vec![0x09]));
        }
        other => panic!("not a publish: {:?}", other),
    }
    // in a packet to be written
    let unnumbered = Publish::new("t", QoS::AtLeastOnce, vec![1]);
    assert_eq!(mqtt_write(Packet::Publish(unnumbered)), Err(Error::IncorrectPacketFormat));
    let mut numbered = Publish::new("t", QoS::AtMostOnce, vec![1]);
    numbered.set_pkid(4);
    assert_eq!(mqtt_write(Packet::Publish(numbered)), Err(Error::IncorrectPacketFormat));
}

#[test]
fn frames_that_are_refused() {
    // the limit on the payload comes before the wait for more bytes
    let mut big = BytesMut::from(&[0x30u8, 0x65][..]);
    assert_eq!(mqtt_read(&mut big, 100), Err(Error::PayloadSizeLimitExceeded));
    assert_eq!(big.len(), 2);
    let mut at_limit = BytesMut::from(&[0x30u8, 0x64][..]);
    assert_eq!(mqtt_read(&mut at_limit, 100), Err(Error::UnexpectedEof));

    let mut endless = BytesMut::from(&[0x10u8, 0xFF, 0xFF, 0xFF, 0xFF, 0x01][..]);
    assert_eq!(mqtt_read(&mut endless, 100), Err(Error::MalformedVariableByteInteger));
    assert_eq!(endless.len(), 6);

    // a whole frame leaves the buffer, whatever it holds
    let mut no_type = BytesMut::from(&[0x00u8, 0x01, 0x00, 0xC0, 0x00][..]);
    assert_eq!(mqtt_read(&mut no_type, 100), Err(Error::InvalidPacketType(0)));
    assert_eq!(mqtt_read(&mut no_type, 100), Ok(Packet::PingReq));

    for first in [0x10u8, 0x20, 0x30, 0x40, 0x82, 0xE0, 0xF0] {
        let mut empty = BytesMut::from(&[first, 0x00, 0xD0, 0x00][..]);
        assert_eq!(mqtt_read(&mut empty, 100), Err(Error::PayloadRequired));
        assert_eq!(mqtt_read(&mut empty, 100), Ok(Packet::PingResp));
    }
}

#[test]
fn connects_that_are_refused() {
    assert_eq!(
        read_all(&[0x10, 0x0D, 0, 4, b'M', b'Q', b'T', b'X', 5, 2, 0, 60, 0, 0, 0]),
        Err(Error::InvalidProtocol)
    );
    assert_eq!(
        read_all(&[0x10, 0x0F, 0, 6, b'M', b'Q', b'I', b's', b'd', b'p', 3, 2, 0, 60, 0, 0, 0]),
        Err(Error::InvalidProtocol)
    );
    assert_eq!(
        read_all(&[0x10, 0x0D, 0, 4, b'M', b'Q', b'T', b'T', 3, 2, 0, 60, 0, 0, 0]),
        Err(Error::InvalidProtocolLevel(3))
    );
    assert_eq!(
        read_all(&[0x10, 0x0D, 0, 4, b'M', b'Q', b'T', b'T', 5, 3, 0, 60, 0, 0, 0]),
        Err(Error::IncorrectPacketFormat)
    );
    assert_eq!(
        read_all(&[0x10, 0x0D, 0, 4, b'M', b'Q', b'T', b'T', 5, 0x1C, 0, 60, 0, 0, 0]),
        Err(Error::InvalidQoS(3))
    );
    // bytes after the last field
    assert_eq!(
        read_all(&[0x10, 0x0E, 0, 4, b'M', b'Q', b'T', b'T', 5, 2, 0, 60, 0, 0, 0, 9]),
        Err(Error::PayloadSizeIncorrect)
    );
    // the user name that the flags announce is missing
    assert_eq!(
        read_all(&[0x10, 0x0D, 0, 4, b'M', b'Q', b'T', b'T', 5, 0x82, 0, 60, 0, 0, 0]),
        Err(Error::BoundaryCrossed)
    );
    // version 3.1.1 has no property block: the client id follows the keep alive
    match read_all(&[0x10, 0x0D, 0, 4, b'M', b'Q', b'T', b'T', 4, 2, 0, 60, 0, 1, b'c']).unwrap() {
        Packet::Connect(c) => {
            assert_eq!(c.protocol, Protocol::MQTT(4));
            assert_eq!(c.payload.client_id, "c");
            assert_eq!(c.properties, None);
        }
        other => panic!("not a connect: {:?}", other),
    }
}

#[test]
fn packets_of_the_wrong_size_or_level() {
    assert_eq!(read_all(&[0x40, 0x01, 0x00]), Err(Error::PayloadSizeIncorrect));
    assert_eq!(
        read_all(&[0x40, 0x06, 0x00, 0x01, 0x00, 0x00, 0x09, 0x09]),
        Err(Error::PayloadSizeIncorrect)
    );
    assert_eq!(read_all(&[0x20, 0x01, 0x00]), Err(Error::PayloadSizeIncorrect));
    assert_eq!(read_all(&[0x36, 0x04, 0x00, 0x01, b't', 0x00]), Err(Error::InvalidQoS(3)));
    assert_eq!(
        read_all(&[0x82, 0x07, 0x00, 0x01, 0x00, 0x00, 0x01, b'a', 0x03]),
        Err(Error::InvalidQoS(3))
    );
    assert_eq!(read_all(&[0x90, 0x04, 0x00, 0x01, 0x00, 0x03]), Err(Error::InvalidQoS(3)));
    assert_eq!(read_all(&[0x82, 0x03, 0x00, 0x01, 0x00]), Err(Error::PayloadRequired));
    assert_eq!(read_all(&[0xA2, 0x03, 0x00, 0x01, 0x00]), Err(Error::PayloadRequired));
    assert_eq!(read_all(&[0x30, 0x03, 0x00, 0x05, b't']), Err(Error::BoundaryCrossed));
    assert_eq!(read_all(&[0x30, 0x03, 0x00, 0x01, 0xFF]), Err(Error::TopicNotUtf8));
    assert_eq!(read_all(&[0x30, 0x05, 0x00, 0x01, b't', 0x01, 0x07]), Err(Error::InvalidProperty));
    // a PINGREQ with a body is still a PINGREQ
    assert_eq!(read_all(&[0xC0, 0x01, 0x00]), Ok(Packet::PingReq));
}

#[test]
fn packets_that_cannot_be_written() {
    let long: String = std::iter::repeat('x').take(65_536).collect();
    let too_long = Publish::new(&long, QoS::AtMostOnce, vec![]);
    assert_eq!(mqtt_write(Packet::Publish(too_long)), Err(Error::PayloadTooLong));

    let mut reason = PubAck::new(1, None);
    reason.properties = Some(PubAckProperties { reason_string: Some(long.clone()), user_property: None });
    assert_eq!(mqtt_write(Packet::PubAck(reason)), Err(Error::PayloadTooLong));

    let mut big_id = Subscribe::new("a", QoS::AtMostOnce);
    big_id.properties = Some(SubscribeProperties {
        subscription_identifier: Some(268_435_456),
        user_property: None,
    });
    assert_eq!(mqtt_write(Packet::Subscribe(big_id)), Err(Error::PayloadTooLong));

    // a property set that holds nothing would not read back as itself
    let mut hollow = PubAck::new(1, None);
    hollow.properties = Some(PubAckProperties { reason_string: None, user_property: None });
    assert_eq!(mqtt_write(Packet::PubAck(hollow)), Err(Error::IncorrectPacketFormat));

    assert_eq!(
        mqtt_write(Packet::Subscribe(Subscribe::empty_subscribe())),
        Err(Error::IncorrectPacketFormat)
    );
    let mut flags_disagree = Connect::new("c");
    flags_disagree.flags.username = true;
    assert_eq!(mqtt_write(Packet::Connect(flags_disagree)), Err(Error::IncorrectPacketFormat));
    let mut other_name = Connect::new("c");
    other_name.proto_name = "MQIsdp".to_owned();
    assert_eq!(mqtt_write(Packet::Connect(other_name)), Err(Error::IncorrectPacketFormat));
    let mut old_with_properties = connect_with_everything();
    old_with_properties.protocol = Protocol::MQTT(4);
    assert_eq!(
        mqtt_write(Packet::Connect(old_with_properties)),
        Err(Error::IncorrectPacketFormat)
    );
}

#[test]
fn wildcards_match_by_level() {
    assert!(topic_matches("a/x/c", "a/+/c"));
    assert!(topic_matches("a/y/c", "a/+/c"));
    assert!(!topic_matches("a/x/y/c", "a/+/c"));
    assert!(!topic_matches("a/c", "a/+/c"));
    assert!(topic_matches("a//c", "a/+/c"));
    assert!(topic_matches("a/b", "a/#"));
    assert!(topic_matches("a/b/c/d", "a/#"));
    assert!(topic_matches("a/", "a/#"));
    assert!(topic_matches("a", "a/#"));
    assert!(!topic_matches("ab/c", "a/#"));
    assert!(!topic_matches("b/a", "a/#"));
    assert!(topic_matches("anything/at/all", "#"));
    assert!(topic_matches("a/b", "a/b"));
    assert!(!topic_matches("a/b", "a/b/c"));
    assert!(!topic_matches("a/b/c", "a/b"));
    assert!(!topic_matches("a/b", "a/c"));
    assert!(topic_matches("", ""));
    assert!(topic_matches("/", "+/+"));
    assert!(!topic_matches("$SYS/load", "#"));
    assert!(!topic_matches("$SYS/load", "$SYS/load"));
    // a filter in the place of the topic: `#` is covered by `#` alone
    assert!(topic_matches("a/+/c", "a/#"));
    assert!(!topic_matches("a/#", "a/+/c"));
    assert!(topic_matches("a/#", "#"));
    assert!(topic_matches("caf\u{e9}/au/lait", "caf\u{e9}/+/lait"));

    assert!(has_wildcards("a/+/c"));
    assert!(has_wildcards("#"));
    assert!(!has_wildcards("a/b/c"));
    assert!(!has_wildcards(""));
}

#[test]
fn builders_give_what_they_say() {
    let connect = Connect::new("me");
    assert_eq!(
        connect.clone().disassemble().unwrap(),
        mqtt_write(Packet::Connect(connect.clone())).unwrap()
    );
    assert_eq!(connect.payload.client_id, "me");
    assert_eq!(connect.protocol, Protocol::MQTT(5));
    assert_eq!(connect.proto_name, "MQTT");
    assert_eq!(connect.keep_alive, 60);
    assert!(connect.flags.clean_session);
    assert_eq!(connect.last_will(), None);
    assert!(connect.is_canonical());

    let with_will = connect_with_everything();
    assert_eq!(
        with_will.last_will(),
        Some(LastWill {
            topic: "dead".to_owned(),
            message: "bye".to_owned(),
            qos: QoS::ExactlyOnce,
            retain: true
        })
    );

    let mut publish = Publish::new("t", QoS::AtLeastOnce, vec![1, 2]);
    assert_eq!(publish.pkid, 0);
    assert!(!publish.dup && !publish.retain);
    assert!(publish.bytes.is_empty());
    assert!(!publish.is_canonical());
    publish.set_pkid(3);
    assert_eq!(publish.pkid, 3);
    assert!(publish.is_canonical());
    assert_eq!(publish.duplicate(), publish);

    let mut subscribe = Subscribe::empty_subscribe();
    assert!(subscribe.topics.is_empty());
    subscribe.add("a".to_owned(), QoS::AtMostOnce);
    assert_eq!(subscribe.topics, Subscribe::new("a", QoS::AtMostOnce).topics);
    assert_eq!(PubRec::new(4), PubRec { pkid: 4, reason_code: 0, properties: None });
    assert_eq!(PubRel::new(5, None).pkid, 5);
    assert_eq!(PubComp::new(6, None).reason_code, 0);
    let ack = ConnAck::new(0x87, true, None);
    assert_eq!((ack.reason_code, ack.session_present), (0x87, true));
}

#[test]
fn errors_describe_themselves() {
    assert_eq!(Error::PacketIdZero.message(), "Invalid packet identifier = 0");
    assert_eq!(Error::UnexpectedEof.message(), "EOF. Not enough data in buffer");
    assert_eq!(Error::InvalidQoS(3).message(), "Unsupported QoS");
    assert_eq!(Error::InvalidProperty.message(), "Invalid property");
}

#[test]
fn topic_rules_agree_with_rumq_core() {
    let levels = ["a", "b", "", "+", "#", "$sys", "a+", "sy$tem", "caf\u{e9}", "x#"];
    let mut strings: Vec<String> = vec![String::new(), "/".to_owned()];
    for first in levels {
        strings.push(first.to_owned());
        for second in levels {
            strings.push(format!("{}/{}", first, second));
            for third in ["a", "+", "#", ""] {
                strings.push(format!("{}/{}/{}", first, second, third));
            }
        }
    }
    assert_eq!(strings.len(), 512);
    for topic in &strings {
        assert_eq!(has_wildcards(topic), rumq_core::mqtt4::has_wildcards(topic));
        for filter in &strings {
            assert_eq!(
                rumq_broker::codec::topic::matches(topic, filter),
                Some(rumq_core::mqtt4::matches(topic, filter)),
                "topic {:?}, filter {:?}",
                topic,
                filter
            );
        }
    }
}

#[test]
fn topic_that_begins_with_a_wide_character_is_not_judged() {
    assert_eq!(rumq_broker::codec::topic::matches("\u{e9}t\u{e9}/a", "#"), None);
    assert_eq!(rumq_broker::codec::topic::matches("\u{e9}", "\u{e9}"), None);
    assert_eq!(rumq_broker::codec::topic::matches("\u{20ac}/a", "+/a"), None);
    assert_eq!(rumq_broker::codec::topic::matches("a/\u{e9}", "a/+"), Some(true));
    assert_eq!(rumq_broker::codec::topic::matches("a/\u{e9}", "\u{e9}/+"), Some(false));
    assert_eq!(rumq_broker::codec::topic::matches("", "\u{e9}"), Some(false));
    assert_eq!(rumq_broker::codec::topic::matches("\u{7f}", "+"), Some(true));
}
