use socketio::json::Json;
use socketio::json::Member;
use socketio::message::Body;
use socketio::message::Message;
use socketio::message::get_name_and_body;
use socketio::reconstruct::reconstruct;
use socketio::error::SocketError;

fn num_arr(ns: &[i64]) -> Json {
    Json::Arr(ns.iter().map(|n| Json::Num(*n)).collect())
}

fn placeholder(num: i64) -> Json {
    Json::Obj(vec![
        Member { key: "_placeholder".to_owned(), value: Json::Bool(true) },
        Member { key: "num".to_owned(), value: Json::Num(num) },
    ])
}

#[test]
fn name_and_body() {
    let j_data = Json::Arr(vec![
        Json::Str("Hello".to_owned()),
        num_arr(&[1, 2, 3, 4, 5, 6]),
    ]);
    let (name, body) = get_name_and_body(j_data).expect("Failed to get name and body.");

    assert_eq!(&name, "Hello");
    assert_eq!(body, num_arr(&[1, 2, 3, 4, 5, 6]));
}

#[test]
fn parse_str() {
    let s = r#"2["test-s-string",{"server":"Hello"}]"#;
    let m = s.parse::<Message>().expect("Failed to parse message from string.");

    assert_eq!("/", m.namespace());
    if let Body::Event { ref data, id, ref name } = *m.body() {
        let object = Json::Obj(vec![Member {
            key: "server".to_owned(),
            value: Json::Str("Hello".to_owned()),
        }]);

        assert_eq!(name, "test-s-string");
        assert_eq!(id, None);
        assert_eq!(data.clone(), object);
    } else {
        panic!("Message body wasn't an event body.");
    }
}

#[test]
fn parse_str_and_reconstruct() {
    let s = r#"52-["test-s-buf",[{"_placeholder":true,"num":0},{"_placeholder":true,"num":1}]]"#;
    let mut m = s.parse::<Message>().expect("Failed to parse message from string.");
    let b_data = vec![vec![1u8, 2u8, 3u8], vec![4u8, 5u8, 6u8]];
    m.reconstruct(&b_data).expect("Reconstructing failed.");

    assert_eq!("/", m.namespace());
    if let Body::BinaryEvent { attachment_count, ref data, id, ref name } = *m.body() {
        let j_b_data = Json::Arr(vec![
            Json::Bin(vec![1u8, 2u8, 3u8]),
            Json::Bin(vec![4u8, 5u8, 6u8]),
        ]);

        assert_eq!(attachment_count, 2);
        assert_eq!(name, "test-s-buf");
        assert_eq!(id, None);
        assert_eq!(data.clone(), j_b_data);

        println!("{:?}\n{:?}", m, j_b_data);
    } else {
        panic!("Message body wasn't a binary event body.");
    }
}

#[test]
fn reconstruct_raw_1() {
    let object1 = placeholder(0);
    let object2 = object1.clone();
    let mut objects = Json::Arr(vec![object1, object2]);
    let b_data = vec![vec![1u8, 2u8, 3u8], vec![4u8, 5u8, 6u8]];

    reconstruct(&mut objects, &b_data, 512).expect("Inserting the attachments failed.");

    let ideal_result = Json::Arr(vec![
        Json::Bin(vec![1u8, 2u8, 3u8]),
        Json::Bin(vec![1u8, 2u8, 3u8]),
    ]);
    assert_eq!(objects, ideal_result);
}

#[test]
fn reconstruct_raw_2() {
    let mut object = Json::Obj(vec![
        Member { key: "member1".to_owned(), value: Json::Bool(true) },
        Member { key: "b_data".to_owned(), value: placeholder(0) },
    ]);

    let b_data = vec![vec![1u8, 2u8, 3u8]];

    reconstruct(&mut object, &b_data, 512).expect("Inserting the attachments failed.");

    let ideal_result = Json::Obj(vec![
        Member { key: "member1".to_owned(), value: Json::Bool(true) },
        Member { key: "b_data".to_owned(), value: Json::Bin(vec![1u8, 2u8, 3u8]) },
    ]);
    assert_eq!(object, ideal_result);
}

#[test]
fn round_trip_connect_default() {
    let m = Message::with_default_namespace(Body::Connect);
    let text = m.encode();
    assert_eq!(text, "0");
    let back = Message::decode(&text).expect("round trip failed");
    assert_eq!(back, m);
}

#[test]
fn round_trip_event_with_everything() {
    let body = Body::Event {
        data: Json::Obj(vec![Member { key: "a".to_owned(), value: Json::Num(-7) }]),
        id: Some(41),
        name: "ev\"nt".to_owned(),
    };
    let m = Message::new("/chat", body);
    let text = m.encode();
    assert_eq!(text, "2/chat,41[\"ev\\\"nt\",{\"a\":-7}]");
    let back = Message::decode(&text).expect("round trip failed");
    assert_eq!(back, m);
}

#[test]
fn round_trip_binary_event() {
    let body = Body::BinaryEvent {
        attachment_count: 2,
        data: Json::Arr(vec![placeholder(0), placeholder(1)]),
        id: None,
        name: "buf".to_owned(),
    };
    let m = Message::with_default_namespace(body);
    let text = m.encode();
    assert_eq!(text, "52-[\"buf\",[{\"_placeholder\":true,\"num\":0},{\"_placeholder\":true,\"num\":1}]]");
    let back = Message::decode(&text).expect("round trip failed");
    assert_eq!(back, m);
}

#[test]
fn round_trip_acks_and_disconnect() {
    for m in [
        Message::new("/nsp", Body::Ack(5)),
        Message::with_default_namespace(Body::BinaryAck(0)),
        Message::new("/x", Body::Disconnect),
        Message::with_default_namespace(Body::Error(Json::Str("oops".to_owned()))),
    ] {
        let text = m.encode();
        let back = Message::decode(&text).expect("round trip failed");
        assert_eq!(back, m);
    }
}

#[test]
fn encode_field_order() {
    assert_eq!(Message::new("/nsp", Body::Ack(5)).encode(), "3/nsp,5");
    assert_eq!(Message::with_default_namespace(Body::BinaryAck(9)).encode(), "60-9");
    assert_eq!(Message::new("/d", Body::Disconnect).encode(), "1/d,");
}

#[test]
fn namespace_default_when_absent() {
    let m = Message::decode("0").expect("connect should parse");
    assert_eq!(m.namespace(), "/");
    let m = Message::decode("1").expect("disconnect should parse");
    assert_eq!(m.namespace(), "/");
}

#[test]
fn namespace_explicit() {
    let m = Message::decode("0/chat,").expect("connect with namespace should parse");
    assert_eq!(m.namespace(), "/chat");
    assert_eq!(*m.body(), Body::Connect);
}

#[test]
fn ack_id_required() {
    assert_eq!(Message::decode("3"), Err(SocketError::MissingAckId));
    assert_eq!(Message::decode("3/nsp,"), Err(SocketError::MissingAckId));
    assert_eq!(Message::decode("62-"), Err(SocketError::MissingAckId));
    assert_eq!(Message::decode("37").unwrap().body(), &Body::Ack(7));
    assert_eq!(Message::decode("62-7").unwrap().body(), &Body::BinaryAck(7));
}

#[test]
fn event_id_optional() {
    let m = Message::decode("2[\"a\"]").expect("event without id should parse");
    assert!(matches!(m.body(), Body::Event { id: None, .. }));
    let m = Message::decode("50-[\"a\"]").expect("binary event without id should parse");
    assert!(matches!(m.body(), Body::BinaryEvent { id: None, .. }));
}

#[test]
fn ack_id_out_of_range() {
    assert_eq!(Message::decode("39999999999"), Err(SocketError::AckIdOutOfRange));
}

#[test]
fn attachment_count_gating() {
    assert_eq!(Message::decode("5"), Err(SocketError::InvalidAttachmentCount));
    assert_eq!(Message::decode("6"), Err(SocketError::InvalidAttachmentCount));
    assert_eq!(Message::decode("5[\"a\"]"), Err(SocketError::InvalidAttachmentCount));
    assert_eq!(Message::decode("5-[\"a\"]"), Err(SocketError::InvalidAttachmentCount));
    assert_eq!(Message::decode("5x2-[\"a\"]"), Err(SocketError::InvalidAttachmentCount));
    assert_eq!(Message::decode("599999999999-[\"a\"]"), Err(SocketError::InvalidAttachmentCount));
}

#[test]
fn event_payload_shape() {
    let m = Message::decode("2[\"name\"]").expect("event should parse");
    assert_eq!(
        *m.body(),
        Body::Event { data: Json::Null, id: None, name: "name".to_owned() },
    );
    assert_eq!(Message::decode("2[]"), Err(SocketError::PayloadArrayEmpty));
    assert_eq!(Message::decode("2{\"x\":1}"), Err(SocketError::PayloadNotArray));
    assert_eq!(Message::decode("2[42,\"x\"]"), Err(SocketError::NameNotString));
}

#[test]
fn reconstruct_flat() {
    let mut payload = Json::Arr(vec![placeholder(0)]);
    reconstruct(&mut payload, &vec![vec![1u8, 2u8, 3u8]], 512).expect("should succeed");
    assert_eq!(payload, Json::Arr(vec![Json::Bin(vec![1u8, 2u8, 3u8])]));
}

#[test]
fn reconstruct_nested() {
    let mut payload = Json::Obj(vec![
        Member { key: "member1".to_owned(), value: Json::Bool(true) },
        Member { key: "data".to_owned(), value: placeholder(0) },
    ]);
    reconstruct(&mut payload, &vec![vec![1u8, 2u8, 3u8]], 512).expect("should succeed");
    assert_eq!(
        payload,
        Json::Obj(vec![
            Member { key: "member1".to_owned(), value: Json::Bool(true) },
            Member { key: "data".to_owned(), value: Json::Bin(vec![1u8, 2u8, 3u8]) },
        ]),
    );
}

#[test]
fn reconstruct_index_out_of_range() {
    let mut payload = Json::Arr(vec![placeholder(1)]);
    let r = reconstruct(&mut payload, &vec![vec![1u8]], 512);
    assert_eq!(r, Err(SocketError::AttachmentIndexOutOfRange));

    let mut negative = Json::Arr(vec![placeholder(-1)]);
    let r = reconstruct(&mut negative, &vec![vec![1u8]], 512);
    assert_eq!(r, Err(SocketError::AttachmentIndexOutOfRange));
}

#[test]
fn reconstruct_depth_bound() {
    let mut payload = Json::Arr(vec![Json::Arr(vec![placeholder(0)])]);
    let expected = payload.clone();
    reconstruct(&mut payload, &vec![vec![1u8]], 2).expect("depth-bounded walk still succeeds");
    assert_eq!(payload, expected);

    let mut reachable = Json::Arr(vec![Json::Arr(vec![placeholder(0)])]);
    reconstruct(&mut reachable, &vec![vec![1u8]], 3).expect("should succeed");
    assert_eq!(
        reachable,
        Json::Arr(vec![Json::Arr(vec![Json::Bin(vec![1u8])])]),
    );
}

#[test]
fn reconstruct_other_bodies_untouched() {
    let mut m = Message::decode("2[\"a\"]").expect("event should parse");
    let before = m.clone();
    m.reconstruct(&vec![]).expect("non-binary bodies are untouched");
    assert_eq!(m, before);
}

#[test]
fn illegal_type_digit() {
    assert_eq!(Message::decode("9"), Err(SocketError::MalformedType('9')));
    assert_eq!(Message::decode("x[\"a\"]"), Err(SocketError::MalformedType('x')));
}

#[test]
fn empty_input() {
    assert_eq!(Message::decode(""), Err(SocketError::UnexpectedEof));
    assert_eq!(Message::decode("2"), Err(SocketError::UnexpectedEof));
}

#[test]
fn json_syntax_error_location() {
    match Message::decode("2[\"a\",}]") {
        Err(SocketError::JsonSyntax { line, col }) => {
            assert_eq!(line, 1);
            assert_eq!(col, 6);
        },
        other => panic!("expected a JSON syntax error, got {:?}", other),
    }
}

#[test]
fn json_payload_forms() {
    let m = Message::decode("4{\"code\":-3,\"why\":[null,true,false,\"x\"]}")
        .expect("error packet should parse");
    let expected = Json::Obj(vec![
        Member { key: "code".to_owned(), value: Json::Num(-3) },
        Member {
            key: "why".to_owned(),
            value: Json::Arr(vec![
                Json::Null,
                Json::Bool(true),
                Json::Bool(false),
                Json::Str("x".to_owned()),
            ]),
        },
    ]);
    assert_eq!(*m.body(), Body::Error(expected));
}

#[test]
fn unicode_escapes_decode() {
    let m = Message::decode("2[\"caf\\u00e9\"]").expect("\\u escape should parse");
    assert!(matches!(m.body(), Body::Event { name, .. } if name == "caf\u{e9}"));

    let m = Message::decode("2[\"hi\\u0041\"]").expect("\\u escape should parse");
    assert!(matches!(m.body(), Body::Event { name, .. } if name == "hiA"));
}

#[test]
fn unicode_escapes_surrogate_pair() {
    let m = Message::decode("2[\"\\ud83d\\ude00\"]").expect("surrogate pair should parse");
    assert!(matches!(m.body(), Body::Event { name, .. } if name == "\u{1F600}"));

    match Message::decode("2[\"\\ude00\"]") {
        Err(SocketError::JsonSyntax { .. }) => {},
        other => panic!("lone low surrogate must be refused, got {:?}", other),
    }
    match Message::decode("2[\"\\ud83dxx\"]") {
        Err(SocketError::JsonSyntax { .. }) => {},
        other => panic!("unpaired high surrogate must be refused, got {:?}", other),
    }
}

#[test]
fn control_characters_round_trip_escaped() {
    let body = Body::Event {
        data: Json::Str("a\u{1}b".to_owned()),
        id: None,
        name: "n\u{0}l".to_owned(),
    };
    let m = Message::with_default_namespace(body);
    let text = m.encode();
    assert_eq!(text, "2[\"n\\u0000l\",\"a\\u0001b\"]");
    let back = Message::decode(&text).expect("round trip failed");
    assert_eq!(back, m);
}

#[test]
fn named_escapes_round_trip() {
    let body = Body::Event { data: Json::Null, id: None, name: "a\n\t\r\u{8}\u{c}b".to_owned() };
    let m = Message::with_default_namespace(body);
    let text = m.encode();
    assert_eq!(text, "2[\"a\\n\\t\\r\\b\\fb\"]");
    let back = Message::decode(&text).expect("round trip failed");
    assert_eq!(back, m);
}

#[test]
fn leading_zero_numbers_refused() {
    match Message::decode("2[\"a\",01]") {
        Err(SocketError::JsonSyntax { .. }) => {},
        other => panic!("leading zero must be refused, got {:?}", other),
    }
    match Message::decode("4-07") {
        Err(SocketError::JsonSyntax { .. }) => {},
        other => panic!("leading zero must be refused, got {:?}", other),
    }
    let m = Message::decode("2[\"a\",0]").expect("a plain zero parses");
    assert!(matches!(m.body(), Body::Event { data: Json::Num(0), .. }));
}

#[test]
fn unterminated_namespace_is_eof() {
    assert_eq!(Message::decode("0/nsp"), Err(SocketError::UnexpectedEof));
    assert_eq!(Message::decode("2/nsp[\"a\"]"), Err(SocketError::UnexpectedEof));
}

#[test]
fn json_escapes_and_whitespace() {
    let m = Message::decode("2[ \"a\\n\\\"b\" , 17 ]").expect("should parse");
    assert_eq!(
        *m.body(),
        Body::Event { data: Json::Num(17), id: None, name: "a\n\"b".to_owned() },
    );
}

#[test]
fn deconstruct_strips_buffers() {
    let mut payload = Json::Obj(vec![
        Member { key: "member1".to_owned(), value: Json::Bool(true) },
        Member {
            key: "data".to_owned(),
            value: Json::Arr(vec![Json::Bin(vec![1u8, 2u8]), Json::Bin(vec![3u8])]),
        },
    ]);
    let bufs = socketio::reconstruct::deconstruct(&mut payload).expect("should succeed");
    assert_eq!(bufs, vec![vec![1u8, 2u8], vec![3u8]]);
    assert_eq!(
        payload,
        Json::Obj(vec![
            Member { key: "member1".to_owned(), value: Json::Bool(true) },
            Member {
                key: "data".to_owned(),
                value: Json::Arr(vec![placeholder(0), placeholder(1)]),
            },
        ]),
    );

    let mut back = payload.clone();
    socketio::reconstruct::reconstruct(&mut back, &bufs, 512).expect("should succeed");
    assert_eq!(
        back,
        Json::Obj(vec![
            Member { key: "member1".to_owned(), value: Json::Bool(true) },
            Member {
                key: "data".to_owned(),
                value: Json::Arr(vec![Json::Bin(vec![1u8, 2u8]), Json::Bin(vec![3u8])]),
            },
        ]),
    );
}

#[test]
fn error_builders() {
    let e = SocketError::invalid_data("Data was invalid.");
    assert_eq!(e, SocketError::Io("Data was invalid.".to_owned()));
    let e = SocketError::invalid_state("Data was invalid.");
    assert_eq!(e, SocketError::InvalidState("Data was invalid.".to_owned()));
    assert!(!SocketError::MissingAckId.description().is_empty());
    assert_eq!(SocketError::Utf8.description(), "UTF-8 data was invalid.");
    assert_eq!(SocketError::Unknown.description(), "Unknown socket.io error.");
    assert_eq!(
        SocketError::MissingAckId.description(),
        "Received ack packet without an ID.",
    );
}
