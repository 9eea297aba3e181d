use smartfox::packet::Packet;

#[test]
fn parse_server_packet() {
    assert_eq!(
        "%xt%dwd%1%0%".parse::<Packet>().unwrap(),
        Packet {
            name: "dwd".to_string(),
            room: "".to_string(),
            data: "".to_string(),
        }
    );
    assert_eq!(
        r#"%xt%gbd%1%0%{"gpi":{"UID":0}}%"#.parse::<Packet>().unwrap(),
        Packet {
            name: "gbd".to_string(),
            room: "".to_string(),
            data: r#"{"gpi":{"UID":0}}"#.to_string(),
        }
    );
}

#[test]
fn parse_long_server_packet() {
    assert_eq!(
        "efroniveioej54549945wj9awjoawoiwa2322131298489439834#@*($&*($(*(*$@))))"
            .parse::<Packet>()
            .unwrap(),
        Packet {
            name: "".to_string(),
            room: "".to_string(),
            data: "efroniveioej54549945wj9awjoawoiwa2322131298489439834#@*($&*($(*(*$@))))"
                .to_string(),
        }
    )
}

#[test]
fn display_server_packet() {
    assert_eq!(
        Packet {
            name: "erguiriu".to_string(),
            room: "".to_string(),
            data: "dsimoreoib".to_string(),
        }
        .debug_string(),
        "erguiriu  @              ( dsimoreoib ... )".to_string()
    );
}

#[test]
fn serialize_client_packet() {
    assert_eq!(
        Packet {
            name: "friofr".to_string(),
            room: "Hello room".to_string(),
            data: "{43gjo}".to_string(),
        }
        .to_string(),
        "%xt%Hello room%friofr%1%0{43gjo}%".to_string()
    );
}

#[test]
fn parse_packet_without_marker_separator() {
    assert_eq!(
        r#"%xt%gbd%1%0{"gpi":{"UID":0}}%"#.parse::<Packet>().unwrap(),
        Packet {
            name: "gbd".to_string(),
            room: "".to_string(),
            data: r#"{"gpi":{"UID":0}}"#.to_string(),
        }
    );
}

#[test]
fn serialize_then_parse_round_trip() {
    let p = Packet {
        name: "gbd".to_string(),
        room: "".to_string(),
        data: r#"{"gpi":{"UID":0}}"#.to_string(),
    };
    assert_eq!(p.to_string(), r#"%xt%gbd%1%0{"gpi":{"UID":0}}%"#);
    assert_eq!(p.to_string().parse::<Packet>().unwrap(), p);
}

#[test]
fn passthrough_serializes_back_verbatim() {
    let text = "<msg t='sys'><body action='verChk' r='0'><ver v='166' /></body></msg>";
    let p = text.parse::<Packet>().unwrap();
    assert_eq!(p.name, "");
    assert_eq!(p.room, "");
    assert_eq!(p.data, text);
    assert_eq!(p.to_string(), text);
}

#[test]
fn parse_empty_input() {
    assert_eq!(
        "".parse::<Packet>().unwrap(),
        Packet {
            name: "".to_string(),
            room: "".to_string(),
            data: "".to_string(),
        }
    );
}

#[test]
fn parse_trims_all_trailing_percents() {
    assert_eq!(
        "%xt%abc%1%0data%%%".parse::<Packet>().unwrap(),
        Packet {
            name: "abc".to_string(),
            room: "".to_string(),
            data: "data".to_string(),
        }
    );
}

#[test]
fn serialize_raw_packet_is_data_verbatim() {
    let p = Packet {
        name: "".to_string(),
        room: "Hello room".to_string(),
        data: "{43gjo}".to_string(),
    };
    assert_eq!(p.to_string(), "{43gjo}");
}

#[test]
fn debug_string_clips_long_payload() {
    let p = Packet {
        name: "abcdefghijkl".to_string(),
        room: "room".to_string(),
        data: "x".repeat(100),
    };
    assert_eq!(
        p.debug_string(),
        format!("abcdefghijkl @ room         ( {} ... )", "x".repeat(64))
    );
}
