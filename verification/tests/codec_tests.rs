//! Frame codec behaviour: round trips, exact bytes, malformed input.

use sni_icon::codec::{decode_client_payload, decode_server_payload, encode_client_payload,
    encode_server_payload, frame_bytes, parse_frame_len, WireError};
use sni_icon::wire::{ClientEvent, IconClientEvent, IconData, IconServerEvent, IconType,
    ServerEvent};

fn roundtrip_client(ev: IconClientEvent) {
    let payload = encode_client_payload(&ev).expect("encodable");
    let back = decode_client_payload(payload.as_slice()).expect("decodable");
    assert_eq!(back, ev);
}

fn roundtrip_server(ev: IconServerEvent) {
    let payload = encode_server_payload(&ev).expect("encodable");
    let back = decode_server_payload(payload.as_slice()).expect("decodable");
    assert_eq!(back, ev);
}

#[test]
fn client_create_roundtrip() {
    roundtrip_client(IconClientEvent {
        id: 1,
        event: ClientEvent::Create {
            category: "ApplicationStatus".to_owned(),
            app_id: "Example".to_owned(),
            is_menu: false,
        },
    });
}

#[test]
fn client_title_roundtrip() {
    roundtrip_client(IconClientEvent { id: 2, event: ClientEvent::Title(Some("hi".to_owned())) });
    roundtrip_client(IconClientEvent { id: 3, event: ClientEvent::Title(None) });
}

#[test]
fn client_status_roundtrip() {
    roundtrip_client(IconClientEvent {
        id: 4,
        event: ClientEvent::Status(Some("Active".to_owned())),
    });
    roundtrip_client(IconClientEvent { id: 5, event: ClientEvent::Status(None) });
}

#[test]
fn client_icon_roundtrip() {
    roundtrip_client(IconClientEvent {
        id: 6,
        event: ClientEvent::Icon {
            typ: IconType::Normal,
            data: vec![
                IconData { width: 1, height: 1, data: vec![9, 8, 7, 6] },
                IconData { width: 0, height: 0, data: vec![] },
            ],
        },
    });
}

#[test]
fn client_remove_icon_roundtrip() {
    roundtrip_client(IconClientEvent { id: 7, event: ClientEvent::RemoveIcon(IconType::Overlay) });
    roundtrip_client(IconClientEvent {
        id: 8,
        event: ClientEvent::RemoveIcon(IconType::Attention),
    });
}

#[test]
fn client_destroy_roundtrip() {
    roundtrip_client(IconClientEvent { id: 9, event: ClientEvent::Destroy });
}

#[test]
fn client_tooltip_roundtrip() {
    roundtrip_client(IconClientEvent {
        id: 10,
        event: ClientEvent::Tooltip {
            icon_data: vec![IconData { width: 1, height: 1, data: vec![1, 2, 3, 4] }],
            title: "tool".to_owned(),
            description: "tip with unicode: \u{e9}\u{2192}".to_owned(),
        },
    });
    roundtrip_client(IconClientEvent { id: 11, event: ClientEvent::RemoveTooltip });
}

#[test]
fn server_roundtrips() {
    roundtrip_server(IconServerEvent { id: 1, event: ServerEvent::Activate { x: 10, y: 20 } });
    roundtrip_server(IconServerEvent { id: 2, event: ServerEvent::ContextMenu { x: -5, y: 7 } });
    roundtrip_server(IconServerEvent {
        id: 3,
        event: ServerEvent::SecondaryActivate { x: i32::MIN, y: i32::MAX },
    });
    roundtrip_server(IconServerEvent {
        id: 4,
        event: ServerEvent::Scroll { delta: -3, orientation: "vertical".to_owned() },
    });
}

#[test]
fn destroy_exact_bytes() {
    let ev = IconClientEvent { id: 7, event: ClientEvent::Destroy };
    let payload = encode_client_payload(&ev).unwrap();
    assert_eq!(payload, vec![7, 0, 0, 0, 0, 0, 0, 0, 5]);
}

#[test]
fn title_exact_bytes() {
    let ev = IconClientEvent { id: 1, event: ClientEvent::Title(Some("ab".to_owned())) };
    let payload = encode_client_payload(&ev).unwrap();
    assert_eq!(
        payload,
        vec![1, 0, 0, 0, 0, 0, 0, 0, 1, 1, 2, 0, 0, 0, b'a', b'b']
    );
}

#[test]
fn frame_has_little_endian_length_prefix() {
    let ev = IconClientEvent { id: 7, event: ClientEvent::Destroy };
    let payload = encode_client_payload(&ev).unwrap();
    let frame = frame_bytes(payload.clone()).unwrap();
    assert_eq!(frame[0..4], [9, 0, 0, 0]);
    assert_eq!(&frame[4..], payload.as_slice());
}

#[test]
fn oversized_frame_prefix_is_refused() {
    // A length prefix of 0xFFFFFFFF must be refused before anything is
    // allocated for the payload.
    let prefix = [0xFF, 0xFF, 0xFF, 0xFF];
    assert_eq!(parse_frame_len(&prefix), Err(WireError::ExcessiveLength));
    // The limit itself is accepted; one above is not.
    assert_eq!(parse_frame_len(&[0, 0, 0, 0x80]), Ok(0x8000_0000usize));
    assert_eq!(parse_frame_len(&[1, 0, 0, 0x80]), Err(WireError::ExcessiveLength));
}

#[test]
fn trailing_bytes_are_refused() {
    let ev = IconClientEvent { id: 1, event: ClientEvent::Destroy };
    let mut payload = encode_client_payload(&ev).unwrap();
    payload.push(0);
    assert_eq!(
        decode_client_payload(payload.as_slice()),
        Err(WireError::MalformedFrame)
    );
}

#[test]
fn truncated_payload_is_refused() {
    let ev = IconClientEvent { id: 1, event: ClientEvent::Title(Some("hello".to_owned())) };
    let payload = encode_client_payload(&ev).unwrap();
    for cut in 0..payload.len() {
        assert_eq!(
            decode_client_payload(&payload[..cut]),
            Err(WireError::MalformedFrame),
            "prefix of length {} must not decode",
            cut
        );
    }
}

#[test]
fn unknown_tag_is_refused() {
    let payload = vec![1, 0, 0, 0, 0, 0, 0, 0, 99];
    assert_eq!(
        decode_client_payload(payload.as_slice()),
        Err(WireError::MalformedFrame)
    );
    let payload = vec![1, 0, 0, 0, 0, 0, 0, 0, 4, 3];
    assert_eq!(
        decode_client_payload(payload.as_slice()),
        Err(WireError::MalformedFrame),
        "3 is not an icon-type bit"
    );
}

#[test]
fn invalid_utf8_is_refused() {
    // Title(Some(..)) with a 1-byte string that is not UTF-8.
    let payload = vec![1, 0, 0, 0, 0, 0, 0, 0, 1, 1, 1, 0, 0, 0, 0xFF];
    assert_eq!(
        decode_client_payload(payload.as_slice()),
        Err(WireError::MalformedFrame)
    );
}

#[test]
fn bad_bool_is_refused() {
    // Create with is_menu byte equal to 2.
    let mut payload = vec![1, 0, 0, 0, 0, 0, 0, 0, 0];
    payload.extend_from_slice(&[1, 0, 0, 0, b'c']);
    payload.extend_from_slice(&[1, 0, 0, 0, b'a']);
    payload.push(2);
    assert_eq!(
        decode_client_payload(payload.as_slice()),
        Err(WireError::MalformedFrame)
    );
}
