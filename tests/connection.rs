use mcproxy::config::{Config, Motd, MotdVersion, Server, Target};
use mcproxy::handler::{handle_packet, read_handshake, status_response, Context, HandleResult};
use mcproxy::io::{write_varint, ProtocolError};

fn frame(body: &[u8]) -> Vec<u8> {
    let mut out = Vec::new();
    write_varint(&mut out, body.len() as i32);
    out.extend_from_slice(body);
    out
}

fn handshake(protocol: i32, host: &str, port: u16, intent: i32) -> Vec<u8> {
    let mut body = Vec::new();
    write_varint(&mut body, 0x00);
    write_varint(&mut body, protocol);
    write_varint(&mut body, host.len() as i32);
    body.extend_from_slice(host.as_bytes());
    body.extend_from_slice(&port.to_be_bytes());
    write_varint(&mut body, intent);
    frame(&body)
}

fn ping(value: i64) -> Vec<u8> {
    let mut body = vec![0x01];
    body.extend_from_slice(&value.to_be_bytes());
    frame(&body)
}

fn motd(protocol: Option<i32>, ping: bool) -> Motd {
    Motd {
        version: MotdVersion { name: Some("1.8".to_string()), protocol },
        description: Some(serde_json::Value::String("hello".to_string())),
        favicon: None,
        players: None,
        ping,
    }
}

fn config(motd: Option<Motd>) -> Config {
    Config {
        host: "0.0.0.0".to_string(),
        port: 25565,
        motd,
        servers: Some(vec![Server {
            src: Target { host: Some("localhost".to_string()), port: None },
            dst: "127.0.0.1:25566".to_string(),
        }]),
    }
}

#[test]
fn handshake_fields_are_read() {
    let packet = handshake(47, "localhost", 25565, 2);
    let mut pos = 2;
    let hs = read_handshake(&packet, &mut pos).unwrap();
    assert_eq!(hs.version, 47);
    assert_eq!(hs.host, "localhost");
    assert_eq!(hs.port, 25565);
    assert_eq!(hs.intent, 2);
    assert_eq!(pos, packet.len());
}

#[test]
fn scenario_forward() {
    let config = config(None);
    let mut ctx = Context::default();
    let packet = handshake(47, "localhost", 25565, 2);
    match handle_packet(&config, &mut ctx, &packet) {
        Ok(HandleResult::Forward((dst, bytes))) => {
            assert_eq!(dst, "127.0.0.1:25566");
            assert_eq!(bytes, packet);
        }
        other => panic!("unexpected {:?}", other),
    }
    assert_eq!(ctx.protocol, Some(47));
}

#[test]
fn forward_keeps_non_canonical_prefix_and_drops_trailing_bytes() {
    let config = config(None);
    let mut ctx = Context::default();
    let packet = handshake(47, "localhost", 25565, 1);
    let mut padded = vec![packet[0] | 0x80, 0x00];
    padded.extend_from_slice(&packet[1..]);
    let n = padded.len();
    padded.extend_from_slice(&[0x01, 0x00]);
    match handle_packet(&config, &mut ctx, &padded) {
        Ok(HandleResult::Forward((_, bytes))) => assert_eq!(bytes, padded[..n].to_vec()),
        other => panic!("unexpected {:?}", other),
    }
}

#[test]
fn scenario_no_route_no_fallback() {
    let config = config(None);
    let mut ctx = Context::default();
    let packet = handshake(47, "elsewhere", 25565, 1);
    assert!(matches!(handle_packet(&config, &mut ctx, &packet), Ok(HandleResult::Close)));
    assert_eq!(ctx.protocol, Some(47));
}

#[test]
fn scenario_fallback_status_and_ping() {
    let config = config(Some(motd(None, true)));
    let mut ctx = Context::default();
    let packet = handshake(47, "elsewhere", 25565, 1);
    assert!(matches!(handle_packet(&config, &mut ctx, &packet), Ok(HandleResult::Continue)));

    let request = frame(&[0x00]);
    assert!(matches!(
        handle_packet(&config, &mut ctx, &request),
        Ok(HandleResult::SendStatus(47))
    ));

    let json = br#"{"version":{"name":"1.8","protocol":47}}"#;
    let answer = status_response(json);
    let mut expected = vec![(json.len() + 2) as u8, 0x00, json.len() as u8];
    expected.extend_from_slice(json);
    assert_eq!(answer, expected);

    let p = ping(123456);
    match handle_packet(&config, &mut ctx, &p) {
        Ok(HandleResult::Echo(bytes)) => assert_eq!(bytes, p),
        other => panic!("unexpected {:?}", other),
    }
}

#[test]
fn status_reports_configured_protocol_first() {
    let config = config(Some(motd(Some(340), true)));
    let mut ctx = Context { protocol: Some(47) };
    assert!(matches!(
        handle_packet(&config, &mut ctx, &frame(&[0x00])),
        Ok(HandleResult::SendStatus(340))
    ));
}

#[test]
fn ping_disabled_sends_nothing() {
    let config = config(Some(motd(None, false)));
    let mut ctx = Context { protocol: Some(47) };
    assert!(matches!(handle_packet(&config, &mut ctx, &ping(1)), Ok(HandleResult::Continue)));
}

#[test]
fn short_ping_fails() {
    let config = config(Some(motd(None, true)));
    let mut ctx = Context { protocol: Some(47) };
    assert!(matches!(
        handle_packet(&config, &mut ctx, &frame(&[0x01, 0x00, 0x01])),
        Err(ProtocolError::UnexpectedEof)
    ));
}

#[test]
fn empty_handshake_is_passed_over() {
    let config = config(Some(motd(None, true)));
    let mut ctx = Context::default();
    assert!(matches!(
        handle_packet(&config, &mut ctx, &frame(&[0x00])),
        Ok(HandleResult::Continue)
    ));
    assert_eq!(ctx.protocol, None);
}

#[test]
fn ping_before_handshake_closes() {
    let config = config(Some(motd(None, true)));
    let mut ctx = Context::default();
    assert!(matches!(handle_packet(&config, &mut ctx, &ping(5)), Ok(HandleResult::Close)));
}

#[test]
fn unknown_packet_closes() {
    let config = config(Some(motd(None, true)));
    let mut ctx = Context { protocol: Some(47) };
    assert!(matches!(
        handle_packet(&config, &mut ctx, &frame(&[0x05, 0x01])),
        Ok(HandleResult::Close)
    ));
}

#[test]
fn second_handshake_after_fallback_closes() {
    let config = config(Some(motd(None, true)));
    let mut ctx = Context::default();
    let other = handshake(47, "elsewhere", 25565, 1);
    assert!(matches!(handle_packet(&config, &mut ctx, &other), Ok(HandleResult::Continue)));
    let routed = handshake(47, "localhost", 25565, 2);
    assert!(matches!(handle_packet(&config, &mut ctx, &routed), Ok(HandleResult::Close)));
}

#[test]
fn malformed_handshake_fails_and_keeps_context() {
    let config = config(None);
    let mut ctx = Context::default();
    let mut body = vec![0x00, 0x2F, 0x05];
    body.extend_from_slice(b"ab");
    assert!(matches!(
        handle_packet(&config, &mut ctx, &frame(&body)),
        Err(ProtocolError::UnexpectedEof)
    ));
    assert_eq!(ctx.protocol, None);
}

#[test]
fn truncated_packet_fails() {
    let config = config(None);
    let mut ctx = Context::default();
    assert!(matches!(
        handle_packet(&config, &mut ctx, &[0x05, 0x00]),
        Err(ProtocolError::UnexpectedEof)
    ));
}

#[test]
fn status_response_of_empty_document() {
    assert_eq!(status_response(b""), vec![0x02, 0x00, 0x00]);
}

#[test]
fn status_response_with_two_byte_length() {
    let json = vec![b'x'; 200];
    let answer = status_response(&json);
    assert_eq!(&answer[..5], &[0xCB, 0x01, 0x00, 0xC8, 0x01]);
    assert_eq!(answer.len(), 5 + 200);
}
