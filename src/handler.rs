//! The per-connection decisions: what a packet from the client means in the
//! connection's current state, and what the connection does next.
//!
//! A connection starts out waiting for a handshake. A handshake whose host and
//! port have a routing entry hands the connection to the relay; one without
//! leaves it answering status and ping requests locally, if a status document
//! is configured, and closes it otherwise.

use vstd::prelude::*;
use vstd::slice::{slice_subrange, slice_to_vec};

use crate::config::Config;
use crate::io::{
    i64_at, lemma_string_round_trip, lemma_varint_round_trip, prefixed_at, read_i64, read_packet,
    read_string, read_u16, read_varint, string_at, string_frame, u16_at, varint_at, varint_bytes,
    varint_encoding, varint_size, write_varint, ProtocolError,
};
use vstd::utf8::encode_utf8;

verus! {

/// What the connection does after a packet.
#[derive(Debug)]
pub enum HandleResult {
    /// Wait for the next packet.
    Continue,
    /// Close the connection.
    Close,
    /// Connect to the address, send it these bytes (the client's handshake
    /// packet as it arrived), then relay bytes both ways.
    Forward((String, Vec<u8>)),
    /// Answer with the status document, reporting this protocol number, then
    /// wait for the next packet.
    SendStatus(i32),
    /// Send these bytes back to the client, then wait for the next packet.
    Echo(Vec<u8>),
}

/// A `HandleResult` with its strings and buffers seen as sequences.
pub enum Decision {
    Continue,
    Close,
    Forward(Seq<char>, Seq<u8>),
    SendStatus(i32),
    Echo(Seq<u8>),
}

impl View for HandleResult {
    type V = Decision;

    open spec fn view(&self) -> Decision {
        match self {
            HandleResult::Continue => Decision::Continue,
            HandleResult::Close => Decision::Close,
            HandleResult::Forward((dst, bytes)) => Decision::Forward(dst@, bytes@),
            HandleResult::SendStatus(p) => Decision::SendStatus(*p),
            HandleResult::Echo(bytes) => Decision::Echo(bytes@),
        }
    }
}

/// What a connection remembers between packets: the protocol version from
/// the client's handshake, absent until a handshake was read.
#[derive(Debug)]
pub struct Context {
    pub protocol: Option<i32>,
}

impl Default for Context {
    fn default() -> (r: Self)
        ensures
            r.protocol is None,
    {
        Context { protocol: None }
    }
}

/// The fields of a client's handshake.
#[derive(Debug)]
pub struct Handshake {
    pub version: i32,
    pub host: String,
    pub port: u16,
    pub intent: i32,
}

/// The handshake fields at the start of `s` (protocol version, host, port,
/// intent) and the number of bytes they take.
pub open spec fn handshake_at(s: Seq<u8>) -> Result<((i32, Seq<char>, u16, i32), nat), ProtocolError> {
    match varint_at(s) {
        Err(e) => Err(e),
        Ok((version, a)) => match string_at(s.skip(a as int)) {
            Err(e) => Err(e),
            Ok((host, b)) => match u16_at(s.skip((a + b) as int)) {
                Err(e) => Err(e),
                Ok((port, c)) => match varint_at(s.skip((a + b + c) as int)) {
                    Err(e) => Err(e),
                    Ok((intent, d)) => Ok(((version, host, port, intent), a + b + c + d)),
                },
            },
        },
    }
}

/// Reads the handshake fields at `*pos` and moves `*pos` past them.
pub fn read_handshake(buf: &[u8], pos: &mut usize) -> (r: Result<Handshake, ProtocolError>)
    requires
        *old(pos) <= buf@.len(),
    ensures
        match handshake_at(buf@.subrange(*old(pos) as int, buf@.len() as int)) {
            Ok((h, n)) => r matches Ok(hs) && (hs.version, hs.host@, hs.port, hs.intent) == h
                && *final(pos) == *old(pos) + n,
            Err(e) => r == Err::<Handshake, ProtocolError>(e),
        },
{
    let ghost start = *pos as int;
    let ghost s = buf@.subrange(start, buf@.len() as int);
    let version = match read_varint(buf, pos) {
        Ok(v) => v,
        Err(e) => return Err(e),
    };
    assert(s.skip(*pos - start) =~= buf@.subrange(*pos as int, buf@.len() as int));
    let host = match read_string(buf, pos) {
        Ok(h) => h,
        Err(e) => return Err(e),
    };
    assert(s.skip(*pos - start) =~= buf@.subrange(*pos as int, buf@.len() as int));
    let port = match read_u16(buf, pos) {
        Ok(p) => p,
        Err(e) => return Err(e),
    };
    assert(s.skip(*pos - start) =~= buf@.subrange(*pos as int, buf@.len() as int));
    let intent = match read_varint(buf, pos) {
        Ok(i) => i,
        Err(e) => return Err(e),
    };
    Ok(Handshake { version, host, port, intent })
}

/// The protocol number a status answer reports: the configured one, else
/// the client's, else zero.
pub open spec fn status_protocol(configured: Option<i32>, client: Option<i32>) -> i32 {
    match configured {
        Some(p) => p,
        None => match client {
            Some(p) => p,
            None => 0,
        },
    }
}

/// What a connection does with the packet framed at the start of `frame`,
/// given the protocol version it has from a handshake (absent while it still
/// waits for one), and the protocol version it has afterwards.
///
/// While waiting for a handshake: a handshake is routed; an empty status
/// request is passed over; anything else closes. After a handshake that no
/// entry routed: status requests get the status document, pings are echoed
/// as they came if the document allows it, anything else closes.
pub open spec fn next_step(config: Config, protocol: Option<i32>, frame: Seq<u8>) -> Result<
    (Decision, Option<i32>),
    ProtocolError,
> {
    match prefixed_at(frame) {
        Err(e) => Err(e),
        Ok((body, used)) => match varint_at(body) {
            Err(e) => Err(e),
            Ok((id, n)) => if id == 0 && body.len() > 1 {
                if protocol is Some {
                    Ok((Decision::Close, protocol))
                } else {
                    match handshake_at(body.skip(n as int)) {
                        Err(e) => Err(e),
                        Ok(((version, host, port, _intent), _)) => Ok(
                            (
                                match config.route(host, port) {
                                    Some(server) => Decision::Forward(
                                        server.dst@,
                                        frame.take(used as int),
                                    ),
                                    None => if config.motd is Some {
                                        Decision::Continue
                                    } else {
                                        Decision::Close
                                    },
                                },
                                Some(version),
                            ),
                        ),
                    }
                }
            } else if id == 0 {
                match config.motd {
                    Some(motd) => if protocol is Some {
                        Ok(
                            (
                                Decision::SendStatus(
                                    status_protocol(motd.version.protocol, protocol),
                                ),
                                protocol,
                            ),
                        )
                    } else {
                        Ok((Decision::Continue, protocol))
                    },
                    None => Ok((Decision::Continue, protocol)),
                }
            } else if id == 1 {
                if protocol is None {
                    Ok((Decision::Close, protocol))
                } else {
                    match i64_at(body.skip(n as int)) {
                        Err(e) => Err(e),
                        Ok(_) => match config.motd {
                            Some(motd) => if motd.ping {
                                Ok((Decision::Echo(frame.take(used as int)), protocol))
                            } else {
                                Ok((Decision::Continue, protocol))
                            },
                            None => Ok((Decision::Continue, protocol)),
                        },
                    }
                }
            } else {
                Ok((Decision::Close, protocol))
            },
        },
    }
}

/// Once a connection has read a handshake that was not routed, it stays in
/// that state, and no later packet hands it to the relay: a connection is
/// relayed or answered locally, never both.
pub proof fn lemma_unrouted_stays_local(config: Config, protocol: i32, frame: Seq<u8>)
    ensures
        next_step(config, Some(protocol), frame) matches Ok((d, p)) ==> p == Some(protocol)
            && !(d is Forward),
{
}

/// The wire form of a handshake packet: its length prefix, then id zero, the
/// protocol version, the host, the port in big-endian order and the intent.
pub open spec fn handshake_frame(version: i32, host: Seq<char>, port: u16, intent: i32) -> Seq<u8> {
    let body = varint_bytes(0) + handshake_fields(version, host, port, intent);
    varint_bytes(body.len() as i32) + body
}

/// A connection that waits for a handshake routes a handshake packet by its
/// host and port alone, whatever the intent: to the first entry that admits
/// them, forwarding the packet exactly as it came; with no such entry it stays
/// to answer locally if a status document is configured, and closes
/// otherwise. Either way it keeps the client's protocol version.
pub proof fn lemma_handshake_routing(
    config: Config,
    version: i32,
    host: Seq<char>,
    port: u16,
    intent: i32,
)
    requires
        encode_utf8(host).len() + 20 <= i32::MAX,
    ensures
        next_step(config, None, handshake_frame(version, host, port, intent)) == Ok::<
            (Decision, Option<i32>),
            ProtocolError,
        >(
            (
                match config.route(host, port) {
                    Some(server) => Decision::Forward(
                        server.dst@,
                        handshake_frame(version, host, port, intent),
                    ),
                    None => if config.motd is Some {
                        Decision::Continue
                    } else {
                        Decision::Close
                    },
                },
                Some(version),
            ),
        ),
{
    let id = varint_bytes(0);
    let fields = handshake_fields(version, host, port, intent);
    let body = id + fields;
    let frame = handshake_frame(version, host, port, intent);
    let len = body.len() as i32;
    let prefix = varint_bytes(len);
    assert(id == seq![0u8]) by {
        reveal_with_fuel(varint_encoding, 2);
    }
    lemma_handshake_fields(version, host, port, intent);
    lemma_varint_round_trip(len, body);
    assert(frame =~= prefix + body);
    assert(frame.subrange(prefix.len() as int, prefix.len() + len) =~= body);
    assert(frame.take(frame.len() as int) =~= frame);
    lemma_varint_round_trip(0, fields);
    assert(body.skip(1) =~= fields);
}

/// The fields of a handshake packet after its id.
pub open spec fn handshake_fields(version: i32, host: Seq<char>, port: u16, intent: i32) -> Seq<u8> {
    varint_bytes(version) + string_frame(host) + seq![(port / 256) as u8, (port % 256) as u8]
        + varint_bytes(intent)
}

/// Handshake fields read back as they were written, and take at most twenty
/// bytes more than the host's UTF-8 bytes.
proof fn lemma_handshake_fields(version: i32, host: Seq<char>, port: u16, intent: i32)
    requires
        encode_utf8(host).len() + 20 <= i32::MAX,
    ensures
        handshake_at(handshake_fields(version, host, port, intent)) == Ok::<
            ((i32, Seq<char>, u16, i32), nat),
            ProtocolError,
        >(((version, host, port, intent), handshake_fields(version, host, port, intent).len())),
        handshake_fields(version, host, port, intent).len() <= encode_utf8(host).len() + 17,
{
    let v = varint_bytes(version);
    let h = string_frame(host);
    let p = seq![(port / 256) as u8, (port % 256) as u8];
    let i = varint_bytes(intent);
    let s = handshake_fields(version, host, port, intent);
    lemma_varint_round_trip(version, h + p + i);
    lemma_varint_round_trip(intent, Seq::empty());
    lemma_varint_round_trip(encode_utf8(host).len() as i32, Seq::empty());
    lemma_string_round_trip(host, p + i);
    assert(s =~= v + (h + p + i));
    assert(s.skip(v.len() as int) =~= h + (p + i));
    assert(s.skip((v.len() + h.len()) as int) =~= p + i);
    assert(s.skip((v.len() + h.len() + 2) as int) =~= i + Seq::empty());
    assert(((p[0] * 256 + p[1]) as u16) == port);
}

/// After a handshake that no entry routed, a status request (a packet of
/// id zero with nothing after it) is answered with the status document, and
/// a ping (id one, then eight bytes) is echoed exactly as it came if the
/// document allows pings; with no document neither is answered.
pub proof fn lemma_local_answers(config: Config, protocol: i32, payload: Seq<u8>)
    requires
        payload.len() == 8,
    ensures
        next_step(config, Some(protocol), seq![1u8, 0u8]) == Ok::<
            (Decision, Option<i32>),
            ProtocolError,
        >(
            (
                match config.motd {
                    Some(motd) => Decision::SendStatus(
                        status_protocol(motd.version.protocol, Some(protocol)),
                    ),
                    None => Decision::Continue,
                },
                Some(protocol),
            ),
        ),
        next_step(config, Some(protocol), seq![9u8, 1u8] + payload) == Ok::<
            (Decision, Option<i32>),
            ProtocolError,
        >(
            (
                match config.motd {
                    Some(motd) => if motd.ping {
                        Decision::Echo(seq![9u8, 1u8] + payload)
                    } else {
                        Decision::Continue
                    },
                    None => Decision::Continue,
                },
                Some(protocol),
            ),
        ),
{
    let status = seq![1u8, 0u8];
    let ping = seq![9u8, 1u8] + payload;
    lemma_varint_round_trip(1, payload);
    lemma_varint_round_trip(0, Seq::empty());
    lemma_varint_round_trip(9, ping.skip(1));
    lemma_varint_round_trip(1, seq![0u8]);
    assert(varint_bytes(1) == seq![1u8] && varint_bytes(0) == seq![0u8] && varint_bytes(9)
        == seq![9u8]) by {
        reveal_with_fuel(varint_encoding, 2);
    }
    assert(seq![1u8] + seq![0u8] =~= status);
    assert(seq![0u8] + Seq::<u8>::empty() =~= status.subrange(1, 2));
    assert(seq![9u8] + ping.skip(1) =~= ping);
    assert(ping.subrange(1, 10) =~= ping.skip(1));
    assert(seq![1u8] + payload =~= ping.skip(1));
    assert(ping.skip(1).skip(1) =~= payload);
    assert(payload.take(8) =~= payload);
    assert(ping.take(10) =~= ping);
}

/// Handles the packet framed at the start of `frame` (its length prefix, then
/// its body), updating what the connection remembers.
pub fn handle_packet(config: &Config, context: &mut Context, frame: &[u8]) -> (r: Result<
    HandleResult,
    ProtocolError,
>)
    ensures
        match next_step(*config, old(context).protocol, frame@) {
            Ok((d, p)) => r matches Ok(x) && x@ == d && final(context).protocol == p,
            Err(e) => r == Err::<HandleResult, ProtocolError>(e) && final(context).protocol
                == old(context).protocol,
        },
{
    let mut pos: usize = 0;
    assert(frame@.subrange(0, frame@.len() as int) =~= frame@);
    let body = match read_packet(frame, &mut pos) {
        Ok(b) => b,
        Err(e) => return Err(e),
    };
    let used = pos;
    let mut at: usize = 0;
    assert(body@.subrange(0, body@.len() as int) =~= body@);
    let id = match read_varint(body.as_slice(), &mut at) {
        Ok(id) => id,
        Err(e) => return Err(e),
    };
    if id == 0 && body.len() > 1 {
        if context.protocol.is_some() {
            return Ok(HandleResult::Close);
        }
        assert(body@.skip(at as int) =~= body@.subrange(at as int, body@.len() as int));
        let hs = match read_handshake(body.as_slice(), &mut at) {
            Ok(hs) => hs,
            Err(e) => return Err(e),
        };
        context.protocol = Some(hs.version);
        match config.find_server(hs.host.as_str(), hs.port) {
            Some(server) => {
                let packet = slice_to_vec(slice_subrange(frame, 0, used));
                assert(packet@ =~= frame@.take(used as int));
                Ok(HandleResult::Forward((server.dst.clone(), packet)))
            },
            None => {
                if config.motd.is_none() {
                    Ok(HandleResult::Close)
                } else {
                    Ok(HandleResult::Continue)
                }
            },
        }
    } else if id == 0 {
        match &config.motd {
            Some(motd) => {
                if context.protocol.is_some() {
                    let p = match motd.version.protocol {
                        Some(p) => p,
                        None => match context.protocol {
                            Some(p) => p,
                            None => 0,
                        },
                    };
                    Ok(HandleResult::SendStatus(p))
                } else {
                    Ok(HandleResult::Continue)
                }
            },
            None => Ok(HandleResult::Continue),
        }
    } else if id == 1 {
        if context.protocol.is_none() {
            return Ok(HandleResult::Close);
        }
        assert(body@.skip(at as int) =~= body@.subrange(at as int, body@.len() as int));
        match read_i64(body.as_slice(), &mut at) {
            Ok(_) => {},
            Err(e) => return Err(e),
        }
        match &config.motd {
            Some(motd) => {
                if motd.ping {
                    let packet = slice_to_vec(slice_subrange(frame, 0, used));
                    assert(packet@ =~= frame@.take(used as int));
                    Ok(HandleResult::Echo(packet))
                } else {
                    Ok(HandleResult::Continue)
                }
            },
            None => Ok(HandleResult::Continue),
        }
    } else {
        Ok(HandleResult::Close)
    }
}

/// The framed status answer around a JSON document: a packet with id zero
/// whose body is the id, the VarInt byte count of the document, then the
/// document.
pub open spec fn status_frame(json: Seq<u8>) -> Seq<u8> {
    let body = varint_bytes(0) + varint_bytes(json.len() as i32) + json;
    varint_bytes(body.len() as i32) + body
}

/// Frames the status answer that carries the JSON document `json`.
pub fn status_response(json: &[u8]) -> (r: Vec<u8>)
    requires
        json@.len() + 6 <= i32::MAX,
    ensures
        r@ == status_frame(json@),
{
    let json_len = json.len() as i32;
    let size = varint_size(0) + varint_size(json_len) + json.len();
    let mut out: Vec<u8> = Vec::new();
    write_varint(&mut out, size as i32);
    write_varint(&mut out, 0);
    write_varint(&mut out, json_len);
    let mut doc = slice_to_vec(json);
    out.append(&mut doc);
    assert(out@ =~= status_frame(json@));
    out
}

} // verus!
