//! The wire codec: VarInts, length-prefixed strings and length-prefixed
//! packets, read from a byte buffer at a cursor.

use vstd::prelude::*;
use vstd::slice::{slice_subrange, slice_to_vec};
use vstd::utf8::*;

verus! {

/// Why bytes received from a peer could not be decoded.
#[derive(Debug, Clone, Copy, PartialEq, Eq, Structural)]
pub enum ProtocolError {
    /// The input ended before the value was complete.
    UnexpectedEof,
    /// A VarInt still had its continuation bit set on its fifth byte.
    VarIntTooBig,
    /// A length prefix was negative.
    NegativeLength,
    /// The bytes of a string were not valid UTF-8.
    InvalidUtf8,
}

/// The most bytes a VarInt may take.
pub const MAX_VARINT_LEN: usize = 5;

/// The VarInt encoding of `v`: seven bits per byte, least significant group
/// first, with the high bit set on every byte but the last.
pub open spec fn varint_encoding(v: nat) -> Seq<u8>
    decreases v,
{
    if v < 128 {
        seq![v as u8]
    } else {
        seq![(v % 128 + 128) as u8] + varint_encoding(v / 128)
    }
}

/// The groups of a VarInt at the start of `s`, taking at most `room` bytes:
/// the unsigned value they spell out and the number of bytes they take.
pub open spec fn varint_groups(s: Seq<u8>, room: nat) -> Result<(nat, nat), ProtocolError>
    decreases s.len(),
{
    if s.len() == 0 {
        Err(ProtocolError::UnexpectedEof)
    } else if s[0] < 128 {
        Ok((s[0] as nat, 1))
    } else if room <= 1 {
        Err(ProtocolError::VarIntTooBig)
    } else {
        match varint_groups(s.drop_first(), (room - 1) as nat) {
            Ok((v, n)) => Ok((((s[0] - 128) + 128 * v) as nat, n + 1)),
            Err(e) => Err(e),
        }
    }
}

/// The VarInt at the start of `s` and the number of bytes it takes. The value
/// is assembled as an unsigned 32-bit integer, whose bits are then read as an
/// `i32`.
pub open spec fn varint_at(s: Seq<u8>) -> Result<(i32, nat), ProtocolError> {
    match varint_groups(s, MAX_VARINT_LEN as nat) {
        Ok((v, n)) => Ok(((v as u32) as i32, n)),
        Err(e) => Err(e),
    }
}

/// The VarInt encoding of an `i32`: that of its bits read as unsigned.
pub open spec fn varint_bytes(x: i32) -> Seq<u8> {
    varint_encoding((x as u32) as nat)
}

/// `128` to the power `k`.
pub open spec fn group_cap(k: nat) -> nat
    decreases k,
{
    if k == 0 {
        1
    } else {
        128 * group_cap((k - 1) as nat)
    }
}

proof fn lemma_group_caps()
    ensures
        group_cap(1) == 128,
        group_cap(2) == 0x4000,
        group_cap(3) == 0x20_0000,
        group_cap(4) == 0x1000_0000,
        group_cap(5) == 0x8_0000_0000,
{
    reveal_with_fuel(group_cap, 6);
}

/// What `varint_groups` reads is below `128` to the power of the bytes it
/// took, and it takes at least one byte and at most `room`.
proof fn lemma_groups_bound(s: Seq<u8>, room: nat)
    requires
        room >= 1,
    ensures
        varint_groups(s, room) matches Ok((v, n)) ==> 1 <= n <= room && n <= s.len() && v < group_cap(n),
    decreases s.len(),
{
    reveal_with_fuel(group_cap, 2);
    if s.len() > 0 && s[0] >= 128 && room > 1 {
        lemma_groups_bound(s.drop_first(), (room - 1) as nat);
    }
}

/// Reads the groups of a VarInt from `buf` at `pos`, taking at most `room` bytes.
fn read_groups(buf: &[u8], pos: usize, room: usize) -> (r: Result<(u64, usize), ProtocolError>)
    requires
        pos <= buf@.len(),
        1 <= room <= MAX_VARINT_LEN,
    ensures
        match varint_groups(buf@.subrange(pos as int, buf@.len() as int), room as nat) {
            Ok((v, n)) => r == Ok::<(u64, usize), ProtocolError>((v as u64, n as usize)),
            Err(e) => r == Err::<(u64, usize), ProtocolError>(e),
        },
    decreases buf@.len() - pos,
{
    let ghost s = buf@.subrange(pos as int, buf@.len() as int);
    if pos >= buf.len() {
        return Err(ProtocolError::UnexpectedEof);
    }
    let b = buf[pos];
    if b < 128 {
        return Ok((b as u64, 1));
    }
    if room <= 1 {
        return Err(ProtocolError::VarIntTooBig);
    }
    let rest = read_groups(buf, pos + 1, room - 1);
    proof {
        assert(s.drop_first() =~= buf@.subrange(pos + 1, buf@.len() as int));
        lemma_groups_bound(s.drop_first(), (room - 1) as nat);
        lemma_group_caps();
    }
    match rest {
        Ok((v, n)) => {
            proof {
                assert(group_cap(n as nat) <= group_cap(4)) by {
                    reveal_with_fuel(group_cap, 5);
                }
            }
            Ok(((b - 128) as u64 + 128 * v, n + 1))
        },
        Err(e) => Err(e),
    }
}

/// Reads the VarInt at `*pos` in `buf` and moves `*pos` past it; on failure
/// `*pos` stays where it was.
pub fn read_varint(buf: &[u8], pos: &mut usize) -> (r: Result<i32, ProtocolError>)
    requires
        *old(pos) <= buf@.len(),
    ensures
        match varint_at(buf@.subrange(*old(pos) as int, buf@.len() as int)) {
            Ok((v, n)) => r == Ok::<i32, ProtocolError>(v) && *final(pos) == *old(pos) + n,
            Err(e) => r == Err::<i32, ProtocolError>(e) && *final(pos) == *old(pos),
        },
        *final(pos) <= buf@.len(),
{
    let ghost s = buf@.subrange(*pos as int, buf@.len() as int);
    proof {
        lemma_groups_bound(s, MAX_VARINT_LEN as nat);
        lemma_group_caps();
    }
    match read_groups(buf, *pos, MAX_VARINT_LEN) {
        Ok((v, n)) => {
            let len = buf.len();
            assert(n <= len - *pos);
            *pos = *pos + n;
            let w: u32 = #[verifier::truncate] (v as u32);
            Ok(#[verifier::truncate] (w as i32))
        },
        Err(e) => Err(e),
    }
}

/// Appends the VarInt encoding of `value` to `out`.
pub fn write_varint(out: &mut Vec<u8>, value: i32)
    ensures
        final(out)@ == old(out)@ + varint_bytes(value),
{
    let mut v: u32 = #[verifier::truncate] (value as u32);
    while v >= 128
        invariant
            old(out)@ + varint_bytes(value) == out@ + varint_encoding(v as nat),
        decreases v,
    {
        let b: u8 = (v % 128 + 128) as u8;
        proof {
            assert(out@.push(b) + varint_encoding((v / 128) as nat) =~= out@ + varint_encoding(
                v as nat,
            ));
        }
        out.push(b);
        v = v / 128;
    }
    proof {
        assert(out@.push(v as u8) =~= out@ + varint_encoding(v as nat));
    }
    out.push(v as u8);
}

/// The number of bytes of the VarInt encoding of `value`.
pub fn varint_size(value: i32) -> (r: usize)
    ensures
        r == varint_bytes(value).len(),
        1 <= r <= MAX_VARINT_LEN,
{
    proof {
        lemma_group_caps();
        lemma_encoding_len((value as u32) as nat, 5);
    }
    let mut v: u32 = #[verifier::truncate] (value as u32);
    let mut n: usize = 1;
    while v >= 128
        invariant
            n + varint_encoding(v as nat).len() == varint_bytes(value).len() + 1,
            varint_bytes(value).len() <= MAX_VARINT_LEN,
        decreases v,
    {
        n = n + 1;
        v = v / 128;
    }
    n
}

/// An encoding of a value below `128` to the power `k` takes at most `k` bytes.
proof fn lemma_encoding_len(v: nat, k: nat)
    requires
        k >= 1,
        v < group_cap(k),
    ensures
        1 <= varint_encoding(v).len() <= k,
    decreases v,
{
    reveal_with_fuel(group_cap, 2);
    if v >= 128 {
        lemma_encoding_len(v / 128, (k - 1) as nat);
    }
}

/// Decoding the encoding of a value below `128` to the power `room`, with at
/// most `room` bytes allowed, gives the value back and takes exactly the
/// encoding, whatever follows it.
proof fn lemma_groups_of_encoding(v: nat, room: nat, rest: Seq<u8>)
    requires
        room >= 1,
        v < group_cap(room),
    ensures
        varint_groups(varint_encoding(v) + rest, room) == Ok::<(nat, nat), ProtocolError>(
            (v, varint_encoding(v).len()),
        ),
    decreases v,
{
    reveal_with_fuel(group_cap, 2);
    let s = varint_encoding(v) + rest;
    if v >= 128 {
        lemma_groups_of_encoding(v / 128, (room - 1) as nat, rest);
        assert(s.drop_first() =~= varint_encoding(v / 128) + rest);
    }
}

/// A VarInt written for any `i32` reads back as that `i32`, takes exactly the
/// bytes written, whatever follows them, and never more than five bytes.
pub proof fn lemma_varint_round_trip(x: i32, rest: Seq<u8>)
    ensures
        varint_at(varint_bytes(x) + rest) == Ok::<(i32, nat), ProtocolError>(
            (x, varint_bytes(x).len()),
        ),
        1 <= varint_bytes(x).len() <= MAX_VARINT_LEN,
{
    let u = #[verifier::truncate] (x as u32);
    lemma_group_caps();
    lemma_groups_of_encoding(u as nat, MAX_VARINT_LEN as nat, rest);
    lemma_encoding_len(u as nat, MAX_VARINT_LEN as nat);
    assert(#[verifier::truncate] (u as i32) == x) by (bit_vector)
        requires
            u == #[verifier::truncate] (x as u32),
    ;
}

/// Bytes that keep the continuation bit set through the whole room allowed
/// are rejected as too big.
proof fn lemma_groups_too_long(s: Seq<u8>, room: nat)
    requires
        room >= 1,
        s.len() >= room,
        forall|i: int| 0 <= i < room ==> s[i] >= 128,
    ensures
        varint_groups(s, room) == Err::<(nat, nat), ProtocolError>(ProtocolError::VarIntTooBig),
    decreases room,
{
    if room > 1 {
        lemma_groups_too_long(s.drop_first(), (room - 1) as nat);
    }
}

/// A VarInt whose first five bytes all carry the continuation bit is rejected.
pub proof fn lemma_varint_too_long(s: Seq<u8>)
    requires
        s.len() >= MAX_VARINT_LEN,
        forall|i: int| 0 <= i < MAX_VARINT_LEN ==> s[i] >= 128,
    ensures
        varint_at(s) == Err::<(i32, nat), ProtocolError>(ProtocolError::VarIntTooBig),
{
    lemma_groups_too_long(s, MAX_VARINT_LEN as nat);
}

/// The length-prefixed bytes at the start of `s` (a VarInt byte count, then
/// that many bytes) and the number of bytes they take, prefix included.
pub open spec fn prefixed_at(s: Seq<u8>) -> Result<(Seq<u8>, nat), ProtocolError> {
    match varint_at(s) {
        Err(e) => Err(e),
        Ok((len, n)) => if len < 0 {
            Err(ProtocolError::NegativeLength)
        } else if n + len > s.len() {
            Err(ProtocolError::UnexpectedEof)
        } else {
            Ok((s.subrange(n as int, n + len), (n + len) as nat))
        },
    }
}

/// The length-prefixed UTF-8 string at the start of `s` and the number of
/// bytes it takes.
pub open spec fn string_at(s: Seq<u8>) -> Result<(Seq<char>, nat), ProtocolError> {
    match prefixed_at(s) {
        Err(e) => Err(e),
        Ok((bytes, n)) => if valid_utf8(bytes) {
            Ok((decode_utf8(bytes), n))
        } else {
            Err(ProtocolError::InvalidUtf8)
        },
    }
}

/// The wire form of a string: the VarInt count of its UTF-8 bytes, then the bytes.
pub open spec fn string_frame(s: Seq<char>) -> Seq<u8> {
    varint_bytes(encode_utf8(s).len() as i32) + encode_utf8(s)
}

/// A string whose UTF-8 length fits an `i32` reads back from its wire form
/// unchanged, whatever follows it.
pub proof fn lemma_string_round_trip(s: Seq<char>, rest: Seq<u8>)
    requires
        encode_utf8(s).len() <= i32::MAX,
    ensures
        string_at(string_frame(s) + rest) == Ok::<(Seq<char>, nat), ProtocolError>(
            (s, string_frame(s).len()),
        ),
{
    broadcast use encode_utf8_valid_utf8, encode_utf8_decode_utf8;

    let bytes = encode_utf8(s);
    let len = bytes.len() as i32;
    let prefix = varint_bytes(len);
    lemma_varint_round_trip(len, bytes + rest);
    assert(string_frame(s) + rest =~= prefix + (bytes + rest));
    assert((string_frame(s) + rest).subrange(prefix.len() as int, prefix.len() + len) =~= bytes);
}

/// A length prefix that points past the end of the input fails as a
/// truncated read, and bytes that are not UTF-8 fail as such.
pub proof fn lemma_string_failures(s: Seq<u8>)
    ensures
        varint_at(s) matches Ok((len, n)) && len >= 0 && n + len > s.len() ==> string_at(s)
            == Err::<(Seq<char>, nat), ProtocolError>(ProtocolError::UnexpectedEof),
        prefixed_at(s) matches Ok((bytes, n)) && !valid_utf8(bytes) ==> string_at(s) == Err::<
            (Seq<char>, nat),
            ProtocolError,
        >(ProtocolError::InvalidUtf8),
{
}

/// Relies on `String::from_utf8`: it accepts exactly the valid UTF-8 byte
/// sequences and yields the characters they encode.
#[verifier::external_body]
fn string_from_utf8(bytes: Vec<u8>) -> (r: Option<String>)
    ensures
        r.is_some() == valid_utf8(bytes@),
        r matches Some(s) ==> s@ == decode_utf8(bytes@),
{
    String::from_utf8(bytes).ok()
}

/// Reads the length-prefixed bytes at `*pos` and moves `*pos` past them; on
/// failure `*pos` stays where it was.
fn read_prefixed(buf: &[u8], pos: &mut usize) -> (r: Result<Vec<u8>, ProtocolError>)
    requires
        *old(pos) <= buf@.len(),
    ensures
        match prefixed_at(buf@.subrange(*old(pos) as int, buf@.len() as int)) {
            Ok((bytes, n)) => r matches Ok(v) && v@ == bytes && *final(pos) == *old(pos) + n,
            Err(e) => r == Err::<Vec<u8>, ProtocolError>(e) && *final(pos) == *old(pos),
        },
{
    let ghost s = buf@.subrange(*pos as int, buf@.len() as int);
    let start = *pos;
    let len = match read_varint(buf, pos) {
        Ok(len) => len,
        Err(e) => return Err(e),
    };
    if len < 0 {
        *pos = start;
        return Err(ProtocolError::NegativeLength);
    }
    let len = len as usize;
    if len > buf.len() - *pos {
        *pos = start;
        return Err(ProtocolError::UnexpectedEof);
    }
    let bytes = slice_to_vec(slice_subrange(buf, *pos, *pos + len));
    proof {
        let n = *pos - start;
        assert(bytes@ =~= s.subrange(n, n + len));
    }
    *pos = *pos + len;
    Ok(bytes)
}

/// Reads the packet at `*pos` (a VarInt length, then that many bytes) and
/// moves `*pos` past it. The body returned starts with the packet id. On
/// failure `*pos` stays where it was.
pub fn read_packet(buf: &[u8], pos: &mut usize) -> (r: Result<Vec<u8>, ProtocolError>)
    requires
        *old(pos) <= buf@.len(),
    ensures
        match prefixed_at(buf@.subrange(*old(pos) as int, buf@.len() as int)) {
            Ok((body, n)) => r matches Ok(v) && v@ == body && *final(pos) == *old(pos) + n,
            Err(e) => r == Err::<Vec<u8>, ProtocolError>(e) && *final(pos) == *old(pos),
        },
{
    read_prefixed(buf, pos)
}

/// Reads the length-prefixed UTF-8 string at `*pos` and moves `*pos` past
/// it; on failure `*pos` stays where it was.
pub fn read_string(buf: &[u8], pos: &mut usize) -> (r: Result<String, ProtocolError>)
    requires
        *old(pos) <= buf@.len(),
    ensures
        match string_at(buf@.subrange(*old(pos) as int, buf@.len() as int)) {
            Ok((chars, n)) => r matches Ok(t) && t@ == chars && *final(pos) == *old(pos) + n,
            Err(e) => r == Err::<String, ProtocolError>(e) && *final(pos) == *old(pos),
        },
{
    let start = *pos;
    let bytes = match read_prefixed(buf, pos) {
        Ok(bytes) => bytes,
        Err(e) => return Err(e),
    };
    match string_from_utf8(bytes) {
        Some(s) => Ok(s),
        None => {
            *pos = start;
            Err(ProtocolError::InvalidUtf8)
        },
    }
}

/// The big-endian unsigned value of the bytes of `s`.
pub open spec fn be_value(s: Seq<u8>) -> nat
    decreases s.len(),
{
    if s.len() == 0 {
        0
    } else {
        be_value(s.drop_last()) * 256 + s.last() as nat
    }
}

/// The big-endian `u16` at the start of `s` and the two bytes it takes.
pub open spec fn u16_at(s: Seq<u8>) -> Result<(u16, nat), ProtocolError> {
    if s.len() < 2 {
        Err(ProtocolError::UnexpectedEof)
    } else {
        Ok(((s[0] * 256 + s[1]) as u16, 2))
    }
}

/// The big-endian `i64` at the start of `s` (its eight bytes read as an
/// unsigned value, whose bits are then read as signed) and the eight bytes it
/// takes.
pub open spec fn i64_at(s: Seq<u8>) -> Result<(i64, nat), ProtocolError> {
    if s.len() < 8 {
        Err(ProtocolError::UnexpectedEof)
    } else {
        Ok(((be_value(s.take(8)) as u64) as i64, 8))
    }
}

/// Reads the big-endian `u16` at `*pos` and moves `*pos` past it.
pub fn read_u16(buf: &[u8], pos: &mut usize) -> (r: Result<u16, ProtocolError>)
    requires
        *old(pos) <= buf@.len(),
    ensures
        match u16_at(buf@.subrange(*old(pos) as int, buf@.len() as int)) {
            Ok((v, n)) => r == Ok::<u16, ProtocolError>(v) && *final(pos) == *old(pos) + n,
            Err(e) => r == Err::<u16, ProtocolError>(e) && *final(pos) == *old(pos),
        },
{
    if buf.len() - *pos < 2 {
        return Err(ProtocolError::UnexpectedEof);
    }
    let v = (buf[*pos] as u16) * 256 + buf[*pos + 1] as u16;
    *pos = *pos + 2;
    Ok(v)
}

/// Reads the big-endian `i64` at `*pos` and moves `*pos` past it.
pub fn read_i64(buf: &[u8], pos: &mut usize) -> (r: Result<i64, ProtocolError>)
    requires
        *old(pos) <= buf@.len(),
    ensures
        match i64_at(buf@.subrange(*old(pos) as int, buf@.len() as int)) {
            Ok((v, n)) => r == Ok::<i64, ProtocolError>(v) && *final(pos) == *old(pos) + n,
            Err(e) => r == Err::<i64, ProtocolError>(e) && *final(pos) == *old(pos),
        },
{
    let ghost s = buf@.subrange(*pos as int, buf@.len() as int);
    let end = buf.len();
    if end - *pos < 8 {
        return Err(ProtocolError::UnexpectedEof);
    }
    let start = *pos;
    let mut acc: u64 = 0;
    let mut i: usize = 0;
    while i < 8
        invariant
            0 <= i <= 8,
            end == buf@.len(),
            start + 8 <= end,
            s == buf@.subrange(start as int, end as int),
            acc == be_value(s.take(i as int)),
            acc < be_cap(i as nat),
        decreases 8 - i,
    {
        proof {
            assert(s.take(i + 1).drop_last() =~= s.take(i as int));
            lemma_be_cap_step(acc as nat, buf[start + i] as nat, i as nat);
        }
        acc = acc * 256 + buf[start + i] as u64;
        i = i + 1;
    }
    *pos = *pos + 8;
    Ok(#[verifier::truncate] (acc as i64))
}

/// `256` to the power `k`, below `2` to the power `64` for `k` up to eight.
pub open spec fn be_cap(k: nat) -> nat
    decreases k,
{
    if k == 0 {
        1
    } else {
        256 * be_cap((k - 1) as nat)
    }
}

proof fn lemma_be_cap_step(acc: nat, b: nat, k: nat)
    requires
        acc < be_cap(k),
        b < 256,
        k < 8,
    ensures
        acc * 256 + b < be_cap(k + 1),
        be_cap(k + 1) <= 0x1_0000_0000_0000_0000,
{
    reveal_with_fuel(be_cap, 9);
    assert(be_cap(k) <= be_cap(7)) by {
        reveal_with_fuel(be_cap, 9);
    }
}

} // verus!
