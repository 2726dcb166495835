use vstd::prelude::*;
use vstd::slice::{slice_subrange, slice_to_vec};
use vstd::utf8::{decode_utf8, encode_utf8, valid_utf8, encode_utf8_decode_utf8, encode_utf8_valid_utf8};
use crate::protocol::error::{ProtocolError, ReadContext};
use crate::protocol::packet::{RoomInfo, RoomInfoView};
use crate::text::string_from_utf8;

verus! {

/// The 32-bit pattern of `v` in two's complement, as a number.
pub open spec fn spec_i32_bits(v: i32) -> int {
    if v >= 0 { v as int } else { v + 0x1_0000_0000 }
}

/// The signed value whose two's complement pattern is `bits`.
pub open spec fn spec_i32_of_bits(bits: int) -> i32 {
    if bits < 0x8000_0000 { bits as i32 } else { (bits - 0x1_0000_0000) as i32 }
}

/// Big-endian bytes of a number below 2^32.
pub open spec fn spec_be4(bits: int) -> Seq<u8> {
    seq![
        (bits / 0x100_0000) as u8,
        ((bits / 0x1_0000) % 0x100) as u8,
        ((bits / 0x100) % 0x100) as u8,
        (bits % 0x100) as u8,
    ]
}

/// The number that the first four bytes of `b` spell, big-endian.
pub open spec fn spec_from_be4(b: Seq<u8>) -> int {
    b[0] * 0x100_0000 + b[1] * 0x1_0000 + b[2] * 0x100 + b[3]
}

/// The four bytes of an `i32` on the wire.
pub open spec fn spec_push_i32(v: i32) -> Seq<u8> {
    spec_be4(spec_i32_bits(v))
}

/// An `i32` from the front of `b`, and what follows it.
pub open spec fn spec_read_i32(b: Seq<u8>) -> Result<(i32, Seq<u8>), ProtocolError> {
    if b.len() < 4 {
        Err(ProtocolError::NotEnoughBytes { context: ReadContext::I32, need: 4, have: b.len() as usize })
    } else {
        Ok((spec_i32_of_bits(spec_from_be4(b)), b.subrange(4, b.len() as int)))
    }
}

/// An `i32` reads back from its own bytes, whatever follows them.
pub proof fn lemma_read_push_i32(v: i32, tail: Seq<u8>)
    ensures
        spec_read_i32(spec_push_i32(v) + tail) == Ok::<(i32, Seq<u8>), ProtocolError>((v, tail)),
{
    let b = spec_push_i32(v) + tail;
    assert(b.subrange(4, b.len() as int) =~= tail);
}

fn i32_bits(v: i32) -> (r: u32)
    ensures
        r as int == spec_i32_bits(v),
{
    if v >= 0 {
        v as u32
    } else {
        ((v + 0x7fff_ffff) + 1) as u32 + 0x8000_0000u32
    }
}

fn i32_of_bits(bits: u32) -> (r: i32)
    ensures
        r == spec_i32_of_bits(bits as int),
{
    if bits < 0x8000_0000u32 {
        bits as i32
    } else {
        ((bits - 0x8000_0000u32) as i32 - 0x7fff_ffff) - 1
    }
}

/// Appends `value` as four big-endian bytes.
pub fn push_i32(buf: &mut Vec<u8>, value: i32)
    ensures
        final(buf)@ == old(buf)@ + spec_push_i32(value),
{
    let bits: u32 = i32_bits(value);
    buf.push((bits / 0x100_0000) as u8);
    buf.push(((bits / 0x1_0000) % 0x100) as u8);
    buf.push(((bits / 0x100) % 0x100) as u8);
    buf.push((bits % 0x100) as u8);
    assert(buf@ =~= old(buf)@ + spec_push_i32(value));
}

/// Reads four big-endian bytes as an `i32` and hands back what follows them.
pub fn read_i32(bytes: &[u8]) -> (r: Result<(i32, &[u8]), ProtocolError>)
    ensures
        match r {
            Ok((v, rest)) => spec_read_i32(bytes@) == Ok::<(i32, Seq<u8>), ProtocolError>((v, rest@)),
            Err(e) => spec_read_i32(bytes@) == Err::<(i32, Seq<u8>), ProtocolError>(e),
        },
{
    if bytes.len() < 4 {
        return Err(ProtocolError::NotEnoughBytes { context: ReadContext::I32, need: 4, have: bytes.len() });
    }
    let b0: u32 = bytes[0] as u32;
    let b1: u32 = bytes[1] as u32;
    let b2: u32 = bytes[2] as u32;
    let b3: u32 = bytes[3] as u32;
    let bits: u32 = b0 * 0x100_0000 + b1 * 0x1_0000 + b2 * 0x100 + b3;
    let rest = slice_subrange(bytes, 4, bytes.len());
    Ok((i32_of_bits(bits), rest))
}

/// Big-endian bytes of a 64-bit number: its high word, then its low word.
pub open spec fn spec_push_u64(v: u64) -> Seq<u8> {
    spec_be4((v as int) / 0x1_0000_0000) + spec_be4((v as int) % 0x1_0000_0000)
}

/// A `u64` from the front of `b`, and what follows it.
pub open spec fn spec_read_u64(b: Seq<u8>) -> Result<(u64, Seq<u8>), ProtocolError> {
    if b.len() < 8 {
        Err(ProtocolError::NotEnoughBytes { context: ReadContext::U64, need: 8, have: b.len() as usize })
    } else {
        Ok((
            (spec_from_be4(b) * 0x1_0000_0000 + spec_from_be4(b.subrange(4, 8))) as u64,
            b.subrange(8, b.len() as int),
        ))
    }
}

/// A `u64` reads back from its own bytes, whatever follows them.
pub proof fn lemma_read_push_u64(v: u64, tail: Seq<u8>)
    ensures
        spec_read_u64(spec_push_u64(v) + tail) == Ok::<(u64, Seq<u8>), ProtocolError>((v, tail)),
{
    let b = spec_push_u64(v) + tail;
    assert(b.subrange(8, b.len() as int) =~= tail);
    assert(b.subrange(4, 8) =~= spec_be4((v as int) % 0x1_0000_0000));
}

/// Appends `value` as eight big-endian bytes.
pub fn push_u64(buf: &mut Vec<u8>, value: u64)
    ensures
        final(buf)@ == old(buf)@ + spec_push_u64(value),
{
    let hi: u64 = value / 0x1_0000_0000;
    let lo: u64 = value % 0x1_0000_0000;
    buf.push((hi / 0x100_0000) as u8);
    buf.push(((hi / 0x1_0000) % 0x100) as u8);
    buf.push(((hi / 0x100) % 0x100) as u8);
    buf.push((hi % 0x100) as u8);
    buf.push((lo / 0x100_0000) as u8);
    buf.push(((lo / 0x1_0000) % 0x100) as u8);
    buf.push(((lo / 0x100) % 0x100) as u8);
    buf.push((lo % 0x100) as u8);
    assert(buf@ =~= old(buf)@ + spec_push_u64(value));
}

/// Reads eight big-endian bytes as a `u64` and hands back what follows them.
pub fn read_u64(bytes: &[u8]) -> (r: Result<(u64, &[u8]), ProtocolError>)
    ensures
        match r {
            Ok((v, rest)) => spec_read_u64(bytes@) == Ok::<(u64, Seq<u8>), ProtocolError>((v, rest@)),
            Err(e) => spec_read_u64(bytes@) == Err::<(u64, Seq<u8>), ProtocolError>(e),
        },
{
    if bytes.len() < 8 {
        return Err(ProtocolError::NotEnoughBytes { context: ReadContext::U64, need: 8, have: bytes.len() });
    }
    let hi: u64 = (bytes[0] as u64) * 0x100_0000 + (bytes[1] as u64) * 0x1_0000
        + (bytes[2] as u64) * 0x100 + (bytes[3] as u64);
    let lo: u64 = (bytes[4] as u64) * 0x100_0000 + (bytes[5] as u64) * 0x1_0000
        + (bytes[6] as u64) * 0x100 + (bytes[7] as u64);
    let rest = slice_subrange(bytes, 8, bytes.len());
    Ok((hi * 0x1_0000_0000 + lo, rest))
}

/// A `bool` travels as an `i32`: one for true, zero for false.
pub open spec fn spec_push_bool(v: bool) -> Seq<u8> {
    spec_push_i32(if v { 1i32 } else { 0i32 })
}

/// Any `i32` but zero reads as true.
pub open spec fn spec_read_bool(b: Seq<u8>) -> Result<(bool, Seq<u8>), ProtocolError> {
    match spec_read_i32(b) {
        Ok((v, rest)) => Ok((v != 0, rest)),
        Err(e) => Err(e),
    }
}

/// A `bool` reads back from its own bytes, whatever follows them.
pub proof fn lemma_read_push_bool(v: bool, tail: Seq<u8>)
    ensures
        spec_read_bool(spec_push_bool(v) + tail) == Ok::<(bool, Seq<u8>), ProtocolError>((v, tail)),
{
    lemma_read_push_i32(if v { 1i32 } else { 0i32 }, tail);
}

/// Appends `value` as an `i32`: one for true, zero for false.
pub fn push_bool(buf: &mut Vec<u8>, value: bool)
    ensures
        final(buf)@ == old(buf)@ + spec_push_bool(value),
{
    push_i32(buf, if value { 1 } else { 0 });
}

/// Reads an `i32` as a `bool` (zero is false, all else true) and hands
/// back what follows it.
pub fn read_bool(bytes: &[u8]) -> (r: Result<(bool, &[u8]), ProtocolError>)
    ensures
        match r {
            Ok((v, rest)) => spec_read_bool(bytes@) == Ok::<(bool, Seq<u8>), ProtocolError>((v, rest@)),
            Err(e) => spec_read_bool(bytes@) == Err::<(bool, Seq<u8>), ProtocolError>(e),
        },
{
    let (value, rest) = read_i32(bytes)?;
    Ok((value != 0, rest))
}

/// A string travels as the `i32` count of its UTF-8 bytes, then those bytes.
/// A count above `i32::MAX` is cut to its low 32 bits, so only strings of at
/// most `i32::MAX` bytes read back.
pub open spec fn spec_push_string(s: Seq<char>) -> Seq<u8> {
    spec_push_i32(encode_utf8(s).len() as i32) + encode_utf8(s)
}

/// A string from the front of `b`, and what follows it. The length must
/// not be negative nor exceed what is left, and the bytes must be UTF-8.
pub open spec fn spec_read_string(b: Seq<u8>) -> Result<(Seq<char>, Seq<u8>), ProtocolError> {
    match spec_read_i32(b) {
        Err(e) => Err(e),
        Ok((len, rest)) => {
            if len < 0 {
                Err(ProtocolError::NegativeLength)
            } else if rest.len() < len {
                Err(ProtocolError::NotEnoughBytes {
                    context: ReadContext::Str,
                    need: len as usize,
                    have: rest.len() as usize,
                })
            } else if !valid_utf8(rest.subrange(0, len as int)) {
                Err(ProtocolError::InvalidUtf8String)
            } else {
                Ok((decode_utf8(rest.subrange(0, len as int)), rest.subrange(len as int, rest.len() as int)))
            }
        },
    }
}

/// Whether the length prefix can hold the string's byte count.
pub open spec fn string_fits(s: Seq<char>) -> bool {
    encode_utf8(s).len() <= i32::MAX
}

/// A string whose length fits its prefix reads back from its own bytes,
/// whatever follows them.
pub proof fn lemma_read_push_string(s: Seq<char>, tail: Seq<u8>)
    requires
        string_fits(s),
    ensures
        spec_read_string(spec_push_string(s) + tail) == Ok::<(Seq<char>, Seq<u8>), ProtocolError>((s, tail)),
{
    let body = encode_utf8(s);
    let len = body.len() as i32;
    assert(spec_push_string(s) + tail =~= spec_push_i32(len) + (body + tail));
    lemma_read_push_i32(len, body + tail);
    assert((body + tail).subrange(0, len as int) =~= body);
    assert((body + tail).subrange(len as int, (body + tail).len() as int) =~= tail);
    encode_utf8_valid_utf8(s);
    encode_utf8_decode_utf8(s);
}

/// Appends the byte count of `value` as an `i32`, then its UTF-8 bytes.
pub fn push_string(buf: &mut Vec<u8>, value: &str)
    ensures
        final(buf)@ == old(buf)@ + spec_push_string(value@),
{
    let bytes = value.as_bytes();
    push_i32(buf, #[verifier::truncate] (bytes.len() as i32));
    buf.extend_from_slice(bytes);
    assert(buf@ =~= old(buf)@ + spec_push_string(value@));
}

/// Reads a length-prefixed string and hands back what follows it.
pub fn read_string(bytes: &[u8]) -> (r: Result<(String, &[u8]), ProtocolError>)
    ensures
        match r {
            Ok((s, rest)) => spec_read_string(bytes@) == Ok::<(Seq<char>, Seq<u8>), ProtocolError>((s@, rest@)),
            Err(e) => spec_read_string(bytes@) == Err::<(Seq<char>, Seq<u8>), ProtocolError>(e),
        },
{
    let (len, rest) = read_i32(bytes)?;
    if len < 0 {
        return Err(ProtocolError::NegativeLength);
    }
    let n: usize = len as usize;
    if rest.len() < n {
        return Err(ProtocolError::NotEnoughBytes { context: ReadContext::Str, need: n, have: rest.len() });
    }
    let string_bytes = slice_subrange(rest, 0, n);
    let remaining = slice_subrange(rest, n, rest.len());
    match string_from_utf8(slice_to_vec(string_bytes)) {
        Some(s) => {
            proof {
                encode_utf8_decode_utf8(s@);
            }
            Ok((s, remaining))
        },
        None => Err(ProtocolError::InvalidUtf8String),
    }
}

/// A listing entry on the wire: its join code, then its free-form text.
pub open spec fn spec_push_room_info(room: RoomInfoView) -> Seq<u8> {
    spec_push_string(room.join_code) + spec_push_string(room.metadata)
}

/// A listing entry from the front of `b`, and what follows it.
pub open spec fn spec_read_room_info(b: Seq<u8>) -> Result<(RoomInfoView, Seq<u8>), ProtocolError> {
    match spec_read_string(b) {
        Err(e) => Err(e),
        Ok((join_code, rest)) => match spec_read_string(rest) {
            Err(e) => Err(e),
            Ok((metadata, rest2)) => Ok((RoomInfoView { join_code, metadata }, rest2)),
        },
    }
}

/// Whether both strings of the entry fit their length prefixes.
pub open spec fn room_info_fits(room: RoomInfoView) -> bool {
    string_fits(room.join_code) && string_fits(room.metadata)
}

/// A listing entry that fits reads back from its own bytes, whatever
/// follows them.
pub proof fn lemma_read_push_room_info(room: RoomInfoView, tail: Seq<u8>)
    requires
        room_info_fits(room),
    ensures
        spec_read_room_info(spec_push_room_info(room) + tail)
            == Ok::<(RoomInfoView, Seq<u8>), ProtocolError>((room, tail)),
{
    assert(spec_push_room_info(room) + tail
        =~= spec_push_string(room.join_code) + (spec_push_string(room.metadata) + tail));
    lemma_read_push_string(room.join_code, spec_push_string(room.metadata) + tail);
    lemma_read_push_string(room.metadata, tail);
}

/// Reads one listing entry and hands back what follows it.
pub fn read_room_info(bytes: &[u8]) -> (r: Result<(RoomInfo, &[u8]), ProtocolError>)
    ensures
        match r {
            Ok((room, rest)) => spec_read_room_info(bytes@)
                == Ok::<(RoomInfoView, Seq<u8>), ProtocolError>((room@, rest@)),
            Err(e) => spec_read_room_info(bytes@) == Err::<(RoomInfoView, Seq<u8>), ProtocolError>(e),
        },
{
    let (join_code, r) = read_string(bytes)?;
    let (metadata, r) = read_string(r)?;
    Ok((RoomInfo { join_code, metadata }, r))
}

/// The entries of a list, one after the other.
pub open spec fn spec_push_room_infos(rooms: Seq<RoomInfoView>) -> Seq<u8>
    decreases rooms.len(),
{
    if rooms.len() == 0 {
        Seq::empty()
    } else {
        spec_push_room_infos(rooms.drop_last()) + spec_push_room_info(rooms.last())
    }
}

/// A list travels as the `i32` count of its entries, then the entries.
pub open spec fn spec_push_vec_room_info(rooms: Seq<RoomInfoView>) -> Seq<u8> {
    spec_push_i32(rooms.len() as i32) + spec_push_room_infos(rooms)
}

/// Reads `n` entries from the front of `b`.
pub open spec fn spec_read_room_infos(b: Seq<u8>, n: nat) -> Result<(Seq<RoomInfoView>, Seq<u8>), ProtocolError>
    decreases n,
{
    if n == 0 {
        Ok((Seq::empty(), b))
    } else {
        match spec_read_room_info(b) {
            Err(e) => Err(e),
            Ok((room, rest)) => spec_prepend(room, spec_read_room_infos(rest, (n - 1) as nat)),
        }
    }
}

/// Puts `room` in front of a list that was read, and passes an error on.
pub open spec fn spec_prepend(
    room: RoomInfoView,
    r: Result<(Seq<RoomInfoView>, Seq<u8>), ProtocolError>,
) -> Result<(Seq<RoomInfoView>, Seq<u8>), ProtocolError> {
    match r {
        Err(e) => Err(e),
        Ok((rooms, rest)) => Ok((seq![room] + rooms, rest)),
    }
}

/// Puts `before` in front of a list that was read, and passes an error on.
pub open spec fn spec_prepend_all(
    before: Seq<RoomInfoView>,
    r: Result<(Seq<RoomInfoView>, Seq<u8>), ProtocolError>,
) -> Result<(Seq<RoomInfoView>, Seq<u8>), ProtocolError> {
    match r {
        Err(e) => Err(e),
        Ok((rooms, rest)) => Ok((before + rooms, rest)),
    }
}

/// A list of entries from the front of `b`, and what follows it. The count
/// must not be negative.
pub open spec fn spec_read_vec_room_info(b: Seq<u8>) -> Result<(Seq<RoomInfoView>, Seq<u8>), ProtocolError> {
    match spec_read_i32(b) {
        Err(e) => Err(e),
        Ok((len, rest)) => {
            if len < 0 {
                Err(ProtocolError::NegativeLength)
            } else {
                spec_read_room_infos(rest, len as nat)
            }
        },
    }
}

/// Whether the count of the list and every entry fit their length
/// prefixes.
pub open spec fn room_infos_fit(rooms: Seq<RoomInfoView>) -> bool {
    &&& rooms.len() <= i32::MAX
    &&& forall|i: int| 0 <= i < rooms.len() ==> room_info_fits(#[trigger] rooms[i])
}

/// The entries of `front + back` are those of `front`, then those of `back`.
pub proof fn lemma_push_room_infos_concat(front: Seq<RoomInfoView>, back: Seq<RoomInfoView>)
    ensures
        spec_push_room_infos(front + back) =~= spec_push_room_infos(front) + spec_push_room_infos(back),
    decreases back.len(),
{
    if back.len() == 0 {
        assert(front + back =~= front);
    } else {
        assert((front + back).drop_last() =~= front + back.drop_last());
        assert((front + back).last() == back.last());
        lemma_push_room_infos_concat(front, back.drop_last());
    }
}

/// Entries that fit read back from their own bytes, whatever follows
/// them.
pub proof fn lemma_read_push_room_infos(rooms: Seq<RoomInfoView>, tail: Seq<u8>)
    requires
        forall|i: int| 0 <= i < rooms.len() ==> room_info_fits(#[trigger] rooms[i]),
    ensures
        spec_read_room_infos(spec_push_room_infos(rooms) + tail, rooms.len())
            == Ok::<(Seq<RoomInfoView>, Seq<u8>), ProtocolError>((rooms, tail)),
    decreases rooms.len(),
{
    if rooms.len() == 0 {
        assert(spec_push_room_infos(rooms) + tail =~= tail);
        assert(rooms =~= Seq::empty());
    } else {
        let first = rooms.first();
        let others = rooms.drop_first();
        assert(rooms =~= seq![first] + others);
        lemma_push_room_infos_concat(seq![first], others);
        assert(seq![first].drop_last() =~= Seq::<RoomInfoView>::empty());
        assert(spec_push_room_infos(seq![first]) =~= spec_push_room_info(first)) by {
            reveal_with_fuel(spec_push_room_infos, 2);
        }
        assert(spec_push_room_infos(rooms) + tail
            =~= spec_push_room_info(first) + (spec_push_room_infos(others) + tail));
        assert(room_info_fits(rooms[0]));
        lemma_read_push_room_info(first, spec_push_room_infos(others) + tail);
        assert forall|i: int| 0 <= i < others.len() implies room_info_fits(#[trigger] others[i]) by {
            assert(others[i] == rooms[i + 1]);
        }
        lemma_read_push_room_infos(others, tail);
    }
}

/// A list that fits reads back from its own bytes, whatever follows them.
pub proof fn lemma_read_push_vec_room_info(rooms: Seq<RoomInfoView>, tail: Seq<u8>)
    requires
        room_infos_fit(rooms),
    ensures
        spec_read_vec_room_info(spec_push_vec_room_info(rooms) + tail)
            == Ok::<(Seq<RoomInfoView>, Seq<u8>), ProtocolError>((rooms, tail)),
{
    let n = rooms.len() as i32;
    assert(spec_push_vec_room_info(rooms) + tail =~= spec_push_i32(n) + (spec_push_room_infos(rooms) + tail));
    lemma_read_push_i32(n, spec_push_room_infos(rooms) + tail);
    lemma_read_push_room_infos(rooms, tail);
}

/// Appends the count of `rooms` as an `i32`, then each entry.
pub fn push_vec_room_info(buf: &mut Vec<u8>, rooms: &[RoomInfo])
    ensures
        final(buf)@ == old(buf)@ + spec_push_vec_room_info(rooms@.map_values(|r: RoomInfo| r@)),
{
    let ghost views = rooms@.map_values(|r: RoomInfo| r@);
    push_i32(buf, #[verifier::truncate] (rooms.len() as i32));
    let mut i: usize = 0;
    while i < rooms.len()
        invariant
            i <= rooms.len(),
            views == rooms@.map_values(|r: RoomInfo| r@),
            buf@ == old(buf)@ + spec_push_i32(views.len() as i32) + spec_push_room_infos(views.take(i as int)),
        decreases rooms.len() - i,
    {
        let room = &rooms[i];
        push_string(buf, room.join_code.as_str());
        push_string(buf, room.metadata.as_str());
        proof {
            let next = views.take(i + 1);
            assert(next.drop_last() =~= views.take(i as int));
            assert(next.last() == room@);
            assert(buf@ =~= old(buf)@ + spec_push_i32(views.len() as i32) + spec_push_room_infos(next));
        }
        i += 1;
    }
    assert(views.take(i as int) =~= views);
    assert(buf@ =~= old(buf)@ + spec_push_vec_room_info(views));
}

/// Reads a counted list of entries and hands back what follows it.
pub fn read_vec_room_info(bytes: &[u8]) -> (r: Result<(Vec<RoomInfo>, &[u8]), ProtocolError>)
    ensures
        match r {
            Ok((rooms, rest)) => spec_read_vec_room_info(bytes@)
                == Ok::<(Seq<RoomInfoView>, Seq<u8>), ProtocolError>(
                (rooms@.map_values(|r: RoomInfo| r@), rest@),
            ),
            Err(e) => spec_read_vec_room_info(bytes@)
                == Err::<(Seq<RoomInfoView>, Seq<u8>), ProtocolError>(e),
        },
{
    let (len, first) = read_i32(bytes)?;
    if len < 0 {
        return Err(ProtocolError::NegativeLength);
    }
    let mut rest = first;
    let mut rooms: Vec<RoomInfo> = Vec::new();
    let mut i: i32 = 0;
    while i < len
        invariant
            0 <= i <= len,
            spec_read_i32(bytes@) == Ok::<(i32, Seq<u8>), ProtocolError>((len, first@)),
            spec_read_room_infos(first@, len as nat) == spec_prepend_all(
                rooms@.map_values(|r: RoomInfo| r@),
                spec_read_room_infos(rest@, (len - i) as nat),
            ),
        decreases len - i,
    {
        let ghost before = rooms@.map_values(|r: RoomInfo| r@);
        match read_room_info(rest) {
            Err(e) => {
                assert(spec_read_room_infos(rest@, (len - i) as nat)
                    == Err::<(Seq<RoomInfoView>, Seq<u8>), ProtocolError>(e));
                return Err(e);
            },
            Ok((room, remaining)) => {
                proof {
                    let after = rooms@.push(room).map_values(|r: RoomInfo| r@);
                    assert(after =~= before.push(room@));
                    match spec_read_room_infos(remaining@, (len - i - 1) as nat) {
                        Ok((tail_rooms, _)) => {
                            assert(before + (seq![room@] + tail_rooms) =~= after + tail_rooms);
                        },
                        Err(_) => {},
                    }
                }
                rooms.push(room);
                rest = remaining;
            },
        }
        i += 1;
    }
    proof {
        assert(rooms@.map_values(|r: RoomInfo| r@) + Seq::<RoomInfoView>::empty()
            =~= rooms@.map_values(|r: RoomInfo| r@));
    }
    Ok((rooms, rest))
}

} // verus!
