use vstd::prelude::*;
use vstd::utf8::{valid_utf8, decode_utf8};

verus! {

/// std::io::Error, carried unread by the library's error type.
#[verifier::external_type_specification]
#[verifier::external_body]
pub struct ExIoError(std::io::Error);

/// std::string::FromUtf8Error, the error of String::from_utf8, carried unread.
#[verifier::external_type_specification]
#[verifier::external_body]
pub struct ExFromUtf8Error(std::string::FromUtf8Error);

/// `v` as two big-endian bytes.
pub open spec fn be2(v: u16) -> Seq<u8> {
    seq![(v >> 8u16) as u8, (v & 0xffu16) as u8]
}

/// `v` as four big-endian bytes.
pub open spec fn be4(v: u32) -> Seq<u8> {
    seq![(v >> 24u32) as u8, ((v >> 16u32) & 0xffu32) as u8, ((v >> 8u32) & 0xffu32) as u8, (v & 0xffu32) as u8]
}

/// `v` as eight big-endian bytes.
pub open spec fn be8(v: u64) -> Seq<u8> {
    seq![
        (v >> 56u64) as u8,
        ((v >> 48u64) & 0xffu64) as u8,
        ((v >> 40u64) & 0xffu64) as u8,
        ((v >> 32u64) & 0xffu64) as u8,
        ((v >> 24u64) & 0xffu64) as u8,
        ((v >> 16u64) & 0xffu64) as u8,
        ((v >> 8u64) & 0xffu64) as u8,
        (v & 0xffu64) as u8,
    ]
}

/// The big-endian value of the two bytes of `s` from `i` on.
pub open spec fn of_be2(s: Seq<u8>, i: int) -> u16 {
    ((s[i] as u16) << 8u16) | (s[i + 1] as u16)
}

/// The big-endian value of the four bytes of `s` from `i` on.
pub open spec fn of_be4(s: Seq<u8>, i: int) -> u32 {
    ((s[i] as u32) << 24u32) | ((s[i + 1] as u32) << 16u32) | ((s[i + 2] as u32) << 8u32) | (s[i
        + 3] as u32)
}

/// The big-endian value of the eight bytes of `s` from `i` on.
pub open spec fn of_be8(s: Seq<u8>, i: int) -> u64 {
    ((s[i] as u64) << 56u64) | ((s[i + 1] as u64) << 48u64) | ((s[i + 2] as u64) << 40u64) | ((s[i
        + 3] as u64) << 32u64) | ((s[i + 4] as u64) << 24u64) | ((s[i + 5] as u64) << 16u64) | ((s[i
        + 6] as u64) << 8u64) | (s[i + 7] as u64)
}

/// The shortest MessagePack encoding of an unsigned integer.
pub open spec fn enc_uint(v: u64) -> Seq<u8> {
    if v < 128 {
        seq![v as u8]
    } else if v < 256 {
        seq![0xccu8, v as u8]
    } else if v < 65536 {
        seq![0xcdu8] + be2(v as u16)
    } else if v < 0x1_0000_0000 {
        seq![0xceu8] + be4(v as u32)
    } else {
        seq![0xcfu8] + be8(v)
    }
}

/// The MessagePack header of a string of `n` bytes.
pub open spec fn enc_str_len(n: u32) -> Seq<u8> {
    if n < 32 {
        seq![(0xa0 + n) as u8]
    } else if n < 256 {
        seq![0xd9u8, n as u8]
    } else if n < 65536 {
        seq![0xdau8] + be2(n as u16)
    } else {
        seq![0xdbu8] + be4(n)
    }
}

/// The MessagePack header of an array of `n` items.
pub open spec fn enc_array_len(n: u32) -> Seq<u8> {
    if n < 16 {
        seq![(0x90 + n) as u8]
    } else if n < 65536 {
        seq![0xdcu8] + be2(n as u16)
    } else {
        seq![0xddu8] + be4(n)
    }
}

/// The MessagePack header of a map of `n` pairs.
pub open spec fn enc_map_len(n: u32) -> Seq<u8> {
    if n < 16 {
        seq![(0x80 + n) as u8]
    } else if n < 65536 {
        seq![0xdeu8] + be2(n as u16)
    } else {
        seq![0xdfu8] + be4(n)
    }
}

/// A MessagePack integer at the front of `s` whose value fits in `u64`, and how many
/// bytes it takes; `None` when there is none.
pub open spec fn parse_uint(s: Seq<u8>) -> Option<(u64, int)> {
    if s.len() < 1 {
        None
    } else {
        let m = s[0];
        if m <= 0x7f {
            Some((m as u64, 1))
        } else if m == 0xcc || m == 0xd0 {
            if s.len() >= 2 && (m == 0xcc || s[1] < 0x80) {
                Some((s[1] as u64, 2))
            } else {
                None
            }
        } else if m == 0xcd || m == 0xd1 {
            if s.len() >= 3 && (m == 0xcd || s[1] < 0x80) {
                Some((of_be2(s, 1) as u64, 3))
            } else {
                None
            }
        } else if m == 0xce || m == 0xd2 {
            if s.len() >= 5 && (m == 0xce || s[1] < 0x80) {
                Some((of_be4(s, 1) as u64, 5))
            } else {
                None
            }
        } else if m == 0xcf || m == 0xd3 {
            if s.len() >= 9 && (m == 0xcf || s[1] < 0x80) {
                Some((of_be8(s, 1), 9))
            } else {
                None
            }
        } else {
            None
        }
    }
}

/// A length header at the front of `s`: a one-byte form whose low bits hold the length
/// (markers `fix` to `fix + span - 1`), or a marker followed by one, two or four length bytes.
pub open spec fn parse_len(s: Seq<u8>, fix: u8, span: u8, m8: Option<u8>, m16: u8, m32: u8) -> Option<(u32, int)> {
    if s.len() < 1 {
        None
    } else {
        let m = s[0];
        if fix <= m && m < fix + span {
            Some(((m - fix) as u32, 1))
        } else if m8 == Some(m) {
            if s.len() >= 2 {
                Some((s[1] as u32, 2))
            } else {
                None
            }
        } else if m == m16 {
            if s.len() >= 3 {
                Some((of_be2(s, 1) as u32, 3))
            } else {
                None
            }
        } else if m == m32 {
            if s.len() >= 5 {
                Some((of_be4(s, 1), 5))
            } else {
                None
            }
        } else {
            None
        }
    }
}

pub open spec fn parse_str_len(s: Seq<u8>) -> Option<(u32, int)> {
    parse_len(s, 0xa0, 32, Some(0xd9u8), 0xda, 0xdb)
}

pub open spec fn parse_array_len(s: Seq<u8>) -> Option<(u32, int)> {
    parse_len(s, 0x90, 16, None, 0xdc, 0xdd)
}

pub open spec fn parse_map_len(s: Seq<u8>) -> Option<(u32, int)> {
    parse_len(s, 0x80, 16, None, 0xde, 0xdf)
}

/// What a reader that took `n` bytes from `rd` has left.
pub open spec fn rest_after(rd: Seq<u8>, rest: Seq<u8>, n: int) -> bool {
    0 <= n <= rd.len() && rest == rd.subrange(n, rd.len() as int)
}

/// Relies on rmp::encode::write_uint: appends the shortest MessagePack encoding of `v`.
/// Every rmp wrapper hands back the message of the error that rmp reports. The writers
/// write through `write_all` into a `Vec<u8>`, which appends and never fails (std's
/// `impl Write for Vec<u8>`), so they succeed.
#[verifier::external_body]
pub(crate) fn put_uint(buf: &mut Vec<u8>, v: u64) -> (r: Result<(), String>)
    ensures
        r is Ok,
        final(buf)@ == old(buf)@ + enc_uint(v),
{
    match rmp::encode::write_uint(buf, v) {
        Ok(_) => Ok(()),
        Err(e) => Err(e.to_string()),
    }
}

/// Relies on rmp::encode::write_str_len: appends the header of a string of `n` bytes.
#[verifier::external_body]
pub(crate) fn put_str_len(buf: &mut Vec<u8>, n: u32) -> (r: Result<(), String>)
    ensures
        r is Ok,
        final(buf)@ == old(buf)@ + enc_str_len(n),
{
    match rmp::encode::write_str_len(buf, n) {
        Ok(_) => Ok(()),
        Err(e) => Err(e.to_string()),
    }
}

/// Relies on rmp::encode::write_array_len: appends the header of an array of `n` items.
#[verifier::external_body]
pub(crate) fn put_array_len(buf: &mut Vec<u8>, n: u32) -> (r: Result<(), String>)
    ensures
        r is Ok,
        final(buf)@ == old(buf)@ + enc_array_len(n),
{
    match rmp::encode::write_array_len(buf, n) {
        Ok(_) => Ok(()),
        Err(e) => Err(e.to_string()),
    }
}

/// Relies on rmp::encode::write_map_len: appends the header of a map of `n` pairs.
#[verifier::external_body]
pub(crate) fn put_map_len(buf: &mut Vec<u8>, n: u32) -> (r: Result<(), String>)
    ensures
        r is Ok,
        final(buf)@ == old(buf)@ + enc_map_len(n),
{
    match rmp::encode::write_map_len(buf, n) {
        Ok(_) => Ok(()),
        Err(e) => Err(e.to_string()),
    }
}

/// Relies on rmp::decode::read_int: reads one MessagePack integer that fits in `u64` and
/// hands back the bytes after it.
#[verifier::external_body]
pub(crate) fn take_uint(rd: &[u8]) -> (r: Result<(u64, &[u8]), String>)
    ensures
        r is Ok <==> parse_uint(rd@) is Some,
        r matches Ok((v, rest)) ==> parse_uint(rd@) == Some((v, rd@.len() - rest@.len()))
            && rest_after(rd@, rest@, rd@.len() - rest@.len()),
{
    let mut cur = rd;
    match rmp::decode::read_int(&mut cur) {
        Ok(v) => Ok((v, cur)),
        Err(e) => Err(e.to_string()),
    }
}

/// Relies on rmp::decode::read_str_len: reads the header of a string and hands back the
/// bytes after it.
#[verifier::external_body]
pub(crate) fn take_str_len(rd: &[u8]) -> (r: Result<(u32, &[u8]), String>)
    ensures
        r is Ok <==> parse_str_len(rd@) is Some,
        r matches Ok((n, rest)) ==> parse_str_len(rd@) == Some((n, rd@.len() - rest@.len()))
            && rest_after(rd@, rest@, rd@.len() - rest@.len()),
{
    let mut cur = rd;
    match rmp::decode::read_str_len(&mut cur) {
        Ok(n) => Ok((n, cur)),
        Err(e) => Err(e.to_string()),
    }
}

/// Relies on rmp::decode::read_array_len: reads the header of an array and hands back the
/// bytes after it.
#[verifier::external_body]
pub(crate) fn take_array_len(rd: &[u8]) -> (r: Result<(u32, &[u8]), String>)
    ensures
        r is Ok <==> parse_array_len(rd@) is Some,
        r matches Ok((n, rest)) ==> parse_array_len(rd@) == Some((n, rd@.len() - rest@.len()))
            && rest_after(rd@, rest@, rd@.len() - rest@.len()),
{
    let mut cur = rd;
    match rmp::decode::read_array_len(&mut cur) {
        Ok(n) => Ok((n, cur)),
        Err(e) => Err(e.to_string()),
    }
}

/// Relies on rmp::decode::read_map_len: reads the header of a map and hands back the bytes
/// after it.
#[verifier::external_body]
pub(crate) fn take_map_len(rd: &[u8]) -> (r: Result<(u32, &[u8]), String>)
    ensures
        r is Ok <==> parse_map_len(rd@) is Some,
        r matches Ok((n, rest)) ==> parse_map_len(rd@) == Some((n, rd@.len() - rest@.len()))
            && rest_after(rd@, rest@, rd@.len() - rest@.len()),
{
    let mut cur = rd;
    match rmp::decode::read_map_len(&mut cur) {
        Ok(n) => Ok((n, cur)),
        Err(e) => Err(e.to_string()),
    }
}

/// Relies on String::from_utf8: the bytes as text when they are valid UTF-8.
#[verifier::external_body]
pub(crate) fn string_from_utf8(v: Vec<u8>) -> (r: Result<String, std::string::FromUtf8Error>)
    ensures
        r is Ok <==> valid_utf8(v@),
        r matches Ok(s) ==> s@ == decode_utf8(v@),
{
    String::from_utf8(v)
}

/// Reading back the encoding of an unsigned integer gives the integer.
pub proof fn lemma_uint_round_trip(v: u64, rest: Seq<u8>)
    ensures
        parse_uint(enc_uint(v) + rest) == Some((v, enc_uint(v).len() as int)),
{
    let s = enc_uint(v) + rest;
    if v < 128 {
    } else if v < 256 {
    } else if v < 65536 {
        let x = v as u16;
        assert(s[1] == (x >> 8u16) as u8 && s[2] == (x & 0xffu16) as u8);
        assert((((x >> 8u16) as u8) as u16) << 8u16 | (((x & 0xffu16) as u8) as u16) == x) by (bit_vector);
    } else if v < 0x1_0000_0000 {
        let x = v as u32;
        assert(s[1] == (x >> 24u32) as u8 && s[2] == ((x >> 16u32) & 0xffu32) as u8 && s[3] == ((x
            >> 8u32) & 0xffu32) as u8 && s[4] == (x & 0xffu32) as u8);
        assert((((x >> 24u32) as u8) as u32) << 24u32 | ((((x >> 16u32) & 0xffu32) as u8) as u32)
            << 16u32 | ((((x >> 8u32) & 0xffu32) as u8) as u32) << 8u32 | (((x & 0xffu32) as u8) as u32)
            == x) by (bit_vector);
    } else {
        assert(s[1] == (v >> 56u64) as u8 && s[2] == ((v >> 48u64) & 0xffu64) as u8 && s[3] == ((v
            >> 40u64) & 0xffu64) as u8 && s[4] == ((v >> 32u64) & 0xffu64) as u8 && s[5] == ((v
            >> 24u64) & 0xffu64) as u8 && s[6] == ((v >> 16u64) & 0xffu64) as u8 && s[7] == ((v
            >> 8u64) & 0xffu64) as u8 && s[8] == (v & 0xffu64) as u8);
        assert((((v >> 56u64) as u8) as u64) << 56u64 | ((((v >> 48u64) & 0xffu64) as u8) as u64)
            << 48u64 | ((((v >> 40u64) & 0xffu64) as u8) as u64) << 40u64 | ((((v >> 32u64)
            & 0xffu64) as u8) as u64) << 32u64 | ((((v >> 24u64) & 0xffu64) as u8) as u64) << 24u64
            | ((((v >> 16u64) & 0xffu64) as u8) as u64) << 16u64 | ((((v >> 8u64) & 0xffu64) as u8)
            as u64) << 8u64 | (((v & 0xffu64) as u8) as u64) == v) by (bit_vector);
    }
}

proof fn lemma_be_round_trip(n: u32, s: Seq<u8>)
    ensures
        n < 65536 && s.len() >= 3 && s.subrange(1, 3) == be2(n as u16) ==> of_be2(s, 1) as u32 == n,
        s.len() >= 5 && s.subrange(1, 5) == be4(n) ==> of_be4(s, 1) == n,
{
    if n < 65536 && s.len() >= 3 && s.subrange(1, 3) == be2(n as u16) {
        let x = n as u16;
        assert(s[1] == s.subrange(1, 3)[0] && s[2] == s.subrange(1, 3)[1]);
        assert((((x >> 8u16) as u8) as u16) << 8u16 | (((x & 0xffu16) as u8) as u16) == x) by (bit_vector);
    }
    if s.len() >= 5 && s.subrange(1, 5) == be4(n) {
        let x = n;
        assert(s[1] == s.subrange(1, 5)[0] && s[2] == s.subrange(1, 5)[1] && s[3] == s.subrange(1, 5)[2]
            && s[4] == s.subrange(1, 5)[3]);
        assert((((x >> 24u32) as u8) as u32) << 24u32 | ((((x >> 16u32) & 0xffu32) as u8) as u32)
            << 16u32 | ((((x >> 8u32) & 0xffu32) as u8) as u32) << 8u32 | (((x & 0xffu32) as u8) as u32)
            == x) by (bit_vector);
    }
}

/// Reading back a string header gives its length.
pub proof fn lemma_str_len_round_trip(n: u32, rest: Seq<u8>)
    ensures
        parse_str_len(enc_str_len(n) + rest) == Some((n, enc_str_len(n).len() as int)),
{
    let s = enc_str_len(n) + rest;
    if n >= 256 {
        assert(s.subrange(1, 3) =~= be2(n as u16) || n >= 65536);
        assert(n >= 65536 ==> s.subrange(1, 5) =~= be4(n));
        lemma_be_round_trip(n, s);
    }
}

/// Reading back an array header gives its length.
pub proof fn lemma_array_len_round_trip(n: u32, rest: Seq<u8>)
    ensures
        parse_array_len(enc_array_len(n) + rest) == Some((n, enc_array_len(n).len() as int)),
{
    let s = enc_array_len(n) + rest;
    if n >= 16 {
        assert(s.subrange(1, 3) =~= be2(n as u16) || n >= 65536);
        assert(n >= 65536 ==> s.subrange(1, 5) =~= be4(n));
        lemma_be_round_trip(n, s);
    }
}

/// Reading back a map header gives its length.
pub proof fn lemma_map_len_round_trip(n: u32, rest: Seq<u8>)
    ensures
        parse_map_len(enc_map_len(n) + rest) == Some((n, enc_map_len(n).len() as int)),
{
    let s = enc_map_len(n) + rest;
    if n >= 16 {
        assert(s.subrange(1, 3) =~= be2(n as u16) || n >= 65536);
        assert(n >= 65536 ==> s.subrange(1, 5) =~= be4(n));
        lemma_be_round_trip(n, s);
    }
}

} // verus!
